//! What each part of a USX document means, case by case.

use vstd::prelude::*;

use crate::error::ErrorView;
use crate::passage::VerseView;
use crate::text;
use crate::usx::{self, ChapterView, HeaderView, Progress};
use crate::xml::{self, ElementView, EventView};

verus! {

// Verse numbers.

proof fn lemma_numbers_of_both(a: Seq<Seq<char>>, b: Seq<Seq<char>>)
    ensures
        usx::numbers_at_starts(a + b) == usx::numbers_at_starts(a) + usx::numbers_at_starts(b),
    decreases b.len(),
{
    if b.len() == 0 {
        assert(a + b =~= a);
        assert(usx::numbers_at_starts(a) + usx::numbers_at_starts(b) =~= usx::numbers_at_starts(a));
    } else {
        let before = b.drop_last();
        assert((a + b).drop_last() =~= a + before);
        assert((a + b).last() == b.last());
        lemma_numbers_of_both(a, before);
        assert(usx::numbers_at_starts(a + b) =~= usx::numbers_at_starts(a)
            + usx::numbers_at_starts(b));
    }
}

proof fn lemma_same_span(a: (u32, u32), b: (u32, u32), numbers: Seq<u32>)
    requires
        usx::is_span(a, numbers),
        usx::is_span(b, numbers),
    ensures
        a == b,
{
}

/// The span of a number with two parts reaches from the smaller start to the greater end of
/// the spans of its parts, and is that of one part where the other has none.
pub proof fn law_span_of_two_parts(x: Seq<char>, c: char, y: Seq<char>)
    requires
        c == '-' || c == ',',
    ensures
        usx::number_span(x + seq![c] + y) == (match (usx::number_span(x), usx::number_span(y)) {
            (None, span) => span,
            (span, None) => span,
            (Some((a, b)), Some((p, q))) => Some(
                (
                    if a < p {
                        a
                    } else {
                        p
                    },
                    if b > q {
                        b
                    } else {
                        q
                    },
                ),
            ),
        }),
{
    let whole = x + seq![c] + y;
    text::law_pieces(x, c, y, '-', ',');
    lemma_numbers_of_both(text::pieces(x, '-', ','), text::pieces(y, '-', ','));
    let left = usx::verse_numbers(x);
    let right = usx::verse_numbers(y);
    let all = usx::verse_numbers(whole);
    assert(all == left + right);
    usx::law_number_span(x);
    usx::law_number_span(y);
    usx::law_number_span(whole);
    if left.len() == 0 {
        assert(all =~= right);
    } else if right.len() == 0 {
        assert(all =~= left);
    } else {
        let (a, b) = usx::number_span(x)->0;
        let (p, q) = usx::number_span(y)->0;
        let span = (
            if a < p {
                a
            } else {
                p
            },
            if b > q {
                b
            } else {
                q
            },
        );
        assert forall|n: u32| left.contains(n) implies all.contains(n) by {
            let k = choose|k: int| 0 <= k < left.len() && left[k] == n;
            assert(all[k] == n);
        }
        assert forall|n: u32| right.contains(n) implies all.contains(n) by {
            let k = choose|k: int| 0 <= k < right.len() && right[k] == n;
            assert(all[left.len() + k] == n);
        }
        assert forall|i: int| 0 <= i < all.len() implies span.0 <= #[trigger] all[i]
            <= span.1 by {
            if i < left.len() {
                assert(a <= left[i] <= b);
            } else {
                assert(p <= right[i - left.len()] <= q);
            }
        }
        assert(usx::is_span(span, all));
        lemma_same_span(span, usx::number_span(whole)->0, all);
    }
}

proof fn lemma_unpadded(pad: Seq<char>, rest: Seq<char>)
    requires
        forall|i: int| 0 <= i < pad.len() ==> usx::is_number_padding(#[trigger] pad[i]),
        rest.len() == 0 || !usx::is_number_padding(rest[0]),
    ensures
        usx::unpadded(pad + rest) == rest,
    decreases pad.len(),
{
    if pad.len() == 0 {
        assert(pad + rest =~= rest);
    } else {
        assert(usx::is_number_padding(pad[0]));
        assert((pad + rest).skip(1) =~= pad.skip(1) + rest);
        assert forall|i: int| 0 <= i < pad.skip(1).len() implies usx::is_number_padding(
            #[trigger] pad.skip(1)[i],
        ) by {
            assert(usx::is_number_padding(pad[i + 1]));
        }
        lemma_unpadded(pad.skip(1), rest);
    }
}

proof fn lemma_leading(digits: Seq<char>, rest: Seq<char>)
    requires
        forall|i: int| 0 <= i < digits.len() ==> '0' <= #[trigger] digits[i] <= '9',
        rest.len() == 0 || rest[0] < '0' || '9' < rest[0],
    ensures
        usx::leading_digits(digits + rest) == digits,
    decreases digits.len(),
{
    let whole = digits + rest;
    if digits.len() == 0 {
        assert(whole =~= rest);
        assert(usx::leading_digits(rest) =~= digits);
    } else {
        assert('0' <= digits[0] <= '9');
        let less = digits.skip(1);
        assert(whole.skip(1) =~= less + rest);
        assert forall|i: int| 0 <= i < less.len() implies '0' <= #[trigger] less[i] <= '9' by {
            assert('0' <= digits[i + 1] <= '9');
        }
        lemma_leading(less, rest);
        assert(seq![whole[0]] + less =~= digits);
    }
}

/// The span of a number with one part: white space and right-to-left marks may stand before
/// its digits, and what follows the digits does not count.
pub proof fn law_span_of_one_part(pad: Seq<char>, digits: Seq<char>, rest: Seq<char>)
    requires
        forall|i: int|
            0 <= i < pad.len() ==> {
                let c = #[trigger] pad[i];
                c == ' ' || c == '\t' || c == '\n' || c == '\r' || c == '\u{c}' || c == '\u{200f}'
            },
        forall|i: int| 0 <= i < digits.len() ==> '0' <= #[trigger] digits[i] <= '9',
        rest.len() > 0 ==> rest[0] < '0' || '9' < rest[0],
        digits.len() == 0 && rest.len() > 0 ==> rest[0] != ' ' && rest[0] != '\t' && rest[0] != '\n'
            && rest[0] != '\r' && rest[0] != '\u{c}' && rest[0] != '\u{200f}',
        forall|i: int| 0 <= i < rest.len() ==> #[trigger] rest[i] != '-' && rest[i] != ',',
    ensures
        usx::number_span(pad + digits + rest) == (match text::parsed_u32(digits) {
            Some(n) => Some((n, n)),
            None => None::<(u32, u32)>,
        }),
{
    let part = pad + digits + rest;
    let tail = digits + rest;
    assert(part =~= pad + tail);
    if digits.len() > 0 {
        assert('0' <= digits[0] <= '9');
        assert(tail[0] == digits[0]);
    } else {
        assert(tail =~= rest);
    }
    lemma_unpadded(pad, tail);
    lemma_leading(digits, rest);
    assert forall|i: int| 0 <= i < part.len() implies #[trigger] part[i] != '-' && part[i]
        != ',' by {
        if i < pad.len() {
            assert(part[i] == pad[i]);
        } else if i < pad.len() + digits.len() {
            assert(part[i] == digits[i - pad.len()]);
        } else {
            assert(part[i] == rest[i - pad.len() - digits.len()]);
        }
    }
    text::law_pieces(part, '-', seq![], '-', ',');
    let parts = seq![part];
    assert(usx::numbers_at_starts(parts.drop_last()) =~= seq![]);
    assert(parts.last() == part);
    match text::parsed_u32(digits) {
        Some(n) => {
            let numbers = usx::verse_numbers(part);
            assert(numbers =~= seq![n]);
            assert(numbers[0] == n);
            assert(usx::is_span((n, n), numbers));
            usx::law_number_span(part);
            lemma_same_span((n, n), usx::number_span(part)->0, numbers);
        },
        None => {
            assert(usx::verse_numbers(part) =~= seq![]);
        },
    }
}

// Scripture identifiers.

proof fn lemma_plain_reading(s: Seq<char>, in_numeral: bool)
    requires
        s.len() > 1 && s[0] == '0' && '0' <= s[1] <= '9' ==> in_numeral,
        forall|i: int|
            0 < i < s.len() - 1 && #[trigger] s[i] == '0' && '0' <= s[i + 1] <= '9' ==> '0' <= s[i
                - 1] <= '9',
    ensures
        usx::without_leading_zeros(s, in_numeral) == s,
    decreases s.len(),
{
    if s.len() > 0 {
        let rest = s.skip(1);
        assert forall|i: int|
            0 < i < rest.len() - 1 && #[trigger] rest[i] == '0' && '0' <= rest[i + 1]
                <= '9' implies '0' <= rest[i - 1] <= '9' by {
            assert(s[i + 1] == '0' && '0' <= s[i + 2] <= '9');
        }
        if rest.len() > 1 && rest[0] == '0' && '0' <= rest[1] <= '9' {
            assert(s[1] == '0' && '0' <= s[2] <= '9');
        }
        lemma_plain_reading(rest, text::is_digit(s[0]));
        assert(seq![s[0]] + rest =~= s);
    }
}

/// A location without marks, in which no numeral of two or more digits begins with a zero,
/// reads as it stands.
pub proof fn law_plain_locations_read_as_they_stand(s: Seq<char>)
    requires
        forall|i: int| 0 <= i < s.len() ==> #[trigger] s[i] != '\u{200f}',
        s.len() > 1 && s[0] == '0' ==> s[1] < '0' || '9' < s[1],
        forall|i: int|
            0 < i < s.len() - 1 && #[trigger] s[i] == '0' && '0' <= s[i + 1] <= '9' ==> '0' <= s[i
                - 1] <= '9',
    ensures
        usx::reading(s) == s,
{
    lemma_no_marks(s);
    lemma_plain_reading(s, false);
}

proof fn lemma_no_marks(s: Seq<char>)
    requires
        forall|i: int| 0 <= i < s.len() ==> #[trigger] s[i] != '\u{200f}',
    ensures
        usx::without_marks(s) == s,
    decreases s.len(),
{
    reveal(Seq::filter);
    if s.len() == 0 {
        assert(usx::without_marks(s) =~= s);
    } else {
        let before = s.drop_last();
        assert forall|i: int| 0 <= i < before.len() implies #[trigger] before[i] != '\u{200f}' by {
            assert(s[i] != '\u{200f}');
        }
        lemma_no_marks(before);
        assert(s[s.len() - 1] != '\u{200f}');
        assert(before.push(s.last()) =~= s);
    }
}

proof fn lemma_zero_inside(x: Seq<char>, y: Seq<char>, in_numeral: bool)
    requires
        y.len() > 0 && '0' <= y[0] <= '9',
        x.len() == 0 ==> !in_numeral,
        x.len() > 0 ==> x.last() < '0' || '9' < x.last(),
    ensures
        usx::without_leading_zeros(x + seq!['0'] + y, in_numeral) == usx::without_leading_zeros(
            x + y,
            in_numeral,
        ),
    decreases x.len(),
{
    let with = x + seq!['0'] + y;
    let without = x + y;
    if x.len() == 0 {
        assert(with.skip(1) =~= y);
        assert(without =~= y);
        assert(with[0] == '0' && with[1] == y[0]);
    } else {
        let rest = x.skip(1);
        assert(with.skip(1) =~= rest + seq!['0'] + y);
        assert(without.skip(1) =~= rest + y);
        assert(with[0] == x[0] && without[0] == x[0]);
        if x.len() > 1 {
            assert(with[1] == x[1] && without[1] == x[1]);
            assert(rest.last() == x.last());
            lemma_zero_inside(rest, y, false);
            lemma_zero_inside(rest, y, text::is_digit(x[0]));
        } else {
            assert(x[0] == x.last());
            lemma_zero_inside(rest, y, false);
        }
    }
}

/// A zero at the start of a numeral that has another digit does not count, wherever the
/// numeral stands.
pub proof fn law_leading_zeros_do_not_count(x: Seq<char>, y: Seq<char>)
    requires
        y.len() > 0 && '0' <= y[0] <= '9',
        x.len() > 0 ==> (x.last() < '0' || '9' < x.last()) && x.last() != '\u{200f}',
    ensures
        usx::reading(x + seq!['0'] + y) == usx::reading(x + y),
{
    let counts = |c: char| c != '\u{200f}';
    let zero = seq!['0'];
    Seq::filter_distributes_over_add(x + zero, y, counts);
    Seq::filter_distributes_over_add(x, zero, counts);
    Seq::filter_distributes_over_add(x, y, counts);
    lemma_no_marks(zero);
    let left = usx::without_marks(x);
    let right = usx::without_marks(y);
    assert(usx::without_marks(x + zero + y) =~= left + zero + right);
    assert(usx::without_marks(x + y) =~= left + right);
    assert(right.len() > 0 && right[0] == y[0]) by {
        let first = seq![y[0]];
        assert(first + y.skip(1) =~= y);
        Seq::filter_distributes_over_add(first, y.skip(1), counts);
        lemma_no_marks(first);
    }
    if x.len() > 0 {
        let last = seq![x.last()];
        assert(x.drop_last() + last =~= x);
        Seq::filter_distributes_over_add(x.drop_last(), last, counts);
        lemma_no_marks(last);
        assert(left.last() == x.last());
    } else {
        assert(left =~= seq![]) by {
            reveal(Seq::filter);
        }
    }
    lemma_zero_inside(left, right, false);
}

/// How identifiers and locations are put together.
pub proof fn law_identifiers(book_code: Seq<char>, place: Seq<char>, chapter: u32, number: Seq<char>)
    ensures
        usx::identifier(book_code, place) == book_code + seq![' '] + place,
        usx::verse_location(chapter, number) == text::decimal(chapter as nat) + seq![':'] + number,
{
}

/// Identifiers of one book refer to the same place exactly where their locations read alike,
/// whether a space stands behind the book code or not. One that does not begin with the book
/// code refers to the same place only as itself.
pub proof fn law_same_place(
    book_code: Seq<char>,
    x: Seq<char>,
    y: Seq<char>,
    a: Seq<char>,
    b: Seq<char>,
)
    requires
        a == book_code + seq![' '] + x || (a == book_code + x && (x.len() == 0 || x[0] != ' ')),
        b == book_code + seq![' '] + y || (b == book_code + y && (y.len() == 0 || y[0] != ' ')),
    ensures
        usx::same_place(a, b, book_code) <==> usx::reading(x) == usx::reading(y),
{
    lemma_location(book_code, x, a);
    lemma_location(book_code, y, b);
}

proof fn lemma_location(book_code: Seq<char>, x: Seq<char>, a: Seq<char>)
    requires
        a == book_code + seq![' '] + x || (a == book_code + x && (x.len() == 0 || x[0] != ' ')),
    ensures
        usx::location(a, book_code) == Some(x),
{
    assert(a.subrange(0, book_code.len() as int) =~= book_code);
    let rest = a.skip(book_code.len() as int);
    if a == book_code + seq![' '] + x {
        assert(rest =~= seq![' '] + x);
        assert(rest.skip(1) =~= x);
        assert(rest[0] == ' ');
    } else {
        assert(rest =~= x);
    }
}

/// An identifier that does not begin with the book code refers to the same place as itself
/// only.
pub proof fn law_foreign_identifiers(a: Seq<char>, b: Seq<char>, book_code: Seq<char>)
    requires
        !book_code.is_prefix_of(a),
    ensures
        usx::same_place(a, b, book_code) <==> a == b,
        usx::same_place(b, a, book_code) <==> a == b,
{
}

// Versions.

spec fn is_numeral(s: Seq<char>) -> bool {
    s.len() > 0 && forall|i: int| 0 <= i < s.len() ==> '0' <= #[trigger] s[i] <= '9'
}

proof fn lemma_numeral_piece(s: Seq<char>)
    requires
        is_numeral(s),
    ensures
        text::pieces(s, '.', '.') == seq![s],
        s.len() > 0 && text::all_digits(s),
{
    assert forall|i: int| 0 <= i < s.len() implies #[trigger] s[i] != '.' by {
        assert('0' <= s[i] <= '9');
    }
    text::law_pieces(s, '.', seq![], '.', '.');
    assert forall|i: int| 0 <= i < s.len() implies text::is_digit(#[trigger] s[i]) by {
        assert('0' <= s[i] <= '9');
    }
}

/// A version of two or three numerals between periods is supported exactly where the first
/// has a value from 1 to 3, which is then the major version.
pub proof fn law_versions(major: Seq<char>, minor: Seq<char>, patch: Seq<char>)
    requires
        major.len() > 0 && forall|i: int| 0 <= i < major.len() ==> '0' <= #[trigger] major[i] <= '9',
        minor.len() > 0 && forall|i: int| 0 <= i < minor.len() ==> '0' <= #[trigger] minor[i] <= '9',
        patch.len() > 0 && forall|i: int| 0 <= i < patch.len() ==> '0' <= #[trigger] patch[i] <= '9',
    ensures
        usx::major_version(major + seq!['.'] + minor) == usx::major_version(
            major + seq!['.'] + minor + seq!['.'] + patch,
        ),
        match text::parsed_u32(major) {
            Some(n) => if n == 1 || n == 2 || n == 3 {
                usx::major_version(major + seq!['.'] + minor) == Some(n as u8)
            } else {
                usx::major_version(major + seq!['.'] + minor) is None
            },
            None => usx::major_version(major + seq!['.'] + minor) is None,
        },
{
    lemma_numeral_piece(major);
    lemma_numeral_piece(minor);
    lemma_numeral_piece(patch);
    let two = major + seq!['.'] + minor;
    let three = two + seq!['.'] + patch;
    text::law_pieces(major, '.', minor, '.', '.');
    text::law_pieces(two, '.', patch, '.', '.');
    assert(text::pieces(two, '.', '.') =~= seq![major, minor]);
    assert(text::pieces(three, '.', '.') =~= seq![major, minor, patch]);
    let a = text::pieces(two, '.', '.');
    let b = text::pieces(three, '.', '.');
    assert forall|i: int| 0 <= i < a.len() implies (#[trigger] a[i]).len() > 0 && text::all_digits(
        a[i],
    ) by {}
    assert forall|i: int| 0 <= i < b.len() implies (#[trigger] b[i]).len() > 0 && text::all_digits(
        b[i],
    ) by {}
}

proof fn lemma_first_piece(s: Seq<char>)
    ensures
        text::pieces(s, '.', '.').len() > 0,
        text::pieces(s, '.', '.').len() == 1 ==> text::pieces(s, '.', '.')[0] == s,
        text::pieces(s, '.', '.').len() > 1 ==> exists|rest: Seq<char>|
            s == text::pieces(s, '.', '.')[0] + seq!['.'] + rest && #[trigger] text::pieces(
                rest,
                '.',
                '.',
            ) == text::pieces(s, '.', '.').skip(1),
{
    let n = text::piece_len(s, '.', '.') as int;
    if n < s.len() {
        let rest = s.skip(n + 1);
        let parts = text::pieces(s, '.', '.');
        text::lemma_piece_end(s, '.', '.');
        assert(s =~= s.take(n) + seq!['.'] + rest);
        assert(parts.skip(1) =~= text::pieces(rest, '.', '.'));
        assert(parts[0] == s.take(n));
    }
}

/// Nothing but two or three numerals between periods is a supported version.
pub proof fn law_supported_versions_have_their_form(value: Seq<char>)
    requires
        usx::major_version(value) is Some,
    ensures
        exists|major: Seq<char>, minor: Seq<char>|
            #![trigger major + seq!['.'] + minor]
            value == major + seq!['.'] + minor && text::all_digits(major) && major.len() > 0 && (
            minor.len() > 0 && text::all_digits(minor) || exists|second: Seq<char>, patch: Seq<char>|
                #![trigger second + seq!['.'] + patch]
                minor == second + seq!['.'] + patch && text::all_digits(second) && second.len() > 0
                    && text::all_digits(patch) && patch.len() > 0),
{
    let parts = text::pieces(value, '.', '.');
    lemma_first_piece(value);
    let rest = choose|rest: Seq<char>|
        value == parts[0] + seq!['.'] + rest && #[trigger] text::pieces(rest, '.', '.')
            == parts.skip(1);
    lemma_first_piece(rest);
    let others = text::pieces(rest, '.', '.');
    assert(parts[0].len() > 0 && text::all_digits(parts[0]));
    assert(others[0] == parts[1]);
    assert(parts[1].len() > 0 && text::all_digits(parts[1]));
    if parts.len() == 3 {
        let last = choose|last: Seq<char>|
            rest == others[0] + seq!['.'] + last && #[trigger] text::pieces(last, '.', '.')
                == others.skip(1);
        lemma_first_piece(last);
        assert(others.skip(1)[0] == parts[2]);
        assert(parts[2].len() > 0 && text::all_digits(parts[2]));
        assert(rest == parts[1] + seq!['.'] + last);
    }
    assert(value == parts[0] + seq!['.'] + rest);
}

// Elements.

/// Whether an element has an attribute with that value.
pub open spec fn has(element: ElementView, name: Seq<char>, value: Seq<char>) -> bool {
    xml::optional_value(element, name) == Ok::<Option<Seq<char>>, ErrorView>(Some(value))
}

/// Whether an element has no attribute of that name.
pub open spec fn lacks(element: ElementView, name: Seq<char>) -> bool {
    xml::optional_value(element, name) == Ok::<Option<Seq<char>>, ErrorView>(None)
}

/// Whether an attribute of an element cannot be read.
pub open spec fn fails(element: ElementView, name: Seq<char>, error: ErrorView) -> bool {
    xml::optional_value(element, name) == Err::<Option<Seq<char>>, ErrorView>(error)
}

/// The elements whose content is not scripture text, and the milestones, by name.
pub proof fn law_element_names(name: Seq<char>)
    ensures
        usx::is_excluded_name(name) <==> name == "note"@ || name == "figure"@ || name == "sidebar"@,
        usx::is_milestone_name(name) <==> name == "chapter"@ || name == "verse"@,
{
}

/// An attribute that is required gives its value. Its absence is an error that names it.
pub proof fn law_required_attributes(
    element: ElementView,
    name: Seq<char>,
    field: Seq<char>,
    value: Seq<char>,
    error: ErrorView,
)
    ensures
        has(element, name, value) ==> usx::required_value(element, name, field) == Ok::<
            Seq<char>,
            ErrorView,
        >(value),
        lacks(element, name) ==> usx::required_value(element, name, field) == Err::<
            Seq<char>,
            ErrorView,
        >(ErrorView::MissingUsxField(field)),
        fails(element, name, error) ==> usx::required_value(element, name, field) == Err::<
            Seq<char>,
            ErrorView,
        >(error),
{
}

/// A style is accepted exactly where it is the expected one.
pub proof fn law_styles(
    element: ElementView,
    role: Seq<char>,
    expected: Seq<char>,
    style: Seq<char>,
    error: ErrorView,
)
    ensures
        has(element, "style"@, style) ==> usx::style_check(element, role, expected) == (if style
            == expected {
            Ok::<(), ErrorView>(())
        } else {
            Err(ErrorView::InvalidUsxStyle { element: role, expected, actual: style })
        }),
        lacks(element, "style"@) ==> usx::style_check(element, role, expected) == Err::<
            (),
            ErrorView,
        >(ErrorView::MissingUsxField("element/@style"@)),
        fails(element, "style"@, error) ==> usx::style_check(element, role, expected) == Err::<
            (),
            ErrorView,
        >(error),
{
}

/// A book is accepted exactly where it has the style `id` and the expected code.
pub proof fn law_books(
    element: ElementView,
    expected: Seq<char>,
    code: Seq<char>,
    style: Seq<char>,
    error: ErrorView,
)
    ensures
        has(element, "style"@, "id"@) && has(element, "code"@, code) ==> usx::book_check(
            element,
            expected,
        ) == (if code == expected {
            Ok::<(), ErrorView>(())
        } else {
            Err(ErrorView::MismatchedBookCode { expected, actual: code })
        }),
        has(element, "style"@, "id"@) && lacks(element, "code"@) ==> usx::book_check(
            element,
            expected,
        ) == Err::<(), ErrorView>(ErrorView::MissingUsxField("book/@code"@)),
        has(element, "style"@, "id"@) && fails(element, "code"@, error) ==> usx::book_check(
            element,
            expected,
        ) == Err::<(), ErrorView>(error),
        has(element, "style"@, style) && style != "id"@ ==> usx::book_check(element, expected)
            == Err::<(), ErrorView>(
            ErrorView::InvalidUsxStyle { element: "book"@, expected: "id"@, actual: style },
        ),
        lacks(element, "style"@) ==> usx::book_check(element, expected) == Err::<(), ErrorView>(
            ErrorView::MissingUsxField("element/@style"@),
        ),
        fails(element, "style"@, error) ==> usx::book_check(element, expected) == Err::<
            (),
            ErrorView,
        >(error),
{
}

/// A `usx` element declares the major version of its version number.
pub proof fn law_declared_versions(element: ElementView, value: Seq<char>, error: ErrorView)
    ensures
        has(element, "version"@, value) ==> usx::declared_version(element) == (
        match usx::major_version(value) {
            Some(major) => Ok::<u8, ErrorView>(major),
            None => Err(ErrorView::UnsupportedUsxVersion(value)),
        }),
        lacks(element, "version"@) ==> usx::declared_version(element) == Err::<u8, ErrorView>(
            ErrorView::MissingUsxField("usx/@version"@),
        ),
        fails(element, "version"@, error) ==> usx::declared_version(element) == Err::<
            u8,
            ErrorView,
        >(error),
{
}

/// A continuation is accepted exactly where it refers to the open verse.
pub proof fn law_continuations(
    element: ElementView,
    current: Option<VerseView>,
    book_code: Seq<char>,
    actual: Seq<char>,
    error: ErrorView,
)
    ensures
        lacks(element, "vid"@) ==> usx::continuation_check(element, current, book_code) == Ok::<
            (),
            ErrorView,
        >(()),
        fails(element, "vid"@, error) ==> usx::continuation_check(element, current, book_code)
            == Err::<(), ErrorView>(error),
        has(element, "vid"@, actual) && current is None ==> usx::continuation_check(
            element,
            current,
            book_code,
        ) == Err::<(), ErrorView>(
            ErrorView::MismatchedVerseContinuation { expected: seq![], actual },
        ),
        has(element, "vid"@, actual) && current is Some ==> usx::continuation_check(
            element,
            current,
            book_code,
        ) == (if usx::same_place(actual, current->0.sid, book_code) {
            Ok::<(), ErrorView>(())
        } else {
            Err(
                ErrorView::MismatchedVerseContinuation { expected: current->0.sid, actual },
            )
        }),
{
}

// Events.

/// The start of a document: nothing is open, found or declared.
pub proof fn law_start(book_code: Seq<char>)
    ensures
        ({
            let start = usx::at_start(book_code);
            &&& start.book_code == book_code
            &&& start.verses.len() == 0
            &&& start.current is None
            &&& start.chapter is None
            &&& start.excluded_depth == 0
            &&& start.version is None
            &&& !start.found_book
            &&& start.milestone is None
        }),
{
}

/// A document is read event by event: the first error is the answer, and at the end of the
/// document the result is drawn.
pub proof fn law_run(
    progress: Progress,
    event: EventView,
    error: quick_xml::Error,
    rest: Seq<Result<EventView, quick_xml::Error>>,
)
    ensures
        progress.run(seq![Err(error)] + rest) == Err::<Seq<VerseView>, ErrorView>(
            ErrorView::Xml(error),
        ),
        match progress.step(event) {
            Err(fault) => progress.run(seq![Ok(event)] + rest) == Err::<
                Seq<VerseView>,
                ErrorView,
            >(fault),
            Ok(next) => if event is Eof {
                progress.run(seq![Ok(event)] + rest) == next.result()
            } else {
                progress.run(seq![Ok(event)] + rest) == next.run(rest)
            },
        },
{
    let good = seq![Ok::<EventView, quick_xml::Error>(event)] + rest;
    let bad = seq![Err::<EventView, quick_xml::Error>(error)] + rest;
    assert(good[0] == Ok::<EventView, quick_xml::Error>(event));
    assert(bad[0] == Err::<EventView, quick_xml::Error>(error));
    assert(good.skip(1) =~= rest);
}

/// The verses of a document are what its events give from the start, all of them and in
/// their order.
pub proof fn law_document_verses(source: Seq<u8>, book_code: Seq<char>, start: Progress)
    requires
        start == usx::at_start(book_code),
    ensures
        usx::document_verses(source, book_code) == start.run(xml::document_events(source)),
        start.run(seq![]) == start.result(),
{
}

/// What is drawn from a document at its end.
pub proof fn law_result(progress: Progress)
    ensures
        progress.version is None ==> progress.result() == Err::<Seq<VerseView>, ErrorView>(
            ErrorView::MissingUsxField("usx/@version"@),
        ),
        progress.version is Some && !progress.found_book ==> progress.result() == Err::<
            Seq<VerseView>,
            ErrorView,
        >(ErrorView::MissingUsxField("book/@code"@)),
        progress.version is Some && progress.found_book ==> progress.result() == (
        if progress.version->0 >= 3 && progress.chapter is Some {
            Err::<Seq<VerseView>, ErrorView>(ErrorView::MissingUsxField("chapter/@eid"@))
        } else {
            Ok(progress.verses)
        }),
{
}

/// Completing the open verse adds it, with its text collapsed, behind the others and changes
/// nothing else.
pub proof fn law_completion(progress: Progress)
    ensures
        progress.current matches Some(verse) ==> progress.verse_closed() == (Progress {
            verses: progress.verses.push(
                VerseView { text: text::collapsed(verse.text), ..verse },
            ),
            current: None,
            ..progress
        }),
        progress.current is None ==> progress.verse_closed() == progress,
{
}

/// Text, CDATA and references are added to the open verse, whole and at its end. Outside
/// verses and in elements whose content is not scripture text they change nothing.
pub proof fn law_text_events(
    progress: Progress,
    verse: VerseView,
    content: Result<Seq<char>, quick_xml::encoding::EncodingError>,
)
    requires
        progress.milestone is None,
    ensures
        progress.excluded_depth == 0 && progress.current == Some(verse) ==> match content {
            Err(error) => {
                &&& progress.step(EventView::Text(content)) == Err::<Progress, ErrorView>(
                    ErrorView::XmlEncoding(error),
                )
                &&& progress.step(EventView::CData(content)) == Err::<Progress, ErrorView>(
                    ErrorView::XmlEncoding(error),
                )
                &&& progress.step(EventView::Reference(content)) == Err::<Progress, ErrorView>(
                    ErrorView::XmlEncoding(error),
                )
            },
            Ok(text) => {
                &&& progress.step(EventView::Text(content)) == Ok::<Progress, ErrorView>(
                    Progress {
                        current: Some(VerseView { text: verse.text + text, ..verse }),
                        ..progress
                    },
                )
                &&& progress.step(EventView::CData(content)) == Ok::<Progress, ErrorView>(
                    Progress {
                        current: Some(VerseView { text: verse.text + text, ..verse }),
                        ..progress
                    },
                )
                &&& progress.step(EventView::Reference(content)) == (match xml::unescaped(
                    seq!['&'] + text + seq![';'],
                ) {
                    Ok(meaning) => Ok::<Progress, ErrorView>(
                        Progress {
                            current: Some(VerseView { text: verse.text + meaning, ..verse }),
                            ..progress
                        },
                    ),
                    Err(error) => Err(ErrorView::XmlEscape(error)),
                })
            },
        },
        progress.excluded_depth > 0 || progress.current is None ==> {
            &&& progress.step(EventView::Text(content)) == Ok::<Progress, ErrorView>(progress)
            &&& progress.step(EventView::CData(content)) == Ok::<Progress, ErrorView>(progress)
            &&& progress.step(EventView::Reference(content)) == Ok::<Progress, ErrorView>(progress)
        },
{
}

/// A closing tag leaves one level of an element whose content is not scripture text. The end
/// of the document completes the open verse. Comments and the like change nothing.
pub proof fn law_other_events(progress: Progress, name: Seq<char>)
    requires
        progress.milestone is None,
    ensures
        progress.excluded_depth > 0 ==> progress.step(EventView::End(name)) == Ok::<
            Progress,
            ErrorView,
        >(Progress { excluded_depth: (progress.excluded_depth - 1) as nat, ..progress }),
        progress.excluded_depth == 0 ==> progress.step(EventView::End(name)) == Ok::<
            Progress,
            ErrorView,
        >(progress),
        progress.step(EventView::Other) == Ok::<Progress, ErrorView>(progress),
        progress.step(EventView::Eof) == Ok::<Progress, ErrorView>(progress.verse_closed()),
{
}

/// The opening tag of a milestone waits for its closing tag, which must follow. The milestone
/// then counts as one without content.
pub proof fn law_waiting_milestones(progress: Progress, element: ElementView, event: EventView)
    requires
        progress.milestone is None,
        element.name == "chapter"@ || element.name == "verse"@,
    ensures
        progress.step(EventView::Start(element)) == Ok::<Progress, ErrorView>(
            Progress { milestone: Some(element), ..progress },
        ),
        event is End ==> (Progress { milestone: Some(element), ..progress }).step(event)
            == progress.step(EventView::Empty(element)),
        event !is End ==> (Progress { milestone: Some(element), ..progress }).step(event) == Err::<
            Progress,
            ErrorView,
        >(ErrorView::NonEmptyUsxMilestone(element.name)),
{
    usx::lemma_element_names();
    let waiting = Progress { milestone: Some(element), ..progress };
    assert((Progress { milestone: None, ..waiting }) == progress);
}

/// The opening tag of any other element: `usx` declares the version and `book` the book, a
/// note, a figure or a sidebar holds no scripture text, and elsewhere a `vid` attribute must
/// refer to the open verse.
pub proof fn law_opening_tags(progress: Progress, element: ElementView)
    requires
        progress.milestone is None,
        element.name != "chapter"@ && element.name != "verse"@,
    ensures
        element.name == "usx"@ && usx::declared_version(element) is Err ==> progress.step(
            EventView::Start(element),
        ) == Err::<Progress, ErrorView>(usx::declared_version(element)->Err_0),
        element.name == "book"@ && usx::book_check(element, progress.book_code) is Err
            ==> progress.step(EventView::Start(element)) == Err::<Progress, ErrorView>(
            usx::book_check(element, progress.book_code)->Err_0,
        ),
        (element.name == "usx"@ ==> usx::declared_version(element) is Ok) && (element.name
            == "book"@ ==> usx::book_check(element, progress.book_code) is Ok) ==> {
            let declared = Progress {
                version: if element.name == "usx"@ {
                    Some(usx::declared_version(element)->Ok_0)
                } else {
                    progress.version
                },
                found_book: progress.found_book || element.name == "book"@,
                ..progress
            };
            if progress.excluded_depth > 0 {
                progress.step(EventView::Start(element)) == Ok::<Progress, ErrorView>(
                    Progress { excluded_depth: progress.excluded_depth + 1, ..declared },
                )
            } else if element.name == "note"@ || element.name == "figure"@ || element.name
                == "sidebar"@ {
                progress.step(EventView::Start(element)) == Ok::<Progress, ErrorView>(
                    Progress { excluded_depth: 1, ..declared },
                )
            } else {
                progress.step(EventView::Start(element)) == (match usx::continuation_check(
                    element,
                    progress.current,
                    progress.book_code,
                ) {
                    Ok(_) => Ok::<Progress, ErrorView>(declared),
                    Err(error) => Err(error),
                })
            }
        },
{
    usx::lemma_element_names();
}

/// An element without content: in one whose content is not scripture text it changes nothing,
/// `book` must be the expected book, and elsewhere, but for milestones, a `vid` attribute must
/// refer to the open verse.
pub proof fn law_empty_elements(progress: Progress, element: ElementView)
    requires
        progress.milestone is None,
    ensures
        progress.excluded_depth > 0 ==> progress.step(EventView::Empty(element)) == Ok::<
            Progress,
            ErrorView,
        >(progress),
        progress.excluded_depth == 0 && element.name == "book"@ ==> progress.step(
            EventView::Empty(element),
        ) == (match usx::book_check(element, progress.book_code) {
            Ok(_) => Ok::<Progress, ErrorView>(Progress { found_book: true, ..progress }),
            Err(error) => Err(error),
        }),
        progress.excluded_depth == 0 && element.name != "book"@ && element.name != "chapter"@
            && element.name != "verse"@ ==> progress.step(EventView::Empty(element)) == (
        match usx::continuation_check(element, progress.current, progress.book_code) {
            Ok(_) => Ok::<Progress, ErrorView>(progress),
            Err(error) => Err(error),
        }),
{
}

// Milestones.

/// A milestone stands behind the declaration of the version, and its `eid` attribute must be
/// readable.
pub proof fn law_milestones(progress: Progress, element: ElementView, error: ErrorView)
    requires
        progress.milestone is None,
        progress.excluded_depth == 0,
        element.name == "chapter"@ || element.name == "verse"@,
    ensures
        progress.version is None ==> progress.step(EventView::Empty(element)) == Err::<
            Progress,
            ErrorView,
        >(ErrorView::MissingUsxField("usx/@version"@)),
        progress.version is Some && fails(element, "eid"@, error) ==> progress.step(
            EventView::Empty(element),
        ) == Err::<Progress, ErrorView>(error),
{
    usx::lemma_element_names();
}

/// An end milestone ends the open chapter, or the open verse, exactly where it refers to it.
/// The end of a chapter completes the open verse too.
pub proof fn law_end_milestones(progress: Progress, element: ElementView, actual: Seq<char>)
    requires
        progress.milestone is None,
        progress.excluded_depth == 0,
        progress.version is Some,
        has(element, "eid"@, actual),
    ensures
        element.name == "chapter"@ ==> progress.step(EventView::Empty(element)) == (
        match progress.chapter {
            None => Err::<Progress, ErrorView>(ErrorView::UnexpectedChapterEnd(actual)),
            Some(open) => if usx::same_place(open.sid, actual, progress.book_code) {
                Ok(Progress { chapter: None, ..progress.verse_closed() })
            } else {
                Err(ErrorView::MismatchedChapterEnd { expected: open.sid, actual })
            },
        }),
        element.name == "verse"@ ==> progress.step(EventView::Empty(element)) == (
        match progress.current {
            None => Err::<Progress, ErrorView>(ErrorView::UnexpectedVerseEnd(actual)),
            Some(open) => if usx::same_place(open.sid, actual, progress.book_code) {
                Ok(progress.verse_closed())
            } else {
                Err(ErrorView::MismatchedVerseEnd { expected: open.sid, actual })
            },
        }),
{
    usx::lemma_element_names();
}

/// The identifier of a milestone is that of its `sid` attribute. From version 3 on it is
/// required and must describe the milestone; before, one is made where there is none.
pub proof fn law_milestone_identifiers(
    progress: Progress,
    major: u8,
    element: ElementView,
    place: Seq<char>,
    field: Seq<char>,
    sid: Seq<char>,
    error: ErrorView,
)
    requires
        progress.version == Some(major),
    ensures
        fails(element, "sid"@, error) ==> progress.milestone_sid(element, place, field) == Err::<
            Seq<char>,
            ErrorView,
        >(error),
        has(element, "sid"@, sid) && (major < 3 || usx::describes(sid, progress.book_code, place))
            ==> progress.milestone_sid(element, place, field) == Ok::<Seq<char>, ErrorView>(sid),
        has(element, "sid"@, sid) && major >= 3 && !usx::describes(sid, progress.book_code, place)
            ==> progress.milestone_sid(element, place, field) == Err::<Seq<char>, ErrorView>(
            ErrorView::InvalidUsxIdentifier {
                attribute: field,
                expected: progress.book_code + seq![' '] + place,
                actual: sid,
            },
        ),
        lacks(element, "sid"@) && major < 3 ==> progress.milestone_sid(element, place, field)
            == Ok::<Seq<char>, ErrorView>(progress.book_code + seq![' '] + place),
        lacks(element, "sid"@) && major >= 3 ==> progress.milestone_sid(element, place, field)
            == Err::<Seq<char>, ErrorView>(ErrorView::MissingUsxField(field)),
{
}

/// The start milestone of a chapter. It completes the open verse, and from version 3 on no
/// other chapter may be open.
pub proof fn law_chapter_starts(
    progress: Progress,
    major: u8,
    element: ElementView,
    numeral: Seq<char>,
    number: u32,
)
    requires
        progress.milestone is None,
        progress.excluded_depth == 0,
        progress.version == Some(major),
        element.name == "chapter"@,
        lacks(element, "eid"@),
    ensures
        major >= 3 && progress.chapter is Some ==> progress.step(EventView::Empty(element))
            == Err::<Progress, ErrorView>(ErrorView::MissingUsxField("chapter/@eid"@)),
        major < 3 || progress.chapter is None ==> {
            &&& usx::style_check(element, "chapter"@, "c"@) matches Err(error) ==> progress.step(
                EventView::Empty(element),
            ) == Err::<Progress, ErrorView>(error)
            &&& usx::style_check(element, "chapter"@, "c"@) is Ok ==> {
                &&& usx::required_value(element, "number"@, "chapter/@number"@) matches Err(error)
                    ==> progress.step(EventView::Empty(element)) == Err::<Progress, ErrorView>(
                    error,
                )
                &&& has(element, "number"@, numeral) && (text::parsed_u32(numeral) is None
                    || text::parsed_u32(numeral) == Some(0u32)) ==> progress.step(
                    EventView::Empty(element),
                ) == Err::<Progress, ErrorView>(ErrorView::InvalidChapterNumber(numeral))
                &&& has(element, "number"@, numeral) && text::parsed_u32(numeral) == Some(number)
                    && number > 0 ==> progress.step(EventView::Empty(element)) == (
                match progress.milestone_sid(
                    element,
                    text::decimal(number as nat),
                    "chapter/@sid"@,
                ) {
                    Err(error) => Err::<Progress, ErrorView>(error),
                    Ok(sid) => Ok(
                        Progress {
                            chapter: Some(ChapterView { number, sid }),
                            ..progress.verse_closed()
                        },
                    ),
                })
            }
        },
{
    usx::lemma_element_names();
    let closed = progress.verse_closed();
    assert(closed.milestone_sid(element, text::decimal(number as nat), "chapter/@sid"@)
        == progress.milestone_sid(element, text::decimal(number as nat), "chapter/@sid"@));
}

/// The start milestone of a verse. It stands in an open chapter, completes the open verse and
/// opens one without text.
pub proof fn law_verse_starts(
    progress: Progress,
    element: ElementView,
    number: Seq<char>,
    error: ErrorView,
)
    requires
        progress.milestone is None,
        progress.excluded_depth == 0,
        progress.version is Some,
        element.name == "verse"@,
        lacks(element, "eid"@),
    ensures
        usx::style_check(element, "verse"@, "v"@) matches Err(error) ==> progress.step(
            EventView::Empty(element),
        ) == Err::<Progress, ErrorView>(error),
        usx::style_check(element, "verse"@, "v"@) is Ok ==> {
            &&& lacks(element, "number"@) ==> progress.step(EventView::Empty(element)) == Err::<
                Progress,
                ErrorView,
            >(ErrorView::MissingUsxField("verse/@number"@))
            &&& fails(element, "number"@, error) ==> progress.step(EventView::Empty(element))
                == Err::<Progress, ErrorView>(error)
            &&& has(element, "number"@, number) && progress.chapter is None ==> progress.step(
                EventView::Empty(element),
            ) == Err::<Progress, ErrorView>(ErrorView::MissingUsxField("chapter/@number"@))
        },
{
    usx::lemma_element_names();
}

/// The verse that a start milestone opens in the open chapter.
pub proof fn law_opened_verses(
    progress: Progress,
    element: ElementView,
    number: Seq<char>,
    chapter: ChapterView,
    error: ErrorView,
)
    requires
        progress.milestone is None,
        progress.excluded_depth == 0,
        progress.version is Some,
        progress.chapter == Some(chapter),
        element.name == "verse"@,
        lacks(element, "eid"@),
        has(element, "style"@, "v"@),
        has(element, "number"@, number),
    ensures
        match progress.milestone_sid(
            element,
            text::decimal(chapter.number as nat) + seq![':'] + number,
            "verse/@sid"@,
        ) {
            Err(error) => progress.step(EventView::Empty(element)) == Err::<Progress, ErrorView>(
                error,
            ),
            Ok(sid) => {
                &&& fails(element, "altnumber"@, error) ==> progress.step(EventView::Empty(element))
                    == Err::<Progress, ErrorView>(error)
                &&& xml::optional_value(element, "altnumber"@) is Ok && fails(
                    element,
                    "pubnumber"@,
                    error,
                ) ==> progress.step(EventView::Empty(element)) == Err::<Progress, ErrorView>(error)
                &&& xml::optional_value(element, "altnumber"@) is Ok && xml::optional_value(
                    element,
                    "pubnumber"@,
                ) is Ok ==> progress.step(EventView::Empty(element)) == Ok::<Progress, ErrorView>(
                    Progress {
                        current: Some(
                            VerseView {
                                sid,
                                chapter: chapter.number,
                                number,
                                alternate_number: xml::optional_value(
                                    element,
                                    "altnumber"@,
                                )->Ok_0,
                                published_number: xml::optional_value(
                                    element,
                                    "pubnumber"@,
                                )->Ok_0,
                                text: seq![],
                            },
                        ),
                        ..progress.verse_closed()
                    },
                )
            },
        },
{
    usx::lemma_element_names();
}

// The document header.

/// What the header takes from an event, case by case.
pub proof fn law_header_events(has_version: bool, element: ElementView, code: Seq<char>)
    ensures
        usx::header_after(has_version, EventView::Start(element)) == usx::header_after(
            has_version,
            EventView::Empty(element),
        ),
        element.name == "usx"@ ==> usx::header_after(has_version, EventView::Start(element)) == (
        match usx::declared_version(element) {
            Ok(_) => Ok::<HeaderView, ErrorView>(HeaderView::Open { has_version: true }),
            Err(error) => Err(error),
        }),
        element.name == "book"@ && !has_version ==> usx::header_after(
            has_version,
            EventView::Start(element),
        ) == Err::<HeaderView, ErrorView>(ErrorView::MissingUsxField("usx/@version"@)),
        element.name == "book"@ && has_version ==> {
            &&& usx::style_check(element, "book"@, "id"@) matches Err(error) ==> usx::header_after(
                has_version,
                EventView::Start(element),
            ) == Err::<HeaderView, ErrorView>(error)
            &&& usx::style_check(element, "book"@, "id"@) is Ok ==> {
                &&& usx::required_value(element, "code"@, "book/@code"@) matches Err(error)
                    ==> usx::header_after(has_version, EventView::Start(element)) == Err::<
                    HeaderView,
                    ErrorView,
                >(error)
                &&& has(element, "code"@, code) ==> usx::header_after(
                    has_version,
                    EventView::Start(element),
                ) == (if code.len() == 3 {
                    Ok::<HeaderView, ErrorView>(HeaderView::Found(code))
                } else {
                    Err(ErrorView::InvalidBookCode(code))
                })
            }
        },
        element.name != "usx"@ && element.name != "book"@ ==> usx::header_after(
            has_version,
            EventView::Start(element),
        ) == Ok::<HeaderView, ErrorView>(HeaderView::Open { has_version }),
        usx::header_after(has_version, EventView::Eof) == Err::<HeaderView, ErrorView>(
            ErrorView::MissingUsxField("book/@code"@),
        ),
{
    usx::lemma_element_names();
}

/// The header is read event by event, until the book is found or an error comes. Nothing but
/// tags and the end of the document changes it.
pub proof fn law_header(
    has_version: bool,
    event: EventView,
    error: quick_xml::Error,
    rest: Seq<Result<EventView, quick_xml::Error>>,
    source: Seq<u8>,
)
    ensures
        usx::header_code(seq![Err(error)] + rest, has_version) == Err::<Seq<char>, ErrorView>(
            ErrorView::Xml(error),
        ),
        match usx::header_after(has_version, event) {
            Err(fault) => usx::header_code(seq![Ok(event)] + rest, has_version) == Err::<
                Seq<char>,
                ErrorView,
            >(fault),
            Ok(HeaderView::Found(code)) => usx::header_code(seq![Ok(event)] + rest, has_version)
                == Ok::<Seq<char>, ErrorView>(code),
            Ok(HeaderView::Open { has_version: declared }) => usx::header_code(
                seq![Ok(event)] + rest,
                has_version,
            ) == usx::header_code(rest, declared),
        },
        event is Text || event is CData || event is Reference || event is End || event is Other
            ==> usx::header_after(has_version, event) == Ok::<HeaderView, ErrorView>(
            HeaderView::Open { has_version },
        ),
        usx::document_code(source) == usx::header_code(xml::document_events(source), false),
{
    let good = seq![Ok::<EventView, quick_xml::Error>(event)] + rest;
    let bad = seq![Err::<EventView, quick_xml::Error>(error)] + rest;
    assert(good[0] == Ok::<EventView, quick_xml::Error>(event));
    assert(bad[0] == Err::<EventView, quick_xml::Error>(error));
    assert(good.skip(1) =~= rest);
}

} // verus!
