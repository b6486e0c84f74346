//! Direct parsing of Unified Scripture XML (USX) documents.
//!
//! These functions can be used independently of a Digital Bible Library
//! bundle. [`book_code`] performs a lightweight read of the document header,
//! while [`verses`] parses its scripture text and validates the expected book
//! code.
//!
//! This module validates the USX structures it consumes, but it is not a full
//! Relax NG validator for every element and style in a USX document.

use vstd::prelude::*;

use crate::error::{Error, ErrorView};
use crate::passage::{Verse, VerseView};
use crate::scripture;
use crate::text;
use crate::xml::{self, ElementView, EventView, XmlElement, XmlEvent};

verus! {

// Verse numbers.

/// Whether `c` may stand before a verse number: ASCII white space or a right-to-left mark.
pub open spec fn is_number_padding(c: char) -> bool {
    text::is_ascii_white_space(c) || c == '\u{200f}'
}

/// `s` without the padding at its start.
pub open spec fn unpadded(s: Seq<char>) -> Seq<char>
    decreases s.len(),
{
    if s.len() > 0 && is_number_padding(s[0]) {
        unpadded(s.skip(1))
    } else {
        s
    }
}

/// The digits at the start of `s`.
pub open spec fn leading_digits(s: Seq<char>) -> Seq<char>
    decreases s.len(),
{
    if s.len() > 0 && text::is_digit(s[0]) {
        seq![s[0]] + leading_digits(s.skip(1))
    } else {
        seq![]
    }
}

/// The number at the start of `s`, after any padding, where there is one.
pub open spec fn number_at_start(s: Seq<char>) -> Option<u32> {
    text::parsed_u32(leading_digits(unpadded(s)))
}

/// The numbers at the starts of the parts that have one.
pub open spec fn numbers_at_starts(parts: Seq<Seq<char>>) -> Seq<u32>
    decreases parts.len(),
{
    if parts.len() == 0 {
        seq![]
    } else {
        let before = numbers_at_starts(parts.drop_last());
        match number_at_start(parts.last()) {
            Some(number) => before.push(number),
            None => before,
        }
    }
}

/// The numbers of a verse number that may be a bridge or a sequence, such as `2-6a`: those
/// at the start of each of its parts, which hyphens and commas separate.
pub open spec fn verse_numbers(number: Seq<char>) -> Seq<u32> {
    numbers_at_starts(text::pieces(number, '-', ','))
}

/// Whether `span` holds the least and the greatest of `numbers`.
pub open spec fn is_span(span: (u32, u32), numbers: Seq<u32>) -> bool {
    let (least, greatest) = span;
    &&& numbers.contains(least)
    &&& numbers.contains(greatest)
    &&& forall|i: int| 0 <= i < numbers.len() ==> least <= #[trigger] numbers[i] <= greatest
}

/// The least and the greatest number of a verse number, where it has any.
pub open spec fn number_span(number: Seq<char>) -> Option<(u32, u32)> {
    let numbers = verse_numbers(number);
    if numbers.len() == 0 {
        None
    } else {
        Some(choose|span: (u32, u32)| is_span(span, numbers))
    }
}

proof fn lemma_span_unique(a: (u32, u32), b: (u32, u32), numbers: Seq<u32>)
    requires
        is_span(a, numbers),
        is_span(b, numbers),
    ensures
        a == b,
{
}

proof fn lemma_leading_digits(s: Seq<char>, n: int)
    requires
        0 <= n <= s.len(),
        forall|i: int| 0 <= i < n ==> text::is_digit(#[trigger] s[i]),
        n < s.len() ==> !text::is_digit(s[n]),
    ensures
        leading_digits(s) == s.take(n),
    decreases n,
{
    if n > 0 {
        assert forall|i: int| 0 <= i < n - 1 implies text::is_digit(#[trigger] s.skip(1)[i]) by {
            assert(text::is_digit(s[i + 1]));
        }
        lemma_leading_digits(s.skip(1), n - 1);
        assert(text::is_digit(s[0]));
        assert(s.take(n) =~= seq![s[0]] + s.skip(1).take(n - 1));
    } else {
        assert(s.take(0) =~= seq![]);
    }
}

/// Reads the number at the start of `value`.
pub fn leading_number(value: &str) -> (number: Option<u32>)
    ensures
        number == number_at_start(value@),
{
    let chars = text::chars_of(value);
    let mut start: usize = 0;
    assert(value@.skip(0) =~= value@);
    while start < chars.len() && (text::ascii_white_space(chars[start]) || chars[start]
        == '\u{200f}')
        invariant
            start <= chars@.len(),
            chars@ == value@,
            unpadded(value@) == unpadded(value@.skip(start as int)),
        decreases chars@.len() - start,
    {
        assert(value@.skip(start as int).skip(1) =~= value@.skip(start + 1));
        start += 1;
    }
    let ghost rest = value@.skip(start as int);
    assert(unpadded(value@) == rest);
    let mut end: usize = start;
    while end < chars.len() && text::digit(chars[end])
        invariant
            start <= end <= chars@.len(),
            chars@ == value@,
            rest == value@.skip(start as int),
            forall|i: int| 0 <= i < end - start ==> text::is_digit(#[trigger] rest[i]),
        decreases chars@.len() - end,
    {
        assert(rest[end - start] == chars@[end as int]);
        end += 1;
    }
    proof {
        if end < chars@.len() {
            assert(rest[end - start] == chars@[end as int]);
        }
        lemma_leading_digits(rest, end - start);
        assert(rest.take(end - start) =~= chars@.subrange(start as int, end as int));
    }
    text::parse_u32(text::string_of(chars.as_slice(), start, end).as_str())
}

/// Reads the least and the greatest number of a verse number.
pub fn verse_number_span(number: &str) -> (span: Option<(u32, u32)>)
    ensures
        span == number_span(number@),
        span is Some ==> is_span(span->0, verse_numbers(number@)),
{
    let parts = text::split(number, '-', ',');
    let ghost views = text::views(parts@);
    let mut span: Option<(u32, u32)> = None;
    let mut i: usize = 0;
    assert(views.take(0) =~= seq![]);
    while i < parts.len()
        invariant
            i <= parts@.len(),
            views == text::views(parts@),
            span is None <==> numbers_at_starts(views.take(i as int)).len() == 0,
            span is Some ==> is_span(span->0, numbers_at_starts(views.take(i as int))),
        decreases parts@.len() - i,
    {
        let ghost before = numbers_at_starts(views.take(i as int));
        let ghost after = numbers_at_starts(views.take(i + 1));
        assert(views.take(i + 1).drop_last() =~= views.take(i as int));
        assert(views.take(i + 1).last() == parts@[i as int]@);
        match leading_number(parts[i].as_str()) {
            Some(value) => {
                proof {
                    assert(after == before.push(value));
                    assert(after[before.len() as int] == value);
                    assert forall|n: u32| before.contains(n) implies after.contains(n) by {
                        let k = choose|k: int| 0 <= k < before.len() && before[k] == n;
                        assert(after[k] == n);
                    }
                }
                span = match span {
                    None => Some((value, value)),
                    Some((least, greatest)) => Some(
                        (
                            if value < least {
                                value
                            } else {
                                least
                            },
                            if value > greatest {
                                value
                            } else {
                                greatest
                            },
                        ),
                    ),
                };
            },
            None => {},
        }
        i += 1;
    }
    assert(views.take(i as int) =~= views);
    proof {
        let numbers = verse_numbers(number@);
        if numbers.len() > 0 {
            lemma_span_unique(span->0, choose|other: (u32, u32)| is_span(other, numbers), numbers);
        }
    }
    span
}

proof fn lemma_numbers_have_span(numbers: Seq<u32>) -> (span: (u32, u32))
    requires
        numbers.len() > 0,
    ensures
        is_span(span, numbers),
    decreases numbers.len(),
{
    let before = numbers.drop_last();
    let last = numbers.last();
    assert(numbers[numbers.len() - 1] == last);
    if before.len() == 0 {
        (last, last)
    } else {
        let (least, greatest) = lemma_numbers_have_span(before);
        let i = choose|i: int| 0 <= i < before.len() && before[i] == least;
        let j = choose|j: int| 0 <= j < before.len() && before[j] == greatest;
        assert(numbers[i] == least && numbers[j] == greatest);
        assert forall|k: int| 0 <= k < numbers.len() && k != numbers.len() - 1 implies least
            <= #[trigger] numbers[k] <= greatest by {
            assert(before[k] == numbers[k]);
        }
        (
            if last < least {
                last
            } else {
                least
            },
            if last > greatest {
                last
            } else {
                greatest
            },
        )
    }
}

/// A verse number has a span exactly where some part of it begins with a number, and the
/// span then holds the least and the greatest of these numbers.
pub proof fn law_number_span(number: Seq<char>)
    ensures
        number_span(number) is Some <==> verse_numbers(number).len() > 0,
        number_span(number) is Some ==> is_span(number_span(number)->0, verse_numbers(number)),
        number_span(number) matches Some((least, greatest)) ==> least <= greatest,
{
    let numbers = verse_numbers(number);
    if numbers.len() > 0 {
        let span = lemma_numbers_have_span(numbers);
        assert(is_span(span, numbers));
        assert(is_span(number_span(number)->0, numbers));
    }
}

/// The span of a plain number is that number alone.
pub proof fn law_plain_number_span(n: u32)
    ensures
        number_span(text::decimal(n as nat)) == Some((n, n)),
{
    let numeral = text::decimal(n as nat);
    text::lemma_decimal(n as nat);
    text::law_decimal_round_trip(n);
    assert forall|i: int| 0 <= i < numeral.len() implies numeral[i] != '-' && numeral[i] != ',' by {
        assert(text::is_digit(numeral[i]));
    }
    text::lemma_piece_len(numeral, '-', ',', numeral.len() as int);
    assert(text::is_digit(numeral[0]));
    lemma_leading_digits(numeral, numeral.len() as int);
    assert(numeral.take(numeral.len() as int) =~= numeral);
    let parts = seq![numeral];
    assert(numbers_at_starts(parts.drop_last()) =~= seq![]);
    assert(parts.last() == numeral && number_at_start(numeral) == Some(n));
    assert(numbers_at_starts(parts) =~= seq![n]);
    assert(verse_numbers(numeral) == seq![n]);
    assert(verse_numbers(numeral)[0] == n);
    assert(is_span((n, n), verse_numbers(numeral)));
    lemma_span_unique((n, n), number_span(numeral)->0, verse_numbers(numeral));
}

// Scripture identifiers.

/// `s` without its right-to-left marks.
pub open spec fn without_marks(s: Seq<char>) -> Seq<char> {
    s.filter(|c: char| c != '\u{200f}')
}

/// `s` without the leading zeros of its numerals. `in_numeral` tells whether a digit
/// that was kept comes right before `s`.
pub open spec fn without_leading_zeros(s: Seq<char>, in_numeral: bool) -> Seq<char>
    decreases s.len(),
{
    if s.len() == 0 {
        s
    } else if s[0] == '0' && !in_numeral && s.len() > 1 && text::is_digit(s[1]) {
        without_leading_zeros(s.skip(1), false)
    } else {
        seq![s[0]] + without_leading_zeros(s.skip(1), text::is_digit(s[0]))
    }
}

/// How the location of an identifier reads: numerals count by their value, and marks of
/// the writing direction do not count.
pub open spec fn reading(location: Seq<char>) -> Seq<char> {
    without_leading_zeros(without_marks(location), false)
}

/// The location of an identifier, such as `1:2` of `GEN 1:2`: what follows the book code
/// and the space behind it, if there is one.
pub open spec fn location(identifier: Seq<char>, book_code: Seq<char>) -> Option<Seq<char>> {
    match text::after_prefix(identifier, book_code) {
        None => None,
        Some(rest) => if rest.len() > 0 && rest[0] == ' ' {
            Some(rest.skip(1))
        } else {
            Some(rest)
        },
    }
}

/// Whether an identifier names that location of the book: it is the book code followed by
/// the location, directly or behind one space.
pub open spec fn describes(
    identifier: Seq<char>,
    book_code: Seq<char>,
    place: Seq<char>,
) -> bool {
    match text::after_prefix(identifier, book_code) {
        None => false,
        Some(rest) => {
            ||| reading(rest) == reading(place)
            ||| rest.len() > 0 && rest[0] == ' ' && reading(rest.skip(1)) == reading(place)
        },
    }
}

/// Whether two identifiers refer to the same place. Those that do not begin with the book
/// code do so only where they are equal.
pub open spec fn same_place(a: Seq<char>, b: Seq<char>, book_code: Seq<char>) -> bool {
    a == b || match (location(a, book_code), location(b, book_code)) {
        (Some(a), Some(b)) => reading(a) == reading(b),
        _ => false,
    }
}

/// The identifier of a location of the book.
pub open spec fn identifier(book_code: Seq<char>, place: Seq<char>) -> Seq<char> {
    book_code + seq![' '] + place
}

/// The location of a verse of a chapter.
pub open spec fn verse_location(chapter: u32, number: Seq<char>) -> Seq<char> {
    text::decimal(chapter as nat) + seq![':'] + number
}

fn strip_marks(s: &str) -> (kept: Vec<char>)
    ensures
        kept@ == without_marks(s@),
{
    let chars = text::chars_of(s);
    let ghost counts = |c: char| c != '\u{200f}';
    let mut kept: Vec<char> = Vec::new();
    let mut i: usize = 0;
    assert(s@.take(0).filter(counts) =~= seq![]) by {
        reveal(Seq::filter);
    }
    while i < chars.len()
        invariant
            i <= chars@.len(),
            chars@ == s@,
            counts == (|c: char| c != '\u{200f}'),
            kept@ == s@.take(i as int).filter(counts),
        decreases chars@.len() - i,
    {
        proof {
            reveal(Seq::filter);
            assert(s@.take(i + 1).drop_last() =~= s@.take(i as int));
        }
        if chars[i] != '\u{200f}' {
            kept.push(chars[i]);
        }
        i += 1;
    }
    assert(s@.take(i as int) =~= s@);
    kept
}

fn read_location(place: &str) -> (r: String)
    ensures
        r@ == reading(place@),
{
    let chars = strip_marks(place);
    let ghost all = without_marks(place@);
    let mut r = String::new();
    let mut in_numeral = false;
    let mut i: usize = 0;
    assert(all.skip(0) =~= all);
    assert(r@ + without_leading_zeros(all, false) =~= without_leading_zeros(all, false));
    while i < chars.len()
        invariant
            i <= chars@.len(),
            chars@ == all,
            all == without_marks(place@),
            r@ + without_leading_zeros(all.skip(i as int), in_numeral) == reading(place@),
        decreases chars@.len() - i,
    {
        let ghost rest = all.skip(i as int);
        assert(rest.skip(1) =~= all.skip(i + 1));
        if i + 1 < chars.len() {
            assert(rest[1] == chars@[i + 1]);
        }
        if chars[i] == '0' && !in_numeral && i + 1 < chars.len() && text::digit(chars[i + 1]) {
            i += 1;
        } else {
            let ghost before = r@;
            r.push(chars[i]);
            in_numeral = text::digit(chars[i]);
            i += 1;
            assert(r@ + without_leading_zeros(all.skip(i as int), in_numeral) =~= before + (seq![
                rest[0],
            ] + without_leading_zeros(all.skip(i as int), in_numeral)));
        }
    }
    assert(r@ =~= reading(place@));
    r
}

fn find_location(identifier: &str, book_code: &str) -> (place: Option<String>)
    ensures
        text::optional(place) == location(identifier@, book_code@),
{
    match text::strip_prefix(identifier, book_code) {
        None => None,
        Some(rest) => {
            let chars = text::chars_of(rest.as_str());
            if chars.len() > 0 && chars[0] == ' ' {
                let place = text::string_of(chars.as_slice(), 1, chars.len());
                assert(place@ =~= rest@.skip(1));
                Some(place)
            } else {
                Some(rest)
            }
        },
    }
}

/// Whether the identifier `actual` names a location of the book.
pub fn identifier_matches(actual: &str, book_code: &str, place: &str) -> (matches: bool)
    ensures
        matches == describes(actual@, book_code@, place@),
{
    match text::strip_prefix(actual, book_code) {
        None => false,
        Some(rest) => {
            let expected = read_location(place);
            if read_location(rest.as_str()) == expected {
                return true;
            }
            let chars = text::chars_of(rest.as_str());
            if chars.len() > 0 && chars[0] == ' ' {
                let found = text::string_of(chars.as_slice(), 1, chars.len());
                assert(found@ =~= rest@.skip(1));
                read_location(found.as_str()) == expected
            } else {
                false
            }
        },
    }
}

/// Whether two identifiers refer to the same place.
pub fn identifiers_agree(a: &str, b: &str, book_code: &str) -> (agree: bool)
    ensures
        agree == same_place(a@, b@, book_code@),
{
    if text::same(a, b) {
        return true;
    }
    match (find_location(a, book_code), find_location(b, book_code)) {
        (Some(a), Some(b)) => read_location(a.as_str()) == read_location(b.as_str()),
        _ => false,
    }
}

fn make_identifier(book_code: &str, place: &str) -> (id: String)
    ensures
        id@ == identifier(book_code@, place@),
{
    let mut id = book_code.to_owned();
    id.push(' ');
    id.append(place);
    assert(id@ =~= identifier(book_code@, place@));
    id
}

fn make_verse_location(chapter: u32, number: &str) -> (place: String)
    ensures
        place@ == verse_location(chapter, number@),
{
    let mut place = text::decimal_string(chapter);
    place.push(':');
    place.append(number);
    assert(place@ =~= verse_location(chapter, number@));
    place
}

/// The identifier of a location names it, with the space behind the book code or without.
pub proof fn law_identifier_describes(book_code: Seq<char>, place: Seq<char>)
    ensures
        describes(identifier(book_code, place), book_code, place),
        describes(book_code + place, book_code, place),
{
    let spaced = identifier(book_code, place);
    assert(spaced.subrange(0, book_code.len() as int) =~= book_code);
    assert(spaced.skip(book_code.len() as int) =~= seq![' '] + place);
    assert((seq![' '] + place).skip(1) =~= place);
    let close = book_code + place;
    assert(close.subrange(0, book_code.len() as int) =~= book_code);
    assert(close.skip(book_code.len() as int) =~= place);
}

/// An identifier names a location exactly where it is the book code and a text that reads
/// like the location, with one space between them or none.
pub proof fn law_described_identifiers(
    actual: Seq<char>,
    book_code: Seq<char>,
    place: Seq<char>,
)
    ensures
        describes(actual, book_code, place) <==> exists|found: Seq<char>|
            #[trigger] reading(found) == reading(place) && (actual == book_code + found || actual
                == identifier(book_code, found)),
{
    if describes(actual, book_code, place) {
        let rest = actual.skip(book_code.len() as int);
        assert(actual.subrange(0, book_code.len() as int) =~= book_code);
        assert(actual =~= book_code + rest);
        if reading(rest) != reading(place) {
            assert(actual =~= identifier(book_code, rest.skip(1)));
            assert(reading(rest.skip(1)) == reading(place));
        }
    }
    if exists|found: Seq<char>|
        #[trigger] reading(found) == reading(place) && (actual == book_code + found || actual
            == identifier(book_code, found)) {
        let found = choose|found: Seq<char>|
            #[trigger] reading(found) == reading(place) && (actual == book_code + found || actual
                == identifier(book_code, found));
        law_identifier_describes(book_code, found);
    }
}

/// To refer to the same place is an equivalence of identifiers.
pub proof fn law_same_place_is_an_equivalence(
    a: Seq<char>,
    b: Seq<char>,
    c: Seq<char>,
    book_code: Seq<char>,
)
    ensures
        same_place(a, a, book_code),
        same_place(a, b, book_code) == same_place(b, a, book_code),
        same_place(a, b, book_code) && same_place(b, c, book_code) ==> same_place(a, c, book_code),
{
}

/// Leading zeros of a numeral do not change how a location reads.
pub proof fn law_leading_zero_does_not_count(place: Seq<char>)
    requires
        place.len() > 0,
        text::is_digit(place[0]),
    ensures
        reading(seq!['0'] + place) == reading(place),
{
    let counts = |c: char| c != '\u{200f}';
    Seq::filter_distributes_over_add(seq!['0'], place, counts);
    assert(without_marks(seq!['0']) =~= seq!['0']) by {
        reveal(Seq::filter);
        assert(seq!['0'].drop_last().filter(counts) =~= seq![]);
        assert(seq!['0'].last() == '0');
    }
    assert(without_marks(place).len() > 0 && without_marks(place)[0] == place[0]) by {
        let first = seq![place[0]];
        assert(first + place.skip(1) =~= place);
        Seq::filter_distributes_over_add(first, place.skip(1), counts);
        reveal(Seq::filter);
        assert(first.drop_last().filter(counts) =~= seq![]);
        assert(first.last() == place[0]);
        assert(first.filter(counts) =~= first);
    }
    let kept = without_marks(place);
    assert(without_marks(seq!['0'] + place) =~= seq!['0'] + kept);
    assert((seq!['0'] + kept).skip(1) =~= kept);
}

/// A right-to-left mark does not change how a location reads.
pub proof fn law_mark_does_not_count(before: Seq<char>, after: Seq<char>)
    ensures
        reading(before + seq!['\u{200f}'] + after) == reading(before + after),
{
    let counts = |c: char| c != '\u{200f}';
    let mark = seq!['\u{200f}'];
    Seq::filter_distributes_over_add(before + mark, after, counts);
    Seq::filter_distributes_over_add(before, mark, counts);
    Seq::filter_distributes_over_add(before, after, counts);
    assert(mark.filter(counts) =~= seq![]) by {
        reveal(Seq::filter);
        assert(mark.drop_last().filter(counts) =~= seq![]);
        assert(mark.last() == '\u{200f}');
    }
    assert(without_marks(before + mark + after) =~= without_marks(before + after));
}

// Attributes of USX elements.

/// The value of an attribute that must be present; `field` names it in the error.
pub open spec fn required_value(
    element: ElementView,
    name: Seq<char>,
    field: Seq<char>,
) -> Result<Seq<char>, ErrorView> {
    match xml::optional_value(element, name) {
        Ok(Some(value)) => Ok(value),
        Ok(None) => Err(ErrorView::MissingUsxField(field)),
        Err(error) => Err(error),
    }
}

/// The view of an optional value that was looked up.
pub open spec fn optional_outcome(value: Result<Option<String>, Error>) -> Result<
    Option<Seq<char>>,
    ErrorView,
> {
    match value {
        Ok(value) => Ok(text::optional(value)),
        Err(error) => Err(error@),
    }
}

fn optional_attribute(element: &XmlElement, name: &str) -> (value: Result<Option<String>, Error>)
    ensures
        optional_outcome(value) == xml::optional_value(element@, name@),
{
    match xml::attribute(element, name) {
        Ok(value) => Ok(value),
        Err(error) => Err(Error::Xml(error)),
    }
}

fn required_attribute(element: &XmlElement, name: &str, field: &'static str) -> (value: Result<
    String,
    Error,
>)
    ensures
        crate::error::outcome(value) == required_value(element@, name@, field@),
{
    match optional_attribute(element, name) {
        Ok(Some(value)) => Ok(value),
        Ok(None) => Err(Error::MissingUsxField(field)),
        Err(error) => Err(error),
    }
}

/// The major version of a USX version number, where it is supported: two or three
/// numerals separated by periods, the first of them from 1 to 3.
pub open spec fn major_version(value: Seq<char>) -> Option<u8> {
    let parts = text::pieces(value, '.', '.');
    let well_formed = forall|i: int|
        0 <= i < parts.len() ==> (#[trigger] parts[i]).len() > 0 && text::all_digits(parts[i]);
    match text::parsed_u32(parts[0]) {
        Some(major) => if (parts.len() == 2 || parts.len() == 3) && well_formed && 1 <= major
            <= 3 {
            Some(major as u8)
        } else {
            None
        },
        None => None,
    }
}

/// The major version that a `usx` element declares.
pub open spec fn declared_version(element: ElementView) -> Result<u8, ErrorView> {
    match required_value(element, "version"@, "usx/@version"@) {
        Ok(value) => match major_version(value) {
            Some(major) => Ok(major),
            None => Err(ErrorView::UnsupportedUsxVersion(value)),
        },
        Err(error) => Err(error),
    }
}

/// The major version of a USX document.
#[derive(Clone, Copy, Debug)]
pub struct UsxVersion {
    pub major: u8,
}

impl View for UsxVersion {
    type V = u8;

    open spec fn view(&self) -> u8 {
        self.major
    }
}

fn is_numeral(s: &str) -> (b: bool)
    ensures
        b == (s@.len() > 0 && text::all_digits(s@)),
{
    let chars = text::chars_of(s);
    let mut i: usize = 0;
    while i < chars.len()
        invariant
            i <= chars@.len(),
            chars@ == s@,
            forall|k: int| 0 <= k < i ==> text::is_digit(#[trigger] s@[k]),
        decreases chars@.len() - i,
    {
        if !text::digit(chars[i]) {
            assert(!text::is_digit(s@[i as int]));
            return false;
        }
        i += 1;
    }
    chars.len() > 0
}

/// Reads and checks the version that a `usx` element declares.
pub fn parse_usx_version(element: &XmlElement) -> (version: Result<UsxVersion, Error>)
    ensures
        crate::error::outcome(version) == declared_version(element@),
{
    let value = match required_attribute(element, "version", "usx/@version") {
        Ok(value) => value,
        Err(error) => return Err(error),
    };
    let parts = text::split(value.as_str(), '.', '.');
    let ghost views = text::views(parts@);
    let mut valid = parts.len() == 2 || parts.len() == 3;
    let mut i: usize = 0;
    while i < parts.len()
        invariant
            i <= parts@.len(),
            views == text::views(parts@),
            valid <==> (views.len() == 2 || views.len() == 3) && forall|k: int|
                0 <= k < i ==> (#[trigger] views[k]).len() > 0 && text::all_digits(views[k]),
        decreases parts@.len() - i,
    {
        let numeral = is_numeral(parts[i].as_str());
        assert(views[i as int] == parts@[i as int]@);
        valid = valid && numeral;
        i += 1;
    }
    if valid {
        assert(views[0] == parts@[0]@);
        match text::parse_u32(parts[0].as_str()) {
            Some(major) => {
                if 1 <= major && major <= 3 {
                    return Ok(UsxVersion { major: major as u8 });
                }
            },
            None => {},
        }
    }
    Err(Error::UnsupportedUsxVersion(value))
}

/// Whether an element has the style that its role requires.
pub open spec fn style_check(
    element: ElementView,
    role: Seq<char>,
    expected: Seq<char>,
) -> Result<(), ErrorView> {
    match required_value(element, "style"@, "element/@style"@) {
        Ok(style) => if style == expected {
            Ok(())
        } else {
            Err(ErrorView::InvalidUsxStyle { element: role, expected, actual: style })
        },
        Err(error) => Err(error),
    }
}

/// Checks that an element has the style that its role requires.
pub fn validate_style(element: &XmlElement, role: &'static str, expected: &'static str) -> (checked:
    Result<(), Error>)
    ensures
        crate::error::outcome(checked) == style_check(element@, role@, expected@),
{
    match required_attribute(element, "style", "element/@style") {
        Ok(style) => if text::same(style.as_str(), expected) {
            Ok(())
        } else {
            Err(Error::InvalidUsxStyle { element: role, expected, actual: style })
        },
        Err(error) => Err(error),
    }
}

/// Whether a `book` element has its style and the expected code.
pub open spec fn book_check(element: ElementView, expected: Seq<char>) -> Result<(), ErrorView> {
    match style_check(element, "book"@, "id"@) {
        Ok(_) => match required_value(element, "code"@, "book/@code"@) {
            Ok(actual) => if actual == expected {
                Ok(())
            } else {
                Err(ErrorView::MismatchedBookCode { expected, actual })
            },
            Err(error) => Err(error),
        },
        Err(error) => Err(error),
    }
}

/// Checks the style and the code of a `book` element.
pub fn validate_book(element: &XmlElement, expected: &str) -> (checked: Result<(), Error>)
    ensures
        crate::error::outcome(checked) == book_check(element@, expected@),
{
    match validate_style(element, "book", "id") {
        Ok(_) => {},
        Err(error) => return Err(error),
    }
    match required_attribute(element, "code", "book/@code") {
        Ok(actual) => if text::same(actual.as_str(), expected) {
            Ok(())
        } else {
            Err(Error::MismatchedBookCode { expected: expected.to_owned(), actual })
        },
        Err(error) => Err(error),
    }
}

/// Whether an element that continues a verse continues the one that is open.
pub open spec fn continuation_check(
    element: ElementView,
    current: Option<VerseView>,
    book_code: Seq<char>,
) -> Result<(), ErrorView> {
    match xml::optional_value(element, "vid"@) {
        Ok(None) => Ok(()),
        Ok(Some(actual)) => match current {
            None => Err(
                ErrorView::MismatchedVerseContinuation { expected: Seq::<char>::empty(), actual },
            ),
            Some(verse) => if same_place(actual, verse.sid, book_code) {
                Ok(())
            } else {
                Err(ErrorView::MismatchedVerseContinuation { expected: verse.sid, actual })
            },
        },
        Err(error) => Err(error),
    }
}

/// The view of a verse that may be open.
pub open spec fn open_verse(current: Option<Verse>) -> Option<VerseView> {
    match current {
        Some(verse) => Some(verse@),
        None => None,
    }
}

/// Checks that an element that continues a verse continues the one that is open.
pub fn validate_vid(element: &XmlElement, current: &Option<Verse>, book_code: &str) -> (checked:
    Result<(), Error>)
    ensures
        crate::error::outcome(checked) == continuation_check(
            element@,
            open_verse(*current),
            book_code@,
        ),
{
    let actual = match optional_attribute(element, "vid") {
        Ok(Some(actual)) => actual,
        Ok(None) => return Ok(()),
        Err(error) => return Err(error),
    };
    match current {
        None => Err(Error::MismatchedVerseContinuation { expected: String::new(), actual }),
        Some(verse) => if identifiers_agree(actual.as_str(), verse.sid.as_str(), book_code) {
            Ok(())
        } else {
            Err(Error::MismatchedVerseContinuation { expected: verse.sid.clone(), actual })
        },
    }
}

/// Elements whose content is not scripture text.
pub open spec fn is_excluded_name(name: Seq<char>) -> bool {
    name == "note"@ || name == "figure"@ || name == "sidebar"@
}

/// Whether an element's content is not scripture text.
pub fn is_excluded(name: &str) -> (excluded: bool)
    ensures
        excluded == is_excluded_name(name@),
{
    text::same(name, "note") || text::same(name, "figure") || text::same(name, "sidebar")
}

/// Elements that mark a place and hold no content.
pub open spec fn is_milestone_name(name: Seq<char>) -> bool {
    name == "chapter"@ || name == "verse"@
}

// Verses.

/// A chapter that is open.
struct Chapter {
    number: u32,
    sid: String,
}

/// The view of a chapter that is open: its number and its identifier.
pub struct ChapterView {
    pub number: u32,
    pub sid: Seq<char>,
}

/// What has been read of a document, up to some event of it.
pub struct Progress {
    /// The code of the book that the document must hold.
    pub book_code: Seq<char>,
    /// The verses that are complete, in document order.
    pub verses: Seq<VerseView>,
    /// The verse that is open, with its text as it stands in the document.
    pub current: Option<VerseView>,
    /// The chapter that is open.
    pub chapter: Option<ChapterView>,
    /// How many open elements lie in one whose content is not scripture text, that one
    /// counted too.
    pub excluded_depth: nat,
    /// The major version, once it is declared.
    pub version: Option<u8>,
    /// Whether the book was found.
    pub found_book: bool,
    /// The opening tag of a milestone that is to be closed by the next event.
    pub milestone: Option<ElementView>,
}

/// The start of a document.
pub open spec fn at_start(book_code: Seq<char>) -> Progress {
    Progress {
        book_code,
        verses: seq![],
        current: None,
        chapter: None,
        excluded_depth: 0,
        version: None,
        found_book: false,
        milestone: None,
    }
}

/// A verse with all its text.
pub open spec fn completed(verse: VerseView) -> VerseView {
    VerseView { text: text::collapsed(verse.text), ..verse }
}

impl Progress {
    /// With the open verse, if there is one, completed.
    pub open spec fn verse_closed(self) -> Progress {
        match self.current {
            Some(verse) => Progress {
                verses: self.verses.push(completed(verse)),
                current: None,
                ..self
            },
            None => self,
        }
    }

    /// With `text` added to the open verse, if there is one.
    pub open spec fn with_text(self, text: Seq<char>) -> Progress {
        match self.current {
            Some(verse) => Progress {
                current: Some(VerseView { text: verse.text + text, ..verse }),
                ..self
            },
            None => self,
        }
    }

    /// Whether the chapters of the document have identifiers and end milestones.
    pub open spec fn is_strict(self) -> bool {
        self.version is Some && self.version->0 >= 3
    }

    /// The identifier of a milestone: that of its `sid` attribute, which must describe the
    /// milestone where the document is strict. Without one the identifier of the place is
    /// taken where the document is not.
    pub open spec fn milestone_sid(
        self,
        element: ElementView,
        place: Seq<char>,
        field: Seq<char>,
    ) -> Result<Seq<char>, ErrorView> {
        match xml::optional_value(element, "sid"@) {
            Err(error) => Err(error),
            Ok(Some(sid)) => if !self.is_strict() || describes(sid, self.book_code, place) {
                Ok(sid)
            } else {
                Err(
                    ErrorView::InvalidUsxIdentifier {
                        attribute: field,
                        expected: identifier(self.book_code, place),
                        actual: sid,
                    },
                )
            },
            Ok(None) => if self.is_strict() {
                Err(ErrorView::MissingUsxField(field))
            } else {
                Ok(identifier(self.book_code, place))
            },
        }
    }

    /// After the end milestone of a chapter, with the identifier `actual`.
    pub open spec fn chapter_ended(self, actual: Seq<char>) -> Result<Progress, ErrorView> {
        match self.chapter {
            None => Err(ErrorView::UnexpectedChapterEnd(actual)),
            Some(open) => if same_place(open.sid, actual, self.book_code) {
                Ok(Progress { chapter: None, ..self })
            } else {
                Err(ErrorView::MismatchedChapterEnd { expected: open.sid, actual })
            },
        }
    }

    /// After the start milestone of a chapter.
    pub open spec fn chapter_started(self, element: ElementView) -> Result<Progress, ErrorView> {
        if self.is_strict() && self.chapter is Some {
            Err(ErrorView::MissingUsxField("chapter/@eid"@))
        } else {
            match style_check(element, "chapter"@, "c"@) {
                Err(error) => Err(error),
                Ok(_) => match required_value(element, "number"@, "chapter/@number"@) {
                    Err(error) => Err(error),
                    Ok(numeral) => match text::parsed_u32(numeral) {
                        None => Err(ErrorView::InvalidChapterNumber(numeral)),
                        Some(number) => if number == 0 {
                            Err(ErrorView::InvalidChapterNumber(numeral))
                        } else {
                            match self.milestone_sid(
                                element,
                                text::decimal(number as nat),
                                "chapter/@sid"@,
                            ) {
                                Err(error) => Err(error),
                                Ok(sid) => Ok(
                                    Progress {
                                        chapter: Some(ChapterView { number, sid }),
                                        ..self
                                    },
                                ),
                            }
                        },
                    },
                },
            }
        }
    }

    /// After the end milestone of a verse, with the identifier `actual`.
    pub open spec fn verse_ended(self, actual: Seq<char>) -> Result<Progress, ErrorView> {
        match self.current {
            None => Err(ErrorView::UnexpectedVerseEnd(actual)),
            Some(open) => if same_place(open.sid, actual, self.book_code) {
                Ok(self.verse_closed())
            } else {
                Err(ErrorView::MismatchedVerseEnd { expected: open.sid, actual })
            },
        }
    }

    /// With a verse opened in the open chapter. The verse that was open is completed.
    pub open spec fn verse_opened(self, element: ElementView, number: Seq<char>) -> Result<
        Progress,
        ErrorView,
    > {
        match self.chapter {
            None => Err(ErrorView::MissingUsxField("chapter/@number"@)),
            Some(chapter) => match self.milestone_sid(
                element,
                verse_location(chapter.number, number),
                "verse/@sid"@,
            ) {
                Err(error) => Err(error),
                Ok(sid) => match xml::optional_value(element, "altnumber"@) {
                    Err(error) => Err(error),
                    Ok(alternate_number) => match xml::optional_value(element, "pubnumber"@) {
                        Err(error) => Err(error),
                        Ok(published_number) => Ok(
                            Progress {
                                current: Some(
                                    VerseView {
                                        sid,
                                        chapter: chapter.number,
                                        number,
                                        alternate_number,
                                        published_number,
                                        text: seq![],
                                    },
                                ),
                                ..self.verse_closed()
                            },
                        ),
                    },
                },
            },
        }
    }

    /// After the start milestone of a verse.
    pub open spec fn verse_started(self, element: ElementView) -> Result<Progress, ErrorView> {
        match style_check(element, "verse"@, "v"@) {
            Err(error) => Err(error),
            Ok(_) => match required_value(element, "number"@, "verse/@number"@) {
                Err(error) => Err(error),
                Ok(number) => self.verse_opened(element, number),
            },
        }
    }

    /// After a chapter or verse milestone. One with an `eid` attribute ends what is open,
    /// any other starts a chapter or a verse. A chapter milestone completes the open verse.
    pub open spec fn marked(self, element: ElementView) -> Result<Progress, ErrorView> {
        if self.version is None {
            Err(ErrorView::MissingUsxField("usx/@version"@))
        } else {
            match xml::optional_value(element, "eid"@) {
                Err(error) => Err(error),
                Ok(Some(actual)) => if element.name == "chapter"@ {
                    self.verse_closed().chapter_ended(actual)
                } else {
                    self.verse_ended(actual)
                },
                Ok(None) => if element.name == "chapter"@ {
                    self.verse_closed().chapter_started(element)
                } else {
                    self.verse_started(element)
                },
            }
        }
    }

    /// After an element other than a milestone that may continue a verse.
    pub open spec fn continued(self, element: ElementView) -> Result<Progress, ErrorView> {
        match continuation_check(element, self.current, self.book_code) {
            Ok(_) => Ok(self),
            Err(error) => Err(error),
        }
    }

    /// After a `book` element.
    pub open spec fn book_met(self, element: ElementView) -> Result<Progress, ErrorView> {
        match book_check(element, self.book_code) {
            Ok(_) => Ok(Progress { found_book: true, ..self }),
            Err(error) => Err(error),
        }
    }

    /// After what an opening tag declares of the document.
    pub open spec fn declared(self, element: ElementView) -> Result<Progress, ErrorView> {
        if element.name == "usx"@ {
            match declared_version(element) {
                Ok(major) => Ok(Progress { version: Some(major), ..self }),
                Err(error) => Err(error),
            }
        } else if element.name == "book"@ {
            self.book_met(element)
        } else {
            Ok(self)
        }
    }

    /// After an opening tag.
    pub open spec fn started(self, element: ElementView) -> Result<Progress, ErrorView> {
        if is_milestone_name(element.name) {
            Ok(Progress { milestone: Some(element), ..self })
        } else {
            match self.declared(element) {
                Err(error) => Err(error),
                Ok(next) => if next.excluded_depth > 0 {
                    Ok(Progress { excluded_depth: next.excluded_depth + 1, ..next })
                } else if is_excluded_name(element.name) {
                    Ok(Progress { excluded_depth: 1, ..next })
                } else {
                    next.continued(element)
                },
            }
        }
    }

    /// After an element without content.
    pub open spec fn met(self, element: ElementView) -> Result<Progress, ErrorView> {
        if self.excluded_depth > 0 {
            Ok(self)
        } else if element.name == "book"@ {
            self.book_met(element)
        } else if is_milestone_name(element.name) {
            self.marked(element)
        } else {
            self.continued(element)
        }
    }

    /// Whether text belongs to a verse here.
    pub open spec fn takes_text(self) -> bool {
        self.excluded_depth == 0 && self.current is Some
    }

    /// After an event where no milestone waits for its closing tag.
    pub open spec fn advanced(self, event: EventView) -> Result<Progress, ErrorView> {
        match event {
            EventView::Start(element) => self.started(element),
            EventView::Empty(element) => self.met(element),
            EventView::Text(content) | EventView::CData(content) => if self.takes_text() {
                match content {
                    Ok(text) => Ok(self.with_text(text)),
                    Err(error) => Err(ErrorView::XmlEncoding(error)),
                }
            } else {
                Ok(self)
            },
            EventView::Reference(content) => if self.takes_text() {
                match content {
                    Err(error) => Err(ErrorView::XmlEncoding(error)),
                    Ok(reference) => match xml::resolved(reference) {
                        Ok(text) => Ok(self.with_text(text)),
                        Err(error) => Err(ErrorView::XmlEscape(error)),
                    },
                }
            } else {
                Ok(self)
            },
            EventView::End(_) => if self.excluded_depth > 0 {
                Ok(Progress { excluded_depth: (self.excluded_depth - 1) as nat, ..self })
            } else {
                Ok(self)
            },
            EventView::Eof => Ok(self.verse_closed()),
            EventView::Other => Ok(self),
        }
    }

    /// After an event. A milestone must be closed right after its opening tag, and then
    /// counts as an element without content.
    pub open spec fn step(self, event: EventView) -> Result<Progress, ErrorView> {
        match self.milestone {
            None => self.advanced(event),
            Some(element) => if event is End {
                (Progress { milestone: None, ..self }).met(element)
            } else {
                Err(
                    ErrorView::NonEmptyUsxMilestone(
                        if element.name == "chapter"@ {
                            "chapter"@
                        } else {
                            "verse"@
                        },
                    ),
                )
            },
        }
    }

    /// The verses of the document, after its end.
    pub open spec fn result(self) -> Result<Seq<VerseView>, ErrorView> {
        if self.version is None {
            Err(ErrorView::MissingUsxField("usx/@version"@))
        } else if !self.found_book {
            Err(ErrorView::MissingUsxField("book/@code"@))
        } else if self.is_strict() && self.chapter is Some {
            Err(ErrorView::MissingUsxField("chapter/@eid"@))
        } else {
            Ok(self.verses)
        }
    }

    /// The verses of the document, where `events` are still to come.
    pub open spec fn run(self, events: Seq<Result<EventView, quick_xml::Error>>) -> Result<
        Seq<VerseView>,
        ErrorView,
    >
        decreases events.len(),
    {
        if events.len() == 0 {
            self.result()
        } else {
            match events[0] {
                Err(error) => Err(ErrorView::Xml(error)),
                Ok(event) => match self.step(event) {
                    Err(error) => Err(error),
                    Ok(next) => if event is Eof {
                        next.result()
                    } else {
                        next.run(events.skip(1))
                    },
                },
            }
        }
    }
}

/// The verses of a document that must hold the book of that code.
pub open spec fn document_verses(source: Seq<u8>, book_code: Seq<char>) -> Result<
    Seq<VerseView>,
    ErrorView,
> {
    at_start(book_code).run(xml::document_events(source))
}

/// Collects the verses of a document from its events.
pub struct VerseParser {
    book_code: String,
    verses: Vec<Verse>,
    current: Option<Verse>,
    chapter: Option<Chapter>,
    excluded_depth: usize,
    version: Option<UsxVersion>,
    found_book: bool,
    milestone: Option<XmlElement>,
}

impl View for VerseParser {
    type V = Progress;

    closed spec fn view(&self) -> Progress {
        Progress {
            book_code: self.book_code@,
            verses: crate::passage::verse_views(self.verses@),
            current: open_verse(self.current),
            chapter: match self.chapter {
                Some(chapter) => Some(ChapterView { number: chapter.number, sid: chapter.sid@ }),
                None => None,
            },
            excluded_depth: self.excluded_depth as nat,
            version: match self.version {
                Some(version) => Some(version.major),
                None => None,
            },
            found_book: self.found_book,
            milestone: match self.milestone {
                Some(element) => Some(element@),
                None => None,
            },
        }
    }
}

impl VerseParser {
    /// A parser at the start of a document that must hold the book of that code.
    pub fn new(book_code: &str) -> (parser: Self)
        ensures
            parser@ == at_start(book_code@),
    {
        let parser = VerseParser {
            book_code: book_code.to_owned(),
            verses: Vec::new(),
            current: None,
            chapter: None,
            excluded_depth: 0,
            version: None,
            found_book: false,
            milestone: None,
        };
        assert(parser@.verses =~= seq![]);
        parser
    }

    /// Completes the open verse, if there is one.
    fn finish_verse(&mut self)
        ensures
            final(self)@ == old(self)@.verse_closed(),
    {
        match self.current.take() {
            Some(mut verse) => {
                let ghost open = verse@;
                verse.text = text::collapse_white_space(verse.text.as_str());
                assert(verse@ == completed(open));
                self.verses.push(verse);
                assert(self@.verses =~= old(self)@.verses.push(completed(open)));
            },
            None => {},
        }
    }

    fn append_text(&mut self, content: &str)
        ensures
            final(self)@ == old(self)@.with_text(content@),
    {
        match self.current.take() {
            Some(mut verse) => {
                verse.text.append(content);
                self.current = Some(verse);
            },
            None => {},
        }
    }

    fn is_strict(&self) -> (strict: bool)
        ensures
            strict == self@.is_strict(),
    {
        match self.version {
            Some(version) => version.major >= 3,
            None => false,
        }
    }

    fn read_sid(&self, element: &XmlElement, place: &str, field: &'static str) -> (sid: Result<
        String,
        Error,
    >)
        ensures
            crate::error::outcome(sid) == self@.milestone_sid(element@, place@, field@),
    {
        match optional_attribute(element, "sid") {
            Err(error) => Err(error),
            Ok(Some(sid)) => if !self.is_strict() || identifier_matches(
                sid.as_str(),
                self.book_code.as_str(),
                place,
            ) {
                Ok(sid)
            } else {
                Err(
                    Error::InvalidUsxIdentifier {
                        attribute: field,
                        expected: make_identifier(self.book_code.as_str(), place),
                        actual: sid,
                    },
                )
            },
            Ok(None) => if self.is_strict() {
                Err(Error::MissingUsxField(field))
            } else {
                Ok(make_identifier(self.book_code.as_str(), place))
            },
        }
    }

    fn end_chapter(self, actual: String) -> (next: Result<Self, Error>)
        ensures
            crate::error::outcome(next) == self@.chapter_ended(actual@),
    {
        let mut parser = self;
        match &parser.chapter {
            None => Err(Error::UnexpectedChapterEnd(actual)),
            Some(open) => {
                if identifiers_agree(open.sid.as_str(), actual.as_str(), parser.book_code.as_str()) {
                    parser.chapter = None;
                    Ok(parser)
                } else {
                    Err(Error::MismatchedChapterEnd { expected: open.sid.clone(), actual })
                }
            },
        }
    }

    fn start_chapter(self, element: &XmlElement) -> (next: Result<Self, Error>)
        ensures
            crate::error::outcome(next) == self@.chapter_started(element@),
    {
        let mut parser = self;
        if parser.is_strict() && parser.chapter.is_some() {
            return Err(Error::MissingUsxField("chapter/@eid"));
        }
        match validate_style(element, "chapter", "c") {
            Ok(_) => {},
            Err(error) => return Err(error),
        }
        let numeral = match required_attribute(element, "number", "chapter/@number") {
            Ok(numeral) => numeral,
            Err(error) => return Err(error),
        };
        let number: u32 = match text::parse_u32(numeral.as_str()) {
            Some(number) => number,
            None => return Err(Error::InvalidChapterNumber(numeral)),
        };
        if number == 0 {
            return Err(Error::InvalidChapterNumber(numeral));
        }
        let place = text::decimal_string(number);
        let sid = match parser.read_sid(element, place.as_str(), "chapter/@sid") {
            Ok(sid) => sid,
            Err(error) => return Err(error),
        };
        parser.chapter = Some(Chapter { number, sid });
        Ok(parser)
    }

    fn end_verse(self, actual: String) -> (next: Result<Self, Error>)
        ensures
            crate::error::outcome(next) == self@.verse_ended(actual@),
    {
        let mut parser = self;
        match &parser.current {
            None => return Err(Error::UnexpectedVerseEnd(actual)),
            Some(open) => {
                if !identifiers_agree(open.sid.as_str(), actual.as_str(), parser.book_code.as_str()) {
                    return Err(Error::MismatchedVerseEnd { expected: open.sid.clone(), actual });
                }
            },
        }
        parser.finish_verse();
        Ok(parser)
    }

    fn start_verse(self, element: &XmlElement) -> (next: Result<Self, Error>)
        ensures
            crate::error::outcome(next) == self@.verse_started(element@),
    {
        let mut parser = self;
        match validate_style(element, "verse", "v") {
            Ok(_) => {},
            Err(error) => return Err(error),
        }
        let number = match required_attribute(element, "number", "verse/@number") {
            Ok(number) => number,
            Err(error) => return Err(error),
        };
        let chapter: u32 = match &parser.chapter {
            Some(chapter) => chapter.number,
            None => return Err(Error::MissingUsxField("chapter/@number")),
        };
        let place = make_verse_location(chapter, number.as_str());
        let sid = match parser.read_sid(element, place.as_str(), "verse/@sid") {
            Ok(sid) => sid,
            Err(error) => return Err(error),
        };
        let alternate_number = match optional_attribute(element, "altnumber") {
            Ok(value) => value,
            Err(error) => return Err(error),
        };
        let published_number = match optional_attribute(element, "pubnumber") {
            Ok(value) => value,
            Err(error) => return Err(error),
        };
        parser.finish_verse();
        parser.current = Some(
            Verse {
                sid,
                chapter,
                number,
                alternate_number,
                published_number,
                text: String::new(),
            },
        );
        assert(parser@.current->0.text =~= seq![]);
        Ok(parser)
    }

    /// Records a chapter or verse milestone.
    fn record_usx_marker(self, element: &XmlElement) -> (next: Result<Self, Error>)
        requires
            is_milestone_name(element@.name),
        ensures
            crate::error::outcome(next) == self@.marked(element@),
    {
        let mut parser = self;
        if parser.version.is_none() {
            return Err(Error::MissingUsxField("usx/@version"));
        }
        let eid = match optional_attribute(element, "eid") {
            Ok(eid) => eid,
            Err(error) => return Err(error),
        };
        if text::same(element.name.as_str(), "chapter") {
            parser.finish_verse();
            match eid {
                Some(actual) => parser.end_chapter(actual),
                None => parser.start_chapter(element),
            }
        } else {
            match eid {
                Some(actual) => parser.end_verse(actual),
                None => parser.start_verse(element),
            }
        }
    }

    fn continue_verse(self, element: &XmlElement) -> (next: Result<Self, Error>)
        ensures
            crate::error::outcome(next) == self@.continued(element@),
    {
        match validate_vid(element, &self.current, self.book_code.as_str()) {
            Ok(_) => Ok(self),
            Err(error) => Err(error),
        }
    }

    fn meet_book(self, element: &XmlElement) -> (next: Result<Self, Error>)
        ensures
            crate::error::outcome(next) == self@.book_met(element@),
    {
        let mut parser = self;
        match validate_book(element, parser.book_code.as_str()) {
            Ok(_) => {
                parser.found_book = true;
                Ok(parser)
            },
            Err(error) => Err(error),
        }
    }

    fn start_element(self, element: XmlElement) -> (next: Result<Self, Error>)
        requires
            self@.excluded_depth < usize::MAX,
        ensures
            crate::error::outcome(next) == self@.started(element@),
    {
        let mut parser = self;
        let name = element.name.as_str();
        if text::same(name, "chapter") || text::same(name, "verse") {
            parser.milestone = Some(element);
            return Ok(parser);
        }
        if text::same(name, "usx") {
            match parse_usx_version(&element) {
                Ok(version) => {
                    parser.version = Some(version);
                },
                Err(error) => return Err(error),
            }
        } else if text::same(name, "book") {
            parser = match parser.meet_book(&element) {
                Ok(next) => next,
                Err(error) => return Err(error),
            };
        }
        if parser.excluded_depth > 0 {
            parser.excluded_depth = parser.excluded_depth + 1;
            Ok(parser)
        } else if is_excluded(name) {
            parser.excluded_depth = 1;
            Ok(parser)
        } else {
            parser.continue_verse(&element)
        }
    }

    fn meet_element(self, element: &XmlElement) -> (next: Result<Self, Error>)
        ensures
            crate::error::outcome(next) == self@.met(element@),
    {
        let name = element.name.as_str();
        if self.excluded_depth > 0 {
            Ok(self)
        } else if text::same(name, "book") {
            self.meet_book(element)
        } else if text::same(name, "chapter") || text::same(name, "verse") {
            self.record_usx_marker(element)
        } else {
            self.continue_verse(element)
        }
    }

    /// Takes the next event of the document.
    pub fn event(self, event: XmlEvent) -> (next: Result<Self, Error>)
        requires
            event@ is Start ==> self@.excluded_depth < usize::MAX,
        ensures
            crate::error::outcome(next) == self@.step(event@),
    {
        let mut parser = self;
        let ghost before = parser@;
        match parser.milestone.take() {
            Some(element) => {
                return match event {
                    XmlEvent::End(_) => parser.meet_element(&element),
                    _ => if text::same(element.name.as_str(), "chapter") {
                        Err(Error::NonEmptyUsxMilestone("chapter"))
                    } else {
                        Err(Error::NonEmptyUsxMilestone("verse"))
                    },
                };
            },
            None => {},
        }
        let takes_text = parser.excluded_depth == 0 && parser.current.is_some();
        match event {
            XmlEvent::Start(element) => parser.start_element(element),
            XmlEvent::Empty(element) => parser.meet_element(&element),
            XmlEvent::Text(content) | XmlEvent::CData(content) => {
                if takes_text {
                    match content {
                        Ok(content) => parser.append_text(content.as_str()),
                        Err(error) => return Err(Error::XmlEncoding(error)),
                    }
                }
                Ok(parser)
            },
            XmlEvent::Reference(content) => {
                if takes_text {
                    let reference = match content {
                        Ok(reference) => reference,
                        Err(error) => return Err(Error::XmlEncoding(error)),
                    };
                    match xml::resolve_reference(reference.as_str()) {
                        Ok(content) => parser.append_text(content.as_str()),
                        Err(error) => return Err(Error::XmlEscape(error)),
                    }
                }
                Ok(parser)
            },
            XmlEvent::End(_) => {
                if parser.excluded_depth > 0 {
                    parser.excluded_depth = parser.excluded_depth - 1;
                }
                Ok(parser)
            },
            XmlEvent::Eof => {
                parser.finish_verse();
                Ok(parser)
            },
            XmlEvent::Other => Ok(parser),
        }
    }

    /// The verses, after the end of the document.
    pub fn finish(self) -> (verses: Result<Vec<Verse>, Error>)
        ensures
            verses_outcome(verses) == self@.result(),
    {
        if self.version.is_none() {
            return Err(Error::MissingUsxField("usx/@version"));
        }
        if !self.found_book {
            return Err(Error::MissingUsxField("book/@code"));
        }
        if self.is_strict() && self.chapter.is_some() {
            return Err(Error::MissingUsxField("chapter/@eid"));
        }
        Ok(self.verses)
    }
}

/// The view of verses that were read.
pub open spec fn verses_outcome(verses: Result<Vec<Verse>, Error>) -> Result<
    Seq<VerseView>,
    ErrorView,
> {
    match verses {
        Ok(verses) => Ok(crate::passage::verse_views(verses@)),
        Err(error) => Err(error@),
    }
}

/// Parses the verses in a USX document in document order.
///
/// `expected_book_code` is checked against the document's `book/@code` value.
/// USX 3 chapter `sid` and `eid` milestones are required and matched. Verse
/// `eid` milestones are matched when present; a following verse, chapter
/// boundary, or end of file also closes the current verse, allowing documents
/// that omit verse-ending milestones.
pub fn verses(source: &[u8], expected_book_code: &str) -> (verses: Result<Vec<Verse>, Error>)
    ensures
        verses_outcome(verses) == document_verses(source@, expected_book_code@),
        xml::is_whole(xml::document_events(source@)),
        verses matches Ok(verses) ==> textless(crate::passage::verse_views(verses@))
            == document_starts(source@, expected_book_code@),
        verses matches Ok(verses) ==> crate::passage::verse_views(verses@)
            == scripture::document_scripture(source@, expected_book_code@),
{
    let mut reader = xml::open_document(source);
    let mut parser = VerseParser::new(expected_book_code);
    let ghost outcome = document_verses(source@, expected_book_code@);
    proof {
        if outcome is Ok {
            law_one_verse_for_each_start(source@, expected_book_code@);
            scripture::law_verses_with_their_text(source@, expected_book_code@);
        }
    }
    loop
        invariant
            parser@.run(xml::pending_events(&reader)) == outcome,
            parser@.excluded_depth + xml::pending_events(&reader).len() <= source@.len() + 1,
            xml::pending_events(&reader).len() > 0,
            outcome == document_verses(source@, expected_book_code@),
            xml::is_whole(xml::document_events(source@)),
            outcome matches Ok(verses) ==> textless(verses) == document_starts(
                source@,
                expected_book_code@,
            ) && verses == scripture::document_scripture(source@, expected_book_code@),
        decreases xml::pending_events(&reader).len(),
    {
        let ghost events = xml::pending_events(&reader);
        let event = match xml::next_event(&mut reader) {
            Ok(event) => event,
            Err(error) => return Err(Error::Xml(error)),
        };
        let at_end = match &event {
            XmlEvent::Eof => true,
            _ => false,
        };
        let ghost before = parser@;
        let ghost view = event@;
        assert(source@.len() == source.len());
        parser = match parser.event(event) {
            Ok(next) => next,
            Err(error) => return Err(error),
        };
        if at_end {
            return parser.finish();
        }
        proof {
            lemma_depth_grows_by_one(before, view);
        }
    }
}

proof fn lemma_depth_grows_by_one(progress: Progress, event: EventView)
    ensures
        progress.step(event) is Ok ==> progress.step(event)->Ok_0.excluded_depth
            <= progress.excluded_depth + 1,
{
}

// What holds of every document.

/// The results of reading events without fault.
pub open spec fn read(events: Seq<EventView>) -> Seq<Result<EventView, quick_xml::Error>> {
    Seq::new(events.len(), |i: int| Ok::<EventView, quick_xml::Error>(events[i]))
}

/// A milestone that is closed right after its opening tag counts as an element without
/// content.
pub proof fn law_milestone_forms(
    progress: Progress,
    element: ElementView,
    closing: Seq<char>,
    rest: Seq<Result<EventView, quick_xml::Error>>,
)
    requires
        is_milestone_name(element.name),
        progress.milestone is None,
    ensures
        progress.run(read(seq![EventView::Start(element), EventView::End(closing)]) + rest)
            == progress.run(read(seq![EventView::Empty(element)]) + rest),
{
    let apart = read(seq![EventView::Start(element), EventView::End(closing)]) + rest;
    let together = read(seq![EventView::Empty(element)]) + rest;
    assert(apart[0] == Ok::<EventView, quick_xml::Error>(EventView::Start(element)));
    assert(together[0] == Ok::<EventView, quick_xml::Error>(EventView::Empty(element)));
    let begun = Progress { milestone: Some(element), ..progress };
    assert(progress.step(EventView::Start(element)) == Ok::<Progress, ErrorView>(begun));
    assert(apart.skip(1)[0] == Ok::<EventView, quick_xml::Error>(EventView::End(closing)));
    assert(apart.skip(1).skip(1) =~= rest);
    assert(together.skip(1) =~= rest);
    assert((Progress { milestone: None, ..begun }) == progress);
    assert(begun.step(EventView::End(closing)) == progress.step(EventView::Empty(element)));
    assert(begun.run(apart.skip(1)) == progress.run(together));
}

/// Whether a milestone completes the verse that is open: it starts another verse, or
/// starts or ends a chapter.
pub open spec fn completes_verse(element: ElementView) -> bool {
    ||| element.name == "chapter"@
    ||| element.name == "verse"@ && xml::optional_value(element, "eid"@) == Ok::<
        Option<Seq<char>>,
        ErrorView,
    >(None)
}

/// Whether events begin with what completes the verse that is open: such a milestone, in
/// either form, or the end of the document.
pub open spec fn begin_anew(events: Seq<Result<EventView, quick_xml::Error>>) -> bool {
    events.len() > 0 && match events[0] {
        Ok(EventView::Empty(element)) => completes_verse(element),
        Ok(EventView::Start(element)) => completes_verse(element) && events.len() > 1,
        Ok(EventView::Eof) => true,
        _ => false,
    }
}

/// Whether an event between two verses belongs to neither of them: white space, a comment
/// or the like, a closing tag, or the tag of an element that continues no verse.
pub open spec fn is_between_verses(event: EventView) -> bool {
    match event {
        EventView::Start(element) | EventView::Empty(element) => {
            &&& !is_milestone_name(element.name) && !is_excluded_name(element.name)
            &&& element.name != "usx"@ && element.name != "book"@
            &&& xml::optional_value(element, "vid"@) == Ok::<Option<Seq<char>>, ErrorView>(None)
        },
        EventView::Text(Ok(content)) | EventView::CData(Ok(content)) => {
            text::words(content).len() == 0
        },
        EventView::End(_) | EventView::Other => true,
        _ => false,
    }
}

proof fn lemma_completing_milestone(open: Progress, closed: Progress, element: ElementView)
    requires
        open.excluded_depth == 0,
        closed == open.verse_closed(),
        completes_verse(element),
    ensures
        closed.met(element) == open.met(element),
{
    lemma_element_names();
    assert(closed.verse_closed() == closed);
    if element.name == "chapter"@ {
        assert(closed.marked(element) == open.marked(element));
    } else {
        match required_value(element, "number"@, "verse/@number"@) {
            Ok(number) => {
                assert(closed.verse_opened(element, number) == open.verse_opened(element, number));
            },
            Err(_) => {},
        }
        assert(closed.verse_started(element) == open.verse_started(element));
    }
}

proof fn lemma_closed_or_open(
    open: Progress,
    closed: Progress,
    between: Seq<EventView>,
    rest: Seq<Result<EventView, quick_xml::Error>>,
)
    requires
        open.milestone is None,
        open.excluded_depth == 0,
        closed == open.verse_closed(),
        forall|i: int| 0 <= i < between.len() ==> is_between_verses(#[trigger] between[i]),
        begin_anew(rest),
    ensures
        closed.run(read(between) + rest) == open.run(read(between) + rest),
    decreases between.len(),
{
    lemma_element_names();
    let events = read(between) + rest;
    if between.len() == 0 {
        assert(events =~= rest);
        match rest[0]->Ok_0 {
            EventView::Empty(element) => lemma_completing_milestone(open, closed, element),
            EventView::Start(element) => {
                let event = rest[0]->Ok_0;
                let begun_open = Progress { milestone: Some(element), ..open };
                let begun_closed = Progress { milestone: Some(element), ..closed };
                assert(open.step(event) == Ok::<Progress, ErrorView>(begun_open));
                assert(closed.step(event) == Ok::<Progress, ErrorView>(begun_closed));
                assert((Progress { milestone: None, ..begun_open }) == open);
                assert((Progress { milestone: None, ..begun_closed }) == closed);
                lemma_completing_milestone(open, closed, element);
                match rest.skip(1)[0] {
                    Ok(following) => {
                        assert(begun_open.step(following) == begun_closed.step(following));
                    },
                    Err(_) => {},
                }
                assert(begun_open.run(rest.skip(1)) == begun_closed.run(rest.skip(1)));
            },
            _ => {
                assert(closed.verse_closed() == closed);
            },
        }
    } else {
        let event = between[0];
        assert(is_between_verses(event));
        assert(events[0] == Ok::<EventView, quick_xml::Error>(event));
        assert(events.skip(1) =~= read(between.skip(1)) + rest);
        assert forall|i: int| 0 <= i < between.skip(1).len() implies is_between_verses(
            #[trigger] between.skip(1)[i],
        ) by {
            assert(is_between_verses(between[i + 1]));
        }
        let next = match event {
            EventView::Text(Ok(content)) | EventView::CData(Ok(content)) => {
                match open.current {
                    Some(verse) => {
                        text::lemma_words_of_blank_end(verse.text, content);
                    },
                    None => {},
                }
                open.with_text(content)
            },
            _ => open,
        };
        assert(open.step(event) == Ok::<Progress, ErrorView>(next));
        assert(closed.step(event) == Ok::<Progress, ErrorView>(closed));
        assert(closed == next.verse_closed());
        lemma_closed_or_open(next, closed, between.skip(1), rest);
    }
}

/// The end milestone of a verse may be omitted before what completes the verse, with only
/// white space and the tags of other elements between them: a document reads alike with the
/// milestone, in either form, and without it.
pub proof fn law_verse_end_may_be_omitted(
    progress: Progress,
    end: ElementView,
    closing: Seq<char>,
    between: Seq<EventView>,
    rest: Seq<Result<EventView, quick_xml::Error>>,
)
    requires
        progress.milestone is None,
        end.name == "verse"@,
        xml::optional_value(end, "eid"@) matches Ok(Some(_)),
        progress.step(EventView::Empty(end)) is Ok,
        forall|i: int| 0 <= i < between.len() ==> is_between_verses(#[trigger] between[i]),
        begin_anew(rest),
    ensures
        progress.run(read(seq![EventView::Empty(end)] + between) + rest) == progress.run(
            read(between) + rest,
        ),
        progress.run(read(seq![EventView::Start(end), EventView::End(closing)] + between) + rest)
            == progress.run(read(between) + rest),
{
    lemma_element_names();
    let tail = read(between) + rest;
    let ended = progress.step(EventView::Empty(end))->Ok_0;
    let together = read(seq![EventView::Empty(end)] + between) + rest;
    assert(together[0] == Ok::<EventView, quick_xml::Error>(EventView::Empty(end)));
    assert(together.skip(1) =~= tail);
    if progress.excluded_depth == 0 {
        assert(ended == progress.verse_closed());
        lemma_closed_or_open(progress, ended, between, rest);
    } else {
        assert(ended == progress);
    }
    assert(together =~= read(seq![EventView::Empty(end)]) + tail);
    assert(read(seq![EventView::Start(end), EventView::End(closing)] + between) + rest =~= read(
        seq![EventView::Start(end), EventView::End(closing)],
    ) + tail);
    law_milestone_forms(progress, end, closing, tail);
}

/// The names of elements that are told apart differ.
pub proof fn lemma_element_names()
    ensures
        "chapter"@ != "verse"@,
        "book"@ != "verse"@,
        "book"@ != "chapter"@,
        "book"@ != "usx"@,
        !is_milestone_name("note"@) && "note"@ != "usx"@ && "note"@ != "book"@,
        !is_milestone_name("figure"@) && "figure"@ != "usx"@ && "figure"@ != "book"@,
        !is_milestone_name("sidebar"@) && "sidebar"@ != "usx"@ && "sidebar"@ != "book"@,
{
    reveal_strlit("chapter");
    reveal_strlit("verse");
    reveal_strlit("book");
    reveal_strlit("usx");
    reveal_strlit("note");
    reveal_strlit("figure");
    reveal_strlit("sidebar");
    assert("chapter"@.len() == 7 && "verse"@.len() == 5 && "book"@.len() == 4 && "usx"@.len() == 3);
    assert("note"@.len() == 4 && "figure"@.len() == 6 && "sidebar"@.len() == 7);
    assert("book"@[0] == 'b' && "note"@[0] == 'n' && "chapter"@[0] == 'c' && "sidebar"@[0] == 's');
}

/// Whether `events` are the content and the closing tag of an element, where `depth`
/// elements are open at their start, that element included. Declarations do not stand in
/// such content, and a milestone is closed right after its opening tag.
pub open spec fn is_content(events: Seq<EventView>, depth: nat) -> bool
    decreases events.len(),
{
    if events.len() == 0 || depth == 0 {
        false
    } else {
        match events[0] {
            EventView::Start(element) => if is_milestone_name(element.name) {
                events.len() > 1 && events[1] is End && is_content(events.skip(2), depth)
            } else {
                &&& element.name != "usx"@ && element.name != "book"@
                &&& is_content(events.skip(1), depth + 1)
            },
            EventView::End(_) => if depth == 1 {
                events.len() == 1
            } else {
                is_content(events.skip(1), (depth - 1) as nat)
            },
            EventView::Eof => false,
            _ => is_content(events.skip(1), depth),
        }
    }
}

proof fn lemma_excluded_content(
    progress: Progress,
    content: Seq<EventView>,
    depth: nat,
    outside: Progress,
    rest: Seq<Result<EventView, quick_xml::Error>>,
)
    requires
        progress.milestone is None,
        is_content(content, depth),
        progress == (Progress { excluded_depth: outside.excluded_depth + depth, ..outside }),
    ensures
        progress.run(read(content) + rest) == outside.run(rest),
    decreases content.len(),
{
    let events = read(content) + rest;
    let event = content[0];
    assert(events[0] == Ok::<EventView, quick_xml::Error>(event));
    assert(events.skip(1) =~= read(content.skip(1)) + rest);
    match event {
        EventView::Start(element) => {
            if is_milestone_name(element.name) {
                let begun = Progress { milestone: Some(element), ..progress };
                assert(progress.step(event) == Ok::<Progress, ErrorView>(begun));
                assert(events.skip(1)[0] == Ok::<EventView, quick_xml::Error>(content[1]));
                assert((Progress { milestone: None, ..begun }) == progress);
                assert(begun.step(content[1]) == Ok::<Progress, ErrorView>(progress));
                assert(events.skip(1).skip(1) =~= read(content.skip(2)) + rest);
                assert(progress.run(events) == begun.run(events.skip(1)));
                assert(begun.run(events.skip(1)) == progress.run(events.skip(1).skip(1)));
                lemma_excluded_content(progress, content.skip(2), depth, outside, rest);
            } else {
                let next = Progress { excluded_depth: progress.excluded_depth + 1, ..progress };
                assert(progress.step(event) == Ok::<Progress, ErrorView>(next));
                lemma_excluded_content(next, content.skip(1), depth + 1, outside, rest);
            }
        },
        EventView::End(_) => {
            let next = Progress { excluded_depth: (progress.excluded_depth - 1) as nat, ..progress };
            assert(progress.step(event) == Ok::<Progress, ErrorView>(next));
            if depth == 1 {
                assert(next == outside);
                assert(events.skip(1) =~= rest);
            } else {
                lemma_excluded_content(next, content.skip(1), (depth - 1) as nat, outside, rest);
            }
        },
        _ => {
            assert(progress.step(event) == Ok::<Progress, ErrorView>(progress));
            lemma_excluded_content(progress, content.skip(1), depth, outside, rest);
        },
    }
}

/// A note, a figure or a sidebar adds nothing to the verses: a document reads as if it
/// were not there.
pub proof fn law_notes_are_not_scripture(
    progress: Progress,
    element: ElementView,
    content: Seq<EventView>,
    rest: Seq<Result<EventView, quick_xml::Error>>,
)
    requires
        progress.milestone is None,
        is_excluded_name(element.name),
        is_content(content, 1),
    ensures
        progress.run(read(seq![EventView::Start(element)] + content) + rest) == progress.run(rest),
{
    lemma_element_names();
    let events = read(seq![EventView::Start(element)] + content) + rest;
    assert(events[0] == Ok::<EventView, quick_xml::Error>(EventView::Start(element)));
    assert(events.skip(1) =~= read(content) + rest);
    let inside = Progress { excluded_depth: progress.excluded_depth + 1, ..progress };
    assert(progress.step(EventView::Start(element)) == Ok::<Progress, ErrorView>(inside));
    lemma_excluded_content(inside, content, 1, progress, rest);
}

/// Verses that are complete stay as they are: each event keeps them and may add one.
pub proof fn law_complete_verses_stay(progress: Progress, event: EventView)
    requires
        progress.step(event) is Ok,
    ensures
        progress.verses.is_prefix_of(progress.step(event)->Ok_0.verses),
        progress.step(event)->Ok_0.verses.len() <= progress.verses.len() + 1,
{
    let next = progress.step(event)->Ok_0;
    assert(progress.verses =~= next.verses.subrange(0, progress.verses.len() as int));
}

/// Whether the chapter of a verse is positive and its text has no needless white space.
pub open spec fn is_complete(verse: VerseView) -> bool {
    verse.chapter > 0 && text::collapsed(verse.text) == verse.text
}

/// What holds at every point of a document.
pub open spec fn is_consistent(progress: Progress) -> bool {
    &&& progress.chapter is Some ==> progress.chapter->0.number > 0
    &&& progress.current is Some ==> progress.current->0.chapter > 0
    &&& forall|i: int|
        0 <= i < progress.verses.len() ==> is_complete(#[trigger] progress.verses[i])
}

proof fn lemma_closing_is_consistent(progress: Progress)
    requires
        is_consistent(progress),
    ensures
        is_consistent(progress.verse_closed()),
{
    match progress.current {
        Some(verse) => {
            text::law_collapsing_keeps_words(verse.text);
            assert(is_complete(completed(verse)));
        },
        None => {},
    }
}

/// Each event keeps chapter numbers positive and complete verses collapsed.
pub proof fn law_events_keep_consistency(progress: Progress, event: EventView)
    requires
        is_consistent(progress),
        progress.step(event) is Ok,
    ensures
        is_consistent(progress.step(event)->Ok_0),
{
    lemma_closing_is_consistent(progress);
}

proof fn lemma_run_is_consistent(
    progress: Progress,
    events: Seq<Result<EventView, quick_xml::Error>>,
)
    requires
        is_consistent(progress),
        progress.run(events) is Ok,
    ensures
        forall|i: int|
            0 <= i < progress.run(events)->Ok_0.len() ==> is_complete(
                #[trigger] progress.run(events)->Ok_0[i],
            ),
    decreases events.len(),
{
    if events.len() > 0 {
        let event = events[0]->Ok_0;
        law_events_keep_consistency(progress, event);
        if event !is Eof {
            lemma_run_is_consistent(progress.step(event)->Ok_0, events.skip(1));
        }
    }
}

/// Every verse of a document has a positive chapter number, and its text has single spaces
/// between its words and none at its ends.
pub proof fn law_verses_are_complete(source: Seq<u8>, book_code: Seq<char>)
    requires
        document_verses(source, book_code) is Ok,
    ensures
        forall|i: int|
            0 <= i < document_verses(source, book_code)->Ok_0.len() ==> is_complete(
                #[trigger] document_verses(source, book_code)->Ok_0[i],
            ),
{
    lemma_run_is_consistent(at_start(book_code), xml::document_events(source));
}

/// In a strict document a chapter has a start milestone with an identifier that describes
/// it, and an end milestone before the next chapter and before the end of the document.
pub proof fn law_strict_chapters(progress: Progress, element: ElementView)
    requires
        progress.is_strict(),
    ensures
        progress.chapter is Some ==> progress.chapter_started(element) == Err::<
            Progress,
            ErrorView,
        >(ErrorView::MissingUsxField("chapter/@eid"@)),
        progress.chapter_started(element) matches Ok(next) ==> next.chapter is Some && describes(
            next.chapter->0.sid,
            progress.book_code,
            text::decimal(next.chapter->0.number as nat),
        ) && xml::optional_value(element, "sid"@) == Ok::<Option<Seq<char>>, ErrorView>(
            Some(next.chapter->0.sid),
        ),
        progress.chapter is Some ==> progress.result() is Err,
{
}

/// In a strict document a verse has an identifier that describes it.
pub proof fn law_strict_verses(progress: Progress, element: ElementView, number: Seq<char>)
    requires
        progress.is_strict(),
    ensures
        progress.verse_opened(element, number) matches Ok(next) ==> next.current is Some
            && describes(
            next.current->0.sid,
            progress.book_code,
            verse_location(next.current->0.chapter, number),
        ) && xml::optional_value(element, "sid"@) == Ok::<Option<Seq<char>>, ErrorView>(
            Some(next.current->0.sid),
        ),
{
}

/// An end milestone is accepted exactly where what it ends is open and has its identifier.
pub proof fn law_ends_match_what_is_open(progress: Progress, actual: Seq<char>)
    ensures
        progress.verse_ended(actual) is Ok <==> progress.current is Some && same_place(
            progress.current->0.sid,
            actual,
            progress.book_code,
        ),
        progress.verse_ended(actual) matches Ok(next) ==> next.current is None,
        progress.chapter_ended(actual) is Ok <==> progress.chapter is Some && same_place(
            progress.chapter->0.sid,
            actual,
            progress.book_code,
        ),
        progress.chapter_ended(actual) matches Ok(next) ==> next.chapter is None,
{
}

/// A milestone without an identifier, in a document that is not strict, gets one that
/// describes it.
pub proof fn law_made_identifiers_describe(
    progress: Progress,
    element: ElementView,
    place: Seq<char>,
    field: Seq<char>,
)
    requires
        !progress.is_strict(),
        xml::optional_value(element, "sid"@) == Ok::<Option<Seq<char>>, ErrorView>(None),
    ensures
        progress.milestone_sid(element, place, field) matches Ok(sid) && describes(
            sid,
            progress.book_code,
            place,
        ),
{
    law_identifier_describes(progress.book_code, place);
}

/// The milestone that waits for its closing tag after an event.
pub open spec fn milestone_after(milestone: Option<ElementView>, event: EventView) -> Option<ElementView> {
    match event {
        EventView::Start(element) => if milestone is None && is_milestone_name(element.name) {
            Some(element)
        } else {
            None
        },
        _ => None,
    }
}

/// The excluded depth after an event.
pub open spec fn depth_after(depth: nat, milestone: Option<ElementView>, event: EventView) -> nat {
    match event {
        EventView::Start(element) => if milestone is Some || is_milestone_name(element.name) {
            depth
        } else if depth > 0 {
            depth + 1
        } else if is_excluded_name(element.name) {
            1
        } else {
            0
        },
        EventView::End(_) => if milestone is None && depth > 0 {
            (depth - 1) as nat
        } else {
            depth
        },
        _ => depth,
    }
}

/// The book element that is met by an event.
pub open spec fn book_element(depth: nat, milestone: Option<ElementView>, event: EventView) -> Option<
    ElementView,
> {
    match event {
        EventView::Start(element) => if milestone is None && element.name == "book"@ {
            Some(element)
        } else {
            None
        },
        EventView::Empty(element) => if milestone is None && element.name == "book"@ && depth
            == 0 {
            Some(element)
        } else {
            None
        },
        _ => None,
    }
}

proof fn lemma_marked_frame(progress: Progress, element: ElementView)
    ensures
        progress.marked(element) matches Ok(next) ==> next == (Progress {
            verses: next.verses,
            current: next.current,
            chapter: next.chapter,
            ..progress
        }),
{
}

/// What each event changes beside the verses, the chapter and the version.
pub proof fn lemma_step_frame(progress: Progress, event: EventView, next: Progress)
    requires
        progress.milestone is Some ==> is_milestone_name(progress.milestone->0.name),
        progress.step(event) == Ok::<Progress, ErrorView>(next),
    ensures
        next.book_code == progress.book_code,
        next.milestone == milestone_after(progress.milestone, event),
        next.excluded_depth == depth_after(progress.excluded_depth, progress.milestone, event),
        next.found_book == (progress.found_book || book_element(
            progress.excluded_depth,
            progress.milestone,
            event,
        ) is Some),
        book_element(progress.excluded_depth, progress.milestone, event) matches Some(book)
            ==> book_check(book, progress.book_code) is Ok,
{
    lemma_element_names();
    match progress.milestone {
        Some(element) => lemma_marked_frame(Progress { milestone: None, ..progress }, element),
        None => match event {
            EventView::Empty(element) => lemma_marked_frame(progress, element),
            _ => {},
        },
    }
}

/// Whether two readings of one document are at the same point of it.
spec fn are_level(a: Progress, b: Progress) -> bool {
    &&& a.excluded_depth == b.excluded_depth
    &&& a.milestone == b.milestone
    &&& a.milestone is Some ==> is_milestone_name(a.milestone->0.name)
    &&& a.found_book == b.found_book
    &&& a.found_book ==> a.book_code == b.book_code
}

proof fn lemma_runs_stay_level(
    a: Progress,
    b: Progress,
    events: Seq<Result<EventView, quick_xml::Error>>,
)
    requires
        are_level(a, b),
        a.run(events) is Ok,
        b.run(events) is Ok,
    ensures
        a.book_code == b.book_code,
    decreases events.len(),
{
    if events.len() > 0 {
        let event = events[0]->Ok_0;
        lemma_step_frame(a, event, a.step(event)->Ok_0);
        lemma_step_frame(b, event, b.step(event)->Ok_0);
        if event !is Eof {
            lemma_runs_stay_level(a.step(event)->Ok_0, b.step(event)->Ok_0, events.skip(1));
        }
    }
}

/// The expected code is checked: a document gives its verses under one book code at most.
pub proof fn law_one_book_code(source: Seq<u8>, a: Seq<char>, b: Seq<char>)
    requires
        document_verses(source, a) is Ok,
        document_verses(source, b) is Ok,
    ensures
        a == b,
{
    lemma_runs_stay_level(at_start(a), at_start(b), xml::document_events(source));
}

/// Whether an event declares a supported version.
pub open spec fn declares_version(event: Result<EventView, quick_xml::Error>) -> bool {
    event matches Ok(EventView::Start(element)) && element.name == "usx"@ && declared_version(
        element,
    ) is Ok
}

/// Whether an event is the tag of the book of that code.
pub open spec fn declares_book(
    event: Result<EventView, quick_xml::Error>,
    book_code: Seq<char>,
) -> bool {
    match event {
        Ok(EventView::Start(element)) | Ok(EventView::Empty(element)) => {
            element.name == "book"@ && book_check(element, book_code) is Ok
        },
        _ => false,
    }
}

proof fn lemma_declarations(
    progress: Progress,
    events: Seq<Result<EventView, quick_xml::Error>>,
)
    requires
        progress.run(events) is Ok,
        progress.milestone is Some ==> is_milestone_name(progress.milestone->0.name),
    ensures
        progress.version is Some || exists|i: int|
            0 <= i < events.len() && declares_version(#[trigger] events[i]),
        progress.found_book || exists|i: int|
            0 <= i < events.len() && declares_book(#[trigger] events[i], progress.book_code),
    decreases events.len(),
{
    lemma_element_names();
    if events.len() > 0 {
        let event = events[0]->Ok_0;
        let next = progress.step(event)->Ok_0;
        assert(next.version == progress.version || declares_version(events[0]));
        assert(next.found_book == progress.found_book || declares_book(
            events[0],
            progress.book_code,
        ));
        assert(next.book_code == progress.book_code);
        if event !is Eof {
            let rest = events.skip(1);
            lemma_declarations(next, rest);
            if next.version is None {
                let i = choose|i: int| 0 <= i < rest.len() && declares_version(#[trigger] rest[i]);
                assert(events[i + 1] == rest[i]);
            }
            if !next.found_book {
                let i = choose|i: int|
                    0 <= i < rest.len() && declares_book(#[trigger] rest[i], progress.book_code);
                assert(events[i + 1] == rest[i]);
            }
        }
    }
}

/// A document that gives its verses declares a supported version and the expected book.
pub proof fn law_verses_need_version_and_book(source: Seq<u8>, book_code: Seq<char>)
    requires
        document_verses(source, book_code) is Ok,
    ensures
        exists|i: int|
            0 <= i < xml::document_events(source).len() && declares_version(
                #[trigger] xml::document_events(source)[i],
            ),
        exists|i: int|
            0 <= i < xml::document_events(source).len() && declares_book(
                #[trigger] xml::document_events(source)[i],
                book_code,
            ),
{
    lemma_declarations(at_start(book_code), xml::document_events(source));
}

/// The milestone that an event completes, outside elements whose content is not scripture
/// text. `milestone` waits for its closing tag before the event.
pub open spec fn milestone_met(
    depth: nat,
    milestone: Option<ElementView>,
    event: EventView,
) -> Option<ElementView> {
    match event {
        EventView::Empty(element) => if milestone is None && depth == 0 && is_milestone_name(
            element.name,
        ) {
            Some(element)
        } else {
            None
        },
        EventView::End(_) => if depth == 0 {
            milestone
        } else {
            None
        },
        _ => None,
    }
}

/// The value of an attribute of an element, where it has one that can be read.
pub open spec fn readable_value(element: ElementView, name: Seq<char>) -> Option<Seq<char>> {
    match xml::optional_value(element, name) {
        Ok(value) => value,
        Err(_) => None,
    }
}

/// The chapter that is open after a milestone.
pub open spec fn chapter_after(chapter: Option<u32>, element: ElementView) -> Option<u32> {
    if element.name == "chapter"@ {
        if readable_value(element, "eid"@) is Some {
            None
        } else {
            match readable_value(element, "number"@) {
                Some(number) => text::parsed_u32(number),
                None => None,
            }
        }
    } else {
        chapter
    }
}

/// The verses, of which there is one or none, that a milestone starts in the open chapter,
/// still without their text.
pub open spec fn verses_begun(
    element: ElementView,
    chapter: Option<u32>,
    book_code: Seq<char>,
) -> Seq<VerseView> {
    match (readable_value(element, "number"@), chapter) {
        (Some(number), Some(chapter)) => if element.name == "verse"@ && readable_value(
            element,
            "eid"@,
        ) is None {
            seq![
                VerseView {
                    sid: match readable_value(element, "sid"@) {
                        Some(sid) => sid,
                        None => identifier(book_code, verse_location(chapter, number)),
                    },
                    chapter,
                    number,
                    alternate_number: readable_value(element, "altnumber"@),
                    published_number: readable_value(element, "pubnumber"@),
                    text: seq![],
                },
            ]
        } else {
            seq![]
        },
        _ => seq![],
    }
}

/// The verses that the milestones of a document start, in document order and without their
/// text, through the end of the document or the first error.
pub open spec fn verse_starts(
    events: Seq<Result<EventView, quick_xml::Error>>,
    depth: nat,
    milestone: Option<ElementView>,
    chapter: Option<u32>,
    book_code: Seq<char>,
) -> Seq<VerseView>
    decreases events.len(),
{
    if events.len() == 0 {
        seq![]
    } else {
        match events[0] {
            Err(_) => seq![],
            Ok(event) => if event is Eof {
                seq![]
            } else {
                let next_depth = depth_after(depth, milestone, event);
                let next_milestone = milestone_after(milestone, event);
                match milestone_met(depth, milestone, event) {
                    None => verse_starts(
                        events.skip(1),
                        next_depth,
                        next_milestone,
                        chapter,
                        book_code,
                    ),
                    Some(element) => verses_begun(element, chapter, book_code) + verse_starts(
                        events.skip(1),
                        next_depth,
                        next_milestone,
                        chapter_after(chapter, element),
                        book_code,
                    ),
                }
            },
        }
    }
}

/// The verses that the milestones of a document start.
pub open spec fn document_starts(source: Seq<u8>, book_code: Seq<char>) -> Seq<VerseView> {
    verse_starts(xml::document_events(source), 0, None, None, book_code)
}

/// Verses without their text.
pub open spec fn textless(verses: Seq<VerseView>) -> Seq<VerseView> {
    verses.map_values(|verse: VerseView| VerseView { text: seq![], ..verse })
}

/// The verses that are complete or open, without their text.
spec fn begun(progress: Progress) -> Seq<VerseView> {
    textless(progress.verse_closed().verses)
}

spec fn open_chapter(progress: Progress) -> Option<u32> {
    match progress.chapter {
        Some(chapter) => Some(chapter.number),
        None => None,
    }
}

proof fn lemma_marked_starts(progress: Progress, element: ElementView, next: Progress)
    requires
        is_milestone_name(element.name),
        progress.marked(element) == Ok::<Progress, ErrorView>(next),
    ensures
        begun(next) == begun(progress) + verses_begun(
            element,
            open_chapter(progress),
            progress.book_code,
        ),
        open_chapter(next) == chapter_after(open_chapter(progress), element),
{
    lemma_element_names();
    let closed = progress.verse_closed();
    let added = verses_begun(element, open_chapter(progress), progress.book_code);
    if element.name == "chapter"@ {
        assert(added =~= seq![]);
        assert(next.verse_closed().verses == closed.verses);
        assert(begun(next) =~= begun(progress) + added);
    } else {
        match xml::optional_value(element, "eid"@) {
            Ok(Some(_)) => {
                assert(added =~= seq![]);
                assert(next == closed);
                assert(begun(next) =~= begun(progress) + added);
            },
            _ => {
                let verse = next.current->0;
                assert(next.verses == closed.verses);
                assert(next.verse_closed().verses == closed.verses.push(completed(verse)));
                assert(added =~= seq![VerseView { text: seq![], ..verse }]);
                assert(begun(next) =~= begun(progress) + added);
            },
        }
    }
}

proof fn lemma_step_starts(progress: Progress, event: EventView, next: Progress)
    requires
        progress.milestone is Some ==> is_milestone_name(progress.milestone->0.name),
        progress.step(event) == Ok::<Progress, ErrorView>(next),
    ensures
        match milestone_met(progress.excluded_depth, progress.milestone, event) {
            None => begun(next) == begun(progress) && open_chapter(next) == open_chapter(progress),
            Some(element) => begun(next) == begun(progress) + verses_begun(
                element,
                open_chapter(progress),
                progress.book_code,
            ) && open_chapter(next) == chapter_after(open_chapter(progress), element),
        },
{
    lemma_element_names();
    match progress.milestone {
        Some(element) => {
            let free = Progress { milestone: None, ..progress };
            assert(begun(free) == begun(progress));
            if progress.excluded_depth == 0 {
                lemma_marked_starts(free, element, next);
            } else {
                assert(next == free);
            }
        },
        None => {
            match event {
                EventView::Empty(element) => {
                    if progress.excluded_depth == 0 && is_milestone_name(element.name) {
                        lemma_marked_starts(progress, element, next);
                    }
                },
                _ => {},
            }
            if milestone_met(progress.excluded_depth, progress.milestone, event) is None {
                assert(begun(next) =~= begun(progress));
            }
        },
    }
}

proof fn lemma_run_starts(progress: Progress, events: Seq<Result<EventView, quick_xml::Error>>)
    requires
        progress.milestone is Some ==> is_milestone_name(progress.milestone->0.name),
        xml::is_whole(events),
        progress.run(events) is Ok,
    ensures
        textless(progress.run(events)->Ok_0) == begun(progress) + verse_starts(
            events,
            progress.excluded_depth,
            progress.milestone,
            open_chapter(progress),
            progress.book_code,
        ),
    decreases events.len(),
{
    let event = events[0]->Ok_0;
    let next = progress.step(event)->Ok_0;
    let starts = verse_starts(
        events,
        progress.excluded_depth,
        progress.milestone,
        open_chapter(progress),
        progress.book_code,
    );
    lemma_step_frame(progress, event, next);
    lemma_step_starts(progress, event, next);
    if event is Eof {
        assert(starts =~= seq![]);
        assert(next == progress.verse_closed());
        assert(begun(progress) + starts =~= begun(progress));
    } else {
        let rest = events.skip(1);
        assert(events.len() > 1);
        assert(rest.last() == events.last());
        assert forall|i: int| 0 <= i < rest.len() - 1 implies (#[trigger] rest[i]) is Ok && !(
        rest[i]->Ok_0 is Eof) by {
            assert(events[i + 1] is Ok && !(events[i + 1]->Ok_0 is Eof));
        }
        lemma_run_starts(next, rest);
        let later = verse_starts(
            rest,
            next.excluded_depth,
            next.milestone,
            open_chapter(next),
            progress.book_code,
        );
        match milestone_met(progress.excluded_depth, progress.milestone, event) {
            None => {},
            Some(element) => {
                let added = verses_begun(element, open_chapter(progress), progress.book_code);
                assert((begun(progress) + added) + later =~= begun(progress) + (added + later));
            },
        }
    }
}

/// The verses of a document are those that its verse milestones start, one for each and in
/// document order: outside notes, figures and sidebars, each in the chapter that is open and
/// with the number, the identifier and the other numbers of its milestone.
pub proof fn law_one_verse_for_each_start(source: Seq<u8>, book_code: Seq<char>)
    requires
        xml::is_whole(xml::document_events(source)),
        document_verses(source, book_code) is Ok,
    ensures
        textless(document_verses(source, book_code)->Ok_0) == document_starts(source, book_code),
{
    lemma_run_starts(at_start(book_code), xml::document_events(source));
    assert(begun(at_start(book_code)) =~= seq![]);
    assert(seq![] + document_starts(source, book_code) =~= document_starts(source, book_code));
}

// The document header.

/// What is known of the header of a document, up to some event of it.
#[derive(Debug)]
pub enum Header {
    /// The book is still to come.
    Open {
        /// Whether the version was declared.
        has_version: bool,
    },
    /// The code of the book was found.
    Found(String),
}

/// The view of a [`Header`].
pub enum HeaderView {
    Open { has_version: bool },
    Found(Seq<char>),
}

impl View for Header {
    type V = HeaderView;

    open spec fn view(&self) -> HeaderView {
        match *self {
            Header::Open { has_version } => HeaderView::Open { has_version },
            Header::Found(code) => HeaderView::Found(code@),
        }
    }
}

/// The header after the tag of an element.
pub open spec fn header_after_tag(has_version: bool, element: ElementView) -> Result<
    HeaderView,
    ErrorView,
> {
    if element.name == "usx"@ {
        match declared_version(element) {
            Ok(_) => Ok(HeaderView::Open { has_version: true }),
            Err(error) => Err(error),
        }
    } else if element.name == "book"@ {
        if !has_version {
            Err(ErrorView::MissingUsxField("usx/@version"@))
        } else {
            match style_check(element, "book"@, "id"@) {
                Err(error) => Err(error),
                Ok(_) => match required_value(element, "code"@, "book/@code"@) {
                    Ok(code) => if code.len() == 3 {
                        Ok(HeaderView::Found(code))
                    } else {
                        Err(ErrorView::InvalidBookCode(code))
                    },
                    Err(error) => Err(error),
                },
            }
        }
    } else {
        Ok(HeaderView::Open { has_version })
    }
}

/// The header after an event, where the book was not found before.
pub open spec fn header_after(has_version: bool, event: EventView) -> Result<
    HeaderView,
    ErrorView,
> {
    match event {
        EventView::Start(element) | EventView::Empty(element) => header_after_tag(
            has_version,
            element,
        ),
        EventView::Eof => Err(ErrorView::MissingUsxField("book/@code"@)),
        _ => Ok(HeaderView::Open { has_version }),
    }
}

/// The book code that the header of a document declares, where `events` are still to come
/// and `has_version` tells whether the version was declared.
pub open spec fn header_code(
    events: Seq<Result<EventView, quick_xml::Error>>,
    has_version: bool,
) -> Result<Seq<char>, ErrorView>
    decreases events.len(),
{
    if events.len() == 0 {
        Err(ErrorView::MissingUsxField("book/@code"@))
    } else {
        match events[0] {
            Err(error) => Err(ErrorView::Xml(error)),
            Ok(event) => match header_after(has_version, event) {
                Err(error) => Err(error),
                Ok(HeaderView::Found(code)) => Ok(code),
                Ok(HeaderView::Open { has_version }) => header_code(events.skip(1), has_version),
            },
        }
    }
}

/// The book code that a document declares.
pub open spec fn document_code(source: Seq<u8>) -> Result<Seq<char>, ErrorView> {
    header_code(xml::document_events(source), false)
}

/// Takes the next event of a document whose book was not found before.
pub fn header_event(has_version: bool, event: &XmlEvent) -> (header: Result<Header, Error>)
    ensures
        crate::error::outcome(header) == header_after(has_version, event@),
{
    match event {
        XmlEvent::Start(element) | XmlEvent::Empty(element) => {
            if text::same(element.name.as_str(), "usx") {
                match parse_usx_version(element) {
                    Ok(_) => Ok(Header::Open { has_version: true }),
                    Err(error) => Err(error),
                }
            } else if text::same(element.name.as_str(), "book") {
                if !has_version {
                    return Err(Error::MissingUsxField("usx/@version"));
                }
                match validate_style(element, "book", "id") {
                    Ok(_) => {},
                    Err(error) => return Err(error),
                }
                match required_attribute(element, "code", "book/@code") {
                    Ok(code) => if text::chars_of(code.as_str()).len() == 3 {
                        Ok(Header::Found(code))
                    } else {
                        Err(Error::InvalidBookCode(code))
                    },
                    Err(error) => Err(error),
                }
            } else {
                Ok(Header::Open { has_version })
            }
        },
        XmlEvent::Eof => Err(Error::MissingUsxField("book/@code")),
        _ => Ok(Header::Open { has_version }),
    }
}

/// Reads and validates the three-character book code from a USX document.
///
/// The document must declare a supported USX version and a `book` element with
/// the required `id` style and `code` attribute. What follows that element is
/// not read.
pub fn book_code(source: &[u8]) -> (code: Result<String, Error>)
    ensures
        crate::error::outcome(code) == document_code(source@),
        xml::is_whole(xml::document_events(source@)),
{
    let mut reader = xml::open_document(source);
    let mut has_version = false;
    loop
        invariant
            header_code(xml::pending_events(&reader), has_version) == document_code(source@),
            xml::is_whole(xml::document_events(source@)),
            xml::pending_events(&reader).len() > 0,
        decreases xml::pending_events(&reader).len(),
    {
        let event = match xml::next_event(&mut reader) {
            Ok(event) => event,
            Err(error) => return Err(Error::Xml(error)),
        };
        match header_event(has_version, &event) {
            Err(error) => return Err(error),
            Ok(Header::Found(code)) => return Ok(code),
            Ok(Header::Open { has_version: declared }) => {
                has_version = declared;
            },
        }
    }
}

/// A header gives a book code only where a version was declared before the book.
pub proof fn law_header_needs_version(
    events: Seq<Result<EventView, quick_xml::Error>>,
    has_version: bool,
)
    requires
        header_code(events, has_version) is Ok,
    ensures
        has_version || exists|i: int|
            0 <= i < events.len() && (match #[trigger] events[i] {
                Ok(EventView::Start(element)) | Ok(EventView::Empty(element)) => {
                    element.name == "usx"@ && declared_version(element) is Ok
                },
                _ => false,
            }),
    decreases events.len(),
{
    if events.len() > 0 && !has_version {
        let rest = events.skip(1);
        match header_after(has_version, events[0]->Ok_0)->Ok_0 {
            HeaderView::Open { has_version: declared } => {
                law_header_needs_version(rest, declared);
                if !declared {
                    let i = choose|i: int|
                        0 <= i < rest.len() && (match #[trigger] rest[i] {
                            Ok(EventView::Start(element)) | Ok(EventView::Empty(element)) => {
                                element.name == "usx"@ && declared_version(element) is Ok
                            },
                            _ => false,
                        });
                    assert(events[i + 1] == rest[i]);
                } else {
                    assert(events[0] == events[0]);
                }
            },
            HeaderView::Found(_) => {},
        }
    }
}

proof fn lemma_header_code_length(
    events: Seq<Result<EventView, quick_xml::Error>>,
    has_version: bool,
)
    ensures
        header_code(events, has_version) matches Ok(code) ==> code.len() == 3,
    decreases events.len(),
{
    if events.len() > 0 {
        match events[0] {
            Ok(event) => match header_after(has_version, event) {
                Ok(HeaderView::Open { has_version: declared }) => {
                    lemma_header_code_length(events.skip(1), declared);
                },
                _ => {},
            },
            Err(_) => {},
        }
    }
}

/// The book code that a document declares has three characters.
pub proof fn law_book_code_has_three_characters(source: Seq<u8>)
    ensures
        document_code(source) matches Ok(code) ==> code.len() == 3,
{
    lemma_header_code_length(xml::document_events(source), false);
}

/// Whether an event is the tag of a book.
pub open spec fn is_book_tag(event: Result<EventView, quick_xml::Error>) -> bool {
    match event {
        Ok(EventView::Start(element)) | Ok(EventView::Empty(element)) => element.name == "book"@,
        _ => false,
    }
}

/// Only the header is read for the book code: documents that agree through the tag of a
/// book have the same code, whatever follows it.
pub proof fn law_only_the_header_is_read(
    a: Seq<Result<EventView, quick_xml::Error>>,
    b: Seq<Result<EventView, quick_xml::Error>>,
    n: int,
    has_version: bool,
)
    requires
        0 <= n < a.len(),
        n < b.len(),
        is_book_tag(a[n]),
        forall|i: int| 0 <= i <= n ==> #[trigger] a[i] == b[i],
    ensures
        header_code(a, has_version) == header_code(b, has_version),
    decreases n,
{
    lemma_element_names();
    assert(a[0] == b[0]);
    if n > 0 {
        match a[0] {
            Ok(event) => match header_after(has_version, event) {
                Ok(HeaderView::Open { has_version: declared }) => {
                    assert forall|i: int| 0 <= i <= n - 1 implies #[trigger] a.skip(1)[i]
                        == b.skip(1)[i] by {
                        assert(a[i + 1] == b[i + 1]);
                    }
                    law_only_the_header_is_read(a.skip(1), b.skip(1), n - 1, declared);
                },
                _ => {},
            },
            Err(_) => {},
        }
    }
}

/// The view of verses that were read is that of the verses or of the error.
pub proof fn law_verses_outcome(verses: Vec<Verse>, error: Error)
    ensures
        verses_outcome(Ok(verses)) == Ok::<Seq<VerseView>, ErrorView>(
            crate::passage::verse_views(verses@),
        ),
        verses_outcome(Err(error)) == Err::<Seq<VerseView>, ErrorView>(error@),
{
}

} // verus!
