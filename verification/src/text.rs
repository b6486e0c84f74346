//! Text operations on sequences of characters.
//!
//! A string is modelled by its view, the sequence of its characters. Each
//! executable function here computes the specification function of the same
//! theme: trimming, splitting, ASCII case, decimal numerals.

use vstd::prelude::*;

verus! {

/// `String::push` appends one character to the end of the string.
pub assume_specification[ String::push ](s: &mut String, c: char)
    ensures
        final(s)@ == old(s)@.push(c),
;

/// The views of a sequence of strings.
pub open spec fn views(strings: Seq<String>) -> Seq<Seq<char>> {
    strings.map_values(|s: String| s@)
}

/// The view of an optional string.
pub open spec fn optional(s: Option<String>) -> Option<Seq<char>> {
    match s {
        Some(s) => Some(s@),
        None => None,
    }
}

/// Collects the characters of `s`.
pub fn chars_of(s: &str) -> (chars: Vec<char>)
    ensures
        chars@ == s@,
{
    let mut chars: Vec<char> = Vec::new();
    for c in it: s.chars()
        invariant
            chars@ == s@.take(it.index() as int),
            it.seq() == s@,
    {
        chars.push(c);
        assert(s@.take(it.index() as int + 1) =~= s@.take(it.index() as int).push(c));
    }
    assert(s@.take(s@.len() as int) =~= s@);
    chars
}

/// The string of the characters `chars[from..to]`.
pub fn string_of(chars: &[char], from: usize, to: usize) -> (s: String)
    requires
        from <= to <= chars@.len(),
    ensures
        s@ == chars@.subrange(from as int, to as int),
{
    let mut s = String::new();
    let mut i: usize = from;
    while i < to
        invariant
            from <= i <= to <= chars@.len(),
            s@ == chars@.subrange(from as int, i as int),
        decreases to - i,
    {
        s.push(chars[i]);
        assert(chars@.subrange(from as int, i + 1) =~= chars@.subrange(from as int, i as int).push(
            chars@[i as int],
        ));
        i += 1;
    }
    s
}

/// Copies an optional string.
pub fn copy_optional(s: &Option<String>) -> (copy: Option<String>)
    ensures
        optional(copy) == optional(*s),
{
    match s {
        Some(s) => Some(s.clone()),
        None => None,
    }
}

/// Whether two strings hold the same characters.
pub fn same(a: &str, b: &str) -> (equal: bool)
    ensures
        equal == (a@ == b@),
{
    a.to_owned() == b.to_owned()
}

/// Whether some string of `list` holds the characters of `s`.
pub fn contains(list: &Vec<String>, s: &str) -> (found: bool)
    ensures
        found == views(list@).contains(s@),
{
    let mut i: usize = 0;
    while i < list.len()
        invariant
            i <= list.len(),
            forall|j: int| 0 <= j < i ==> views(list@)[j] != s@,
        decreases list.len() - i,
    {
        if same(list[i].as_str(), s) {
            assert(views(list@)[i as int] == s@);
            return true;
        }
        i += 1;
    }
    false
}

// Prefixes and suffixes.

/// Whether `s` begins with `prefix`.
pub fn starts_with(s: &str, prefix: &str) -> (b: bool)
    ensures
        b == prefix@.is_prefix_of(s@),
{
    let chars = chars_of(s);
    let start = chars_of(prefix);
    if start.len() > chars.len() {
        return false;
    }
    let mut i: usize = 0;
    while i < start.len()
        invariant
            i <= start@.len() <= chars@.len(),
            chars@ == s@,
            start@ == prefix@,
            forall|j: int| 0 <= j < i ==> chars@[j] == start@[j],
        decreases start@.len() - i,
    {
        if chars[i] != start[i] {
            assert(chars@.subrange(0, start@.len() as int)[i as int] != start@[i as int]);
            return false;
        }
        i += 1;
    }
    assert(start@ =~= chars@.subrange(0, start@.len() as int));
    true
}

/// Whether `s` ends with `suffix`.
pub fn ends_with(s: &str, suffix: &str) -> (b: bool)
    ensures
        b == suffix@.is_suffix_of(s@),
{
    let chars = chars_of(s);
    let end = chars_of(suffix);
    if end.len() > chars.len() {
        return false;
    }
    let offset: usize = chars.len() - end.len();
    let mut i: usize = 0;
    while i < end.len()
        invariant
            i <= end@.len(),
            end.len() <= chars.len(),
            offset == chars.len() - end.len(),
            chars@ == s@,
            end@ == suffix@,
            forall|j: int| 0 <= j < i ==> chars@[offset + j] == end@[j],
        decreases end@.len() - i,
    {
        if chars[offset + i] != end[i] {
            assert(chars@.subrange(offset as int, chars@.len() as int)[i as int] != end@[i as int]);
            return false;
        }
        i += 1;
    }
    assert(end@ =~= chars@.subrange(offset as int, chars@.len() as int));
    true
}

/// What follows `prefix` in `s`, where `s` begins with it.
pub open spec fn after_prefix(s: Seq<char>, prefix: Seq<char>) -> Option<Seq<char>> {
    if prefix.is_prefix_of(s) {
        Some(s.skip(prefix.len() as int))
    } else {
        None
    }
}

/// Removes `prefix` from the start of `s`.
pub fn strip_prefix(s: &str, prefix: &str) -> (rest: Option<String>)
    ensures
        optional(rest) == after_prefix(s@, prefix@),
{
    if starts_with(s, prefix) {
        let chars = chars_of(s);
        let start = chars_of(prefix);
        let rest = string_of(chars.as_slice(), start.len(), chars.len());
        assert(rest@ =~= s@.skip(prefix@.len() as int));
        Some(rest)
    } else {
        None
    }
}

// ASCII case.

/// The lower-case letter of an ASCII upper-case letter; any other character itself.
pub open spec fn ascii_lower(c: char) -> char {
    if 'A' <= c <= 'Z' {
        (c as u32 + 32) as char
    } else {
        c
    }
}

/// The upper-case letter of an ASCII lower-case letter; any other character itself.
pub open spec fn ascii_upper(c: char) -> char {
    if 'a' <= c <= 'z' {
        (c as u32 - 32) as char
    } else {
        c
    }
}

/// Equality of texts without regard to ASCII case.
pub open spec fn equal_ignoring_case(a: Seq<char>, b: Seq<char>) -> bool {
    a.map_values(|c: char| ascii_lower(c)) == b.map_values(|c: char| ascii_lower(c))
}

fn lower(c: char) -> (l: char)
    ensures
        l == ascii_lower(c),
{
    if 'A' <= c && c <= 'Z' {
        (c as u8 + 32) as char
    } else {
        c
    }
}

fn upper(c: char) -> (u: char)
    ensures
        u == ascii_upper(c),
{
    if 'a' <= c && c <= 'z' {
        (c as u8 - 32) as char
    } else {
        c
    }
}

/// Compares two texts without regard to ASCII case.
pub fn eq_ignore_ascii_case(a: &str, b: &str) -> (equal: bool)
    ensures
        equal == equal_ignoring_case(a@, b@),
{
    let left = chars_of(a);
    let right = chars_of(b);
    let ghost lowered = |s: Seq<char>| s.map_values(|c: char| ascii_lower(c));
    if left.len() != right.len() {
        assert(lowered(a@).len() != lowered(b@).len());
        return false;
    }
    let mut i: usize = 0;
    while i < left.len()
        invariant
            i <= left@.len() == right@.len(),
            left@ == a@,
            right@ == b@,
            forall|j: int| 0 <= j < i ==> ascii_lower(left@[j]) == ascii_lower(right@[j]),
        decreases left@.len() - i,
    {
        if lower(left[i]) != lower(right[i]) {
            assert(a@.map_values(|c: char| ascii_lower(c))[i as int] != b@.map_values(
                |c: char| ascii_lower(c),
            )[i as int]);
            return false;
        }
        i += 1;
    }
    assert(a@.map_values(|c: char| ascii_lower(c)) =~= b@.map_values(|c: char| ascii_lower(c)));
    true
}

/// Maps every ASCII lower-case letter of `s` to its upper-case letter.
pub fn to_ascii_uppercase(s: &str) -> (r: String)
    ensures
        r@ == s@.map_values(|c: char| ascii_upper(c)),
{
    let chars = chars_of(s);
    let mut r = String::new();
    let mut i: usize = 0;
    while i < chars.len()
        invariant
            i <= chars@.len(),
            chars@ == s@,
            r@ == s@.take(i as int).map_values(|c: char| ascii_upper(c)),
        decreases chars@.len() - i,
    {
        r.push(upper(chars[i]));
        i += 1;
        assert(r@ =~= s@.take(i as int).map_values(|c: char| ascii_upper(c)));
    }
    assert(s@.take(i as int) =~= s@);
    r
}

// White space.

/// The characters with the Unicode property `White_Space`.
pub open spec fn is_white_space(c: char) -> bool {
    let n = c as u32;
    ||| 0x09 <= n <= 0x0d
    ||| n == 0x20
    ||| n == 0x85
    ||| n == 0xa0
    ||| n == 0x1680
    ||| 0x2000 <= n <= 0x200a
    ||| n == 0x2028
    ||| n == 0x2029
    ||| n == 0x202f
    ||| n == 0x205f
    ||| n == 0x3000
}

/// The ASCII white space: tab, line feed, form feed, carriage return and space.
pub open spec fn is_ascii_white_space(c: char) -> bool {
    c == '\t' || c == '\n' || c == '\u{c}' || c == '\r' || c == ' '
}

/// Whether `c` is a Unicode white space character.
pub fn white_space(c: char) -> (b: bool)
    ensures
        b == is_white_space(c),
{
    let n: u32 = c as u32;
    (0x09 <= n && n <= 0x0d) || n == 0x20 || n == 0x85 || n == 0xa0 || n == 0x1680 || (0x2000 <= n
        && n <= 0x200a) || n == 0x2028 || n == 0x2029 || n == 0x202f || n == 0x205f || n == 0x3000
}

/// Whether `c` is an ASCII white space character.
pub fn ascii_white_space(c: char) -> (b: bool)
    ensures
        b == is_ascii_white_space(c),
{
    c == '\t' || c == '\n' || c == '\u{c}' || c == '\r' || c == ' '
}

/// `s` without the white space at its start.
pub open spec fn trimmed_start(s: Seq<char>) -> Seq<char>
    decreases s.len(),
{
    if s.len() > 0 && is_white_space(s[0]) {
        trimmed_start(s.skip(1))
    } else {
        s
    }
}

/// `s` without the white space at its end.
pub open spec fn trimmed_end(s: Seq<char>) -> Seq<char>
    decreases s.len(),
{
    if s.len() > 0 && is_white_space(s.last()) {
        trimmed_end(s.drop_last())
    } else {
        s
    }
}

/// `s` without the white space at its start and end.
pub open spec fn trimmed(s: Seq<char>) -> Seq<char> {
    trimmed_end(trimmed_start(s))
}

/// Removes white space from both ends of `s`.
pub fn trim(s: &str) -> (t: String)
    ensures
        t@ == trimmed(s@),
{
    let chars = chars_of(s);
    let mut i: usize = 0;
    assert(s@.skip(0) =~= s@);
    while i < chars.len() && white_space(chars[i])
        invariant
            i <= chars@.len(),
            chars@ == s@,
            trimmed_start(s@) == trimmed_start(s@.skip(i as int)),
        decreases chars@.len() - i,
    {
        assert(s@.skip(i as int).skip(1) =~= s@.skip(i + 1));
        i += 1;
    }
    let ghost rest = s@.skip(i as int);
    assert(trimmed_start(s@) == rest);
    let mut j: usize = chars.len();
    assert(rest =~= s@.subrange(i as int, j as int));
    while j > i && white_space(chars[j - 1])
        invariant
            i <= j <= chars@.len(),
            chars@ == s@,
            trimmed_end(rest) == trimmed_end(s@.subrange(i as int, j as int)),
        decreases j,
    {
        assert(s@.subrange(i as int, j as int).drop_last() =~= s@.subrange(i as int, j - 1));
        j -= 1;
    }
    string_of(chars.as_slice(), i, j)
}

// Splitting.

/// The number of characters before the first `a` or `b` of `s`.
pub open spec fn piece_len(s: Seq<char>, a: char, b: char) -> nat
    decreases s.len(),
{
    if s.len() == 0 || s[0] == a || s[0] == b {
        0
    } else {
        1 + piece_len(s.skip(1), a, b)
    }
}

/// The pieces of `s` between its separators, which are the characters `a` and `b`.
pub open spec fn pieces(s: Seq<char>, a: char, b: char) -> Seq<Seq<char>>
    decreases s.len(),
{
    let n = piece_len(s, a, b);
    if n >= s.len() {
        seq![s]
    } else {
        seq![s.take(n as int)] + pieces(s.skip(n as int + 1), a, b)
    }
}

/// A piece ends at the first separator, or at the end of the text.
pub proof fn lemma_piece_len(s: Seq<char>, a: char, b: char, n: int)
    requires
        0 <= n <= s.len(),
        forall|i: int| 0 <= i < n ==> s[i] != a && s[i] != b,
        n < s.len() ==> s[n] == a || s[n] == b,
    ensures
        piece_len(s, a, b) == n,
    decreases n,
{
    if n > 0 {
        lemma_piece_len(s.skip(1), a, b, n - 1);
    }
}

/// Splits `s` at each occurrence of `a` or `b`.
pub fn split(s: &str, a: char, b: char) -> (parts: Vec<String>)
    ensures
        views(parts@) == pieces(s@, a, b),
{
    let chars = chars_of(s);
    let mut parts: Vec<String> = Vec::new();
    let mut start: usize = 0;
    let mut i: usize = 0;
    assert(s@.skip(0) =~= s@);
    assert(views(parts@) + pieces(s@, a, b) =~= pieces(s@, a, b));
    while i < chars.len()
        invariant
            start <= i <= chars@.len(),
            chars@ == s@,
            forall|k: int| start <= k < i ==> s@[k] != a && s@[k] != b,
            views(parts@) + pieces(s@.skip(start as int), a, b) == pieces(s@, a, b),
        decreases chars@.len() - i,
    {
        if chars[i] == a || chars[i] == b {
            let ghost before = parts@;
            let ghost rest = s@.skip(start as int);
            proof {
                lemma_piece_len(rest, a, b, i - start);
                assert(rest.take(i - start) =~= s@.subrange(start as int, i as int));
                assert(rest.skip(i - start + 1) =~= s@.skip(i + 1));
            }
            parts.push(string_of(chars.as_slice(), start, i));
            assert(views(parts@) =~= views(before).push(s@.subrange(start as int, i as int)));
            assert(views(parts@) + pieces(s@.skip(i + 1), a, b) =~= views(before) + (seq![
                s@.subrange(start as int, i as int),
            ] + pieces(s@.skip(i + 1), a, b)));
            start = i + 1;
        }
        i += 1;
    }
    let ghost before = parts@;
    let ghost rest = s@.skip(start as int);
    proof {
        lemma_piece_len(rest, a, b, rest.len() as int);
        assert(rest =~= s@.subrange(start as int, i as int));
    }
    parts.push(string_of(chars.as_slice(), start, i));
    assert(views(parts@) =~= views(before) + seq![rest]);
    parts
}

// Words.

/// The number of characters before the first ASCII white space of `s`.
pub open spec fn word_len(s: Seq<char>) -> nat
    decreases s.len(),
{
    if s.len() == 0 || is_ascii_white_space(s[0]) {
        0
    } else {
        1 + word_len(s.skip(1))
    }
}

/// The words of `s`: its longest runs of characters that are not ASCII white space.
pub open spec fn words(s: Seq<char>) -> Seq<Seq<char>>
    decreases s.len(),
    via words_decreases
{
    if s.len() == 0 {
        seq![]
    } else if is_ascii_white_space(s[0]) {
        words(s.skip(1))
    } else {
        let n = word_len(s);
        seq![s.take(n as int)] + words(s.skip(n as int))
    }
}

#[via_fn]
proof fn words_decreases(s: Seq<char>) {
    lemma_word_len_bound(s);
}

proof fn lemma_word_len_bound(s: Seq<char>)
    ensures
        word_len(s) <= s.len(),
        s.len() > 0 && !is_ascii_white_space(s[0]) ==> word_len(s) > 0,
    decreases s.len(),
{
    if s.len() > 0 && !is_ascii_white_space(s[0]) {
        lemma_word_len_bound(s.skip(1));
    }
}

/// A word ends at the first white space, or at the end of the text.
pub proof fn lemma_word_len(s: Seq<char>, n: int)
    requires
        0 <= n <= s.len(),
        forall|i: int| 0 <= i < n ==> !is_ascii_white_space(s[i]),
        n < s.len() ==> is_ascii_white_space(s[n]),
    ensures
        word_len(s) == n,
    decreases n,
{
    if n > 0 {
        lemma_word_len(s.skip(1), n - 1);
    }
}

/// The parts one after the other, with `separator` between each two.
pub open spec fn joined(parts: Seq<Seq<char>>, separator: Seq<char>) -> Seq<char>
    decreases parts.len(),
{
    if parts.len() == 0 {
        seq![]
    } else if parts.len() == 1 {
        parts[0]
    } else {
        joined(parts.drop_last(), separator) + separator + parts.last()
    }
}

/// The words of `s`, separated by single spaces.
pub open spec fn collapsed(s: Seq<char>) -> Seq<char> {
    joined(words(s), seq![' '])
}

/// Reduces each run of ASCII white space between words to one space, and removes it
/// from both ends.
pub fn collapse_white_space(s: &str) -> (r: String)
    ensures
        r@ == collapsed(s@),
{
    let chars = chars_of(s);
    let mut r = String::new();
    let mut i: usize = 0;
    let ghost mut done: Seq<Seq<char>> = seq![];
    assert(s@.skip(0) =~= s@);
    assert(done + words(s@) =~= words(s@));
    while i < chars.len()
        invariant
            i <= chars@.len(),
            chars@ == s@,
            r@ == joined(done, seq![' ']),
            done + words(s@.skip(i as int)) == words(s@),
            forall|k: int| 0 <= k < done.len() ==> (#[trigger] done[k]).len() > 0,
            r@.len() == 0 <==> done.len() == 0,
        decreases chars@.len() - i,
    {
        let ghost rest = s@.skip(i as int);
        if ascii_white_space(chars[i]) {
            assert(rest.skip(1) =~= s@.skip(i + 1));
            i += 1;
        } else {
            let start: usize = i;
            while i < chars.len() && !ascii_white_space(chars[i])
                invariant
                    start <= i <= chars@.len(),
                    start < chars@.len(),
                    chars@ == s@,
                    !is_ascii_white_space(s@[start as int]),
                    forall|k: int| start <= k < i ==> !is_ascii_white_space(s@[k]),
                ensures
                    start < i <= chars@.len(),
                    forall|k: int| start <= k < i ==> !is_ascii_white_space(s@[k]),
                    i < chars@.len() ==> is_ascii_white_space(s@[i as int]),
                decreases chars@.len() - i,
            {
                i += 1;
            }
            let ghost before = done;
            let word = string_of(chars.as_slice(), start, i);
            proof {
                lemma_word_len(rest, i - start);
                assert(rest.take(i - start) =~= word@);
                assert(rest.skip(i - start) =~= s@.skip(i as int));
                done = before.push(word@);
                assert(done.drop_last() =~= before);
                assert(done + words(s@.skip(i as int)) =~= before + (seq![word@] + words(
                    s@.skip(i as int),
                )));
            }
            if !r.as_str().is_empty() {
                r.push(' ');
            }
            r.append(word.as_str());
            assert(r@ =~= joined(done, seq![' ']));
        }
    }
    assert(words(s@.skip(i as int)) =~= seq![]);
    assert(done =~= words(s@));
    r
}

/// Joins the strings of `parts` with single spaces between them.
pub fn join_with_spaces(parts: &Vec<String>) -> (r: String)
    ensures
        r@ == joined(views(parts@), seq![' ']),
{
    let mut r = String::new();
    let mut i: usize = 0;
    assert(views(parts@).take(0) =~= seq![]);
    while i < parts.len()
        invariant
            i <= parts@.len(),
            r@ == joined(views(parts@).take(i as int), seq![' ']),
        decreases parts@.len() - i,
    {
        assert(views(parts@).take(i + 1).drop_last() =~= views(parts@).take(i as int));
        if i > 0 {
            r.push(' ');
        }
        r.append(parts[i].as_str());
        i += 1;
        assert(r@ =~= joined(views(parts@).take(i as int), seq![' ']));
    }
    assert(views(parts@).take(i as int) =~= views(parts@));
    r
}

// Decimal numerals.

/// The ASCII digits.
pub open spec fn is_digit(c: char) -> bool {
    '0' <= c <= '9'
}

/// Whether every character of `s` is an ASCII digit.
pub open spec fn all_digits(s: Seq<char>) -> bool {
    forall|i: int| 0 <= i < s.len() ==> is_digit(#[trigger] s[i])
}

/// The number that a sequence of digits stands for.
pub open spec fn numeral_value(s: Seq<char>) -> nat
    decreases s.len(),
{
    if s.len() == 0 {
        0
    } else {
        numeral_value(s.drop_last()) * 10 + (s.last() as u32 - '0' as u32) as nat
    }
}

/// The digits of `s` after an optional plus sign.
pub open spec fn unsigned_digits(s: Seq<char>) -> Seq<char> {
    if s.len() > 0 && s[0] == '+' {
        s.skip(1)
    } else {
        s
    }
}

/// The value of a decimal numeral, which may have a plus sign before its digits, where
/// it is one and fits in 32 bits.
pub open spec fn parsed_u32(s: Seq<char>) -> Option<u32> {
    let digits = unsigned_digits(s);
    if digits.len() > 0 && all_digits(digits) && numeral_value(digits) <= u32::MAX {
        Some(numeral_value(digits) as u32)
    } else {
        None
    }
}

/// Whether `c` is an ASCII digit.
pub fn digit(c: char) -> (b: bool)
    ensures
        b == is_digit(c),
{
    '0' <= c && c <= '9'
}

proof fn lemma_numeral_value_monotonic(s: Seq<char>, n: int)
    requires
        0 <= n <= s.len(),
        all_digits(s),
    ensures
        numeral_value(s.take(n)) <= numeral_value(s),
    decreases s.len() - n,
{
    if n == s.len() {
        assert(s.take(n) =~= s);
    } else {
        lemma_numeral_value_monotonic(s, n + 1);
        assert(s.take(n + 1).drop_last() =~= s.take(n));
    }
}

/// Reads the digits `chars[from..to]` as a number that fits in 32 bits.
fn digits_value(chars: &Vec<char>, from: usize, to: usize) -> (value: Option<u32>)
    requires
        from <= to <= chars@.len(),
        all_digits(chars@.subrange(from as int, to as int)),
    ensures
        value == (if numeral_value(chars@.subrange(from as int, to as int)) <= u32::MAX {
            Some(numeral_value(chars@.subrange(from as int, to as int)) as u32)
        } else {
            None::<u32>
        }),
{
    let ghost digits = chars@.subrange(from as int, to as int);
    let mut value: u64 = 0;
    let mut i: usize = from;
    assert(digits.take(0) =~= seq![]);
    while i < to
        invariant
            from <= i <= to <= chars@.len(),
            digits == chars@.subrange(from as int, to as int),
            all_digits(digits),
            value == numeral_value(digits.take(i - from)),
            value <= u32::MAX,
        decreases to - i,
    {
        let c = chars[i];
        assert(digits[i - from] == c);
        assert(digits.take(i - from + 1).drop_last() =~= digits.take(i - from));
        value = value * 10 + (c as u32 - '0' as u32) as u64;
        i += 1;
        if value > 0xffff_ffff {
            proof {
                lemma_numeral_value_monotonic(digits, i - from);
            }
            return None;
        }
    }
    assert(digits.take(i - from) =~= digits);
    Some(value as u32)
}

/// Parses `s` as a decimal numeral.
pub fn parse_u32(s: &str) -> (value: Option<u32>)
    ensures
        value == parsed_u32(s@),
{
    let chars = chars_of(s);
    let start: usize = if chars.len() > 0 && chars[0] == '+' {
        1
    } else {
        0
    };
    let ghost digits = unsigned_digits(s@);
    assert(digits =~= chars@.subrange(start as int, chars@.len() as int));
    if start == chars.len() {
        return None;
    }
    let mut i: usize = start;
    while i < chars.len()
        invariant
            start <= i <= chars@.len(),
            chars@ == s@,
            digits == unsigned_digits(s@),
            digits == chars@.subrange(start as int, chars@.len() as int),
            forall|k: int| start <= k < i ==> is_digit(#[trigger] chars@[k]),
        decreases chars@.len() - i,
    {
        if !digit(chars[i]) {
            assert(!is_digit(digits[i - start]));
            return None;
        }
        i += 1;
    }
    assert(all_digits(digits));
    digits_value(&chars, start, chars.len())
}

/// The ASCII digit that stands for `n`.
pub open spec fn digit_char(n: nat) -> char {
    ('0' as u32 + n) as char
}

/// The decimal numeral of `n`, without leading zeros.
pub open spec fn decimal(n: nat) -> Seq<char>
    decreases n,
{
    if n < 10 {
        seq![digit_char(n)]
    } else {
        decimal(n / 10).push(digit_char(n % 10))
    }
}

/// Writes `n` as a decimal numeral.
pub fn decimal_string(n: u32) -> (s: String)
    ensures
        s@ == decimal(n as nat),
    decreases n,
{
    let mut s = if n < 10 {
        String::new()
    } else {
        decimal_string(n / 10)
    };
    let digit: u8 = 48 + (n % 10) as u8;
    s.push(digit as char);
    assert(s@ =~= decimal(n as nat));
    s
}

/// A decimal numeral consists of digits and has its number as its value.
pub proof fn lemma_decimal(n: nat)
    ensures
        decimal(n).len() > 0,
        all_digits(decimal(n)),
        numeral_value(decimal(n)) == n,
    decreases n,
{
    if n >= 10 {
        lemma_decimal(n / 10);
        assert(decimal(n).drop_last() =~= decimal(n / 10));
        assert(decimal(n).last() == digit_char(n % 10));
    } else {
        assert(numeral_value(decimal(n).drop_last()) == 0);
        assert(decimal(n).last() == digit_char(n));
    }
}

/// Writing a number and reading it back gives the number.
pub proof fn law_decimal_round_trip(n: u32)
    ensures
        parsed_u32(decimal(n as nat)) == Some(n),
{
    lemma_decimal(n as nat);
    assert(is_digit(decimal(n as nat)[0]));
}

/// Each word holds a character, and none of its characters is white space.
pub open spec fn is_word(word: Seq<char>) -> bool {
    word.len() > 0 && forall|i: int|
        0 <= i < word.len() ==> !is_ascii_white_space(#[trigger] word[i])
}

proof fn lemma_word_len_chars(s: Seq<char>)
    ensures
        word_len(s) <= s.len(),
        forall|i: int| 0 <= i < word_len(s) ==> !is_ascii_white_space(#[trigger] s[i]),
        word_len(s) < s.len() ==> is_ascii_white_space(s[word_len(s) as int]),
    decreases s.len(),
{
    if s.len() > 0 && !is_ascii_white_space(s[0]) {
        let rest = s.skip(1);
        lemma_word_len_chars(rest);
        assert forall|i: int| 0 <= i < word_len(s) implies !is_ascii_white_space(
            #[trigger] s[i],
        ) by {
            if i > 0 {
                assert(!is_ascii_white_space(rest[i - 1]));
            }
        }
    }
}

proof fn lemma_words_are_words(s: Seq<char>)
    ensures
        forall|i: int| 0 <= i < words(s).len() ==> is_word(#[trigger] words(s)[i]),
    decreases s.len(),
{
    if s.len() == 0 {
        assert(words(s).len() == 0);
    } else {
        if is_ascii_white_space(s[0]) {
            lemma_words_are_words(s.skip(1));
            assert(words(s) == words(s.skip(1)));
        } else {
            let n = word_len(s) as int;
            lemma_word_len_chars(s);
            lemma_word_len_bound(s);
            lemma_words_are_words(s.skip(n));
            let rest = words(s.skip(n));
            assert forall|i: int| 0 <= i < words(s).len() implies is_word(
                #[trigger] words(s)[i],
            ) by {
                if i > 0 {
                    assert(words(s)[i] == rest[i - 1]);
                } else {
                    assert(words(s)[0] == s.take(n));
                }
            }
        }
    }
}

proof fn lemma_words_of_two(a: Seq<char>, b: Seq<char>)
    ensures
        words(a + seq![' '] + b) == words(a) + words(b),
    decreases a.len(),
{
    let whole = a + seq![' '] + b;
    if a.len() == 0 {
        assert(whole.skip(1) =~= b);
        assert(words(a) + words(b) =~= words(b));
    } else if is_ascii_white_space(a[0]) {
        assert(whole.skip(1) =~= a.skip(1) + seq![' '] + b);
        lemma_words_of_two(a.skip(1), b);
    } else {
        let n = word_len(a) as int;
        lemma_word_len_chars(a);
        lemma_word_len_bound(a);
        assert(forall|i: int| 0 <= i < n ==> whole[i] == a[i]);
        assert(n < a.len() ==> whole[n] == a[n]);
        lemma_word_len(whole, n);
        assert(whole.take(n) =~= a.take(n));
        assert(whole.skip(n) =~= a.skip(n) + seq![' '] + b);
        lemma_words_of_two(a.skip(n), b);
        assert(seq![a.take(n)] + (words(a.skip(n)) + words(b)) =~= (seq![a.take(n)] + words(
            a.skip(n),
        )) + words(b));
    }
}

/// Text without words at the end of a text does not change its words.
pub proof fn lemma_words_of_blank_end(a: Seq<char>, blank: Seq<char>)
    requires
        words(blank).len() == 0,
    ensures
        words(a + blank) == words(a),
        collapsed(a + blank) == collapsed(a),
    decreases a.len(),
{
    let whole = a + blank;
    if a.len() == 0 {
        assert(whole =~= blank);
        assert(words(blank) =~= words(a));
    } else if is_ascii_white_space(a[0]) {
        assert(whole.skip(1) =~= a.skip(1) + blank);
        lemma_words_of_blank_end(a.skip(1), blank);
    } else {
        let n = word_len(a) as int;
        lemma_word_len_chars(a);
        lemma_word_len_bound(a);
        assert(blank.len() > 0 ==> is_ascii_white_space(blank[0]));
        assert(forall|i: int| 0 <= i < n ==> whole[i] == a[i]);
        assert(n < whole.len() ==> is_ascii_white_space(whole[n]));
        lemma_word_len(whole, n);
        assert(whole.take(n) =~= a.take(n));
        assert(whole.skip(n) =~= a.skip(n) + blank);
        lemma_words_of_blank_end(a.skip(n), blank);
    }
}

proof fn lemma_words_of_joined(parts: Seq<Seq<char>>)
    requires
        forall|i: int| 0 <= i < parts.len() ==> is_word(#[trigger] parts[i]),
    ensures
        words(joined(parts, seq![' '])) == parts,
    decreases parts.len(),
{
    if parts.len() == 0 {
        assert(parts =~= seq![]);
    } else {
        let word = parts.last();
        assert(is_word(parts[parts.len() - 1]));
        lemma_word_len(word, word.len() as int);
        assert(word.take(word.len() as int) =~= word);
        assert(words(word.skip(word.len() as int)) =~= seq![]);
        assert(words(word) =~= seq![word]);
        if parts.len() == 1 {
            assert(parts =~= seq![word]);
        } else {
            let before = parts.drop_last();
            assert forall|i: int| 0 <= i < before.len() implies is_word(#[trigger] before[i]) by {
                assert(is_word(parts[i]));
            }
            lemma_words_of_joined(before);
            lemma_words_of_two(joined(before, seq![' ']), word);
            assert(before + seq![word] =~= parts);
        }
    }
}

/// Collapsing the white space of a text keeps its words, and collapsing it again changes
/// nothing.
pub proof fn law_collapsing_keeps_words(s: Seq<char>)
    ensures
        words(collapsed(s)) == words(s),
        collapsed(collapsed(s)) == collapsed(s),
{
    lemma_words_are_words(s);
    lemma_words_of_joined(words(s));
}

proof fn lemma_trimmed_ends(s: Seq<char>)
    ensures
        trimmed_start(s).len() > 0 ==> !is_white_space(trimmed_start(s)[0]),
        trimmed_end(s).len() > 0 ==> !is_white_space(trimmed_end(s).last()),
        trimmed_end(s).len() > 0 ==> trimmed_end(s)[0] == s[0],
    decreases s.len(),
{
    if s.len() > 0 {
        lemma_trimmed_ends(s.skip(1));
        lemma_trimmed_ends(s.drop_last());
    }
}

/// A trimmed text has no white space at its ends, so trimming it again changes nothing.
pub proof fn law_trimming_twice(s: Seq<char>)
    ensures
        trimmed(trimmed(s)) == trimmed(s),
        trimmed(s).len() > 0 ==> !is_white_space(trimmed(s)[0]) && !is_white_space(
            trimmed(s).last(),
        ),
{
    lemma_trimmed_ends(s);
    lemma_trimmed_ends(trimmed_start(s));
}

/// Texts are equal without regard to ASCII case exactly where they are equally long and, at
/// each place, hold the same character or the two cases of one ASCII letter.
pub proof fn law_equal_ignoring_case(a: Seq<char>, b: Seq<char>)
    ensures
        equal_ignoring_case(a, b) <==> a.len() == b.len() && forall|i: int|
            0 <= i < a.len() ==> {
                ||| #[trigger] a[i] == b[i]
                ||| 'A' <= a[i] <= 'Z' && b[i] as u32 == a[i] as u32 + 32
                ||| 'A' <= b[i] <= 'Z' && a[i] as u32 == b[i] as u32 + 32
            },
{
    let left = a.map_values(|c: char| ascii_lower(c));
    let right = b.map_values(|c: char| ascii_lower(c));
    if equal_ignoring_case(a, b) {
        assert(left.len() == a.len() && right.len() == b.len());
        assert forall|i: int| 0 <= i < a.len() implies {
            ||| #[trigger] a[i] == b[i]
            ||| 'A' <= a[i] <= 'Z' && b[i] as u32 == a[i] as u32 + 32
            ||| 'A' <= b[i] <= 'Z' && a[i] as u32 == b[i] as u32 + 32
        } by {
            assert(left[i] == ascii_lower(a[i]) && right[i] == ascii_lower(b[i]));
        }
    }
    if a.len() == b.len() && forall|i: int|
        0 <= i < a.len() ==> {
            ||| #[trigger] a[i] == b[i]
            ||| 'A' <= a[i] <= 'Z' && b[i] as u32 == a[i] as u32 + 32
            ||| 'A' <= b[i] <= 'Z' && a[i] as u32 == b[i] as u32 + 32
        } {
        assert forall|i: int| 0 <= i < a.len() implies left[i] == right[i] by {
            assert(a[i] == b[i] || 'A' <= a[i] <= 'Z' || 'A' <= b[i] <= 'Z');
        }
        assert(left =~= right);
    }
}

/// Only the ASCII letters from `a` to `z` have an upper-case letter here, and it lies 32
/// places before them.
pub proof fn law_upper_case(c: char)
    ensures
        'a' <= c <= 'z' ==> ascii_upper(c) as u32 == c as u32 - 32,
        c < 'a' || 'z' < c ==> ascii_upper(c) == c,
{
}

/// The white space characters, the ASCII ones among them, and the digits, one by one.
pub proof fn law_character_classes(c: char)
    ensures
        is_white_space(c) <==> c == '\t' || c == '\n' || c == '\u{b}' || c == '\u{c}' || c == '\r'
            || c == ' ' || c == '\u{85}' || c == '\u{a0}' || c == '\u{1680}' || c == '\u{2000}' || c
            == '\u{2001}' || c == '\u{2002}' || c == '\u{2003}' || c == '\u{2004}' || c
            == '\u{2005}' || c == '\u{2006}' || c == '\u{2007}' || c == '\u{2008}' || c
            == '\u{2009}' || c == '\u{200a}' || c == '\u{2028}' || c == '\u{2029}' || c
            == '\u{202f}' || c == '\u{205f}' || c == '\u{3000}',
        is_ascii_white_space(c) <==> c == '\t' || c == '\n' || c == '\u{c}' || c == '\r' || c == ' ',
        is_digit(c) <==> c == '0' || c == '1' || c == '2' || c == '3' || c == '4' || c == '5' || c
            == '6' || c == '7' || c == '8' || c == '9',
{
}

proof fn lemma_trimmed_start_place(s: Seq<char>) -> (i: int)
    ensures
        0 <= i <= s.len(),
        trimmed_start(s) == s.skip(i),
        forall|k: int| 0 <= k < i ==> is_white_space(#[trigger] s[k]),
    decreases s.len(),
{
    if s.len() > 0 && is_white_space(s[0]) {
        let i = lemma_trimmed_start_place(s.skip(1));
        assert(s.skip(1).skip(i) =~= s.skip(i + 1));
        assert forall|k: int| 0 <= k < i + 1 implies is_white_space(#[trigger] s[k]) by {
            if k > 0 {
                assert(is_white_space(s.skip(1)[k - 1]));
            }
        }
        i + 1
    } else {
        assert(s.skip(0) =~= s);
        0
    }
}

proof fn lemma_trimmed_end_place(s: Seq<char>) -> (j: int)
    ensures
        0 <= j <= s.len(),
        trimmed_end(s) == s.take(j),
        forall|k: int| j <= k < s.len() ==> is_white_space(#[trigger] s[k]),
    decreases s.len(),
{
    if s.len() > 0 && is_white_space(s.last()) {
        let before = s.drop_last();
        let j = lemma_trimmed_end_place(before);
        assert(before.take(j) =~= s.take(j));
        assert forall|k: int| j <= k < s.len() implies is_white_space(#[trigger] s[k]) by {
            if k < before.len() {
                assert(is_white_space(before[k]));
            }
        }
        j
    } else {
        assert(s.take(s.len() as int) =~= s);
        s.len() as int
    }
}

/// Trimming cuts a text out of the middle: white space lies before it and behind it, and
/// neither its first nor its last character is white space.
pub proof fn law_trimming_cuts_white_space(s: Seq<char>)
    ensures
        exists|i: int, j: int|
            #![trigger s.subrange(i, j)]
            0 <= i <= j <= s.len() && trimmed(s) == s.subrange(i, j) && (i < j ==> !is_white_space(
                s[i],
            ) && !is_white_space(s[j - 1])) && (forall|k: int|
                (0 <= k < i || j <= k < s.len()) ==> is_white_space(#[trigger] s[k])),
        trimmed(s).len() == 0 <==> forall|k: int|
            0 <= k < s.len() ==> is_white_space(#[trigger] s[k]),
{
    let i = lemma_trimmed_start_place(s);
    let rest = trimmed_start(s);
    let n = lemma_trimmed_end_place(rest);
    let j = i + n;
    assert(trimmed(s) =~= s.subrange(i, j));
    lemma_trimmed_ends(s);
    lemma_trimmed_ends(rest);
    assert forall|k: int| 0 <= k < i || j <= k < s.len() implies is_white_space(
        #[trigger] s[k],
    ) by {
        if j <= k {
            assert(is_white_space(rest[k - i]));
        }
    }
    if i < j {
        assert(trimmed(s)[0] == s[i] && trimmed(s).last() == s[j - 1]);
    }
}

proof fn lemma_words_divided(a: Seq<char>, c: char, b: Seq<char>)
    requires
        is_ascii_white_space(c),
    ensures
        words(a + seq![c] + b) == words(a) + words(b),
    decreases a.len(),
{
    let whole = a + seq![c] + b;
    if a.len() == 0 {
        assert(whole.skip(1) =~= b);
        assert(words(a) + words(b) =~= words(b));
    } else if is_ascii_white_space(a[0]) {
        assert(whole.skip(1) =~= a.skip(1) + seq![c] + b);
        lemma_words_divided(a.skip(1), c, b);
    } else {
        let n = word_len(a) as int;
        lemma_word_len_chars(a);
        lemma_word_len_bound(a);
        assert(forall|i: int| 0 <= i < n ==> whole[i] == a[i]);
        assert(n < a.len() ==> whole[n] == a[n]);
        lemma_word_len(whole, n);
        assert(whole.take(n) =~= a.take(n));
        assert(whole.skip(n) =~= a.skip(n) + seq![c] + b);
        lemma_words_divided(a.skip(n), c, b);
        assert(seq![a.take(n)] + (words(a.skip(n)) + words(b)) =~= (seq![a.take(n)] + words(
            a.skip(n),
        )) + words(b));
    }
}

/// A text without white space is one word, or none where it is empty, and white space
/// divides the words before it from those behind it.
pub proof fn law_words(a: Seq<char>, c: char, b: Seq<char>)
    ensures
        (forall|i: int| 0 <= i < a.len() ==> !is_ascii_white_space(#[trigger] a[i])) ==> words(a)
            == (if a.len() == 0 {
            seq![]
        } else {
            seq![a]
        }),
        is_ascii_white_space(c) ==> words(a + seq![c] + b) == words(a) + words(b),
{
    if forall|i: int| 0 <= i < a.len() ==> !is_ascii_white_space(#[trigger] a[i]) {
        if a.len() > 0 {
            assert(!is_ascii_white_space(a[0]));
            lemma_word_len(a, a.len() as int);
            assert(a.take(a.len() as int) =~= a);
            assert(words(a.skip(a.len() as int)) =~= seq![]);
            assert(words(a) =~= seq![a]);
        } else {
            assert(words(a) =~= seq![]);
        }
    }
    if is_ascii_white_space(c) {
        lemma_words_divided(a, c, b);
    }
}

/// Joined parts: none give nothing, one gives itself, and one more comes behind a separator.
pub proof fn law_joined(parts: Seq<Seq<char>>, part: Seq<char>, separator: Seq<char>)
    ensures
        joined(seq![], separator) == Seq::<char>::empty(),
        joined(seq![part], separator) == part,
        parts.len() > 0 ==> joined(parts.push(part), separator) == joined(parts, separator)
            + separator + part,
{
    assert(parts.push(part).drop_last() =~= parts);
}

proof fn lemma_joined_two(a: Seq<Seq<char>>, b: Seq<Seq<char>>, separator: Seq<char>)
    requires
        a.len() > 0,
        b.len() > 0,
    ensures
        joined(a + b, separator) == joined(a, separator) + separator + joined(b, separator),
    decreases b.len(),
{
    let whole = a + b;
    let before = b.drop_last();
    assert(whole.drop_last() =~= a + before);
    if b.len() == 1 {
        assert(a + before =~= a);
    } else {
        lemma_joined_two(a, before, separator);
        assert(joined(a, separator) + separator + joined(before, separator) + separator + b.last()
            =~= joined(a, separator) + separator + (joined(before, separator) + separator
            + b.last()));
    }
}

proof fn lemma_joined_empty(parts: Seq<Seq<char>>)
    requires
        forall|i: int| 0 <= i < parts.len() ==> is_word(#[trigger] parts[i]),
    ensures
        joined(parts, seq![' ']).len() == 0 <==> parts.len() == 0,
{
    if parts.len() > 0 {
        assert(is_word(parts[parts.len() - 1]));
    }
}

/// Collapsing keeps a text without white space, and puts one space between what it makes of
/// the texts before and behind white space, or none where one of them has no words.
pub proof fn law_collapsing(a: Seq<char>, c: char, b: Seq<char>)
    ensures
        (forall|i: int| 0 <= i < a.len() ==> !is_ascii_white_space(#[trigger] a[i]))
            ==> collapsed(a) == a,
        is_ascii_white_space(c) ==> collapsed(a + seq![c] + b) == (if collapsed(a).len() == 0 {
            collapsed(b)
        } else if collapsed(b).len() == 0 {
            collapsed(a)
        } else {
            collapsed(a) + seq![' '] + collapsed(b)
        }),
{
    law_words(a, c, b);
    lemma_words_are_words(a);
    lemma_words_are_words(b);
    lemma_joined_empty(words(a));
    lemma_joined_empty(words(b));
    if words(a).len() > 0 && words(b).len() > 0 {
        lemma_joined_two(words(a), words(b), seq![' ']);
    }
    assert(words(a).len() == 0 ==> words(a) + words(b) =~= words(b));
    assert(words(b).len() == 0 ==> words(a) + words(b) =~= words(a));
    if forall|i: int| 0 <= i < a.len() ==> !is_ascii_white_space(#[trigger] a[i]) {
        assert(collapsed(a) =~= a);
    }
}

proof fn lemma_piece_len_chars(s: Seq<char>, a: char, b: char)
    ensures
        piece_len(s, a, b) <= s.len(),
        forall|i: int| 0 <= i < piece_len(s, a, b) ==> #[trigger] s[i] != a && s[i] != b,
        piece_len(s, a, b) < s.len() ==> s[piece_len(s, a, b) as int] == a || s[piece_len(
            s,
            a,
            b,
        ) as int] == b,
    decreases s.len(),
{
    if s.len() > 0 && s[0] != a && s[0] != b {
        let rest = s.skip(1);
        lemma_piece_len_chars(rest, a, b);
        assert forall|i: int| 0 <= i < piece_len(s, a, b) implies #[trigger] s[i] != a && s[i]
            != b by {
            if i > 0 {
                assert(rest[i - 1] != a && rest[i - 1] != b);
            }
        }
    }
}

/// Where a piece ends before the text does, a separator stands.
pub proof fn lemma_piece_end(s: Seq<char>, a: char, b: char)
    ensures
        piece_len(s, a, b) < s.len() ==> s[piece_len(s, a, b) as int] == a || s[piece_len(
            s,
            a,
            b,
        ) as int] == b,
{
    lemma_piece_len_chars(s, a, b);
}

/// A text without separators is one piece, and a separator divides the pieces before it from
/// those behind it.
pub proof fn law_pieces(x: Seq<char>, c: char, y: Seq<char>, a: char, b: char)
    ensures
        (forall|i: int| 0 <= i < x.len() ==> #[trigger] x[i] != a && x[i] != b) ==> pieces(x, a, b)
            == seq![x],
        c == a || c == b ==> pieces(x + seq![c] + y, a, b) == pieces(x, a, b) + pieces(y, a, b),
    decreases x.len(),
{
    let n = piece_len(x, a, b) as int;
    lemma_piece_len_chars(x, a, b);
    if forall|i: int| 0 <= i < x.len() ==> #[trigger] x[i] != a && x[i] != b {
        lemma_piece_len(x, a, b, x.len() as int);
    }
    if c == a || c == b {
        let whole = x + seq![c] + y;
        assert(forall|i: int| 0 <= i < n ==> whole[i] == x[i]);
        assert(n < x.len() ==> whole[n] == x[n]);
        lemma_piece_len(whole, a, b, n);
        assert(whole.take(n) =~= x.take(n));
        if n >= x.len() {
            assert(x.take(n) =~= x);
            assert(whole.skip(n + 1) =~= y);
        } else {
            let rest = x.skip(n + 1);
            assert(whole.skip(n + 1) =~= rest + seq![c] + y);
            law_pieces(rest, c, y, a, b);
            assert(seq![x.take(n)] + (pieces(rest, a, b) + pieces(y, a, b)) =~= (seq![x.take(n)]
                + pieces(rest, a, b)) + pieces(y, a, b));
        }
    }
}

/// How a numeral is read from its characters: a digit alone has its value, a plus sign may
/// stand before the first digit, a further digit makes ten times the value and its own, and
/// nothing else is a numeral that fits in 32 bits.
pub proof fn law_numerals(s: Seq<char>, c: char)
    ensures
        parsed_u32(seq![]) is None,
        parsed_u32(seq!['+']) is None,
        c < '0' || '9' < c ==> parsed_u32(s.push(c)) is None,
        '0' <= c <= '9' && (s.len() == 0 || s == seq!['+']) ==> parsed_u32(s.push(c)) == Some(
            (c as u32 - '0' as u32) as u32,
        ),
        '0' <= c <= '9' && s.len() > 0 && s != seq!['+'] ==> parsed_u32(s.push(c)) == (
        match parsed_u32(s) {
            None => None::<u32>,
            Some(n) => if 10 * n + (c as u32 - '0' as u32) <= u32::MAX {
                Some((10 * n + (c as u32 - '0' as u32)) as u32)
            } else {
                None
            },
        }),
{
    let longer = s.push(c);
    let digits = unsigned_digits(s);
    let more = unsigned_digits(longer);
    assert(unsigned_digits(seq!['+']) =~= seq![]);
    assert(more.len() > 0 ==> more.last() == c || longer =~= seq!['+']);
    if c < '0' || '9' < c {
        if more.len() > 0 {
            assert(more[more.len() - 1] == c);
        }
    } else {
        assert(more =~= digits.push(c));
        assert(more.drop_last() =~= digits);
        assert forall|i: int| 0 <= i < digits.len() implies #[trigger] digits[i] == more[i] by {}
        if all_digits(digits) {
            assert forall|i: int| 0 <= i < more.len() implies is_digit(#[trigger] more[i]) by {
                if i < digits.len() {
                    assert(is_digit(digits[i]));
                }
            }
        } else {
            let i = choose|i: int| 0 <= i < digits.len() && !is_digit(#[trigger] digits[i]);
            assert(!is_digit(more[i]));
        }
        if s.len() == 0 || s == seq!['+'] {
            assert(digits =~= seq![]);
            assert(numeral_value(digits) == 0);
        } else {
            assert(digits.len() > 0) by {
                if digits.len() == 0 {
                    assert(s =~= seq!['+']);
                }
            }
        }
    }
}

/// A decimal numeral is the shortest text of digits for its number: it has no leading zero.
pub proof fn law_decimal_has_no_leading_zero(n: nat)
    ensures
        decimal(n).len() > 0,
        forall|i: int| 0 <= i < decimal(n).len() ==> '0' <= #[trigger] decimal(n)[i] <= '9',
        decimal(n).len() > 1 ==> decimal(n)[0] != '0',
        n > 0 ==> decimal(n)[0] != '0',
    decreases n,
{
    lemma_decimal(n);
    assert forall|i: int| 0 <= i < decimal(n).len() implies '0' <= #[trigger] decimal(n)[i]
        <= '9' by {
        assert(is_digit(decimal(n)[i]));
    }
    if n >= 10 {
        law_decimal_has_no_leading_zero(n / 10);
        assert(decimal(n)[0] == decimal(n / 10)[0]);
    }
}

/// What follows a prefix is the rest of the text, and there is none exactly where the text
/// does not begin with the prefix.
pub proof fn law_after_prefix(prefix: Seq<char>, rest: Seq<char>, s: Seq<char>)
    ensures
        after_prefix(s, prefix) == Some(rest) <==> s == prefix + rest,
        after_prefix(s, prefix) is None <==> forall|other: Seq<char>| s != #[trigger] (prefix + other),
{
    if s == prefix + rest {
        assert(s.subrange(0, prefix.len() as int) =~= prefix);
        assert(s.skip(prefix.len() as int) =~= rest);
    }
    if after_prefix(s, prefix) is Some {
        assert(s.subrange(0, prefix.len() as int) =~= prefix);
        assert(s =~= prefix + s.skip(prefix.len() as int));
    } else {
        assert forall|other: Seq<char>| s != #[trigger] (prefix + other) by {
            if s == prefix + other {
                assert(s.subrange(0, prefix.len() as int) =~= prefix);
            }
        }
    }
}

} // verus!
