//! Text as sequences of characters: conversion, numbers, trimming and searching.

use vstd::prelude::*;
use vstd::string::*;
use vstd::utf8::*;

verus! {

/// `String::push` appends one character to the end of the text.
pub assume_specification[ String::push ](text: &mut String, c: char)
    ensures
        final(text)@ == old(text)@.push(c),
;

/// What `std::str::from_utf8` says of bytes that are not UTF-8.
pub uninterp spec fn utf8_complaint(bytes: Seq<u8>) -> Seq<char>;

/// What `String::from_utf8_lossy` makes of bytes.
pub uninterp spec fn utf8_replaced(bytes: Seq<u8>) -> Seq<char>;

/// What the `Debug` formatting of a `str` writes.
pub uninterp spec fn debug_text(text: Seq<char>) -> Seq<char>;

/// What `str::to_lowercase` returns.
pub uninterp spec fn lowercase_text(text: Seq<char>) -> Seq<char>;

/// Calls `std::str::from_utf8`: valid UTF-8 is decoded, anything else is
/// answered with the text of the `Utf8Error`.
#[verifier::external_body]
pub(crate) fn decode_utf8_text(bytes: &[u8]) -> (result: Result<String, String>)
    ensures
        result is Ok <==> valid_utf8(bytes@),
        result matches Ok(text) ==> text@ == decode_utf8(bytes@),
        result matches Err(complaint) ==> complaint@ == utf8_complaint(bytes@),
{
    match std::str::from_utf8(bytes) {
        Ok(text) => Ok(text.to_string()),
        Err(error) => Err(error.to_string()),
    }
}

/// Calls `String::from_utf8_lossy`: valid UTF-8 is decoded unchanged.
#[verifier::external_body]
pub(crate) fn decode_utf8_lossy(bytes: &[u8]) -> (text: String)
    ensures
        text@ == utf8_replaced(bytes@),
        valid_utf8(bytes@) ==> text@ == decode_utf8(bytes@),
{
    String::from_utf8_lossy(bytes).into_owned()
}

/// Formats a `str` with its `Debug` implementation: quoted and escaped.
#[verifier::external_body]
pub(crate) fn quoted_debug(text: &str) -> (result: String)
    ensures
        result@ == debug_text(text@),
{
    format!("{:?}", text)
}

/// Calls `str::to_lowercase`.
#[verifier::external_body]
pub(crate) fn to_lowercase(text: &str) -> (result: String)
    ensures
        result@ == lowercase_text(text@),
{
    text.to_lowercase()
}

/// The characters of a text.
pub fn chars_of(text: &str) -> (result: Vec<char>)
    ensures
        result@ == text@,
{
    let mut result: Vec<char> = Vec::new();
    for c in it: text.chars()
        invariant
            result@ == it.seq().take(it.index() as int),
            it.seq() == text@,
    {
        result.push(c);
        assert(result@ =~= it.seq().take(it.index() as int + 1));
    }
    assert(result@ =~= text@);
    result
}

/// The text made of some characters.
pub fn string_of(chars: &[char]) -> (result: String)
    ensures
        result@ == chars@,
{
    let mut result = String::new();
    let mut i: usize = 0;
    while i < chars.len()
        invariant
            i <= chars@.len(),
            result@ == chars@.take(i as int),
        decreases chars@.len() - i,
    {
        result.push(chars[i]);
        assert(chars@.take(i as int + 1) =~= chars@.take(i as int).push(chars@[i as int]));
        i = i + 1;
    }
    assert(chars@.take(i as int) =~= chars@);
    result
}

/// Whether two texts hold the same characters.
pub fn same(a: &str, b: &str) -> (result: bool)
    ensures
        result == (a@ == b@),
{
    let x = a.as_bytes();
    let y = b.as_bytes();
    if x.len() != y.len() {
        return false;
    }
    let mut i: usize = 0;
    while i < x.len()
        invariant
            i <= x@.len(),
            x@.len() == y@.len(),
            x@ == encode_utf8(a@),
            y@ == encode_utf8(b@),
            forall|j: int| 0 <= j < i ==> x@[j] == y@[j],
        decreases x@.len() - i,
    {
        if x[i] != y[i] {
            return false;
        }
        i = i + 1;
    }
    proof {
        assert(x@ =~= y@);
        encode_utf8_decode_utf8(a@);
        encode_utf8_decode_utf8(b@);
    }
    true
}

/// The character of one digit, `0` to `9` and then `a` to `z`.
pub open spec fn digit_char(digit: int) -> char {
    if digit < 10 {
        (48 + digit) as char
    } else {
        (87 + digit) as char
    }
}

/// The decimal digits of a number.
pub open spec fn decimal_text(n: nat) -> Seq<char>
    decreases n,
{
    if n < 10 {
        seq![digit_char(n as int)]
    } else {
        decimal_text(n / 10).push(digit_char((n % 10) as int))
    }
}

/// The decimal digits of an integer, with a minus sign before a negative one.
pub open spec fn integer_text(n: int) -> Seq<char> {
    if n < 0 {
        seq!['-'] + decimal_text((-n) as nat)
    } else {
        decimal_text(n as nat)
    }
}

/// The lower-case hexadecimal digits of a number.
pub open spec fn hex_text(n: nat) -> Seq<char>
    decreases n,
{
    if n < 16 {
        seq![digit_char(n as int)]
    } else {
        hex_text(n / 16).push(digit_char((n % 16) as int))
    }
}

/// One character, several times in a row.
pub open spec fn repeated(c: char, count: nat) -> Seq<char> {
    Seq::new(count, |i: int| c)
}

/// A text filled up with zeros on the left.
pub open spec fn zero_padded(text: Seq<char>, width: nat) -> Seq<char> {
    if text.len() >= width {
        text
    } else {
        repeated('0', (width - text.len()) as nat) + text
    }
}

fn digit_to_char(digit: u8) -> (c: char)
    requires
        digit < 36,
    ensures
        c == digit_char(digit as int),
{
    if digit < 10 {
        (48 + digit) as char
    } else {
        (87 + digit) as char
    }
}

/// Appends the decimal digits of a number.
pub fn push_decimal(out: &mut String, n: u128)
    ensures
        final(out)@ == old(out)@ + decimal_text(n as nat),
    decreases n,
{
    if n < 10 {
        out.push(digit_to_char(n as u8));
        assert(out@ =~= old(out)@ + decimal_text(n as nat));
    } else {
        push_decimal(out, n / 10);
        out.push(digit_to_char((n % 10) as u8));
        assert(out@ =~= old(out)@ + decimal_text(n as nat));
    }
}

/// The decimal digits of a number as a text of its own.
pub fn decimal(n: u128) -> (result: String)
    ensures
        result@ == decimal_text(n as nat),
{
    let mut result = String::new();
    push_decimal(&mut result, n);
    assert(result@ =~= decimal_text(n as nat));
    result
}

/// The decimal digits of an integer as a text of its own.
pub fn integer(n: i128) -> (result: String)
    ensures
        result@ == integer_text(n as int),
{
    let mut result = String::new();
    if n < 0 {
        result.push('-');
        let magnitude: u128 = if n == i128::MIN {
            0x8000_0000_0000_0000_0000_0000_0000_0000u128
        } else {
            (-n) as u128
        };
        push_decimal(&mut result, magnitude);
        assert(result@ =~= integer_text(n as int));
    } else {
        push_decimal(&mut result, n as u128);
        assert(result@ =~= integer_text(n as int));
    }
    result
}

fn push_hex(out: &mut String, n: u128)
    ensures
        final(out)@ == old(out)@ + hex_text(n as nat),
    decreases n,
{
    if n < 16 {
        out.push(digit_to_char(n as u8));
        assert(out@ =~= old(out)@ + hex_text(n as nat));
    } else {
        push_hex(out, n / 16);
        out.push(digit_to_char((n % 16) as u8));
        assert(out@ =~= old(out)@ + hex_text(n as nat));
    }
}

/// The hexadecimal digits of a number, filled up with zeros to `width`.
pub fn hex_padded(n: u64, width: usize) -> (result: String)
    ensures
        result@ == zero_padded(hex_text(n as nat), width as nat),
{
    let mut digits = String::new();
    push_hex(&mut digits, n as u128);
    assert(digits@ =~= hex_text(n as nat));
    let count: usize = chars_of(&digits).len();
    let mut result = String::new();
    let mut i: usize = count;
    while i < width
        invariant
            count <= i,
            i <= width || i == count,
            result@ == repeated('0', (i - count) as nat),
        decreases width - i,
    {
        result.push('0');
        i = i + 1;
        assert(result@ =~= repeated('0', (i - count) as nat));
    }
    result.append(&digits);
    assert(result@ =~= zero_padded(hex_text(n as nat), width as nat));
    result
}

/// The value of one digit in a base up to 36.
pub open spec fn digit_of(c: char, base: nat) -> Option<nat> {
    let value = if '0' <= c && c <= '9' {
        c as nat - 48
    } else if 'a' <= c && c <= 'z' {
        c as nat - 87
    } else if 'A' <= c && c <= 'Z' {
        c as nat - 55
    } else {
        base as int
    };
    if value < base {
        Some(value as nat)
    } else {
        None
    }
}

/// Whether a text is a non-empty run of digits.
pub open spec fn is_digits(s: Seq<char>, base: nat) -> bool {
    s.len() > 0 && forall|i: int| 0 <= i < s.len() ==> digit_of(#[trigger] s[i], base) is Some
}

/// The number that a run of digits denotes.
pub open spec fn digits_value(s: Seq<char>, base: nat) -> nat
    decreases s.len(),
{
    if s.len() == 0 {
        0
    } else {
        let digit = match digit_of(s.last(), base) {
            Some(d) => d,
            None => 0,
        };
        digits_value(s.drop_last(), base) * base + digit
    }
}

proof fn lemma_digits_value_grows(s: Seq<char>, base: nat, i: int)
    requires
        base >= 1,
        0 <= i <= s.len(),
    ensures
        digits_value(s.take(i), base) <= digits_value(s, base),
    decreases s.len() - i,
{
    if i == s.len() {
        assert(s.take(i) =~= s);
    } else {
        lemma_digits_value_grows(s, base, i + 1);
        assert(s.take(i + 1).drop_last() =~= s.take(i));
        let v = digits_value(s.take(i), base);
        assert(v * base >= v) by (nonlinear_arith)
            requires
                base >= 1,
                v >= 0,
        ;
    }
}

/// The value of one digit in a base up to 36.
pub fn digit_value(c: char, base: u32) -> (result: Option<u32>)
    requires
        base <= 36,
    ensures
        match digit_of(c, base as nat) {
            Some(d) => result == Some(d as u32) && d < base,
            None => result is None,
        },
{
    let code: u32 = c as u32;
    let value: u32 = if 48 <= code && code <= 57 {
        code - 48
    } else if 97 <= code && code <= 122 {
        code - 87
    } else if 65 <= code && code <= 90 {
        code - 55
    } else {
        base
    };
    if value < base {
        Some(value)
    } else {
        None
    }
}

/// Reads a run of digits whose value is at most `max`.
pub fn parse_digits(s: &[char], base: u32, max: u128) -> (result: Option<u128>)
    requires
        2 <= base <= 36,
    ensures
        is_digits(s@, base as nat) && digits_value(s@, base as nat) <= max ==> result == Some(
            digits_value(s@, base as nat) as u128,
        ),
        !(is_digits(s@, base as nat) && digits_value(s@, base as nat) <= max) ==> result is None,
{
    if s.len() == 0 {
        return None;
    }
    let mut value: u128 = 0;
    let mut i: usize = 0;
    while i < s.len()
        invariant
            i <= s@.len(),
            2 <= base <= 36,
            value == digits_value(s@.take(i as int), base as nat),
            value <= max,
            forall|j: int| 0 <= j < i ==> digit_of(#[trigger] s@[j], base as nat) is Some,
        decreases s@.len() - i,
    {
        assert(s@.take(i as int + 1).drop_last() =~= s@.take(i as int));
        proof {
            lemma_digits_value_grows(s@, base as nat, i as int + 1);
        }
        let digit: u32 = match digit_value(s[i], base) {
            Some(digit) => digit,
            None => {
                return None;
            },
        };
        let scaled: u128 = match value.checked_mul(base as u128) {
            Some(scaled) => scaled,
            None => {
                return None;
            },
        };
        let next: u128 = match scaled.checked_add(digit as u128) {
            Some(next) => next,
            None => {
                return None;
            },
        };
        if next > max {
            return None;
        }
        value = next;
        i = i + 1;
    }
    assert(s@.take(i as int) =~= s@);
    Some(value)
}

/// The characters with the Unicode property `White_Space`.
pub open spec fn is_space(c: char) -> bool {
    let code = c as u32;
    ||| 0x9 <= code <= 0xD
    ||| code == 0x20
    ||| code == 0x85
    ||| code == 0xA0
    ||| code == 0x1680
    ||| 0x2000 <= code <= 0x200A
    ||| code == 0x2028
    ||| code == 0x2029
    ||| code == 0x202F
    ||| code == 0x205F
    ||| code == 0x3000
}

/// Whether a character is white space.
pub fn whitespace(c: char) -> (result: bool)
    ensures
        result == is_space(c),
{
    let code: u32 = c as u32;
    (0x9 <= code && code <= 0xD) || code == 0x20 || code == 0x85 || code == 0xA0 || code == 0x1680
        || (0x2000 <= code && code <= 0x200A) || code == 0x2028 || code == 0x2029 || code == 0x202F
        || code == 0x205F || code == 0x3000
}

/// The part of a text that follows its leading white space.
pub open spec fn trim_start(s: Seq<char>) -> Seq<char>
    decreases s.len(),
{
    if s.len() > 0 && is_space(s[0]) {
        trim_start(s.skip(1))
    } else {
        s
    }
}

/// The part of a text that precedes its trailing white space.
pub open spec fn trim_end(s: Seq<char>) -> Seq<char>
    decreases s.len(),
{
    if s.len() > 0 && is_space(s.last()) {
        trim_end(s.drop_last())
    } else {
        s
    }
}

/// A text without the white space around it.
pub open spec fn trimmed(s: Seq<char>) -> Seq<char> {
    trim_end(trim_start(s))
}

/// Removes the white space around a text.
pub fn trim(s: &[char]) -> (result: Vec<char>)
    ensures
        result@ == trimmed(s@),
{
    let mut start: usize = 0;
    assert(s@.skip(0) =~= s@);
    while start < s.len() && whitespace(s[start])
        invariant
            start <= s@.len(),
            trim_start(s@) == trim_start(s@.skip(start as int)),
        decreases s@.len() - start,
    {
        assert(s@.skip(start as int).skip(1) =~= s@.skip(start as int + 1));
        start = start + 1;
    }
    let mut end: usize = s.len();
    while end > start && whitespace(s[end - 1])
        invariant
            start <= end <= s@.len(),
            trim_end(s@.skip(start as int)) == trim_end(s@.subrange(start as int, end as int)),
        decreases end,
    {
        assert(s@.subrange(start as int, end as int).drop_last() =~= s@.subrange(
            start as int,
            end as int - 1,
        ));
        end = end - 1;
    }
    assert(s@.skip(start as int) =~= s@.subrange(start as int, s@.len() as int));
    copy_range(s, start, end)
}

/// The part of a text that precedes its trailing occurrences of `c`.
pub open spec fn trim_end_char(s: Seq<char>, c: char) -> Seq<char>
    decreases s.len(),
{
    if s.len() > 0 && s.last() == c {
        trim_end_char(s.drop_last(), c)
    } else {
        s
    }
}

/// The part of a text that follows its leading occurrences of `c`.
pub open spec fn trim_start_char(s: Seq<char>, c: char) -> Seq<char>
    decreases s.len(),
{
    if s.len() > 0 && s[0] == c {
        trim_start_char(s.skip(1), c)
    } else {
        s
    }
}

/// Removes the trailing occurrences of a character.
pub fn trim_end_matches(s: &[char], c: char) -> (result: Vec<char>)
    ensures
        result@ == trim_end_char(s@, c),
{
    let mut end: usize = s.len();
    assert(s@.take(end as int) =~= s@);
    while end > 0 && s[end - 1] == c
        invariant
            end <= s@.len(),
            trim_end_char(s@, c) == trim_end_char(s@.take(end as int), c),
        decreases end,
    {
        assert(s@.take(end as int).drop_last() =~= s@.take(end as int - 1));
        end = end - 1;
    }
    assert(s@.take(end as int) =~= s@.subrange(0, end as int));
    copy_range(s, 0, end)
}

/// Removes the leading occurrences of a character.
pub fn trim_start_matches(s: &[char], c: char) -> (result: Vec<char>)
    ensures
        result@ == trim_start_char(s@, c),
{
    let mut start: usize = 0;
    assert(s@.skip(0) =~= s@);
    while start < s.len() && s[start] == c
        invariant
            start <= s@.len(),
            trim_start_char(s@, c) == trim_start_char(s@.skip(start as int), c),
        decreases s@.len() - start,
    {
        assert(s@.skip(start as int).skip(1) =~= s@.skip(start as int + 1));
        start = start + 1;
    }
    assert(s@.skip(start as int) =~= s@.subrange(start as int, s@.len() as int));
    copy_range(s, start, s.len())
}

/// The characters from `start` up to `end`.
pub fn copy_range(s: &[char], start: usize, end: usize) -> (result: Vec<char>)
    requires
        start <= end <= s@.len(),
    ensures
        result@ == s@.subrange(start as int, end as int),
{
    let mut result: Vec<char> = Vec::new();
    let mut i: usize = start;
    while i < end
        invariant
            start <= i <= end <= s@.len(),
            result@ == s@.subrange(start as int, i as int),
        decreases end - i,
    {
        result.push(s[i]);
        assert(s@.subrange(start as int, i as int + 1) =~= s@.subrange(start as int, i as int).push(
            s@[i as int],
        ));
        i = i + 1;
    }
    result
}

/// Appends characters to a text under construction.
pub fn push_chars(out: &mut Vec<char>, chars: &[char])
    ensures
        final(out)@ == old(out)@ + chars@,
{
    let mut i: usize = 0;
    while i < chars.len()
        invariant
            i <= chars@.len(),
            out@ == old(out)@ + chars@.take(i as int),
        decreases chars@.len() - i,
    {
        out.push(chars[i]);
        assert(chars@.take(i as int + 1) =~= chars@.take(i as int).push(chars@[i as int]));
        assert(out@ =~= old(out)@ + chars@.take(i as int + 1));
        i = i + 1;
    }
    assert(chars@.take(i as int) =~= chars@);
}

/// Whether a pattern stands in a text at a position.
pub open spec fn occurs_at(s: Seq<char>, pattern: Seq<char>, at: int) -> bool {
    &&& 0 <= at
    &&& at + pattern.len() <= s.len()
    &&& s.subrange(at, at + pattern.len()) == pattern
}

/// Whether a pattern stands anywhere in a text.
pub open spec fn has_text(s: Seq<char>, pattern: Seq<char>) -> bool {
    exists|at: int| occurs_at(s, pattern, at)
}

/// Whether a pattern stands in a text at a position.
pub fn matches_at(s: &[char], pattern: &[char], at: usize) -> (result: bool)
    ensures
        result == occurs_at(s@, pattern@, at as int),
{
    if at > s.len() || pattern.len() > s.len() - at {
        return false;
    }
    let mut i: usize = 0;
    while i < pattern.len()
        invariant
            i <= pattern@.len(),
            at + pattern@.len() <= s@.len() <= usize::MAX,
            forall|j: int| 0 <= j < i ==> s@[at + j] == pattern@[j],
        decreases pattern@.len() - i,
    {
        if s[at + i] != pattern[i] {
            assert(s@.subrange(at as int, at + pattern@.len())[i as int] != pattern@[i as int]);
            return false;
        }
        i = i + 1;
    }
    assert(s@.subrange(at as int, at + pattern@.len()) =~= pattern@);
    true
}

/// Whether a pattern stands anywhere in a text.
pub fn contains(s: &[char], pattern: &[char]) -> (result: bool)
    ensures
        result == has_text(s@, pattern@),
{
    let mut at: usize = 0;
    while at <= s.len()
        invariant
            forall|j: int| 0 <= j < at ==> !occurs_at(s@, pattern@, j),
        decreases s@.len() + 1 - at,
    {
        if matches_at(s, pattern, at) {
            return true;
        }
        if at == s.len() {
            assert forall|j: int| !occurs_at(s@, pattern@, j) by {}
            return false;
        }
        at = at + 1;
    }
    assert forall|j: int| !occurs_at(s@, pattern@, j) by {}
    false
}

/// Whether a text holds a character.
pub fn contains_char(s: &[char], c: char) -> (result: bool)
    ensures
        result == s@.contains(c),
{
    let mut i: usize = 0;
    while i < s.len()
        invariant
            i <= s@.len(),
            forall|j: int| 0 <= j < i ==> s@[j] != c,
        decreases s@.len() - i,
    {
        if s[i] == c {
            assert(s@[i as int] == c);
            return true;
        }
        i = i + 1;
    }
    false
}

/// The pieces of a text between the occurrences of a separator, found from the
/// left, when the piece under way began at `start` and `at` is looked at next.
pub open spec fn split_from(s: Seq<char>, separator: Seq<char>, start: int, at: int) -> Seq<
    Seq<char>,
>
    decreases s.len() - at,
{
    if separator.len() == 0 || at < 0 || at + separator.len() > s.len() {
        seq![s.subrange(start, s.len() as int)]
    } else if occurs_at(s, separator, at) {
        seq![s.subrange(start, at)] + split_from(
            s,
            separator,
            at + separator.len(),
            at + separator.len(),
        )
    } else {
        split_from(s, separator, start, at + 1)
    }
}

/// The pieces of a text between the occurrences of a separator.
pub open spec fn split_text(s: Seq<char>, separator: Seq<char>) -> Seq<Seq<char>> {
    split_from(s, separator, 0, 0)
}

/// The views of a list of character vectors.
pub open spec fn char_views(list: Seq<Vec<char>>) -> Seq<Seq<char>> {
    list.map_values(|v: Vec<char>| v@)
}

/// Splits a text at every occurrence of a separator.
pub fn split(s: &[char], separator: &[char]) -> (result: Vec<Vec<char>>)
    requires
        separator@.len() > 0,
    ensures
        char_views(result@) == split_text(s@, separator@),
{
    let mut result: Vec<Vec<char>> = Vec::new();
    let mut start: usize = 0;
    let mut at: usize = 0;
    while at <= s.len() && separator.len() <= s.len() - at
        invariant
            separator@.len() > 0,
            start <= at <= s@.len(),
            char_views(result@) + split_from(s@, separator@, start as int, at as int)
                == split_text(s@, separator@),
        decreases s@.len() - at,
    {
        if matches_at(s, separator, at) {
            let piece = copy_range(s, start, at);
            let ghost before = char_views(result@);
            result.push(piece);
            assert(char_views(result@) =~= before.push(s@.subrange(start as int, at as int)));
            at = at + separator.len();
            start = at;
            assert(char_views(result@) + split_from(s@, separator@, start as int, at as int)
                =~= split_text(s@, separator@));
        } else {
            at = at + 1;
        }
    }
    let piece = copy_range(s, start, s.len());
    let ghost before = char_views(result@);
    result.push(piece);
    assert(char_views(result@) =~= before.push(s@.subrange(start as int, s@.len() as int)));
    assert(char_views(result@) =~= split_text(s@, separator@));
    result
}

/// A text from position `at` on, with every occurrence of a pattern replaced.
pub open spec fn replace_from(
    s: Seq<char>,
    pattern: Seq<char>,
    with: Seq<char>,
    at: int,
) -> Seq<char>
    decreases s.len() - at,
{
    if at < 0 || at >= s.len() {
        if pattern.len() == 0 {
            with
        } else {
            seq![]
        }
    } else if pattern.len() == 0 {
        with + seq![s[at]] + replace_from(s, pattern, with, at + 1)
    } else if occurs_at(s, pattern, at) {
        with + replace_from(s, pattern, with, at + pattern.len())
    } else {
        seq![s[at]] + replace_from(s, pattern, with, at + 1)
    }
}

/// A text with every occurrence of a pattern, found from the left, replaced. An
/// empty pattern occurs before every character and at the end.
pub open spec fn replaced(s: Seq<char>, pattern: Seq<char>, with: Seq<char>) -> Seq<char> {
    replace_from(s, pattern, with, 0)
}

/// Replaces every occurrence of a pattern.
pub fn replace(s: &[char], pattern: &[char], with: &[char]) -> (result: Vec<char>)
    ensures
        result@ == replaced(s@, pattern@, with@),
{
    let mut result: Vec<char> = Vec::new();
    let mut at: usize = 0;
    while at < s.len()
        invariant
            at <= s@.len(),
            result@ + replace_from(s@, pattern@, with@, at as int) == replaced(
                s@,
                pattern@,
                with@,
            ),
        decreases s@.len() - at,
    {
        let ghost before = result@;
        if pattern.len() == 0 {
            push_chars(&mut result, with);
            result.push(s[at]);
            at = at + 1;
        } else if matches_at(s, pattern, at) {
            push_chars(&mut result, with);
            at = at + pattern.len();
        } else {
            result.push(s[at]);
            at = at + 1;
        }
        assert(result@ + replace_from(s@, pattern@, with@, at as int) =~= replaced(
            s@,
            pattern@,
            with@,
        ));
    }
    if pattern.len() == 0 {
        push_chars(&mut result, with);
    }
    assert(result@ =~= replaced(s@, pattern@, with@));
    result
}

/// The position of the last occurrence of a character, or -1.
pub open spec fn last_position(s: Seq<char>, c: char) -> int
    decreases s.len(),
{
    if s.len() == 0 {
        -1
    } else if s.last() == c {
        s.len() - 1
    } else {
        last_position(s.drop_last(), c)
    }
}

/// The position of the last occurrence of a character.
pub fn rfind(s: &[char], c: char) -> (result: Option<usize>)
    ensures
        match result {
            Some(i) => i < s@.len() && i < usize::MAX && last_position(s@, c) == i && s@[i as int]
                == c,
            None => last_position(s@, c) == -1,
        },
{
    let mut end: usize = s.len();
    assert(s@.take(end as int) =~= s@);
    while end > 0
        invariant
            end <= s@.len(),
            last_position(s@, c) == last_position(s@.take(end as int), c),
        decreases end,
    {
        if s[end - 1] == c {
            return Some(end - 1);
        }
        assert(s@.take(end as int).drop_last() =~= s@.take(end as int - 1));
        end = end - 1;
    }
    None
}

/// The position of the first occurrence of a character at or after `at`, or -1.
pub open spec fn first_from(s: Seq<char>, c: char, at: int) -> int
    decreases s.len() - at,
{
    if at < 0 || at >= s.len() {
        -1
    } else if s[at] == c {
        at
    } else {
        first_from(s, c, at + 1)
    }
}

/// The position of the first occurrence of a character at or after `at`.
pub fn find_from(s: &[char], c: char, at: usize) -> (result: Option<usize>)
    ensures
        match result {
            Some(i) => at <= i < s@.len() && i < usize::MAX && first_from(s@, c, at as int) == i
                && s@[i as int] == c,
            None => first_from(s@, c, at as int) == -1,
        },
{
    let mut i: usize = at;
    while i < s.len()
        invariant
            at <= i,
            first_from(s@, c, at as int) == first_from(s@, c, i as int),
        decreases s@.len() - i,
    {
        if s[i] == c {
            return Some(i);
        }
        i = i + 1;
    }
    None
}

/// The ASCII upper-case form of a character.
pub open spec fn upper(c: char) -> char {
    if 'a' <= c && c <= 'z' {
        (c as u32 - 32) as char
    } else {
        c
    }
}

/// The ASCII upper-case form of a text.
pub open spec fn uppercase(s: Seq<char>) -> Seq<char> {
    s.map_values(|c: char| upper(c))
}

/// The ASCII upper-case form of a character.
pub fn to_upper(c: char) -> (result: char)
    ensures
        result == upper(c),
{
    let code: u32 = c as u32;
    if 97 <= code && code <= 122 {
        (code as u8 - 32) as char
    } else {
        c
    }
}

/// The ASCII upper-case form of a text.
pub fn to_uppercase(s: &[char]) -> (result: Vec<char>)
    ensures
        result@ == uppercase(s@),
{
    let mut result: Vec<char> = Vec::new();
    let mut i: usize = 0;
    while i < s.len()
        invariant
            i <= s@.len(),
            result@ == uppercase(s@.take(i as int)),
        decreases s@.len() - i,
    {
        result.push(to_upper(s[i]));
        assert(uppercase(s@.take(i as int + 1)) =~= uppercase(s@.take(i as int)).push(
            upper(s@[i as int]),
        ));
        i = i + 1;
    }
    assert(s@.take(i as int) =~= s@);
    result
}

/// Whether a text begins with another.
pub fn starts_with(s: &[char], prefix: &[char]) -> (result: bool)
    ensures
        result == prefix@.is_prefix_of(s@),
{
    let result = matches_at(s, prefix, 0);
    assert(result == prefix@.is_prefix_of(s@)) by {
        if prefix@.len() <= s@.len() {
            assert(s@.subrange(0, prefix@.len() as int) == prefix@ <==> prefix@ =~= s@.subrange(
                0,
                prefix@.len() as int,
            ));
        }
    }
    result
}

/// A text followed by another.
pub fn concat2(a: &str, b: &str) -> (result: String)
    ensures
        result@ == a@ + b@,
{
    let mut result = String::from_str(a);
    result.append(b);
    result
}

/// Three texts in a row.
pub fn concat3(a: &str, b: &str, c: &str) -> (result: String)
    ensures
        result@ == a@ + b@ + c@,
{
    let mut result = concat2(a, b);
    result.append(c);
    result
}

/// Four texts in a row.
pub fn concat4(a: &str, b: &str, c: &str, d: &str) -> (result: String)
    ensures
        result@ == a@ + b@ + c@ + d@,
{
    let mut result = concat3(a, b, c);
    result.append(d);
    result
}

/// Five texts in a row.
pub fn concat5(a: &str, b: &str, c: &str, d: &str, e: &str) -> (result: String)
    ensures
        result@ == a@ + b@ + c@ + d@ + e@,
{
    let mut result = concat4(a, b, c, d);
    result.append(e);
    result
}

/// The view of an optional text.
pub open spec fn opt_view(text: Option<String>) -> Option<Seq<char>> {
    match text {
        Some(text) => Some(text@),
        None => None,
    }
}

/// A text without any occurrence of a character.
pub open spec fn without(s: Seq<char>, c: char) -> Seq<char>
    decreases s.len(),
{
    if s.len() == 0 {
        s
    } else if s.last() == c {
        without(s.drop_last(), c)
    } else {
        without(s.drop_last(), c).push(s.last())
    }
}

/// Removes every occurrence of a character.
pub fn remove_char(s: &[char], c: char) -> (result: Vec<char>)
    ensures
        result@ == without(s@, c),
{
    let mut result: Vec<char> = Vec::new();
    let mut i: usize = 0;
    while i < s.len()
        invariant
            i <= s@.len(),
            result@ == without(s@.take(i as int), c),
        decreases s@.len() - i,
    {
        assert(s@.take(i as int + 1).drop_last() =~= s@.take(i as int));
        if s[i] != c {
            result.push(s[i]);
        }
        i = i + 1;
    }
    assert(s@.take(i as int) =~= s@);
    result
}

/// Hexadecimal digits denote the number that they were made from, and zeros in
/// front of them change nothing.
pub proof fn hex_round_trip(n: nat, width: nat)
    ensures
        is_digits(zero_padded(hex_text(n), width), 16),
        digits_value(zero_padded(hex_text(n), width), 16) == n,
{
    lemma_hex_digits(n);
    let digits = hex_text(n);
    if digits.len() < width {
        let count = (width - digits.len()) as nat;
        lemma_leading_zeros(count, digits);
    }
}

proof fn lemma_hex_digits(n: nat)
    ensures
        is_digits(hex_text(n), 16),
        digits_value(hex_text(n), 16) == n,
    decreases n,
{
    if n < 16 {
        let s = hex_text(n);
        assert(s.drop_last() =~= seq![]);
        assert(digits_value(seq![], 16) == 0);
        assert(digit_of(s[0], 16) == Some(n));
    } else {
        lemma_hex_digits(n / 16);
        let s = hex_text(n);
        assert(s.drop_last() =~= hex_text(n / 16));
        assert(digit_of(s.last(), 16) == Some(n % 16));
        assert forall|i: int| 0 <= i < s.len() implies digit_of(#[trigger] s[i], 16) is Some by {
            if i < s.len() - 1 {
                assert(s[i] == hex_text(n / 16)[i]);
            }
        }
    }
}

proof fn lemma_leading_zeros(count: nat, digits: Seq<char>)
    requires
        is_digits(digits, 16),
    ensures
        is_digits(repeated('0', count) + digits, 16),
        digits_value(repeated('0', count) + digits, 16) == digits_value(digits, 16),
    decreases digits.len(),
{
    let zeros = repeated('0', count);
    let all = zeros + digits;
    assert forall|i: int| 0 <= i < all.len() implies digit_of(#[trigger] all[i], 16) is Some by {
        if i >= count {
            assert(all[i] == digits[i - count]);
        }
    }
    assert(all.drop_last() =~= zeros + digits.drop_last());
    assert(all.last() == digits.last());
    if digits.len() == 1 {
        assert(digits.drop_last() =~= seq![]);
        assert(zeros + digits.drop_last() =~= zeros);
        assert(digits_value(digits.drop_last(), 16) == 0);
        lemma_zeros_value(count);
    } else {
        assert forall|i: int| 0 <= i < digits.len() - 1 implies digit_of(
            #[trigger] digits.drop_last()[i],
            16,
        ) is Some by {
            assert(digits[i] == digits.drop_last()[i]);
        }
        lemma_leading_zeros(count, digits.drop_last());
    }
}

proof fn lemma_zeros_value(count: nat)
    ensures
        digits_value(repeated('0', count), 16) == 0,
    decreases count,
{
    if count > 0 {
        let zeros = repeated('0', count);
        assert(zeros.drop_last() =~= repeated('0', (count - 1) as nat));
        lemma_zeros_value((count - 1) as nat);
    }
}

/// The last occurrence of a character stands before a tail that lacks it.
pub proof fn lemma_last_position_tail(head: Seq<char>, c: char, tail: Seq<char>)
    requires
        !tail.contains(c),
    ensures
        last_position(head.push(c) + tail, c) == head.len(),
    decreases tail.len(),
{
    let all = head.push(c) + tail;
    if tail.len() == 0 {
        assert(all =~= head.push(c));
    } else {
        assert(all.last() == tail.last());
        assert(tail.contains(tail.last()));
        assert(all.drop_last() =~= head.push(c) + tail.drop_last());
        assert forall|x: char| tail.drop_last().contains(x) implies tail.contains(x) by {
            let i = choose|i: int| 0 <= i < tail.drop_last().len() && tail.drop_last()[i] == x;
            assert(tail[i] == x);
        }
        lemma_last_position_tail(head, c, tail.drop_last());
    }
}

/// Decimal digits denote the number that they were made from.
pub proof fn decimal_round_trip(n: nat)
    ensures
        is_digits(decimal_text(n), 10),
        digits_value(decimal_text(n), 10) == n,
        forall|i: int|
            0 <= i < decimal_text(n).len() ==> '0' <= #[trigger] decimal_text(n)[i]
                && decimal_text(n)[i] <= '9',
    decreases n,
{
    let s = decimal_text(n);
    if n < 10 {
        assert(s.drop_last() =~= seq![]);
        assert(digits_value(seq![], 10) == 0);
        assert(digit_of(s[0], 10) == Some(n));
    } else {
        decimal_round_trip(n / 10);
        assert(s.drop_last() =~= decimal_text(n / 10));
        assert(digit_of(s.last(), 10) == Some(n % 10));
        assert forall|i: int| 0 <= i < s.len() implies digit_of(#[trigger] s[i], 10) is Some && '0'
            <= s[i] && s[i] <= '9' by {
            if i < s.len() - 1 {
                assert(s[i] == decimal_text(n / 10)[i]);
            }
        }
    }
}

/// Removing a character that does not occur changes nothing.
pub proof fn lemma_without_absent(s: Seq<char>, c: char)
    requires
        forall|i: int| 0 <= i < s.len() ==> #[trigger] s[i] != c,
    ensures
        without(s, c) == s,
    decreases s.len(),
{
    if s.len() > 0 {
        lemma_without_absent(s.drop_last(), c);
        assert(s.drop_last().push(s.last()) =~= s);
    }
}

/// The first occurrence of a character is where it is met first.
pub proof fn lemma_first_at(s: Seq<char>, c: char, at: int, hit: int)
    requires
        0 <= at <= hit < s.len(),
        s[hit] == c,
        forall|i: int| at <= i < hit ==> #[trigger] s[i] != c,
    ensures
        first_from(s, c, at) == hit,
    decreases hit - at,
{
    if at < hit {
        lemma_first_at(s, c, at + 1, hit);
    }
}

/// A text without the first character of a separator is not split.
pub proof fn lemma_split_absent(s: Seq<char>, separator: Seq<char>, at: int)
    requires
        separator.len() > 0,
        0 <= at <= s.len(),
        forall|i: int| 0 <= i < s.len() ==> #[trigger] s[i] != separator[0],
    ensures
        split_from(s, separator, 0, at) == seq![s],
    decreases s.len() - at,
{
    if at + separator.len() > s.len() {
        assert(s.subrange(0, s.len() as int) =~= s);
    } else {
        assert(s.subrange(at, at + separator.len())[0] == s[at]);
        lemma_split_absent(s, separator, at + 1);
    }
}

/// The view of an optional borrowed text.
pub open spec fn str_view(text: Option<&str>) -> Option<Seq<char>> {
    match text {
        Some(text) => Some(text@),
        None => None,
    }
}

/// The digits of a number in a base.
pub open spec fn radix_text(n: nat, base: nat) -> Seq<char>
    decreases n,
    via radix_text_shrinks
{
    if base < 2 || n < base {
        seq![digit_char(n as int)]
    } else {
        radix_text(n / base, base).push(digit_char((n % base) as int))
    }
}

#[via_fn]
proof fn radix_text_shrinks(n: nat, base: nat) {
    if base >= 2 && n >= base {
        vstd::arithmetic::div_mod::lemma_div_decreases(n as int, base as int);
    }
}

/// The digits of a number denote it; the first is not zero unless it is the only
/// one.
pub proof fn radix_round_trip(n: nat, base: nat)
    requires
        2 <= base <= 36,
    ensures
        is_digits(radix_text(n, base), base),
        digits_value(radix_text(n, base), base) == n,
        radix_text(n, base).len() > 1 ==> radix_text(n, base)[0] != '0',
        n > 0 ==> radix_text(n, base)[0] != '0',
    decreases n,
{
    let s = radix_text(n, base);
    if n < base {
        assert(s.drop_last() =~= seq![]);
        assert(digits_value(seq![], base) == 0);
        assert(digit_of(s[0], base) == Some(n));
    } else {
        vstd::arithmetic::div_mod::lemma_fundamental_div_mod(n as int, base as int);
        vstd::arithmetic::div_mod::lemma_mod_bound(n as int, base as int);
        vstd::arithmetic::div_mod::lemma_div_decreases(n as int, base as int);
        vstd::arithmetic::div_mod::lemma_div_non_zero(n as int, base as int);
        let head = radix_text(n / base, base);
        radix_round_trip(n / base, base);
        assert(s.drop_last() =~= head);
        assert(digit_of(s.last(), base) == Some(n % base));
        assert((n / base) * base == base * (n / base)) by (nonlinear_arith);
        assert forall|i: int| 0 <= i < s.len() implies digit_of(#[trigger] s[i], base) is Some by {
            if i < s.len() - 1 {
                assert(s[i] == head[i]);
            }
        }
        assert(s[0] == head[0]);
    }
}

/// Decimal and hexadecimal digits are those in the bases ten and sixteen.
pub proof fn lemma_radix_ten_sixteen(n: nat)
    ensures
        decimal_text(n) == radix_text(n, 10),
        hex_text(n) == radix_text(n, 16),
    decreases n,
{
    if n >= 10 {
        lemma_radix_ten_sixteen(n / 10);
    }
    if n >= 16 {
        lemma_radix_ten_sixteen(n / 16);
    }
}

/// Replacing a pattern that stands nowhere changes nothing.
pub proof fn lemma_replace_absent(s: Seq<char>, pattern: Seq<char>, with: Seq<char>, at: int)
    requires
        pattern.len() > 0,
        0 <= at <= s.len(),
        forall|i: int| at <= i < s.len() ==> !occurs_at(s, pattern, i),
    ensures
        replace_from(s, pattern, with, at) == s.skip(at),
    decreases s.len() - at,
{
    if at < s.len() {
        assert(!occurs_at(s, pattern, at));
        lemma_replace_absent(s, pattern, with, at + 1);
        assert(seq![s[at]] + s.skip(at + 1) =~= s.skip(at));
    } else {
        assert(s.skip(at) =~= seq![]);
    }
}

/// A pattern between texts that lack its first character is replaced once.
pub proof fn lemma_replace_once(
    head: Seq<char>,
    pattern: Seq<char>,
    tail: Seq<char>,
    with: Seq<char>,
    at: int,
)
    requires
        pattern.len() > 0,
        0 <= at <= head.len(),
        forall|i: int| 0 <= i < head.len() ==> #[trigger] head[i] != pattern[0],
        forall|i: int| 0 <= i < tail.len() ==> #[trigger] tail[i] != pattern[0],
    ensures
        replace_from(head + pattern + tail, pattern, with, at) == head.skip(at) + with + tail,
    decreases head.len() - at,
{
    let s = head + pattern + tail;
    if at < head.len() {
        assert(s[at] == head[at]);
        assert(!occurs_at(s, pattern, at)) by {
            if occurs_at(s, pattern, at) {
                assert(s.subrange(at, at + pattern.len())[0] == s[at]);
            }
        }
        lemma_replace_once(head, pattern, tail, with, at + 1);
        assert(seq![s[at]] + (head.skip(at + 1) + with + tail) =~= head.skip(at) + with + tail);
    } else {
        assert(s.subrange(at, at + pattern.len()) =~= pattern);
        let next = at + pattern.len();
        assert forall|i: int| next <= i < s.len() implies !occurs_at(s, pattern, i) by {
            if occurs_at(s, pattern, i) {
                assert(s.subrange(i, i + pattern.len())[0] == s[i]);
                assert(s[i] == tail[i - next]);
            }
        }
        lemma_replace_absent(s, pattern, with, next);
        assert(s.skip(next) =~= tail);
        assert(head.skip(at) =~= seq![]);
        assert(with + tail =~= head.skip(at) + with + tail);
    }
}

}
