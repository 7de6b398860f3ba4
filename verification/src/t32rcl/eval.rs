//! Results of PRACTICE functions.

use vstd::prelude::*;
use vstd::string::*;
use vstd::utf8::*;

use crate::bytes::{copy_bytes, le_value, read_u32};
use crate::t32rcl::error::{Error, ErrorView, Operation, OperationView, Trace32Error, Trace32View};
use crate::text::{
    char_views, chars_of, concat2, contains, copy_range, debug_text, decode_utf8_text, digits_value,
    has_text, hex_padded, hex_text, integer, integer_text, is_digits, opt_view, parse_digits,
    quoted_debug, remove_char, replace, replaced, same, split, split_text, string_of, to_uppercase,
    trim, trimmed, uppercase, without, zero_padded,
};

verus! {

/// A decoded function result. Numbers with a fraction are kept as the literal
/// that TRACE32 sent.
#[derive(Debug, Clone, PartialEq, Eq)]
pub enum Value {
    Bool(bool),
    Int(i128),
    /// The literal of a floating-point number.
    Float(String),
    /// Strings, addresses, ranges and other kinds that are handed on as text.
    Text(String),
    /// The literals of the limits of a time range.
    TimeRange(Vec<String>),
    Empty,
}

/// The content of a [`Value`].
pub ghost enum ValueView {
    Bool(bool),
    Int(int),
    Float(Seq<char>),
    Text(Seq<char>),
    TimeRange(Seq<Seq<char>>),
    Empty,
}

/// The contents of a list of texts.
pub open spec fn text_views(list: Seq<String>) -> Seq<Seq<char>> {
    list.map_values(|s: String| s@)
}

impl View for Value {
    type V = ValueView;

    open spec fn view(&self) -> ValueView {
        match *self {
            Value::Bool(value) => ValueView::Bool(value),
            Value::Int(value) => ValueView::Int(value as int),
            Value::Float(literal) => ValueView::Float(literal@),
            Value::Text(text) => ValueView::Text(text@),
            Value::TimeRange(limits) => ValueView::TimeRange(text_views(limits@)),
            Value::Empty => ValueView::Empty,
        }
    }
}

/// A function result on the wire: its type, its size and its text.
pub open spec fn result_parts(result: Seq<u8>) -> Result<(u32, Seq<char>), ErrorView> {
    if result.len() < 8 || result.len() < 8 + le_value(result.subrange(4, 8)) {
        Err(ErrorView::Protocol("malformed function result"@))
    } else {
        let raw = result.subrange(8, 8 + le_value(result.subrange(4, 8)) as int);
        if valid_utf8(raw) {
            Ok((le_value(result.subrange(0, 4)) as u32, decode_utf8(raw)))
        } else {
            Err(ErrorView::Protocol("function result is not UTF-8"@))
        }
    }
}

/// Splits the answer to a function call into its type and its text.
pub fn split_result(result: &[u8]) -> (parts: Result<(u32, String), Error>)
    ensures
        match parts {
            Ok((kind, text)) => result_parts(result@) == Ok::<_, ErrorView>((kind, text@)),
            Err(error) => result_parts(result@) == Err::<(u32, Seq<char>), _>(error@),
        },
{
    if result.len() < 8 {
        return Err(Error::protocol("malformed function result"));
    }
    let kind: u32 = read_u32(result, 0);
    let size: u32 = read_u32(result, 4);
    let available: usize = result.len() - 8;
    if (available as u64) < size as u64 {
        return Err(Error::protocol("malformed function result"));
    }
    match decode_utf8_text(&copy_bytes(result, 8, 8 + size as usize)) {
        Ok(text) => Ok((kind, text)),
        Err(_) => Err(Error::protocol("function result is not UTF-8")),
    }
}

/// A text without its last character.
pub open spec fn without_last(s: Seq<char>) -> Seq<char> {
    if s.len() == 0 {
        s
    } else {
        s.drop_last()
    }
}

/// Drops the unit suffix of a number: a dot, or the `s` of seconds.
pub fn strip_last(value: &[char]) -> (result: Vec<char>)
    ensures
        result@ == without_last(value@),
{
    if value.len() == 0 {
        copy_range(value, 0, 0)
    } else {
        let result = copy_range(value, 0, value.len() - 1);
        assert(result@ =~= value@.drop_last());
        result
    }
}

/// A text without one underscore at its beginning.
pub open spec fn after_underscore(s: Seq<char>) -> Seq<char> {
    if s.len() > 0 && s[0] == '_' {
        s.skip(1)
    } else {
        s
    }
}

/// The digits of a number behind the prefix of its base: `0b` or `0B` for 2,
/// `0x` or `0X` for 16, none for 10, and an empty one for any other. An
/// underscore may separate prefix and digits.
pub open spec fn behind_prefix(s: Seq<char>, base: nat) -> Seq<char> {
    if base == 10 {
        s
    } else if base == 2 {
        if s.len() >= 2 && s[0] == '0' && (s[1] == 'b' || s[1] == 'B') {
            after_underscore(s.skip(2))
        } else {
            s
        }
    } else if base == 16 {
        if s.len() >= 2 && s[0] == '0' && (s[1] == 'x' || s[1] == 'X') {
            after_underscore(s.skip(2))
        } else {
            s
        }
    } else {
        after_underscore(s)
    }
}

/// The value of digits with single underscores between them.
pub open spec fn grouped_value(s: Seq<char>, base: nat) -> Option<nat> {
    if s.len() == 0 || s[0] == '_' || s.last() == '_' || has_text(s, seq!['_', '_']) || !is_digits(
        without(s, '_'),
        base,
    ) {
        None
    } else {
        Some(digits_value(without(s, '_'), base))
    }
}

/// The number that a text denotes in a base: white space around it, a sign, the
/// prefix of the base, and digits with single underscores between them. Numbers
/// of 128 bits or more are not accepted.
pub open spec fn int_value(text: Seq<char>, base: nat) -> Option<int> {
    let s = trimmed(text);
    if s.len() == 0 {
        None
    } else {
        let body = if s[0] == '-' || s[0] == '+' {
            s.skip(1)
        } else {
            s
        };
        match grouped_value(behind_prefix(body, base), base) {
            Some(value) => if value > i128::MAX {
                None
            } else if s[0] == '-' {
                Some(-value)
            } else {
                Some(value as int)
            },
            None => None,
        }
    }
}

fn skip_underscore(s: &[char]) -> (result: Vec<char>)
    ensures
        result@ == after_underscore(s@),
{
    if s.len() > 0 && s[0] == '_' {
        let result = copy_range(s, 1, s.len());
        assert(result@ =~= s@.skip(1));
        result
    } else {
        let result = copy_range(s, 0, s.len());
        assert(result@ =~= s@);
        result
    }
}

fn skip_prefix(s: &[char], base: u32) -> (result: Vec<char>)
    ensures
        result@ == behind_prefix(s@, base as nat),
{
    let prefixed = s.len() >= 2 && s[0] == '0' && ((base == 2 && (s[1] == 'b' || s[1] == 'B')) || (
    base == 16 && (s[1] == 'x' || s[1] == 'X')));
    if prefixed {
        let rest = copy_range(s, 2, s.len());
        assert(rest@ =~= s@.skip(2));
        skip_underscore(&rest)
    } else if base == 10 || base == 2 || base == 16 {
        let result = copy_range(s, 0, s.len());
        assert(result@ =~= s@);
        result
    } else {
        skip_underscore(s)
    }
}

/// Reads digits with single underscores between them, up to a value of `max`.
pub fn parse_grouped(s: &[char], base: u32, max: u128) -> (result: Option<u128>)
    requires
        2 <= base <= 36,
    ensures
        match grouped_value(s@, base as nat) {
            Some(value) => if value <= max {
                result == Some(value as u128)
            } else {
                result is None
            },
            None => result is None,
        },
{
    if s.len() == 0 || s[0] == '_' || s[s.len() - 1] == '_' {
        return None;
    }
    let pair: [char; 2] = ['_', '_'];
    assert(pair@ =~= seq!['_', '_']);
    if contains(s, &pair) {
        return None;
    }
    parse_digits(&remove_char(s, '_'), base, max)
}

/// Reads a number as `int_value` describes it.
pub fn parse_int(text: &str, base: u32) -> (result: Option<i128>)
    requires
        2 <= base <= 36,
    ensures
        match int_value(text@, base as nat) {
            Some(value) => result == Some(value as i128) && -i128::MAX <= value <= i128::MAX,
            None => result is None,
        },
{
    let s = trim(&chars_of(text));
    if s.len() == 0 {
        return None;
    }
    let negative = s[0] == '-';
    let start: usize = if negative || s[0] == '+' {
        1
    } else {
        0
    };
    let body = copy_range(&s, start, s.len());
    assert(body@ =~= if start == 1 {
        s@.skip(1)
    } else {
        s@
    });
    match parse_grouped(&skip_prefix(&body, base), base, i128::MAX as u128) {
        Some(value) => if negative {
            Some(-(value as i128))
        } else {
            Some(value as i128)
        },
        None => None,
    }
}

/// The end of the run of decimal digits that begins at a position.
pub open spec fn digit_run(s: Seq<char>, at: int) -> int
    decreases s.len() - at,
{
    if 0 <= at < s.len() && '0' <= s[at] && s[at] <= '9' {
        digit_run(s, at + 1)
    } else {
        at
    }
}

fn skip_digits(s: &[char], at: usize) -> (end: usize)
    requires
        at <= s@.len(),
    ensures
        end == digit_run(s@, at as int),
        at <= end <= s@.len(),
{
    let mut end: usize = at;
    while end < s.len() && '0' <= s[end] && s[end] <= '9'
        invariant
            at <= end <= s@.len(),
            digit_run(s@, at as int) == digit_run(s@, end as int),
        decreases s@.len() - end,
    {
        end = end + 1;
    }
    end
}

/// Whether an exponent, an `e` with an optional sign and digits, or nothing at
/// all, fills the rest of a text.
pub open spec fn is_exponent(s: Seq<char>, at: int) -> bool {
    if at == s.len() {
        true
    } else if s[at] != 'e' && s[at] != 'E' {
        false
    } else {
        let start = if at + 1 < s.len() && (s[at + 1] == '+' || s[at + 1] == '-') {
            at + 2
        } else {
            at + 1
        };
        digit_run(s, start) == s.len() && start < s.len()
    }
}

/// Whether a text is an unsigned decimal number: digits, a point with digits on
/// at least one side of it, or both, and an optional exponent.
pub open spec fn is_number(s: Seq<char>) -> bool {
    let whole = digit_run(s, 0);
    if whole < s.len() && s[whole] == '.' {
        let end = digit_run(s, whole + 1);
        (whole > 0 || end > whole + 1) && is_exponent(s, end)
    } else {
        whole > 0 && is_exponent(s, whole)
    }
}

/// Whether a text is a floating-point literal: an optional sign, then a decimal
/// number, an infinity or `nan` in any case.
pub open spec fn is_float(s: Seq<char>) -> bool {
    let body = if s.len() > 0 && (s[0] == '+' || s[0] == '-') {
        s.skip(1)
    } else {
        s
    };
    let name = uppercase(body);
    name == "INF"@ || name == "INFINITY"@ || name == "NAN"@ || is_number(body)
}

fn exponent_at(s: &[char], at: usize) -> (result: bool)
    requires
        at <= s@.len(),
    ensures
        result == is_exponent(s@, at as int),
{
    if at == s.len() {
        return true;
    }
    if s[at] != 'e' && s[at] != 'E' {
        return false;
    }
    let signed = s.len() - at > 1 && (s[at + 1] == '+' || s[at + 1] == '-');
    let start: usize = if signed {
        at + 2
    } else {
        at + 1
    };
    start < s.len() && skip_digits(s, start) == s.len()
}

fn number(s: &[char]) -> (result: bool)
    ensures
        result == is_number(s@),
{
    let whole: usize = skip_digits(s, 0);
    if whole < s.len() && s[whole] == '.' {
        let end: usize = skip_digits(s, whole + 1);
        (whole > 0 || end > whole + 1) && exponent_at(s, end)
    } else {
        whole > 0 && exponent_at(s, whole)
    }
}

/// The literal that a text holds between white space, if it is one.
pub open spec fn float_literal(text: Seq<char>) -> Option<Seq<char>> {
    if is_float(trimmed(text)) {
        Some(trimmed(text))
    } else {
        None
    }
}

/// Takes a floating-point literal out of the white space around it.
pub fn parse_float(text: &[char]) -> (result: Option<String>)
    ensures
        match result {
            Some(literal) => float_literal(text@) == Some(literal@),
            None => float_literal(text@) is None,
        },
{
    let s = trim(text);
    let start: usize = if s.len() > 0 && (s[0] == '+' || s[0] == '-') {
        1
    } else {
        0
    };
    let body = copy_range(&s, start, s.len());
    assert(body@ =~= if start == 1 {
        s@.skip(1)
    } else {
        s@
    });
    let name = string_of(&to_uppercase(&body));
    if same(&name, "INF") || same(&name, "INFINITY") || same(&name, "NAN") || number(&body) {
        Some(string_of(&s))
    } else {
        None
    }
}

/// The text from byte 2 on, if a character begins there.
pub open spec fn behind_two_bytes(s: Seq<char>) -> Option<Seq<char>> {
    let raw = encode_utf8(s);
    if is_char_boundary(raw, 2) {
        Some(decode_utf8(raw.skip(2)))
    } else {
        None
    }
}

fn skip_two_bytes(s: &str) -> (result: Option<&str>)
    ensures
        match result {
            Some(rest) => behind_two_bytes(s@) == Some(rest@),
            None => behind_two_bytes(s@) is None,
        },
{
    if s.is_char_boundary(2) {
        let rest = s.split_at(2).1;
        proof {
            let raw = encode_utf8(s@);
            assert(raw.subrange(2, raw.len() as int) =~= raw.skip(2));
            encode_utf8_decode_utf8(rest@);
        }
        Some(rest)
    } else {
        None
    }
}

/// The literals of a time range: what stands between double dots or dashes,
/// each without its unit.
pub open spec fn range_parts(value: Seq<char>) -> Seq<Seq<char>> {
    split_text(replaced(value, seq!['-', '-'], seq!['.', '.']), seq!['.', '.'])
}

/// The literals at the front of a list, if every entry holds one.
pub open spec fn range_literals(parts: Seq<Seq<char>>) -> Option<Seq<Seq<char>>>
    decreases parts.len(),
{
    if parts.len() == 0 {
        Some(seq![])
    } else {
        match (range_literals(parts.drop_last()), float_literal(without_last(parts.last()))) {
            (Some(literals), Some(literal)) => Some(literals.push(literal)),
            _ => None,
        }
    }
}

proof fn lemma_range_literals_prefix(parts: Seq<Seq<char>>, n: int)
    requires
        0 <= n <= parts.len(),
        range_literals(parts.take(n)) is None,
    ensures
        range_literals(parts) is None,
    decreases parts.len() - n,
{
    if n == parts.len() {
        assert(parts.take(n) =~= parts);
    } else {
        assert(parts.take(n + 1).drop_last() =~= parts.take(n));
        lemma_range_literals_prefix(parts, n + 1);
    }
}

fn parse_range(value: &[char]) -> (result: Option<Vec<String>>)
    ensures
        match result {
            Some(literals) => range_literals(range_parts(value@)) == Some(text_views(literals@)),
            None => range_literals(range_parts(value@)) is None,
        },
{
    let dashes: [char; 2] = ['-', '-'];
    let dots: [char; 2] = ['.', '.'];
    assert(dashes@ =~= seq!['-', '-']);
    assert(dots@ =~= seq!['.', '.']);
    let parts = split(&replace(value, &dashes, &dots), &dots);
    let ghost views = char_views(parts@);
    let mut literals: Vec<String> = Vec::new();
    let mut i: usize = 0;
    while i < parts.len()
        invariant
            i <= parts@.len(),
            views == char_views(parts@),
            views == range_parts(value@),
            range_literals(views.take(i as int)) == Some(text_views(literals@)),
        decreases parts@.len() - i,
    {
        assert(views.take(i as int + 1).drop_last() =~= views.take(i as int));
        assert(views[i as int] == parts@[i as int]@);
        match parse_float(&strip_last(&parts[i])) {
            Some(literal) => {
                let ghost before = text_views(literals@);
                literals.push(literal);
                assert(text_views(literals@) =~= before.push(literal@));
            },
            None => {
                proof {
                    lemma_range_literals_prefix(views, i as int + 1);
                }
                return None;
            },
        }
        i = i + 1;
    }
    assert(views.take(i as int) =~= views);
    Some(literals)
}

/// The complaint about a result that is not what its type says.
pub open spec fn undecodable(kind: u32, value: Seq<char>, expression: Seq<char>) -> ErrorView {
    ErrorView::Protocol(
        "cannot decode result "@ + debug_text(value) + " (type 0x"@ + zero_padded(
            hex_text(kind as nat),
            4,
        ) + ") of "@ + expression,
    )
}

/// The result of a function by the type that TRACE32 gives it.
pub open spec fn decoded(kind: u32, value: Seq<char>, expression: Seq<char>) -> Result<
    ValueView,
    ErrorView,
> {
    let bad = undecodable(kind, value, expression);
    if kind == 0x0001 {
        if value == "FALSE()"@ {
            Ok(ValueView::Bool(false))
        } else if value == "TRUE()"@ {
            Ok(ValueView::Bool(true))
        } else {
            Err(
                ErrorView::Trace32(
                    Trace32View {
                        code: None,
                        operation: OperationView::Function(expression),
                        message: value,
                    },
                ),
            )
        }
    } else if kind == 0x0002 {
        match behind_two_bytes(value) {
            Some(digits) => match int_value(digits, 2) {
                Some(n) => Ok(ValueView::Int(n)),
                None => Err(bad),
            },
            None => Err(bad),
        }
    } else if kind == 0x0004 {
        match int_value(value, 16) {
            Some(n) => Ok(ValueView::Int(n)),
            None => Err(bad),
        }
    } else if kind == 0x0008 {
        match int_value(without_last(value), 10) {
            Some(n) => Ok(ValueView::Int(n)),
            None => Err(bad),
        }
    } else if kind == 0x0010 {
        match float_literal(value) {
            Some(literal) => Ok(ValueView::Float(literal)),
            None => Err(bad),
        }
    } else if kind == 0x0400 {
        match float_literal(without_last(value)) {
            Some(literal) => Ok(ValueView::Float(literal)),
            None => Err(bad),
        }
    } else if kind == 0x0800 {
        match range_literals(range_parts(value)) {
            Some(literals) => Ok(ValueView::TimeRange(literals)),
            None => Err(bad),
        }
    } else if kind == 0x0000 || kind == 0x0020 || kind == 0x0040 || kind == 0x0080 || kind == 0x0100
        || kind == 0x0200 || kind == 0x4000 {
        Ok(ValueView::Text(value))
    } else {
        Ok(ValueView::Empty)
    }
}

fn undecodable_error(kind: u32, value: &str, expression: &str) -> (error: Error)
    ensures
        error@ == undecodable(kind, value@, expression@),
{
    let mut text = concat2("cannot decode result ", &quoted_debug(value));
    text.append(" (type 0x");
    text.append(&hex_padded(kind as u64, 4));
    text.append(") of ");
    text.append(expression);
    Error::Protocol(text)
}

/// Decodes the result of a function by the type that TRACE32 gives it.
pub fn decode(kind: u32, value: &str, expression: &str) -> (result: Result<Value, Error>)
    ensures
        match result {
            Ok(v) => decoded(kind, value@, expression@) == Ok::<_, ErrorView>(v@),
            Err(error) => decoded(kind, value@, expression@) == Err::<ValueView, _>(error@),
        },
{
    let chars = chars_of(value);
    let found: Option<Value> = match kind {
        0x0001 => {
            if same(value, "FALSE()") {
                return Ok(Value::Bool(false));
            }
            if same(value, "TRUE()") {
                return Ok(Value::Bool(true));
            }
            return Err(
                Error::Trace32(
                    Trace32Error::new(Operation::Function(expression.to_owned()), value),
                ),
            );
        },
        0x0002 => match skip_two_bytes(value) {
            Some(digits) => match parse_int(digits, 2) {
                Some(n) => Some(Value::Int(n)),
                None => None,
            },
            None => None,
        },
        0x0004 => match parse_int(value, 16) {
            Some(n) => Some(Value::Int(n)),
            None => None,
        },
        0x0008 => match parse_int(&string_of(&strip_last(&chars)), 10) {
            Some(n) => Some(Value::Int(n)),
            None => None,
        },
        0x0010 => match parse_float(&chars) {
            Some(literal) => Some(Value::Float(literal)),
            None => None,
        },
        0x0400 => match parse_float(&strip_last(&chars)) {
            Some(literal) => Some(Value::Float(literal)),
            None => None,
        },
        0x0800 => match parse_range(&chars) {
            Some(literals) => Some(Value::TimeRange(literals)),
            None => None,
        },
        0x0000 | 0x0020 | 0x0040 | 0x0080 | 0x0100 | 0x0200 | 0x4000 => Some(
            Value::Text(value.to_owned()),
        ),
        _ => Some(Value::Empty),
    };
    match found {
        Some(v) => Ok(v),
        None => Err(undecodable_error(kind, value, expression)),
    }
}

/// Texts with a comma and a blank between them.
pub open spec fn comma_list(list: Seq<Seq<char>>) -> Seq<char>
    decreases list.len(),
{
    if list.len() == 0 {
        seq![]
    } else if list.len() == 1 {
        list[0]
    } else {
        comma_list(list.drop_last()) + ", "@ + list.last()
    }
}

/// What the `Debug` formatting of the 64-bit floating-point number that a literal
/// denotes writes; nothing where the literal denotes none.
pub uninterp spec fn float_text(literal: Seq<char>) -> Option<Seq<char>>;

/// Formats the number that `str::parse` reads a literal as, of the type that
/// `toml::Value::Float` holds, with its `Debug` implementation: `1.50` is written
/// as `1.5`. An error of `str::parse` becomes `None`.
#[verifier::external_body]
fn debug_float(literal: &str) -> (result: Option<String>)
    ensures
        opt_view(result) == float_text(literal@),
{
    match literal.parse().map(toml::Value::Float) {
        Ok(toml::Value::Float(number)) => Some(format!("{:?}", number)),
        _ => None,
    }
}

/// How a number is shown: in its own form, or as its literal where that denotes
/// none.
pub open spec fn number_shown(literal: Seq<char>) -> Seq<char> {
    match float_text(literal) {
        Some(text) => text,
        None => literal,
    }
}

fn show_number(literal: &String) -> (text: String)
    ensures
        text@ == number_shown(literal@),
{
    match debug_float(literal) {
        Some(text) => text,
        None => literal.clone(),
    }
}

/// How numbers are shown.
pub open spec fn numbers_shown(literals: Seq<Seq<char>>) -> Seq<Seq<char>> {
    literals.map_values(|literal: Seq<char>| number_shown(literal))
}

fn show_numbers(literals: &Vec<String>) -> (texts: Vec<String>)
    ensures
        text_views(texts@) == numbers_shown(text_views(literals@)),
{
    let ghost views = text_views(literals@);
    let mut texts: Vec<String> = Vec::new();
    let mut i: usize = 0;
    assert(text_views(texts@) =~= numbers_shown(views.take(0)));
    while i < literals.len()
        invariant
            i <= literals@.len(),
            views == text_views(literals@),
            text_views(texts@) == numbers_shown(views.take(i as int)),
        decreases literals@.len() - i,
    {
        let ghost before = text_views(texts@);
        let text = show_number(&literals[i]);
        texts.push(text);
        assert(text_views(texts@) =~= before.push(text@));
        assert(views[i as int] == literals@[i as int]@);
        i = i + 1;
        assert(text_views(texts@) =~= numbers_shown(views.take(i as int)));
    }
    assert(views.take(i as int) =~= views);
    texts
}

impl ValueView {
    /// The value as it is shown in a complaint about its kind.
    pub open spec fn shown(self) -> Seq<char> {
        match self {
            ValueView::Bool(value) => if value {
                "Bool(true)"@
            } else {
                "Bool(false)"@
            },
            ValueView::Int(value) => "Int("@ + integer_text(value) + ")"@,
            ValueView::Float(literal) => "Float("@ + number_shown(literal) + ")"@,
            ValueView::Text(text) => "Text("@ + debug_text(text) + ")"@,
            ValueView::TimeRange(limits) => "TimeRange(["@ + comma_list(numbers_shown(limits))
                + "])"@,
            ValueView::Empty => "Empty"@,
        }
    }
}

/// Puts a comma and a blank between texts.
pub fn join_commas(list: &Vec<String>) -> (result: String)
    ensures
        result@ == comma_list(text_views(list@)),
{
    let ghost views = text_views(list@);
    let mut result = String::new();
    let mut i: usize = 0;
    while i < list.len()
        invariant
            i <= list@.len(),
            views == text_views(list@),
            result@ == comma_list(views.take(i as int)),
        decreases list@.len() - i,
    {
        assert(views.take(i as int + 1).drop_last() =~= views.take(i as int));
        assert(views[i as int] == list@[i as int]@);
        if i > 0 {
            result.append(", ");
        }
        result.append(&list[i]);
        i = i + 1;
        assert(result@ =~= comma_list(views.take(i as int)));
    }
    assert(views.take(i as int) =~= views);
    result
}

impl Value {
    /// The value as it is shown in a complaint about its kind.
    pub fn shown(&self) -> (text: String)
        ensures
            text@ == self@.shown(),
    {
        match self {
            Value::Bool(value) => if *value {
                "Bool(true)".to_owned()
            } else {
                "Bool(false)".to_owned()
            },
            Value::Int(value) => concat2("Int(", &integer(*value)).concat(")"),
            Value::Float(literal) => concat2("Float(", &show_number(literal)).concat(")"),
            Value::Text(text) => concat2("Text(", &quoted_debug(text)).concat(")"),
            Value::TimeRange(limits) => concat2(
                "TimeRange([",
                &join_commas(&show_numbers(limits)),
            ).concat("])"),
            Value::Empty => "Empty".to_owned(),
        }
    }
}

}
