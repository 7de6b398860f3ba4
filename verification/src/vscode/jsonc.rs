//! JSON with comments and trailing commas.

use vstd::prelude::*;
use vstd::utf8::*;

use crate::errors::BridgeError;
use crate::json::{json_document, parse_json, Json, JsonView};
use crate::text::{
    chars_of, concat4, copy_range, decode_utf8_text, is_space, string_of, utf8_complaint,
    whitespace,
};

verus! {

/// What surrounds a position in JSON with comments.
#[derive(Debug, Clone, Copy, PartialEq, Eq, Structural)]
pub enum Place {
    /// Nothing.
    Plain,
    /// A string.
    Text,
    /// A string, behind a backslash.
    Escape,
    /// A comment up to the end of the line.
    Line,
    /// A comment up to its end mark.
    Block,
}

/// What surrounds the character after one that is not part of a comment.
pub open spec fn place_after(place: Place, c: char) -> Place {
    match place {
        Place::Plain => if c == '"' {
            Place::Text
        } else {
            Place::Plain
        },
        Place::Text => if c == '\\' {
            Place::Escape
        } else if c == '"' {
            Place::Plain
        } else {
            Place::Text
        },
        Place::Escape => Place::Text,
        _ => place,
    }
}

/// Whether a character stands at a position.
pub open spec fn stands_at(s: Seq<char>, at: int, c: char) -> bool {
    0 <= at < s.len() && s[at] == c
}

/// A text from a position on without its comments, behind what was kept before;
/// nothing where a comment is never closed. Of a comment only the line ends are
/// kept, and in strings nothing is a comment.
pub open spec fn uncommented(s: Seq<char>, at: int, place: Place, kept: Seq<char>) -> Option<
    Seq<char>,
>
    decreases s.len() - at,
{
    if at < 0 || at >= s.len() {
        if place == Place::Block {
            None
        } else {
            Some(kept)
        }
    } else {
        let c = s[at];
        match place {
            Place::Line => if c == '\n' {
                uncommented(s, at + 1, Place::Plain, kept.push(c))
            } else {
                uncommented(s, at + 1, place, kept)
            },
            Place::Block => if c == '*' && stands_at(s, at + 1, '/') {
                uncommented(s, at + 2, Place::Plain, kept)
            } else if c == '\n' {
                uncommented(s, at + 1, place, kept.push(c))
            } else {
                uncommented(s, at + 1, place, kept)
            },
            _ => if place == Place::Plain && c == '/' && stands_at(s, at + 1, '/') {
                uncommented(s, at + 2, Place::Line, kept)
            } else if place == Place::Plain && c == '/' && stands_at(s, at + 1, '*') {
                uncommented(s, at + 2, Place::Block, kept)
            } else {
                uncommented(s, at + 1, place_after(place, c), kept.push(c))
            },
        }
    }
}

fn next_place(place: Place, c: char) -> (next: Place)
    ensures
        next == place_after(place, c),
{
    match place {
        Place::Plain => if c == '"' {
            Place::Text
        } else {
            Place::Plain
        },
        Place::Text => if c == '\\' {
            Place::Escape
        } else if c == '"' {
            Place::Plain
        } else {
            Place::Text
        },
        Place::Escape => Place::Text,
        _ => place,
    }
}

fn is_at(s: &[char], at: usize, c: char) -> (result: bool)
    ensures
        result == stands_at(s@, at as int, c),
{
    at < s.len() && s[at] == c
}

/// Removes the comments from a text; line ends inside them are kept, so that
/// positions in later complaints stay meaningful.
pub fn strip_comments(source: &str) -> (result: Result<String, BridgeError>)
    ensures
        match uncommented(source@, 0, Place::Plain, seq![]) {
            Some(text) => result matches Ok(kept) && kept@ == text,
            None => result matches Err(error) && error@
                == "unterminated block comment in JSONC"@,
        },
{
    let s = chars_of(source);
    let mut kept: Vec<char> = Vec::new();
    let mut place = Place::Plain;
    let mut at: usize = 0;
    assert(kept@ =~= seq![]);
    while at < s.len()
        invariant
            at <= s@.len(),
            s@ == source@,
            uncommented(source@, 0, Place::Plain, seq![]) == uncommented(
                s@,
                at as int,
                place,
                kept@,
            ),
        decreases s@.len() - at,
    {
        let c: char = s[at];
        let mut step: usize = 1;
        match place {
            Place::Line => {
                if c == '\n' {
                    place = Place::Plain;
                    kept.push(c);
                }
            },
            Place::Block => {
                if c == '*' && is_at(&s, at + 1, '/') {
                    place = Place::Plain;
                    step = 2;
                } else if c == '\n' {
                    kept.push(c);
                }
            },
            _ => {
                if place == Place::Plain && c == '/' && is_at(&s, at + 1, '/') {
                    place = Place::Line;
                    step = 2;
                } else if place == Place::Plain && c == '/' && is_at(&s, at + 1, '*') {
                    place = Place::Block;
                    step = 2;
                } else {
                    place = next_place(place, c);
                    kept.push(c);
                }
            },
        }
        at = at + step;
    }
    if place == Place::Block {
        return Err(BridgeError::new("unterminated block comment in JSONC"));
    }
    Ok(string_of(&kept))
}

/// The number of line ends in a text.
pub open spec fn line_count(s: Seq<char>) -> nat
    decreases s.len(),
{
    if s.len() == 0 {
        0
    } else if s.last() == '\n' {
        line_count(s.drop_last()) + 1
    } else {
        line_count(s.drop_last())
    }
}

proof fn lemma_line_count_push(s: Seq<char>, c: char)
    ensures
        line_count(s.push(c)) == line_count(s) + (if c == '\n' {
            1nat
        } else {
            0nat
        }),
{
    assert(s.push(c).drop_last() =~= s);
}

proof fn lemma_lines_kept(s: Seq<char>, at: int, place: Place, kept: Seq<char>)
    requires
        0 <= at <= s.len(),
    ensures
        uncommented(s, at, place, kept) matches Some(text) ==> line_count(text) + line_count(
            s.take(at),
        ) == line_count(kept) + line_count(s),
    decreases s.len() - at,
{
    if at >= s.len() {
        assert(s.take(at) =~= s);
    } else {
        let c = s[at];
        assert(s.take(at + 1) =~= s.take(at).push(c));
        lemma_line_count_push(s.take(at), c);
        lemma_line_count_push(kept, c);
        if at + 2 <= s.len() {
            assert(s.take(at + 2) =~= s.take(at + 1).push(s[at + 1]));
            lemma_line_count_push(s.take(at + 1), s[at + 1]);
        }
        match place {
            Place::Line => if c == '\n' {
                lemma_lines_kept(s, at + 1, Place::Plain, kept.push(c));
            } else {
                lemma_lines_kept(s, at + 1, place, kept);
            },
            Place::Block => if c == '*' && stands_at(s, at + 1, '/') {
                lemma_lines_kept(s, at + 2, Place::Plain, kept);
            } else if c == '\n' {
                lemma_lines_kept(s, at + 1, place, kept.push(c));
            } else {
                lemma_lines_kept(s, at + 1, place, kept);
            },
            _ => if place == Place::Plain && c == '/' && stands_at(s, at + 1, '/') {
                lemma_lines_kept(s, at + 2, Place::Line, kept);
            } else if place == Place::Plain && c == '/' && stands_at(s, at + 1, '*') {
                lemma_lines_kept(s, at + 2, Place::Block, kept);
            } else {
                lemma_lines_kept(s, at + 1, place_after(place, c), kept.push(c));
            },
        }
    }
}

/// Removing comments keeps every line end, so every line keeps its number.
pub proof fn line_ends_are_kept(source: Seq<char>)
    ensures
        uncommented(source, 0, Place::Plain, seq![]) matches Some(text) ==> line_count(text)
            == line_count(source),
{
    lemma_lines_kept(source, 0, Place::Plain, seq![]);
    assert(source.take(0) =~= seq![]);
}

/// White space, and the ASCII separators that count as such here.
pub open spec fn is_blank(c: char) -> bool {
    is_space(c) || ('\x1c' <= c && c <= '\x1f')
}

/// Whether a character is white space or an ASCII separator.
pub fn is_python_space(character: char) -> (result: bool)
    ensures
        result == is_blank(character),
{
    whitespace(character) || ('\x1c' <= character && character <= '\x1f')
}

/// The first character at or behind a position that is not blank.
pub open spec fn next_visible(s: Seq<char>, at: int) -> Option<char>
    decreases s.len() - at,
{
    if at < 0 || at >= s.len() {
        None
    } else if is_blank(s[at]) {
        next_visible(s, at + 1)
    } else {
        Some(s[at])
    }
}

fn find_visible(s: &[char], at: usize) -> (result: Option<char>)
    ensures
        result == next_visible(s@, at as int),
{
    let mut i: usize = at;
    while i < s.len()
        invariant
            at <= i,
            next_visible(s@, at as int) == next_visible(s@, i as int),
        decreases s@.len() - i,
    {
        if !is_python_space(s[i]) {
            return Some(s[i]);
        }
        i = i + 1;
    }
    None
}

/// Whether the comma at a position stands before a closing bracket.
pub open spec fn is_trailing(s: Seq<char>, at: int) -> bool {
    s[at] == ',' && (next_visible(s, at + 1) == Some('}') || next_visible(s, at + 1) == Some(']'))
}

/// A text from a position on without its trailing commas, behind what was kept
/// before. Commas in strings stay.
pub open spec fn untrailed(s: Seq<char>, at: int, place: Place, kept: Seq<char>) -> Seq<char>
    decreases s.len() - at,
{
    if at < 0 || at >= s.len() {
        kept
    } else if place == Place::Plain && is_trailing(s, at) {
        untrailed(s, at + 1, place, kept)
    } else {
        untrailed(s, at + 1, place_after(place, s[at]), kept.push(s[at]))
    }
}

/// Removes the commas that stand before a closing bracket. A comma at the very
/// end of the text is kept.
pub fn strip_trailing_commas(source: &str) -> (result: String)
    ensures
        result@ == untrailed(source@, 0, Place::Plain, seq![]),
{
    let s = chars_of(source);
    let mut kept: Vec<char> = Vec::new();
    let mut place = Place::Plain;
    let mut at: usize = 0;
    assert(kept@ =~= seq![]);
    while at < s.len()
        invariant
            at <= s@.len(),
            s@ == source@,
            untrailed(source@, 0, Place::Plain, seq![]) == untrailed(
                s@,
                at as int,
                place,
                kept@,
            ),
        decreases s@.len() - at,
    {
        let c: char = s[at];
        let trailing = if place == Place::Plain && c == ',' {
            match find_visible(&s, at + 1) {
                Some(next) => next == '}' || next == ']',
                None => false,
            }
        } else {
            false
        };
        if !trailing {
            place = next_place(place, c);
            kept.push(c);
        }
        at = at + 1;
    }
    string_of(&kept)
}

/// Whether a text is free of comments and trailing commas from a position on.
pub open spec fn is_strict(s: Seq<char>, at: int, place: Place) -> bool
    decreases s.len() - at,
{
    at < 0 || at >= s.len() || {
        &&& place == Place::Plain ==> !(s[at] == '/' && (stands_at(s, at + 1, '/') || stands_at(
            s,
            at + 1,
            '*',
        ))) && !is_trailing(s, at)
        &&& is_strict(s, at + 1, place_after(place, s[at]))
    }
}

proof fn lemma_strict_is_kept(s: Seq<char>, at: int, place: Place, kept: Seq<char>)
    requires
        0 <= at <= s.len(),
        place == Place::Plain || place == Place::Text || place == Place::Escape,
        is_strict(s, at, place),
    ensures
        uncommented(s, at, place, kept) == Some(kept + s.skip(at)),
        untrailed(s, at, place, kept) == kept + s.skip(at),
    decreases s.len() - at,
{
    if at < s.len() {
        lemma_strict_is_kept(s, at + 1, place_after(place, s[at]), kept.push(s[at]));
        assert(kept.push(s[at]) + s.skip(at + 1) =~= kept + s.skip(at));
    } else {
        assert(kept + s.skip(at) =~= kept);
    }
}

/// A text without comments and trailing commas is read as it is, whatever its
/// strings hold.
pub proof fn strict_text_is_kept(source: Seq<char>, name: Seq<char>)
    requires
        is_strict(source, 0, Place::Plain),
    ensures
        uncommented(source, 0, Place::Plain, seq![]) == Some(source),
        untrailed(source, 0, Place::Plain, seq![]) == source,
        loaded(source, name) == accepted(json_document(source), name),
{
    lemma_strict_is_kept(source, 0, Place::Plain, seq![]);
    assert(seq![] + source.skip(0) =~= source);
}

proof fn lemma_visible_before_line_end(s: Seq<char>, at: int)
    requires
        0 <= at,
    ensures
        next_visible(s.push('\n'), at) == next_visible(s, at),
    decreases s.len() - at,
{
    if at < s.len() {
        lemma_visible_before_line_end(s, at + 1);
    } else if at == s.len() {
        assert(next_visible(s.push('\n'), at + 1) is None);
    }
}

/// A line end behind a text without comments and trailing commas brings in none.
pub proof fn lemma_strict_line_end(s: Seq<char>, at: int, place: Place)
    requires
        0 <= at <= s.len(),
        is_strict(s, at, place),
    ensures
        is_strict(s.push('\n'), at, place),
    decreases s.len() - at,
{
    let whole = s.push('\n');
    if at < s.len() {
        lemma_visible_before_line_end(s, at + 1);
        lemma_strict_line_end(s, at + 1, place_after(place, s[at]));
    } else {
        assert(is_strict(whole, at + 1, place_after(place, whole[at])));
    }
}

/// The value in a document, or the complaint about it.
pub open spec fn accepted(document: Result<JsonView, Seq<char>>, name: Seq<char>) -> Result<
    JsonView,
    Seq<char>,
> {
    match document {
        Ok(value) => Ok(value),
        Err(message) => Err("cannot parse "@ + name + ": "@ + message),
    }
}

/// The value in JSON with comments and trailing commas.
pub open spec fn loaded(source: Seq<char>, name: Seq<char>) -> Result<JsonView, Seq<char>> {
    match uncommented(source, 0, Place::Plain, seq![]) {
        Some(text) => accepted(
            json_document(untrailed(text, 0, Place::Plain, seq![])),
            name,
        ),
        None => Err("unterminated block comment in JSONC"@),
    }
}

/// The content of a result that is a value.
pub open spec fn value_outcome(result: Result<Json, BridgeError>) -> Result<JsonView, Seq<char>> {
    match result {
        Ok(value) => Ok(value@),
        Err(error) => Err(error@),
    }
}

/// Takes the value of a document that was parsed.
pub fn accept(document: Result<Json, String>, source_name: &str) -> (result: Result<
    Json,
    BridgeError,
>)
    ensures
        value_outcome(result) == accepted(
            match document {
                Ok(value) => Ok(value@),
                Err(message) => Err(message@),
            },
            source_name@,
        ),
{
    match document {
        Ok(value) => Ok(value),
        Err(message) => Err(BridgeError(concat4("cannot parse ", source_name, ": ", &message))),
    }
}

/// Reads JSON with comments and trailing commas.
pub fn loads(source: &str, source_name: &str) -> (result: Result<Json, BridgeError>)
    ensures
        value_outcome(result) == loaded(source@, source_name@),
{
    match strip_comments(source) {
        Ok(text) => accept(parse_json(&strip_trailing_commas(&text)), source_name),
        Err(error) => Err(error),
    }
}

/// A text without the mark that says that it is UTF-8.
pub open spec fn without_mark(text: Seq<char>) -> Seq<char> {
    if text.len() > 0 && text[0] == '\u{feff}' {
        text.skip(1)
    } else {
        text
    }
}

/// The value in a file, from what reading the file gave: its bytes, or the error.
pub open spec fn file_loaded(content: Result<Vec<u8>, String>, name: Seq<char>) -> Result<
    JsonView,
    Seq<char>,
> {
    match content {
        Ok(bytes) => if valid_utf8(bytes@) {
            loaded(without_mark(decode_utf8(bytes@)), name)
        } else {
            Err("cannot read "@ + name + ": "@ + utf8_complaint(bytes@))
        },
        Err(error) => Err("cannot read "@ + name + ": "@ + error@),
    }
}

/// Reads the value in a file, from what reading the file gave.
pub fn load(content: &Result<Vec<u8>, String>, name: &str) -> (result: Result<Json, BridgeError>)
    ensures
        value_outcome(result) == file_loaded(*content, name@),
{
    match content {
        Ok(bytes) => match decode_utf8_text(bytes) {
            Ok(text) => {
                let chars = chars_of(&text);
                if chars.len() > 0 && chars[0] == '\u{feff}' {
                    let rest = copy_range(&chars, 1, chars.len());
                    assert(rest@ =~= text@.skip(1));
                    loads(&string_of(&rest), name)
                } else {
                    loads(&text, name)
                }
            },
            Err(complaint) => Err(BridgeError(concat4("cannot read ", name, ": ", &complaint))),
        },
        Err(error) => Err(BridgeError(concat4("cannot read ", name, ": ", error))),
    }
}

}
