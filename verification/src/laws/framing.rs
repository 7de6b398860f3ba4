//! How messages are cut out of the stream of the debug adapter.

use vstd::prelude::*;
use vstd::string::*;
use vstd::utf8::*;

use crate::dap::protocol::{
    announced, ascii_chars, fed, is_ascii_bytes, length_in, length_value, message_bytes,
    position_from, separator, Fed,
};
use crate::json::{json_bytes, json_document, JsonView};
use crate::laws::text::{is_blank_text, the_middle_stays};
use crate::pycompat::decimal_value;
use crate::text::{
    decimal_round_trip, decimal_text, is_space, lemma_first_at, lemma_without_absent, occurs_at,
    split_from, split_text, trimmed, uppercase,
};

verus! {

/// Whether the end of a header stands at a position: an empty line.
pub open spec fn ends_header(data: Seq<u8>, at: int) -> bool {
    &&& 0 <= at
    &&& at + 4 <= data.len()
    &&& data[at] == 13
    &&& data[at + 1] == 10
    &&& data[at + 2] == 13
    &&& data[at + 3] == 10
}

proof fn lemma_separator_at(data: Seq<u8>, at: int)
    requires
        0 <= at,
        at + 4 <= data.len(),
    ensures
        ends_header(data, at) <==> data.subrange(at, at + 4) == separator(),
{
    let part = data.subrange(at, at + 4);
    if ends_header(data, at) {
        assert(part =~= separator());
    }
    if part == separator() {
        assert(data[at] == part[0]);
        assert(data[at + 1] == part[1]);
        assert(data[at + 2] == part[2]);
        assert(data[at + 3] == part[3]);
    }
}

proof fn lemma_no_end(data: Seq<u8>, at: int)
    requires
        0 <= at,
        forall|i: int| !#[trigger] ends_header(data, i),
    ensures
        position_from(data, separator(), at) == -1,
    decreases data.len() + 1 - at,
{
    if at + 4 <= data.len() {
        lemma_separator_at(data, at);
        assert(!ends_header(data, at));
        lemma_no_end(data, at + 1);
    }
}

proof fn lemma_end_at(data: Seq<u8>, at: int, hit: int)
    requires
        0 <= at <= hit,
        ends_header(data, hit),
        forall|i: int| at <= i < hit ==> !#[trigger] ends_header(data, i),
    ensures
        position_from(data, separator(), at) == hit,
    decreases hit - at,
{
    lemma_separator_at(data, at);
    if at < hit {
        assert(!ends_header(data, at));
        lemma_end_at(data, at + 1, hit);
    }
}

/// As long as no empty line has come everything is kept, and it is an error exactly
/// if that is more than a header may have.
pub proof fn headers_are_waited_for(data: Seq<u8>, max_header: nat, max_message: nat)
    requires
        forall|i: int| !#[trigger] ends_header(data, i),
    ensures
        fed(data, max_header, max_message).buffer == data,
        fed(data, max_header, max_message).messages.len() == 0,
        fed(data, max_header, max_message).error is Some <==> data.len() > max_header,
{
    lemma_no_end(data, 0);
}

/// A header, its end, a payload and what follows.
pub open spec fn framed(header: Seq<u8>, payload: Seq<u8>, rest: Seq<u8>) -> Seq<u8> {
    header + seq![13u8, 10, 13, 10] + payload + rest
}

/// Behind a header that announces a length, that many bytes are a message: an object
/// is handed out and what follows is read on; anything else is an error. With fewer
/// bytes everything is kept. A header that is too long, or announces nothing, is an
/// error.
pub proof fn announced_bytes_are_a_message(
    header: Seq<u8>,
    payload: Seq<u8>,
    rest: Seq<u8>,
    max_header: nat,
    max_message: nat,
)
    requires
        forall|i: int|
            0 <= i < header.len() ==> !#[trigger] ends_header(framed(header, payload, rest), i),
    ensures
        ({
            let data = framed(header, payload, rest);
            let result = fed(data, max_header, max_message);
            let next = fed(rest, max_header, max_message);
            &&& header.len() > max_header ==> result.error is Some && result.messages.len() == 0
            &&& header.len() <= max_header ==> match announced(header, max_message) {
                Err(message) => result.error == Some(message) && result.messages.len() == 0,
                Ok(length) => {
                    &&& length == payload.len() && valid_utf8(payload) ==> match json_document(
                        decode_utf8(payload),
                    ) {
                        Ok(JsonView::Object(members)) => result == (Fed {
                            messages: seq![members] + next.messages,
                            ..next
                        }),
                        _ => result.error is Some && result.messages.len() == 0 && result.buffer
                            == rest,
                    }
                    &&& length == payload.len() && !valid_utf8(payload) ==> result.error is Some
                        && result.messages.len() == 0
                    &&& length > payload.len() + rest.len() ==> result.buffer == data
                        && result.messages.len() == 0 && result.error is None
                },
            }
        }),
{
    let data = framed(header, payload, rest);
    let n = header.len() as int;
    assert(ends_header(data, n));
    lemma_end_at(data, 0, n);
    assert(data.take(n) =~= header);
    if let Ok(length) = announced(header, max_message) {
        if length == payload.len() {
            assert(data.subrange(n + 4, n + 4 + length) =~= payload);
            assert(data.skip(n + 4 + length) =~= rest);
        }
    }
}

proof fn lemma_split_behind(s: Seq<char>, separator: Seq<char>, start: int, at: int, from: int)
    requires
        0 <= from <= start <= at,
        from <= s.len(),
        start <= s.len(),
        separator.len() > 0,
    ensures
        split_from(s, separator, start, at) == split_from(
            s.skip(from),
            separator,
            start - from,
            at - from,
        ),
    decreases s.len() - at,
{
    let t = s.skip(from);
    if at + separator.len() <= s.len() {
        assert(s.subrange(at, at + separator.len()) =~= t.subrange(
            at - from,
            at - from + separator.len(),
        ));
        if occurs_at(s, separator, at) {
            lemma_split_behind(s, separator, at + separator.len(), at + separator.len(), from);
            assert(s.subrange(start, at) =~= t.subrange(start - from, at - from));
        } else {
            lemma_split_behind(s, separator, start, at + 1, from);
        }
    } else {
        assert(s.subrange(start, s.len() as int) =~= t.subrange(start - from, t.len() as int));
    }
}

/// A text is split at the first separator behind a piece that lacks its first character.
pub proof fn lemma_split_first(first: Seq<char>, separator: Seq<char>, rest: Seq<char>, at: int)
    requires
        0 <= at <= first.len(),
        separator.len() > 0,
        !first.contains(separator[0]),
    ensures
        split_from(first + separator + rest, separator, 0, at) == seq![first] + split_text(
            rest,
            separator,
        ),
    decreases first.len() - at,
{
    let s = first + separator + rest;
    if at < first.len() {
        assert(s.subrange(at, at + separator.len())[0] == first[at]);
        assert(first.contains(first[at]));
        lemma_split_first(first, separator, rest, at + 1);
    } else {
        let next = at + separator.len();
        assert(s.subrange(at, next) =~= separator);
        assert(s.subrange(0, at) =~= first);
        lemma_split_behind(s, separator, next, next, next);
        assert(s.skip(next) =~= rest);
    }
}

proof fn lemma_lengths(lines: Seq<Seq<char>>, at: int)
    requires
        1 <= at <= lines.len(),
    ensures
        length_in(lines, at) == length_in(lines.skip(1), at - 1),
    decreases lines.len() - at,
{
    if at < lines.len() {
        assert(lines.skip(1)[at - 1] == lines[at]);
        lemma_lengths(lines, at + 1);
    }
}

/// Fields of a header that do not give the length are passed over.
pub proof fn other_fields_are_passed_over(first: Seq<u8>, rest: Seq<u8>, max_message: nat)
    requires
        is_ascii_bytes(first),
        !first.contains(13u8),
        length_value(ascii_chars(first)) is None,
    ensures
        announced(first + seq![13u8, 10] + rest, max_message) == announced(rest, max_message),
{
    let all = first + seq![13u8, 10] + rest;
    lemma_header_lines(first, rest);
    if is_ascii_bytes(rest) {
        let lines = split_text(ascii_chars(all), seq!['\r', '\n']);
        let more = split_text(ascii_chars(rest), seq!['\r', '\n']);
        assert(lines[0] == ascii_chars(first));
        assert(lines.skip(1) =~= more);
        assert(length_in(lines, 0) == length_in(lines, 1));
        lemma_lengths(lines, 1);
    }
}

proof fn lemma_header_lines(first: Seq<u8>, rest: Seq<u8>)
    requires
        is_ascii_bytes(first),
        !first.contains(13u8),
    ensures
        ({
            let all = first + seq![13u8, 10] + rest;
            &&& is_ascii_bytes(all) == is_ascii_bytes(rest)
            &&& is_ascii_bytes(rest) ==> split_text(ascii_chars(all), seq!['\r', '\n']) == seq![
                ascii_chars(first),
            ] + split_text(ascii_chars(rest), seq!['\r', '\n'])
        }),
{
    let all = first + seq![13u8, 10] + rest;
    let n = first.len() as int;
    if is_ascii_bytes(rest) {
        assert forall|i: int| 0 <= i < all.len() implies #[trigger] all[i] < 128 by {
            if i < n {
                assert(all[i] == first[i]);
            } else if i >= n + 2 {
                assert(all[i] == rest[i - n - 2]);
            }
        }
    }
    if is_ascii_bytes(all) {
        assert forall|i: int| 0 <= i < rest.len() implies #[trigger] rest[i] < 128 by {
            assert(rest[i] == all[i + n + 2]);
        }
    }
    let line = ascii_chars(first);
    assert(13u8 as char == '\r' && 10u8 as char == '\n');
    assert(ascii_chars(all) =~= line + seq!['\r', '\n'] + ascii_chars(rest));
    assert(!line.contains('\r')) by {
        if line.contains('\r') {
            let i = choose|i: int| 0 <= i < line.len() && line[i] == '\r';
            assert(first[i] as char == '\r');
            assert(first[i] == 13u8);
            assert(first.contains(13u8));
        }
    }
    lemma_split_first(line, seq!['\r', '\n'], ascii_chars(rest), 0);
}

/// The first field that gives the length counts: it is accepted exactly up to the
/// limit, and nothing that follows it matters.
pub proof fn the_first_length_counts(first: Seq<u8>, rest: Seq<u8>, n: nat, max_message: nat)
    requires
        is_ascii_bytes(first),
        !first.contains(13u8),
        is_ascii_bytes(rest),
        length_value(ascii_chars(first)) == Some(decimal_text(n)),
        n <= i64::MAX,
    ensures
        n <= max_message ==> announced(first + seq![13u8, 10] + rest, max_message) == Ok::<
            _,
            Seq<char>,
        >(n),
        n > max_message ==> announced(first + seq![13u8, 10] + rest, max_message) is Err,
{
    lemma_header_lines(first, rest);
    let lines = split_text(
        ascii_chars(first + seq![13u8, 10] + rest),
        seq!['\r', '\n'],
    );
    assert(lines[0] == ascii_chars(first));
    lemma_decimal(n);
}

proof fn lemma_decimal(n: nat)
    requires
        n <= i64::MAX,
    ensures
        decimal_value(decimal_text(n)) == Some(n as int),
{
    let d = decimal_text(n);
    decimal_round_trip(n);
    assert(d.len() > 0);
    assert('0' <= d[0] && d[0] <= '9');
    assert('0' <= d[d.len() - 1] && d[d.len() - 1] <= '9');
    assert(trimmed(d) == d) by {
        the_middle_stays(seq![], d, seq![]);
        assert(seq![] + d + seq![] =~= d);
    }
    lemma_without_absent(d, '_');
    assert forall|at: int| !occurs_at(d, seq!['_', '_'], at) by {
        if occurs_at(d, seq!['_', '_'], at) {
            assert(d.subrange(at, at + 2)[0] == d[at]);
        }
    }
}

/// The length is what follows the colon behind the name of its field, whatever the
/// case of the name and the white space around both.
pub proof fn lengths_follow_their_name(
    a: Seq<char>,
    name: Seq<char>,
    b: Seq<char>,
    c: Seq<char>,
    value: Seq<char>,
    d: Seq<char>,
)
    requires
        is_blank_text(a),
        is_blank_text(b),
        is_blank_text(c),
        is_blank_text(d),
        name.len() > 0 ==> !is_space(name[0]) && !is_space(name.last()),
        value.len() > 0 ==> !is_space(value[0]) && !is_space(value.last()),
        !name.contains(':'),
    ensures
        uppercase(name) == "CONTENT-LENGTH"@ ==> length_value(
            a + name + b + seq![':'] + (c + value + d),
        ) == Some(value),
        uppercase(name) != "CONTENT-LENGTH"@ ==> length_value(
            a + name + b + seq![':'] + (c + value + d),
        ) is None,
{
    let head = a + name + b;
    let tail = c + value + d;
    let line = head + seq![':'] + tail;
    let n = head.len() as int;
    assert(line[n] == ':');
    assert forall|i: int| 0 <= i < n implies #[trigger] line[i] != ':' by {
        assert(line[i] == head[i]);
        if i < a.len() {
            assert(head[i] == a[i]);
            assert(is_space(a[i]));
        } else if i < a.len() + name.len() {
            assert(head[i] == name[i - a.len()]);
            assert(name.contains(name[i - a.len()]));
        } else {
            assert(head[i] == b[i - a.len() - name.len()]);
            assert(is_space(b[i - a.len() - name.len()]));
        }
    }
    lemma_first_at(line, ':', 0, n);
    assert(line.take(n) =~= head);
    assert(line.skip(n + 1) =~= tail);
    the_middle_stays(a, name, b);
    the_middle_stays(c, value, d);
}

/// A message is sent exactly if it can be written down in sixteen mebibytes.
pub proof fn long_messages_are_not_sent(members: Seq<(Seq<char>, JsonView)>)
    ensures
        message_bytes(members) is Ok <==> (json_bytes(JsonView::Object(members)) matches Ok(body)
            && body.len() <= 16 * 1024 * 1024),
{
}

}
