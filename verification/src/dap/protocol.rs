//! Framing of Debug Adapter Protocol messages.

use vstd::prelude::*;
use vstd::string::*;
use vstd::utf8::*;

use crate::bytes::{copy_bytes, push_bytes};
use crate::json::{
    copy_members, is_plain, json_bytes, json_document, member_views, nesting, parse_json,
    write_json, Json, JsonView, Message,
};
use crate::pycompat::{decimal_value, parse_decimal};
use crate::text::{
    char_views, concat2, concat3, copy_range, decimal, decimal_round_trip, decimal_text,
    decode_utf8_text, find_from, first_from, integer, integer_text, is_space, lemma_first_at,
    lemma_split_absent, lemma_without_absent, occurs_at, same, split, split_text, string_of,
    to_uppercase, trim, trimmed, uppercase, utf8_complaint,
};

verus! {

/// The longest header that is accepted.
pub const MAX_HEADER_BYTES: usize = 16384;

/// The longest message that is accepted or sent.
pub const MAX_MESSAGE_BYTES: usize = 16777216;

/// A violation of the protocol.
#[derive(Debug, Clone, PartialEq, Eq)]
pub struct DapProtocolError(pub String);

impl View for DapProtocolError {
    type V = Seq<char>;

    open spec fn view(&self) -> Seq<char> {
        self.0@
    }
}

/// The header before a message of some length.
pub open spec fn header_text(length: nat) -> Seq<char> {
    "Content-Length: "@ + decimal_text(length) + "\r\n\r\n"@
}

/// A message on the wire: its length, and its members as compact JSON.
pub open spec fn message_bytes(members: Seq<(Seq<char>, JsonView)>) -> Result<
    Seq<u8>,
    Seq<char>,
> {
    match json_bytes(JsonView::Object(members)) {
        Ok(body) => if body.len() > MAX_MESSAGE_BYTES {
            Err("DAP message exceeds "@ + decimal_text(MAX_MESSAGE_BYTES as nat) + " bytes"@)
        } else {
            Ok(encode_utf8(header_text(body.len())) + body)
        },
        Err(message) => Err("cannot encode DAP message: "@ + message),
    }
}

/// Puts a length header before the JSON that was written for a message.
pub fn frame_message(body: Result<Vec<u8>, String>) -> (result: Result<Vec<u8>, DapProtocolError>)
    ensures
        match body {
            Ok(body) => if body@.len() > MAX_MESSAGE_BYTES {
                result matches Err(error) && error@ == "DAP message exceeds "@ + decimal_text(
                    MAX_MESSAGE_BYTES as nat,
                ) + " bytes"@
            } else {
                result matches Ok(frame) && frame@ == encode_utf8(header_text(body@.len())) + body@
            },
            Err(message) => result matches Err(error) && error@ == "cannot encode DAP message: "@
                + message@,
        },
{
    match body {
        Ok(body) => {
            if body.len() > MAX_MESSAGE_BYTES {
                return Err(
                    DapProtocolError(
                        concat3(
                            "DAP message exceeds ",
                            &decimal(MAX_MESSAGE_BYTES as u128),
                            " bytes",
                        ),
                    ),
                );
            }
            let header = concat3("Content-Length: ", &decimal(body.len() as u128), "\r\n\r\n");
            let mut frame: Vec<u8> = Vec::new();
            push_bytes(&mut frame, header.as_str().as_bytes());
            push_bytes(&mut frame, &body);
            assert(frame@ =~= encode_utf8(header_text(body@.len())) + body@);
            Ok(frame)
        },
        Err(message) => Err(DapProtocolError(concat2("cannot encode DAP message: ", &message))),
    }
}

/// Whether a decoder takes a message out of bytes, and nothing else.
pub open spec fn is_frame_of(bytes: Seq<u8>, message: Seq<(Seq<char>, JsonView)>) -> bool {
    fed(bytes, MAX_HEADER_BYTES as nat, MAX_MESSAGE_BYTES as nat) == (Fed {
        buffer: seq![],
        messages: seq![message],
        error: None,
    })
}

/// Encodes a message as compact JSON behind a length header. A decoder gives the
/// message back.
pub fn encode_message(message: &Message) -> (result: Result<Vec<u8>, DapProtocolError>)
    ensures
        match result {
            Ok(frame) => message_bytes(member_views(message@)) == Ok::<_, Seq<char>>(frame@),
            Err(error) => message_bytes(member_views(message@)) == Err::<Seq<u8>, _>(error@),
        },
        is_plain(JsonView::Object(member_views(message@))) && nesting(
            JsonView::Object(member_views(message@)),
        ) <= 127 ==> match result {
            Ok(frame) => is_frame_of(frame@, member_views(message@)),
            Err(error) => json_bytes(JsonView::Object(member_views(message@))) matches Ok(body)
                && body.len() > MAX_MESSAGE_BYTES,
        },
{
    let value = Json::Object(copy_members(message));
    let body = write_json(&value);
    proof {
        if is_plain(value@) && nesting(value@) <= 127 && body->Ok_0@.len() <= MAX_MESSAGE_BYTES {
            message_round_trip(member_views(message@), body->Ok_0@);
        }
    }
    frame_message(body)
}

/// The four bytes that end a header.
pub open spec fn separator() -> Seq<u8> {
    seq![13u8, 10u8, 13u8, 10u8]
}

/// The first position at or behind `at` where a pattern stands, or -1.
pub open spec fn position_from(data: Seq<u8>, pattern: Seq<u8>, at: int) -> int
    decreases data.len() + 1 - at,
{
    if at < 0 || at + pattern.len() > data.len() {
        -1
    } else if data.subrange(at, at + pattern.len()) == pattern {
        at
    } else {
        position_from(data, pattern, at + 1)
    }
}

/// The first position where a pattern stands.
pub fn find(haystack: &[u8], needle: &[u8]) -> (result: Option<usize>)
    requires
        needle@.len() > 0,
    ensures
        match result {
            Some(at) => position_from(haystack@, needle@, 0) == at && at + needle@.len()
                <= haystack@.len(),
            None => position_from(haystack@, needle@, 0) == -1,
        },
{
    if needle.len() > haystack.len() {
        return None;
    }
    let last: usize = haystack.len() - needle.len();
    let mut at: usize = 0;
    while at <= last
        invariant
            at <= last + 1,
            last + needle@.len() == haystack@.len(),
            haystack@.len() <= usize::MAX,
            needle@.len() > 0,
            position_from(haystack@, needle@, 0) == position_from(
                haystack@,
                needle@,
                at as int,
            ),
        decreases last + 1 - at,
    {
        let mut i: usize = 0;
        while i < needle.len() && haystack[at + i] == needle[i]
            invariant
                i <= needle@.len(),
                at <= last,
                last + needle@.len() == haystack@.len(),
                haystack@.len() <= usize::MAX,
                forall|j: int| 0 <= j < i ==> haystack@[at + j] == needle@[j],
            decreases needle@.len() - i,
        {
            i = i + 1;
        }
        let ghost window = haystack@.subrange(at as int, at + needle@.len());
        if i == needle.len() {
            assert(window =~= needle@);
            return Some(at);
        }
        assert(window[i as int] != needle@[i as int]);
        at = at + 1;
    }
    None
}

/// Whether every byte is ASCII.
pub open spec fn is_ascii_bytes(data: Seq<u8>) -> bool {
    forall|i: int| 0 <= i < data.len() ==> #[trigger] data[i] < 128
}

/// The characters of ASCII bytes.
pub open spec fn ascii_chars(data: Seq<u8>) -> Seq<char> {
    data.map_values(|b: u8| b as char)
}

fn ascii_text(data: &[u8]) -> (result: Option<Vec<char>>)
    ensures
        match result {
            Some(chars) => is_ascii_bytes(data@) && chars@ == ascii_chars(data@),
            None => !is_ascii_bytes(data@),
        },
{
    let mut chars: Vec<char> = Vec::new();
    let mut i: usize = 0;
    while i < data.len()
        invariant
            i <= data@.len(),
            chars@ == ascii_chars(data@.take(i as int)),
            forall|j: int| 0 <= j < i ==> #[trigger] data@[j] < 128,
        decreases data@.len() - i,
    {
        if data[i] >= 128 {
            return None;
        }
        chars.push(data[i] as char);
        assert(ascii_chars(data@.take(i as int + 1)) =~= ascii_chars(data@.take(i as int)).push(
            data@[i as int] as char,
        ));
        i = i + 1;
    }
    assert(data@.take(i as int) =~= data@);
    Some(chars)
}

/// The value that a header line gives for the length, if it is about that.
pub open spec fn length_value(line: Seq<char>) -> Option<Seq<char>> {
    let colon = first_from(line, ':', 0);
    if colon >= 0 && uppercase(trimmed(line.take(colon))) == "CONTENT-LENGTH"@ {
        Some(trimmed(line.skip(colon + 1)))
    } else {
        None
    }
}

/// The length that the first line about it gives, from line `at` on.
pub open spec fn length_in(lines: Seq<Seq<char>>, at: int) -> Result<int, Seq<char>>
    decreases lines.len() - at,
{
    if at < 0 || at >= lines.len() {
        Err("DAP message has no Content-Length"@)
    } else {
        match length_value(lines[at]) {
            Some(value) => match decimal_value(value) {
                Some(length) => Ok(length),
                None => Err("invalid DAP Content-Length: "@ + value),
            },
            None => length_in(lines, at + 1),
        }
    }
}

/// The length that a header announces.
pub open spec fn announced(header: Seq<u8>, max_message_bytes: nat) -> Result<nat, Seq<char>> {
    if !is_ascii_bytes(header) {
        Err("DAP header is not ASCII"@)
    } else {
        match length_in(split_text(ascii_chars(header), seq!['\r', '\n']), 0) {
            Ok(length) => if length < 0 || length > max_message_bytes {
                Err("invalid DAP message length: "@ + integer_text(length))
            } else {
                Ok(length as nat)
            },
            Err(message) => Err(message),
        }
    }
}

/// The members of the object that a payload is.
pub open spec fn payload_members(payload: Seq<u8>) -> Result<
    Seq<(Seq<char>, JsonView)>,
    Seq<char>,
> {
    if !valid_utf8(payload) {
        Err("invalid DAP JSON: "@ + utf8_complaint(payload))
    } else {
        document_members(json_document(decode_utf8(payload)))
    }
}

/// The members of the object that was read, if one was.
pub open spec fn document_members(document: Result<JsonView, Seq<char>>) -> Result<
    Seq<(Seq<char>, JsonView)>,
    Seq<char>,
> {
    match document {
        Ok(JsonView::Object(members)) => Ok(members),
        Ok(_) => Err("DAP payload must be a JSON object"@),
        Err(message) => Err("invalid DAP JSON: "@ + message),
    }
}

/// The messages found in a buffer and what is left of it, or the complaint that
/// ended the search.
pub ghost struct Fed {
    pub buffer: Seq<u8>,
    pub messages: Seq<Seq<(Seq<char>, JsonView)>>,
    pub error: Option<Seq<char>>,
}

/// Takes complete messages off the front of a buffer.
pub open spec fn fed(buffer: Seq<u8>, max_header_bytes: nat, max_message_bytes: nat) -> Fed
    decreases buffer.len(),
{
    let at = position_from(buffer, separator(), 0);
    if at < 0 {
        Fed {
            buffer,
            messages: seq![],
            error: if buffer.len() > max_header_bytes {
                Some("DAP header is too large"@)
            } else {
                None
            },
        }
    } else if at > max_header_bytes {
        Fed { buffer, messages: seq![], error: Some("DAP header is too large"@) }
    } else {
        match announced(buffer.take(at), max_message_bytes) {
            Err(message) => Fed { buffer, messages: seq![], error: Some(message) },
            Ok(length) => if buffer.len() < at + 4 + length {
                Fed { buffer, messages: seq![], error: None }
            } else {
                let rest = buffer.skip(at + 4 + length);
                match payload_members(buffer.subrange(at + 4, at + 4 + length)) {
                    Err(message) => Fed { buffer: rest, messages: seq![], error: Some(message) },
                    Ok(members) => {
                        let next = fed(rest, max_header_bytes, max_message_bytes);
                        Fed { messages: seq![members] + next.messages, ..next }
                    },
                }
            },
        }
    }
}

/// The contents of messages.
pub open spec fn message_views(messages: Seq<Message>) -> Seq<Seq<(Seq<char>, JsonView)>> {
    messages.map_values(|message: Message| member_views(message@))
}

/// Gathers bytes and hands out complete messages.
#[derive(Debug)]
pub struct DapDecoder {
    pub buffer: Vec<u8>,
    pub max_header_bytes: usize,
    pub max_message_bytes: usize,
}

impl Default for DapDecoder {
    fn default() -> (decoder: DapDecoder)
        ensures
            decoder.buffer@ == Seq::<u8>::empty(),
            decoder.max_header_bytes == MAX_HEADER_BYTES,
            decoder.max_message_bytes == MAX_MESSAGE_BYTES,
    {
        DapDecoder::new(MAX_HEADER_BYTES, MAX_MESSAGE_BYTES)
    }
}

fn protocol_error(text: &str) -> (error: DapProtocolError)
    ensures
        error@ == text@,
{
    DapProtocolError(text.to_owned())
}

/// Looks for the length in the lines of a header.
fn find_length(lines: &Vec<Vec<char>>) -> (result: Result<i64, DapProtocolError>)
    ensures
        match result {
            Ok(length) => length_in(char_views(lines@), 0) == Ok::<_, Seq<char>>(length as int),
            Err(error) => length_in(char_views(lines@), 0) == Err::<int, _>(error@),
        },
{
    let ghost views = char_views(lines@);
    let mut i: usize = 0;
    while i < lines.len()
        invariant
            i <= lines@.len(),
            views == char_views(lines@),
            length_in(views, 0) == length_in(views, i as int),
        decreases lines@.len() - i,
    {
        assert(views[i as int] == lines@[i as int]@);
        let line = &lines[i];
        match find_from(line, ':', 0) {
            Some(colon) => {
                let name = copy_range(line, 0, colon);
                assert(name@ =~= line@.take(colon as int));
                let length: usize = line.len();
                let value = copy_range(line, colon + 1, length);
                assert(value@ =~= line@.skip(colon + 1));
                if same(&string_of(&to_uppercase(&trim(&name))), "CONTENT-LENGTH") {
                    let text = string_of(&trim(&value));
                    return match parse_decimal(&text) {
                        Some(length) => Ok(length),
                        None => Err(
                            DapProtocolError(concat2("invalid DAP Content-Length: ", &text)),
                        ),
                    };
                }
            },
            None => {},
        }
        i = i + 1;
    }
    Err(protocol_error("DAP message has no Content-Length"))
}

fn read_header(header: &[u8], max_message_bytes: usize) -> (result: Result<
    usize,
    DapProtocolError,
>)
    ensures
        match result {
            Ok(length) => announced(header@, max_message_bytes as nat) == Ok::<_, Seq<char>>(
                length as nat,
            ),
            Err(error) => announced(header@, max_message_bytes as nat) == Err::<nat, _>(error@),
        },
{
    match ascii_text(header) {
        None => Err(protocol_error("DAP header is not ASCII")),
        Some(chars) => {
            let line_end: [char; 2] = ['\r', '\n'];
            assert(line_end@ =~= seq!['\r', '\n']);
            match find_length(&split(&chars, &line_end)) {
                Err(error) => Err(error),
                Ok(length) => {
                    if length < 0 || length as u64 > max_message_bytes as u64 {
                        Err(
                            DapProtocolError(
                                concat2("invalid DAP message length: ", &integer(length as i128)),
                            ),
                        )
                    } else {
                        Ok(length as usize)
                    }
                },
            }
        },
    }
}

/// Takes the members of the object that was read, if one was.
pub fn take_members(document: Result<Json, String>) -> (result: Result<Message, DapProtocolError>)
    ensures
        ({
            let view = match document {
                Ok(value) => Ok(value@),
                Err(message) => Err(message@),
            };
            match result {
                Ok(message) => document_members(view) == Ok::<_, Seq<char>>(
                    member_views(message@),
                ),
                Err(error) => document_members(view) == Err::<Seq<(Seq<char>, JsonView)>, _>(
                    error@,
                ),
            }
        }),
{
    match document {
        Ok(Json::Object(members)) => Ok(members),
        Ok(_) => Err(protocol_error("DAP payload must be a JSON object")),
        Err(message) => Err(DapProtocolError(concat2("invalid DAP JSON: ", &message))),
    }
}

fn read_payload(payload: &[u8]) -> (result: Result<Message, DapProtocolError>)
    ensures
        match result {
            Ok(message) => payload_members(payload@) == Ok::<_, Seq<char>>(member_views(message@)),
            Err(error) => payload_members(payload@) == Err::<Seq<(Seq<char>, JsonView)>, _>(
                error@,
            ),
        },
{
    match decode_utf8_text(payload) {
        Ok(text) => take_members(parse_json(&text)),
        Err(complaint) => Err(DapProtocolError(concat2("invalid DAP JSON: ", &complaint))),
    }
}

impl DapDecoder {
    /// A decoder with limits of its own.
    pub fn new(max_header_bytes: usize, max_message_bytes: usize) -> (decoder: DapDecoder)
        ensures
            decoder.buffer@ == Seq::<u8>::empty(),
            decoder.max_header_bytes == max_header_bytes,
            decoder.max_message_bytes == max_message_bytes,
    {
        DapDecoder { buffer: Vec::new(), max_header_bytes, max_message_bytes }
    }

    /// Feeds received bytes and hands out the messages that are complete.
    pub fn feed(&mut self, chunk: &[u8]) -> (result: Result<Vec<Message>, DapProtocolError>)
        ensures
            final(self).max_header_bytes == old(self).max_header_bytes,
            final(self).max_message_bytes == old(self).max_message_bytes,
            ({
                let fed = fed(
                    old(self).buffer@ + chunk@,
                    old(self).max_header_bytes as nat,
                    old(self).max_message_bytes as nat,
                );
                &&& final(self).buffer@ == fed.buffer
                &&& match fed.error {
                    Some(message) => result matches Err(error) && error@ == message,
                    None => result matches Ok(messages) && message_views(messages@)
                        == fed.messages,
                }
            }),
    {
        let ghost goal = fed(
            self.buffer@ + chunk@,
            self.max_header_bytes as nat,
            self.max_message_bytes as nat,
        );
        push_bytes(&mut self.buffer, chunk);
        let mut messages: Vec<Message> = Vec::new();
        let mark: [u8; 4] = [13, 10, 13, 10];
        assert(mark@ =~= separator());
        assert(message_views(messages@) + goal.messages =~= goal.messages);
        loop
            invariant
                mark@ == separator(),
                self.max_header_bytes == old(self).max_header_bytes,
                self.max_message_bytes == old(self).max_message_bytes,
                goal == fed(
                    old(self).buffer@ + chunk@,
                    self.max_header_bytes as nat,
                    self.max_message_bytes as nat,
                ),
                ({
                    let now = fed(
                        self.buffer@,
                        self.max_header_bytes as nat,
                        self.max_message_bytes as nat,
                    );
                    &&& goal.buffer == now.buffer
                    &&& goal.error == now.error
                    &&& goal.messages == message_views(messages@) + now.messages
                }),
            decreases self.buffer@.len(),
        {
            let ghost before = self.buffer@;
            let ghost now = fed(
                self.buffer@,
                self.max_header_bytes as nat,
                self.max_message_bytes as nat,
            );
            let at: usize = match find(&self.buffer, &mark) {
                Some(at) => at,
                None => {
                    if self.buffer.len() > self.max_header_bytes {
                        return Err(protocol_error("DAP header is too large"));
                    }
                    assert(message_views(messages@) + now.messages =~= message_views(messages@));
                    return Ok(messages);
                },
            };
            if at > self.max_header_bytes {
                return Err(protocol_error("DAP header is too large"));
            }
            let header = copy_bytes(&self.buffer, 0, at);
            assert(header@ =~= before.take(at as int));
            let length: usize = match read_header(&header, self.max_message_bytes) {
                Ok(length) => length,
                Err(error) => {
                    return Err(error);
                },
            };
            if self.buffer.len() - at - 4 < length {
                assert(message_views(messages@) + now.messages =~= message_views(messages@));
                return Ok(messages);
            }
            let payload = copy_bytes(&self.buffer, at + 4, at + 4 + length);
            let rest = copy_bytes(&self.buffer, at + 4 + length, self.buffer.len());
            assert(rest@ =~= before.skip(at + 4 + length));
            self.buffer = rest;
            match read_payload(&payload) {
                Ok(message) => {
                    let ghost found = message_views(messages@);
                    messages.push(message);
                    assert(message_views(messages@) =~= found.push(member_views(message@)));
                    let ghost next = fed(
                        self.buffer@,
                        self.max_header_bytes as nat,
                        self.max_message_bytes as nat,
                    );
                    assert(found + now.messages =~= message_views(messages@) + next.messages);
                },
                Err(error) => {
                    return Err(error);
                },
            }
        }
    }
}

proof fn lemma_position_stays(data: Seq<u8>, more: Seq<u8>, pattern: Seq<u8>, at: int)
    requires
        0 <= at,
        position_from(data, pattern, at) >= 0,
    ensures
        position_from(data + more, pattern, at) == position_from(data, pattern, at),
        position_from(data, pattern, at) + pattern.len() <= data.len(),
    decreases data.len() + 1 - at,
{
    assert((data + more).subrange(at, at + pattern.len()) =~= data.subrange(
        at,
        at + pattern.len(),
    ));
    if data.subrange(at, at + pattern.len()) != pattern {
        lemma_position_stays(data, more, pattern, at + 1);
    }
}

/// How the stream is cut into reads does not matter: as long as nothing is wrong
/// with the first part, feeding two parts one after the other yields the messages
/// and leaves the buffer that feeding them at once does.
pub proof fn reads_may_be_split(
    first: Seq<u8>,
    second: Seq<u8>,
    max_header_bytes: nat,
    max_message_bytes: nat,
)
    requires
        fed(first, max_header_bytes, max_message_bytes).error is None,
    ensures
        ({
            let one = fed(first, max_header_bytes, max_message_bytes);
            let two = fed(one.buffer + second, max_header_bytes, max_message_bytes);
            fed(first + second, max_header_bytes, max_message_bytes) == (Fed {
                messages: one.messages + two.messages,
                ..two
            })
        }),
    decreases first.len(),
{
    let one = fed(first, max_header_bytes, max_message_bytes);
    let two = fed(one.buffer + second, max_header_bytes, max_message_bytes);
    let at = position_from(first, separator(), 0);
    if at < 0 {
        assert(one.messages + two.messages =~= two.messages);
    } else {
        let all = first + second;
        lemma_position_stays(first, second, separator(), 0);
        assert(all.take(at) =~= first.take(at));
        let length = announced(first.take(at), max_message_bytes)->Ok_0;
        if first.len() < at + 4 + length {
            assert(one.messages + two.messages =~= two.messages);
        } else {
            let rest = first.skip(at + 4 + length);
            assert(all.skip(at + 4 + length) =~= rest + second);
            assert(all.subrange(at + 4, at + 4 + length) =~= first.subrange(
                at + 4,
                at + 4 + length,
            ));
            let members = payload_members(first.subrange(at + 4, at + 4 + length))->Ok_0;
            reads_may_be_split(rest, second, max_header_bytes, max_message_bytes);
            let next = fed(rest, max_header_bytes, max_message_bytes);
            assert(seq![members] + (next.messages + two.messages) =~= (seq![members]
                + next.messages) + two.messages);
        }
    }
}

proof fn lemma_position_at(data: Seq<u8>, pattern: Seq<u8>, at: int, hit: int)
    requires
        0 <= at <= hit,
        pattern.len() > 0,
        hit + pattern.len() <= data.len(),
        data.subrange(hit, hit + pattern.len()) == pattern,
        forall|i: int| at <= i < hit ==> #[trigger] data[i] != pattern[0],
    ensures
        position_from(data, pattern, at) == hit,
    decreases hit - at,
{
    if at < hit {
        assert(data.subrange(at, at + pattern.len())[0] == data[at]);
        lemma_position_at(data, pattern, at + 1, hit);
    }
}

proof fn lemma_plain_decimal(n: nat)
    requires
        n <= i64::MAX,
    ensures
        decimal_value(decimal_text(n)) == Some(n as int),
        trimmed(decimal_text(n)) == decimal_text(n),
        trimmed(seq![' '] + decimal_text(n)) == decimal_text(n),
{
    let d = decimal_text(n);
    decimal_round_trip(n);
    assert(!is_space(d[0]));
    assert(!is_space(d.last()));
    lemma_without_absent(d, '_');
    assert forall|at: int| !occurs_at(d, seq!['_', '_'], at) by {
        if occurs_at(d, seq!['_', '_'], at) {
            assert(d.subrange(at, at + 2)[0] == d[at]);
        }
    }
    assert((seq![' '] + d).skip(1) =~= d);
    reveal_with_fuel(crate::text::trim_start, 3);
}

proof fn lemma_header(n: nat)
    requires
        n <= i64::MAX,
    ensures
        ({
            let line = "Content-Length: "@ + decimal_text(n);
            &&& is_ascii_chars(header_text(n))
            &&& line.len() + 4 == header_text(n).len()
            &&& header_text(n) == line + "\r\n\r\n"@
            &&& "\r\n\r\n"@.len() == 4
            &&& forall|i: int| 0 <= i < line.len() ==> #[trigger] line[i] != '\r'
            &&& length_value(line) == Some(decimal_text(n))
        }),
{
    let d = decimal_text(n);
    let line = "Content-Length: "@ + d;
    decimal_round_trip(n);
    reveal_strlit("Content-Length: ");
    reveal_strlit("\r\n\r\n");
    reveal_strlit("CONTENT-LENGTH");
    assert forall|i: int| 0 <= i < line.len() implies #[trigger] line[i] != '\r' by {
        if i >= 16 {
            assert(line[i] == d[i - 16]);
        }
    }
    assert forall|i: int| 0 <= i < header_text(n).len() implies '\0' <= #[trigger] header_text(n)[i]
        && header_text(n)[i] <= '\u{7f}' by {
        if 16 <= i < 16 + d.len() {
            assert(header_text(n)[i] == d[i - 16]);
        }
    }
    lemma_first_at(line, ':', 0, 14);
    let name = line.take(14);
    assert(name[0] == 'C');
    assert(name.last() == 'h');
    assert(trimmed(name) == name);
    assert(uppercase(name) =~= "CONTENT-LENGTH"@);
    lemma_plain_decimal(n);
    assert(line.skip(15) =~= seq![' '] + d);
}

/// What `encode_message` writes, a decoder hands out again: given the bytes of a
/// message that JSON gives back as that message, the decoder yields the message
/// and keeps nothing.
pub proof fn message_round_trip(members: Seq<(Seq<char>, JsonView)>, body: Seq<u8>)
    requires
        json_bytes(JsonView::Object(members)) == Ok::<_, Seq<char>>(body),
        body.len() <= MAX_MESSAGE_BYTES,
        valid_utf8(body),
        json_document(decode_utf8(body)) == Ok::<_, Seq<char>>(JsonView::Object(members)),
    ensures
        message_bytes(members) matches Ok(frame) && is_frame_of(frame, members),
{
    let text = header_text(body.len());
    let line = "Content-Length: "@ + decimal_text(body.len());
    let header = encode_utf8(text);
    let frame = header + body;
    lemma_header(body.len());
    is_ascii_chars_encode_utf8(text);
    reveal_strlit("\r\n\r\n");
    let at = line.len() as int;
    assert forall|i: int| 0 <= i < at implies #[trigger] frame[i] != 13 && frame[i] < 128
        && frame[i] as char == line[i] by {
        assert(text[i] == line[i]);
        assert(header[i] == text[i] as u8);
        assert('\0' <= text[i] && text[i] <= '\u{7f}');
    }
    assert(text[at] == '\r' && text[at + 1] == '\n' && text[at + 2] == '\r' && text[at + 3]
        == '\n');
    assert(header[at] == 13 && header[at + 1] == 10 && header[at + 2] == 13 && header[at + 3]
        == 10);
    assert(frame.subrange(at, at + 4) =~= separator());
    lemma_position_at(frame, separator(), 0, at);
    assert(ascii_chars(frame.take(at)) =~= line);
    lemma_split_absent(line, seq!['\r', '\n'], 0);
    lemma_plain_decimal(body.len());
    assert(length_in(seq![line], 0) == Ok::<_, Seq<char>>(body.len() as int));
    assert(is_ascii_bytes(frame.take(at)));
    assert(announced(frame.take(at), MAX_MESSAGE_BYTES as nat) == Ok::<_, Seq<char>>(body.len()));
    assert(frame.subrange(at + 4, at + 4 + body.len()) =~= body);
    assert(frame.skip(at + 4 + body.len()) =~= seq![]);
    lemma_short_decimal(body.len());
    let rest = fed(seq![], MAX_HEADER_BYTES as nat, MAX_MESSAGE_BYTES as nat);
    assert(rest.messages =~= seq![]);
    assert(seq![members] + rest.messages =~= seq![members]);
}

proof fn lemma_short_decimal(n: nat)
    requires
        n <= MAX_MESSAGE_BYTES,
    ensures
        ("Content-Length: "@ + decimal_text(n)).len() <= MAX_HEADER_BYTES,
{
    reveal_strlit("Content-Length: ");
    reveal_with_fuel(decimal_text, 9);
}

/// Frames one after the other.
pub open spec fn joined_frames(frames: Seq<Seq<u8>>) -> Seq<u8>
    decreases frames.len(),
{
    if frames.len() == 0 {
        seq![]
    } else {
        frames[0] + joined_frames(frames.skip(1))
    }
}

/// Messages that were sent one after the other are read back in order, and nothing
/// is left of what was sent. What `encode_message` writes for a plain message is
/// the frame of that message.
pub proof fn messages_round_trip(
    messages: Seq<Seq<(Seq<char>, JsonView)>>,
    frames: Seq<Seq<u8>>,
)
    requires
        frames.len() == messages.len(),
        forall|i: int|
            0 <= i < messages.len() ==> is_frame_of(#[trigger] frames[i], messages[i]),
    ensures
        fed(joined_frames(frames), MAX_HEADER_BYTES as nat, MAX_MESSAGE_BYTES as nat) == (Fed {
            buffer: seq![],
            messages,
            error: None,
        }),
    decreases messages.len(),
{
    let limit = MAX_HEADER_BYTES as nat;
    let size = MAX_MESSAGE_BYTES as nat;
    if messages.len() == 0 {
        assert(messages =~= seq![]);
        assert(joined_frames(frames) =~= seq![]);
        assert(fed(seq![], limit, size).messages =~= seq![]);
    } else {
        let rest = frames.skip(1);
        let later = messages.skip(1);
        assert forall|i: int| 0 <= i < later.len() implies is_frame_of(
            #[trigger] rest[i],
            later[i],
        ) by {
            assert(rest[i] == frames[i + 1]);
        }
        messages_round_trip(later, rest);
        assert(is_frame_of(frames[0], messages[0]));
        reads_may_be_split(frames[0], joined_frames(rest), limit, size);
        assert(seq![] + joined_frames(rest) =~= joined_frames(rest));
        assert(seq![messages[0]] + later =~= messages);
    }
}

}
