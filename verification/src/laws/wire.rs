//! What TRACE32 is told and what it answers.

use vstd::prelude::*;
use vstd::string::*;
use vstd::utf8::*;

use crate::bytes::{le_bytes, le_limit, le_round_trip, le_value, lemma_le_bytes_len};
use crate::t32rcl::address::{
    address_bytes, is_wire_access, read_address, wire_round_trip, AddressView,
};
use crate::t32rcl::api::{answer_payload, practice_bytes, request_bytes};
use crate::t32rcl::debugger::{
    access_error, command_request, command_result, flag_result, function_request, function_result,
    number_result, read_after, read_call, script_after, script_request, symbol_lookup, symbol_value,
    write_call, ConnectStepView, Connecting, ScriptStage, ScriptStepView,
};
use crate::t32rcl::error::{ErrorView, OperationView, Span, Trace32View};
use crate::t32rcl::eval::{
    after_underscore, behind_prefix, decoded, grouped_value, int_value, ValueView,
};
use crate::t32rcl::link::{drain, frame_bytes, padding, picked, received, Decoded};
use crate::t32rcl::symbol::{empty_symbol, fitted, name_length, name_query, symbol_fields};
use crate::text::{
    decimal_text, digit_of, has_text, hex_text, integer_text, is_space, lemma_radix_ten_sixteen,
    lemma_without_absent, occurs_at, radix_round_trip, radix_text, trim_start, trimmed,
};

verus! {

proof fn lemma_le_two(n: nat)
    requires
        n < 65536,
    ensures
        le_bytes(n, 2).len() == 2,
        le_bytes(n, 2)[0] + 256 * le_bytes(n, 2)[1] == n,
{
    reveal_with_fuel(le_bytes, 3);
    let bytes = le_bytes(n, 2);
    assert(bytes =~= seq![(n % 256) as u8, ((n / 256) % 256) as u8]);
}

/// A request says what it is in its first four bytes, carries its payload whole
/// behind its header, and fills up to an even length with a zero. A length up to 255
/// stands in the first byte, a longer one behind the header, and one that does not
/// fit a message is refused.
pub proof fn requests_carry_their_payload(
    rapi_cmd: u8,
    opt_arg: u8,
    message_id: u8,
    payload: Seq<u8>,
    force_length: Option<usize>,
)
    ensures
        ({
            let length = match force_length {
                Some(length) => length as int,
                None => payload.len() as int + 2,
            };
            match request_bytes(rapi_cmd, opt_arg, message_id, payload, force_length) {
                Some(data) => {
                    let start = if length <= 255 {
                        4int
                    } else {
                        6int
                    };
                    &&& length + 2 <= 61440
                    &&& data.len() == start + payload.len() + payload.len() % 2
                    &&& data[1] == rapi_cmd && data[2] == opt_arg && data[3] == message_id
                    &&& length <= 255 ==> data[0] == length
                    &&& length > 255 ==> data[0] == 0 && data[4] + 256 * data[5] == length + 2
                    &&& data.subrange(start, start + payload.len()) == payload
                    &&& payload.len() % 2 == 1 ==> data.last() == 0
                },
                None => length + 2 > 61440,
            }
        }),
{
    let length: nat = match force_length {
        Some(length) => length as nat,
        None => payload.len() + 2,
    };
    if let Some(data) = request_bytes(rapi_cmd, opt_arg, message_id, payload, force_length) {
        if length <= 255 {
            assert(data.subrange(4, 4 + payload.len() as int) =~= payload);
        } else {
            lemma_le_two(length + 2);
            assert(data[4] == le_bytes(length + 2, 2)[0]);
            assert(data[5] == le_bytes(length + 2, 2)[1]);
            assert(data.subrange(6, 6 + payload.len() as int) =~= payload);
        }
    }
}

/// A notification is passed over, and a frame of any type but a response and a
/// notification breaks the stream.
pub proof fn only_responses_are_handed_out(kind: u32, data: Seq<u8>)
    requires
        data.len() < 0x1_0000_0000,
        kind != 0x11,
    ensures
        ({
            let got = received(seq![], 0, frame_bytes(kind, data));
            &&& got.responses.len() == 0
            &&& got.buffer.len() == 0
            &&& got.valid <==> kind == 0x12
        }),
{
    let frame = frame_bytes(kind, data);
    let length = data.len();
    let size = le_bytes(length, 4);
    let mark = le_bytes(kind as nat, 4);
    lemma_le_bytes_len(length, 4);
    lemma_le_bytes_len(kind as nat, 4);
    reveal_with_fuel(le_limit, 5);
    le_round_trip(length, 4);
    le_round_trip(kind as nat, 4);
    assert(Seq::<u8>::empty() + frame.skip(0) =~= frame);
    assert(frame.take(4) =~= size);
    assert(frame.subrange(4, 8) =~= mark);
    let whole = length + 8 + padding(length as int);
    assert(frame.len() == whole);
    assert(frame.skip(whole as int) =~= seq![]);
    assert(drain(seq![], 0) == (Decoded {
        buffer: seq![],
        pending: 0,
        responses: seq![],
        valid: true,
    }));
}

/// Whether a message is passed over while the answer to a request is awaited: an
/// empty one, one that carries nothing, or the answer to an earlier request.
pub open spec fn is_passed_over(message: Seq<u8>, expected: u8) -> bool {
    message.len() == 0 || message[0] == 0xFE || (message.len() >= 2 && message[1] < expected)
}

/// The answer to a request is found behind messages that are passed over, and what
/// comes behind it stays in the queue. An answer to a later request breaks the
/// connection, and without an answer the queue is used up.
pub proof fn the_answer_is_found(
    before: Seq<Seq<u8>>,
    message: Seq<u8>,
    behind: Seq<Seq<u8>>,
    expected: u8,
)
    requires
        forall|i: int| 0 <= i < before.len() ==> is_passed_over(#[trigger] before[i], expected),
        message.len() >= 2,
        message[0] != 0xFE,
    ensures
        message[1] == expected ==> picked(before.push(message) + behind, expected) == (
            behind,
            Ok::<Option<Seq<u8>>, ErrorView>(Some(message)),
        ),
        message[1] > expected ==> (picked(before.push(message) + behind, expected).1 matches Err(e)
            && e is Connect),
        picked(before, expected) == (Seq::<Seq<u8>>::empty(), Ok::<_, ErrorView>(None::<Seq<u8>>)),
    decreases before.len(),
{
    let queue = before.push(message) + behind;
    if before.len() == 0 {
        assert(queue[0] == message);
        assert(queue.skip(1) =~= behind);
        assert(before =~= seq![]);
    } else {
        assert(is_passed_over(before[0], expected));
        let rest = before.skip(1);
        assert forall|i: int| 0 <= i < rest.len() implies is_passed_over(
            #[trigger] rest[i],
            expected,
        ) by {
            assert(rest[i] == before[i + 1]);
        }
        assert(queue[0] == before[0]);
        assert(queue.skip(1) =~= rest.push(message) + behind);
        the_answer_is_found(rest, message, behind, expected);
    }
}

/// An answer with the status zero brings what follows the status and the number; any
/// other status is an error with that code.
pub proof fn answers_bring_their_payload(id: u8, payload: Seq<u8>, answer: Seq<u8>)
    ensures
        answer_payload(seq![0u8, id] + payload) == Ok::<_, Trace32View>(payload),
        answer.len() > 0 && answer[0] != 0 ==> (answer_payload(answer) matches Err(error)
            && error.code == Some(answer[0]) && error.operation is Api),
{
    assert((seq![0u8, id] + payload).skip(2) =~= payload);
}

/// A command and a function are sent as their text: the payload of the request
/// holds it between the size of the result buffer and a zero. The two differ in
/// nothing but the kind of the request.
pub proof fn texts_are_sent_whole(text: Seq<char>)
    ensures
        ({
            let command = command_request(text);
            let function = function_request(text);
            let end = command.payload.len() - 1;
            &&& end >= 4
            &&& valid_utf8(command.payload.subrange(4, end)) && decode_utf8(
                command.payload.subrange(4, end),
            ) == text
            &&& command.payload[end] == 0
            &&& function.payload == command.payload
            &&& command.rapi_cmd == function.rapi_cmd && command.opt_arg == 4 && function.opt_arg
                == 5
        }),
{
    let payload = practice_bytes(text);
    lemma_le_bytes_len(crate::t32rcl::api::RESULT_BUFFER_SIZE as nat, 4);
    assert(payload.subrange(4, payload.len() - 1) =~= encode_utf8(text));
    encode_utf8_valid_utf8(text);
    encode_utf8_decode_utf8(text);
}

/// A request of a memory read asks for the bytes that are missing, from where the
/// last one ended: the address on the wire is that many bytes behind the one that
/// was given, in the same access class, and as many bytes are asked for as are
/// missing, up to the limit of a request.
pub proof fn reads_ask_for_what_is_missing(address: AddressView, length: nat, done: nat)
    requires
        done < length,
        length <= u64::MAX,
        address.value + done <= u64::MAX,
        address.access matches Some(access) ==> is_wire_access(access),
    ensures
        ({
            let call = read_call(address, length, done);
            let count = if length - done <= 1008 {
                length - done
            } else {
                1008
            };
            &&& call.payload[0] + 256 * call.payload[1] == count
            &&& read_address(call.payload.skip(2)) matches Ok((end, found)) && found.value
                == address.value + done && found.access == address.access && end
                == call.payload.len() - 2
        }),
{
    let count: nat = if length - done <= 1008 {
        (length - done) as nat
    } else {
        1008
    };
    let call = read_call(address, length, done);
    lemma_le_two(count);
    let bytes = address_bytes(address, done as u64, None);
    assert(call.payload =~= le_bytes(count, 2) + bytes);
    assert(call.payload.skip(2) =~= bytes);
    wire_round_trip(address, done as u64, None);
    lemma_no_wrap(address.value + done);
}

proof fn lemma_no_wrap(n: int)
    requires
        0 <= n <= u64::MAX,
    ensures
        n % 0x1_0000_0000_0000_0000 == n,
{
}

/// A request of a memory write carries the next bytes of the data to the address
/// that many bytes behind the one that was given, in the same access class.
pub proof fn writes_carry_what_is_left(
    address: AddressView,
    data: Seq<u8>,
    width: Option<u16>,
    done: nat,
)
    requires
        done < data.len(),
        data.len() <= u64::MAX,
        address.value + done <= u64::MAX,
        address.access matches Some(access) ==> is_wire_access(access),
    ensures
        ({
            let call = write_call(address, data, width, done);
            let count = if data.len() - done <= 1024 {
                data.len() - done
            } else {
                1024
            };
            let bytes = address_bytes(address, done as u64, width);
            &&& call.payload[0] + 256 * call.payload[1] == count
            &&& call.payload.len() == 2 + bytes.len() + count
            &&& call.payload.skip(2 + bytes.len() as int) == data.subrange(
                done as int,
                done + count,
            )
            &&& call.payload.subrange(2, 2 + bytes.len() as int) == bytes
            &&& read_address(bytes) matches Ok((end, found)) && found.value == address.value + done
                && found.access == address.access
        }),
{
    let count: nat = if data.len() - done <= 1024 {
        (data.len() - done) as nat
    } else {
        1024
    };
    let call = write_call(address, data, width, done);
    lemma_le_two(count);
    let bytes = address_bytes(address, done as u64, width);
    let piece = data.subrange(done as int, done as int + count);
    assert(call.payload =~= le_bytes(count, 2) + bytes + piece);
    assert(call.payload.skip(2 + bytes.len() as int) =~= piece);
    assert(call.payload.subrange(2, 2 + bytes.len() as int) =~= bytes);
    wire_round_trip(address, done as u64, width);
    lemma_no_wrap(address.value + done);
}

proof fn lemma_int_value(n: nat, base: nat, sign: Seq<char>)
    requires
        n <= i128::MAX,
        base == 10 || base == 16,
        sign == Seq::<char>::empty() || sign == seq!['-'],
    ensures
        int_value(
            sign + (if base == 16 {
                seq!['0', 'x'] + radix_text(n, base)
            } else {
                radix_text(n, base)
            }),
            base,
        ) == Some(
            if sign == seq!['-'] {
                -n
            } else {
                n as int
            },
        ),
{
    let digits = radix_text(n, base);
    let body = if base == 16 {
        seq!['0', 'x'] + digits
    } else {
        digits
    };
    let text = sign + body;
    radix_round_trip(n, base);
    assert forall|i: int| 0 <= i < digits.len() implies #[trigger] digits[i] != '_' && !is_space(
        digits[i],
    ) && digits[i] != '-' && digits[i] != '+' by {
        assert(digit_of(digits[i], base) is Some);
    }
    lemma_without_absent(digits, '_');
    if base == 16 {
        assert(body.skip(2) =~= digits);
        assert(body.last() == digits.last());
    }
    assert(text.last() == digits.last());
    assert(digits.last() == digits[digits.len() - 1]);
    if sign.len() == 0 {
        assert(text =~= body);
        assert(sign != seq!['-']) by {
            assert(seq!['-'].len() == 1);
        }
    } else {
        assert(text[0] == sign[0]);
        assert(text.skip(1) =~= body);
    }
    assert(trim_start(text) == text);
    assert(trimmed(text) == text);
    assert(!has_text(digits, seq!['_', '_'])) by {
        if has_text(digits, seq!['_', '_']) {
            let at = choose|at: int| occurs_at(digits, seq!['_', '_'], at);
            assert(digits.subrange(at, at + 2)[0] == digits[at]);
        }
    }
    assert(grouped_value(digits, base) == Some(n));
    assert(digits[0] != '_');
    assert(behind_prefix(body, base) == digits) by {
        if base == 16 {
            assert(body[0] == '0' && body[1] == 'x');
            assert(after_underscore(digits) == digits);
        }
    }
    let unsigned = if text[0] == '-' || text[0] == '+' {
        text.skip(1)
    } else {
        text
    };
    assert(unsigned == body) by {
        if sign.len() == 0 {
            assert(text[0] == body[0]);
        }
    }
    assert(text[0] == '-' <==> sign == seq!['-']);
}

/// A number that a function evaluates to is read as that number, whether it is
/// written in decimal with a dot behind it or in hexadecimal; a text stays that
/// text.
pub proof fn function_results_are_read(n: nat, text: Seq<char>, expression: Seq<char>)
    requires
        n <= i128::MAX,
    ensures
        decoded(0x0008, decimal_text(n).push('.'), expression) == Ok::<_, ErrorView>(
            ValueView::Int(n as int),
        ),
        n > 0 ==> decoded(0x0008, integer_text(-n).push('.'), expression) == Ok::<_, ErrorView>(
            ValueView::Int(-n),
        ),
        decoded(0x0004, seq!['0', 'x'] + hex_text(n), expression) == Ok::<_, ErrorView>(
            ValueView::Int(n as int),
        ),
        decoded(0x0040, text, expression) == Ok::<_, ErrorView>(ValueView::Text(text)),
        decoded(0x0001, "TRUE()"@, expression) == Ok::<_, ErrorView>(ValueView::Bool(true)),
        decoded(0x0001, "FALSE()"@, expression) == Ok::<_, ErrorView>(ValueView::Bool(false)),
        text != "TRUE()"@ && text != "FALSE()"@ ==> decoded(0x0001, text, expression) is Err,
{
    lemma_radix_ten_sixteen(n);
    lemma_int_value(n, 10, Seq::empty());
    lemma_int_value(n, 16, Seq::empty());
    lemma_int_value(n, 10, seq!['-']);
    reveal_strlit("TRUE()");
    reveal_strlit("FALSE()");
    assert("TRUE()"@.len() != "FALSE()"@.len());
    assert(Seq::<char>::empty() + radix_text(n, 10) =~= decimal_text(n));
    assert(Seq::<char>::empty() + (seq!['0', 'x'] + radix_text(n, 16)) =~= seq!['0', 'x']
        + hex_text(n));
    assert(decimal_text(n).push('.').drop_last() =~= decimal_text(n));
    assert(integer_text(-n).push('.').drop_last() =~= integer_text(-n));
    assert(Seq::<char>::empty() != seq!['-']) by {
        assert(seq!['-'].len() == 1);
    }
}

/// The depth of the PRACTICE stack decides when a script is done: while it is deeper
/// than before the script runs, back at the old depth it has finished, and above
/// that something is wrong. Only a script that still runs can run out of time.
pub proof fn scripts_end_where_they_began(
    script: Seq<char>,
    limit: Option<Span>,
    before: i128,
    outcome: Result<Seq<u8>, ErrorView>,
    elapsed: Span,
    depth: int,
)
    requires
        number_result("PRACTICE.SD()"@, outcome) == Ok::<_, ErrorView>(depth),
    ensures
        ({
            let step = script_after(script, limit, ScriptStage::Poll(before), outcome, elapsed).1;
            &&& step is Finish <==> depth == before
            &&& step is Pause <==> depth > before && (limit matches Some(span) ==> elapsed.total()
                <= span.total())
            &&& depth < before ==> step is Fail
            &&& step matches ScriptStepView::Fail(ErrorView::ScriptTimeout(span)) ==> limit == Some(
                span,
            ) && elapsed.total() > span.total() && depth > before
        }),
        script_after(script, limit, ScriptStage::Depth, outcome, elapsed) == (
            ScriptStage::Run(depth as i128),
            ScriptStepView::Proceed,
        ),
        script_request(script, ScriptStage::Run(before)) == command_request("DO "@ + script),
{
}

/// A script with no time at all is started and not waited for; any other is waited
/// for once it was started.
pub proof fn scripts_are_waited_for(
    script: Seq<char>,
    limit: Option<Span>,
    before: i128,
    payload: Seq<u8>,
    elapsed: Span,
)
    ensures
        ({
            let (stage, step) = script_after(
                script,
                limit,
                ScriptStage::Run(before),
                Ok(payload),
                elapsed,
            );
            if limit matches Some(span) && span.total() == 0 {
                step is Finish
            } else {
                step is Proceed && stage == ScriptStage::Poll(before)
            }
        }),
{
}

/// A session becomes usable only with a PowerView that is new enough: with build
/// 126615 and base build 125398 at least.
pub proof fn old_versions_are_refused(build: i128, outcome: Result<Seq<u8>, ErrorView>, base: int)
    requires
        number_result("SOFTWARE.BUILD.BASE()"@, outcome) == Ok::<_, ErrorView>(base),
    ensures
        (Connecting::Base(build)).after(outcome).1 is Proceed <==> build >= 126615 && base
            >= 125398,
        (Connecting::Base(build)).after(outcome).1 is Proceed ==> (Connecting::Base(build)).after(
            outcome,
        ).0 == Connecting::Announce,
        !((Connecting::Base(build)).after(outcome).1 is Proceed) ==> (Connecting::Base(
            build,
        )).after(outcome).1 is Fail,
{
}

/// The steps of making a session usable come in order, and only an answer leads from
/// one to the next.
pub proof fn sessions_are_made_in_order(step: Connecting, outcome: Result<Seq<u8>, ErrorView>)
    ensures
        step.after(outcome).0 is Build && !(step is Build) ==> (step is Attach || step is Reattach)
            && outcome is Ok,
        step.after(outcome).0 is Base && !(step is Base) ==> step is Build && outcome is Ok,
        step.after(outcome).0 is Announce && !(step is Announce) ==> step is Base && outcome is Ok,
        step.after(outcome).0 is Ready && !(step is Ready) ==> step is Announce && outcome is Ok,
        outcome is Err && !(step is Ready) ==> !(step.after(outcome).1 is Proceed),
{
}

/// A failure that TRACE32 reports for a command or a function names it, and keeps
/// its code and message; other failures stay what they are.
pub proof fn failures_keep_their_cause(error: ErrorView, command: Seq<char>)
    ensures
        command_result(command, Err(error)) matches Err(told) && match error {
            ErrorView::Trace32(inner) => told matches ErrorView::Trace32(outer) && outer.code
                == inner.code && outer.message == inner.message && outer.operation == (
            if inner.code == Some(90u8) {
                OperationView::Command(command)
            } else {
                inner.operation
            }),
            _ => told == error,
        },
        access_error(error, OperationView::MemoryRead) matches told && match error {
            ErrorView::Trace32(inner) => told matches ErrorView::Trace32(outer) && outer.code
                == inner.code && outer.operation is MemoryRead,
            _ => told == error,
        },
{
}

proof fn lemma_symbol_end(data: Seq<u8>, at: nat, symbol: crate::t32rcl::symbol::SymbolView)
    requires
        at + 2 <= data.len(),
        data[at as int] == 0x58,
        data[at as int + 1] == 0x58,
    ensures
        symbol_fields(data, at, symbol) == Ok::<_, ErrorView>(symbol),
{
    let id = data.subrange(at as int, at as int + 2);
    assert(id =~= seq![0x58u8, 0x58u8]);
    assert(id[0] != seq![0x41u8, 0x44u8][0]);
    assert(id[0] != seq![0x4Eu8, 0x4Du8][0]);
    assert(id[0] != seq![0x50u8, 0x54u8][0]);
    assert(id[0] != seq![0x4Eu8, 0x45u8][0]);
    assert(id[0] != seq![0x53u8, 0x5Au8][0]);
}

/// A symbol has the address that the answer to a lookup holds, whatever its access
/// class.
pub proof fn symbols_have_the_address_of_the_answer(
    name: Seq<char>,
    address: AddressView,
    behind: Seq<u8>,
)
    requires
        address.access matches Some(access) ==> is_wire_access(access),
        behind.len() >= 2,
        behind[0] == 0x58,
        behind[1] == 0x58,
    ensures
        symbol_value(
            name,
            Ok(seq![0x41u8, 0x44u8] + address_bytes(address, 0, None) + behind),
        ) == Ok::<_, ErrorView>(address.value),
        symbol_value(name, Ok(behind)) is Err,
{
    let bytes = address_bytes(address, 0, None);
    let data = seq![0x41u8, 0x44u8] + bytes + behind;
    crate::t32rcl::address::lemma_read_address_more(address, 0, None, behind);
    assert(data.skip(2) =~= bytes + behind);
    assert(data.subrange(0, 2) =~= seq![0x41u8, 0x44u8]);
    let at = 2 + bytes.len();
    let found = crate::t32rcl::symbol::SymbolView { address: Some(address), ..empty_symbol() };
    lemma_no_wrap(address.value + 0);
    lemma_symbol_end(data, at, found);
    lemma_symbol_end(behind, 0, empty_symbol());
}

/// A symbol is asked for by its name: the query tells its length and that of the name,
/// which stands in it whole, ended by a zero and filled up to an even length.
pub proof fn symbols_are_asked_for_by_name(name: Seq<char>)
    requires
        is_ascii_chars(name),
        name.len() < 65000,
    ensures
        ({
            let payload = symbol_lookup(name).payload;
            let length = if name.len() % 2 == 0 {
                name.len() + 2
            } else {
                name.len() + 1
            };
            &&& payload.len() == length + 8
            &&& payload[0] + 256 * payload[1] == payload.len() + 4
            &&& payload[2] == 0x4E && payload[3] == 0x4D
            &&& payload[4] + 256 * payload[5] == length
            &&& forall|i: int|
                0 <= i < name.len() ==> payload[6 + i] as char == #[trigger] name[i]
            &&& forall|i: int|
                6 + name.len() <= i < 6 + length ==> #[trigger] payload[i] == 0
            &&& payload[payload.len() - 2] == 0x58 && payload.last() == 0x58
        }),
{
    let raw = encode_utf8(name);
    is_ascii_chars_encode_utf8(name);
    let length = name_length(name);
    lemma_le_two(length);
    let query = name_query(name);
    assert(fitted(raw, length) =~= raw + crate::bytes::zeros((length - raw.len()) as nat));
    lemma_le_two(query.len() + 6);
    let payload = symbol_lookup(name).payload;
    assert(payload =~= le_bytes(query.len() + 6, 2) + query);
    assert forall|i: int| 0 <= i < name.len() implies payload[6 + i] as char == #[trigger] name[i] by {
        assert(payload[6 + i] == raw[i]);
        assert(raw[i] == name[i] as u8);
        assert('\0' <= name[i] && name[i] <= '\u{7f}');
    }
}

/// The kinds of requests: attaching, reading and writing memory and looking for a
/// symbol.
pub proof fn requests_have_their_kind(address: AddressView, data: Seq<u8>, name: Seq<char>)
    ensures
        Connecting::Attach.request() matches Some(call) && call.rapi_cmd == 0x71 && call.opt_arg
            == 1 && call.payload.len() == 0,
        Connecting::Reattach.request() == Connecting::Attach.request(),
        Connecting::Build.request() == Some(function_request("SOFTWARE.BUILD()"@)),
        Connecting::Base(0).request() == Some(function_request("SOFTWARE.BUILD.BASE()"@)),
        Connecting::Announce.request() == Some(function_request("VERSION.PYRCL(1.1.5)"@)),
        Connecting::Ready.request() is None,
        read_call(address, 1, 0).rapi_cmd == 0x74 && read_call(address, 1, 0).opt_arg == 0x35,
        write_call(address, data, None, 0).rapi_cmd == 0x74 && write_call(
            address,
            data,
            None,
            0,
        ).opt_arg == 0x36,
        symbol_lookup(name).rapi_cmd == 0x74 && symbol_lookup(name).opt_arg == 0x68,
{
    reveal_strlit("VERSION.PYRCL(");
    reveal_strlit("1.1.5");
    reveal_strlit(")");
    reveal_strlit("VERSION.PYRCL(1.1.5)");
    assert("VERSION.PYRCL("@ + "1.1.5"@ + ")"@ =~= "VERSION.PYRCL(1.1.5)"@);
}

/// The build that was told is the one that is compared later.
pub proof fn the_build_is_remembered(outcome: Result<Seq<u8>, ErrorView>, build: int)
    requires
        number_result("SOFTWARE.BUILD()"@, outcome) == Ok::<_, ErrorView>(build),
        i128::MIN <= build <= i128::MAX,
    ensures
        Connecting::Build.after(outcome) == (
            Connecting::Base(build as i128),
            ConnectStepView::Proceed,
        ),
{
}

/// What is read is added to what was read before: as many bytes as were asked for.
/// Fewer are an error.
pub proof fn answers_are_added(length: nat, data: Seq<u8>, payload: Seq<u8>)
    requires
        data.len() < length,
    ensures
        ({
            let count = if length - data.len() <= 1008 {
                length - data.len()
            } else {
                1008
            };
            match read_after(length, data, Ok(payload)) {
                Ok(next) => payload.len() >= count && next.len() == data.len() + count
                    && data.is_prefix_of(next) && next.skip(data.len() as int).is_prefix_of(payload),
                Err(_) => payload.len() < count,
            }
        }),
{
    if let Ok(next) = read_after(length, data, Ok(payload)) {
        let count = next.len() - data.len();
        assert(next.take(data.len() as int) =~= data);
        assert(next.skip(data.len() as int) =~= payload.take(count));
    }
}

/// A script that could not be started is reported as a failure of the script; other
/// failures stay what they are.
pub proof fn scripts_that_do_not_start_are_reported(
    script: Seq<char>,
    limit: Option<Span>,
    before: i128,
    error: Trace32View,
    elapsed: Span,
)
    requires
        error.code == Some(90u8),
    ensures
        script_after(
            script,
            limit,
            ScriptStage::Run(before),
            Err(ErrorView::Trace32(error)),
            elapsed,
        ).1 == ScriptStepView::Fail(
            ErrorView::Trace32(Trace32View { operation: OperationView::Practice, ..error }),
        ),
        script_after(
            script,
            limit,
            ScriptStage::Run(before),
            Err(ErrorView::Timeout),
            elapsed,
        ).1 == ScriptStepView::Fail(ErrorView::Timeout),
{
}

/// Only a number is taken for a number, and only a truth value for one.
pub proof fn results_have_the_kind_that_is_asked_for(
    expression: Seq<char>,
    payload: Seq<u8>,
    value: ValueView,
)
    requires
        function_result(expression, Ok(payload)) == Ok::<_, ErrorView>(value),
    ensures
        match value {
            ValueView::Int(n) => number_result(expression, Ok(payload)) == Ok::<_, ErrorView>(n),
            _ => number_result(expression, Ok(payload)) is Err,
        },
        match value {
            ValueView::Bool(flag) => flag_result(expression, Ok(payload)) == Ok::<_, ErrorView>(
                flag,
            ),
            _ => flag_result(expression, Ok(payload)) is Err,
        },
{
}

/// A failed access to memory tells what TRACE32 said, but for wrong parameters.
pub proof fn failed_accesses_tell_why(error: Trace32View, operation: OperationView)
    ensures
        access_error(ErrorView::Trace32(error), operation) == ErrorView::Trace32(
            Trace32View {
                code: error.code,
                operation,
                message: if error.code == Some(90u8) {
                    "wrong parameters"@
                } else {
                    error.text()
                },
            },
        ),
{
}

/// A frame is as short as it can be: its header, its data, and what is missing up to a
/// whole number of units. It tells the length and the type of its data.
pub proof fn frames_are_not_longer_than_needed(kind: u32, data: Seq<u8>)
    requires
        data.len() < 0x1_0000_0000,
    ensures
        ({
            let frame = frame_bytes(kind, data);
            &&& data.len() + 8 <= frame.len() < data.len() + 16
            &&& frame.len() % 8 == 0
            &&& frame.subrange(8, 8 + data.len() as int) == data
            &&& le_value(frame.subrange(0, 4)) == data.len()
            &&& le_value(frame.subrange(4, 8)) == kind
        }),
{
    let frame = frame_bytes(kind, data);
    lemma_le_bytes_len(data.len(), 4);
    lemma_le_bytes_len(kind as nat, 4);
    reveal_with_fuel(le_limit, 5);
    le_round_trip(data.len(), 4);
    le_round_trip(kind as nat, 4);
    assert(frame.subrange(8, 8 + data.len() as int) =~= data);
    assert(frame.subrange(0, 4) =~= le_bytes(data.len(), 4));
    assert(frame.subrange(4, 8) =~= le_bytes(kind as nat, 4));
}

/// A memory request announces the length of its address and six bytes more, whatever
/// data follows.
pub proof fn memory_requests_announce_their_address(
    address: AddressView,
    length: nat,
    data: Seq<u8>,
    width: Option<u16>,
    done: nat,
)
    requires
        done < length,
        done < data.len(),
        address_bytes(address, done as u64, width).len() + 6 <= usize::MAX,
        address_bytes(address, done as u64, None).len() + 6 <= usize::MAX,
    ensures
        read_call(address, length, done).force_length matches Some(n) && n == read_call(
            address,
            length,
            done,
        ).payload.len() + 4,
        write_call(address, data, width, done).force_length matches Some(n) && n == address_bytes(
            address,
            done as u64,
            width,
        ).len() + 6,
{
    lemma_le_bytes_len(
        crate::t32rcl::debugger::lesser(length - done, 1008) as nat,
        2,
    );
}

}
