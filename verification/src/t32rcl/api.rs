//! Requests and answers of the remote API.

use vstd::prelude::*;
use vstd::slice::slice_subrange;
use vstd::utf8::*;

use crate::bytes::{
    copy_bytes, le_bytes, le_value, lemma_le_bytes_len, lemma_le_bytes_two, push_bytes, push_le,
    push_zeros, read_u32, saturated, zeros,
};
use crate::t32rcl::address::{address_bytes, Address, AddressView};
use crate::t32rcl::error::{error_of_code, Error, ErrorView, Trace32Error, Trace32View};
use crate::text::{chars_of, decode_utf8_text, string_of, trim_end_char, trim_end_matches};

verus! {

pub const RAPI_CMD_ATTACH: u8 = 0x71;

pub const RAPI_CMD_EXECUTE_PRACTICE: u8 = 0x72;

pub const RAPI_CMD_DEVICE_SPECIFIC: u8 = 0x74;

/// Sub-command that executes a command.
pub const EXECUTE_COMMAND: u8 = 0x04;

/// Sub-command that evaluates a function.
pub const EXECUTE_FUNCTION: u8 = 0x05;

pub const RAPI_DSCMD_MEMORY_OBJ_READ: u8 = 0x35;

pub const RAPI_DSCMD_MEMORY_OBJ_WRITE: u8 = 0x36;

pub const RAPI_DSCMD_SYMBOL_QUERYOBJ: u8 = 0x68;

/// Result buffer size announced for commands and functions.
pub const RESULT_BUFFER_SIZE: u32 = 4096;

/// The largest number of bytes read by one request: what a packet of 1024 bytes
/// holds besides its header of ten, in whole units of eight.
pub const READ_CHUNK_SIZE: usize = 1008;

/// The largest number of bytes written by one request.
pub const WRITE_CHUNK_SIZE: usize = 1024;

/// A request: a short header, or one with a 16-bit length where the length does
/// not fit a byte, then the payload, filled up to an even length. `None` when
/// the length is beyond what a message may have.
pub open spec fn request_bytes(
    rapi_cmd: u8,
    opt_arg: u8,
    message_id: u8,
    payload: Seq<u8>,
    force_length: Option<usize>,
) -> Option<Seq<u8>> {
    let length: nat = match force_length {
        Some(length) => length as nat,
        None => payload.len() + 2,
    };
    let fill = zeros(payload.len() % 2);
    if length <= 0xFF {
        Some(seq![length as u8, rapi_cmd, opt_arg, message_id] + payload + fill)
    } else if length + 2 <= 0xF000 {
        Some(
            seq![0u8, rapi_cmd, opt_arg, message_id] + le_bytes(length + 2, 2) + payload + fill,
        )
    } else {
        None
    }
}

/// Encodes one request.
pub fn encode_request(
    rapi_cmd: u8,
    opt_arg: u8,
    message_id: u8,
    payload: &[u8],
    force_length: Option<usize>,
) -> (result: Result<Vec<u8>, Error>)
    ensures
        match request_bytes(rapi_cmd, opt_arg, message_id, payload@, force_length) {
            Some(data) => result matches Ok(bytes) && bytes@ == data,
            None => result matches Err(error) && error@ == ErrorView::Protocol(
                "message buffer too large"@,
            ),
        },
{
    let length: usize = match force_length {
        Some(length) => length,
        None => {
            if payload.len() > 0xF000 {
                return Err(Error::protocol("message buffer too large"));
            }
            payload.len() + 2
        },
    };
    let mut data: Vec<u8> = Vec::new();
    let ghost head: Seq<u8>;
    if length > 0xFF {
        if length > 0xEFFE {
            return Err(Error::protocol("message buffer too large"));
        }
        data.push(0);
        data.push(rapi_cmd);
        data.push(opt_arg);
        data.push(message_id);
        push_le(&mut data, length as u64 + 2, 2);
        proof {
            head = seq![0u8, rapi_cmd, opt_arg, message_id] + le_bytes((length + 2) as nat, 2);
        }
    } else {
        data.push(length as u8);
        data.push(rapi_cmd);
        data.push(opt_arg);
        data.push(message_id);
        proof {
            head = seq![length as u8, rapi_cmd, opt_arg, message_id];
        }
    }
    assert(data@ =~= head);
    push_bytes(&mut data, payload);
    push_zeros(&mut data, payload.len() % 2);
    Ok(data)
}

/// Requests have an even number of bytes.
pub proof fn requests_are_even(
    rapi_cmd: u8,
    opt_arg: u8,
    message_id: u8,
    payload: Seq<u8>,
    force_length: Option<usize>,
)
    ensures
        request_bytes(rapi_cmd, opt_arg, message_id, payload, force_length) matches Some(data)
            ==> data.len() % 2 == 0,
{
    let length: nat = match force_length {
        Some(length) => length as nat,
        None => payload.len() + 2,
    };
    lemma_le_bytes_len(length + 2, 2);
}

/// The message of an error answer: the text whose length the answer gives, if it
/// is UTF-8, without trailing zeros.
pub open spec fn answer_message(answer: Seq<u8>) -> Option<Seq<char>> {
    if answer.len() > 10 {
        let length = le_value(answer.subrange(6, 10));
        let end = if 10 + length <= answer.len() {
            (10 + length) as int
        } else {
            answer.len() as int
        };
        let raw = answer.subrange(10, end);
        if valid_utf8(raw) {
            Some(trim_end_char(decode_utf8(raw), '\0'))
        } else {
            None
        }
    } else {
        None
    }
}

/// What an answer brings: the payload behind the status and the message number
/// when the status is zero, else the error.
pub open spec fn answer_payload(answer: Seq<u8>) -> Result<Seq<u8>, Trace32View> {
    if answer[0] == 0 {
        Ok(answer.skip(2))
    } else {
        Err(error_of_code(answer[0], answer_message(answer)))
    }
}

/// Checks the status byte of an answer and returns its payload.
pub fn check_response(answer: &[u8]) -> (result: Result<&[u8], Trace32Error>)
    requires
        answer@.len() >= 2 || (answer@.len() == 1 && answer@[0] != 0),
    ensures
        match result {
            Ok(payload) => answer_payload(answer@) == Ok::<_, Trace32View>(payload@),
            Err(error) => answer_payload(answer@) == Err::<Seq<u8>, _>(error@),
        },
{
    let status: u8 = answer[0];
    if status == 0 {
        let payload = slice_subrange(answer, 2, answer.len());
        assert(payload@ =~= answer@.skip(2));
        return Ok(payload);
    }
    let message: Option<String> = if answer.len() > 10 {
        let length: u32 = read_u32(answer, 6);
        let available: usize = answer.len() - 10;
        let end: usize = if (length as u64) <= available as u64 {
            10 + length as usize
        } else {
            answer.len()
        };
        match decode_utf8_text(&copy_bytes(answer, 10, end)) {
            Ok(text) => Some(string_of(&trim_end_matches(&chars_of(&text), '\0'))),
            Err(_) => None,
        }
    } else {
        None
    };
    Err(Trace32Error::from_code(status, message))
}

/// The payload of a command or a function: the size of the result buffer, the
/// text, and a zero.
pub open spec fn practice_bytes(text: Seq<char>) -> Seq<u8> {
    le_bytes(RESULT_BUFFER_SIZE as nat, 4) + encode_utf8(text) + seq![0u8]
}

/// The payload of a command or a function.
pub fn practice_payload(text: &str) -> (payload: Vec<u8>)
    ensures
        payload@ == practice_bytes(text@),
{
    let mut payload: Vec<u8> = Vec::new();
    push_le(&mut payload, RESULT_BUFFER_SIZE as u64, 4);
    push_bytes(&mut payload, text.as_bytes());
    payload.push(0);
    assert(payload@ =~= practice_bytes(text@));
    payload
}

/// The payload that asks for `chunk` bytes of memory.
pub open spec fn read_request(address: AddressView, offset: u64, chunk: nat) -> Seq<u8> {
    le_bytes(chunk, 2) + address_bytes(address, offset, None)
}

/// The payload that writes bytes to memory.
pub open spec fn write_request(
    address: AddressView,
    offset: u64,
    data: Seq<u8>,
    width: Option<u16>,
) -> Seq<u8> {
    le_bytes(data.len(), 2) + address_bytes(address, offset, width) + data
}

/// The length that a memory request announces: that of the address and six
/// bytes more, whatever data follows.
pub open spec fn memory_length(address: AddressView, offset: u64, width: Option<u16>) -> usize {
    saturated(address_bytes(address, offset, width).len() as int + 6)
}

/// Payload and announced length of the request for a piece of memory.
pub fn memory_read_payload(address: &Address, offset: u64, chunk: usize) -> (result: (
    Vec<u8>,
    usize,
))
    ensures
        result.0@ == read_request(address@, offset, chunk as nat),
        result.1 == memory_length(address@, offset, None),
{
    let parameters = address.serialize(offset, None);
    let mut payload: Vec<u8> = Vec::new();
    push_le(&mut payload, chunk as u64, 2);
    push_bytes(&mut payload, &parameters);
    assert(payload@ =~= read_request(address@, offset, chunk as nat));
    (payload, parameters.len().saturating_add(6))
}

/// Payload and announced length of the request that writes a piece of memory.
pub fn memory_write_payload(
    address: &Address,
    offset: u64,
    data: &[u8],
    width: Option<u16>,
) -> (result: (Vec<u8>, usize))
    ensures
        result.0@ == write_request(address@, offset, data@, width),
        result.1 == memory_length(address@, offset, width),
{
    let parameters = address.serialize(offset, width);
    let mut payload: Vec<u8> = Vec::new();
    push_le(&mut payload, data.len() as u64, 2);
    push_bytes(&mut payload, &parameters);
    push_bytes(&mut payload, data);
    assert(payload@ =~= write_request(address@, offset, data@, width));
    (payload, parameters.len().saturating_add(6))
}

/// The payload of a symbol query: a length that is six more than that of the
/// query, and the query.
pub open spec fn symbol_request(stream: Seq<u8>) -> Seq<u8> {
    le_bytes(stream.len() + 6, 2) + stream
}

/// The payload of a symbol query.
pub fn symbol_query_payload(stream: &[u8]) -> (payload: Vec<u8>)
    ensures
        payload@ == symbol_request(stream@),
{
    let mut payload: Vec<u8> = Vec::new();
    proof {
        lemma_le_bytes_two((stream@.len() % 65536 + 6) as nat, stream@.len() + 6);
    }
    push_le(&mut payload, (stream.len() % 65536 + 6) as u64, 2);
    push_bytes(&mut payload, stream);
    assert(payload@ =~= symbol_request(stream@));
    payload
}

}
