//! Frames, requests, answers, addresses, symbols and function results.

use std::collections::VecDeque;

use tracebridge::t32rcl::address::Address;
use tracebridge::t32rcl::api::{
    check_response, encode_request, memory_read_payload, memory_write_payload, practice_payload,
    symbol_query_payload, EXECUTE_COMMAND, EXECUTE_FUNCTION, RAPI_CMD_ATTACH,
    RAPI_CMD_DEVICE_SPECIFIC, RAPI_CMD_EXECUTE_PRACTICE, RAPI_DSCMD_MEMORY_OBJ_READ,
    RAPI_DSCMD_MEMORY_OBJ_WRITE, RAPI_DSCMD_SYMBOL_QUERYOBJ, READ_CHUNK_SIZE, WRITE_CHUNK_SIZE,
};
use tracebridge::t32rcl::error::{
    default_message, Error, IoKind, Operation, Span, Trace32Error, T32_ERR_FN1,
};
use tracebridge::t32rcl::eval::{decode, parse_int, split_result, Value};
use tracebridge::t32rcl::link::{
    align_eight, encode_frame, take_response, FrameDecoder, MessageId, KEEPALIVE, RCL_NOTIFY,
    RCL_RESP,
};
use tracebridge::t32rcl::symbol::{deserialize, serialize_name_query};

fn hex(text: &str) -> Vec<u8> {
    text.split_whitespace()
        .map(|byte| u8::from_str_radix(byte, 16).unwrap())
        .collect()
}

fn frame(rapi_cmd: u8, opt_arg: u8, id: u8, payload: &[u8], force: Option<usize>) -> Vec<u8> {
    encode_frame(&encode_request(rapi_cmd, opt_arg, id, payload, force).unwrap())
}

fn response_frame(payload: &[u8], message_type: u32) -> Vec<u8> {
    let mut frame = Vec::new();
    frame.extend_from_slice(&(payload.len() as u32).to_le_bytes());
    frame.extend_from_slice(&message_type.to_le_bytes());
    frame.extend_from_slice(payload);
    frame.resize(frame.len() + align_eight(payload.len() + 8), 0);
    frame
}

#[test]
fn parses_access_and_hex_value() {
    assert_eq!(
        Address::parse("E:0x20000000").unwrap(),
        Address::new(Some("E"), 0x2000_0000)
    );
    assert_eq!(Address::parse("4096").unwrap(), Address::new(None, 4096));
    assert_eq!(
        Address::parse("A:B:0x10").unwrap(),
        Address::new(Some("A:B"), 0x10)
    );
}

#[test]
fn rejects_values_python_rejects() {
    for text in ["E:", ":0x10", "E:0x", "E:0X10", "E:0123", "E:12a", ""] {
        assert!(Address::parse(text).is_err(), "{text}");
    }
    assert_eq!(Address::parse("E:00").unwrap().value, 0);
}

#[test]
fn address_errors_name_the_text() {
    assert_eq!(
        Address::parse("E:zz").unwrap_err().to_string(),
        "invalid address: E:zz"
    );
    assert!(Address::parse("E:1\n").is_err());
    assert!(Address::parse("18446744073709551616").is_err());
    assert_eq!(
        Address::parse("0xffffffffffffffff").unwrap().value,
        u64::MAX
    );
}

#[test]
fn serializes_access_class_and_width() {
    let address = Address::new(Some("E"), 0x2000_0000);
    assert_eq!(
        address.serialize(0x10, Some(4)),
        [
            3, 0, 0x10, 0, 0, 0x20, 0, 0, 0, 0, b'A', b'C', 2, 0, b'E', 0, b'W', b'I', 4, 0, b'X',
            b'X'
        ]
    );
    let address = Address::new(Some("AD"), 0);
    assert_eq!(&address.serialize(0, None)[10..18], b"AC\x04\x00AD\0\0");
}

#[test]
fn deserializes_answer_address() {
    let mut buffer = vec![2, 0, 0x78, 0x56, 0x34, 0x12];
    buffer.extend_from_slice(b"AC\x04\x00SD:\0WI\x04\x00XX");
    let (consumed, address) = Address::deserialize(&buffer).unwrap();
    assert_eq!(consumed, buffer.len());
    assert_eq!(address, Address::new(Some("SD"), 0x1234_5678));
}

#[test]
fn broken_answer_addresses_are_reported() {
    let text = |data: &[u8]| Address::deserialize(data).unwrap_err().to_string();
    assert_eq!(text(&[3]), "truncated address in answer");
    assert_eq!(text(&[9, 0]), "unsupported address type 9");
    let mut unknown = vec![2, 0, 0, 0, 0, 0];
    unknown.extend_from_slice(b"Q\"");
    assert_eq!(text(&unknown), "unknown address parameter \"Q\\\"\"");
    let mut binary = vec![2, 0, 0, 0, 0, 0];
    binary.extend_from_slice(b"AC\x02\x00\xff\xfe");
    assert_eq!(text(&binary), "access class is not UTF-8");
    let mut lossy = vec![2, 0, 0, 0, 0, 0];
    lossy.extend_from_slice(b"\xff\xfe");
    assert_eq!(text(&lossy), "unknown address parameter \"\u{fffd}\u{fffd}\"");
}

#[test]
fn display_matches_python_str() {
    assert_eq!(Address::new(Some("E"), 0x10).to_string(), "E:0x00000010");
}

#[test]
fn addresses_survive_text_and_wire() {
    for address in [
        Address::new(None, 0),
        Address::new(Some("E"), 0x1_2345_6789),
        Address::new(Some("A:B"), u64::MAX),
    ] {
        assert_eq!(Address::parse(&address.to_string()).unwrap(), address);
        let wire = address.serialize(0, None);
        assert_eq!(
            Address::deserialize(&wire).unwrap(),
            (wire.len(), address)
        );
    }
}

#[test]
fn frames_match_python_reference_bytes() {
    let address = Address::new(Some("E"), 0x2000_0000);
    assert_eq!(
        frame(RAPI_CMD_ATTACH, 1, 1, &[], None),
        hex("04 00 00 00 10 00 00 00 02 71 01 01 00 00 00 00")
    );
    assert_eq!(
        frame(
            RAPI_CMD_EXECUTE_PRACTICE,
            EXECUTE_COMMAND,
            2,
            &practice_payload("Go"),
            None
        ),
        hex("0c 00 00 00 10 00 00 00 09 72 04 02 00 10 00 00 47 6f 00 00 00 00 00 00")
    );
    assert_eq!(
        frame(
            RAPI_CMD_EXECUTE_PRACTICE,
            EXECUTE_FUNCTION,
            3,
            &practice_payload("SYStem.Up()"),
            None
        ),
        hex(
            "14 00 00 00 10 00 00 00 12 72 05 03 00 10 00 00 53 59 53 74 65 6d 2e 55 70 28 29 00 00 00 00 00"
        )
    );
    let (payload, force) = memory_read_payload(&address, 0, 16);
    assert_eq!(
        frame(
            RAPI_CMD_DEVICE_SPECIFIC,
            RAPI_DSCMD_MEMORY_OBJ_READ,
            4,
            &payload,
            Some(force)
        ),
        hex(
            "18 00 00 00 10 00 00 00 18 74 35 04 10 00 03 00 00 00 00 20 00 00 00 00 41 43 02 00 45 00 58 58"
        )
    );
    let (payload, force) = memory_write_payload(&address, 0, b"AB", None);
    assert_eq!(
        frame(
            RAPI_CMD_DEVICE_SPECIFIC,
            RAPI_DSCMD_MEMORY_OBJ_WRITE,
            5,
            &payload,
            Some(force)
        ),
        hex(
            "1a 00 00 00 10 00 00 00 18 74 36 05 02 00 03 00 00 00 00 20 00 00 00 00 41 43 02 00 45 00 58 58 41 42 00 00 00 00 00 00"
        )
    );
    let (payload, force) = memory_write_payload(&address, 0, &7u32.to_le_bytes(), Some(4));
    assert_eq!(
        frame(
            RAPI_CMD_DEVICE_SPECIFIC,
            RAPI_DSCMD_MEMORY_OBJ_WRITE,
            6,
            &payload,
            Some(force)
        ),
        hex(
            "20 00 00 00 10 00 00 00 1c 74 36 06 04 00 03 00 00 00 00 20 00 00 00 00 41 43 02 00 45 00 57 49 04 00 58 58 07 00 00 00"
        )
    );
    let stream = serialize_name_query("\\\\app\\Global\\_SEGGER_RTT");
    assert_eq!(
        frame(
            RAPI_CMD_DEVICE_SPECIFIC,
            RAPI_DSCMD_SYMBOL_QUERYOBJ,
            7,
            &symbol_query_payload(&stream),
            None
        ),
        hex(
            "26 00 00 00 10 00 00 00 24 74 68 07 26 00 4e 4d 1a 00 5c 5c 61 70 70 5c 47 6c 6f 62 61 6c 5c 5f 53 45 47 47 45 52 5f 52 54 54 00 00 58 58 00 00"
        )
    );
}

#[test]
fn chunk_sizes_follow_packlen_1024() {
    assert_eq!(READ_CHUNK_SIZE, 1008);
    assert_eq!(WRITE_CHUNK_SIZE, 1024);
}

#[test]
fn short_request_is_padded_to_even_length() {
    let data = encode_request(0x72, 0x04, 2, &practice_payload("Go"), None).unwrap();
    assert_eq!(
        data,
        [
            0x09, 0x72, 0x04, 0x02, 0x00, 0x10, 0x00, 0x00, b'G', b'o', 0, 0
        ]
    );
}

#[test]
fn long_request_carries_16_bit_length() {
    let command = "A".repeat(300);
    let payload = practice_payload(&command);
    let data = encode_request(0x72, 0x04, 9, &payload, None).unwrap();
    assert_eq!(&data[..4], [0, 0x72, 0x04, 9]);
    assert_eq!(
        u16::from_le_bytes([data[4], data[5]]) as usize,
        payload.len() + 4
    );
    assert_eq!(data.len(), 6 + payload.len() + payload.len() % 2);
}

#[test]
fn oversized_request_is_rejected() {
    let payload = vec![0u8; 0xF000];
    let error = encode_request(0x72, 0x04, 1, &payload, None).unwrap_err();
    assert_eq!(error.to_string(), "message buffer too large");
    assert!(encode_request(0x72, 0x04, 1, &[], Some(usize::MAX)).is_err());
    assert!(encode_request(0x72, 0x04, 1, &[], Some(0xEFFE)).is_ok());
}

#[test]
fn forced_length_keeps_the_short_form() {
    let address = Address::new(Some("E"), 0x2000_0000);
    let (payload, length) = memory_write_payload(&address, 0, &[0x55; 1024], None);
    let data = encode_request(0x74, 0x36, 1, &payload, Some(length)).unwrap();
    assert_eq!(data[0], 24);
    assert_eq!(data.len(), 4 + payload.len());
}

#[test]
fn error_answer_carries_message() {
    let mut answer = vec![90, 3, 0, 0, 0, 0];
    answer.extend_from_slice(&5u32.to_le_bytes());
    answer.extend_from_slice(b"oops\0");
    let error = check_response(&answer).unwrap_err();
    assert_eq!(error.code, Some(90));
    assert_eq!(error.message, "oops");
}

#[test]
fn short_error_answer_uses_default_message() {
    let error = check_response(&[3, 1]).unwrap_err();
    assert_eq!(error.message, "target not running");
}

#[test]
fn success_answer_strips_status_and_id() {
    assert_eq!(check_response(&[0, 4, 1, 2]).unwrap(), [1, 2]);
}

#[test]
fn known_code_without_message_uses_table_text() {
    let error = Trace32Error::from_code(16, None);
    assert_eq!(error.to_string(), "bus error");
}

#[test]
fn unknown_code_is_reported_by_number() {
    let error = Trace32Error::from_code(200, None);
    assert_eq!(error.to_string(), "TRACE32 error 200");
}

#[test]
fn command_error_names_the_command() {
    let error = Trace32Error::from_code(T32_ERR_FN1, Some("syntax error".into()))
        .with_operation(Operation::Command("Go".into()));
    assert_eq!(error.to_string(), "syntax error (command: Go)");
}

#[test]
fn errors_without_a_message_say_what_failed() {
    let silent = |operation: Operation| {
        Trace32Error {
            code: Some(91),
            operation,
            message: String::new(),
        }
        .to_string()
    };
    assert_eq!(silent(Operation::Api), "TRACE32 error 91");
    assert_eq!(
        silent(Operation::Command("Go".into())),
        "command failed (command: Go)"
    );
    assert_eq!(
        silent(Operation::Function("X()".into())),
        "function failed: X()"
    );
    assert_eq!(silent(Operation::MemoryRead), "memory read failed");
    assert_eq!(silent(Operation::MemoryWrite), "memory write failed");
    assert_eq!(silent(Operation::Practice), "");
    assert_eq!(
        Trace32Error::new(Operation::Api, "").to_string(),
        "TRACE32 error"
    );
    assert_eq!(default_message(254), Some("T32_Attach() is missing"));
    assert_eq!(default_message(1), None);
}

#[test]
fn timeouts_are_told_apart() {
    assert!(Error::Timeout.is_timeout());
    let script = Error::ScriptTimeout(Span::from_millis(1500));
    assert!(script.is_timeout());
    assert_eq!(
        script.to_string(),
        "PRACTICE script did not finish within 1.5s"
    );
    assert!(!Error::Connect("x".into()).is_timeout());
    assert!(matches!(
        Error::from_io(IoKind::WouldBlock, "x".into()),
        Error::Timeout
    ));
    assert!(matches!(
        Error::from_io(IoKind::TimedOut, "x".into()),
        Error::Timeout
    ));
    assert_eq!(
        Error::from_io(IoKind::Other, "refused".into()).to_string(),
        "refused"
    );
}

#[test]
fn splits_result_payload() {
    let mut payload = 0x0001u32.to_le_bytes().to_vec();
    payload.extend_from_slice(&6u32.to_le_bytes());
    payload.extend_from_slice(b"TRUE()");
    assert_eq!(split_result(&payload).unwrap(), (1, "TRUE()".to_string()));
    assert!(split_result(&payload[..10]).is_err());
}

fn float(text: &str) -> f64 {
    text.parse().unwrap()
}

#[test]
fn decodes_each_result_type() {
    assert_eq!(decode(0x0001, "TRUE()", "x").unwrap(), Value::Bool(true));
    assert_eq!(decode(0x0001, "FALSE()", "x").unwrap(), Value::Bool(false));
    assert!(decode(0x0001, "MAYBE", "x").is_err());
    assert_eq!(decode(0x0002, "0y0101", "x").unwrap(), Value::Int(5));
    assert_eq!(decode(0x0004, "0x1F", "x").unwrap(), Value::Int(31));
    assert_eq!(decode(0x0004, "1F", "x").unwrap(), Value::Int(31));
    assert_eq!(decode(0x0008, "187884.", "x").unwrap(), Value::Int(187884));
    assert_eq!(decode(0x0008, "-3.", "x").unwrap(), Value::Int(-3));
    match decode(0x0010, "1.5", "x").unwrap() {
        Value::Float(literal) => assert_eq!(float(&literal), 1.5),
        other => panic!("{other:?}"),
    }
    assert_eq!(
        decode(0x0040, "abc", "x").unwrap(),
        Value::Text("abc".into())
    );
    match decode(0x0400, "2.5s", "x").unwrap() {
        Value::Float(literal) => assert_eq!(float(&literal), 2.5),
        other => panic!("{other:?}"),
    }
    match decode(0x0800, "1.0s--2.0s", "x").unwrap() {
        Value::TimeRange(limits) => {
            let limits: Vec<f64> = limits.iter().map(|limit| float(limit)).collect();
            assert_eq!(limits, vec![1.0, 2.0]);
        }
        other => panic!("{other:?}"),
    }
    assert_eq!(decode(0x8000, "", "x").unwrap(), Value::Empty);
}

#[test]
fn undecodable_results_are_quoted() {
    assert_eq!(
        decode(0x0004, "x\"y", "F()").unwrap_err().to_string(),
        "cannot decode result \"x\\\"y\" (type 0x0004) of F()"
    );
    assert_eq!(
        decode(0x0001, "MAYBE", "F()").unwrap_err().to_string(),
        "MAYBE"
    );
    assert!(decode(0x0002, "0", "F()").is_err());
    assert!(decode(0x0002, "0\u{fc}1", "F()").is_err());
    assert!(decode(0x0800, "1.0s..x", "F()").is_err());
}

/// What is a floating-point literal agrees with `f64` on odd and ordinary texts.
#[test]
fn float_literals_are_those_of_f64() {
    for text in [
        "1", "1.", ".5", ".", "", "+", "-", "1e5", "1E+5", "1e", "1e+", "e5", "inf", "-Infinity",
        "NaN", "+nan", "infinit", "1.2.3", "0x10", "1_0", "--1", "1 2", " 1.5 ", "\u{a0}2\u{3000}",
        "1e5.0", "\u{661}",
    ] {
        assert_eq!(
            decode(0x0010, text, "x").is_ok(),
            text.trim().parse::<f64>().is_ok(),
            "{text:?}"
        );
    }
}

#[test]
fn python_int_rules() {
    assert_eq!(parse_int(" 42 ", 10), Some(42));
    assert_eq!(parse_int("1_000", 10), Some(1000));
    assert_eq!(parse_int("+7", 10), Some(7));
    assert_eq!(parse_int("0x_ff", 16), Some(255));
    assert_eq!(parse_int("1__0", 10), None);
    assert_eq!(parse_int("_1", 10), None);
    assert_eq!(parse_int("", 10), None);
    assert_eq!(parse_int("--1", 10), None);
    assert_eq!(parse_int("0x", 16), None);
}

#[test]
fn integers_reach_to_128_bits() {
    assert_eq!(parse_int(&i128::MAX.to_string(), 10), Some(i128::MAX));
    assert_eq!(parse_int(&i128::MIN.to_string(), 10), None);
    assert_eq!(
        parse_int(&(i128::MIN + 1).to_string(), 10),
        Some(i128::MIN + 1)
    );
    assert_eq!(parse_int("_17", 8), Some(15));
    assert_eq!(parse_int("-0b11", 2), Some(-3));
}

#[test]
fn align_eight_matches_python() {
    assert_eq!(align_eight(8), 0);
    assert_eq!(align_eight(12), 4);
    assert_eq!(align_eight(15), 1);
    assert_eq!(align_eight(16), 0);
}

#[test]
fn request_frame_is_padded_to_eight_bytes() {
    assert_eq!(
        encode_frame(&[0x02, 0x71, 0x01, 0x01]),
        [
            4, 0, 0, 0, 0x10, 0, 0, 0, 0x02, 0x71, 0x01, 0x01, 0, 0, 0, 0
        ]
    );
    assert_eq!(encode_frame(&[0; 8]).len(), 16);
}

#[test]
fn decodes_frames_split_at_every_byte() {
    let mut stream = response_frame(&[0, 1, 0xAA], RCL_RESP);
    stream.extend(response_frame(&[0, 2], RCL_NOTIFY));
    stream.extend(response_frame(&[0, 3, 1, 2, 3, 4, 5, 6, 7, 8], RCL_RESP));
    let mut decoder = FrameDecoder::default();
    let mut responses = VecDeque::new();
    for byte in &stream {
        decoder
            .feed(std::slice::from_ref(byte), &mut responses)
            .unwrap();
    }
    assert_eq!(
        Vec::from(responses),
        vec![vec![0, 1, 0xAA], vec![0, 3, 1, 2, 3, 4, 5, 6, 7, 8]]
    );
}

#[test]
fn decodes_several_frames_in_one_read() {
    let mut stream = response_frame(&[0, 1], RCL_RESP);
    stream.extend(response_frame(&[0, 2], RCL_RESP));
    let mut decoder = FrameDecoder::default();
    let mut responses = VecDeque::new();
    decoder.feed(&stream, &mut responses).unwrap();
    assert_eq!(responses.len(), 2);
}

#[test]
fn rejects_unknown_frame_type() {
    let mut decoder = FrameDecoder::default();
    let error = decoder
        .feed(&response_frame(&[0, 1], 0x99), &mut VecDeque::new())
        .unwrap_err();
    assert_eq!(error.to_string(), "TCP packet contains invalid messagetype");
}

#[test]
fn message_id_wraps_after_254() {
    let mut id = MessageId::default();
    assert_eq!(id.next(), 1);
    let mut id = MessageId(253);
    assert_eq!(id.next(), 254);
    assert_eq!(id.current(), 254);
    assert_eq!(id.next(), 0);
    assert_eq!(id.next(), 1);
}

#[test]
fn response_matching_skips_keepalive_and_stale_answers() {
    let mut queue = VecDeque::from(vec![
        vec![],
        vec![KEEPALIVE, 7],
        vec![0, 6, 0xAA],
        vec![0, 7, 0xBB],
    ]);
    assert_eq!(
        take_response(&mut queue, 7).unwrap(),
        Some(vec![0, 7, 0xBB])
    );
    assert!(queue.is_empty());
}

#[test]
fn response_from_the_future_breaks_the_connection() {
    let mut queue = VecDeque::from(vec![vec![0, 9]]);
    let error = take_response(&mut queue, 7).unwrap_err();
    assert_eq!(error.to_string(), "Messages out of sync, connection broken");
}

#[test]
fn empty_queue_needs_more_data() {
    assert_eq!(take_response(&mut VecDeque::new(), 1).unwrap(), None);
    let error = take_response(&mut VecDeque::from(vec![vec![1]]), 1).unwrap_err();
    assert_eq!(error.to_string(), "response is too short");
}

#[test]
fn name_query_is_padded_to_even_length() {
    assert_eq!(serialize_name_query("ab"), b"NM\x04\x00ab\0\0XX");
    assert_eq!(serialize_name_query("abc"), b"NM\x04\x00abc\0XX");
    assert_eq!(
        serialize_name_query("\u{fc}\u{fc}\u{fc}"),
        b"NM\x04\x00\xc3\xbc\xc3\xbcXX"
    );
}

#[test]
fn deserializes_full_answer() {
    let mut buffer = b"NM\x06\x00_SEGG\0".to_vec();
    buffer.extend_from_slice(b"NE\x04\x00ER\0\0");
    buffer.extend_from_slice(b"PT\x04\x00\\\\a\0");
    buffer.extend_from_slice(b"AD\x03\x00");
    buffer.extend_from_slice(&0x2000_0400u64.to_le_bytes());
    buffer.extend_from_slice(b"AC\x02\x00D\0XX");
    buffer.extend_from_slice(b"SZ");
    buffer.extend_from_slice(&168u64.to_le_bytes());
    buffer.extend_from_slice(b"XX");
    let symbol = deserialize(&buffer).unwrap();
    assert_eq!(symbol.name.as_deref(), Some("_SEGGER"));
    assert_eq!(symbol.path.as_deref(), Some("\\\\a"));
    assert_eq!(symbol.address, Some(Address::new(Some("D"), 0x2000_0400)));
    assert_eq!(symbol.size, 168);
}

#[test]
fn rejects_unknown_parameter() {
    assert!(deserialize(b"QQ\x00\x00").is_err());
}

#[test]
fn broken_symbols_are_reported() {
    let text = |data: &[u8]| deserialize(data).unwrap_err().to_string();
    assert_eq!(text(b"Q"), "truncated symbol in answer");
    assert_eq!(text(b"SZ\x00"), "truncated symbol in answer");
    assert_eq!(text(b"NM\x04\x00ab"), "truncated symbol in answer");
    assert_eq!(text(b"NE\x02\x00ab"), "name extension without a name");
    assert_eq!(text(b"NM\x02\x00\xff\xff"), "symbol text is not UTF-8");
    assert_eq!(text(b"AD\x03"), "truncated address in answer");
}
