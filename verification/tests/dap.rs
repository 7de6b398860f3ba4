//! DAP framing and the rules of the proxy.

use tracebridge::dap::protocol::{
    encode_message, frame_message, take_members, DapDecoder, MAX_HEADER_BYTES, MAX_MESSAGE_BYTES,
};
use tracebridge::dap::proxy::{
    adapter_arguments, backend_connect_failed, listening_line, log_line, no_answer_text, restart_replies,
    BackendAction, ClientAction, ConnectFailure, DapProxy, NoAnswer, ProxyCore, SessionState,
    FIRST_SEQUENCE,
};
use tracebridge::json::{
    as_i64, as_str, copy, get, get_field, insert, parse_i64, truthy, Json, Message,
};
use tracebridge::vscode::jsonc::loads;

fn json(text: &str) -> Json {
    loads(text, "test").unwrap()
}

fn message(text: &str) -> Message {
    match json(text) {
        Json::Object(members) => members,
        other => panic!("{other:?}"),
    }
}

fn at<'a>(message: &'a Message, key: &str) -> &'a Json {
    get(message, key).unwrap()
}

fn text(message: &Message, key: &str) -> String {
    as_str(get(message, key)).unwrap().to_string()
}

fn number(message: &Message, key: &str) -> i64 {
    as_i64(get(message, key)).unwrap()
}

#[test]
fn decodes_split_message() {
    let request = message(r#"{"seq": 1, "type": "request", "command": "initialize"}"#);
    let encoded = encode_message(&request).unwrap();
    let mut decoder = DapDecoder::default();
    let midpoint = encoded.len() / 2;
    assert!(decoder.feed(&encoded[..midpoint]).unwrap().is_empty());
    assert_eq!(decoder.feed(&encoded[midpoint..]).unwrap(), [request]);
}

#[test]
fn decodes_multiple_messages() {
    let first = message(r#"{"seq": 1}"#);
    let second = message(r#"{"seq": 2}"#);
    let mut stream = encode_message(&first).unwrap();
    stream.extend(encode_message(&second).unwrap());
    assert_eq!(
        DapDecoder::default().feed(&stream).unwrap(),
        [first, second]
    );
}

#[test]
fn messages_in_a_row_are_read_back() {
    let texts = [
        r#"{}"#,
        r#"{"a": 1.5e+3, "$serde_json::private::Number": "2", "b": [{"c": -0}]}"#,
        r#"{"text": "Content-Length: 1\r\n\r\n"}"#,
    ];
    let messages: Vec<Message> = texts.iter().map(|text| message(text)).collect();
    let mut stream = Vec::new();
    for message in &messages {
        stream.extend(encode_message(message).unwrap());
    }
    let mut decoder = DapDecoder::default();
    assert_eq!(decoder.feed(&stream).unwrap(), messages);
    assert!(decoder.feed(b"").unwrap().is_empty());
}

#[test]
fn rejects_missing_content_length() {
    let error = DapDecoder::default()
        .feed(b"Other: value\r\n\r\n{}")
        .unwrap_err();
    assert_eq!(error.0, "DAP message has no Content-Length");
}

#[test]
fn rejects_oversized_message() {
    let error = DapDecoder::new(MAX_HEADER_BYTES, 4)
        .feed(b"Content-Length: 5\r\n\r\n12345")
        .unwrap_err();
    assert_eq!(error.0, "invalid DAP message length: 5");
    let body = vec![b' '; MAX_MESSAGE_BYTES + 1];
    assert_eq!(
        frame_message(Ok(body)).unwrap_err().0,
        "DAP message exceeds 16777216 bytes"
    );
}

#[test]
fn encodes_compact_json_with_raw_unicode() {
    let encoded = encode_message(&message("{\"a\": \"\u{fc}\", \"b\": [1, 2]}")).unwrap();
    assert_eq!(
        encoded,
        "Content-Length: 20\r\n\r\n{\"a\":\"\u{fc}\",\"b\":[1,2]}".as_bytes()
    );
}

#[test]
fn keeps_key_order_and_numbers() {
    let text = r#"{"z":1,"a":12345678901234567890123,"m":1.50}"#;
    let frame = format!("Content-Length: {}\r\n\r\n{text}", text.len());
    let decoded = DapDecoder::default().feed(frame.as_bytes()).unwrap();
    let encoded = encode_message(&decoded[0]).unwrap();
    assert_eq!(encoded, frame.as_bytes());
}

#[test]
fn numbers_that_are_none_cannot_be_encoded() {
    let broken: Message = vec![("n".into(), Json::Number("1x".into()))];
    let error = encode_message(&broken).unwrap_err();
    assert!(error.0.starts_with("cannot encode DAP message: "), "{error:?}");
}

#[test]
fn header_is_case_insensitive_and_first_length_wins() {
    let frame = b"X: 1\r\ncontent-LENGTH:  2 \r\nContent-Length: 99\r\n\r\n{}";
    assert_eq!(DapDecoder::default().feed(frame).unwrap().len(), 1);
}

#[test]
fn rejects_bad_headers_and_payloads() {
    let cases: [(&[u8], &str); 6] = [
        (
            b"Content-Length: x\r\n\r\n",
            "invalid DAP Content-Length: x",
        ),
        (
            b"Content-Length: -1\r\n\r\n",
            "invalid DAP message length: -1",
        ),
        (
            b"Content-Length: 2\r\n\r\n[]",
            "DAP payload must be a JSON object",
        ),
        (b"Content-Length: 1\r\n\r\n{", "invalid DAP JSON: "),
        (
            b"Content-L\xc3\xa4ngth: 1\r\n\r\n{",
            "DAP header is not ASCII",
        ),
        (
            b"Content-Length: 1\r\n\r\n\xff",
            "invalid DAP JSON: invalid utf-8 sequence",
        ),
    ];
    for (input, expected) in cases {
        let error = DapDecoder::default().feed(input).unwrap_err();
        assert!(error.0.starts_with(expected), "{input:?}: {error:?}");
    }
    assert_eq!(
        take_members(Ok(Json::Null)).unwrap_err().0,
        "DAP payload must be a JSON object"
    );
}

#[test]
fn rejects_endless_header() {
    let mut decoder = DapDecoder::new(8, MAX_MESSAGE_BYTES);
    assert!(decoder.feed(b"Content-").unwrap().is_empty());
    assert_eq!(decoder.feed(b"L").unwrap_err().0, "DAP header is too large");
}

#[test]
fn byte_by_byte_feeding() {
    let request = message(r#"{"seq": 7, "command": "next"}"#);
    let mut stream = encode_message(&request).unwrap();
    stream.extend(encode_message(&request).unwrap());
    let mut decoder = DapDecoder::default();
    let mut decoded = Vec::new();
    for byte in stream {
        decoded.extend(decoder.feed(&[byte]).unwrap());
    }
    assert_eq!(
        decoded,
        [
            message(r#"{"seq": 7, "command": "next"}"#),
            message(r#"{"seq": 7, "command": "next"}"#)
        ]
    );
}

#[test]
fn truth_of_json_values() {
    for (value, expected) in [
        ("null", false),
        ("true", true),
        ("false", false),
        ("0", false),
        ("-0.0", false),
        ("0.5", true),
        ("1e400", false),
        ("1e-400", false),
        ("\"\"", false),
        ("\"x\"", true),
        ("[]", false),
        ("[0]", true),
        ("{}", false),
        ("{\"a\": null}", true),
    ] {
        let value = match json(&format!("[{value}]")) {
            Json::Array(mut items) => items.remove(0),
            other => panic!("{other:?}"),
        };
        assert_eq!(truthy(Some(&value)), expected, "{value:?}");
    }
    assert!(!truthy(None));
}

#[test]
fn json_values_are_copied() {
    let value = json(r#"{"a": [1, {"b": null}], "c": "x", "d": true}"#);
    assert_eq!(copy(&value), value);
    assert_eq!(parse_i64("-9223372036854775808"), Some(i64::MIN));
    assert_eq!(parse_i64("9223372036854775808"), None);
    assert_eq!(parse_i64("1.0"), None);
    assert_eq!(parse_i64("-"), None);
    let mut members = message(r#"{"a": 1, "b": 2}"#);
    insert(&mut members, "a", Json::Bool(true));
    insert(&mut members, "z", Json::Null);
    assert_eq!(members, message(r#"{"a": true, "b": 2, "z": null}"#));
}

/// A session whose both ends are in the test.
struct Harness {
    core: ProxyCore,
    state: SessionState,
}

impl Harness {
    fn new() -> Harness {
        Harness {
            core: ProxyCore::new(),
            state: SessionState::new(),
        }
    }

    fn client(&mut self, text: &str) -> ClientAction {
        self.state
            .handle_client_message(&mut self.core, message(text))
    }

    fn backend(&mut self, text: &str) -> BackendAction {
        self.state.handle_backend_message(message(text))
    }

    fn forwarded(&mut self, text: &str) -> Message {
        match self.client(text) {
            ClientAction::Forward(message) => message,
            other => panic!("{other:?}"),
        }
    }

    fn returned(&mut self, text: &str) -> Message {
        match self.backend(text) {
            BackendAction::Forward(message) => message,
            other => panic!("{other:?}"),
        }
    }

    fn reply(&mut self, text: &str) -> Message {
        match self.client(text) {
            ClientAction::Reply(message) => message,
            other => panic!("{other:?}"),
        }
    }

    fn restart(&mut self, text: &str) -> Message {
        match self.client(text) {
            ClientAction::Restart(message) => message,
            other => panic!("{other:?}"),
        }
    }
}

#[test]
fn locals_reference_is_intercepted() {
    let mut h = Harness::new();
    let scopes = h.forwarded(
        r#"{"seq": 1, "type": "request", "command": "scopes", "arguments": {"frameId": 1}}"#,
    );
    assert_eq!(text(&scopes, "command"), "scopes");
    let answer = h.returned(
        r#"{"seq": 2, "type": "response", "request_seq": 1, "success": true,
            "command": "scopes",
            "body": {"scopes": [
                {"name": "Locals", "presentationHint": "locals", "variablesReference": 42},
                {"name": "Registers", "variablesReference": 43}
            ]}}"#,
    );
    assert_eq!(number(&answer, "request_seq"), 1);
    let response = h.reply(
        r#"{"seq": 3, "type": "request", "command": "variables",
            "arguments": {"variablesReference": 42}}"#,
    );
    assert_eq!(at(&response, "success"), &Json::Bool(true));
    assert_eq!(number(&response, "request_seq"), 3);
    assert_eq!(text(&response, "command"), "variables");
    assert_eq!(at(&response, "body"), &json(r#"{"variables": []}"#));
    assert_eq!(at(&response, "message"), &Json::Null);
    assert!(number(&response, "seq") >= FIRST_SEQUENCE);
    // Other references are forwarded.
    let other = h.forwarded(
        r#"{"seq": 4, "type": "request", "command": "variables",
            "arguments": {"variablesReference": 43}}"#,
    );
    assert_eq!(number(&other, "seq"), 4);
}

#[test]
fn scope_name_locals_matches_without_hint() {
    let mut h = Harness::new();
    h.forwarded(r#"{"seq": 1, "type": "request", "command": "scopes"}"#);
    // No "command" in the response: the remembered request command is used.
    h.returned(
        r#"{"seq": 2, "type": "response", "request_seq": 1, "success": true,
            "body": {"scopes": [{"name": "LOCALS", "variablesReference": 7}]}}"#,
    );
    let response = h.reply(
        r#"{"seq": 3, "type": "request", "command": "variables",
            "arguments": {"variablesReference": 7}}"#,
    );
    assert_eq!(at(&response, "body"), &json(r#"{"variables": []}"#));
}

#[test]
fn restart_resets_then_continues() {
    let mut h = Harness::new();
    let request =
        h.restart(r#"{"seq": 5, "type": "request", "command": "restart", "arguments": {}}"#);
    let (sequence, internal) = h.state.continue_request(&mut h.core);
    assert_eq!(text(&internal, "command"), "continue");
    assert_eq!(at(&internal, "arguments"), &json(r#"{"threadId": 0}"#));
    assert_eq!(text(&internal, "type"), "request");
    assert_eq!(number(&internal, "seq"), sequence);
    assert!(sequence >= FIRST_SEQUENCE);
    let answer = format!(
        r#"{{"seq": 9, "type": "response", "request_seq": {sequence},
             "success": true, "command": "continue"}}"#
    );
    match h.backend(&answer) {
        BackendAction::Answer(number, Ok(_)) => assert_eq!(number, sequence),
        other => panic!("{other:?}"),
    }
    // Only the first answer counts, and none reaches the IDE.
    assert!(matches!(h.backend(&answer), BackendAction::Drop));
    h.state.finish_request(sequence);
    let replies = restart_replies(&mut h.core, &request, Ok(()));
    assert_eq!(replies.len(), 2);
    assert_eq!(number(&replies[0], "request_seq"), 5);
    assert_eq!(text(&replies[0], "command"), "restart");
    assert_eq!(at(&replies[0], "success"), &Json::Bool(true));
    assert_eq!(text(&replies[1], "type"), "event");
    assert_eq!(text(&replies[1], "event"), "continued");
    assert_eq!(
        at(&replies[1], "body"),
        &json(r#"{"threadId": 0, "allThreadsContinued": true}"#)
    );
    assert_eq!(number(&replies[1], "seq"), number(&replies[0], "seq") + 1);
}

#[test]
fn restart_clears_locals_references() {
    let mut h = Harness::new();
    h.forwarded(r#"{"seq": 1, "type": "request", "command": "scopes"}"#);
    h.returned(
        r#"{"seq": 2, "type": "response", "request_seq": 1, "success": true,
            "command": "scopes",
            "body": {"scopes": [{"name": "Locals", "variablesReference": 42}]}}"#,
    );
    h.restart(r#"{"seq": 3, "type": "request", "command": "restart"}"#);
    h.state.continue_request(&mut h.core);
    let variables = h.forwarded(
        r#"{"seq": 5, "type": "request", "command": "variables",
            "arguments": {"variablesReference": 42}}"#,
    );
    assert_eq!(number(&variables, "seq"), 5);
}

#[test]
fn restart_failure_is_reported_to_the_client() {
    let mut h = Harness::new();
    let request = h.restart(r#"{"seq": 5, "type": "request", "command": "restart"}"#);
    let replies = restart_replies(
        &mut h.core,
        &request,
        Err("TRACE32 reset failed: target not responding".into()),
    );
    assert_eq!(replies.len(), 1);
    let response = &replies[0];
    assert_eq!(at(response, "success"), &Json::Bool(false));
    assert_eq!(number(response, "request_seq"), 5);
    assert_eq!(
        text(response, "message"),
        "TRACE32 reset failed: target not responding"
    );
    assert_eq!(at(response, "body"), &Json::Null);
}

#[test]
fn failed_internal_continue_is_reported() {
    let mut h = Harness::new();
    h.restart(r#"{"seq": 5, "type": "request", "command": "restart"}"#);
    let (sequence, _) = h.state.continue_request(&mut h.core);
    let answer = format!(
        r#"{{"seq": 9, "type": "response", "request_seq": {sequence},
             "success": false, "command": "continue"}}"#
    );
    match h.backend(&answer) {
        BackendAction::Answer(_, Err(text)) => assert_eq!(text, "continue failed"),
        other => panic!("{other:?}"),
    }
    let (sequence, _) = h.state.continue_request(&mut h.core);
    let answer = format!(
        r#"{{"seq": 9, "type": "response", "request_seq": {sequence}, "message": "busy"}}"#
    );
    match h.backend(&answer) {
        BackendAction::Answer(_, Err(text)) => assert_eq!(text, "busy"),
        other => panic!("{other:?}"),
    }
    assert_eq!(
        no_answer_text("continue", NoAnswer::Expired),
        "t32debugadapter did not answer continue within 5s"
    );
    assert_eq!(
        no_answer_text("continue", NoAnswer::Ended),
        "the debug session ended"
    );
    assert_eq!(
        no_answer_text("continue", NoAnswer::Unsent("broken pipe".into())),
        "broken pipe"
    );
}

#[test]
fn launch_with_attach_request_is_rewritten() {
    let mut h = Harness::new();
    let forwarded = h.forwarded(
        r#"{"seq": 2, "type": "request", "command": "launch",
            "arguments": {"type": "node", "request": "attach", "trace32Port": 20000}}"#,
    );
    assert_eq!(text(&forwarded, "command"), "attach");
    assert_eq!(
        as_i64(get_field(at(&forwarded, "arguments"), "trace32Port")),
        Some(20000)
    );
    let response = h.returned(
        r#"{"seq": 3, "type": "response", "request_seq": 2, "success": true,
            "command": "attach"}"#,
    );
    assert_eq!(text(&response, "command"), "launch");
    assert_eq!(number(&response, "request_seq"), 2);
    // The rewrite is forgotten with its response.
    let response = h.returned(
        r#"{"seq": 4, "type": "response", "request_seq": 2, "command": "attach"}"#,
    );
    assert_eq!(text(&response, "command"), "attach");
}

#[test]
fn plain_launch_is_forwarded_unchanged() {
    let mut h = Harness::new();
    let launch = r#"{"seq": 2, "type": "request", "command": "launch", "arguments": {}}"#;
    assert_eq!(h.forwarded(launch), message(launch));
}

#[test]
fn messages_keep_their_fields_and_order() {
    let mut h = Harness::new();
    let forwarded = h.forwarded(
        r#"{"seq": 1, "type": "request", "command": "initialize",
            "arguments": {"clientID": "vscode", "adapterID": "node", "linesStartAt1": true}}"#,
    );
    let expected = r#"{"seq":1,"type":"request","command":"initialize","arguments":{"clientID":"vscode","adapterID":"node","linesStartAt1":true}}"#;
    let encoded = encode_message(&forwarded).unwrap();
    assert!(encoded.ends_with(expected.as_bytes()));
    let event = h.returned(r#"{"seq": 1, "type": "event", "event": "initialized"}"#);
    assert_eq!(text(&event, "event"), "initialized");
}

#[test]
fn invalid_client_framing_ends_the_session_with_an_error() {
    let error = DapDecoder::default()
        .feed(b"Other: 1\r\n\r\n{}")
        .unwrap_err();
    assert_eq!(error.0, "DAP message has no Content-Length");
    let mut proxy = DapProxy::new();
    assert!(proxy.claim_session());
    assert!(!proxy.claim_session());
    assert_eq!(
        proxy.session_ended(Err(error.0)),
        Some("session error: DAP message has no Content-Length".into())
    );
    assert_eq!(proxy.adapter_exited(Some(0)), None);
    assert_eq!(
        proxy.result().unwrap_err().0,
        "DAP proxy exited with code 1"
    );
}

#[test]
fn backend_that_never_listens_is_reported() {
    assert_eq!(
        backend_connect_failed(ConnectFailure::Refused, false, 58871),
        None
    );
    assert_eq!(
        backend_connect_failed(ConnectFailure::Refused, true, 58871),
        Some("cannot connect to t32debugadapter on 58871".into())
    );
    assert_eq!(
        backend_connect_failed(ConnectFailure::Other("no route".into()), false, 58871),
        Some("no route".into())
    );
}

#[test]
fn adapter_exit_codes_become_those_of_the_proxy() {
    let mut proxy = DapProxy::new();
    assert!(proxy.result().is_ok());
    assert_eq!(
        proxy.adapter_exited(Some(0)),
        Some("t32debugadapter exited (0)".into())
    );
    assert_eq!(proxy.exit_code, 1);
    let mut proxy = DapProxy::new();
    assert_eq!(
        proxy.adapter_exited(Some(-15)),
        Some("t32debugadapter exited (-15)".into())
    );
    assert_eq!(
        proxy.result().unwrap_err().0,
        "DAP proxy exited with code -15"
    );
    let mut proxy = DapProxy::new();
    assert_eq!(proxy.session_ended(Ok(())), None);
    assert!(proxy.finished);
    assert_eq!(
        adapter_arguments(58871, true),
        ["--port", "58871", "--log_to", "stdout", "--log_level", "debug"]
    );
    assert_eq!(adapter_arguments(1, false).len(), 4);
    assert_eq!(
        listening_line(58870, 58871),
        "adapter listening on 127.0.0.1:58870 (backend 58871)"
    );
    assert_eq!(
        log_line(&listening_line(58870, 58871)),
        "[tracebridge] adapter listening on 127.0.0.1:58870 (backend 58871)"
    );
}
