//! Every operation of a session against a scripted peer.

use std::collections::VecDeque;

use tracebridge::t32rcl::address::Address;
use tracebridge::t32rcl::debugger::{
    command_call, command_outcome, flag_outcome, function_call, function_outcome, print_command,
    symbol_address_outcome, symbol_call, symbol_outcome, Call, ConnectStep, Connecting, Debugger,
    MemoryRead, MemoryWrite, ScriptRun, ScriptStep,
};
use tracebridge::t32rcl::error::{Error, Operation, Span};
use tracebridge::t32rcl::eval::Value;

/// One step of a scripted connection.
enum Step {
    /// Expect exactly this request frame, then answer with these bytes.
    Exchange { request: Vec<u8>, reply: Vec<u8> },
    /// Expect exactly this request frame and answer nothing.
    Swallow(Vec<u8>),
    /// Answer one byte at a time.
    Trickle { request: Vec<u8>, reply: Vec<u8> },
    /// Close the connection.
    Close,
}

/// The peer: one script per connection.
struct Peer {
    connections: VecDeque<VecDeque<Step>>,
    incoming: VecDeque<Vec<u8>>,
    closed: bool,
}

impl Peer {
    fn new(connections: Vec<Vec<Step>>) -> Peer {
        Peer {
            connections: connections
                .into_iter()
                .map(|steps| steps.into_iter().collect())
                .collect(),
            incoming: VecDeque::new(),
            closed: false,
        }
    }

    fn write(&mut self, frame: &[u8]) {
        let script = self.connections.front_mut().unwrap();
        match script.pop_front().expect("unexpected trailing request") {
            Step::Exchange { request, reply } => {
                assert_eq!(frame, request);
                self.incoming.push_back(reply);
            }
            Step::Trickle { request, reply } => {
                assert_eq!(frame, request);
                self.incoming.extend(reply.into_iter().map(|byte| vec![byte]));
            }
            Step::Swallow(request) => assert_eq!(frame, request),
            Step::Close => panic!("the peer has closed"),
        }
        if let Some(Step::Close) = script.front() {
            self.closed = true;
        }
    }

    /// What one read brings; nothing at all is a timeout.
    fn read(&mut self) -> Result<Vec<u8>, Error> {
        match self.incoming.pop_front() {
            Some(chunk) => Ok(chunk),
            None if self.closed => Ok(Vec::new()),
            None => Err(Error::Timeout),
        }
    }

    fn reconnect(&mut self) {
        assert!(self.connections.pop_front().unwrap().is_empty());
        self.incoming.clear();
    }
}

/// A client that owns the peer in place of a socket.
struct Client {
    debugger: Debugger,
    peer: Peer,
    /// Milliseconds that pass with every poll.
    tick: u64,
}

impl Client {
    fn call(&mut self, call: &Call) -> Result<Vec<u8>, Error> {
        let frame = self.debugger.request(call)?;
        self.peer.write(&frame);
        loop {
            if let Some(payload) = self.debugger.answer()? {
                return Ok(payload);
            }
            let chunk = self.peer.read()?;
            self.debugger.received(&chunk)?;
        }
    }

    fn connect(connections: Vec<Vec<Step>>) -> Result<Client, Error> {
        let mut client = Client {
            debugger: Debugger::new("localhost", 20000, Span::from_secs(2)),
            peer: Peer::new(connections),
            tick: 10,
        };
        let mut progress = Connecting::Attach;
        while let Some(call) = progress.next() {
            let outcome = client.call(&call);
            match progress.accept(outcome) {
                ConnectStep::Proceed => {}
                ConnectStep::Reconnect => {
                    client.peer.reconnect();
                    client.debugger.reconnected();
                }
                ConnectStep::Fail(error) => return Err(error),
            }
        }
        Ok(client)
    }

    fn cmd(&mut self, command: &str) -> Result<(), Error> {
        let outcome = self.call(&command_call(command));
        command_outcome(command, outcome)
    }

    fn print(&mut self, text: &str) -> Result<(), Error> {
        self.cmd(&print_command(text))
    }

    fn fnc(&mut self, expression: &str) -> Result<Value, Error> {
        let outcome = self.call(&function_call(expression));
        function_outcome(expression, outcome)
    }

    fn flag(&mut self, expression: &str) -> Result<bool, Error> {
        let outcome = self.call(&function_call(expression));
        flag_outcome(expression, outcome)
    }

    fn system_up(&mut self) -> Result<bool, Error> {
        self.flag("SYStem.Up()")
    }

    fn state_run(&mut self) -> Result<bool, Error> {
        self.flag("STATE.RUN()")
    }

    fn cmm(&mut self, script: &str, limit: Option<Span>) -> Result<(), Error> {
        let mut run = ScriptRun::new(script, limit);
        let mut elapsed = 0;
        loop {
            let outcome = self.call(&run.next());
            match run.accept(outcome, Span::from_millis(elapsed)) {
                ScriptStep::Proceed => {}
                ScriptStep::Pause => elapsed += self.tick,
                ScriptStep::Finish => return Ok(()),
                ScriptStep::Fail(error) => return Err(error),
            }
        }
    }

    fn memory_read(&mut self, address: &Address, length: usize) -> Result<Vec<u8>, Error> {
        let mut read = MemoryRead::new(address.clone(), length);
        while let Some(call) = read.next() {
            let outcome = self.call(&call);
            read.accept(outcome)?;
        }
        Ok(read.data)
    }

    fn write(&mut self, mut write: MemoryWrite) -> Result<(), Error> {
        while let Some(call) = write.next() {
            let outcome = self.call(&call);
            write.accept(outcome)?;
        }
        Ok(())
    }

    fn memory_write(&mut self, address: &Address, data: &[u8]) -> Result<(), Error> {
        self.write(MemoryWrite::new(address.clone(), data, None))
    }

    fn memory_write_u32(&mut self, address: &Address, value: u32) -> Result<(), Error> {
        self.write(MemoryWrite::new_u32(address.clone(), value))
    }

    fn symbol_address(&mut self, name: &str) -> Result<u64, Error> {
        let outcome = self.call(&symbol_call(name));
        symbol_address_outcome(name, outcome)
    }

    /// Checks that the script was played to its end.
    fn finish(self) {
        assert_eq!(self.peer.connections.len(), 1);
        let left = self.peer.connections[0]
            .iter()
            .filter(|step| !matches!(step, Step::Close))
            .count();
        assert_eq!(left, 0);
    }
}

fn pad8(mut frame: Vec<u8>) -> Vec<u8> {
    let padding = (8 - frame.len() % 8) % 8;
    frame.resize(frame.len() + padding, 0);
    frame
}

fn request(rapi_cmd: u8, opt_arg: u8, id: u8, payload: &[u8], force: Option<usize>) -> Vec<u8> {
    let mut msg_len = force.unwrap_or(2 + payload.len());
    let mut data = Vec::new();
    if msg_len > 0xFF {
        msg_len += 2;
        data.extend_from_slice(&[0, rapi_cmd, opt_arg, id]);
        data.extend_from_slice(&(msg_len as u16).to_le_bytes());
    } else {
        data.extend_from_slice(&[msg_len as u8, rapi_cmd, opt_arg, id]);
    }
    data.extend_from_slice(payload);
    if payload.len() % 2 == 1 {
        data.push(0);
    }
    let mut frame = (data.len() as u32).to_le_bytes().to_vec();
    frame.extend_from_slice(&0x10u32.to_le_bytes());
    frame.extend_from_slice(&data);
    pad8(frame)
}

fn frame(payload: &[u8], message_type: u32) -> Vec<u8> {
    let mut frame = (payload.len() as u32).to_le_bytes().to_vec();
    frame.extend_from_slice(&message_type.to_le_bytes());
    frame.extend_from_slice(payload);
    pad8(frame)
}

fn ok(id: u8, data: &[u8]) -> Vec<u8> {
    let mut payload = vec![0, id];
    payload.extend_from_slice(data);
    frame(&payload, 0x11)
}

fn error(id: u8, code: u8, message: &str) -> Vec<u8> {
    let mut payload = vec![code, id, 0, 0, 0, 0];
    payload.extend_from_slice(&(message.len() as u32).to_le_bytes());
    payload.extend_from_slice(message.as_bytes());
    frame(&payload, 0x11)
}

fn practice(text: &str) -> Vec<u8> {
    let mut payload = 4096u32.to_le_bytes().to_vec();
    payload.extend_from_slice(text.as_bytes());
    payload.push(0);
    payload
}

fn cmd_request(id: u8, command: &str) -> Vec<u8> {
    request(0x72, 0x04, id, &practice(command), None)
}

fn fnc_request(id: u8, expression: &str) -> Vec<u8> {
    request(0x72, 0x05, id, &practice(expression), None)
}

fn fnc_answer(id: u8, result_type: u32, value: &str) -> Vec<u8> {
    let mut data = result_type.to_le_bytes().to_vec();
    data.extend_from_slice(&(value.len() as u32).to_le_bytes());
    data.extend_from_slice(value.as_bytes());
    ok(id, &data)
}

fn cmd(id: u8, command: &str) -> Step {
    Step::Exchange {
        request: cmd_request(id, command),
        reply: ok(id, &[]),
    }
}

fn fnc(id: u8, expression: &str, result_type: u32, value: &str) -> Step {
    Step::Exchange {
        request: fnc_request(id, expression),
        reply: fnc_answer(id, result_type, value),
    }
}

fn e_address(value: u64, width: Option<u16>) -> Vec<u8> {
    let mut result = 3u16.to_le_bytes().to_vec();
    result.extend_from_slice(&value.to_le_bytes());
    result.extend_from_slice(b"AC\x02\x00E\x00");
    if let Some(width) = width {
        result.extend_from_slice(b"WI");
        result.extend_from_slice(&width.to_le_bytes());
    }
    result.extend_from_slice(b"XX");
    result
}

fn read_request(id: u8, address: u64, chunk: u16) -> Vec<u8> {
    let parameters = e_address(address, None);
    let mut payload = chunk.to_le_bytes().to_vec();
    payload.extend_from_slice(&parameters);
    request(0x74, 0x35, id, &payload, Some(parameters.len() + 6))
}

fn write_request(id: u8, address: u64, data: &[u8], width: Option<u16>) -> Vec<u8> {
    let parameters = e_address(address, width);
    let mut payload = (data.len() as u16).to_le_bytes().to_vec();
    payload.extend_from_slice(&parameters);
    payload.extend_from_slice(data);
    request(0x74, 0x36, id, &payload, Some(parameters.len() + 6))
}

fn handshake() -> Vec<Step> {
    vec![
        Step::Exchange {
            request: request(0x71, 0x01, 1, &[], None),
            reply: ok(1, &[]),
        },
        fnc(2, "SOFTWARE.BUILD()", 0x0008, "190766."),
        fnc(3, "SOFTWARE.BUILD.BASE()", 0x0008, "187884."),
        fnc(4, "VERSION.PYRCL(1.1.5)", 0x0040, "OK"),
    ]
}

fn session(steps: Vec<Step>) -> Client {
    let mut all = handshake();
    all.extend(steps);
    Client::connect(vec![all]).unwrap()
}

#[test]
fn connect_attaches_and_checks_version() {
    let client = session(vec![]);
    assert_eq!(client.debugger.node(), "localhost");
    assert_eq!(client.debugger.port(), 20000);
    assert_eq!(client.debugger.timeout().secs(), 2);
    client.finish();
}

#[test]
fn connect_rejects_old_powerview() {
    let failure = Client::connect(vec![vec![
        Step::Exchange {
            request: request(0x71, 0x01, 1, &[], None),
            reply: ok(1, &[]),
        },
        fnc(2, "SOFTWARE.BUILD()", 0x0008, "100000."),
        fnc(3, "SOFTWARE.BUILD.BASE()", 0x0008, "100000."),
    ]])
    .err()
    .unwrap();
    assert_eq!(
        failure.to_string(),
        "Minimum required software version: 126615:125398, current version 100000:100000 (build:base)"
    );
}

#[test]
fn attach_timeout_reconnects_once() {
    let client = Client::connect(vec![
        vec![Step::Swallow(request(0x71, 0x01, 1, &[], None))],
        // The message counter is not reset by the reconnection.
        vec![
            Step::Exchange {
                request: request(0x71, 0x01, 2, &[], None),
                reply: ok(2, &[]),
            },
            fnc(3, "SOFTWARE.BUILD()", 0x0008, "190766."),
            fnc(4, "SOFTWARE.BUILD.BASE()", 0x0008, "187884."),
            fnc(5, "VERSION.PYRCL(1.1.5)", 0x0040, "OK"),
        ],
    ])
    .unwrap();
    client.finish();
    let failure = Client::connect(vec![
        vec![Step::Swallow(request(0x71, 0x01, 1, &[], None))],
        vec![Step::Swallow(request(0x71, 0x01, 2, &[], None))],
    ])
    .err()
    .unwrap();
    assert!(matches!(failure, Error::Timeout));
}

#[test]
fn cmd_and_print() {
    let mut client = session(vec![cmd(5, "SYStem.Mode Up"), cmd(6, "ECHO \"hello\"")]);
    client.cmd("SYStem.Mode Up").unwrap();
    client.print("hello").unwrap();
    client.finish();
}

#[test]
fn cmd_failure_names_the_command() {
    let mut client = session(vec![Step::Exchange {
        request: cmd_request(5, "Bogus"),
        reply: error(5, 90, "unknown command"),
    }]);
    let failure = client.cmd("Bogus").unwrap_err();
    assert_eq!(failure.to_string(), "unknown command (command: Bogus)");
    match failure {
        Error::Trace32(error) => {
            assert_eq!(error.code, Some(90));
            assert_eq!(error.operation, Operation::Command("Bogus".into()));
        }
        other => panic!("{other:?}"),
    }
    client.finish();
}

#[test]
fn other_error_codes_are_not_command_errors() {
    let mut client = session(vec![Step::Exchange {
        request: cmd_request(5, "Go"),
        reply: frame(&[3, 5], 0x11),
    }]);
    let failure = client.cmd("Go").unwrap_err();
    assert_eq!(failure.to_string(), "target not running");
    client.finish();
}

#[test]
fn functions_decode_booleans() {
    let mut client = session(vec![
        fnc(5, "SYStem.Up()", 0x0001, "TRUE()"),
        fnc(6, "STATE.RUN()", 0x0001, "FALSE()"),
        fnc(7, "OS.PWD()", 0x0040, "/tmp"),
    ]);
    assert!(client.system_up().unwrap());
    assert!(!client.state_run().unwrap());
    assert_eq!(client.fnc("OS.PWD()").unwrap(), Value::Text("/tmp".into()));
    client.finish();
}

#[test]
fn unexpected_kinds_are_shown() {
    let mut client = session(vec![
        fnc(5, "SYStem.Up()", 0x0008, "7."),
        fnc(6, "STATE.RUN()", 0x0040, "a\"b"),
        fnc(7, "PRACTICE.SD()", 0x0001, "TRUE()"),
        fnc(8, "SYStem.Up()", 0x0010, " 1.50"),
        fnc(9, "STATE.RUN()", 0x0800, "1.0s..2.5e10s"),
    ]);
    assert_eq!(
        client.system_up().unwrap_err().to_string(),
        "SYStem.Up() returned Int(7), expected a boolean"
    );
    assert_eq!(
        client.state_run().unwrap_err().to_string(),
        "STATE.RUN() returned Text(\"a\\\"b\"), expected a boolean"
    );
    assert_eq!(
        client.cmm("x.cmm", None).unwrap_err().to_string(),
        "PRACTICE.SD() returned Bool(true), expected a number"
    );
    assert_eq!(
        client.system_up().unwrap_err().to_string(),
        "SYStem.Up() returned Float(1.5), expected a boolean"
    );
    assert_eq!(
        client.state_run().unwrap_err().to_string(),
        "STATE.RUN() returned TimeRange([1.0, 25000000000.0]), expected a boolean"
    );
    for literal in [".5", "5.", "+1e3", "-INF", "nan", "1e400", "1e-7", "0.10"] {
        let number: f64 = literal.parse().unwrap();
        assert_eq!(
            Value::Float(literal.into()).shown(),
            format!("Float({number:?})")
        );
    }
}

#[test]
fn function_failure() {
    let mut client = session(vec![Step::Exchange {
        request: fnc_request(5, "NOPE()"),
        reply: error(5, 90, "unknown function"),
    }]);
    let failure = client.fnc("NOPE()").unwrap_err();
    assert_eq!(failure.to_string(), "unknown function");
    client.finish();
}

#[test]
fn cmm_waits_for_the_practice_stack() {
    let mut client = session(vec![
        fnc(5, "PRACTICE.SD()", 0x0008, "0."),
        cmd(6, "DO \"/p/flash.cmm\" PREPAREONLY"),
        fnc(7, "PRACTICE.SD()", 0x0008, "1."),
        fnc(8, "PRACTICE.SD()", 0x0008, "0."),
    ]);
    client
        .cmm("\"/p/flash.cmm\" PREPAREONLY", Some(Span::from_secs(5)))
        .unwrap();
    client.finish();
}

#[test]
fn cmm_does_not_wait_with_a_zero_limit() {
    let mut client = session(vec![
        fnc(5, "PRACTICE.SD()", 0x0008, "0."),
        cmd(6, "DO x.cmm"),
    ]);
    client.cmm("x.cmm", Some(Span::from_secs(0))).unwrap();
    client.finish();
}

#[test]
fn cmm_times_out() {
    let mut steps = vec![fnc(5, "PRACTICE.SD()", 0x0008, "0."), cmd(6, "DO x.cmm")];
    for id in 7..=250 {
        steps.push(fnc(id, "PRACTICE.SD()", 0x0008, "1."));
    }
    let mut client = session(steps);
    let failure = client
        .cmm("x.cmm", Some(Span::from_millis(30)))
        .unwrap_err();
    assert!(matches!(failure, Error::ScriptTimeout(_)), "{failure:?}");
    assert_eq!(
        failure.to_string(),
        "PRACTICE script did not finish within 30ms"
    );
}

#[test]
fn cmm_detects_stack_underflow() {
    let mut client = session(vec![
        fnc(5, "PRACTICE.SD()", 0x0008, "2."),
        cmd(6, "DO x.cmm"),
        fnc(7, "PRACTICE.SD()", 0x0008, "1."),
    ]);
    let failure = client.cmm("x.cmm", None).unwrap_err();
    assert_eq!(failure.to_string(), "Practice stack depth error");
    client.finish();
}

#[test]
fn cmm_command_error_becomes_practice_error() {
    let mut client = session(vec![
        fnc(5, "PRACTICE.SD()", 0x0008, "0."),
        Step::Exchange {
            request: cmd_request(6, "DO missing.cmm"),
            reply: error(6, 90, "file not found"),
        },
    ]);
    match client.cmm("missing.cmm", None).unwrap_err() {
        Error::Trace32(error) => {
            assert_eq!(error.operation, Operation::Practice);
            assert_eq!(error.to_string(), "file not found");
        }
        other => panic!("{other:?}"),
    }
    client.finish();
}

#[test]
fn memory_read_in_chunks_of_1008() {
    let data: Vec<u8> = (0..2000u32).map(|i| i as u8).collect();
    let mut client = session(vec![
        Step::Exchange {
            request: read_request(5, 0x2000_0000, 16),
            reply: ok(5, &data[..16]),
        },
        Step::Exchange {
            request: read_request(6, 0x2000_0000, 1008),
            reply: ok(6, &data[..1008]),
        },
        Step::Exchange {
            request: read_request(7, 0x2000_0000 + 1008, 992),
            reply: ok(7, &data[1008..]),
        },
    ]);
    let address = Address::parse("E:0x20000000").unwrap();
    assert_eq!(client.memory_read(&address, 16).unwrap(), data[..16]);
    assert_eq!(client.memory_read(&address, 2000).unwrap(), data);
    client.finish();
}

#[test]
fn memory_read_failure() {
    let mut client = session(vec![
        Step::Exchange {
            request: read_request(5, 0x10, 4),
            reply: error(5, 16, "bus error"),
        },
        Step::Exchange {
            request: read_request(6, 0x10, 4),
            reply: ok(6, &[1, 2, 3]),
        },
    ]);
    let address = Address::new(Some("E"), 0x10);
    let failure = client.memory_read(&address, 4).unwrap_err();
    assert_eq!(failure.to_string(), "memory read failed: bus error");
    let failure = client.memory_read(&address, 4).unwrap_err();
    assert_eq!(failure.to_string(), "memory read returned 3 of 4 bytes");
    assert!(client.memory_read(&address, 0).unwrap().is_empty());
    client.finish();
}

#[test]
fn memory_write_in_chunks_of_1024_and_u32() {
    let data: Vec<u8> = (0..1500u32).map(|i| (i * 7) as u8).collect();
    let mut client = session(vec![
        Step::Exchange {
            request: write_request(5, 0x100, &data[..1024], None),
            reply: ok(5, &[]),
        },
        Step::Exchange {
            request: write_request(6, 0x100 + 1024, &data[1024..], None),
            reply: ok(6, &[]),
        },
        Step::Exchange {
            request: write_request(7, 0x200, &0xDEAD_BEEFu32.to_le_bytes(), Some(4)),
            reply: ok(7, &[]),
        },
    ]);
    client
        .memory_write(&Address::new(Some("E"), 0x100), &data)
        .unwrap();
    client
        .memory_write_u32(&Address::new(Some("E"), 0x200), 0xDEAD_BEEF)
        .unwrap();
    client.finish();
}

#[test]
fn memory_write_failure_with_wrong_parameters() {
    let mut client = session(vec![Step::Exchange {
        request: write_request(5, 0x0, b"A", None),
        reply: error(5, 90, ""),
    }]);
    let failure = client
        .memory_write(&Address::new(Some("E"), 0), b"A")
        .unwrap_err();
    assert_eq!(failure.to_string(), "memory write failed: wrong parameters");
    client.finish();
}

fn symbol_request(id: u8, name: &str) -> Vec<u8> {
    let length = (name.len() + 2) & !1;
    let mut stream = b"NM".to_vec();
    stream.extend_from_slice(&(length as u16).to_le_bytes());
    stream.extend_from_slice(name.as_bytes());
    stream.resize(4 + length, 0);
    stream.extend_from_slice(b"XX");
    let mut payload = ((stream.len() + 6) as u16).to_le_bytes().to_vec();
    payload.extend_from_slice(&stream);
    request(0x74, 0x68, id, &payload, None)
}

#[test]
fn symbol_query_resolves_address() {
    let name = "\\\\demo\\Global\\_SEGGER_RTT";
    let mut answer = b"NM\x0c\x00_SEGGER_RTT\x00".to_vec();
    answer.extend_from_slice(b"AD\x03\x00");
    answer.extend_from_slice(&0x2000_0400u64.to_le_bytes());
    answer.extend_from_slice(b"AC\x02\x00D\x00XX");
    answer.extend_from_slice(b"SZ");
    answer.extend_from_slice(&168u64.to_le_bytes());
    answer.extend_from_slice(b"XX");
    let mut client = session(vec![Step::Exchange {
        request: symbol_request(5, name),
        reply: ok(5, &answer),
    }]);
    assert_eq!(client.symbol_address(name).unwrap(), 0x2000_0400);
    client.finish();
    assert_eq!(symbol_outcome(Ok(answer)).unwrap().size, 168);
}

#[test]
fn symbol_without_address_is_an_error() {
    let mut client = session(vec![Step::Exchange {
        request: symbol_request(5, "x"),
        reply: ok(5, b"XX"),
    }]);
    let failure = client.symbol_address("x").unwrap_err();
    assert_eq!(failure.to_string(), "symbol x has no address");
    client.finish();
}

#[test]
fn answers_split_into_single_bytes() {
    let mut client = session(vec![Step::Trickle {
        request: fnc_request(5, "SYStem.Up()"),
        reply: fnc_answer(5, 0x0001, "TRUE()"),
    }]);
    assert!(client.system_up().unwrap());
    client.finish();
}

#[test]
fn keepalive_stale_answers_and_notifications_are_skipped() {
    let mut reply = frame(&[0xFE, 5], 0x11);
    reply.extend(frame(&[0, 9, 9], 0x12));
    reply.extend(ok(4, &[]));
    reply.extend(ok(5, &[]));
    let mut client = session(vec![Step::Exchange {
        request: cmd_request(5, "Go"),
        reply,
    }]);
    client.cmd("Go").unwrap();
    client.finish();
}

#[test]
fn answer_from_the_future_breaks_the_connection() {
    let mut client = session(vec![Step::Exchange {
        request: cmd_request(5, "Go"),
        reply: ok(6, &[]),
    }]);
    let failure = client.cmd("Go").unwrap_err();
    assert_eq!(
        failure.to_string(),
        "Messages out of sync, connection broken"
    );
    client.finish();
}

#[test]
fn silent_server_times_out() {
    let mut client = session(vec![Step::Swallow(cmd_request(5, "Go"))]);
    client.debugger.set_timeout(Span::from_millis(100));
    let failure = client.cmd("Go").unwrap_err();
    assert!(matches!(failure, Error::Timeout), "{failure:?}");
    assert_eq!(failure.to_string(), "timed out");
    client.finish();
}

#[test]
fn closed_connection_is_a_connect_error() {
    let mut client = session(vec![Step::Swallow(cmd_request(5, "Go")), Step::Close]);
    let failure = client.cmd("Go").unwrap_err();
    assert_eq!(failure.to_string(), "Connection closed by peer");
    client.finish();
}

#[test]
fn message_ids_wrap_on_a_long_session() {
    let mut steps = Vec::new();
    // Ids 5..=254, then 0, 1, 2.
    let ids: Vec<u8> = (5..=254u8).chain([0, 1, 2]).collect();
    for &id in &ids {
        steps.push(cmd(id, "Go"));
    }
    let mut client = session(steps);
    for _ in &ids {
        client.cmd("Go").unwrap();
    }
    client.finish();
}
