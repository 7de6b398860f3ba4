//! The commands from end to end, against a simulated PowerView.

use std::collections::HashMap;

use tracebridge::cli::{
    action_texts, adapter_start, apply_flash_options, describe, no_powerview, report_config,
    AdapterStart, ConfigFacts,
};
use tracebridge::config::{find_config_file, load_config, Config, FileContent};
use tracebridge::errors::BridgeError;
use tracebridge::flash::{catalog, library_dir, ScriptFile, Source};
use tracebridge::init::render;
use tracebridge::powerview::{require_file, StartEvent, StartStage};
use tracebridge::remote::{unconnected, Rcl};
use tracebridge::rtt::{
    run_time, settings, BlockSource, Memory, RttArgs, RttChannel, RttTerminal,
};
use tracebridge::t32rcl::debugger::{
    command_call, command_outcome, flag_outcome, function_call, print_command,
    symbol_address_outcome, symbol_call, Call, ConnectStep, Connecting, Debugger, MemoryRead,
    MemoryWrite, ScriptRun, ScriptStep,
};
use tracebridge::t32rcl::error::{Error, Span};
use tracebridge::target::{run_sequence, validate_target_action, Action};
use tracebridge::world::{Env, Lookup, Question, World};

const ROOT: &str = "/work/demo";

/// Simulated target state and a log of what the client did.
#[derive(Default)]
struct State {
    log: Vec<String>,
    system_up: bool,
    state_run: bool,
    memory: HashMap<u64, u8>,
    symbols: HashMap<String, u64>,
    /// Commands (by prefix) that fail.
    failing: Vec<String>,
}

impl State {
    fn commands(&self) -> Vec<String> {
        self.log
            .iter()
            .filter_map(|line| line.strip_prefix("cmd ").map(str::to_string))
            .collect()
    }

    fn write_memory(&mut self, address: u64, data: &[u8]) {
        for (i, byte) in data.iter().enumerate() {
            self.memory.insert(address + i as u64, *byte);
        }
    }

    fn read_memory(&self, address: u64, length: usize) -> Vec<u8> {
        (0..length)
            .map(|i| *self.memory.get(&(address + i as u64)).unwrap_or(&0))
            .collect()
    }

    fn word(&self, address: u64) -> u32 {
        u32::from_le_bytes(self.read_memory(address, 4).try_into().unwrap())
    }

    fn answer(&mut self, data: &[u8]) -> Vec<u8> {
        let (rapi_cmd, opt_arg, id) = (data[1], data[2], data[3]);
        let payload = if data[0] == 0 { &data[6..] } else { &data[4..] };
        match (rapi_cmd, opt_arg) {
            (0x71, _) => vec![0, id],
            (0x72, 0x04) => {
                let command = text(payload);
                self.log.push(format!("cmd {command}"));
                if self
                    .failing
                    .iter()
                    .any(|prefix| command.starts_with(prefix.as_str()))
                {
                    let message = "command failed";
                    let mut answer = vec![90, id, 0, 0, 0, 0];
                    answer.extend_from_slice(&(message.len() as u32).to_le_bytes());
                    answer.extend_from_slice(message.as_bytes());
                    return answer;
                }
                match command.as_str() {
                    "SYStem.Mode Attach" | "SYStem.Mode Up" | "SYStem.Up" => self.system_up = true,
                    "SYStem.Mode Down" | "SYStem.Down" => self.system_up = false,
                    "Go" => self.state_run = true,
                    "Break" => self.state_run = false,
                    _ => {}
                }
                vec![0, id]
            }
            (0x72, 0x05) => {
                let expression = text(payload);
                if !matches!(
                    expression.as_str(),
                    "SOFTWARE.BUILD()" | "SOFTWARE.BUILD.BASE()" | "VERSION.PYRCL(1.1.5)"
                ) {
                    self.log.push(format!("fnc {expression}"));
                }
                let flag = |value: bool| if value { "TRUE()" } else { "FALSE()" };
                match expression.as_str() {
                    "SOFTWARE.BUILD()" => function_answer(id, 0x0008, "190766."),
                    "SOFTWARE.BUILD.BASE()" => function_answer(id, 0x0008, "187884."),
                    "VERSION.PYRCL(1.1.5)" => function_answer(id, 0x0040, "OK"),
                    "SYStem.Up()" => function_answer(id, 0x0001, flag(self.system_up)),
                    "STATE.RUN()" => function_answer(id, 0x0001, flag(self.state_run)),
                    "PRACTICE.SD()" => function_answer(id, 0x0008, "0."),
                    other => panic!("unexpected function {other}"),
                }
            }
            (0x74, 0x35) => {
                let (address, length, _) = memory_request(payload);
                self.log.push(format!("read {address:#x} {length}"));
                let mut answer = vec![0, id];
                answer.extend(self.read_memory(address, length));
                answer
            }
            (0x74, 0x36) => {
                let (address, length, start) = memory_request(payload);
                let bytes = payload[start..start + length].to_vec();
                let hex: String = bytes.iter().map(|b| format!("{b:02x}")).collect();
                self.log.push(format!("write {address:#x} {hex}"));
                self.write_memory(address, &bytes);
                vec![0, id]
            }
            (0x74, 0x68) => {
                let length = u16::from_le_bytes([payload[4], payload[5]]) as usize;
                let name = String::from_utf8_lossy(&payload[6..6 + length])
                    .trim_end_matches('\0')
                    .to_string();
                self.log.push(format!("symbol {name}"));
                let mut answer = vec![0, id];
                if let Some(address) = self.symbols.get(&name) {
                    answer.extend_from_slice(b"AD\x03\x00");
                    answer.extend_from_slice(&address.to_le_bytes());
                    answer.extend_from_slice(b"AC\x02\x00D\x00XX");
                }
                answer.extend_from_slice(b"XX");
                answer
            }
            other => panic!("unexpected request {other:?}"),
        }
    }
}

fn frame(payload: &[u8]) -> Vec<u8> {
    let mut data = (payload.len() as u32).to_le_bytes().to_vec();
    data.extend_from_slice(&0x11u32.to_le_bytes());
    data.extend_from_slice(payload);
    data.resize(data.len().div_ceil(8) * 8, 0);
    data
}

fn function_answer(id: u8, result_type: u32, value: &str) -> Vec<u8> {
    let mut answer = vec![0, id];
    answer.extend_from_slice(&result_type.to_le_bytes());
    answer.extend_from_slice(&(value.len() as u32).to_le_bytes());
    answer.extend_from_slice(value.as_bytes());
    answer
}

fn text(payload: &[u8]) -> String {
    let body = &payload[4..];
    let end = body.iter().position(|&b| b == 0).unwrap_or(body.len());
    String::from_utf8_lossy(&body[..end]).into_owned()
}

/// Takes `u16 chunk | address parameters` apart: address, length, and where the
/// rest begins.
fn memory_request(payload: &[u8]) -> (u64, usize, usize) {
    let length = u16::from_le_bytes([payload[0], payload[1]]) as usize;
    let address = u64::from_le_bytes(payload[4..12].try_into().unwrap());
    let mut index = 12;
    loop {
        match &payload[index..index + 2] {
            b"AC" => {
                let len = u16::from_le_bytes([payload[index + 2], payload[index + 3]]) as usize;
                index += 4 + len;
            }
            b"WI" => index += 4,
            b"XX" => return (address, length, index + 2),
            other => panic!("unexpected address parameter {other:?}"),
        }
    }
}

/// A session with the simulated PowerView.
struct Client {
    session: Debugger,
    state: State,
}

impl Client {
    fn connect(state: State) -> Result<Client, Error> {
        let mut client = Client {
            session: Debugger::new("localhost", 20000, Span::from_secs(5)),
            state,
        };
        let mut stage = Connecting::Attach;
        while let Some(call) = stage.next() {
            let outcome = client.call(&call);
            match stage.accept(outcome) {
                ConnectStep::Proceed => {}
                ConnectStep::Reconnect => client.session.reconnected(),
                ConnectStep::Fail(error) => return Err(error),
            }
        }
        Ok(client)
    }

    fn call(&mut self, call: &Call) -> Result<Vec<u8>, Error> {
        let request = self.session.request(call)?;
        let length = u32::from_le_bytes(request[..4].try_into().unwrap()) as usize;
        let reply = frame(&self.state.answer(&request[8..8 + length]));
        // The reply arrives in two reads.
        for chunk in reply.chunks(11) {
            self.session.received(chunk)?;
        }
        Ok(self.session.answer()?.unwrap())
    }

    fn store(&mut self, mut write: MemoryWrite) -> Result<(), Error> {
        while let Some(call) = write.next() {
            let outcome = self.call(&call);
            write.accept(outcome)?;
        }
        Ok(())
    }
}

impl Rcl for Client {
    fn cmd(&mut self, command: &str) -> Result<(), Error> {
        let outcome = self.call(&command_call(command));
        command_outcome(command, outcome)
    }
    fn cmm(&mut self, script: &str, timeout: Option<Span>) -> Result<(), Error> {
        let mut run = ScriptRun::new(script, timeout);
        loop {
            let outcome = self.call(&run.next());
            match run.accept(outcome, Span::from_millis(1)) {
                ScriptStep::Proceed | ScriptStep::Pause => {}
                ScriptStep::Finish => return Ok(()),
                ScriptStep::Fail(error) => return Err(error),
            }
        }
    }
    fn print(&mut self, text: &str) -> Result<(), Error> {
        self.cmd(&print_command(text))
    }
    fn system_up(&mut self) -> Result<bool, Error> {
        let outcome = self.call(&function_call("SYStem.Up()"));
        flag_outcome("SYStem.Up()", outcome)
    }
    fn state_run(&mut self) -> Result<bool, Error> {
        let outcome = self.call(&function_call("STATE.RUN()"));
        flag_outcome("STATE.RUN()", outcome)
    }
}

impl Memory for Client {
    fn read(&mut self, address: u64, length: usize) -> Result<Vec<u8>, Error> {
        let mut read = MemoryRead::new(run_time(address), length);
        while let Some(call) = read.next() {
            let outcome = self.call(&call);
            read.accept(outcome)?;
        }
        Ok(read.data)
    }
    fn write(&mut self, address: u64, data: &[u8]) -> Result<(), Error> {
        self.store(MemoryWrite::new(run_time(address), data, None))
    }
    fn write_u32(&mut self, address: u64, value: u32) -> Result<(), Error> {
        self.store(MemoryWrite::new_u32(run_time(address), value))
    }
}

fn settle<T>(files: &[&str], mut call: impl FnMut(&World) -> Lookup<T>) -> T {
    let mut world = World::new();
    loop {
        match call(&world) {
            Lookup::Found(value) => return value,
            Lookup::Ask(question) => {
                let answer = match &question {
                    Question::File(path) if files.contains(&path.as_str()) => Some(String::new()),
                    _ => None,
                };
                world.learn(question, answer);
            }
        }
    }
}

fn vars() -> Env {
    let mut env = Env::new();
    env.insert("HOME", ROOT);
    env
}

fn load(source: &str) -> Result<Config, BridgeError> {
    let content = FileContent::Bytes(source.as_bytes().to_vec());
    let file = format!("{ROOT}/trace32.toml");
    settle(&[], |world| {
        load_config(&file, &content, &vars(), "linux", world)
    })
}

/// The configuration of a project in `/work/demo`.
fn project() -> Config {
    load(
        "[project]\nprogram = \"demo\"\nelf = \"build/demo.elf\"\n\n\
         [target]\ncpu = \"CORTEXM4\"\n\n\
         [flash]\nscript = \"flash.cmm\"\n\n\
         [trace32]\nsys = \"t32\"\nrcl_port = 20000\n",
    )
    .unwrap()
}

const FILES: [&str; 2] = ["/work/demo/build/demo.elf", "/work/demo/flash.cmm"];

/// Runs an action as the command does.
fn perform(config: &Config, action: Action, client: &mut Client) -> Result<(), BridgeError> {
    let choice = settle(&FILES, |world| {
        validate_target_action(config, action, &vars(), &[], world)
    })?;
    let script = choice.map(|choice| choice.script());
    run_sequence(config, script.as_deref(), client)
}

#[test]
fn open_reuses_running_powerview() {
    let config = project();
    let client = Client::connect(State::default()).unwrap();
    let mut stage = StartStage::Probe;
    assert_eq!(stage.advance(StartEvent::Port(true), &config, "log"), None);
    assert_eq!(
        stage.advance(StartEvent::Verified(Ok(())), &config, "log"),
        Some(Ok(false))
    );
    assert!(client.state.commands().is_empty());
}

#[test]
fn load_attaches_loads_symbols_and_runs() {
    let mut client = Client::connect(State::default()).unwrap();
    perform(&project(), Action::Load, &mut client).unwrap();
    assert_eq!(
        client.state.commands(),
        [
            "SYStem.Mode Down",
            "SYStem.CPU CORTEXM4",
            "CORE.ASSIGN 1.",
            "SYStem.Mode Attach",
            "Data.LOAD.Elf \"/work/demo/build/demo.elf\" /NoCODE",
            "List.auto",
            "Go",
            "ECHO \"tracebridge: symbols loaded for demo\"",
        ]
    );
    let (verb, done) = action_texts(Action::Load);
    assert_eq!(verb, "loading symbols from");
    assert_eq!(done, "symbols loaded, target running");
}

#[test]
fn flash_runs_the_project_script_then_programs() {
    let mut client = Client::connect(State::default()).unwrap();
    perform(&project(), Action::Flash, &mut client).unwrap();
    assert_eq!(client.state.log[0], "fnc PRACTICE.SD()");
    assert_eq!(
        client.state.log[1],
        "cmd DO \"/work/demo/flash.cmm\" PREPAREONLY"
    );
    let commands = client.state.commands();
    assert!(commands.contains(&"FLASH.ReProgram ALL /Erase".to_string()));
    let load = commands
        .iter()
        .position(|c| c == "Data.LOAD.Elf \"/work/demo/build/demo.elf\"")
        .unwrap();
    assert_eq!(commands[load + 1], "FLASH.ReProgram OFF");
    assert_eq!(
        action_texts(Action::Flash).1,
        "flashed, symbols loaded, target running"
    );
}

#[test]
fn flash_failure_is_reported_with_the_command() {
    let mut client = Client::connect(State::default()).unwrap();
    client.state.failing.push("FLASH.ReProgram ALL".into());
    assert_eq!(
        perform(&project(), Action::Flash, &mut client).unwrap_err().0,
        "TRACE32 flash failed: command failed (command: FLASH.ReProgram ALL /Erase)"
    );
}

#[test]
fn port_in_use_by_something_else_is_rejected() {
    let config = project();
    let mut stage = StartStage::Probe;
    assert_eq!(stage.advance(StartEvent::Port(true), &config, "log"), None);
    let closed = Error::Connect("Connection closed by peer".into());
    let failed = unconnected(config.rcl_port, &closed);
    let result = stage.advance(StartEvent::Verified(Err(failed)), &config, "log");
    assert_eq!(
        result.unwrap().unwrap_err().0,
        "port 20000 is open but is not a usable TRACE32 RCL endpoint: cannot connect to TRACE32 on RCL port 20000: Connection closed by peer"
    );
}

#[test]
fn missing_powerview_is_reported_when_nothing_listens() {
    let config = project();
    let mut stage = StartStage::Probe;
    assert_eq!(stage.advance(StartEvent::Port(false), &config, "log"), None);
    assert!(matches!(stage, StartStage::Prepare));
    let prepared = settle(&[], |world| {
        require_file(&config.t32_binary, "PowerView", true, world)
    });
    let result = stage.advance(StartEvent::Prepared(prepared), &config, "log");
    assert_eq!(
        result.unwrap().unwrap_err().0,
        "PowerView not found: /work/demo/t32/bin/linux64/t32marm-qt"
    );
}

#[test]
fn flash_script_is_chosen_by_chip_from_the_library() {
    // The home is the project directory, so the library lies inside it.
    let library = settle(&[], |world| library_dir(&vars(), world));
    assert_eq!(library, "/work/demo/.config/tracebridge/flash");
    let scripts = catalog(&vec![ScriptFile {
        path: format!("{library}/board.cmm"),
        source: Source::Library,
        content: Some(b"; @Chip: MYCHIP*\n; DO board [PREPAREONLY]\n".to_vec()),
    }]);
    let validate = |config: &Config| {
        settle(&FILES, |world| {
            validate_target_action(config, Action::Flash, &vars(), &scripts, world)
        })
    };
    let config = apply_flash_options(project(), Some("MYCHIP-A".into()), None);
    let choice = validate(&config).unwrap().unwrap();
    assert!(describe(&choice).ends_with("(library script for MYCHIP-A, @Chip MYCHIP*)"));
    let mut client = Client::connect(State::default()).unwrap();
    run_sequence(&config, Some(&choice.script()), &mut client).unwrap();
    assert_eq!(
        client.state.log[1],
        "cmd DO \"/work/demo/.config/tracebridge/flash/board.cmm\" PREPAREONLY"
    );

    let config = apply_flash_options(project(), Some("OTHER".into()), None);
    assert!(validate(&config)
        .unwrap_err()
        .0
        .contains("no flash script found for chip OTHER"));
}

#[test]
fn adapter_requires_powerview() {
    assert_eq!(adapter_start(false, false), AdapterStart::NoPowerView);
    let error = no_powerview(project().rcl_port).0;
    assert!(error.contains("no PowerView on RCL port") && error.contains("'tracebridge open'"));
}

#[test]
fn adapter_already_listening_is_not_an_error() {
    assert_eq!(adapter_start(true, true), AdapterStart::Running);
}

#[test]
fn missing_debug_adapter_is_reported() {
    let config = project();
    let result = settle(&[], |world| {
        require_file(&config.debug_adapter, "t32debugadapter", true, world)
    });
    assert!(result
        .unwrap_err()
        .0
        .starts_with("t32debugadapter not found: "));
}

fn arguments() -> RttArgs {
    RttArgs {
        program: None,
        symbol: None,
        control_block: None,
        node: "localhost".into(),
        port: None,
        poll: None,
        replay: false,
        output_only: false,
    }
}

/// The address of the control block, as the terminal finds it.
fn control_block(client: &mut Client) -> Result<(u64, String), BridgeError> {
    let settings = settings(&project(), &arguments())?;
    match settings.block_source()? {
        BlockSource::Known(address) => Ok((address, settings.banner(address))),
        BlockSource::Symbol(path) => {
            let outcome = client.call(&symbol_call(&path));
            match symbol_address_outcome(&path, outcome) {
                Ok(address) => Ok((address, settings.banner(address))),
                Err(error) => Err(settings.unresolved(&error)),
            }
        }
    }
}

#[test]
fn rtt_terminal_moves_data_both_ways() {
    let (cb, up, down) = (0x2000_0000u64, 0x2000_1000u64, 0x2000_2000u64);
    let mut state = State::default();
    state
        .symbols
        .insert("\\\\demo\\Global\\_SEGGER_RTT".into(), cb);
    state.write_memory(cb, b"SEGGER RTT\0\0\0\0\0\0");
    for (at, values) in [
        (cb + 0x18, [up as u32, 64, 6, 0]),
        (cb + 0x30, [down as u32, 16, 0, 0]),
    ] {
        for (i, value) in values.into_iter().enumerate() {
            state.write_memory(at + 4 + 4 * i as u64, &value.to_le_bytes());
        }
    }
    state.write_memory(up, b"hello\n");
    let mut client = Client::connect(state).unwrap();
    let (address, banner) = control_block(&mut client).unwrap();
    assert_eq!(address, cb);
    assert_eq!(
        banner,
        "TRACE32 RTT: _SEGGER_RTT @ 0x20000000; Ctrl-C to stop"
    );
    let mut terminal = RttTerminal::new(RttChannel::new(address));

    // Up-channel: the target's output is drained and RdOff advanced.
    assert_eq!(terminal.take_output(&mut client).unwrap(), b"hello\n");
    assert_eq!(client.state.word(cb + 0x18 + 0x10), 6);

    // Down-channel: DEL is sent as BS.
    terminal.send_input(&mut client, b"ls\x7f\n").unwrap();
    assert_eq!(client.state.word(cb + 0x30 + 0x0C), 4);
    assert_eq!(client.state.read_memory(down, 4), b"ls\x08\n");

    // More output from the target.
    client.state.write_memory(up + 6, b"again\n");
    client.state.write_memory(cb + 0x18 + 0x0C, &12u32.to_le_bytes());
    assert_eq!(terminal.take_output(&mut client).unwrap(), b"again\n");
    assert_eq!(client.state.word(cb + 0x18 + 0x10), 12);
    assert_eq!(terminal.take_output(&mut client).unwrap(), b"");
}

#[test]
fn unknown_symbol_explains_what_to_do() {
    let mut client = Client::connect(State::default()).unwrap();
    let error = control_block(&mut client).unwrap_err().0;
    assert!(
        error.starts_with("cannot resolve _SEGGER_RTT in 'demo' ("),
        "{error}"
    );
    assert!(error.contains("Run 'tracebridge load' first, or pass --cb 0x<address>."));
}

#[test]
fn rtt_requires_powerview() {
    assert!(no_powerview(20000).0.contains("no PowerView on RCL port"));
}

#[test]
fn init_then_config_from_a_subdirectory() {
    let file = format!("{ROOT}/trace32.toml");
    let found = settle(&[&file], |world| {
        find_config_file(None, "/work/demo/src/app", &vars(), world)
    });
    assert_eq!(found.unwrap(), file);
    let config = load(&render(ROOT)).unwrap();
    let facts = ConfigFacts {
        project: true,
        elf: false,
        binary: false,
        config: false,
        adapter: false,
        script: false,
        exe: None,
        settings: None,
    };
    let choice = Err(BridgeError("none".into()));
    let text = report_config(&config, &choice, &facts).join("\n");
    assert!(text.contains("MISSING ELF="), "{text}");
    assert!(text.contains("ports   RCL 20000, DAP 58870"), "{text}");
}

#[test]
fn missing_configuration_is_reported() {
    let found = settle(&[], |world| find_config_file(None, ROOT, &vars(), world));
    assert!(found.unwrap_err().0.contains("no trace32.toml found in"));
}

#[test]
fn explicit_config_is_used() {
    let found = settle(&["/work/demo/trace32.toml"], |world| {
        find_config_file(Some("elsewhere/custom.toml"), ROOT, &vars(), world)
    });
    assert_eq!(found.unwrap(), "/work/demo/elsewhere/custom.toml");
}

#[test]
fn configuration_errors_exit_with_1() {
    assert_eq!(
        load("[project]\nprogram = \"\"\n").unwrap_err().0,
        "project.program is empty in trace32.toml"
    );
}
