//! Starting PowerView or using one that runs.

use vstd::prelude::*;
use vstd::string::*;

use crate::config::{is_command_safe, Config, ConfigView, Known};
use crate::errors::BridgeError;
use crate::t32config::RclSettings;
use crate::t32rcl::error::Error;
use crate::t32rcl::eval::text_views;
use crate::text::{
    chars_of, concat2, concat3, concat4, concat5, contains_char, decimal, decimal_text, integer,
    integer_text,
};
use crate::world::{ask, Found, Lookup, Question, QuestionView, World};

verus! {

/// The script that adds the buttons of the toolbar.
pub const TOOLBAR_CMM: &'static str = "; Adds the Flash and Load ELF buttons to the main toolbar.
; Arguments: the tracebridge executable and the configuration file.

PRIVATE &exe &config
ENTRY &exe &config

MENU.ReProgram
(&+
  ADD
  TOOLBAR
  (
    SEPARATOR
    TOOLITEM \"Flash\"    \":FLASH\" \"OS.Command \"\"&exe\"\" --config \"\"&config\"\" flash &\"
    TOOLITEM \"Load ELF\" \":LOAD\"  \"OS.Command \"\"&exe\"\" --config \"\"&config\"\" load &\"
  )
)

ENDDO
";

/// How many milliseconds PowerView has to become ready.
pub const READY_MILLIS: u64 = 120_000;

/// How many milliseconds a connection for the toolbar is tried for.
pub const TOOLBAR_CONNECT_MILLIS: u64 = 60_000;

/// How many milliseconds lie between two attempts.
pub const POLL_MILLIS: u64 = 200;

/// What is missing of a file that is needed, if anything is.
pub open spec fn file_complaint(
    path: Seq<char>,
    description: Seq<char>,
    executable: bool,
    world: Known,
) -> Found<Option<Seq<char>>> {
    match ask(world, QuestionView::File(path)) {
        Found::Ask(question) => Found::Ask(question),
        Found::Found(None) => Found::Found(Some(description + " not found: "@ + path)),
        Found::Found(Some(_)) => if !executable {
            Found::Found(None)
        } else {
            match ask(world, QuestionView::Executable(path)) {
                Found::Ask(question) => Found::Ask(question),
                Found::Found(Some(_)) => Found::Found(None),
                Found::Found(None) => Found::Found(
                    Some(description + " not executable: "@ + path),
                ),
            }
        },
    }
}

/// Checks that a file that is needed is there, and can be executed where that is
/// needed.
pub fn require_file(path: &str, description: &str, executable: bool, world: &World) -> (result:
    Lookup<Result<(), BridgeError>>)
    ensures
        match result {
            Lookup::Ask(question) => file_complaint(path@, description@, executable, world@)
                == Found::<Option<Seq<char>>>::Ask(question@),
            Lookup::Found(Ok(())) => file_complaint(path@, description@, executable, world@)
                == Found::Found(None::<Seq<char>>),
            Lookup::Found(Err(error)) => file_complaint(path@, description@, executable, world@)
                == Found::Found(Some(error@)),
        },
{
    match world.ask(Question::File(path.to_owned())) {
        Lookup::Ask(question) => Lookup::Ask(question),
        Lookup::Found(None) => Lookup::Found(
            Err(BridgeError(concat3(description, " not found: ", path))),
        ),
        Lookup::Found(Some(_)) => {
            if !executable {
                return Lookup::Found(Ok(()));
            }
            match world.ask(Question::Executable(path.to_owned())) {
                Lookup::Ask(question) => Lookup::Ask(question),
                Lookup::Found(Some(_)) => Lookup::Found(Ok(())),
                Lookup::Found(None) => Lookup::Found(
                    Err(BridgeError(concat3(description, " not executable: ", path))),
                ),
            }
        },
    }
}

/// The command line of PowerView, whose configuration enables the remote control or
/// does not.
pub open spec fn start_arguments(config: ConfigView, enabled: bool) -> Seq<Seq<char>> {
    seq!["-c"@, config.t32_config] + (if !enabled {
        seq!["--t32-api-rcl=TCP:"@ + decimal_text(config.rcl_port as nat)]
    } else {
        seq![]
    })
}

/// The command line of PowerView. Where its configuration does not enable the
/// remote control, the command line does, on the configured port.
pub fn powerview_arguments(config: &Config, settings: &Option<RclSettings>) -> (arguments: Vec<
    String,
>)
    ensures
        text_views(arguments@) == start_arguments(config@, settings is Some),
{
    let mut arguments: Vec<String> = Vec::new();
    arguments.push("-c".to_owned());
    arguments.push(config.t32_config.clone());
    match settings {
        None => {
            arguments.push(concat2("--t32-api-rcl=TCP:", &decimal(config.rcl_port as u128)));
        },
        Some(_) => {},
    }
    assert(text_views(arguments@) =~= seq!["-c"@, config@.t32_config] + (if settings is None {
        seq!["--t32-api-rcl=TCP:"@ + decimal_text(config@.rcl_port as nat)]
    } else {
        seq![]
    }));
    arguments
}

/// Where one is in waiting for PowerView.
#[derive(Debug, Clone, Copy, PartialEq, Eq, Structural)]
pub enum WaitStage {
    /// The time is needed, from which the deadline is counted.
    Begin,
    /// The time is needed.
    Clock,
    /// Whether the process has exited is needed.
    Process,
    /// Whether the port is open is needed.
    Port,
    /// Whether the port answers as a remote control is needed.
    Verify,
    /// It is time for a pause.
    Pause,
}

/// What has been found out while waiting for PowerView.
#[derive(Debug)]
pub enum WaitEvent {
    /// The time in milliseconds.
    Time(u64),
    /// The exit code of the process, if it has exited.
    Exit(Option<i32>),
    /// Whether the port is open.
    Port(bool),
    /// Whether the port answers as a remote control.
    Verified(Result<(), BridgeError>),
    /// The pause is over.
    Paused,
}

/// Waiting for PowerView to become ready.
#[derive(Debug)]
pub struct Wait {
    pub stage: WaitStage,
    pub timeout: u64,
    pub deadline: u64,
    pub last_error: Option<BridgeError>,
    pub launcher_exited: bool,
}

/// The content of a [`Wait`].
pub ghost struct WaitView {
    pub stage: WaitStage,
    pub timeout: u64,
    pub deadline: u64,
    pub last_error: Option<Seq<char>>,
    pub launcher_exited: bool,
}

impl View for Wait {
    type V = WaitView;

    open spec fn view(&self) -> WaitView {
        WaitView {
            stage: self.stage,
            timeout: self.timeout,
            deadline: self.deadline,
            last_error: match self.last_error {
                Some(error) => Some(error@),
                None => None,
            },
            launcher_exited: self.launcher_exited,
        }
    }
}

/// The moment some milliseconds after another.
pub open spec fn later(now: u64, millis: u64) -> u64 {
    if now + millis > u64::MAX {
        u64::MAX
    } else {
        (now + millis) as u64
    }
}

/// The complaint about a PowerView that exited.
pub open spec fn exit_complaint(code: i32, log: Seq<char>) -> Seq<char> {
    "PowerView exited with code "@ + integer_text(code as int)
        + " before RCL became ready; check "@ + log
}

/// The complaint about a PowerView that did not become ready.
pub open spec fn unready_complaint(wait: WaitView, config: ConfigView, log: Seq<char>) -> Seq<char> {
    "PowerView did not become ready on RCL port "@ + decimal_text(config.rcl_port as nat) + (
    if wait.launcher_exited {
        " (the launcher exited successfully, but RCL never became ready)"@
    } else {
        ""@
    }) + (match wait.last_error {
        Some(error) => ": "@ + error,
        None => ""@,
    }) + "; check RCL=NETTCP in "@ + config.t32_config + " and "@ + log
}

/// What follows while waiting for PowerView: the wait after an event, and its
/// outcome once there is one. A launcher may exit successfully while PowerView
/// still starts; any other exit is final. An event that was not asked for changes
/// nothing.
pub open spec fn wait_after(wait: WaitView, event: WaitEvent, config: ConfigView, log: Seq<char>) -> (
    WaitView,
    Option<Result<(), Seq<char>>>,
) {
    match (wait.stage, event) {
        (WaitStage::Begin, WaitEvent::Time(now)) => (
            WaitView {
                stage: WaitStage::Clock,
                deadline: later(now, wait.timeout),
                ..wait
            },
            None,
        ),
        (WaitStage::Clock, WaitEvent::Time(now)) => if now <= wait.deadline {
            (WaitView { stage: WaitStage::Process, ..wait }, None)
        } else {
            (wait, Some(Err(unready_complaint(wait, config, log))))
        },
        (WaitStage::Process, WaitEvent::Exit(code)) => match code {
            Some(code) => if code == 0 {
                (WaitView { stage: WaitStage::Port, launcher_exited: true, ..wait }, None)
            } else {
                (wait, Some(Err(exit_complaint(code, log))))
            },
            None => (WaitView { stage: WaitStage::Port, ..wait }, None),
        },
        (WaitStage::Port, WaitEvent::Port(open)) => if open {
            (WaitView { stage: WaitStage::Verify, ..wait }, None)
        } else {
            (WaitView { stage: WaitStage::Pause, ..wait }, None)
        },
        (WaitStage::Verify, WaitEvent::Verified(result)) => match result {
            Ok(()) => (wait, Some(Ok(()))),
            Err(error) => (
                WaitView { stage: WaitStage::Pause, last_error: Some(error@), ..wait },
                None,
            ),
        },
        (WaitStage::Pause, WaitEvent::Paused) => (
            WaitView { stage: WaitStage::Clock, ..wait },
            None,
        ),
        _ => (wait, None),
    }
}

impl Wait {
    /// A wait of some milliseconds that has not begun.
    pub fn new(timeout: u64) -> (wait: Wait)
        ensures
            wait@ == (WaitView {
                stage: WaitStage::Begin,
                timeout,
                deadline: 0,
                last_error: None,
                launcher_exited: false,
            }),
    {
        Wait {
            stage: WaitStage::Begin,
            timeout,
            deadline: 0,
            last_error: None,
            launcher_exited: false,
        }
    }

    fn unready(&self, config: &Config, log: &str) -> (error: BridgeError)
        ensures
            error@ == unready_complaint(self@, config@, log@),
    {
        let mut text = concat2(
            "PowerView did not become ready on RCL port ",
            &decimal(config.rcl_port as u128),
        );
        if self.launcher_exited {
            text.append(" (the launcher exited successfully, but RCL never became ready)");
        } else {
            text.append("");
        }
        match &self.last_error {
            Some(error) => {
                let detail = concat2(": ", &error.0);
                text.append(&detail);
            },
            None => {
                text.append("");
            },
        }
        text.append("; check RCL=NETTCP in ");
        text.append(&config.t32_config);
        text.append(" and ");
        text.append(log);
        BridgeError(text)
    }

    /// Takes in what has been found out; returns the outcome once there is one.
    pub fn advance(&mut self, event: WaitEvent, config: &Config, log: &str) -> (outcome: Option<
        Result<(), BridgeError>,
    >)
        ensures
            ({
                let (after, expected) = wait_after(old(self)@, event, config@, log@);
                &&& final(self)@ == after
                &&& match outcome {
                    Some(Ok(())) => expected == Some(Ok::<(), Seq<char>>(())),
                    Some(Err(error)) => expected == Some(Err::<(), _>(error@)),
                    None => expected is None,
                }
            }),
    {
        match (self.stage, event) {
            (WaitStage::Begin, WaitEvent::Time(now)) => {
                self.stage = WaitStage::Clock;
                self.deadline = now.saturating_add(self.timeout);
                None
            },
            (WaitStage::Clock, WaitEvent::Time(now)) => {
                if now <= self.deadline {
                    self.stage = WaitStage::Process;
                    None
                } else {
                    Some(Err(self.unready(config, log)))
                }
            },
            (WaitStage::Process, WaitEvent::Exit(code)) => {
                match code {
                    Some(code) => {
                        if code != 0 {
                            return Some(
                                Err(
                                    BridgeError(
                                        concat4(
                                            "PowerView exited with code ",
                                            &integer(code as i128),
                                            " before RCL became ready; check ",
                                            log,
                                        ),
                                    ),
                                ),
                            );
                        }
                        self.launcher_exited = true;
                    },
                    None => {},
                }
                self.stage = WaitStage::Port;
                None
            },
            (WaitStage::Port, WaitEvent::Port(open)) => {
                self.stage = if open {
                    WaitStage::Verify
                } else {
                    WaitStage::Pause
                };
                None
            },
            (WaitStage::Verify, WaitEvent::Verified(result)) => match result {
                Ok(()) => Some(Ok(())),
                Err(error) => {
                    self.last_error = Some(error);
                    self.stage = WaitStage::Pause;
                    None
                },
            },
            (WaitStage::Pause, WaitEvent::Paused) => {
                self.stage = WaitStage::Clock;
                None
            },
            _ => None,
        }
    }
}

/// Where one is in starting PowerView.
#[derive(Debug)]
pub enum StartStage {
    /// Whether the port is open is needed.
    Probe,
    /// Whether the port answers as a remote control is needed.
    Verify,
    /// The files and the run directory are to be checked.
    Prepare,
    /// PowerView is to be started.
    Spawn,
    /// PowerView is to become ready.
    Wait(Wait),
    /// The toolbar is to be installed.
    Toolbar,
}

/// What has been done or found out while starting PowerView.
#[derive(Debug)]
pub enum StartEvent {
    Port(bool),
    Verified(Result<(), BridgeError>),
    Prepared(Result<(), BridgeError>),
    Spawned(Result<(), BridgeError>),
    Waited(WaitEvent),
    Installed(Result<(), BridgeError>),
}

/// The content of a [`StartStage`].
pub ghost enum StartView {
    Probe,
    Verify,
    Prepare,
    Spawn,
    Wait(WaitView),
    Toolbar,
}

impl View for StartStage {
    type V = StartView;

    open spec fn view(&self) -> StartView {
        match *self {
            StartStage::Probe => StartView::Probe,
            StartStage::Verify => StartView::Verify,
            StartStage::Prepare => StartView::Prepare,
            StartStage::Spawn => StartView::Spawn,
            StartStage::Wait(wait) => StartView::Wait(wait@),
            StartStage::Toolbar => StartView::Toolbar,
        }
    }
}

/// The complaint about a port that is open but no remote control.
pub open spec fn foreign_port(port: u16, error: Seq<char>) -> Seq<char> {
    "port "@ + decimal_text(port as nat) + " is open but is not a usable TRACE32 RCL endpoint: "@
        + error
}

/// What follows while starting PowerView: the stage after an event, and the
/// outcome once there is one, which says whether a new PowerView was started. One
/// that runs is used as it is. An event that was not asked for changes nothing.
pub open spec fn start_after(
    stage: StartView,
    event: StartEvent,
    config: ConfigView,
    log: Seq<char>,
) -> (StartView, Option<Result<bool, Seq<char>>>) {
    match (stage, event) {
        (StartView::Probe, StartEvent::Port(open)) => if open {
            (StartView::Verify, None)
        } else {
            (StartView::Prepare, None)
        },
        (StartView::Verify, StartEvent::Verified(result)) => match result {
            Ok(()) => (stage, Some(Ok(false))),
            Err(error) => (stage, Some(Err(foreign_port(config.rcl_port, error@)))),
        },
        (StartView::Prepare, StartEvent::Prepared(result)) => match result {
            Ok(()) => (StartView::Spawn, None),
            Err(error) => (stage, Some(Err(error@))),
        },
        (StartView::Spawn, StartEvent::Spawned(result)) => match result {
            Ok(()) => (
                StartView::Wait(
                    WaitView {
                        stage: WaitStage::Begin,
                        timeout: READY_MILLIS,
                        deadline: 0,
                        last_error: None,
                        launcher_exited: false,
                    },
                ),
                None,
            ),
            Err(error) => (stage, Some(Err(error@))),
        },
        (StartView::Wait(wait), StartEvent::Waited(event)) => {
            let (after, outcome) = wait_after(wait, event, config, log);
            match outcome {
                None => (StartView::Wait(after), None),
                Some(Ok(())) => (StartView::Toolbar, None),
                Some(Err(error)) => (StartView::Wait(after), Some(Err(error))),
            }
        },
        (StartView::Toolbar, StartEvent::Installed(result)) => match result {
            Ok(()) => (stage, Some(Ok(true))),
            Err(error) => (stage, Some(Err(error@))),
        },
        _ => (stage, None),
    }
}

impl StartStage {
    /// Takes in what has been done or found out; returns the outcome once there
    /// is one: whether a new PowerView was started.
    pub fn advance(&mut self, event: StartEvent, config: &Config, log: &str) -> (outcome: Option<
        Result<bool, BridgeError>,
    >)
        ensures
            ({
                let (after, expected) = start_after(old(self)@, event, config@, log@);
                &&& final(self)@ == after
                &&& match outcome {
                    Some(Ok(started)) => expected == Some(Ok::<_, Seq<char>>(started)),
                    Some(Err(error)) => expected == Some(Err::<bool, _>(error@)),
                    None => expected is None,
                }
            }),
    {
        match (&mut *self, event) {
            (StartStage::Probe, StartEvent::Port(open)) => {
                *self = if open {
                    StartStage::Verify
                } else {
                    StartStage::Prepare
                };
                None
            },
            (StartStage::Verify, StartEvent::Verified(result)) => match result {
                Ok(()) => Some(Ok(false)),
                Err(error) => Some(
                    Err(
                        BridgeError(
                            concat4(
                                "port ",
                                &decimal(config.rcl_port as u128),
                                " is open but is not a usable TRACE32 RCL endpoint: ",
                                &error.0,
                            ),
                        ),
                    ),
                ),
            },
            (StartStage::Prepare, StartEvent::Prepared(result)) => match result {
                Ok(()) => {
                    *self = StartStage::Spawn;
                    None
                },
                Err(error) => Some(Err(error)),
            },
            (StartStage::Spawn, StartEvent::Spawned(result)) => match result {
                Ok(()) => {
                    *self = StartStage::Wait(Wait::new(READY_MILLIS));
                    None
                },
                Err(error) => Some(Err(error)),
            },
            (StartStage::Wait(wait), StartEvent::Waited(event)) => {
                match wait.advance(event, config, log) {
                    None => None,
                    Some(Ok(())) => {
                        *self = StartStage::Toolbar;
                        None
                    },
                    Some(Err(error)) => Some(Err(error)),
                }
            },
            (StartStage::Toolbar, StartEvent::Installed(result)) => match result {
                Ok(()) => Some(Ok(true)),
                Err(error) => Some(Err(error)),
            },
            _ => None,
        }
    }
}

/// A PowerView that runs is never started again: once the port was found open,
/// no event leads to another start.
pub proof fn running_powerview_is_kept(event: StartEvent, config: ConfigView, log: Seq<char>)
    ensures
        start_after(StartView::Probe, StartEvent::Port(true), config, log).0 == StartView::Verify,
        start_after(StartView::Verify, event, config, log).0 == StartView::Verify,
        start_after(StartView::Verify, event, config, log).1 != Some(Ok::<_, Seq<char>>(true)),
{
}

/// The arguments with which the toolbar script is run: the script, the executable
/// and the configuration, each in quotation marks.
pub open spec fn toolbar_arguments(
    script: Seq<char>,
    exe: Seq<char>,
    config_file: Seq<char>,
) -> Seq<char> {
    "\""@ + script + "\" \""@ + exe + "\" \""@ + config_file + "\""@
}

/// The arguments with which the toolbar script is run.
pub fn toolbar_command(script: &str, exe: &str, config_file: &str) -> (command: String)
    ensures
        command@ == toolbar_arguments(script@, exe@, config_file@),
{
    let mut command = concat5("\"", script, "\" \"", exe, "\" \"");
    command.append(config_file);
    command.append("\"");
    command
}

/// Checks that the path of the executable can stand in a command.
pub fn check_executable_path(exe: &str) -> (result: Result<(), BridgeError>)
    ensures
        result is Ok <==> is_command_safe(exe@),
        result matches Err(error) ==> error@
            == "tracebridge executable path is unsafe for a TRACE32 command"@,
{
    let chars = chars_of(exe);
    if contains_char(&chars, '"') || contains_char(&chars, '\n') || contains_char(&chars, '\r') {
        Err(BridgeError::new("tracebridge executable path is unsafe for a TRACE32 command"))
    } else {
        Ok(())
    }
}

/// Attempts to connect for the toolbar, up to a deadline.
#[derive(Debug)]
pub struct ToolbarConnect {
    pub deadline: u64,
    pub last_error: Option<BridgeError>,
}

impl ToolbarConnect {
    /// Attempts that begin now.
    pub fn new(now: u64) -> (connect: ToolbarConnect)
        ensures
            connect.deadline == later(now, TOOLBAR_CONNECT_MILLIS),
            connect.last_error is None,
    {
        ToolbarConnect { deadline: now.saturating_add(TOOLBAR_CONNECT_MILLIS), last_error: None }
    }

    /// Whether another attempt is made, or why none is.
    pub fn attempt(&self, now: u64) -> (result: Result<(), BridgeError>)
        ensures
            result is Ok <==> now <= self.deadline,
            result matches Err(error) ==> error@ == "could not connect to install the toolbar: "@
                + (match self.last_error {
                Some(last) => last@,
                None => ""@,
            }),
    {
        if now <= self.deadline {
            return Ok(());
        }
        match &self.last_error {
            Some(last) => Err(
                BridgeError(concat2("could not connect to install the toolbar: ", &last.0)),
            ),
            None => Err(BridgeError(concat2("could not connect to install the toolbar: ", ""))),
        }
    }

    /// Notes why an attempt failed.
    pub fn failed(&mut self, error: BridgeError)
        ensures
            final(self).deadline == old(self).deadline,
            final(self).last_error matches Some(last) && last@ == error@,
    {
        self.last_error = Some(error);
    }
}

/// The complaint about a toolbar that could not be installed.
pub fn toolbar_failed(error: &Error) -> (result: BridgeError)
    ensures
        result@ == "could not install the PowerView toolbar: "@ + error@.text(),
{
    BridgeError(concat2("could not install the PowerView toolbar: ", &error.to_string()))
}

}
