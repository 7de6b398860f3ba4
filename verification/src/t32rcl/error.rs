//! Every way in which a request to TRACE32 can fail.

use vstd::prelude::*;

use crate::text::{concat2, concat3, concat4, decimal, decimal_text};

verus! {

/// The code with which TRACE32 answers a command, function or object access
/// that failed.
pub const T32_ERR_FN1: u8 = 90;

/// A length of time in whole seconds and nanoseconds, of which there are less
/// than one second.
#[derive(Debug, Clone, Copy, PartialEq, Eq)]
pub struct Span {
    secs: u64,
    nanos: u32,
}

impl Span {
    #[verifier::type_invariant]
    closed spec fn in_range(self) -> bool {
        self.nanos < 1_000_000_000
    }

    /// The whole seconds.
    pub closed spec fn whole(self) -> u64 {
        self.secs
    }

    /// The nanoseconds beside them.
    pub closed spec fn part(self) -> u32 {
        self.nanos
    }

    /// The length in nanoseconds.
    pub open spec fn total(self) -> int {
        self.whole() * 1_000_000_000 + self.part()
    }

    /// A whole number of seconds.
    pub closed spec fn seconds(secs: u64) -> Span {
        Span { secs, nanos: 0 }
    }

    /// A length of time from its parts.
    pub fn new(secs: u64, nanos: u32) -> (span: Span)
        requires
            nanos < 1_000_000_000,
        ensures
            span.whole() == secs,
            span.part() == nanos,
    {
        Span { secs, nanos }
    }

    /// A whole number of milliseconds.
    pub fn from_millis(millis: u64) -> (span: Span)
        ensures
            span.total() == millis * 1_000_000,
    {
        Span { secs: millis / 1000, nanos: ((millis % 1000) * 1_000_000) as u32 }
    }

    /// A whole number of seconds.
    pub fn from_secs(secs: u64) -> (span: Span)
        ensures
            span == Span::seconds(secs),
            span.total() == secs * 1_000_000_000,
    {
        Span { secs, nanos: 0 }
    }

    /// The whole seconds.
    pub fn secs(&self) -> (secs: u64)
        ensures
            secs == self.whole(),
    {
        self.secs
    }

    /// The nanoseconds beside them.
    pub fn nanos(&self) -> (nanos: u32)
        ensures
            nanos == self.part(),
            nanos < 1_000_000_000,
    {
        proof {
            use_type_invariant(self);
        }
        self.nanos
    }

    /// Whether no time passes.
    pub fn is_zero(&self) -> (result: bool)
        ensures
            result == (self.total() == 0),
    {
        self.secs == 0 && self.nanos == 0
    }

    /// Whether this span is longer than another.
    pub fn exceeds(&self, limit: &Span) -> (result: bool)
        ensures
            result == (self.total() > limit.total()),
    {
        proof {
            use_type_invariant(self);
            use_type_invariant(limit);
        }
        self.secs > limit.secs || (self.secs == limit.secs && self.nanos > limit.nanos)
    }
}

/// A whole number of seconds has no part beside it.
pub proof fn lemma_seconds(secs: u64)
    ensures
        Span::seconds(secs).whole() == secs,
        Span::seconds(secs).part() == 0,
{
}

/// What the `Debug` formatting of a `std::time::Duration` writes.
pub uninterp spec fn duration_text(secs: u64, nanos: u32) -> Seq<char>;

/// Formats a `std::time::Duration` with its `Debug` implementation.
#[verifier::external_body]
fn debug_duration(secs: u64, nanos: u32) -> (text: String)
    requires
        nanos < 1_000_000_000,
    ensures
        text@ == duration_text(secs, nanos),
{
    format!("{:?}", std::time::Duration::new(secs, nanos))
}

/// Every failure of the remote control client.
#[derive(Debug)]
pub enum Error {
    /// The connection could not be established, broke, or was closed.
    Connect(String),
    /// No answer arrived within the socket timeout.
    Timeout,
    /// A PRACTICE script did not return within the time given to it.
    ScriptTimeout(Span),
    /// TRACE32 answered with an error.
    Trace32(Trace32Error),
    /// The peer violated the protocol or sent data that cannot be decoded.
    Protocol(String),
}

/// What the client was doing when TRACE32 reported an error.
#[derive(Debug, Clone, PartialEq, Eq)]
pub enum Operation {
    /// Any call without special handling.
    Api,
    /// A command failed.
    Command(String),
    /// A function evaluation failed.
    Function(String),
    /// A memory read failed.
    MemoryRead,
    /// A memory write failed.
    MemoryWrite,
    /// A PRACTICE script failed.
    Practice,
    /// PowerView is older than the protocol requires.
    Version,
    /// A symbol query returned no usable result.
    Symbol,
}

/// An error reported by TRACE32 or derived from its answer.
#[derive(Debug, Clone, PartialEq, Eq)]
pub struct Trace32Error {
    /// The TRACE32 error code, when the answer carried one.
    pub code: Option<u8>,
    pub operation: Operation,
    pub message: String,
}

/// The kinds of socket failure that are told apart.
#[derive(Debug, Clone, Copy, PartialEq, Eq)]
pub enum IoKind {
    TimedOut,
    WouldBlock,
    Other,
}

/// What the failure of a socket operation means.
pub open spec fn io_error(kind: IoKind, text: Seq<char>) -> ErrorView {
    if kind is TimedOut || kind is WouldBlock {
        ErrorView::Timeout
    } else {
        ErrorView::Connect(text)
    }
}

/// The content of an [`Operation`].
pub ghost enum OperationView {
    Api,
    Command(Seq<char>),
    Function(Seq<char>),
    MemoryRead,
    MemoryWrite,
    Practice,
    Version,
    Symbol,
}

/// The content of a [`Trace32Error`].
pub ghost struct Trace32View {
    pub code: Option<u8>,
    pub operation: OperationView,
    pub message: Seq<char>,
}

/// The content of an [`Error`].
pub ghost enum ErrorView {
    Connect(Seq<char>),
    Timeout,
    ScriptTimeout(Span),
    Trace32(Trace32View),
    Protocol(Seq<char>),
}

impl View for Operation {
    type V = OperationView;

    open spec fn view(&self) -> OperationView {
        match *self {
            Operation::Api => OperationView::Api,
            Operation::Command(command) => OperationView::Command(command@),
            Operation::Function(expression) => OperationView::Function(expression@),
            Operation::MemoryRead => OperationView::MemoryRead,
            Operation::MemoryWrite => OperationView::MemoryWrite,
            Operation::Practice => OperationView::Practice,
            Operation::Version => OperationView::Version,
            Operation::Symbol => OperationView::Symbol,
        }
    }
}

impl View for Trace32Error {
    type V = Trace32View;

    open spec fn view(&self) -> Trace32View {
        Trace32View {
            code: self.code,
            operation: self.operation@,
            message: self.message@,
        }
    }
}

impl View for Error {
    type V = ErrorView;

    open spec fn view(&self) -> ErrorView {
        match *self {
            Error::Connect(text) => ErrorView::Connect(text@),
            Error::Timeout => ErrorView::Timeout,
            Error::ScriptTimeout(limit) => ErrorView::ScriptTimeout(limit),
            Error::Trace32(error) => ErrorView::Trace32(error@),
            Error::Protocol(text) => ErrorView::Protocol(text@),
        }
    }
}

/// The text that a code stands for in an answer without a message.
pub open spec fn default_text(code: u8) -> Option<Seq<char>> {
    if code == 2 {
        Some("target running"@)
    } else if code == 3 {
        Some("target not running"@)
    } else if code == 4 {
        Some("target is in reset"@)
    } else if code == 6 {
        Some("access timeout, target running"@)
    } else if code == 10 {
        Some("not implemented"@)
    } else if code == 14 {
        Some("registerset undefined"@)
    } else if code == 15 {
        Some("verify error"@)
    } else if code == 16 {
        Some("bus error"@)
    } else if code == 22 {
        Some("no memory mapped"@)
    } else if code == 48 {
        Some("target reset detected"@)
    } else if code == 49 {
        Some("FDX buffer error"@)
    } else if code == 57 {
        Some("no RTCK detected"@)
    } else if code == 60 {
        Some("no valid license detected"@)
    } else if code == 64 {
        Some("core has no clock/power/reset in SMP"@)
    } else if code == 67 {
        Some("user signal"@)
    } else if code == 83 {
        Some("tried to connect to emu"@)
    } else if 90 <= code <= 93 {
        Some(""@)
    } else if code == 113 {
        Some("113 std failed"@)
    } else if code == 123 {
        Some("access locked"@)
    } else if code == 128 {
        Some("power fail"@)
    } else if code == 140 {
        Some("debug port fail"@)
    } else if code == 144 {
        Some("debug port timeout"@)
    } else if code == 147 {
        Some("no debug device"@)
    } else if code == 161 {
        Some("target reset fail"@)
    } else if code == 162 {
        Some("emulator communication timeout"@)
    } else if code == 164 {
        Some("no RTCK on emulator"@)
    } else if code == 254 {
        Some("T32_Attach() is missing"@)
    } else if code == 255 {
        Some("FATAL ERROR 255"@)
    } else {
        None
    }
}

/// The text that a code stands for in an answer without a message.
pub fn default_message(code: u8) -> (result: Option<&'static str>)
    ensures
        match result {
            Some(text) => default_text(code) == Some(text@),
            None => default_text(code) is None,
        },
{
    let text = match code {
        2 => "target running",
        3 => "target not running",
        4 => "target is in reset",
        6 => "access timeout, target running",
        10 => "not implemented",
        14 => "registerset undefined",
        15 => "verify error",
        16 => "bus error",
        22 => "no memory mapped",
        48 => "target reset detected",
        49 => "FDX buffer error",
        57 => "no RTCK detected",
        60 => "no valid license detected",
        64 => "core has no clock/power/reset in SMP",
        67 => "user signal",
        83 => "tried to connect to emu",
        90 | 91 | 92 | 93 => "",
        113 => "113 std failed",
        123 => "access locked",
        128 => "power fail",
        140 => "debug port fail",
        144 => "debug port timeout",
        147 => "no debug device",
        161 => "target reset fail",
        162 => "emulator communication timeout",
        164 => "no RTCK on emulator",
        254 => "T32_Attach() is missing",
        255 => "FATAL ERROR 255",
        _ => {
            return None;
        },
    };
    Some(text)
}

/// The error for a code in an answer: its own message, the default text of the
/// code, or its number.
pub open spec fn error_of_code(code: u8, message: Option<Seq<char>>) -> Trace32View {
    Trace32View {
        code: Some(code),
        operation: OperationView::Api,
        message: match message {
            Some(message) => message,
            None => match default_text(code) {
                Some(text) => text,
                None => "TRACE32 error "@ + decimal_text(code as nat),
            },
        },
    }
}

impl Trace32View {
    /// The error as a user reads it.
    pub open spec fn text(self) -> Seq<char> {
        match self.operation {
            OperationView::Command(command) => if self.message.len() == 0 {
                "command failed (command: "@ + command + ")"@
            } else {
                self.message + " (command: "@ + command + ")"@
            },
            OperationView::Function(expression) => if self.message.len() == 0 {
                "function failed: "@ + expression
            } else {
                self.message
            },
            OperationView::MemoryRead => if self.message.len() == 0 {
                "memory read failed"@
            } else {
                "memory read failed: "@ + self.message
            },
            OperationView::MemoryWrite => if self.message.len() == 0 {
                "memory write failed"@
            } else {
                "memory write failed: "@ + self.message
            },
            OperationView::Api => if self.message.len() == 0 {
                match self.code {
                    Some(code) => "TRACE32 error "@ + decimal_text(code as nat),
                    None => "TRACE32 error"@,
                }
            } else {
                self.message
            },
            _ => self.message,
        }
    }
}

impl ErrorView {
    /// The error as a user reads it.
    pub open spec fn text(self) -> Seq<char> {
        match self {
            ErrorView::Connect(text) => text,
            ErrorView::Timeout => "timed out"@,
            ErrorView::ScriptTimeout(limit) => "PRACTICE script did not finish within "@
                + duration_text(limit.whole(), limit.part()),
            ErrorView::Trace32(error) => error.text(),
            ErrorView::Protocol(text) => text,
        }
    }
}

impl Trace32Error {
    /// An error that carries no code.
    pub fn new(operation: Operation, message: &str) -> (error: Trace32Error)
        ensures
            error@ == (Trace32View { code: None, operation: operation@, message: message@ }),
    {
        Trace32Error { code: None, operation, message: message.to_owned() }
    }

    /// The error for a code in an answer.
    pub fn from_code(code: u8, message: Option<String>) -> (error: Trace32Error)
        ensures
            error@ == error_of_code(
                code,
                match message {
                    Some(message) => Some(message@),
                    None => None,
                },
            ),
    {
        let message = match message {
            Some(message) => message,
            None => match default_message(code) {
                Some(text) => text.to_owned(),
                None => concat2("TRACE32 error ", &decimal(code as u128)),
            },
        };
        Trace32Error { code: Some(code), operation: Operation::Api, message }
    }

    /// The same error, met while doing something else.
    pub fn with_operation(self, operation: Operation) -> (error: Trace32Error)
        ensures
            error@ == (Trace32View { operation: operation@, ..self@ }),
    {
        Trace32Error { code: self.code, operation, message: self.message }
    }

    /// The error as a user reads it.
    pub fn to_string(&self) -> (text: String)
        ensures
            text@ == self@.text(),
    {
        let silent = self.message.as_str().is_empty();
        match &self.operation {
            Operation::Command(command) => if silent {
                concat3("command failed (command: ", command, ")")
            } else {
                concat4(&self.message, " (command: ", command, ")")
            },
            Operation::Function(expression) => if silent {
                concat2("function failed: ", expression)
            } else {
                self.message.clone()
            },
            Operation::MemoryRead => if silent {
                "memory read failed".to_owned()
            } else {
                concat2("memory read failed: ", &self.message)
            },
            Operation::MemoryWrite => if silent {
                "memory write failed".to_owned()
            } else {
                concat2("memory write failed: ", &self.message)
            },
            Operation::Api => if silent {
                match self.code {
                    Some(code) => concat2("TRACE32 error ", &decimal(code as u128)),
                    None => "TRACE32 error".to_owned(),
                }
            } else {
                self.message.clone()
            },
            _ => self.message.clone(),
        }
    }
}

impl Error {
    /// Whether an answer or a script took too long.
    pub fn is_timeout(&self) -> (result: bool)
        ensures
            result == (self@ is Timeout || self@ is ScriptTimeout),
    {
        matches!(self, Error::Timeout | Error::ScriptTimeout(_))
    }

    /// The failure of a socket operation.
    pub fn from_io(kind: IoKind, text: String) -> (error: Error)
        ensures
            error@ == io_error(kind, text@),
    {
        match kind {
            IoKind::TimedOut => Error::Timeout,
            IoKind::WouldBlock => Error::Timeout,
            IoKind::Other => Error::Connect(text),
        }
    }

    /// A violation of the protocol.
    pub fn protocol(text: &str) -> (error: Error)
        ensures
            error@ == ErrorView::Protocol(text@),
    {
        Error::Protocol(text.to_owned())
    }

    /// The error as a user reads it.
    pub fn to_string(&self) -> (text: String)
        ensures
            text@ == self@.text(),
    {
        match self {
            Error::Connect(text) => text.clone(),
            Error::Timeout => "timed out".to_owned(),
            Error::ScriptTimeout(limit) => concat2(
                "PRACTICE script did not finish within ",
                &debug_duration(limit.secs(), limit.nanos()),
            ),
            Error::Trace32(error) => error.to_string(),
            Error::Protocol(text) => text.clone(),
        }
    }
}

}
