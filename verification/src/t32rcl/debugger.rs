//! A session with PowerView: what is sent, in which order, and what the answers
//! mean. The socket belongs to the caller, who transmits the frames and hands in
//! what arrives.

use std::collections::VecDeque;
use vstd::prelude::*;
use vstd::string::*;

use crate::bytes::{byte_views, copy_bytes, push_bytes};
use crate::t32rcl::address::{Address, AddressView};
use crate::t32rcl::api::{
    answer_payload, check_response, encode_request, memory_length, memory_read_payload,
    memory_write_payload, practice_bytes, practice_payload, read_request, request_bytes,
    symbol_query_payload, symbol_request, write_request, EXECUTE_COMMAND, EXECUTE_FUNCTION,
    RAPI_CMD_ATTACH, RAPI_CMD_DEVICE_SPECIFIC, RAPI_CMD_EXECUTE_PRACTICE,
    RAPI_DSCMD_MEMORY_OBJ_READ, RAPI_DSCMD_MEMORY_OBJ_WRITE, RAPI_DSCMD_SYMBOL_QUERYOBJ,
    READ_CHUNK_SIZE, WRITE_CHUNK_SIZE,
};
use crate::t32rcl::error::{
    Error, ErrorView, Operation, OperationView, Span, T32_ERR_FN1, Trace32Error, Trace32View,
};
use crate::t32rcl::eval::{decode, decoded, result_parts, split_result, Value, ValueView};
use crate::t32rcl::link::{
    answers_match_their_request, encode_frame, frame_bytes, picked, received, take_response,
    FrameDecoder, MessageId, RCL_REQ,
};
use crate::t32rcl::symbol::{
    deserialize, empty_symbol, name_query, serialize_name_query, symbol_fields, Symbol, SymbolView,
};
use crate::text::{concat2, concat3, concat4, decimal, decimal_text, integer, integer_text};

verus! {

/// Version announced in `VERSION.PYRCL(...)`.
pub const PYRCL_VERSION: &'static str = "1.1.5";

/// The oldest base build of PowerView that is served.
pub const MIN_BASE_POWERVIEW: i128 = 125398;

/// The oldest build of PowerView that is served.
pub const MIN_BUILD_POWERVIEW: i128 = 126615;

/// Milliseconds between two looks at the PRACTICE stack.
pub const CMM_POLL_MILLIS: u64 = 10;

/// One request, before it is numbered.
#[derive(Debug, Clone, PartialEq, Eq)]
pub struct Call {
    pub rapi_cmd: u8,
    pub opt_arg: u8,
    pub payload: Vec<u8>,
    pub force_length: Option<usize>,
}

/// The content of a [`Call`].
pub ghost struct CallView {
    pub rapi_cmd: u8,
    pub opt_arg: u8,
    pub payload: Seq<u8>,
    pub force_length: Option<usize>,
}

impl View for Call {
    type V = CallView;

    open spec fn view(&self) -> CallView {
        CallView {
            rapi_cmd: self.rapi_cmd,
            opt_arg: self.opt_arg,
            payload: self.payload@,
            force_length: self.force_length,
        }
    }
}

/// The content of what a request brought back: the payload of the answer, or
/// why there is none.
pub open spec fn outcome_view(outcome: Result<Vec<u8>, Error>) -> Result<Seq<u8>, ErrorView> {
    match outcome {
        Ok(payload) => Ok(payload@),
        Err(error) => Err(error@),
    }
}

/// A session with TRACE32 PowerView.
#[derive(Debug)]
pub struct Debugger {
    pub message_id: MessageId,
    pub decoder: FrameDecoder,
    pub responses: VecDeque<Vec<u8>>,
    pub node: String,
    pub port: u16,
    pub timeout: Span,
}

impl Debugger {
    /// Whether the decoder is between two reads.
    pub open spec fn valid(self) -> bool {
        self.decoder.valid()
    }

    /// A session over a connection that has just been made.
    pub fn new(node: &str, port: u16, timeout: Span) -> (debugger: Debugger)
        ensures
            debugger.valid(),
            debugger.message_id.number() == 0,
            debugger.decoder.buffer@ == Seq::<u8>::empty(),
            debugger.decoder.pending_padding == 0,
            debugger.responses@ == Seq::<Vec<u8>>::empty(),
            debugger.node@ == node@,
            debugger.port == port,
            debugger.timeout == timeout,
    {
        Debugger {
            message_id: MessageId::default(),
            decoder: FrameDecoder::default(),
            responses: VecDeque::new(),
            node: node.to_owned(),
            port,
            timeout,
        }
    }

    /// The host that PowerView runs on.
    pub fn node(&self) -> (node: &str)
        ensures
            node@ == self.node@,
    {
        self.node.as_str()
    }

    /// The port that PowerView listens on.
    pub fn port(&self) -> (port: u16)
        ensures
            port == self.port,
    {
        self.port
    }

    /// How long an answer may take; zero means any time.
    pub fn timeout(&self) -> (timeout: Span)
        ensures
            timeout == self.timeout,
    {
        self.timeout
    }

    /// Changes how long later answers may take.
    pub fn set_timeout(&mut self, timeout: Span)
        ensures
            *final(self) == (Debugger { timeout, ..*old(self) }),
    {
        self.timeout = timeout;
    }

    /// Goes on over a new connection: nothing that arrived before counts, but the
    /// message numbers continue.
    pub fn reconnected(&mut self)
        ensures
            final(self).valid(),
            final(self).decoder.buffer@ == Seq::<u8>::empty(),
            final(self).decoder.pending_padding == 0,
            final(self).responses@ == Seq::<Vec<u8>>::empty(),
            final(self).message_id == old(self).message_id,
            final(self).node == old(self).node,
            final(self).port == old(self).port,
            final(self).timeout == old(self).timeout,
    {
        self.decoder = FrameDecoder::default();
        self.responses = VecDeque::new();
    }

    /// Numbers a request and returns the frame to transmit.
    pub fn request(&mut self, call: &Call) -> (result: Result<Vec<u8>, Error>)
        ensures
            final(self).message_id.number() == (old(self).message_id.number() + 1) % 255,
            final(self).decoder == old(self).decoder,
            final(self).responses == old(self).responses,
            final(self).node == old(self).node,
            final(self).port == old(self).port,
            final(self).timeout == old(self).timeout,
            match request_bytes(
                call@.rapi_cmd,
                call@.opt_arg,
                final(self).message_id.number() as u8,
                call@.payload,
                call@.force_length,
            ) {
                Some(data) => result matches Ok(frame) && frame@ == frame_bytes(RCL_REQ, data),
                None => result matches Err(error) && error@ == ErrorView::Protocol(
                    "message buffer too large"@,
                ),
            },
    {
        let id: u8 = self.message_id.next();
        match encode_request(call.rapi_cmd, call.opt_arg, id, &call.payload, call.force_length) {
            Ok(data) => Ok(encode_frame(&data)),
            Err(error) => Err(error),
        }
    }

    /// Takes in what one read of the socket brought. A read of nothing means that
    /// the peer has closed the connection.
    pub fn received(&mut self, chunk: &[u8]) -> (result: Result<(), Error>)
        requires
            old(self).valid(),
        ensures
            final(self).valid(),
            final(self).message_id == old(self).message_id,
            final(self).node == old(self).node,
            final(self).port == old(self).port,
            final(self).timeout == old(self).timeout,
            chunk@.len() == 0 ==> *final(self) == *old(self) && (result matches Err(error)
                && error@ == ErrorView::Connect("Connection closed by peer"@)),
            chunk@.len() > 0 ==> ({
                let decoded = received(
                    old(self).decoder.buffer@,
                    old(self).decoder.pending_padding as nat,
                    chunk@,
                );
                &&& final(self).decoder.buffer@ == decoded.buffer
                &&& final(self).decoder.pending_padding == decoded.pending
                &&& byte_views(final(self).responses@) == byte_views(old(self).responses@)
                    + decoded.responses
                &&& result is Ok <==> decoded.valid
                &&& result matches Err(error) ==> error@ == ErrorView::Protocol(
                    "TCP packet contains invalid messagetype"@,
                )
            }),
    {
        if chunk.len() == 0 {
            return Err(Error::Connect("Connection closed by peer".to_owned()));
        }
        self.decoder.feed(chunk, &mut self.responses)
    }

    /// Looks for the answer to the latest request; `None` while it has not
    /// arrived.
    pub fn answer(&mut self) -> (result: Result<Option<Vec<u8>>, Error>)
        ensures
            final(self).message_id == old(self).message_id,
            final(self).decoder == old(self).decoder,
            final(self).node == old(self).node,
            final(self).port == old(self).port,
            final(self).timeout == old(self).timeout,
            ({
                let (rest, found) = picked(
                    byte_views(old(self).responses@),
                    old(self).message_id.number() as u8,
                );
                &&& byte_views(final(self).responses@) == rest
                &&& match found {
                    Ok(None) => result matches Ok(None),
                    Ok(Some(message)) => match answer_payload(message) {
                        Ok(payload) => result matches Ok(Some(bytes)) && bytes@ == payload,
                        Err(error) => result matches Err(e) && e@ == ErrorView::Trace32(error),
                    },
                    Err(error) => result matches Err(e) && e@ == error,
                }
            }),
    {
        let expected: u8 = self.message_id.current();
        proof {
            answers_match_their_request(byte_views(self.responses@), expected);
        }
        match take_response(&mut self.responses, expected) {
            Ok(Some(message)) => match check_response(&message) {
                Ok(payload) => {
                    let bytes = copy_bytes(payload, 0, payload.len());
                    assert(bytes@ =~= payload@);
                    Ok(Some(bytes))
                },
                Err(error) => Err(Error::Trace32(error)),
            },
            Ok(None) => Ok(None),
            Err(error) => Err(error),
        }
    }
}

/// The request that attaches to PowerView.
pub open spec fn attach_request() -> CallView {
    CallView { rapi_cmd: RAPI_CMD_ATTACH, opt_arg: 1, payload: seq![], force_length: None }
}

/// The request that executes a command.
pub open spec fn command_request(command: Seq<char>) -> CallView {
    CallView {
        rapi_cmd: RAPI_CMD_EXECUTE_PRACTICE,
        opt_arg: EXECUTE_COMMAND,
        payload: practice_bytes(command),
        force_length: None,
    }
}

/// The request that evaluates a function.
pub open spec fn function_request(expression: Seq<char>) -> CallView {
    CallView {
        rapi_cmd: RAPI_CMD_EXECUTE_PRACTICE,
        opt_arg: EXECUTE_FUNCTION,
        payload: practice_bytes(expression),
        force_length: None,
    }
}

/// The error of a request that failed in a particular way: a failed access takes
/// on the operation, any other error stays what it is.
pub open spec fn located(error: ErrorView, operation: OperationView) -> ErrorView {
    match error {
        ErrorView::Trace32(inner) => if inner.code == Some(T32_ERR_FN1) {
            ErrorView::Trace32(Trace32View { operation, ..inner })
        } else {
            error
        },
        _ => error,
    }
}

/// What became of a command.
pub open spec fn command_result(
    command: Seq<char>,
    outcome: Result<Seq<u8>, ErrorView>,
) -> Result<(), ErrorView> {
    match outcome {
        Ok(_) => Ok(()),
        Err(error) => Err(located(error, OperationView::Command(command))),
    }
}

/// What a function evaluated to.
pub open spec fn function_result(
    expression: Seq<char>,
    outcome: Result<Seq<u8>, ErrorView>,
) -> Result<ValueView, ErrorView> {
    match outcome {
        Ok(payload) => match result_parts(payload) {
            Ok((kind, text)) => decoded(kind, text, expression),
            Err(error) => Err(error),
        },
        Err(error) => Err(located(error, OperationView::Function(expression))),
    }
}

/// What a function evaluated to that is to give a number.
pub open spec fn number_result(
    expression: Seq<char>,
    outcome: Result<Seq<u8>, ErrorView>,
) -> Result<int, ErrorView> {
    match function_result(expression, outcome) {
        Ok(ValueView::Int(value)) => Ok(value),
        Ok(other) => Err(
            ErrorView::Protocol(expression + " returned "@ + other.shown() + ", expected a number"@),
        ),
        Err(error) => Err(error),
    }
}

/// What a function evaluated to that is to give a truth value.
pub open spec fn flag_result(
    expression: Seq<char>,
    outcome: Result<Seq<u8>, ErrorView>,
) -> Result<bool, ErrorView> {
    match function_result(expression, outcome) {
        Ok(ValueView::Bool(value)) => Ok(value),
        Ok(other) => Err(
            ErrorView::Protocol(
                expression + " returned "@ + other.shown() + ", expected a boolean"@,
            ),
        ),
        Err(error) => Err(error),
    }
}

/// The request that attaches to PowerView.
pub fn attach_call() -> (call: Call)
    ensures
        call@ == attach_request(),
{
    let payload: Vec<u8> = Vec::new();
    assert(payload@ =~= seq![]);
    Call { rapi_cmd: RAPI_CMD_ATTACH, opt_arg: 1, payload, force_length: None }
}

/// The request that executes a command.
pub fn command_call(command: &str) -> (call: Call)
    ensures
        call@ == command_request(command@),
{
    Call {
        rapi_cmd: RAPI_CMD_EXECUTE_PRACTICE,
        opt_arg: EXECUTE_COMMAND,
        payload: practice_payload(command),
        force_length: None,
    }
}

/// The command that shows a text in the message line and in the AREA window.
pub fn print_command(text: &str) -> (command: String)
    ensures
        command@ == "ECHO \""@ + text@ + "\""@,
{
    concat3("ECHO \"", text, "\"")
}

/// The request that evaluates a function.
pub fn function_call(expression: &str) -> (call: Call)
    ensures
        call@ == function_request(expression@),
{
    Call {
        rapi_cmd: RAPI_CMD_EXECUTE_PRACTICE,
        opt_arg: EXECUTE_FUNCTION,
        payload: practice_payload(expression),
        force_length: None,
    }
}

fn locate(error: Error, operation: Operation) -> (result: Error)
    ensures
        result@ == located(error@, operation@),
{
    match error {
        Error::Trace32(inner) => {
            let failed = match inner.code {
                Some(code) => code == T32_ERR_FN1,
                None => false,
            };
            if failed {
                Error::Trace32(inner.with_operation(operation))
            } else {
                Error::Trace32(inner)
            }
        },
        other => other,
    }
}

/// What became of a command.
pub fn command_outcome(command: &str, outcome: Result<Vec<u8>, Error>) -> (result: Result<
    (),
    Error,
>)
    ensures
        match result {
            Ok(()) => command_result(command@, outcome_view(outcome)) == Ok::<(), ErrorView>(()),
            Err(error) => command_result(command@, outcome_view(outcome)) == Err::<(), _>(error@),
        },
{
    match outcome {
        Ok(_) => Ok(()),
        Err(error) => Err(locate(error, Operation::Command(command.to_owned()))),
    }
}

/// What a function evaluated to.
pub fn function_outcome(expression: &str, outcome: Result<Vec<u8>, Error>) -> (result: Result<
    Value,
    Error,
>)
    ensures
        match result {
            Ok(value) => function_result(expression@, outcome_view(outcome)) == Ok::<_, ErrorView>(
                value@,
            ),
            Err(error) => function_result(expression@, outcome_view(outcome)) == Err::<
                ValueView,
                _,
            >(error@),
        },
{
    match outcome {
        Ok(payload) => match split_result(&payload) {
            Ok((kind, text)) => decode(kind, &text, expression),
            Err(error) => Err(error),
        },
        Err(error) => Err(locate(error, Operation::Function(expression.to_owned()))),
    }
}

/// What a function evaluated to that is to give a number.
pub fn number_outcome(expression: &str, outcome: Result<Vec<u8>, Error>) -> (result: Result<
    i128,
    Error,
>)
    ensures
        match result {
            Ok(value) => number_result(expression@, outcome_view(outcome)) == Ok::<_, ErrorView>(
                value as int,
            ),
            Err(error) => number_result(expression@, outcome_view(outcome)) == Err::<int, _>(
                error@,
            ),
        },
{
    match function_outcome(expression, outcome) {
        Ok(Value::Int(value)) => Ok(value),
        Ok(other) => Err(
            Error::Protocol(
                concat4(expression, " returned ", &other.shown(), ", expected a number"),
            ),
        ),
        Err(error) => Err(error),
    }
}

/// What a function evaluated to that is to give a truth value.
pub fn flag_outcome(expression: &str, outcome: Result<Vec<u8>, Error>) -> (result: Result<
    bool,
    Error,
>)
    ensures
        match result {
            Ok(value) => flag_result(expression@, outcome_view(outcome)) == Ok::<_, ErrorView>(
                value,
            ),
            Err(error) => flag_result(expression@, outcome_view(outcome)) == Err::<bool, _>(error@),
        },
{
    match function_outcome(expression, outcome) {
        Ok(Value::Bool(value)) => Ok(value),
        Ok(other) => Err(
            Error::Protocol(
                concat4(expression, " returned ", &other.shown(), ", expected a boolean"),
            ),
        ),
        Err(error) => Err(error),
    }
}

/// The steps of making a session usable.
#[derive(Debug, Clone, Copy, PartialEq, Eq)]
pub enum Connecting {
    /// Attach to PowerView.
    Attach,
    /// Attach once more, over a new connection.
    Reattach,
    /// Ask for the build of PowerView.
    Build,
    /// Ask for its base build; the build is known.
    Base(i128),
    /// Announce the version of this client.
    Announce,
    /// Nothing is left to do.
    Ready,
}

/// What follows on an answer while a session is made usable.
#[derive(Debug)]
pub enum ConnectStep {
    /// Go on with the next request, if there is one.
    Proceed,
    /// Make a new connection, then go on.
    Reconnect,
    /// Give up.
    Fail(Error),
}

/// The content of a [`ConnectStep`].
pub ghost enum ConnectStepView {
    Proceed,
    Reconnect,
    Fail(ErrorView),
}

impl View for ConnectStep {
    type V = ConnectStepView;

    open spec fn view(&self) -> ConnectStepView {
        match *self {
            ConnectStep::Proceed => ConnectStepView::Proceed,
            ConnectStep::Reconnect => ConnectStepView::Reconnect,
            ConnectStep::Fail(error) => ConnectStepView::Fail(error@),
        }
    }
}

/// The function call that announces the version of this client.
pub open spec fn version_call() -> Seq<char> {
    "VERSION.PYRCL("@ + PYRCL_VERSION@ + ")"@
}

/// The complaint about a PowerView that is too old.
pub open spec fn outdated(build: int, base: int) -> ErrorView {
    ErrorView::Trace32(
        Trace32View {
            code: None,
            operation: OperationView::Version,
            message: "Minimum required software version: "@ + integer_text(
                MIN_BUILD_POWERVIEW as int,
            ) + ":"@ + integer_text(MIN_BASE_POWERVIEW as int) + ", current version "@
                + integer_text(build) + ":"@ + integer_text(base) + " (build:base)"@,
        },
    )
}

impl Connecting {
    /// The request of a step.
    pub open spec fn request(self) -> Option<CallView> {
        match self {
            Connecting::Attach => Some(attach_request()),
            Connecting::Reattach => Some(attach_request()),
            Connecting::Build => Some(function_request("SOFTWARE.BUILD()"@)),
            Connecting::Base(_) => Some(function_request("SOFTWARE.BUILD.BASE()"@)),
            Connecting::Announce => Some(function_request(version_call())),
            Connecting::Ready => None,
        }
    }

    /// Where an outcome leads. A first attach that gets no answer in time is
    /// repeated once over a new connection; every other failure is final.
    pub open spec fn after(self, outcome: Result<Seq<u8>, ErrorView>) -> (
        Connecting,
        ConnectStepView,
    ) {
        match self {
            Connecting::Attach => match outcome {
                Ok(_) => (Connecting::Build, ConnectStepView::Proceed),
                Err(ErrorView::Timeout) => (Connecting::Reattach, ConnectStepView::Reconnect),
                Err(error) => (self, ConnectStepView::Fail(error)),
            },
            Connecting::Reattach => match outcome {
                Ok(_) => (Connecting::Build, ConnectStepView::Proceed),
                Err(error) => (self, ConnectStepView::Fail(error)),
            },
            Connecting::Build => match number_result("SOFTWARE.BUILD()"@, outcome) {
                Ok(build) => (Connecting::Base(build as i128), ConnectStepView::Proceed),
                Err(error) => (self, ConnectStepView::Fail(error)),
            },
            Connecting::Base(build) => match number_result("SOFTWARE.BUILD.BASE()"@, outcome) {
                Ok(base) => if base < MIN_BASE_POWERVIEW || build < MIN_BUILD_POWERVIEW {
                    (self, ConnectStepView::Fail(outdated(build as int, base)))
                } else {
                    (Connecting::Announce, ConnectStepView::Proceed)
                },
                Err(error) => (self, ConnectStepView::Fail(error)),
            },
            Connecting::Announce => match function_result(version_call(), outcome) {
                Ok(_) => (Connecting::Ready, ConnectStepView::Proceed),
                Err(error) => (self, ConnectStepView::Fail(error)),
            },
            Connecting::Ready => (self, ConnectStepView::Proceed),
        }
    }

    /// The request of this step; `None` once the session is usable.
    pub fn next(&self) -> (call: Option<Call>)
        ensures
            match call {
                Some(call) => self.request() == Some(call@),
                None => self.request() is None,
            },
    {
        match self {
            Connecting::Attach => Some(attach_call()),
            Connecting::Reattach => Some(attach_call()),
            Connecting::Build => Some(function_call("SOFTWARE.BUILD()")),
            Connecting::Base(_) => Some(function_call("SOFTWARE.BUILD.BASE()")),
            Connecting::Announce => Some(function_call(&concat3("VERSION.PYRCL(", PYRCL_VERSION, ")"))),
            Connecting::Ready => None,
        }
    }

    /// Takes in the outcome of the request of this step.
    pub fn accept(&mut self, outcome: Result<Vec<u8>, Error>) -> (step: ConnectStep)
        ensures
            (*final(self), step@) == old(self).after(outcome_view(outcome)),
    {
        match *self {
            Connecting::Attach => match outcome {
                Ok(_) => {
                    *self = Connecting::Build;
                    ConnectStep::Proceed
                },
                Err(Error::Timeout) => {
                    *self = Connecting::Reattach;
                    ConnectStep::Reconnect
                },
                Err(error) => ConnectStep::Fail(error),
            },
            Connecting::Reattach => match outcome {
                Ok(_) => {
                    *self = Connecting::Build;
                    ConnectStep::Proceed
                },
                Err(error) => ConnectStep::Fail(error),
            },
            Connecting::Build => match number_outcome("SOFTWARE.BUILD()", outcome) {
                Ok(build) => {
                    *self = Connecting::Base(build);
                    ConnectStep::Proceed
                },
                Err(error) => ConnectStep::Fail(error),
            },
            Connecting::Base(build) => match number_outcome("SOFTWARE.BUILD.BASE()", outcome) {
                Ok(base) => {
                    if base < MIN_BASE_POWERVIEW || build < MIN_BUILD_POWERVIEW {
                        let mut message = concat4(
                            "Minimum required software version: ",
                            &integer(MIN_BUILD_POWERVIEW),
                            ":",
                            &integer(MIN_BASE_POWERVIEW),
                        );
                        message.append(", current version ");
                        message.append(&integer(build));
                        message.append(":");
                        message.append(&integer(base));
                        message.append(" (build:base)");
                        ConnectStep::Fail(
                            Error::Trace32(Trace32Error::new(Operation::Version, &message)),
                        )
                    } else {
                        *self = Connecting::Announce;
                        ConnectStep::Proceed
                    }
                },
                Err(error) => ConnectStep::Fail(error),
            },
            Connecting::Announce => match function_outcome(
                &concat3("VERSION.PYRCL(", PYRCL_VERSION, ")"),
                outcome,
            ) {
                Ok(_) => {
                    *self = Connecting::Ready;
                    ConnectStep::Proceed
                },
                Err(error) => ConnectStep::Fail(error),
            },
            Connecting::Ready => ConnectStep::Proceed,
        }
    }
}

/// A session is given a second connection at most: no later step asks for one.
pub proof fn one_reconnect_at_most(step: Connecting, outcome: Result<Seq<u8>, ErrorView>)
    ensures
        step.after(outcome).1 is Reconnect <==> step is Attach && outcome
            == Err::<Seq<u8>, _>(ErrorView::Timeout),
        step.after(outcome).0 is Attach ==> step is Attach,
{
}

/// The stages of running a PRACTICE script.
#[derive(Debug, Clone, Copy, PartialEq, Eq)]
pub enum ScriptStage {
    /// Ask how deep the PRACTICE stack is.
    Depth,
    /// Start the script; the depth before is known.
    Run(i128),
    /// Ask whether the stack is back at that depth.
    Poll(i128),
}

/// A PRACTICE script that is started and waited for.
#[derive(Debug)]
pub struct ScriptRun {
    pub script: String,
    /// How long to wait: `None` waits forever, zero does not wait at all.
    pub limit: Option<Span>,
    pub stage: ScriptStage,
}

/// What follows on an answer while a script runs.
#[derive(Debug)]
pub enum ScriptStep {
    /// Send the next request.
    Proceed,
    /// Send the next request after a pause.
    Pause,
    /// The script has returned, or is not waited for.
    Finish,
    /// Give up.
    Fail(Error),
}

/// The content of a [`ScriptStep`].
pub ghost enum ScriptStepView {
    Proceed,
    Pause,
    Finish,
    Fail(ErrorView),
}

impl View for ScriptStep {
    type V = ScriptStepView;

    open spec fn view(&self) -> ScriptStepView {
        match *self {
            ScriptStep::Proceed => ScriptStepView::Proceed,
            ScriptStep::Pause => ScriptStepView::Pause,
            ScriptStep::Finish => ScriptStepView::Finish,
            ScriptStep::Fail(error) => ScriptStepView::Fail(error@),
        }
    }
}

/// The error of a script that could not be started: a failed command becomes a
/// failed script.
pub open spec fn script_error(error: ErrorView) -> ErrorView {
    match error {
        ErrorView::Trace32(inner) => if inner.operation is Command {
            ErrorView::Trace32(Trace32View { operation: OperationView::Practice, ..inner })
        } else {
            error
        },
        _ => error,
    }
}

/// Where an outcome leads while a script runs; `elapsed` is the time since the
/// script was started.
pub open spec fn script_after(
    script: Seq<char>,
    limit: Option<Span>,
    stage: ScriptStage,
    outcome: Result<Seq<u8>, ErrorView>,
    elapsed: Span,
) -> (ScriptStage, ScriptStepView) {
    match stage {
        ScriptStage::Depth => match number_result("PRACTICE.SD()"@, outcome) {
            Ok(depth) => (ScriptStage::Run(depth as i128), ScriptStepView::Proceed),
            Err(error) => (stage, ScriptStepView::Fail(error)),
        },
        ScriptStage::Run(before) => match command_result("DO "@ + script, outcome) {
            Ok(()) => if limit matches Some(span) && span.total() == 0 {
                (stage, ScriptStepView::Finish)
            } else {
                (ScriptStage::Poll(before), ScriptStepView::Proceed)
            },
            Err(error) => (stage, ScriptStepView::Fail(script_error(error))),
        },
        ScriptStage::Poll(before) => match number_result("PRACTICE.SD()"@, outcome) {
            Ok(depth) => if depth < before {
                (
                    stage,
                    ScriptStepView::Fail(
                        ErrorView::Trace32(
                            Trace32View {
                                code: None,
                                operation: OperationView::Practice,
                                message: "Practice stack depth error"@,
                            },
                        ),
                    ),
                )
            } else if depth == before {
                (stage, ScriptStepView::Finish)
            } else if limit matches Some(span) && elapsed.total() > span.total() {
                (stage, ScriptStepView::Fail(ErrorView::ScriptTimeout(limit->Some_0)))
            } else {
                (stage, ScriptStepView::Pause)
            },
            Err(error) => (stage, ScriptStepView::Fail(error)),
        },
    }
}

/// The request of a stage of running a script.
pub open spec fn script_request(script: Seq<char>, stage: ScriptStage) -> CallView {
    match stage {
        ScriptStage::Run(_) => command_request("DO "@ + script),
        _ => function_request("PRACTICE.SD()"@),
    }
}

fn as_script_error(error: Error) -> (result: Error)
    ensures
        result@ == script_error(error@),
{
    match error {
        Error::Trace32(inner) => {
            if matches!(inner.operation, Operation::Command(_)) {
                Error::Trace32(inner.with_operation(Operation::Practice))
            } else {
                Error::Trace32(inner)
            }
        },
        other => other,
    }
}

impl ScriptRun {
    /// A script that has not been started.
    pub fn new(script: &str, limit: Option<Span>) -> (run: ScriptRun)
        ensures
            run.script@ == script@,
            run.limit == limit,
            run.stage == ScriptStage::Depth,
    {
        ScriptRun { script: script.to_owned(), limit, stage: ScriptStage::Depth }
    }

    /// The next request.
    pub fn next(&self) -> (call: Call)
        ensures
            call@ == script_request(self.script@, self.stage),
    {
        match self.stage {
            ScriptStage::Run(_) => command_call(&concat2("DO ", &self.script)),
            _ => function_call("PRACTICE.SD()"),
        }
    }

    /// Takes in the outcome of the request, `elapsed` after the script was
    /// started.
    pub fn accept(&mut self, outcome: Result<Vec<u8>, Error>, elapsed: Span) -> (step: ScriptStep)
        ensures
            final(self).script == old(self).script,
            final(self).limit == old(self).limit,
            (final(self).stage, step@) == script_after(
                old(self).script@,
                old(self).limit,
                old(self).stage,
                outcome_view(outcome),
                elapsed,
            ),
    {
        match self.stage {
            ScriptStage::Depth => match number_outcome("PRACTICE.SD()", outcome) {
                Ok(depth) => {
                    self.stage = ScriptStage::Run(depth);
                    ScriptStep::Proceed
                },
                Err(error) => ScriptStep::Fail(error),
            },
            ScriptStage::Run(before) => match command_outcome(
                &concat2("DO ", &self.script),
                outcome,
            ) {
                Ok(()) => {
                    let detached = match &self.limit {
                        Some(limit) => limit.is_zero(),
                        None => false,
                    };
                    if detached {
                        ScriptStep::Finish
                    } else {
                        self.stage = ScriptStage::Poll(before);
                        ScriptStep::Proceed
                    }
                },
                Err(error) => ScriptStep::Fail(as_script_error(error)),
            },
            ScriptStage::Poll(before) => match number_outcome("PRACTICE.SD()", outcome) {
                Ok(depth) => {
                    if depth < before {
                        return ScriptStep::Fail(
                            Error::Trace32(
                                Trace32Error::new(
                                    Operation::Practice,
                                    "Practice stack depth error",
                                ),
                            ),
                        );
                    }
                    if depth == before {
                        return ScriptStep::Finish;
                    }
                    match self.limit {
                        Some(limit) => if elapsed.exceeds(&limit) {
                            ScriptStep::Fail(Error::ScriptTimeout(limit))
                        } else {
                            ScriptStep::Pause
                        },
                        None => ScriptStep::Pause,
                    }
                },
                Err(error) => ScriptStep::Fail(error),
            },
        }
    }
}

/// The error of a memory access: every error that TRACE32 reports becomes one,
/// while trouble with the connection stays what it is.
pub open spec fn access_error(error: ErrorView, operation: OperationView) -> ErrorView {
    match error {
        ErrorView::Trace32(inner) => ErrorView::Trace32(
            Trace32View {
                code: inner.code,
                operation,
                message: if inner.code == Some(T32_ERR_FN1) {
                    "wrong parameters"@
                } else {
                    inner.text()
                },
            },
        ),
        _ => error,
    }
}

/// The error of a memory access.
pub fn memory_error(error: Error, operation: Operation) -> (result: Error)
    ensures
        result@ == access_error(error@, operation@),
{
    match error {
        Error::Trace32(inner) => {
            let failed = match inner.code {
                Some(code) => code == T32_ERR_FN1,
                None => false,
            };
            let message = if failed {
                "wrong parameters".to_owned()
            } else {
                inner.to_string()
            };
            Error::Trace32(Trace32Error { code: inner.code, operation, message })
        },
        other => other,
    }
}

/// The smaller of two numbers.
pub open spec fn lesser(a: int, b: int) -> int {
    if a <= b {
        a
    } else {
        b
    }
}

/// A memory read, cut into requests of limited size.
#[derive(Debug)]
pub struct MemoryRead {
    pub address: Address,
    pub length: usize,
    pub data: Vec<u8>,
}

/// The request for the part of a memory read that begins at `done`.
pub open spec fn read_call(address: AddressView, length: nat, done: nat) -> CallView {
    let chunk = lesser(length - done, READ_CHUNK_SIZE as int) as nat;
    CallView {
        rapi_cmd: RAPI_CMD_DEVICE_SPECIFIC,
        opt_arg: RAPI_DSCMD_MEMORY_OBJ_READ,
        payload: read_request(address, done as u64, chunk),
        force_length: Some(memory_length(address, done as u64, None)),
    }
}

/// What has been read after one more outcome.
pub open spec fn read_after(
    length: nat,
    data: Seq<u8>,
    outcome: Result<Seq<u8>, ErrorView>,
) -> Result<Seq<u8>, ErrorView> {
    let chunk = lesser(length - data.len(), READ_CHUNK_SIZE as int);
    match outcome {
        Ok(payload) => if payload.len() < chunk {
            Err(
                ErrorView::Protocol(
                    "memory read returned "@ + decimal_text(payload.len()) + " of "@
                        + decimal_text(chunk as nat) + " bytes"@,
                ),
            )
        } else {
            Ok(data + payload.take(chunk))
        },
        Err(error) => Err(access_error(error, OperationView::MemoryRead)),
    }
}

impl MemoryRead {
    /// Whether no more has been read than was asked for.
    pub open spec fn valid(self) -> bool {
        self.data@.len() <= self.length
    }

    /// A read of `length` bytes.
    pub fn new(address: Address, length: usize) -> (read: MemoryRead)
        ensures
            read.valid(),
            read.address@ == address@,
            read.length == length,
            read.data@ == Seq::<u8>::empty(),
    {
        MemoryRead { address, length, data: Vec::new() }
    }

    /// The next request; `None` when everything has been read.
    pub fn next(&self) -> (call: Option<Call>)
        requires
            self.valid(),
        ensures
            match call {
                Some(call) => self.data@.len() < self.length && call@ == read_call(
                    self.address@,
                    self.length as nat,
                    self.data@.len(),
                ),
                None => self.data@.len() == self.length,
            },
    {
        if self.data.len() >= self.length {
            return None;
        }
        let rest: usize = self.length - self.data.len();
        let chunk: usize = if rest <= READ_CHUNK_SIZE {
            rest
        } else {
            READ_CHUNK_SIZE
        };
        let (payload, length) = memory_read_payload(&self.address, self.data.len() as u64, chunk);
        Some(
            Call {
                rapi_cmd: RAPI_CMD_DEVICE_SPECIFIC,
                opt_arg: RAPI_DSCMD_MEMORY_OBJ_READ,
                payload,
                force_length: Some(length),
            },
        )
    }

    /// Takes in the outcome of the request.
    pub fn accept(&mut self, outcome: Result<Vec<u8>, Error>) -> (result: Result<(), Error>)
        requires
            old(self).valid(),
        ensures
            final(self).valid(),
            final(self).address == old(self).address,
            final(self).length == old(self).length,
            match read_after(old(self).length as nat, old(self).data@, outcome_view(outcome)) {
                Ok(data) => result is Ok && final(self).data@ == data,
                Err(error) => final(self).data@ == old(self).data@ && (result matches Err(e) && e@
                    == error),
            },
    {
        let rest: usize = self.length - self.data.len();
        let chunk: usize = if rest <= READ_CHUNK_SIZE {
            rest
        } else {
            READ_CHUNK_SIZE
        };
        match outcome {
            Ok(payload) => {
                if payload.len() < chunk {
                    let mut text = concat4(
                        "memory read returned ",
                        &decimal(payload.len() as u128),
                        " of ",
                        &decimal(chunk as u128),
                    );
                    text.append(" bytes");
                    return Err(Error::Protocol(text));
                }
                let piece = copy_bytes(&payload, 0, chunk);
                assert(piece@ =~= payload@.take(chunk as int));
                push_bytes(&mut self.data, &piece);
                Ok(())
            },
            Err(error) => Err(memory_error(error, Operation::MemoryRead)),
        }
    }
}

/// What a read has gathered after a number of answers, each in reply to the
/// request that was due.
pub open spec fn read_run(length: nat, data: Seq<u8>, answers: Seq<Seq<u8>>) -> Result<
    Seq<u8>,
    ErrorView,
>
    decreases answers.len(),
{
    if answers.len() == 0 || data.len() >= length {
        Ok(data)
    } else {
        match read_after(length, data, Ok(answers[0])) {
            Ok(next) => read_run(length, next, answers.skip(1)),
            Err(error) => Err(error),
        }
    }
}

/// Reading gives back the memory: when every request is answered with at least
/// the bytes of `memory` that it asked for, the bytes gathered are a prefix of
/// `memory` at every moment, and all of it once enough answers have come.
pub proof fn read_gives_memory(memory: Seq<u8>, data: Seq<u8>, answers: Seq<Seq<u8>>)
    requires
        data.is_prefix_of(memory),
        answers.len() * READ_CHUNK_SIZE >= memory.len() - data.len(),
        forall|i: int|
            #![trigger answers[i]]
            0 <= i < answers.len() && data.len() + i * READ_CHUNK_SIZE < memory.len() ==> ({
                let from = data.len() + i * READ_CHUNK_SIZE;
                let chunk = lesser(memory.len() - from, READ_CHUNK_SIZE as int);
                answers[i].len() >= chunk && answers[i].take(chunk) == memory.subrange(
                    from,
                    from + chunk,
                )
            }),
    ensures
        read_run(memory.len(), data, answers) == Ok::<_, ErrorView>(memory),
    decreases answers.len(),
{
    if data.len() >= memory.len() {
        assert(data =~= memory);
    } else {
        let chunk = lesser(memory.len() - data.len(), READ_CHUNK_SIZE as int);
        let from = data.len() + 0 * READ_CHUNK_SIZE;
        assert(answers[0].take(chunk) == memory.subrange(from, from + chunk));
        let next = data + answers[0].take(chunk);
        assert(next =~= memory.take(data.len() + chunk));
        assert(next.is_prefix_of(memory));
        let rest = answers.skip(1);
        assert forall|i: int|
            #![trigger rest[i]]
            0 <= i < rest.len() && next.len() + i * READ_CHUNK_SIZE < memory.len() implies ({
            let from = next.len() + i * READ_CHUNK_SIZE;
            let chunk = lesser(memory.len() - from, READ_CHUNK_SIZE as int);
            rest[i].len() >= chunk && rest[i].take(chunk) == memory.subrange(from, from + chunk)
        }) by {
            assert(rest[i] == answers[i + 1]);
            assert(data.len() + (i + 1) * READ_CHUNK_SIZE == next.len() + i * READ_CHUNK_SIZE);
        }
        read_gives_memory(memory, next, rest);
    }
}

/// A memory write, cut into requests of limited size.
#[derive(Debug)]
pub struct MemoryWrite {
    pub address: Address,
    pub data: Vec<u8>,
    pub width: Option<u16>,
    pub done: usize,
}

/// The part of the data that one request writes.
pub open spec fn write_piece(data: Seq<u8>, done: int) -> Seq<u8> {
    data.subrange(done, done + lesser(data.len() - done, WRITE_CHUNK_SIZE as int))
}

/// The request for the part of a memory write that begins at `done`.
pub open spec fn write_call(
    address: AddressView,
    data: Seq<u8>,
    width: Option<u16>,
    done: nat,
) -> CallView {
    CallView {
        rapi_cmd: RAPI_CMD_DEVICE_SPECIFIC,
        opt_arg: RAPI_DSCMD_MEMORY_OBJ_WRITE,
        payload: write_request(address, done as u64, write_piece(data, done as int), width),
        force_length: Some(memory_length(address, done as u64, width)),
    }
}

impl MemoryWrite {
    /// Whether no more has been written than there is.
    pub open spec fn valid(self) -> bool {
        self.done <= self.data@.len()
    }

    /// A write of some bytes, with the access width where one is given.
    pub fn new(address: Address, data: &[u8], width: Option<u16>) -> (write: MemoryWrite)
        ensures
            write.valid(),
            write.address@ == address@,
            write.data@ == data@,
            write.width == width,
            write.done == 0,
    {
        let copy = copy_bytes(data, 0, data.len());
        assert(copy@ =~= data@);
        MemoryWrite { address, data: copy, width, done: 0 }
    }

    /// A write of one 32-bit number, with an access width of four bytes.
    pub fn new_u32(address: Address, value: u32) -> (write: MemoryWrite)
        ensures
            write.valid(),
            write.address@ == address@,
            write.data@ == crate::bytes::le_bytes(value as nat, 4),
            write.width == Some(4u16),
            write.done == 0,
    {
        let mut data: Vec<u8> = Vec::new();
        crate::bytes::push_le(&mut data, value as u64, 4);
        assert(data@ =~= crate::bytes::le_bytes(value as nat, 4));
        MemoryWrite { address, data, width: Some(4), done: 0 }
    }

    /// The next request; `None` when everything has been written.
    pub fn next(&self) -> (call: Option<Call>)
        requires
            self.valid(),
        ensures
            match call {
                Some(call) => self.done < self.data@.len() && call@ == write_call(
                    self.address@,
                    self.data@,
                    self.width,
                    self.done as nat,
                ),
                None => self.done == self.data@.len(),
            },
    {
        if self.done >= self.data.len() {
            return None;
        }
        let rest: usize = self.data.len() - self.done;
        let chunk: usize = if rest <= WRITE_CHUNK_SIZE {
            rest
        } else {
            WRITE_CHUNK_SIZE
        };
        let piece = copy_bytes(&self.data, self.done, self.done + chunk);
        let (payload, length) = memory_write_payload(
            &self.address,
            self.done as u64,
            &piece,
            self.width,
        );
        Some(
            Call {
                rapi_cmd: RAPI_CMD_DEVICE_SPECIFIC,
                opt_arg: RAPI_DSCMD_MEMORY_OBJ_WRITE,
                payload,
                force_length: Some(length),
            },
        )
    }

    /// Takes in the outcome of the request.
    pub fn accept(&mut self, outcome: Result<Vec<u8>, Error>) -> (result: Result<(), Error>)
        requires
            old(self).valid(),
        ensures
            final(self).valid(),
            final(self).address == old(self).address,
            final(self).data == old(self).data,
            final(self).width == old(self).width,
            match outcome_view(outcome) {
                Ok(_) => result is Ok && final(self).done == old(self).done + lesser(
                    old(self).data@.len() - old(self).done,
                    WRITE_CHUNK_SIZE as int,
                ),
                Err(error) => final(self).done == old(self).done && (result matches Err(e) && e@
                    == access_error(error, OperationView::MemoryWrite)),
            },
    {
        match outcome {
            Ok(_) => {
                let rest: usize = self.data.len() - self.done;
                let chunk: usize = if rest <= WRITE_CHUNK_SIZE {
                    rest
                } else {
                    WRITE_CHUNK_SIZE
                };
                self.done = self.done + chunk;
                Ok(())
            },
            Err(error) => Err(memory_error(error, Operation::MemoryWrite)),
        }
    }
}

/// All that the requests of a write carry from `done` on, put together.
pub open spec fn written(data: Seq<u8>, done: int) -> Seq<u8>
    decreases data.len() - done,
{
    if done < 0 || done >= data.len() {
        seq![]
    } else {
        write_piece(data, done) + written(
            data,
            done + lesser(data.len() - done, WRITE_CHUNK_SIZE as int),
        )
    }
}

/// The requests of a write carry its data, in order and without gaps.
pub proof fn writes_cover_data(data: Seq<u8>, done: int)
    requires
        0 <= done <= data.len(),
    ensures
        written(data, done) == data.skip(done),
    decreases data.len() - done,
{
    if done < data.len() {
        writes_cover_data(data, done + lesser(data.len() - done, WRITE_CHUNK_SIZE as int));
        assert(written(data, done) =~= data.skip(done));
    } else {
        assert(written(data, done) =~= data.skip(done));
    }
}

/// The request that looks a symbol up.
pub open spec fn symbol_lookup(name: Seq<char>) -> CallView {
    CallView {
        rapi_cmd: RAPI_CMD_DEVICE_SPECIFIC,
        opt_arg: RAPI_DSCMD_SYMBOL_QUERYOBJ,
        payload: symbol_request(name_query(name)),
        force_length: None,
    }
}

/// The symbol that a lookup brought.
pub open spec fn symbol_result(outcome: Result<Seq<u8>, ErrorView>) -> Result<
    SymbolView,
    ErrorView,
> {
    match outcome {
        Ok(payload) => symbol_fields(payload, 0, empty_symbol()),
        Err(error) => Err(error),
    }
}

/// The request that looks a symbol up.
pub fn symbol_call(name: &str) -> (call: Call)
    ensures
        call@ == symbol_lookup(name@),
{
    Call {
        rapi_cmd: RAPI_CMD_DEVICE_SPECIFIC,
        opt_arg: RAPI_DSCMD_SYMBOL_QUERYOBJ,
        payload: symbol_query_payload(&serialize_name_query(name)),
        force_length: None,
    }
}

/// The symbol that a lookup brought.
pub fn symbol_outcome(outcome: Result<Vec<u8>, Error>) -> (result: Result<Symbol, Error>)
    ensures
        match result {
            Ok(symbol) => symbol_result(outcome_view(outcome)) == Ok::<_, ErrorView>(symbol@),
            Err(error) => symbol_result(outcome_view(outcome)) == Err::<SymbolView, _>(error@),
        },
{
    match outcome {
        Ok(payload) => deserialize(&payload),
        Err(error) => Err(error),
    }
}

/// The value of the address of a symbol.
pub open spec fn symbol_value(name: Seq<char>, outcome: Result<Seq<u8>, ErrorView>) -> Result<
    u64,
    ErrorView,
> {
    match symbol_result(outcome) {
        Ok(symbol) => match symbol.address {
            Some(address) => Ok(address.value),
            None => Err(
                ErrorView::Trace32(
                    Trace32View {
                        code: None,
                        operation: OperationView::Symbol,
                        message: "symbol "@ + name + " has no address"@,
                    },
                ),
            ),
        },
        Err(error) => Err(error),
    }
}

/// The value of the address of a symbol that was looked up.
pub fn symbol_address_outcome(name: &str, outcome: Result<Vec<u8>, Error>) -> (result: Result<
    u64,
    Error,
>)
    ensures
        match result {
            Ok(value) => symbol_value(name@, outcome_view(outcome)) == Ok::<_, ErrorView>(value),
            Err(error) => symbol_value(name@, outcome_view(outcome)) == Err::<u64, _>(error@),
        },
{
    match symbol_outcome(outcome) {
        Ok(symbol) => match symbol.address {
            Some(address) => Ok(address.value),
            None => Err(
                Error::Trace32(
                    Trace32Error::new(
                        Operation::Symbol,
                        &concat3("symbol ", name, " has no address"),
                    ),
                ),
            ),
        },
        Err(error) => Err(error),
    }
}

}
