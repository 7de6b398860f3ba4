//! The rules of the proxy between an IDE and the debug adapter.
//!
//! Every message is passed on as it is, except:
//!
//! * `restart` is done by the proxy itself: it resets the target, has the adapter
//!   continue, and answers the IDE.
//! * `variables` requests for a Locals scope are answered with an empty list.
//! * `launch` with `"request": "attach"` among its arguments is passed on as
//!   `attach`, and the response to it is renamed back to `launch`.
//!
//! Requests that the proxy sends on its own are answered inside the proxy and
//! never reach the IDE.

use std::collections::{HashMap, HashSet};
use vstd::prelude::*;
use vstd::std_specs::hash::*;
use vstd::string::*;

use crate::errors::BridgeError;
use crate::json::{
    as_i64, as_str, copy, field, get, get_field, insert, integer_in, is_truthy, item_views,
    lemma_item_views, lemma_member_set, member, member_views, opt_json, string_in, truthy,
    with_member, Json, JsonView, Message,
};
use crate::t32rcl::eval::text_views;
use crate::text::{
    concat2, concat3, concat5, decimal, decimal_text, integer, integer_text, lowercase_text, same,
    to_lowercase,
};

verus! {

broadcast use group_hash_axioms;

/// The number of the first message that the proxy sends on its own.
pub const FIRST_SEQUENCE: i64 = 1_000_000;

/// How many seconds the adapter has to answer a request of the proxy.
pub const INTERNAL_REQUEST_SECONDS: u64 = 5;

/// The content of a message.
pub type Members = Seq<(Seq<char>, JsonView)>;

/// The counter from which the messages of the proxy are numbered.
#[derive(Debug)]
pub struct ProxyCore {
    pub sequence: i64,
}

/// The number after another; the last is followed by the first.
pub open spec fn following(sequence: i64) -> i64 {
    if sequence == i64::MAX {
        i64::MIN
    } else {
        (sequence + 1) as i64
    }
}

/// A value, or null where there is none.
pub open spec fn or_null(value: Option<JsonView>) -> JsonView {
    match value {
        Some(value) => value,
        None => JsonView::Null,
    }
}

/// A number as a value.
pub open spec fn number_value(n: i64) -> JsonView {
    JsonView::Number(integer_text(n as int))
}

/// The response of the proxy to a request of the IDE.
pub open spec fn response_to(
    sequence: i64,
    request: Members,
    success: bool,
    message: Option<Seq<char>>,
    body: Option<JsonView>,
) -> Members {
    seq![
        ("seq"@, number_value(sequence)),
        ("type"@, JsonView::Text("response"@)),
        ("request_seq"@, or_null(member(request, "seq"@))),
        ("success"@, JsonView::Bool(success)),
        ("command"@, or_null(member(request, "command"@))),
        (
            "message"@,
            match message {
                Some(text) => JsonView::Text(text),
                None => JsonView::Null,
            },
        ),
        ("body"@, or_null(body)),
    ]
}

/// Adds a member behind the others.
fn push_member(members: &mut Message, key: &str, value: Json)
    ensures
        member_views(final(members)@) == member_views(old(members)@).push((key@, value@)),
{
    let ghost before = members@;
    members.push((key.to_owned(), value));
    assert(members@.drop_last() =~= before);
}

fn text_value(text: &str) -> (value: Json)
    ensures
        value@ == JsonView::Text(text@),
{
    Json::Text(text.to_owned())
}

fn number_json(n: i64) -> (value: Json)
    ensures
        value@ == number_value(n),
{
    Json::Number(integer(n as i128))
}

fn copy_or_null(value: Option<&Json>) -> (result: Json)
    ensures
        result@ == or_null(opt_json(value)),
{
    match value {
        Some(value) => copy(value),
        None => Json::Null,
    }
}

impl Default for ProxyCore {
    fn default() -> (core: ProxyCore)
        ensures
            core.sequence == FIRST_SEQUENCE,
    {
        ProxyCore { sequence: FIRST_SEQUENCE }
    }
}

impl ProxyCore {
    /// A proxy that has sent nothing yet.
    pub fn new() -> (core: ProxyCore)
        ensures
            core.sequence == FIRST_SEQUENCE,
    {
        ProxyCore::default()
    }

    /// The number of the next message.
    pub fn next_sequence(&mut self) -> (sequence: i64)
        ensures
            sequence == old(self).sequence,
            final(self).sequence == following(old(self).sequence),
    {
        let sequence: i64 = self.sequence;
        self.sequence = if sequence == i64::MAX {
            i64::MIN
        } else {
            sequence + 1
        };
        sequence
    }

    /// The response to a request of the IDE. Message and body are always there,
    /// as null where there is none.
    pub fn response(
        &mut self,
        request: &Message,
        success: bool,
        message: Option<String>,
        body: Option<Json>,
    ) -> (response: Message)
        ensures
            final(self).sequence == following(old(self).sequence),
            member_views(response@) == response_to(
                old(self).sequence,
                member_views(request@),
                success,
                match message {
                    Some(text) => Some(text@),
                    None => None,
                },
                match body {
                    Some(value) => Some(value@),
                    None => None,
                },
            ),
    {
        let mut response: Message = Vec::new();
        let sequence: i64 = self.next_sequence();
        push_member(&mut response, "seq", number_json(sequence));
        push_member(&mut response, "type", text_value("response"));
        push_member(&mut response, "request_seq", copy_or_null(get(request, "seq")));
        push_member(&mut response, "success", Json::Bool(success));
        push_member(&mut response, "command", copy_or_null(get(request, "command")));
        let text = match message {
            Some(text) => Json::Text(text),
            None => Json::Null,
        };
        push_member(&mut response, "message", text);
        let body = match body {
            Some(value) => value,
            None => Json::Null,
        };
        push_member(&mut response, "body", body);
        assert(member_views(response@) =~= response_to(
            old(self).sequence,
            member_views(request@),
            success,
            match message {
                Some(text) => Some(text@),
                None => None,
            },
            match body {
                Json::Null => None,
                other => Some(other@),
            },
        ));
        response
    }
}

/// What a session remembers.
#[derive(Debug)]
pub struct SessionState {
    /// The commands of the requests that the IDE sent.
    pub client_commands: HashMap<i64, String>,
    /// The requests of the proxy, and whether each still waits for its answer.
    pub internal_requests: HashMap<i64, bool>,
    /// The variables references of Locals scopes.
    pub local_references: HashSet<i64>,
    /// The launch requests that were passed on as attach.
    pub launch_rewrites: HashSet<i64>,
}

/// The content of a [`SessionState`].
pub ghost struct SessionView {
    pub commands: Map<i64, Seq<char>>,
    pub internal: Map<i64, bool>,
    pub locals: Set<i64>,
    pub launches: Set<i64>,
}

impl View for SessionState {
    type V = SessionView;

    open spec fn view(&self) -> SessionView {
        SessionView {
            commands: self.client_commands@.map_values(|text: String| text@),
            internal: self.internal_requests@,
            locals: self.local_references@,
            launches: self.launch_rewrites@,
        }
    }
}

/// What is to be done with a message of the IDE.
#[derive(Debug)]
pub enum ClientAction {
    /// Reset the target and answer this request.
    Restart(Message),
    /// Send this message back to the IDE.
    Reply(Message),
    /// Send this message to the adapter.
    Forward(Message),
}

/// The content of a [`ClientAction`].
pub ghost enum ClientView {
    Restart(Members),
    Reply(Members),
    Forward(Members),
}

impl View for ClientAction {
    type V = ClientView;

    open spec fn view(&self) -> ClientView {
        match *self {
            ClientAction::Restart(message) => ClientView::Restart(member_views(message@)),
            ClientAction::Reply(message) => ClientView::Reply(member_views(message@)),
            ClientAction::Forward(message) => ClientView::Forward(member_views(message@)),
        }
    }
}

/// The arguments of a request; none where they are no object.
pub open spec fn arguments_of(message: Members) -> Members {
    match member(message, "arguments"@) {
        Some(JsonView::Object(arguments)) => arguments,
        _ => seq![],
    }
}

/// Whether a message is a request.
pub open spec fn is_request(message: Members) -> bool {
    string_in(member(message, "type"@)) == Some("request"@)
}

/// The body that lists no variables.
pub open spec fn no_variables() -> JsonView {
    JsonView::Object(seq![("variables"@, JsonView::Array(seq![]))])
}

/// What a session remembers of a request: its command, under its number.
pub open spec fn remembered(state: SessionView, message: Members) -> SessionView {
    match (integer_in(member(message, "seq"@)), string_in(member(message, "command"@))) {
        (Some(sequence), Some(command)) => SessionView {
            commands: state.commands.insert(sequence, command),
            ..state
        },
        _ => state,
    }
}

/// Whether a request asks for the variables of a Locals scope.
pub open spec fn asks_for_locals(state: SessionView, message: Members) -> bool {
    &&& string_in(member(message, "command"@)) == Some("variables"@)
    &&& integer_in(member(arguments_of(message), "variablesReference"@)) matches Some(reference)
        && state.locals.contains(reference)
}

/// Whether a launch request asks for an attach.
pub open spec fn launches_as_attach(message: Members) -> bool {
    &&& string_in(member(message, "command"@)) == Some("launch"@)
    &&& string_in(member(arguments_of(message), "request"@)) == Some("attach"@)
}

/// What a message of the IDE leads to: the state and the next number of the
/// proxy after it, and what is to be done.
pub open spec fn client_step(state: SessionView, sequence: i64, message: Members) -> (
    SessionView,
    i64,
    ClientView,
) {
    if !is_request(message) {
        (state, sequence, ClientView::Forward(message))
    } else {
        let known = remembered(state, message);
        if string_in(member(message, "command"@)) == Some("restart"@) {
            (known, sequence, ClientView::Restart(message))
        } else if asks_for_locals(state, message) {
            (
                known,
                following(sequence),
                ClientView::Reply(
                    response_to(sequence, message, true, None, Some(no_variables())),
                ),
            )
        } else if launches_as_attach(message) {
            (
                match integer_in(member(message, "seq"@)) {
                    Some(number) => SessionView {
                        launches: known.launches.insert(number),
                        ..known
                    },
                    None => known,
                },
                sequence,
                ClientView::Forward(
                    with_member(message, "command"@, JsonView::Text("attach"@)),
                ),
            )
        } else {
            (known, sequence, ClientView::Forward(message))
        }
    }
}

/// What is to be done with a message of the adapter.
#[derive(Debug)]
pub enum BackendAction {
    /// Hand this outcome to the request of the proxy with this number.
    Answer(i64, Result<Message, String>),
    /// Nothing: the request of the proxy has had its answer.
    Drop,
    /// Send this message to the IDE.
    Forward(Message),
}

/// The content of a [`BackendAction`].
pub ghost enum BackendView {
    Answer(i64, Result<Members, Seq<char>>),
    Drop,
    Forward(Members),
}

impl View for BackendAction {
    type V = BackendView;

    open spec fn view(&self) -> BackendView {
        match *self {
            BackendAction::Answer(number, outcome) => BackendView::Answer(
                number,
                match outcome {
                    Ok(message) => Ok(member_views(message@)),
                    Err(text) => Err(text@),
                },
            ),
            BackendAction::Drop => BackendView::Drop,
            BackendAction::Forward(message) => BackendView::Forward(member_views(message@)),
        }
    }
}

/// The text that an optional value is, if it is not empty.
pub open spec fn text_in(value: Option<JsonView>) -> Option<Seq<char>> {
    match string_in(value) {
        Some(text) => if text.len() > 0 {
            Some(text)
        } else {
            None
        },
        None => None,
    }
}

/// What a response tells the proxy about its own request: the response, or the
/// reason why it failed.
pub open spec fn internal_outcome(message: Members) -> Result<Members, Seq<char>> {
    if is_truthy(member(message, "success"@)) {
        Ok(message)
    } else {
        match text_in(member(message, "message"@)) {
            Some(text) => Err(text),
            None => Err(
                match string_in(member(message, "command"@)) {
                    Some(command) => command,
                    None => "None"@,
                } + " failed"@,
            ),
        }
    }
}

/// Whether a scope is one of local variables.
pub open spec fn is_locals(scope: JsonView) -> bool {
    let name = match string_in(field(scope, "name"@)) {
        Some(name) => name,
        None => ""@,
    };
    string_in(field(scope, "presentationHint"@)) == Some("locals"@) || lowercase_text(name)
        == "locals"@
}

/// The references of Locals scopes after some more scopes.
pub open spec fn locals_after(locals: Set<i64>, scopes: Seq<JsonView>) -> Set<i64>
    decreases scopes.len(),
{
    if scopes.len() == 0 {
        locals
    } else {
        let before = locals_after(locals, scopes.drop_last());
        match integer_in(field(scopes.last(), "variablesReference"@)) {
            Some(reference) => if is_locals(scopes.last()) {
                before.insert(reference)
            } else {
                before
            },
            None => before,
        }
    }
}

/// The scopes that a response lists.
pub open spec fn scopes_of(message: Members) -> Seq<JsonView> {
    match member(message, "body"@) {
        Some(body) => match field(body, "scopes"@) {
            Some(JsonView::Array(scopes)) => scopes,
            _ => seq![],
        },
        None => seq![],
    }
}

/// Whether a message is a response.
pub open spec fn is_response(message: Members) -> bool {
    string_in(member(message, "type"@)) == Some("response"@)
}

/// What a message of the adapter leads to: the state after it, and what is to be
/// done.
pub open spec fn backend_step(state: SessionView, message: Members) -> (SessionView, BackendView) {
    let number = integer_in(member(message, "request_seq"@));
    if !is_response(message) {
        (state, BackendView::Forward(message))
    } else if number matches Some(n) && state.internal.contains_key(n) {
        let n = number->Some_0;
        if state.internal[n] {
            (
                SessionView { internal: state.internal.insert(n, false), ..state },
                BackendView::Answer(n, internal_outcome(message)),
            )
        } else {
            (state, BackendView::Drop)
        }
    } else {
        let known = match number {
            Some(n) => if state.commands.contains_key(n) {
                Some(state.commands[n])
            } else {
                None
            },
            None => None,
        };
        let forgotten = match number {
            Some(n) => SessionView {
                commands: state.commands.remove(n),
                launches: state.launches.remove(n),
                ..state
            },
            None => state,
        };
        let renamed = number matches Some(n) && state.launches.contains(n);
        let command = if renamed {
            Some("launch"@)
        } else {
            match text_in(member(message, "command"@)) {
                Some(text) => Some(text),
                None => known,
            }
        };
        let passed = if renamed {
            with_member(message, "command"@, JsonView::Text("launch"@))
        } else {
            message
        };
        if command == Some("scopes"@) {
            (
                SessionView {
                    locals: locals_after(forgotten.locals, scopes_of(passed)),
                    ..forgotten
                },
                BackendView::Forward(passed),
            )
        } else {
            (forgotten, BackendView::Forward(passed))
        }
    }
}

fn is_text(value: Option<&str>, text: &str) -> (result: bool)
    ensures
        result == (value matches Some(found) && found@ == text@),
{
    match value {
        Some(found) => same(found, text),
        None => false,
    }
}

fn non_empty(value: Option<&str>) -> (result: Option<String>)
    ensures
        match (value, result) {
            (Some(text), Some(found)) => found@ == text@ && text@.len() > 0,
            (Some(text), None) => text@.len() == 0,
            (None, found) => found is None,
        },
{
    match value {
        Some(text) => if text.is_empty() {
            None
        } else {
            Some(text.to_owned())
        },
        None => None,
    }
}

fn outcome_of(message: Message) -> (outcome: Result<Message, String>)
    ensures
        match outcome {
            Ok(answer) => internal_outcome(member_views(message@)) == Ok::<_, Seq<char>>(
                member_views(answer@),
            ),
            Err(text) => internal_outcome(member_views(message@)) == Err::<Members, _>(text@),
        },
{
    if truthy(get(&message, "success")) {
        return Ok(message);
    }
    match non_empty(as_str(get(&message, "message"))) {
        Some(text) => Err(text),
        None => {
            let command = match as_str(get(&message, "command")) {
                Some(command) => command,
                None => "None",
            };
            Err(concat2(command, " failed"))
        },
    }
}

fn scope_is_locals(scope: &Json) -> (result: bool)
    ensures
        result == is_locals(scope@),
{
    let name = match as_str(get_field(scope, "name")) {
        Some(name) => name,
        None => "",
    };
    is_text(as_str(get_field(scope, "presentationHint")), "locals") || same(
        &to_lowercase(name),
        "locals",
    )
}

impl SessionState {
    /// A session in which nothing has been said.
    pub fn new() -> (state: SessionState)
        ensures
            state@ == (SessionView {
                commands: Map::empty(),
                internal: Map::empty(),
                locals: Set::empty(),
                launches: Set::empty(),
            }),
    {
        let state = SessionState {
            client_commands: HashMap::new(),
            internal_requests: HashMap::new(),
            local_references: HashSet::new(),
            launch_rewrites: HashSet::new(),
        };
        assert(state@.commands =~= Map::empty());
        state
    }

    fn remember(&mut self, sequence: Option<i64>, command: Option<&str>)
        ensures
            final(self)@ == (match (sequence, command) {
                (Some(number), Some(text)) => SessionView {
                    commands: old(self)@.commands.insert(number, text@),
                    ..old(self)@
                },
                _ => old(self)@,
            }),
    {
        match (sequence, command) {
            (Some(number), Some(text)) => {
                let ghost before = self@;
                self.client_commands.insert(number, text.to_owned());
                assert(self@.commands =~= before.commands.insert(number, text@));
            },
            _ => {},
        }
    }

    /// Decides what is to be done with a message of the IDE.
    pub fn handle_client_message(&mut self, core: &mut ProxyCore, message: Message) -> (action:
        ClientAction)
        ensures
            (final(self)@, final(core).sequence, action@) == client_step(
                old(self)@,
                old(core).sequence,
                member_views(message@),
            ),
    {
        if !is_text(as_str(get(&message, "type")), "request") {
            return ClientAction::Forward(message);
        }
        let sequence: Option<i64> = as_i64(get(&message, "seq"));
        let command = as_str(get(&message, "command"));
        self.remember(sequence, command);
        let empty: Message = Vec::new();
        assert(member_views(empty@) =~= seq![]);
        let arguments = match get(&message, "arguments") {
            Some(Json::Object(arguments)) => arguments,
            _ => &empty,
        };
        if is_text(command, "restart") {
            return ClientAction::Restart(message);
        }
        if is_text(command, "variables") {
            let local = match as_i64(get(arguments, "variablesReference")) {
                Some(reference) => self.local_references.contains(&reference),
                None => false,
            };
            if local {
                let mut body: Message = Vec::new();
                push_member(&mut body, "variables", Json::Array(Vec::new()));
                let body = Json::Object(body);
                assert(body@ == no_variables()) by {
                    assert(body@->Object_0 =~= no_variables()->Object_0);
                }
                return ClientAction::Reply(core.response(&message, true, None, Some(body)));
            }
        }
        if is_text(command, "launch") && is_text(as_str(get(arguments, "request")), "attach") {
            match sequence {
                Some(number) => {
                    self.launch_rewrites.insert(number);
                },
                None => {},
            }
            let mut message = message;
            insert(&mut message, "command", text_value("attach"));
            return ClientAction::Forward(message);
        }
        ClientAction::Forward(message)
    }

    fn note_scopes(&mut self, scopes: &Vec<Json>)
        ensures
            final(self)@ == (SessionView {
                locals: locals_after(old(self)@.locals, item_views(scopes@)),
                ..old(self)@
            }),
    {
        let ghost views = item_views(scopes@);
        proof {
            lemma_item_views(scopes@);
        }
        let mut i: usize = 0;
        while i < scopes.len()
            invariant
                i <= scopes@.len(),
                views == item_views(scopes@),
                views.len() == scopes@.len(),
                forall|j: int| 0 <= j < scopes@.len() ==> #[trigger] views[j] == scopes@[j]@,
                self@ == (SessionView {
                    locals: locals_after(old(self)@.locals, views.take(i as int)),
                    ..old(self)@
                }),
            decreases scopes@.len() - i,
        {
            assert(views.take(i as int + 1).drop_last() =~= views.take(i as int));
            assert(views[i as int] == scopes@[i as int]@);
            if scope_is_locals(&scopes[i]) {
                match as_i64(get_field(&scopes[i], "variablesReference")) {
                    Some(reference) => {
                        self.local_references.insert(reference);
                    },
                    None => {},
                }
            }
            i = i + 1;
        }
        assert(views.take(i as int) =~= views);
    }

    /// Forgets the request with a number, and says what its command was and
    /// whether it was a launch passed on as attach.
    fn forget(&mut self, number: Option<i64>) -> (result: (Option<String>, bool))
        ensures
            match number {
                Some(n) => {
                    &&& final(self)@ == (SessionView {
                        commands: old(self)@.commands.remove(n),
                        launches: old(self)@.launches.remove(n),
                        ..old(self)@
                    })
                    &&& match result.0 {
                        Some(text) => old(self)@.commands.contains_key(n)
                            && old(self)@.commands[n] == text@,
                        None => !old(self)@.commands.contains_key(n),
                    }
                    &&& result.1 == old(self)@.launches.contains(n)
                },
                None => final(self)@ == old(self)@ && result.0 is None && !result.1,
            },
    {
        match number {
            Some(n) => {
                let ghost before = self@;
                let command = self.client_commands.remove(&n);
                let renamed = self.launch_rewrites.remove(&n);
                assert(self@.commands =~= before.commands.remove(n));
                assert(self@.launches =~= before.launches.remove(n));
                (command, renamed)
            },
            None => (None, false),
        }
    }

    /// Decides what is to be done with a message of the adapter.
    pub fn handle_backend_message(&mut self, message: Message) -> (action: BackendAction)
        ensures
            (final(self)@, action@) == backend_step(old(self)@, member_views(message@)),
    {
        if !is_text(as_str(get(&message, "type")), "response") {
            return BackendAction::Forward(message);
        }
        let number: Option<i64> = as_i64(get(&message, "request_seq"));
        match number {
            Some(n) => {
                let waiting: Option<bool> = match self.internal_requests.get(&n) {
                    Some(waiting) => Some(*waiting),
                    None => None,
                };
                match waiting {
                    Some(true) => {
                        self.internal_requests.insert(n, false);
                        return BackendAction::Answer(n, outcome_of(message));
                    },
                    Some(false) => {
                        return BackendAction::Drop;
                    },
                    None => {},
                }
            },
            None => {},
        }
        let (known, renamed) = self.forget(number);
        let mut message = message;
        let command: Option<String> = if renamed {
            insert(&mut message, "command", text_value("launch"));
            Some("launch".to_owned())
        } else {
            match non_empty(as_str(get(&message, "command"))) {
                Some(text) => Some(text),
                None => known,
            }
        };
        let about_scopes = match &command {
            Some(text) => same(text, "scopes"),
            None => false,
        };
        if about_scopes {
            let scopes: Option<&Json> = match get(&message, "body") {
                Some(body) => get_field(body, "scopes"),
                None => None,
            };
            match scopes {
                Some(Json::Array(scopes)) => {
                    self.note_scopes(scopes);
                },
                _ => {
                    assert(locals_after(self@.locals, seq![]) == self@.locals);
                },
            }
        }
        BackendAction::Forward(message)
    }

    /// Numbers a request of the proxy and notes that its answer is awaited.
    pub fn backend_request(&mut self, core: &mut ProxyCore, command: &str, arguments: Json) -> (
        result: (i64, Message))
        ensures
            final(core).sequence == following(old(core).sequence),
            result.0 == old(core).sequence,
            member_views(result.1@) == internal_request(
                old(core).sequence,
                command@,
                arguments@,
            ),
            final(self)@ == (SessionView {
                internal: old(self)@.internal.insert(old(core).sequence, true),
                ..old(self)@
            }),
    {
        let sequence: i64 = core.next_sequence();
        self.internal_requests.insert(sequence, true);
        let mut request: Message = Vec::new();
        push_member(&mut request, "seq", number_json(sequence));
        push_member(&mut request, "type", text_value("request"));
        push_member(&mut request, "command", text_value(command));
        push_member(&mut request, "arguments", arguments);
        assert(member_views(request@) =~= internal_request(
            old(core).sequence,
            command@,
            arguments@,
        ));
        (sequence, request)
    }

    /// Notes that a request of the proxy is over, whatever became of it.
    pub fn finish_request(&mut self, sequence: i64)
        ensures
            final(self)@ == (SessionView {
                internal: old(self)@.internal.remove(sequence),
                ..old(self)@
            }),
    {
        self.internal_requests.remove(&sequence);
        assert(self@.internal =~= old(self)@.internal.remove(sequence));
    }

    /// After a reset of the target: no variables reference is known any more, and
    /// the adapter is asked to continue.
    pub fn continue_request(&mut self, core: &mut ProxyCore) -> (result: (i64, Message))
        ensures
            final(core).sequence == following(old(core).sequence),
            result.0 == old(core).sequence,
            member_views(result.1@) == internal_request(
                old(core).sequence,
                "continue"@,
                JsonView::Object(seq![("threadId"@, number_value(0))]),
            ),
            final(self)@ == continuing(old(self)@, old(core).sequence),
    {
        self.local_references.clear();
        let mut arguments: Message = Vec::new();
        push_member(&mut arguments, "threadId", number_json(0));
        assert(member_views(arguments@) =~= seq![("threadId"@, number_value(0))]);
        self.backend_request(core, "continue", Json::Object(arguments))
    }
}

/// A session that has asked the adapter to continue, under a number.
pub open spec fn continuing(state: SessionView, sequence: i64) -> SessionView {
    SessionView {
        locals: Set::empty(),
        internal: state.internal.insert(sequence, true),
        ..state
    }
}

/// A request of the proxy.
pub open spec fn internal_request(sequence: i64, command: Seq<char>, arguments: JsonView) -> Members {
    seq![
        ("seq"@, number_value(sequence)),
        ("type"@, JsonView::Text("request"@)),
        ("command"@, JsonView::Text(command)),
        ("arguments"@, arguments),
    ]
}

/// The event that tells the IDE that all threads go on.
pub open spec fn continued_event(sequence: i64) -> Members {
    seq![
        ("seq"@, number_value(sequence)),
        ("type"@, JsonView::Text("event"@)),
        ("event"@, JsonView::Text("continued"@)),
        (
            "body"@,
            JsonView::Object(
                seq![
                    ("threadId"@, number_value(0)),
                    ("allThreadsContinued"@, JsonView::Bool(true)),
                ],
            ),
        ),
    ]
}

/// What the IDE is told after a restart: the response and the event that goes
/// with success, or the response with the reason of the failure.
pub fn restart_replies(
    core: &mut ProxyCore,
    request: &Message,
    outcome: Result<(), String>,
) -> (replies: Vec<Message>)
    ensures
        match outcome {
            Ok(()) => {
                &&& final(core).sequence == following(following(old(core).sequence))
                &&& replies@.len() == 2
                &&& member_views(replies@[0]@) == response_to(
                    old(core).sequence,
                    member_views(request@),
                    true,
                    None,
                    None,
                )
                &&& member_views(replies@[1]@) == continued_event(following(old(core).sequence))
            },
            Err(text) => {
                &&& final(core).sequence == following(old(core).sequence)
                &&& replies@.len() == 1
                &&& member_views(replies@[0]@) == response_to(
                    old(core).sequence,
                    member_views(request@),
                    false,
                    Some(text@),
                    None,
                )
            },
        },
{
    let mut replies: Vec<Message> = Vec::new();
    match outcome {
        Ok(()) => {
            replies.push(core.response(request, true, None, None));
            let sequence: i64 = core.next_sequence();
            let mut body: Message = Vec::new();
            push_member(&mut body, "threadId", number_json(0));
            push_member(&mut body, "allThreadsContinued", Json::Bool(true));
            assert(member_views(body@) =~= seq![
                ("threadId"@, number_value(0)),
                ("allThreadsContinued"@, JsonView::Bool(true)),
            ]);
            let mut event: Message = Vec::new();
            push_member(&mut event, "seq", number_json(sequence));
            push_member(&mut event, "type", text_value("event"));
            push_member(&mut event, "event", text_value("continued"));
            push_member(&mut event, "body", Json::Object(body));
            assert(member_views(event@) =~= continued_event(sequence));
            replies.push(event);
        },
        Err(text) => {
            replies.push(core.response(request, false, Some(text), None));
        },
    }
    replies
}

/// Why a request of the proxy got no answer.
#[derive(Debug)]
pub enum NoAnswer {
    /// It could not be sent.
    Unsent(String),
    /// The session ended before.
    Ended,
    /// The time was up.
    Expired,
}

/// The reason that is given for a request of the proxy without an answer.
pub fn no_answer_text(command: &str, reason: NoAnswer) -> (text: String)
    ensures
        text@ == (match reason {
            NoAnswer::Unsent(error) => error@,
            NoAnswer::Ended => "the debug session ended"@,
            NoAnswer::Expired => "t32debugadapter did not answer "@ + command@ + " within "@
                + decimal_text(INTERNAL_REQUEST_SECONDS as nat) + "s"@,
        }),
{
    match reason {
        NoAnswer::Unsent(error) => error,
        NoAnswer::Ended => "the debug session ended".to_owned(),
        NoAnswer::Expired => concat5(
            "t32debugadapter did not answer ",
            command,
            " within ",
            &decimal(INTERNAL_REQUEST_SECONDS as u128),
            "s",
        ),
    }
}

/// Answers to the requests of the proxy never reach the IDE.
pub proof fn internal_answers_stay_inside(state: SessionView, message: Members, number: i64)
    requires
        is_response(message),
        integer_in(member(message, "request_seq"@)) == Some(number),
        state.internal.contains_key(number),
    ensures
        !(backend_step(state, message).1 is Forward),
        backend_step(state, message).0.internal.dom() == state.internal.dom(),
        backend_step(state, message).0.commands == state.commands,
{
    assert(state.internal.insert(number, false).dom() =~= state.internal.dom());
}

/// A request of the proxy is handed one answer: the next one with its number is
/// dropped.
pub proof fn one_answer_each(state: SessionView, first: Members, second: Members, number: i64)
    requires
        is_response(first),
        integer_in(member(first, "request_seq"@)) == Some(number),
        is_response(second),
        integer_in(member(second, "request_seq"@)) == Some(number),
        state.internal.contains_key(number),
    ensures
        backend_step(backend_step(state, first).0, second).1 == BackendView::Drop,
{
}

proof fn lemma_locals_after(locals: Set<i64>, scopes: Seq<JsonView>)
    ensures
        locals.subset_of(locals_after(locals, scopes)),
        forall|at: int, reference: i64|
            0 <= at < scopes.len() && is_locals(#[trigger] scopes[at]) && integer_in(
                field(scopes[at], "variablesReference"@),
            ) == Some(reference) ==> #[trigger] locals_after(locals, scopes).contains(reference),
    decreases scopes.len(),
{
    if scopes.len() > 0 {
        let rest = scopes.drop_last();
        lemma_locals_after(locals, rest);
        assert forall|at: int, reference: i64|
            0 <= at < scopes.len() && is_locals(#[trigger] scopes[at]) && integer_in(
                field(scopes[at], "variablesReference"@),
            ) == Some(reference) implies #[trigger] locals_after(locals, scopes).contains(
            reference,
        ) by {
            if at < rest.len() {
                assert(rest[at] == scopes[at]);
                assert(locals_after(locals, rest).contains(reference));
            }
        }
    }
}

/// Once a scopes response has given a reference for a Locals scope, a request for
/// the variables behind it is answered with an empty list.
pub proof fn locals_are_answered_empty(
    state: SessionView,
    sequence: i64,
    response: Members,
    at: int,
    request: Members,
    reference: i64,
)
    requires
        is_response(response),
        string_in(member(response, "command"@)) == Some("scopes"@),
        integer_in(member(response, "request_seq"@)) matches Some(n) ==> !state.internal.contains_key(n)
            && !state.launches.contains(n),
        0 <= at < scopes_of(response).len(),
        is_locals(scopes_of(response)[at]),
        integer_in(field(scopes_of(response)[at], "variablesReference"@)) == Some(reference),
        is_request(request),
        string_in(member(request, "command"@)) == Some("variables"@),
        integer_in(member(arguments_of(request), "variablesReference"@)) == Some(reference),
    ensures
        client_step(backend_step(state, response).0, sequence, request).2 == ClientView::Reply(
            response_to(sequence, request, true, None, Some(no_variables())),
        ),
{
    reveal_strlit("restart");
    reveal_strlit("variables");
    reveal_strlit("scopes");
    assert("restart"@.len() != "variables"@.len());
    lemma_locals_after(state.locals, scopes_of(response));
    assert(locals_after(state.locals, scopes_of(response)).contains(reference));
}

/// No message makes a session forget a reference of a Locals scope.
pub proof fn locals_are_kept(state: SessionView, sequence: i64, message: Members)
    ensures
        state.locals.subset_of(client_step(state, sequence, message).0.locals),
        state.locals.subset_of(backend_step(state, message).0.locals),
{
    let number = integer_in(member(message, "request_seq"@));
    lemma_locals_after(state.locals, scopes_of(message));
    lemma_locals_after(
        state.locals,
        scopes_of(with_member(message, "command"@, JsonView::Text("launch"@))),
    );
}

/// A launch that was passed on as attach comes back as a launch: the adapter sees
/// `attach`, and the IDE sees `launch` in the response with its number.
pub proof fn launch_comes_back(
    state: SessionView,
    sequence: i64,
    request: Members,
    response: Members,
    number: i64,
)
    requires
        is_request(request),
        launches_as_attach(request),
        integer_in(member(request, "seq"@)) == Some(number),
        is_response(response),
        integer_in(member(response, "request_seq"@)) == Some(number),
        !state.internal.contains_key(number),
    ensures
        ({
            let (after, _, action) = client_step(state, sequence, request);
            let (_, reply) = backend_step(after, response);
            &&& action matches ClientView::Forward(passed) && member(passed, "command"@) == Some(
                JsonView::Text("attach"@),
            )
            &&& reply matches BackendView::Forward(passed) && member(passed, "command"@) == Some(
                JsonView::Text("launch"@),
            )
        }),
{
    reveal_strlit("launch");
    reveal_strlit("restart");
    reveal_strlit("variables");
    assert("launch"@.len() != "restart"@.len());
    assert("launch"@.len() != "variables"@.len());
    lemma_member_set(request, "command"@, JsonView::Text("attach"@), "command"@);
    lemma_member_set(response, "command"@, JsonView::Text("launch"@), "command"@);
}

/// What is neither a restart nor a request for locals nor a launch that asks for
/// an attach is passed on to the adapter as it is.
pub proof fn other_requests_are_untouched(state: SessionView, sequence: i64, message: Members)
    requires
        string_in(member(message, "command"@)) != Some("restart"@),
        !asks_for_locals(state, message),
        !launches_as_attach(message),
    ensures
        client_step(state, sequence, message).2 == ClientView::Forward(message),
{
}

/// The arguments of the debug adapter.
pub open spec fn adapter_line(port: u16, verbose: bool) -> Seq<Seq<char>> {
    seq!["--port"@, decimal_text(port as nat), "--log_to"@, "stdout"@] + (if verbose {
        seq!["--log_level"@, "debug"@]
    } else {
        seq![]
    })
}

/// The arguments of the debug adapter.
pub fn adapter_arguments(port: u16, verbose: bool) -> (arguments: Vec<String>)
    ensures
        text_views(arguments@) == adapter_line(port, verbose),
{
    let mut arguments: Vec<String> = Vec::new();
    arguments.push("--port".to_owned());
    arguments.push(decimal(port as u128));
    arguments.push("--log_to".to_owned());
    arguments.push("stdout".to_owned());
    if verbose {
        arguments.push("--log_level".to_owned());
        arguments.push("debug".to_owned());
    }
    assert(text_views(arguments@) =~= seq![
        "--port"@,
        decimal_text(port as nat),
        "--log_to"@,
        "stdout"@,
    ] + (if verbose {
        seq!["--log_level"@, "debug"@]
    } else {
        seq![]
    }));
    arguments
}

/// What stands before every message in the log.
pub const LOG_PREFIX: &'static str = "[tracebridge] ";

/// The line that logs a message.
pub fn log_line(message: &str) -> (line: String)
    ensures
        line@ == LOG_PREFIX@ + message@,
{
    concat2(LOG_PREFIX, message)
}

/// The message that says that the proxy is ready.
pub open spec fn listening_text(port: u16, backend_port: u16) -> Seq<char> {
    "adapter listening on 127.0.0.1:"@ + decimal_text(port as nat) + " (backend "@ + decimal_text(
        backend_port as nat,
    ) + ")"@
}

/// The line that logs that the proxy is ready. Both IDEs wait for it.
pub open spec fn ready_line(port: u16, backend_port: u16) -> Seq<char> {
    LOG_PREFIX@ + listening_text(port, backend_port)
}

/// The message that says that the proxy is ready; the log puts its prefix before
/// it.
pub fn listening_line(port: u16, backend_port: u16) -> (message: String)
    ensures
        message@ == listening_text(port, backend_port),
        LOG_PREFIX@ + message@ == ready_line(port, backend_port),
{
    concat5(
        "adapter listening on 127.0.0.1:",
        &decimal(port as u128),
        " (backend ",
        &decimal(backend_port as u128),
        ")",
    )
}

/// Why a connection to the adapter failed.
#[derive(Debug)]
pub enum ConnectFailure {
    Refused,
    Other(String),
}

/// What to do about a failed connection to the adapter: `None` to try again, or
/// the reason to give up. Refusals are retried until the time is up.
pub fn backend_connect_failed(failure: ConnectFailure, expired: bool, port: u16) -> (result: Option<
    String,
>)
    ensures
        match failure {
            ConnectFailure::Refused => if expired {
                result matches Some(text) && text@ == "cannot connect to t32debugadapter on "@
                    + decimal_text(port as nat)
            } else {
                result is None
            },
            ConnectFailure::Other(error) => result matches Some(text) && text@ == error@,
        },
{
    match failure {
        ConnectFailure::Refused => if expired {
            Some(concat2("cannot connect to t32debugadapter on ", &decimal(port as u128)))
        } else {
            None
        },
        ConnectFailure::Other(error) => Some(error),
    }
}

/// The life of the proxy: one session, and the code that it exits with.
#[derive(Debug, Clone, Copy, PartialEq, Eq)]
pub struct DapProxy {
    pub session_active: bool,
    pub exit_code: i32,
    pub finished: bool,
}

/// The proxy after its session, which ended well or did not.
pub open spec fn after_session(proxy: DapProxy, well: bool) -> DapProxy {
    DapProxy {
        finished: true,
        exit_code: if well {
            proxy.exit_code
        } else {
            1
        },
        ..proxy
    }
}

/// The proxy after the exit of the adapter, with a code if that could be told.
pub open spec fn after_exit(proxy: DapProxy, code: Option<i32>) -> DapProxy {
    if proxy.finished {
        proxy
    } else {
        DapProxy {
            exit_code: match code {
                Some(code) => if code == 0 {
                    1
                } else {
                    code
                },
                None => 1,
            },
            ..proxy
        }
    }
}

impl DapProxy {
    /// A proxy that has had no session.
    pub fn new() -> (proxy: DapProxy)
        ensures
            proxy == (DapProxy { session_active: false, exit_code: 0, finished: false }),
    {
        DapProxy { session_active: false, exit_code: 0, finished: false }
    }

    /// Whether a connection that has sent data becomes the session: only the
    /// first does.
    pub fn claim_session(&mut self) -> (claimed: bool)
        ensures
            claimed == !old(self).session_active,
            *final(self) == (DapProxy { session_active: true, ..*old(self) }),
    {
        let claimed = !self.session_active;
        self.session_active = true;
        claimed
    }

    /// The session has ended, in error or not, and the proxy with it. Returns the
    /// line to log.
    pub fn session_ended(&mut self, result: Result<(), String>) -> (line: Option<String>)
        ensures
            *final(self) == after_session(*old(self), result is Ok),
            match result {
                Ok(()) => line is None,
                Err(error) => line matches Some(text) && text@ == "session error: "@ + error@,
            },
    {
        self.finished = true;
        match result {
            Ok(()) => None,
            Err(error) => {
                self.exit_code = 1;
                Some(concat2("session error: ", &error))
            },
        }
    }

    /// The adapter has exited, with a code if that could be told. Unless the
    /// session had ended before, the proxy exits with that code, and with 1 where
    /// it is zero. Returns the line to log.
    pub fn adapter_exited(&mut self, code: Option<i32>) -> (line: Option<String>)
        ensures
            *final(self) == after_exit(*old(self), code),
            old(self).finished ==> line is None,
            !old(self).finished ==> ({
                let shown = match code {
                    Some(code) => code,
                    None => 1,
                };
                line matches Some(text) && text@ == "t32debugadapter exited ("@ + integer_text(
                    shown as int,
                ) + ")"@
            }),
    {
        if self.finished {
            return None;
        }
        let code: i32 = match code {
            Some(code) => code,
            None => 1,
        };
        self.exit_code = if code == 0 {
            1
        } else {
            code
        };
        Some(concat3("t32debugadapter exited (", &integer(code as i128), ")"))
    }

    /// What the run of the proxy comes to.
    pub fn result(&self) -> (result: Result<(), BridgeError>)
        ensures
            self.exit_code == 0 <==> result is Ok,
            result matches Err(error) ==> error@ == "DAP proxy exited with code "@ + integer_text(
                self.exit_code as int,
            ),
    {
        if self.exit_code == 0 {
            Ok(())
        } else {
            Err(
                BridgeError(
                    concat2("DAP proxy exited with code ", &integer(self.exit_code as i128)),
                ),
            )
        }
    }
}

/// Events, and responses to what the IDE has asked, are passed on to the IDE as
/// they are, but for the name of a launch that was passed on as attach.
pub proof fn other_answers_are_untouched(state: SessionView, message: Members)
    requires
        is_response(message) ==> (integer_in(member(message, "request_seq"@)) matches Some(n)
            ==> !state.internal.contains_key(n) && !state.launches.contains(n)),
    ensures
        backend_step(state, message).1 == BackendView::Forward(message),
{
}

}
