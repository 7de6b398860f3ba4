//! What passes between an IDE and the debug adapter, and what does not.

use vstd::prelude::*;
use vstd::string::*;

use crate::dap::proxy::{
    after_exit, after_session, asks_for_locals, backend_step, client_step, continued_event,
    continuing, following, internal_request, is_locals, is_response, locals_after, response_to,
    BackendView, ClientView, DapProxy, Members, SessionView,
};
use crate::json::{field, integer_in, lemma_member_set, member, string_in, JsonView};
use crate::text::{integer_text, lowercase_text};

verus! {

/// Whether a message is a response to a `scopes` request that the IDE has made: it
/// says so itself, or it names no command and answers the number of such a request.
pub open spec fn answers_scopes(state: SessionView, message: Members) -> bool {
    let number = integer_in(member(message, "request_seq"@));
    let command = string_in(member(message, "command"@));
    &&& string_in(member(message, "type"@)) == Some("response"@)
    &&& number matches Some(n) ==> !state.internal.contains_key(n) && !state.launches.contains(n)
    &&& command == Some("scopes"@) || ((command is None || command == Some(
        Seq::<char>::empty(),
    )) && (number matches Some(n) && state.commands.contains_key(n) && state.commands[n]
        == "scopes"@))
}

/// Whether a response lists a scope of local variables behind a reference: one
/// whose hint is `locals` or whose name is, in any case. A scope without a name
/// counts as one with an empty name.
pub open spec fn lists_locals(response: Members, reference: i64) -> bool {
    exists|scopes: Seq<JsonView>, at: int|
        {
            &&& member(response, "body"@) matches Some(body) && field(body, "scopes"@) == Some(
                JsonView::Array(scopes),
            )
            &&& 0 <= at < scopes.len()
            &&& integer_in(field(#[trigger] scopes[at], "variablesReference"@)) == Some(reference)
            &&& string_in(field(scopes[at], "presentationHint"@)) == Some("locals"@) || (
            match string_in(field(scopes[at], "name"@)) {
                Some(name) => lowercase_text(name) == "locals"@,
                None => lowercase_text(""@) == "locals"@,
            })
        }
}

proof fn lemma_locals_after_exactly(locals: Set<i64>, scopes: Seq<JsonView>, reference: i64)
    ensures
        locals_after(locals, scopes).contains(reference) <==> locals.contains(reference) || exists|
            at: int,
        |
            0 <= at < scopes.len() && integer_in(field(#[trigger] scopes[at], "variablesReference"@))
                == Some(reference) && is_locals(scopes[at]),
    decreases scopes.len(),
{
    if scopes.len() > 0 {
        let rest = scopes.drop_last();
        lemma_locals_after_exactly(locals, rest, reference);
        if exists|at: int|
            0 <= at < rest.len() && integer_in(field(#[trigger] rest[at], "variablesReference"@))
                == Some(reference) && is_locals(rest[at]) {
            let at = choose|at: int|
                0 <= at < rest.len() && integer_in(
                    field(#[trigger] rest[at], "variablesReference"@),
                ) == Some(reference) && is_locals(rest[at]);
            assert(scopes[at] == rest[at]);
        }
        if exists|at: int|
            0 <= at < scopes.len() && integer_in(field(#[trigger] scopes[at], "variablesReference"@))
                == Some(reference) && is_locals(scopes[at]) {
            let at = choose|at: int|
                0 <= at < scopes.len() && integer_in(
                    field(#[trigger] scopes[at], "variablesReference"@),
                ) == Some(reference) && is_locals(scopes[at]);
            if at < rest.len() {
                assert(rest[at] == scopes[at]);
            }
        }
        assert(scopes[scopes.len() - 1] == scopes.last());
    }
}

/// A session knows exactly those references as local variables that it knew before
/// or that the response lists with the hint or the name of local variables.
pub proof fn only_locals_are_remembered(state: SessionView, response: Members, reference: i64)
    requires
        answers_scopes(state, response),
    ensures
        backend_step(state, response).0.locals.contains(reference) <==> state.locals.contains(
            reference,
        ) || lists_locals(response, reference),
        backend_step(state, response).1 == BackendView::Forward(response),
{
    reveal_strlit("scopes");
    let body = member(response, "body"@);
    let listed = field(body->Some_0, "scopes"@);
    if body is Some && listed is Some && listed->Some_0 is Array {
        let scopes = listed->Some_0->Array_0;
        lemma_locals_after_exactly(state.locals, scopes, reference);
        if exists|at: int|
            0 <= at < scopes.len() && integer_in(field(#[trigger] scopes[at], "variablesReference"@))
                == Some(reference) && is_locals(scopes[at]) {
            let at = choose|at: int|
                0 <= at < scopes.len() && integer_in(
                    field(#[trigger] scopes[at], "variablesReference"@),
                ) == Some(reference) && is_locals(scopes[at]);
            assert(lists_locals(response, reference));
        }
        if lists_locals(response, reference) {
            let (list, at) = choose|list: Seq<JsonView>, at: int|
                {
                    &&& member(response, "body"@) matches Some(body) && field(body, "scopes"@)
                        == Some(JsonView::Array(list))
                    &&& 0 <= at < list.len()
                    &&& integer_in(field(#[trigger] list[at], "variablesReference"@)) == Some(
                        reference,
                    )
                    &&& string_in(field(list[at], "presentationHint"@)) == Some("locals"@) || (
                    match string_in(field(list[at], "name"@)) {
                        Some(name) => lowercase_text(name) == "locals"@,
                        None => lowercase_text(""@) == "locals"@,
                    })
                };
            assert(list == scopes);
            assert(is_locals(scopes[at]));
        }
    }
}

/// Only a response to a `scopes` request tells a session of local variables.
pub proof fn other_messages_tell_of_no_locals(state: SessionView, message: Members)
    requires
        !answers_scopes(state, message),
    ensures
        backend_step(state, message).0.locals == state.locals,
{
    reveal_strlit("scopes");
    reveal_strlit("launch");
    assert("scopes"@[0] != "launch"@[0]);
    if string_in(member(message, "command"@)) matches Some(text) && text.len() == 0 {
        assert(string_in(member(message, "command"@))->Some_0 =~= Seq::<char>::empty());
    }
}

/// Whether a message asks for the variables behind a reference.
pub open spec fn asks_for(message: Members, reference: i64) -> bool {
    &&& string_in(member(message, "type"@)) == Some("request"@)
    &&& string_in(member(message, "command"@)) == Some("variables"@)
    &&& member(message, "arguments"@) matches Some(arguments) && arguments is Object && integer_in(
        field(arguments, "variablesReference"@),
    ) == Some(reference)
}

/// Variables other than local ones are left to the adapter: where a response lists
/// no scope of local variables behind a reference, and none was listed before, a
/// request for the variables behind it is passed on as it is.
pub proof fn other_variables_are_forwarded(
    state: SessionView,
    sequence: i64,
    response: Members,
    request: Members,
    reference: i64,
)
    requires
        !state.locals.contains(reference),
        !lists_locals(response, reference),
        asks_for(request, reference),
    ensures
        client_step(backend_step(state, response).0, sequence, request).2 == ClientView::Forward(
            request,
        ),
        client_step(state, sequence, request).2 == ClientView::Forward(request),
{
    reveal_strlit("variables");
    reveal_strlit("restart");
    reveal_strlit("launch");
    assert("variables"@.len() != "restart"@.len());
    assert("variables"@.len() != "launch"@.len());
    if answers_scopes(state, response) {
        only_locals_are_remembered(state, response, reference);
    } else {
        other_messages_tell_of_no_locals(state, response);
    }
}

proof fn lemma_distinct_keys()
    ensures
        "seq"@ != "type"@ && "seq"@ != "request_seq"@ && "seq"@ != "success"@ && "seq"@
            != "command"@ && "seq"@ != "message"@ && "seq"@ != "body"@,
        "type"@ != "request_seq"@ && "type"@ != "success"@ && "type"@ != "command"@ && "type"@
            != "message"@ && "type"@ != "body"@,
        "request_seq"@ != "success"@ && "request_seq"@ != "command"@ && "request_seq"@
            != "message"@ && "request_seq"@ != "body"@,
        "success"@ != "command"@ && "success"@ != "message"@ && "success"@ != "body"@,
        "command"@ != "message"@ && "command"@ != "body"@,
        "message"@ != "body"@,
        "event"@ != "seq"@ && "event"@ != "type"@ && "event"@ != "body"@,
        "arguments"@ != "seq"@ && "arguments"@ != "type"@ && "arguments"@ != "command"@,
{
    reveal_strlit("seq");
    reveal_strlit("type");
    reveal_strlit("request_seq");
    reveal_strlit("success");
    reveal_strlit("command");
    reveal_strlit("message");
    reveal_strlit("body");
    reveal_strlit("event");
    reveal_strlit("arguments");
    assert("seq"@.len() == 3 && "type"@.len() == 4 && "body"@.len() == 4 && "event"@.len() == 5);
    assert("success"@.len() == 7 && "command"@.len() == 7 && "message"@.len() == 7);
    assert("request_seq"@.len() == 11 && "arguments"@.len() == 9);
    assert("type"@[0] != "body"@[0]);
    assert("success"@[0] != "command"@[0]);
    assert("success"@[0] != "message"@[0]);
    assert("command"@[0] != "message"@[0]);
}

/// A response of the proxy answers the request that it was made for: it carries the
/// number and the command of the request, and what the proxy has to say.
pub proof fn responses_answer_their_request(
    sequence: i64,
    request: Members,
    success: bool,
    message: Option<Seq<char>>,
    body: Option<JsonView>,
)
    ensures
        ({
            let response = response_to(sequence, request, success, message, body);
            &&& member(response, "type"@) == Some(JsonView::Text("response"@))
            &&& member(response, "seq"@) == Some(JsonView::Number(integer_text(sequence as int)))
            &&& member(request, "seq"@) is Some ==> member(response, "request_seq"@) == member(
                request,
                "seq"@,
            )
            &&& member(request, "command"@) is Some ==> member(response, "command"@) == member(
                request,
                "command"@,
            )
            &&& member(response, "success"@) == Some(JsonView::Bool(success))
            &&& string_in(member(response, "message"@)) == message
            &&& body is Some ==> member(response, "body"@) == body
            &&& body is None ==> member(response, "body"@) == Some(JsonView::Null)
        }),
{
    let r = response_to(sequence, request, success, message, body);
    lemma_distinct_keys();
    reveal_with_fuel(member, 9);
    assert(r.skip(1)[0] == r[1]);
    assert(r.skip(1).skip(1)[0] == r[2]);
    assert(r.skip(1).skip(1).skip(1)[0] == r[3]);
    assert(r.skip(1).skip(1).skip(1).skip(1)[0] == r[4]);
    assert(r.skip(1).skip(1).skip(1).skip(1).skip(1)[0] == r[5]);
    assert(r.skip(1).skip(1).skip(1).skip(1).skip(1).skip(1)[0] == r[6]);
}

/// A request for local variables is answered by the proxy: successfully, with the
/// number of the request, and with an empty list.
pub proof fn locals_get_an_empty_list(
    state: SessionView,
    sequence: i64,
    response: Members,
    request: Members,
    reference: i64,
)
    requires
        answers_scopes(state, response),
        state.locals.contains(reference) || lists_locals(response, reference),
        asks_for(request, reference),
    ensures
        client_step(backend_step(state, response).0, sequence, request).2 matches ClientView::Reply(
            reply,
        ) && {
            &&& member(reply, "type"@) == Some(JsonView::Text("response"@))
            &&& member(request, "seq"@) is Some ==> member(reply, "request_seq"@) == member(
                request,
                "seq"@,
            )
            &&& member(reply, "command"@) == Some(JsonView::Text("variables"@))
            &&& member(reply, "success"@) == Some(JsonView::Bool(true))
            &&& member(reply, "body"@) matches Some(body) && field(body, "variables"@) == Some(
                JsonView::Array(Seq::empty()),
            )
        },
{
    reveal_strlit("variables");
    reveal_strlit("restart");
    assert("variables"@.len() != "restart"@.len());
    only_locals_are_remembered(state, response, reference);
    let body = crate::dap::proxy::no_variables();
    responses_answer_their_request(sequence, request, true, None, Some(body));
    reveal_with_fuel(member, 2);
}

/// A restart is left to the proxy: nothing of it reaches the adapter, and what the
/// session knows of local variables and its own requests stays.
pub proof fn restarts_are_kept_back(state: SessionView, sequence: i64, request: Members)
    requires
        string_in(member(request, "type"@)) == Some("request"@),
        string_in(member(request, "command"@)) == Some("restart"@),
    ensures
        client_step(state, sequence, request).2 == ClientView::Restart(request),
        client_step(state, sequence, request).0.locals == state.locals,
        client_step(state, sequence, request).0.internal == state.internal,
{
}

/// A request of the proxy has its number, its command and its arguments; the event
/// after a restart says that all threads go on.
pub proof fn own_messages_say_what_they_are(sequence: i64, command: Seq<char>, arguments: JsonView)
    ensures
        ({
            let request = internal_request(sequence, command, arguments);
            &&& member(request, "seq"@) == Some(JsonView::Number(integer_text(sequence as int)))
            &&& member(request, "type"@) == Some(JsonView::Text("request"@))
            &&& member(request, "command"@) == Some(JsonView::Text(command))
            &&& member(request, "arguments"@) == Some(arguments)
        }),
        ({
            let event = continued_event(sequence);
            &&& member(event, "seq"@) == Some(JsonView::Number(integer_text(sequence as int)))
            &&& member(event, "type"@) == Some(JsonView::Text("event"@))
            &&& member(event, "event"@) == Some(JsonView::Text("continued"@))
            &&& member(event, "body"@) matches Some(body) && field(body, "allThreadsContinued"@)
                == Some(JsonView::Bool(true))
        }),
{
    let r = internal_request(sequence, command, arguments);
    let e = continued_event(sequence);
    lemma_distinct_keys();
    reveal_strlit("threadId");
    reveal_strlit("allThreadsContinued");
    reveal_with_fuel(member, 5);
    assert(r.skip(1)[0] == r[1]);
    assert(r.skip(1).skip(1)[0] == r[2]);
    assert(r.skip(1).skip(1).skip(1)[0] == r[3]);
    assert(e.skip(1)[0] == e[1]);
    assert(e.skip(1).skip(1)[0] == e[2]);
    assert(e.skip(1).skip(1).skip(1)[0] == e[3]);
    let body = e[3].1->Object_0;
    assert("threadId"@.len() != "allThreadsContinued"@.len());
    assert(body.skip(1)[0] == body[1]);
}

/// The messages of the proxy are numbered one after the other.
pub proof fn numbers_go_up(sequence: i64)
    requires
        sequence < i64::MAX,
    ensures
        following(sequence) == sequence + 1,
{
}

/// What becomes of a request of the proxy is what the response to it says: success
/// means success, and a failure is told by its message, or by its command where it
/// has none.
pub proof fn own_requests_learn_their_outcome(state: SessionView, response: Members, number: i64)
    requires
        string_in(member(response, "type"@)) == Some("response"@),
        integer_in(member(response, "request_seq"@)) == Some(number),
        state.internal.contains_key(number),
        state.internal[number],
    ensures
        backend_step(state, response).1 matches BackendView::Answer(n, outcome) && n == number && {
            &&& member(response, "success"@) == Some(JsonView::Bool(true)) ==> outcome == Ok::<
                _,
                Seq<char>,
            >(response)
            &&& member(response, "success"@) is None || member(response, "success"@) == Some(
                JsonView::Bool(false),
            ) ==> (outcome matches Err(text) && match string_in(member(response, "message"@)) {
                Some(message) => message.len() > 0 ==> text == message,
                None => string_in(member(response, "command"@)) matches Some(command) ==> text
                    == command + " failed"@,
            })
        },
        backend_step(state, response).0.internal.contains_key(number),
        !backend_step(state, response).0.internal[number],
{
}

/// A launch that asks for an attach reaches the adapter as one: only its command is
/// changed, and the response to it gets the command back, and is changed in nothing
/// else.
pub proof fn launches_change_in_their_command_only(
    state: SessionView,
    sequence: i64,
    request: Members,
    response: Members,
    number: i64,
    key: Seq<char>,
)
    requires
        string_in(member(request, "type"@)) == Some("request"@),
        string_in(member(request, "command"@)) == Some("launch"@),
        member(request, "arguments"@) matches Some(arguments) && arguments is Object && string_in(
            field(arguments, "request"@),
        ) == Some("attach"@),
        integer_in(member(request, "seq"@)) == Some(number),
        string_in(member(response, "type"@)) == Some("response"@),
        integer_in(member(response, "request_seq"@)) == Some(number),
        !state.internal.contains_key(number),
    ensures
        ({
            let (after, _, action) = client_step(state, sequence, request);
            let (last, reply) = backend_step(after, response);
            &&& action matches ClientView::Forward(passed) && member(passed, "command"@) == Some(
                JsonView::Text("attach"@),
            ) && (key != "command"@ ==> member(passed, key) == member(request, key))
            &&& reply matches BackendView::Forward(passed) && member(passed, "command"@) == Some(
                JsonView::Text("launch"@),
            ) && (key != "command"@ ==> member(passed, key) == member(response, key))
            &&& !last.launches.contains(number)
        }),
{
    reveal_strlit("launch");
    reveal_strlit("restart");
    reveal_strlit("variables");
    assert("launch"@.len() != "restart"@.len());
    assert("launch"@.len() != "variables"@.len());
    lemma_member_set(request, "command"@, JsonView::Text("attach"@), "command"@);
    lemma_member_set(response, "command"@, JsonView::Text("launch"@), "command"@);
    lemma_member_set(request, "command"@, JsonView::Text("attach"@), key);
    lemma_member_set(response, "command"@, JsonView::Text("launch"@), key);
}

/// Every other message of the IDE reaches the adapter as it is: all but restarts,
/// requests for variables behind known references, and launches that ask for an
/// attach.
pub proof fn everything_else_reaches_the_adapter(
    state: SessionView,
    sequence: i64,
    message: Members,
)
    requires
        string_in(member(message, "type"@)) != Some("request"@) || ({
            let command = string_in(member(message, "command"@));
            &&& command != Some("restart"@)
            &&& command == Some("variables"@) ==> forall|reference: i64|
                asks_for(message, reference) ==> !#[trigger] state.locals.contains(reference)
            &&& command == Some("launch"@) ==> !(member(message, "arguments"@) matches Some(
                arguments,
            ) && arguments is Object && string_in(field(arguments, "request"@)) == Some("attach"@))
        }),
    ensures
        client_step(state, sequence, message).2 == ClientView::Forward(message),
        client_step(state, sequence, message).1 == sequence,
        client_step(state, sequence, message).0.launches == state.launches,
{
    if let Some(reference) = integer_in(
        member(crate::dap::proxy::arguments_of(message), "variablesReference"@),
    ) {
        reveal_with_fuel(member, 1);
        if string_in(member(message, "command"@)) == Some("variables"@) && string_in(
            member(message, "type"@),
        ) == Some("request"@) {
            if state.locals.contains(reference) {
                assert(asks_for(message, reference));
            }
        }
    }
}

/// The command of a request is remembered under its number until its response
/// comes.
pub proof fn commands_are_remembered(
    state: SessionView,
    sequence: i64,
    request: Members,
    number: i64,
    command: Seq<char>,
)
    requires
        string_in(member(request, "type"@)) == Some("request"@),
        integer_in(member(request, "seq"@)) == Some(number),
        string_in(member(request, "command"@)) == Some(command),
    ensures
        client_step(state, sequence, request).0.commands == state.commands.insert(number, command),
{
}

/// A session that failed, and an adapter that exits before the session has ended, are
/// seen in the exit code; an adapter that exits afterwards changes nothing.
pub proof fn failures_are_seen_in_the_exit_code(proxy: DapProxy, code: Option<i32>)
    ensures
        after_session(proxy, false).exit_code == 1,
        after_session(proxy, true).exit_code == proxy.exit_code,
        after_session(proxy, true).finished && after_session(proxy, false).finished,
        !proxy.finished ==> after_exit(proxy, code).exit_code != 0,
        !proxy.finished ==> (code matches Some(n) ==> n != 0 ==> after_exit(proxy, code).exit_code
            == n),
        after_exit(after_session(proxy, true), code) == after_session(proxy, true),
        after_exit(after_session(proxy, false), code) == after_session(proxy, false),
        after_exit(proxy, code).session_active == proxy.session_active,
        after_exit(proxy, code).finished == proxy.finished,
{
}

/// After the target was reset no reference leads to local variables any more, and the
/// answer to the request to continue is told to the proxy.
pub proof fn resets_make_references_void(
    state: SessionView,
    sequence: i64,
    request: Members,
    response: Members,
)
    requires
        is_response(response),
        integer_in(member(response, "request_seq"@)) == Some(sequence),
    ensures
        !asks_for_locals(continuing(state, sequence), request),
        backend_step(continuing(state, sequence), response).1 matches BackendView::Answer(number, _)
            && number == sequence,
        continuing(state, sequence).commands == state.commands,
        continuing(state, sequence).launches == state.launches,
{
}

/// The greatest number is followed by the least, so that no two numbers have the same
/// one behind them.
pub proof fn numbers_come_round(one: i64, two: i64)
    ensures
        following(i64::MAX) == i64::MIN,
        following(one) == following(two) ==> one == two,
        following(one) != one,
{
}

}
