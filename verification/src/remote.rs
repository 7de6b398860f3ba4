//! What is asked of a debugger, and how a list of such requests is carried out.

use vstd::prelude::*;
use vstd::string::*;

use crate::errors::BridgeError;
use crate::rtt::unit_view;
use crate::t32rcl::error::{Error, ErrorView, Span};
use crate::t32rcl::eval::text_views;
use crate::text::{concat2, concat4, decimal, decimal_text};

verus! {

/// How many seconds a connection to PowerView may take.
pub const CONNECT_SECONDS: u64 = 5;

/// A request to a debugger.
pub ghost enum Order {
    Cmd(Seq<char>),
    Cmm(Seq<char>, Option<Span>),
    Print(Seq<char>),
    SystemUp,
    StateRun,
}

/// A request to a debugger and what came of it; a request without an answer
/// counts as answered with yes.
pub ghost struct Performed {
    pub order: Order,
    pub outcome: Result<bool, ErrorView>,
}

/// The outcome of a request without an answer.
pub open spec fn plain(outcome: Result<(), Error>) -> Result<bool, ErrorView> {
    match outcome {
        Ok(()) => Ok(true),
        Err(error) => Err(error@),
    }
}

/// The outcome of a question.
pub open spec fn answer(outcome: Result<bool, Error>) -> Result<bool, ErrorView> {
    match outcome {
        Ok(answer) => Ok(answer),
        Err(error) => Err(error@),
    }
}

/// The operations of a debugger that the sequences on a target use.
pub trait Rcl: Sized {
    /// The requests so far.
    open spec fn history(&self) -> Seq<Performed> {
        arbitrary()
    }

    /// Executes a command.
    fn cmd(&mut self, command: &str) -> (outcome: Result<(), Error>)
        ensures
            final(self).history() == old(self).history().push(
                Performed { order: Order::Cmd(command@), outcome: plain(outcome) },
            ),
    ;

    /// Runs a script and waits for it.
    fn cmm(&mut self, script: &str, timeout: Option<Span>) -> (outcome: Result<(), Error>)
        ensures
            final(self).history() == old(self).history().push(
                Performed { order: Order::Cmm(script@, timeout), outcome: plain(outcome) },
            ),
    ;

    /// Shows a text.
    fn print(&mut self, text: &str) -> (outcome: Result<(), Error>)
        ensures
            final(self).history() == old(self).history().push(
                Performed { order: Order::Print(text@), outcome: plain(outcome) },
            ),
    ;

    /// Whether the system is up.
    fn system_up(&mut self) -> (outcome: Result<bool, Error>)
        ensures
            final(self).history() == old(self).history().push(
                Performed { order: Order::SystemUp, outcome: answer(outcome) },
            ),
    ;

    /// Whether the target runs.
    fn state_run(&mut self) -> (outcome: Result<bool, Error>)
        ensures
            final(self).history() == old(self).history().push(
                Performed { order: Order::StateRun, outcome: answer(outcome) },
            ),
    ;
}

/// One step of a plan.
#[derive(Debug)]
pub enum Step {
    /// Execute a command.
    Cmd(String),
    /// Run a script and wait for it.
    Cmm(String, Option<Span>),
    /// Show a text.
    Print(String),
    /// Execute a command, and after it another whether or not it failed. The
    /// error of the first counts before that of the second.
    Guarded(String, String),
    /// Execute commands unless the system is up.
    UnlessUp(Vec<String>),
    /// Execute commands unless the target runs.
    UnlessRunning(Vec<String>),
}

/// The content of a [`Step`].
pub ghost enum StepView {
    Cmd(Seq<char>),
    Cmm(Seq<char>, Option<Span>),
    Print(Seq<char>),
    Guarded(Seq<char>, Seq<char>),
    UnlessUp(Seq<Seq<char>>),
    UnlessRunning(Seq<Seq<char>>),
}

impl View for Step {
    type V = StepView;

    open spec fn view(&self) -> StepView {
        match *self {
            Step::Cmd(command) => StepView::Cmd(command@),
            Step::Cmm(script, limit) => StepView::Cmm(script@, limit),
            Step::Print(text) => StepView::Print(text@),
            Step::Guarded(first, second) => StepView::Guarded(first@, second@),
            Step::UnlessUp(commands) => StepView::UnlessUp(text_views(commands@)),
            Step::UnlessRunning(commands) => StepView::UnlessRunning(text_views(commands@)),
        }
    }
}

/// The contents of steps.
pub open spec fn step_views(steps: Seq<Step>) -> Seq<StepView> {
    steps.map_values(|step: Step| step@)
}

/// Commands as steps.
pub open spec fn commands(list: Seq<Seq<char>>) -> Seq<StepView> {
    list.map_values(|command: Seq<char>| StepView::Cmd(command))
}

/// The request that a step begins with.
pub open spec fn first_order(step: StepView) -> Order {
    match step {
        StepView::Cmd(command) => Order::Cmd(command),
        StepView::Cmm(script, limit) => Order::Cmm(script, limit),
        StepView::Print(text) => Order::Print(text),
        StepView::Guarded(first, _) => Order::Cmd(first),
        StepView::UnlessUp(_) => Order::SystemUp,
        StepView::UnlessRunning(_) => Order::StateRun,
    }
}

/// What is left to do after the first request of a step succeeded, the rest of
/// the plan aside.
pub open spec fn follow_up(step: StepView, answer: bool) -> Seq<StepView> {
    match step {
        StepView::UnlessUp(list) => if answer {
            seq![]
        } else {
            commands(list)
        },
        StepView::UnlessRunning(list) => if answer {
            seq![]
        } else {
            commands(list)
        },
        StepView::Guarded(_, second) => seq![StepView::Cmd(second)],
        _ => seq![],
    }
}

/// Whether requests are those of a plan that is carried out step by step up to
/// its end or to the first error, and whether the result says so.
pub open spec fn carried_out(
    plan: Seq<StepView>,
    done: Seq<Performed>,
    result: Result<(), ErrorView>,
) -> bool
    decreases done.len(),
{
    if plan.len() == 0 {
        done.len() == 0 && result == Ok::<(), ErrorView>(())
    } else {
        &&& done.len() > 0
        &&& done[0].order == first_order(plan[0])
        &&& match done[0].outcome {
            Ok(answer) => carried_out(
                follow_up(plan[0], answer) + plan.skip(1),
                done.skip(1),
                result,
            ),
            Err(error) => match plan[0] {
                StepView::Guarded(_, second) => done.len() == 2 && done[1].order == Order::Cmd(
                    second,
                ) && result == Err::<(), _>(error),
                _ => done.len() == 1 && result == Err::<(), _>(error),
            },
        }
    }
}

/// Whether a step is a single request.
pub open spec fn is_single(step: StepView) -> bool {
    step is Cmd || step is Cmm || step is Print
}

/// A plan that begins with single requests goes on behind them once they are
/// done.
pub proof fn lemma_singles_done(
    plan: Seq<StepView>,
    done: Seq<Performed>,
    result: Result<(), ErrorView>,
    count: nat,
)
    requires
        carried_out(plan, done, result),
        count <= plan.len(),
        count < done.len(),
        forall|i: int| 0 <= i < count ==> is_single(#[trigger] plan[i]),
    ensures
        carried_out(plan.skip(count as int), done.skip(count as int), result),
    decreases count,
{
    if count == 0 {
        assert(plan.skip(0) =~= plan);
        assert(done.skip(0) =~= done);
    } else {
        assert(is_single(plan[0]));
        assert(seq![] + plan.skip(1) =~= plan.skip(1));
        assert forall|i: int| 0 <= i < count - 1 implies is_single(#[trigger] plan.skip(1)[i]) by {
            assert(plan.skip(1)[i] == plan[i + 1]);
        }
        lemma_singles_done(plan.skip(1), done.skip(1), result, (count - 1) as nat);
        assert(plan.skip(1).skip(count - 1) =~= plan.skip(count as int));
        assert(done.skip(1).skip(count - 1) =~= done.skip(count as int));
    }
}

/// The requests that one call added to those before it.
pub open spec fn added(before: Seq<Performed>, after: Seq<Performed>) -> Seq<Performed> {
    after.skip(before.len() as int)
}

/// Carries out commands until one fails.
fn run_commands<R: Rcl>(list: &Vec<String>, from: usize, debugger: &mut R) -> (result: Result<
    (),
    Error,
>)
    requires
        from <= list@.len(),
    ensures
        final(debugger).history() == old(debugger).history() + added(
            old(debugger).history(),
            final(debugger).history(),
        ),
        result is Ok ==> added(old(debugger).history(), final(debugger).history()).len()
            == list@.len() - from && forall|i: int|
            0 <= i < list@.len() - from ==> (#[trigger] added(
                old(debugger).history(),
                final(debugger).history(),
            )[i]).order == Order::Cmd(list@[from + i]@) && added(
                old(debugger).history(),
                final(debugger).history(),
            )[i].outcome is Ok,
        result matches Err(error) ==> ({
            let done = added(old(debugger).history(), final(debugger).history());
            &&& 0 < done.len() <= list@.len() - from
            &&& forall|i: int|
                0 <= i < done.len() ==> (#[trigger] done[i]).order == Order::Cmd(
                    list@[from + i]@,
                )
            &&& forall|i: int| 0 <= i < done.len() - 1 ==> (#[trigger] done[i]).outcome is Ok
            &&& done.last().outcome == Err::<bool, _>(error@)
        }),
    decreases list@.len() - from,
{
    let ghost start = debugger.history();
    assert(start =~= start + added(start, start));
    if from >= list.len() {
        return Ok(());
    }
    let outcome = debugger.cmd(&list[from]);
    let ghost one = debugger.history();
    assert(one =~= start + added(start, one));
    assert(added(start, one)[0] == one.last());
    match outcome {
        Ok(()) => {
            let result = run_commands(list, from + 1, debugger);
            proof {
                let all = debugger.history();
                assert(all =~= start + added(start, all));
                let done = added(start, all);
                let rest = added(one, all);
                assert(done[0] == one.last());
                assert forall|i: int| 0 < i < done.len() implies #[trigger] done[i] == rest[i
                    - 1] by {}
                if result is Err {
                    assert(done.last() == rest.last());
                }
            }
            result
        },
        Err(error) => Err(error),
    }
}

proof fn lemma_commands_carried_out(
    list: Seq<Seq<char>>,
    rest: Seq<StepView>,
    done: Seq<Performed>,
    more: Seq<Performed>,
    result: Result<(), ErrorView>,
)
    requires
        done.len() <= list.len(),
        forall|i: int|
            0 <= i < done.len() ==> (#[trigger] done[i]).order == Order::Cmd(list[i]),
        done.len() == list.len() && (forall|i: int|
            0 <= i < done.len() ==> (#[trigger] done[i]).outcome is Ok) && carried_out(
            rest,
            more,
            result,
        ) || more.len() == 0 && done.len() > 0 && (forall|i: int|
            0 <= i < done.len() - 1 ==> (#[trigger] done[i]).outcome is Ok) && (result matches Err(e)
            && done.last().outcome == Err::<bool, _>(e)),
    ensures
        carried_out(commands(list) + rest, done + more, result),
    decreases list.len(),
{
    let plan = commands(list) + rest;
    let all = done + more;
    if list.len() == 0 {
        assert(plan =~= rest);
        assert(all =~= more);
    } else {
        assert(done.len() > 0);
        assert(plan[0] == StepView::Cmd(list[0]));
        assert(all[0] == done[0]);
        assert(plan.skip(1) =~= commands(list.skip(1)) + rest);
        assert(seq![] + plan.skip(1) =~= plan.skip(1));
        assert(all.skip(1) =~= done.skip(1) + more);
        if done.len() == 1 && more.len() == 0 && done[0].outcome is Err {
            assert(done.last() == done[0]);
        } else {
            assert(done[0].outcome is Ok) by {
                if done.len() == 1 && !(done.len() == list.len() && (forall|i: int|
                    0 <= i < done.len() ==> (#[trigger] done[i]).outcome is Ok)) {
                    assert(done.last() == done[0]);
                }
            }
            let tail = done.skip(1);
            assert forall|i: int| 0 <= i < tail.len() implies (#[trigger] tail[i]).order
                == Order::Cmd(list.skip(1)[i]) by {
                assert(tail[i] == done[i + 1]);
            }
            assert forall|i: int|
                0 <= i < tail.len() && done[i + 1].outcome is Ok implies (#[trigger] tail[i]).outcome is Ok by {
                assert(tail[i] == done[i + 1]);
            }
            if tail.len() > 0 {
                assert(tail.last() == done.last());
            }
            lemma_commands_carried_out(list.skip(1), rest, tail, more, result);
        }
    }
}

/// Carries out a plan from a step on.
fn run_from<R: Rcl>(plan: &Vec<Step>, at: usize, debugger: &mut R) -> (result: Result<(), Error>)
    requires
        at <= plan@.len(),
    ensures
        final(debugger).history() == old(debugger).history() + added(
            old(debugger).history(),
            final(debugger).history(),
        ),
        carried_out(
            step_views(plan@).skip(at as int),
            added(old(debugger).history(), final(debugger).history()),
            unit_view(result),
        ),
    decreases plan@.len() - at,
{
    let ghost views = step_views(plan@);
    let ghost here = views.skip(at as int);
    let ghost start = debugger.history();
    assert(start =~= start + added(start, start));
    if at >= plan.len() {
        return Ok(());
    }
    assert(here[0] == plan@[at as int]@);
    assert(here.skip(1) =~= views.skip(at as int + 1));
    assert(seq![] + here.skip(1) =~= here.skip(1));
    let mut answer = true;
    let outcome: Result<(), Error> = match &plan[at] {
        Step::Cmd(command) => debugger.cmd(command),
        Step::Cmm(script, limit) => debugger.cmm(script, *limit),
        Step::Print(text) => debugger.print(text),
        Step::Guarded(first, second) => {
            let loaded = debugger.cmd(first);
            let ghost one = debugger.history();
            let left = debugger.cmd(second);
            let ghost two = debugger.history();
            assert(two =~= start + added(start, two));
            assert(added(start, two)[0] == one.last());
            assert(added(start, two)[1] == two.last());
            match loaded {
                Err(error) => {
                    return Err(error);
                },
                Ok(()) => {},
            }
            let ghost second_plan = seq![StepView::Cmd(second@)] + here.skip(1);
            assert(second_plan.skip(1) =~= here.skip(1));
            match left {
                Err(error) => {
                    assert(added(start, two).skip(1) =~= added(one, two));
                    assert(carried_out(second_plan, added(one, two), Err(error@)));
                    return Err(error);
                },
                Ok(()) => {},
            }
            let result = run_from(plan, at + 1, debugger);
            proof {
                let all = debugger.history();
                assert(all =~= start + added(start, all));
                assert(added(start, all)[0] == one.last());
                assert(added(start, all).skip(1) =~= added(one, all));
                assert(added(one, all)[0] == two.last());
                assert(added(one, all).skip(1) =~= added(two, all));
                assert(carried_out(second_plan, added(one, all), unit_view(result)));
            }
            return result;
        },
        Step::UnlessUp(_) => match debugger.system_up() {
            Ok(up) => {
                answer = up;
                Ok(())
            },
            Err(error) => Err(error),
        },
        Step::UnlessRunning(_) => match debugger.state_run() {
            Ok(running) => {
                answer = running;
                Ok(())
            },
            Err(error) => Err(error),
        },
    };
    let ghost one = debugger.history();
    assert(one =~= start + added(start, one));
    assert(added(start, one)[0] == one.last());
    match outcome {
        Err(error) => {
            return Err(error);
        },
        Ok(()) => {},
    }
    if !answer {
        let list = match &plan[at] {
            Step::UnlessUp(list) => list,
            Step::UnlessRunning(list) => list,
            _ => {
                return Ok(());
            },
        };
        let ghost texts = text_views(list@);
        let outcome = run_commands(list, 0, debugger);
        let ghost two = debugger.history();
        assert forall|i: int| 0 <= i < added(one, two).len() implies (#[trigger] added(
            one,
            two,
        )[i]).order == Order::Cmd(texts[i]) by {
            assert(texts[i] == list@[0 + i]@);
        }
        match outcome {
            Err(error) => {
                proof {
                    lemma_commands_carried_out(
                        texts,
                        here.skip(1),
                        added(one, two),
                        seq![],
                        Err(error@),
                    );
                    assert(added(one, two) + seq![] =~= added(one, two));
                    assert(two =~= start + added(start, two));
                    assert(added(start, two)[0] == one.last());
                    assert(added(start, two).skip(1) =~= added(one, two));
                }
                return Err(error);
            },
            Ok(()) => {},
        }
        let result = run_from(plan, at + 1, debugger);
        proof {
            let all = debugger.history();
            lemma_commands_carried_out(
                texts,
                here.skip(1),
                added(one, two),
                added(two, all),
                unit_view(result),
            );
            assert(added(one, two) + added(two, all) =~= added(one, all));
            assert(all =~= start + added(start, all));
            assert(added(start, all)[0] == one.last());
            assert(added(start, all).skip(1) =~= added(one, all));
        }
        result
    } else {
        let result = run_from(plan, at + 1, debugger);
        proof {
            let all = debugger.history();
            assert(all =~= start + added(start, all));
            assert(added(start, all)[0] == one.last());
            assert(added(start, all).skip(1) =~= added(one, all));
        }
        result
    }
}

/// Carries out a plan up to its end or to the first error.
pub fn run_plan<R: Rcl>(plan: &Vec<Step>, debugger: &mut R) -> (result: Result<(), Error>)
    ensures
        final(debugger).history() == old(debugger).history() + added(
            old(debugger).history(),
            final(debugger).history(),
        ),
        carried_out(
            step_views(plan@),
            added(old(debugger).history(), final(debugger).history()),
            unit_view(result),
        ),
{
    assert(step_views(plan@).skip(0) =~= step_views(plan@));
    run_from(plan, 0, debugger)
}

/// The plan that breaks and resets the target.
pub open spec fn reset_steps() -> Seq<StepView> {
    seq![StepView::Cmd("Break"@), StepView::Cmd("SYStem.Mode Up"@)]
}

/// Breaks the target and resets it into the state in which the debugger is up.
pub fn reset_and_stop_with<R: Rcl>(debugger: &mut R) -> (result: Result<(), BridgeError>)
    ensures
        final(debugger).history() == old(debugger).history() + added(
            old(debugger).history(),
            final(debugger).history(),
        ),
        ({
            let done = added(old(debugger).history(), final(debugger).history());
            match result {
                Ok(()) => carried_out(reset_steps(), done, Ok(())),
                Err(error) => exists|cause: ErrorView| #[trigger]
                    carried_out(reset_steps(), done, Err(cause)) && error@
                        == "TRACE32 reset failed: "@ + cause.text(),
            }
        }),
{
    let mut plan: Vec<Step> = Vec::new();
    plan.push(Step::Cmd("Break".to_owned()));
    plan.push(Step::Cmd("SYStem.Mode Up".to_owned()));
    assert(step_views(plan@) =~= reset_steps());
    let ghost start = debugger.history();
    match run_plan(&plan, debugger) {
        Ok(()) => Ok(()),
        Err(error) => {
            assert(carried_out(reset_steps(), added(start, debugger.history()), Err(error@)));
            Err(BridgeError(concat2("TRACE32 reset failed: ", &error.to_string())))
        },
    }
}

/// The complaint about a connection that could not be made.
pub fn unconnected(port: u16, error: &Error) -> (result: BridgeError)
    ensures
        result@ == "cannot connect to TRACE32 on RCL port "@ + decimal_text(port as nat) + ": "@
            + error@.text(),
{
    BridgeError(
        concat4(
            "cannot connect to TRACE32 on RCL port ",
            &decimal(port as u128),
            ": ",
            &error.to_string(),
        ),
    )
}

}
