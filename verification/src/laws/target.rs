//! What is asked of a target.

use vstd::prelude::*;
use vstd::string::*;

use crate::config::{blank_list, ConfigView, Known, Vars};
use crate::flash::{choice_for, ChoiceView, ScriptView};
use crate::laws::header::strung;
use crate::laws::report::lemma_has_middle;
use crate::laws::split::strung_words_are_split;
use crate::remote::{carried_out, follow_up, reset_steps, Order, Performed, StepView};
use crate::t32rcl::error::ErrorView;
use crate::target::{
    attach_commands, prepare_command, program_steps, sequence_complaint, sequence_ran,
    sequence_steps, symbol_commands, validated, Action,
};
use crate::text::{decimal_text, has_text, split_text};
use crate::world::{Found, QuestionView};

verus! {

proof fn lemma_blank_list(list: Seq<Seq<char>>)
    ensures
        blank_list(list) == strung(list, ' '),
    decreases list.len(),
{
    reveal_strlit(" ");
    if list.len() > 1 {
        lemma_blank_list(list.drop_last());
        assert(blank_list(list) =~= strung(list, ' '));
    }
}

/// The flash script is run first, by its path in quotation marks, and is told to
/// prepare the flash only, followed by exactly the arguments that are configured,
/// one word each and in order; it may take as long as an operation may.
pub proof fn the_script_gets_its_arguments(config: ConfigView, script: Seq<char>)
    requires
        forall|i: int|
            0 <= i < config.flash_args.len() ==> !(#[trigger] config.flash_args[i]).contains(' '),
    ensures
        sequence_steps(config, Some(script)).len() > 0,
        sequence_steps(config, Some(script))[0] matches StepView::Cmm(command, limit) && {
            &&& command.len() >= script.len() + 3
            &&& command[0] == '"' && command.subrange(1, 1 + script.len() as int) == script
                && command[1 + script.len() as int] == '"' && command[2 + script.len() as int] == ' '
            &&& split_text(command.skip(3 + script.len() as int), seq![' ']) == seq![
                "PREPAREONLY"@,
            ] + config.flash_args
            &&& limit matches Some(span) && span.whole() == config.operation_timeout && span.part()
                == 0
        },
{
    reveal_strlit("\"");
    reveal_strlit("\" PREPAREONLY");
    reveal_strlit("PREPAREONLY");
    reveal_strlit(" ");
    let command = prepare_command(config, script);
    let words = seq!["PREPAREONLY"@] + config.flash_args;
    let tail = command.skip(3 + script.len() as int);
    lemma_blank_list(config.flash_args);
    lemma_strung_front("PREPAREONLY"@, config.flash_args);
    assert(tail =~= strung(words, ' ')) by {
        if config.flash_args.len() == 0 {
            assert(words =~= seq!["PREPAREONLY"@]);
            assert(command =~= "\""@ + script + "\" PREPAREONLY"@);
            assert(tail =~= "PREPAREONLY"@);
        } else {
            assert(tail =~= "PREPAREONLY"@.push(' ') + strung(config.flash_args, ' '));
        }
    }
    assert forall|i: int| 0 <= i < words.len() implies !(#[trigger] words[i]).contains(' ') by {
        if i > 0 {
            assert(words[i] == config.flash_args[i - 1]);
        }
    }
    strung_words_are_split(words, ' ');
    assert(command.subrange(1, 1 + script.len() as int) =~= script);
    crate::t32rcl::error::lemma_seconds(config.operation_timeout);
}

proof fn lemma_strung_front(first: Seq<char>, rest: Seq<Seq<char>>)
    ensures
        rest.len() > 0 ==> strung(seq![first] + rest, ' ') == first.push(' ') + strung(rest, ' '),
        rest.len() == 0 ==> strung(seq![first] + rest, ' ') == first,
    decreases rest.len(),
{
    let all = seq![first] + rest;
    if rest.len() == 0 {
        assert(all =~= seq![first]);
    } else {
        let before = rest.drop_last();
        lemma_strung_front(first, before);
        assert(all.drop_last() =~= seq![first] + before);
        assert(all.last() == rest.last());
        if before.len() == 0 {
            assert(rest =~= seq![rest.last()]);
            assert(strung(all, ' ') =~= first.push(' ') + strung(rest, ' '));
        } else {
            assert(strung(all, ' ') =~= first.push(' ') + strung(rest, ' '));
        }
    }
}

/// Programming follows the contract with the flash script: behind the script, the
/// flash is erased, the program loaded, the flash programmed, and the target
/// reset, in this order and with nothing else between.
pub proof fn programming_keeps_its_order(config: ConfigView, script: Seq<char>)
    ensures
        ({
            let steps = program_steps(config, script);
            let at = if config.jtag_clock.len() > 0 {
                2int
            } else {
                1int
            };
            &&& steps[at] == StepView::Cmd("FLASH.ReProgram ALL /Erase"@)
            &&& steps[at + 1] == StepView::Guarded(
                "Data.LOAD.Elf \""@ + config.elf + "\""@,
                "FLASH.ReProgram OFF"@,
            )
            &&& steps[at + 2] == StepView::Cmd("SYStem.Down"@)
            &&& steps[at + 3] == StepView::Cmd("SYStem.Up"@)
            &&& config.jtag_clock.len() > 0 ==> steps[1] == StepView::Cmd(
                "SYStem.JtagClock "@ + config.jtag_clock,
            ) && steps[at + 4] == steps[1]
            &&& steps[0] is Cmm
        }),
{
}

/// Attaching sets what is configured, and nothing else: each setting that is not
/// empty has its command, in the order of processor, memory access and cores,
/// between going down and attaching.
pub proof fn attaching_sets_what_is_configured(config: ConfigView)
    ensures
        ({
            let list = attach_commands(config);
            let cpu = if config.cpu.len() > 0 {
                1int
            } else {
                0int
            };
            let access = if config.mem_access.len() > 0 {
                1int
            } else {
                0int
            };
            let cores = if config.cores.len() > 0 {
                1int
            } else {
                0int
            };
            &&& list.len() == 2 + cpu + access + cores
            &&& list[0] == "SYStem.Mode Down"@
            &&& cpu == 1 ==> list[1] == "SYStem.CPU "@ + config.cpu
            &&& access == 1 ==> list[1 + cpu] == "SYStem.MemAccess "@ + config.mem_access
            &&& cores == 1 ==> list[1 + cpu + access] == "CORE.ASSIGN "@ + config.cores
            &&& list.last() == "SYStem.Mode Attach"@
        }),
{
}

/// Loading symbols makes the debugger aware of what is configured, and of nothing
/// else: each setting that is not empty has its command, and the list of tasks is
/// shown only where it is asked for and an operating system is configured.
pub proof fn symbols_come_with_what_is_configured(config: ConfigView)
    ensures
        ({
            let list = symbol_commands(config);
            let port = if config.dual_port.len() > 0 {
                1int
            } else {
                0int
            };
            let own = if config.rtos_config.len() > 0 {
                1int
            } else {
                0int
            };
            let menu = if config.rtos_menu.len() > 0 {
                1int
            } else {
                0int
            };
            let tasks = if config.rtos_show_tasks && own + menu > 0 {
                1int
            } else {
                0int
            };
            &&& list.len() == 2 + port + own + menu + tasks
            &&& list[0] == "Data.LOAD.Elf \""@ + config.elf + "\" /NoCODE"@
            &&& port == 1 ==> list[1] == "SYStem.Option.DUALPORT "@ + config.dual_port
            &&& list[1 + port] == "List.auto"@
            &&& own == 1 ==> list[2 + port] == "TASK.CONFIG \""@ + config.rtos_config + "\""@
            &&& menu == 1 ==> list[2 + port + own] == "MENU.ReProgram \""@ + config.rtos_menu
                + "\""@
            &&& tasks == 1 ==> list.last() == "TASK.List"@
        }),
{
}

/// Whether debugging is set up after flashing or alone makes no difference to how:
/// the system is attached to unless it is up, the symbols are loaded, the target
/// runs unless it does already, and the program is named last.
pub proof fn debugging_is_set_up_in_order(config: ConfigView, script: Seq<char>)
    ensures
        ({
            let steps = sequence_steps(config, None);
            let symbols = symbol_commands(config);
            &&& steps.len() == symbols.len() + 3
            &&& steps[0] == StepView::UnlessUp(attach_commands(config))
            &&& forall|i: int|
                0 <= i < symbols.len() ==> steps[i + 1] == StepView::Cmd(#[trigger] symbols[i])
            &&& steps[steps.len() - 2] == StepView::UnlessRunning(seq!["Go"@])
            &&& steps.last() matches StepView::Print(text) && text
                == "tracebridge: symbols loaded for "@ + config.program
            &&& sequence_steps(config, Some(script)) == program_steps(config, script) + steps
        }),
{
}

/// Nothing is asked for after a failure, but for leaving the mode in which the flash
/// is programmed; and the result is the first failure, or success where nothing
/// failed.
pub proof fn requests_stop_at_a_failure(
    plan: Seq<StepView>,
    done: Seq<Performed>,
    result: Result<(), ErrorView>,
)
    requires
        carried_out(plan, done, result),
    ensures
        result is Ok ==> forall|i: int|
            0 <= i < done.len() ==> (#[trigger] done[i]).outcome is Ok,
        result matches Err(error) ==> exists|i: int|
            {
                &&& 0 <= i < done.len()
                &&& (#[trigger] done[i]).outcome == Err::<bool, _>(error)
                &&& done.len() <= i + 2
                &&& forall|j: int| 0 <= j < i ==> (#[trigger] done[j]).outcome is Ok
            },
    decreases done.len(),
{
    if plan.len() > 0 {
        let rest = done.skip(1);
        if let Ok(answer) = done[0].outcome {
            let next = follow_up(plan[0], answer) + plan.skip(1);
            requests_stop_at_a_failure(next, rest, result);
            if let Err(error) = result {
                let i = choose|i: int|
                    {
                        &&& 0 <= i < rest.len()
                        &&& (#[trigger] rest[i]).outcome == Err::<bool, _>(error)
                        &&& rest.len() <= i + 2
                        &&& forall|j: int| 0 <= j < i ==> (#[trigger] rest[j]).outcome is Ok
                    };
                assert(done[i + 1] == rest[i]);
                assert forall|j: int| 0 <= j < i + 1 implies (#[trigger] done[j]).outcome is Ok by {
                    if j > 0 {
                        assert(done[j] == rest[j - 1]);
                    }
                }
            } else {
                assert forall|i: int| 0 <= i < done.len() implies (#[trigger] done[i]).outcome
                    is Ok by {
                    if i > 0 {
                        assert(done[i] == rest[i - 1]);
                    }
                }
            }
        } else {
            assert(done[0].outcome is Err);
        }
    }
}

/// A complaint about a failed sequence ends with the text of the failure and names
/// the action, except that an expired time is told as such, whatever the action.
pub proof fn complaints_name_their_cause(config: ConfigView, cause: ErrorView)
    ensures
        cause is Timeout || cause is ScriptTimeout ==> sequence_complaint(
            config,
            Action::Flash,
            cause,
        ) == sequence_complaint(config, Action::Load, cause),
        !(cause is Timeout || cause is ScriptTimeout) ==> {
            &&& sequence_complaint(config, Action::Flash, cause) == "TRACE32 flash failed: "@
                + cause.text()
            &&& sequence_complaint(config, Action::Load, cause) == "TRACE32 load failed: "@
                + cause.text()
        },
{
    reveal_strlit("TRACE32 ");
    reveal_strlit("flash");
    reveal_strlit("load");
    reveal_strlit(" failed: ");
    reveal_strlit("TRACE32 flash failed: ");
    reveal_strlit("TRACE32 load failed: ");
    assert("TRACE32 "@ + "flash"@ + " failed: "@ =~= "TRACE32 flash failed: "@);
    assert("TRACE32 "@ + "load"@ + " failed: "@ =~= "TRACE32 load failed: "@);
}

/// An expired time is told in seconds.
pub proof fn expired_times_are_told(config: ConfigView, cause: ErrorView, action: Action)
    requires
        cause is Timeout || cause is ScriptTimeout,
    ensures
        has_text(
            sequence_complaint(config, action, cause),
            decimal_text(config.operation_timeout as nat) + "s"@,
        ),
{
    let head = "TRACE32 operation exceeded "@;
    let told = decimal_text(config.operation_timeout as nat) + "s"@;
    let text = sequence_complaint(config, action, cause);
    assert(text =~= head + told + seq![]);
    lemma_has_middle(head, told, seq![]);
}

/// Programming ends with the options for single stepping and a line that names the
/// file; nothing else is asked.
pub proof fn programming_ends_with_its_options(config: ConfigView, script: Seq<char>)
    ensures
        ({
            let steps = program_steps(config, script);
            let n = steps.len() as int;
            &&& n == (if config.jtag_clock.len() > 0 {
                10int
            } else {
                8int
            })
            &&& steps[n - 3] == StepView::Cmd("SYStem.Option.IMASKASM ON"@)
            &&& steps[n - 2] == StepView::Cmd("SYStem.Option.IMASKHLL ON"@)
            &&& steps[n - 1] == StepView::Print("tracebridge: flashed "@ + config.elf)
        }),
{
}

/// Steps that are single requests are asked for one by one, as they are, up to the
/// first failure.
pub proof fn single_requests_are_made_as_planned(
    plan: Seq<StepView>,
    done: Seq<Performed>,
    result: Result<(), ErrorView>,
    i: int,
)
    requires
        carried_out(plan, done, result),
        forall|k: int|
            0 <= k < plan.len() ==> (#[trigger] plan[k] is Cmd || plan[k] is Cmm
                || plan[k] is Print),
        0 <= i < done.len(),
    ensures
        done.len() <= plan.len(),
        result is Ok ==> done.len() == plan.len(),
        match plan[i] {
            StepView::Cmd(command) => done[i].order == Order::Cmd(command),
            StepView::Cmm(script, limit) => done[i].order == Order::Cmm(script, limit),
            StepView::Print(text) => done[i].order == Order::Print(text),
            _ => false,
        },
    decreases plan.len(),
{
    assert(plan.len() > 0);
    assert(plan[0] is Cmd || plan[0] is Cmm || plan[0] is Print);
    if done[0].outcome is Ok {
        let answer = done[0].outcome->Ok_0;
        let rest = plan.skip(1);
        assert(follow_up(plan[0], answer) + rest =~= rest);
        assert forall|k: int| 0 <= k < rest.len() implies (#[trigger] rest[k] is Cmd
            || rest[k] is Cmm || rest[k] is Print) by {
            assert(rest[k] == plan[k + 1]);
        }
        if i > 0 {
            assert(done.skip(1)[i - 1] == done[i]);
            single_requests_are_made_as_planned(rest, done.skip(1), result, i - 1);
            assert(rest[i - 1] == plan[i]);
        } else if done.len() > 1 {
            single_requests_are_made_as_planned(rest, done.skip(1), result, 0);
        } else {
            assert(carried_out(rest, done.skip(1), result));
        }
    }
}

/// A system that is up is not attached to again, a target that runs is not started
/// again; otherwise the commands for that are the next ones.
pub proof fn conditions_are_asked_first(
    list: Seq<Seq<char>>,
    done: Seq<Performed>,
    result: Result<(), ErrorView>,
    running: bool,
)
    requires
        carried_out(
            seq![
                if running {
                    StepView::UnlessRunning(list)
                } else {
                    StepView::UnlessUp(list)
                },
            ],
            done,
            result,
        ),
    ensures
        done.len() > 0,
        done[0].order == (if running {
            Order::StateRun
        } else {
            Order::SystemUp
        }),
        done[0].outcome == Ok::<_, ErrorView>(true) ==> done.len() == 1 && result is Ok,
        done[0].outcome == Ok::<_, ErrorView>(false) ==> {
            &&& done.len() <= list.len() + 1
            &&& result is Ok ==> done.len() == list.len() + 1
            &&& forall|i: int|
                0 < i < done.len() ==> (#[trigger] done[i]).order == Order::Cmd(list[i - 1])
        },
        done[0].outcome is Err ==> done.len() == 1 && result is Err,
{
    let step = if running {
        StepView::UnlessRunning(list)
    } else {
        StepView::UnlessUp(list)
    };
    let plan = seq![step];
    assert(plan[0] == step);
    assert(plan.skip(1) =~= seq![]);
    let more = done.skip(1);
    if done[0].outcome == Ok::<_, ErrorView>(true) {
        assert(follow_up(step, true) + plan.skip(1) =~= seq![]);
        assert(carried_out(seq![], more, result));
    }
    if done[0].outcome == Ok::<_, ErrorView>(false) {
        let rest = crate::remote::commands(list);
        assert(follow_up(step, false) + plan.skip(1) =~= rest);
        assert(carried_out(rest, more, result));
        assert forall|i: int| 0 < i < done.len() implies (#[trigger] done[i]).order == Order::Cmd(
            list[i - 1],
        ) && done.len() <= list.len() + 1 by {
            assert(more[i - 1] == done[i]);
            single_requests_are_made_as_planned(rest, more, result, i - 1);
        }
        if more.len() > 0 {
            single_requests_are_made_as_planned(rest, more, result, 0);
        }
    }
}

/// Nothing is done without the ELF file. Loading needs nothing else; flashing needs a
/// script besides, and one that is named has to be there.
pub proof fn actions_need_their_files(
    config: ConfigView,
    env: Vars,
    scripts: Seq<ScriptView>,
    world: Known,
)
    requires
        world.contains_key(QuestionView::File(config.elf)),
    ensures
        world[QuestionView::File(config.elf)] is None ==> {
            &&& validated(config, Action::Load, env, scripts, world) matches Found::Found(Err(_))
            &&& validated(config, Action::Flash, env, scripts, world) matches Found::Found(Err(_))
        },
        world[QuestionView::File(config.elf)] is Some ==> {
            &&& validated(config, Action::Load, env, scripts, world) == Found::Found(
                Ok::<Option<ChoiceView>, Seq<char>>(None),
            )
            &&& match choice_for(config, env, scripts, world) {
                Found::Found(Err(text)) => validated(config, Action::Flash, env, scripts, world)
                    == Found::Found(Err::<Option<ChoiceView>, _>(text)),
                Found::Found(Ok(choice)) => match choice {
                    ChoiceView::Chip { .. } => validated(
                        config,
                        Action::Flash,
                        env,
                        scripts,
                        world,
                    ) == Found::Found(Ok::<_, Seq<char>>(Some(choice))),
                    ChoiceView::Explicit(path) => path.len() > 0 && path[0] != '~'
                        && world.contains_key(QuestionView::File(path)) ==> if world[
                        QuestionView::File(path)
                    ] is Some {
                        validated(config, Action::Flash, env, scripts, world) == Found::Found(
                            Ok::<_, Seq<char>>(Some(choice)),
                        )
                    } else {
                        validated(config, Action::Flash, env, scripts, world) == Found::Found(
                            Err::<Option<ChoiceView>, _>("flash script not found: "@ + path),
                        )
                    },
                },
                Found::Ask(question) => validated(config, Action::Flash, env, scripts, world)
                    == Found::<Result<Option<ChoiceView>, Seq<char>>>::Ask(question),
            }
        },
{
    if let Found::Found(Ok(ChoiceView::Explicit(path))) = choice_for(config, env, scripts, world) {
        if path.len() > 0 && path[0] != '~' {
            reveal_strlit("~~");
            reveal_strlit("~~/");
            assert("~~"@[0] == '~');
            assert("~~/"@[0] == '~');
        }
    }
}

/// A reset stops the target and brings the system up again, in this order, and a
/// failure of the first keeps the second from being tried.
pub proof fn resets_stop_first(done: Seq<Performed>, result: Result<(), ErrorView>)
    requires
        carried_out(reset_steps(), done, result),
    ensures
        1 <= done.len() <= 2,
        done[0].order == Order::Cmd("Break"@),
        done.len() == 2 ==> done[1].order == Order::Cmd("SYStem.Mode Up"@),
        done.len() == 1 ==> result is Err,
        result is Ok ==> done.len() == 2,
{
    let plan = reset_steps();
    assert(plan.len() == 2);
    single_requests_are_made_as_planned(plan, done, result, 0);
    if done.len() > 1 {
        single_requests_are_made_as_planned(plan, done, result, 1);
    }
}

/// The action that is taken with a script or without one.
pub open spec fn action_with(script: Option<Seq<char>>) -> Action {
    if script is Some {
        Action::Flash
    } else {
        Action::Load
    }
}

/// Flashing and loading succeed only where every request did; otherwise what is told is
/// the first failure.
pub proof fn sequences_succeed_as_a_whole(
    config: ConfigView,
    script: Option<Seq<char>>,
    done: Seq<Performed>,
    result: Result<(), Seq<char>>,
)
    requires
        sequence_ran(config, script, done, result),
    ensures
        result is Ok ==> forall|i: int|
            0 <= i < done.len() ==> (#[trigger] done[i]).outcome is Ok,
        result matches Err(text) ==> exists|i: int, cause: ErrorView|
            {
                &&& 0 <= i < done.len()
                &&& (#[trigger] done[i]).outcome == Err::<bool, _>(cause)
                &&& text == #[trigger] sequence_complaint(config, action_with(script), cause)
            },
{
    let plan = sequence_steps(config, script);
    let action = action_with(script);
    match result {
        Ok(()) => {
            requests_stop_at_a_failure(plan, done, Ok(()));
        },
        Err(text) => {
            let cause = choose|cause: ErrorView| #[trigger]
                carried_out(plan, done, Err(cause)) && text == sequence_complaint(
                    config,
                    action,
                    cause,
                );
            requests_stop_at_a_failure(plan, done, Err(cause));
            let i = choose|i: int|
                {
                    &&& 0 <= i < done.len()
                    &&& (#[trigger] done[i]).outcome == Err::<bool, _>(cause)
                    &&& done.len() <= i + 2
                    &&& forall|j: int| 0 <= j < i ==> (#[trigger] done[j]).outcome is Ok
                };
            assert(done[i].outcome == Err::<bool, _>(cause));
            assert(text == sequence_complaint(config, action, cause));
        },
    }
}

}
