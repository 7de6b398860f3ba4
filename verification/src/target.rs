//! Flashing a program and loading its symbols. The order of the commands is part
//! of the contract with the flash script.

use vstd::prelude::*;
use vstd::string::*;

use crate::config::{
    blank_list, command_values, is_command_safe, join_blanks, lemma_safe_values, outcome,
    script_exists, unsafe_value, Config, ConfigView, Known, Vars,
};
use crate::errors::BridgeError;
use crate::flash::{choice_for, resolve, script_views, Choice, ChoiceView, Script, ScriptView};
use crate::paths::resolved_paths_stand;
use crate::powerview::{file_complaint, require_file};
use crate::remote::{
    added, carried_out, is_single, lemma_singles_done, run_plan, step_views, Order, Performed, Rcl,
    Step, StepView,
};
use crate::rtt::unit_view;
use crate::t32rcl::error::{Error, ErrorView, Span};
use crate::t32rcl::eval::text_views;
use crate::text::{concat2, concat3, concat4, decimal, decimal_text, str_view};
use crate::world::{stands, Env, Found, Lookup, World};

verus! {

/// What is done with a program.
#[derive(Debug, Clone, Copy, PartialEq, Eq, Structural)]
pub enum Action {
    Flash,
    Load,
}

impl Action {
    /// The name by which a user knows the action.
    pub open spec fn text(self) -> Seq<char> {
        match self {
            Action::Flash => "flash"@,
            Action::Load => "load"@,
        }
    }

    /// The name by which a user knows the action.
    pub fn name(self) -> (name: &'static str)
        ensures
            name@ == self.text(),
    {
        match self {
            Action::Flash => "flash",
            Action::Load => "load",
        }
    }
}

/// What is needed for an action: the program must be there, and flashing needs a
/// script that is there.
pub open spec fn validated(
    config: ConfigView,
    action: Action,
    env: Vars,
    scripts: Seq<ScriptView>,
    world: Known,
) -> Found<Result<Option<ChoiceView>, Seq<char>>> {
    match file_complaint(config.elf, "ELF"@, false, world) {
        Found::Ask(q) => Found::Ask(q),
        Found::Found(Some(text)) => Found::Found(Err(text)),
        Found::Found(None) => match action {
            Action::Load => Found::Found(Ok(None)),
            Action::Flash => match choice_for(config, env, scripts, world) {
                Found::Ask(q) => Found::Ask(q),
                Found::Found(Err(text)) => Found::Found(Err(text)),
                Found::Found(Ok(choice)) => match choice {
                    ChoiceView::Explicit(path) => match script_exists(config, world) {
                        Found::Ask(q) => Found::Ask(q),
                        Found::Found(true) => Found::Found(Ok(Some(choice))),
                        Found::Found(false) => Found::Found(
                            Err("flash script not found: "@ + path),
                        ),
                    },
                    _ => Found::Found(Ok(Some(choice))),
                },
            },
        },
    }
}

/// Checks what is needed for an action, and finds the script to flash with.
pub fn validate_target_action(
    config: &Config,
    action: Action,
    env: &Env,
    scripts: &[Script],
    world: &World,
) -> (result: Lookup<Result<Option<Choice>, BridgeError>>)
    ensures
        ({
            let expected = validated(config@, action, env@, script_views(scripts@), world@);
            match result {
                Lookup::Ask(question) => expected == Found::<
                    Result<Option<ChoiceView>, Seq<char>>,
                >::Ask(question@),
                Lookup::Found(Ok(Some(choice))) => expected == Found::Found(
                    Ok::<_, Seq<char>>(Some(choice@)),
                ),
                Lookup::Found(Ok(None)) => expected == Found::Found(
                    Ok::<_, Seq<char>>(None::<ChoiceView>),
                ),
                Lookup::Found(Err(error)) => expected == Found::Found(
                    Err::<Option<ChoiceView>, _>(error@),
                ),
            }
        }),
{
    match require_file(&config.elf, "ELF", false, world) {
        Lookup::Ask(question) => {
            return Lookup::Ask(question);
        },
        Lookup::Found(Err(error)) => {
            return Lookup::Found(Err(error));
        },
        Lookup::Found(Ok(())) => {},
    }
    match action {
        Action::Load => {
            return Lookup::Found(Ok(None));
        },
        Action::Flash => {},
    }
    match resolve(config, env, scripts, world) {
        Lookup::Ask(question) => Lookup::Ask(question),
        Lookup::Found(Err(error)) => Lookup::Found(Err(error)),
        Lookup::Found(Ok(choice)) => {
            match &choice {
                Choice::Explicit(path) => match config.flash_script_exists(world) {
                    Lookup::Ask(question) => {
                        return Lookup::Ask(question);
                    },
                    Lookup::Found(found) => {
                        if !found {
                            return Lookup::Found(
                                Err(BridgeError(concat2("flash script not found: ", path))),
                            );
                        }
                    },
                },
                _ => {},
            }
            Lookup::Found(Ok(Some(choice)))
        },
    }
}

/// The step that sets the JTAG clock, where one is configured.
pub open spec fn clock_step(config: ConfigView) -> Seq<StepView> {
    if config.jtag_clock.len() > 0 {
        seq![StepView::Cmd("SYStem.JtagClock "@ + config.jtag_clock)]
    } else {
        seq![]
    }
}

/// The script and its arguments: it only prepares the flash.
pub open spec fn prepare_command(config: ConfigView, script: Seq<char>) -> Seq<char> {
    "\""@ + script + "\" PREPAREONLY"@ + (if config.flash_args.len() > 0 {
        " "@ + blank_list(config.flash_args)
    } else {
        seq![]
    })
}

/// The plan that flashes a program: the script prepares the flash, then the
/// program is erased, programmed and verified, and the target reset. The mode in
/// which the flash is programmed is left again even where loading fails.
pub open spec fn program_steps(config: ConfigView, script: Seq<char>) -> Seq<StepView> {
    seq![
        StepView::Cmm(
            prepare_command(config, script),
            Some(Span::seconds(config.operation_timeout)),
        ),
    ] + clock_step(config) + seq![
        StepView::Cmd("FLASH.ReProgram ALL /Erase"@),
        StepView::Guarded("Data.LOAD.Elf \""@ + config.elf + "\""@, "FLASH.ReProgram OFF"@),
        StepView::Cmd("SYStem.Down"@),
        StepView::Cmd("SYStem.Up"@),
    ] + clock_step(config) + seq![
        StepView::Cmd("SYStem.Option.IMASKASM ON"@),
        StepView::Cmd("SYStem.Option.IMASKHLL ON"@),
        StepView::Print("tracebridge: flashed "@ + config.elf),
    ]
}

/// One text where a value is not empty.
pub open spec fn optional(value: Seq<char>, text: Seq<char>) -> Seq<Seq<char>> {
    if value.len() > 0 {
        seq![text]
    } else {
        seq![]
    }
}

/// The commands that attach to the target.
pub open spec fn attach_commands(config: ConfigView) -> Seq<Seq<char>> {
    seq!["SYStem.Mode Down"@] + optional(config.cpu, "SYStem.CPU "@ + config.cpu) + optional(
        config.mem_access,
        "SYStem.MemAccess "@ + config.mem_access,
    ) + optional(config.cores, "CORE.ASSIGN "@ + config.cores) + seq!["SYStem.Mode Attach"@]
}

/// The commands that load the symbols and make the debugger aware of the
/// operating system on the target.
pub open spec fn symbol_commands(config: ConfigView) -> Seq<Seq<char>> {
    seq!["Data.LOAD.Elf \""@ + config.elf + "\" /NoCODE"@] + optional(
        config.dual_port,
        "SYStem.Option.DUALPORT "@ + config.dual_port,
    ) + seq!["List.auto"@] + optional(
        config.rtos_config,
        "TASK.CONFIG \""@ + config.rtos_config + "\""@,
    ) + optional(config.rtos_menu, "MENU.ReProgram \""@ + config.rtos_menu + "\""@) + (if (
    config.rtos_config.len() > 0 || config.rtos_menu.len() > 0) && config.rtos_show_tasks {
        seq!["TASK.List"@]
    } else {
        seq![]
    })
}

/// The plan that sets up debugging: attach unless the system is up, load the
/// symbols, and run unless the target runs.
pub open spec fn debug_steps(config: ConfigView) -> Seq<StepView> {
    seq![StepView::UnlessUp(attach_commands(config))] + crate::remote::commands(
        symbol_commands(config),
    ) + seq![
        StepView::UnlessRunning(seq!["Go"@]),
        StepView::Print("tracebridge: symbols loaded for "@ + config.program),
    ]
}

fn push_step(plan: &mut Vec<Step>, step: Step)
    ensures
        step_views(final(plan)@) == step_views(old(plan)@).push(step@),
{
    let ghost before = step_views(plan@);
    plan.push(step);
    assert(step_views(plan@) =~= before.push(step@));
}

fn push_clock(plan: &mut Vec<Step>, config: &Config)
    ensures
        step_views(final(plan)@) == step_views(old(plan)@) + clock_step(config@),
{
    let ghost before = step_views(plan@);
    if !config.jtag_clock.as_str().is_empty() {
        push_step(plan, Step::Cmd(concat2("SYStem.JtagClock ", &config.jtag_clock)));
    }
    assert(step_views(plan@) =~= before + clock_step(config@));
}

/// The plan that flashes a program.
pub fn program_plan(config: &Config, script: &str) -> (plan: Vec<Step>)
    ensures
        step_views(plan@) == program_steps(config@, script@),
{
    let mut command = concat3("\"", script, "\" PREPAREONLY");
    assert(text_views(config.flash_args@).len() == config.flash_args@.len());
    if config.flash_args.len() > 0 {
        let arguments = concat2(" ", &join_blanks(&config.flash_args));
        command.append(&arguments);
    } else {
        assert(command@ + seq![] =~= command@);
    }
    let mut plan: Vec<Step> = Vec::new();
    push_step(&mut plan, Step::Cmm(command, Some(Span::from_secs(config.operation_timeout))));
    push_clock(&mut plan, config);
    push_step(&mut plan, Step::Cmd("FLASH.ReProgram ALL /Erase".to_owned()));
    push_step(
        &mut plan,
        Step::Guarded(
            concat3("Data.LOAD.Elf \"", &config.elf, "\""),
            "FLASH.ReProgram OFF".to_owned(),
        ),
    );
    push_step(&mut plan, Step::Cmd("SYStem.Down".to_owned()));
    push_step(&mut plan, Step::Cmd("SYStem.Up".to_owned()));
    push_clock(&mut plan, config);
    push_step(&mut plan, Step::Cmd("SYStem.Option.IMASKASM ON".to_owned()));
    push_step(&mut plan, Step::Cmd("SYStem.Option.IMASKHLL ON".to_owned()));
    push_step(&mut plan, Step::Print(concat2("tracebridge: flashed ", &config.elf)));
    assert(step_views(plan@) =~= program_steps(config@, script@));
    plan
}

fn push_text(list: &mut Vec<String>, text: String)
    ensures
        text_views(final(list)@) == text_views(old(list)@).push(text@),
{
    let ghost before = text_views(list@);
    list.push(text);
    assert(text_views(list@) =~= before.push(text@));
}

fn push_optional(list: &mut Vec<String>, value: &str, text: String)
    ensures
        text_views(final(list)@) == text_views(old(list)@) + optional(value@, text@),
{
    let ghost before = text_views(list@);
    if !value.is_empty() {
        push_text(list, text);
    }
    assert(text_views(list@) =~= before + optional(value@, text@));
}

fn attach_list(config: &Config) -> (list: Vec<String>)
    ensures
        text_views(list@) == attach_commands(config@),
{
    let mut list: Vec<String> = Vec::new();
    push_text(&mut list, "SYStem.Mode Down".to_owned());
    push_optional(&mut list, &config.cpu, concat2("SYStem.CPU ", &config.cpu));
    push_optional(
        &mut list,
        &config.mem_access,
        concat2("SYStem.MemAccess ", &config.mem_access),
    );
    push_optional(&mut list, &config.cores, concat2("CORE.ASSIGN ", &config.cores));
    push_text(&mut list, "SYStem.Mode Attach".to_owned());
    assert(text_views(list@) =~= attach_commands(config@));
    list
}

fn symbol_list(config: &Config) -> (list: Vec<String>)
    ensures
        text_views(list@) == symbol_commands(config@),
{
    let mut list: Vec<String> = Vec::new();
    push_text(&mut list, concat3("Data.LOAD.Elf \"", &config.elf, "\" /NoCODE"));
    push_optional(
        &mut list,
        &config.dual_port,
        concat2("SYStem.Option.DUALPORT ", &config.dual_port),
    );
    push_text(&mut list, "List.auto".to_owned());
    push_optional(
        &mut list,
        &config.rtos_config,
        concat3("TASK.CONFIG \"", &config.rtos_config, "\""),
    );
    push_optional(
        &mut list,
        &config.rtos_menu,
        concat3("MENU.ReProgram \"", &config.rtos_menu, "\""),
    );
    let enabled = !config.rtos_config.as_str().is_empty() || !config.rtos_menu.as_str().is_empty();
    if enabled && config.rtos_show_tasks {
        push_text(&mut list, "TASK.List".to_owned());
    }
    assert(text_views(list@) =~= symbol_commands(config@));
    list
}

/// The plan that sets up debugging.
pub fn debug_plan(config: &Config) -> (plan: Vec<Step>)
    ensures
        step_views(plan@) == debug_steps(config@),
{
    let mut plan: Vec<Step> = Vec::new();
    push_step(&mut plan, Step::UnlessUp(attach_list(config)));
    let list = symbol_list(config);
    let ghost head = step_views(plan@);
    let ghost texts = text_views(list@);
    let mut i: usize = 0;
    assert(step_views(plan@) =~= head + crate::remote::commands(texts.take(0)));
    while i < list.len()
        invariant
            i <= list@.len(),
            texts == text_views(list@),
            step_views(plan@) == head + crate::remote::commands(texts.take(i as int)),
        decreases list@.len() - i,
    {
        assert(texts[i as int] == list@[i as int]@);
        push_step(&mut plan, Step::Cmd(list[i].clone()));
        i = i + 1;
        assert(step_views(plan@) =~= head + crate::remote::commands(texts.take(i as int)));
    }
    assert(texts.take(i as int) =~= texts);
    let mut go: Vec<String> = Vec::new();
    push_text(&mut go, "Go".to_owned());
    assert(text_views(go@) =~= seq!["Go"@]);
    push_step(&mut plan, Step::UnlessRunning(go));
    push_step(
        &mut plan,
        Step::Print(concat2("tracebridge: symbols loaded for ", &config.program)),
    );
    assert(step_views(plan@) =~= debug_steps(config@));
    plan
}

/// Flashes a program: the script prepares the flash, then the program is erased,
/// programmed and verified.
pub fn program<R: Rcl>(config: &Config, script: &str, debugger: &mut R) -> (result: Result<
    (),
    Error,
>)
    ensures
        final(debugger).history() == old(debugger).history() + added(
            old(debugger).history(),
            final(debugger).history(),
        ),
        carried_out(
            program_steps(config@, script@),
            added(old(debugger).history(), final(debugger).history()),
            unit_view(result),
        ),
{
    run_plan(&program_plan(config, script), debugger)
}

/// Sets up debugging: attaches where needed, loads the symbols and lets the
/// target run.
pub fn setup_debug<R: Rcl>(config: &Config, debugger: &mut R) -> (result: Result<(), Error>)
    ensures
        final(debugger).history() == old(debugger).history() + added(
            old(debugger).history(),
            final(debugger).history(),
        ),
        carried_out(
            debug_steps(config@),
            added(old(debugger).history(), final(debugger).history()),
            unit_view(result),
        ),
{
    run_plan(&debug_plan(config), debugger)
}

/// The plan of a whole sequence: flash where a script is given, then set up
/// debugging.
pub open spec fn sequence_steps(config: ConfigView, script: Option<Seq<char>>) -> Seq<StepView> {
    match script {
        Some(script) => program_steps(config, script) + debug_steps(config),
        None => debug_steps(config),
    }
}

/// The complaint about a sequence that failed.
pub open spec fn sequence_complaint(config: ConfigView, action: Action, cause: ErrorView) -> Seq<
    char,
> {
    if cause is Timeout || cause is ScriptTimeout {
        "TRACE32 operation exceeded "@ + decimal_text(config.operation_timeout as nat) + "s"@
    } else {
        "TRACE32 "@ + action.text() + " failed: "@ + cause.text()
    }
}

/// Whether requests are those of a sequence, and whether the result says what
/// became of it.
pub open spec fn sequence_ran(
    config: ConfigView,
    script: Option<Seq<char>>,
    done: Seq<Performed>,
    result: Result<(), Seq<char>>,
) -> bool {
    let action = if script is Some {
        Action::Flash
    } else {
        Action::Load
    };
    match result {
        Ok(()) => carried_out(sequence_steps(config, script), done, Ok(())),
        Err(text) => exists|cause: ErrorView| #[trigger]
            carried_out(sequence_steps(config, script), done, Err(cause)) && text
                == sequence_complaint(config, action, cause),
    }
}

/// Flashes with a script where one is given, then sets up debugging.
pub fn run_sequence<R: Rcl>(config: &Config, script: Option<&str>, debugger: &mut R) -> (result:
    Result<(), BridgeError>)
    ensures
        final(debugger).history() == old(debugger).history() + added(
            old(debugger).history(),
            final(debugger).history(),
        ),
        sequence_ran(
            config@,
            str_view(script),
            added(old(debugger).history(), final(debugger).history()),
            outcome(result),
        ),
{
    let mut action = Action::Load;
    let mut plan: Vec<Step> = Vec::new();
    match script {
        Some(script) => {
            action = Action::Flash;
            plan = program_plan(config, script);
        },
        None => {},
    }
    let ghost head = step_views(plan@);
    let mut rest = debug_plan(config);
    let ghost tail = step_views(rest@);
    plan.append(&mut rest);
    assert(step_views(plan@) =~= head + tail);
    let ghost steps = sequence_steps(config@, str_view(script));
    assert(step_views(plan@) =~= steps);
    let ghost start = debugger.history();
    match run_plan(&plan, debugger) {
        Ok(()) => {
            assert(carried_out(steps, added(start, debugger.history()), Ok(())));
            Ok(())
        },
        Err(error) => {
            assert(carried_out(steps, added(start, debugger.history()), Err(error@)));
            let complaint = if error.is_timeout() {
                concat3(
                    "TRACE32 operation exceeded ",
                    &decimal(config.operation_timeout as u128),
                    "s",
                )
            } else {
                concat4("TRACE32 ", action.name(), " failed: ", &error.to_string())
            };
            assert(complaint@ == sequence_complaint(config@, action, error@));
            Err(BridgeError(complaint))
        },
    }
}

/// The complaint about a time limit that could not be set.
pub fn timeout_unset(action: Action, error: &Error) -> (result: BridgeError)
    ensures
        result@ == "TRACE32 "@ + action.text() + " failed: "@ + error@.text(),
{
    BridgeError(concat4("TRACE32 ", action.name(), " failed: ", &error.to_string()))
}

/// The mode in which the flash is programmed is always left: once loading the
/// program into the flash was attempted, the next request leaves the mode,
/// whether or not loading failed; and where loading failed, its error is the
/// result.
pub proof fn reprogram_mode_is_left(
    config: ConfigView,
    script: Seq<char>,
    done: Seq<Performed>,
    result: Result<(), ErrorView>,
)
    requires
        carried_out(program_steps(config, script), done, result),
    ensures
        ({
            let load = 2 + clock_step(config).len();
            done.len() > load ==> {
                &&& done[load as int].order == Order::Cmd(
                    "Data.LOAD.Elf \""@ + config.elf + "\""@,
                )
                &&& done.len() > load + 1
                &&& done[load as int + 1].order == Order::Cmd("FLASH.ReProgram OFF"@)
                &&& done[load as int].outcome matches Err(error) ==> done.len() == load + 2
                    && result == Err::<(), _>(error)
            }
        }),
{
    let plan = program_steps(config, script);
    let load = (2 + clock_step(config).len()) as nat;
    if done.len() > load {
        let loading = StepView::Guarded(
            "Data.LOAD.Elf \""@ + config.elf + "\""@,
            "FLASH.ReProgram OFF"@,
        );
        assert(plan[load as int] == loading);
        assert forall|i: int| 0 <= i < load implies is_single(#[trigger] plan[i]) by {}
        lemma_singles_done(plan, done, result, load);
        let rest = plan.skip(load as int);
        let later = done.skip(load as int);
        assert(rest[0] == loading);
        assert(later[0] == done[load as int]);
        let left = seq![StepView::Cmd("FLASH.ReProgram OFF"@)] + rest.skip(1);
        if later[0].outcome is Ok {
            assert(carried_out(left, later.skip(1), result));
            assert(left[0] == StepView::Cmd("FLASH.ReProgram OFF"@));
            assert(later.skip(1)[0] == done[load as int + 1]);
        } else {
            assert(later[1] == done[load as int + 1]);
        }
    }
}

/// What was found of an action stays the same when more becomes known, and only
/// what is not known is asked.
pub proof fn validated_actions_stand(
    config: ConfigView,
    action: Action,
    env: Vars,
    scripts: Seq<ScriptView>,
    world: Known,
    more: Known,
)
    requires
        world.submap_of(more),
    ensures
        stands(
            validated(config, action, env, scripts, world),
            world,
            validated(config, action, env, scripts, more),
        ),
{
    resolved_paths_stand(config.flash_script, config.config_dir, world, more);
}

proof fn lemma_plain_commands()
    ensures
        is_command_safe("SYStem.JtagClock "@),
        is_command_safe("FLASH.ReProgram ALL /Erase"@),
        is_command_safe("FLASH.ReProgram OFF"@),
        is_command_safe("SYStem.Down"@),
        is_command_safe("SYStem.Up"@),
        is_command_safe("SYStem.Option.IMASKASM ON"@),
        is_command_safe("SYStem.Option.IMASKHLL ON"@),
        is_command_safe("tracebridge: flashed "@),
        is_command_safe("SYStem.Mode Down"@),
        is_command_safe("SYStem.CPU "@),
        is_command_safe("SYStem.MemAccess "@),
        is_command_safe("CORE.ASSIGN "@),
        is_command_safe("SYStem.Mode Attach"@),
        is_command_safe("SYStem.Option.DUALPORT "@),
        is_command_safe("List.auto"@),
        is_command_safe("TASK.List"@),
        is_command_safe("Go"@),
        is_command_safe("tracebridge: symbols loaded for "@),
{
    reveal_strlit("SYStem.JtagClock ");
    assert(is_command_safe("SYStem.JtagClock "@));
    reveal_strlit("FLASH.ReProgram ALL /Erase");
    assert(is_command_safe("FLASH.ReProgram ALL /Erase"@));
    reveal_strlit("FLASH.ReProgram OFF");
    assert(is_command_safe("FLASH.ReProgram OFF"@));
    reveal_strlit("SYStem.Down");
    assert(is_command_safe("SYStem.Down"@));
    reveal_strlit("SYStem.Up");
    assert(is_command_safe("SYStem.Up"@));
    reveal_strlit("SYStem.Option.IMASKASM ON");
    assert(is_command_safe("SYStem.Option.IMASKASM ON"@));
    reveal_strlit("SYStem.Option.IMASKHLL ON");
    assert(is_command_safe("SYStem.Option.IMASKHLL ON"@));
    reveal_strlit("tracebridge: flashed ");
    assert(is_command_safe("tracebridge: flashed "@));
    reveal_strlit("SYStem.Mode Down");
    assert(is_command_safe("SYStem.Mode Down"@));
    reveal_strlit("SYStem.CPU ");
    assert(is_command_safe("SYStem.CPU "@));
    reveal_strlit("SYStem.MemAccess ");
    assert(is_command_safe("SYStem.MemAccess "@));
    reveal_strlit("CORE.ASSIGN ");
    assert(is_command_safe("CORE.ASSIGN "@));
    reveal_strlit("SYStem.Mode Attach");
    assert(is_command_safe("SYStem.Mode Attach"@));
    reveal_strlit("SYStem.Option.DUALPORT ");
    assert(is_command_safe("SYStem.Option.DUALPORT "@));
    reveal_strlit("List.auto");
    assert(is_command_safe("List.auto"@));
    reveal_strlit("TASK.List");
    assert(is_command_safe("TASK.List"@));
    reveal_strlit("Go");
    assert(is_command_safe("Go"@));
    reveal_strlit("tracebridge: symbols loaded for ");
    assert(is_command_safe("tracebridge: symbols loaded for "@));
}

/// Whether a text is one command: a single line with at most one argument in
/// quotation marks.
pub open spec fn is_command(text: Seq<char>) -> bool {
    is_command_safe(text) || exists|head: Seq<char>, argument: Seq<char>, tail: Seq<char>|
        is_command_safe(head) && is_command_safe(argument) && is_command_safe(tail) && text
            == #[trigger] quoted(head, argument, tail)
}

/// A text with an argument in quotation marks.
pub open spec fn quoted(head: Seq<char>, argument: Seq<char>, tail: Seq<char>) -> Seq<char> {
    head + seq!['"'] + argument + seq!['"'] + tail
}

/// Whether every command of a step is one, and the text that it shows can be quoted.
pub open spec fn is_well_formed(step: StepView) -> bool {
    match step {
        StepView::Cmd(command) => is_command(command),
        StepView::Cmm(script, _) => is_command(script),
        StepView::Print(text) => is_command_safe(text),
        StepView::Guarded(first, second) => is_command(first) && is_command(second),
        StepView::UnlessUp(list) => forall|i: int|
            0 <= i < list.len() ==> is_command(#[trigger] list[i]),
        StepView::UnlessRunning(list) => forall|i: int|
            0 <= i < list.len() ==> is_command(#[trigger] list[i]),
    }
}

proof fn lemma_safe_join(a: Seq<char>, b: Seq<char>)
    requires
        is_command_safe(a),
        is_command_safe(b),
    ensures
        is_command_safe(a + b),
{
    assert forall|c: char| (a + b).contains(c) implies a.contains(c) || b.contains(c) by {
        let i = choose|i: int| 0 <= i < (a + b).len() && (a + b)[i] == c;
        if i < a.len() {
            assert(a[i] == c);
        } else {
            assert(b[i - a.len()] == c);
        }
    }
}

proof fn lemma_quoted_commands(config: ConfigView, script: Seq<char>)
    requires
        is_command_safe(script),
        is_command_safe(config.elf),
        is_command_safe(config.rtos_config),
        is_command_safe(config.rtos_menu),
        is_command_safe(blank_list(config.flash_args)),
    ensures
        is_command(prepare_command(config, script)),
        is_command("Data.LOAD.Elf \""@ + config.elf + "\""@),
        is_command("Data.LOAD.Elf \""@ + config.elf + "\" /NoCODE"@),
        is_command("TASK.CONFIG \""@ + config.rtos_config + "\""@),
        is_command("MENU.ReProgram \""@ + config.rtos_menu + "\""@),
{
    reveal_strlit("\"");
    reveal_strlit(" ");
    reveal_strlit("\" PREPAREONLY");
    reveal_strlit(" PREPAREONLY");
    reveal_strlit("Data.LOAD.Elf \"");
    reveal_strlit("Data.LOAD.Elf ");
    reveal_strlit("\" /NoCODE");
    reveal_strlit(" /NoCODE");
    reveal_strlit("TASK.CONFIG \"");
    reveal_strlit("TASK.CONFIG ");
    reveal_strlit("MENU.ReProgram \"");
    reveal_strlit("MENU.ReProgram ");
    let none = Seq::<char>::empty();
    assert(is_command_safe(none));
    assert(is_command_safe(" "@));
    assert(is_command_safe(" PREPAREONLY"@));
    assert(is_command_safe("Data.LOAD.Elf "@));
    assert(is_command_safe(" /NoCODE"@));
    assert(is_command_safe("TASK.CONFIG "@));
    assert(is_command_safe("MENU.ReProgram "@));
    let arguments = if config.flash_args.len() > 0 {
        " "@ + blank_list(config.flash_args)
    } else {
        none
    };
    lemma_safe_join(" "@, blank_list(config.flash_args));
    lemma_safe_join(" PREPAREONLY"@, arguments);
    assert(prepare_command(config, script) =~= quoted(none, script, " PREPAREONLY"@ + arguments));
    assert("Data.LOAD.Elf \""@ + config.elf + "\""@ =~= quoted("Data.LOAD.Elf "@, config.elf, none));
    assert("Data.LOAD.Elf \""@ + config.elf + "\" /NoCODE"@ =~= quoted(
        "Data.LOAD.Elf "@,
        config.elf,
        " /NoCODE"@,
    ));
    assert("TASK.CONFIG \""@ + config.rtos_config + "\""@ =~= quoted(
        "TASK.CONFIG "@,
        config.rtos_config,
        none,
    ));
    assert("MENU.ReProgram \""@ + config.rtos_menu + "\""@ =~= quoted(
        "MENU.ReProgram "@,
        config.rtos_menu,
        none,
    ));
}

/// The values of an accepted configuration cannot break the quoting of a command:
/// each command of a sequence is a single line with at most one argument in
/// quotation marks.
#[verifier::rlimit(40)]
pub proof fn commands_are_well_formed(config: ConfigView, script: Option<Seq<char>>, named: Seq<char>)
    requires
        unsafe_value(command_values(config, named)) is None,
        script matches Some(path) ==> is_command_safe(path),
    ensures
        forall|i: int|
            0 <= i < sequence_steps(config, script).len() ==> is_well_formed(
                #[trigger] sequence_steps(config, script)[i],
            ),
{
    let values = command_values(config, named);
    lemma_safe_values(values);
    assert(values[2].1 == config.program && values[3].1 == config.elf);
    assert(values[4].1 == config.cpu && values[5].1 == config.cores);
    assert(values[6].1 == config.mem_access && values[7].1 == config.jtag_clock);
    assert(values[8].1 == config.dual_port && values[9].1 == config.rtos_config);
    assert(values[10].1 == config.rtos_menu && values[12].1 == blank_list(config.flash_args));
    let path = match script {
        Some(path) => path,
        None => config.elf,
    };
    lemma_plain_commands();
    lemma_quoted_commands(config, path);
    lemma_safe_join("SYStem.JtagClock "@, config.jtag_clock);
    lemma_safe_join("tracebridge: flashed "@, config.elf);
    lemma_safe_join("SYStem.CPU "@, config.cpu);
    lemma_safe_join("SYStem.MemAccess "@, config.mem_access);
    lemma_safe_join("CORE.ASSIGN "@, config.cores);
    lemma_safe_join("SYStem.Option.DUALPORT "@, config.dual_port);
    lemma_safe_join("tracebridge: symbols loaded for "@, config.program);
    let attach = attach_commands(config);
    let symbols = symbol_commands(config);
    assert forall|i: int| 0 <= i < attach.len() implies is_command(#[trigger] attach[i]) by {}
    assert forall|i: int| 0 <= i < symbols.len() implies is_command(#[trigger] symbols[i]) by {}
    let debug = debug_steps(config);
    assert forall|i: int| 0 <= i < debug.len() implies is_well_formed(#[trigger] debug[i]) by {
        if 0 < i <= symbols.len() {
            assert(debug[i] == StepView::Cmd(symbols[i - 1]));
        }
    }
    let program = program_steps(config, path);
    assert forall|i: int| 0 <= i < program.len() implies is_well_formed(#[trigger] program[i]) by {}
    let steps = sequence_steps(config, script);
    assert forall|i: int| 0 <= i < steps.len() implies is_well_formed(#[trigger] steps[i]) by {
        if script is Some {
            if i < program.len() {
                assert(steps[i] == program[i]);
            } else {
                assert(steps[i] == debug[i - program.len()]);
            }
        }
    }
}

}
