//! What the commands tell a user.

use vstd::prelude::*;
use vstd::string::*;

use crate::config::{blank_list, join_blanks, Config, ConfigView};
use crate::errors::BridgeError;
use crate::flash::{
    choose_script, chosen, related, script_views, search, Choice, ChoiceView, Script, ScriptView,
    Source,
};
use crate::paths::{components_of, join, joined, same_path};
use crate::t32config::{RclSettings, RclSettingsView};
use crate::t32rcl::eval::text_views;
use crate::target::Action;
use crate::text::{
    chars_of, concat2, concat3, concat4, concat5, decimal, decimal_text, opt_view, repeated, same,
    string_of, to_uppercase, uppercase,
};

verus! {

/// The configuration with the options of the flash command.
pub open spec fn with_flash_options(
    config: ConfigView,
    chip: Option<Seq<char>>,
    script: Option<Seq<char>>,
) -> ConfigView {
    ConfigView {
        flash_chip: match chip {
            Some(chip) => chip,
            None => config.flash_chip,
        },
        flash_script: match script {
            Some(script) => script,
            None => if chip is Some {
                seq![]
            } else {
                config.flash_script
            },
        },
        ..config
    }
}

/// The configuration with the options of the flash command: a chip takes the
/// place of the script, and a script that of the configured one.
pub fn apply_flash_options(config: Config, chip: Option<String>, script: Option<String>) -> (result:
    Config)
    ensures
        result@ == with_flash_options(config@, opt_view(chip), opt_view(script)),
{
    let mut config = config;
    match chip {
        Some(chip) => {
            config.flash_script = String::new();
            assert(config.flash_script@ =~= seq![]);
            config.flash_chip = chip;
        },
        None => {},
    }
    match script {
        Some(script) => {
            config.flash_script = script;
        },
        None => {},
    }
    config
}

/// How a flash script was chosen, in words.
pub open spec fn described(choice: ChoiceView) -> Seq<char> {
    match choice {
        ChoiceView::Explicit(script) => script + " (flash.script)"@,
        ChoiceView::Chip { chip, pattern, script } => script.path + " ("@ + script.source.text()
            + " script for "@ + chip + ", @Chip "@ + pattern + ")"@,
    }
}

/// How a flash script was chosen, in words.
pub fn describe(choice: &Choice) -> (text: String)
    ensures
        text@ == described(choice@),
{
    match choice {
        Choice::Explicit(script) => concat2(script, " (flash.script)"),
        Choice::Chip { chip, pattern, script } => {
            let mut text = concat5(
                &script.path,
                " (",
                script.source.name(),
                " script for ",
                chip,
            );
            text.append(", @Chip ");
            text.append(pattern);
            text.append(")");
            text
        },
    }
}

/// What is said before an action, and after it.
pub fn action_texts(action: Action) -> (texts: (&'static str, &'static str))
    ensures
        match action {
            Action::Flash => texts.0@ == "flashing"@ && texts.1@
                == "flashed, symbols loaded, target running"@,
            Action::Load => texts.0@ == "loading symbols from"@ && texts.1@
                == "symbols loaded, target running"@,
        },
{
    match action {
        Action::Flash => ("flashing", "flashed, symbols loaded, target running"),
        Action::Load => ("loading symbols from", "symbols loaded, target running"),
    }
}

/// The complaint about a PowerView that does not run.
pub fn no_powerview(port: u16) -> (error: BridgeError)
    ensures
        error@ == "no PowerView on RCL port "@ + decimal_text(port as nat)
            + "; run 'tracebridge open', 'flash' or 'load' first"@,
{
    BridgeError(
        concat3(
            "no PowerView on RCL port ",
            &decimal(port as u128),
            "; run 'tracebridge open', 'flash' or 'load' first",
        ),
    )
}

/// What starting the adapter comes to.
#[derive(Debug, Clone, Copy, PartialEq, Eq, Structural)]
pub enum AdapterStart {
    /// It listens already.
    Running,
    /// There is no PowerView.
    NoPowerView,
    /// It is to be started.
    Start,
}

/// What starting the adapter comes to, where its port and that of PowerView are open
/// or not.
pub open spec fn adapter_state(dap_open: bool, rcl_open: bool) -> AdapterStart {
    if dap_open {
        AdapterStart::Running
    } else if !rcl_open {
        AdapterStart::NoPowerView
    } else {
        AdapterStart::Start
    }
}

/// Decides what starting the adapter comes to, from whether its port and that of
/// PowerView are open.
pub fn adapter_start(dap_open: bool, rcl_open: bool) -> (start: AdapterStart)
    ensures
        start == adapter_state(dap_open, rcl_open),
{
    if dap_open {
        AdapterStart::Running
    } else if !rcl_open {
        AdapterStart::NoPowerView
    } else {
        AdapterStart::Start
    }
}

/// A text filled up with blanks on the right.
pub open spec fn padded(text: Seq<char>, width: nat) -> Seq<char> {
    if text.len() >= width {
        text
    } else {
        text + repeated(' ', (width - text.len()) as nat)
    }
}

fn pad(text: &str, width: usize) -> (result: String)
    ensures
        result@ == padded(text@, width as nat),
{
    let count: usize = chars_of(text).len();
    let mut result = text.to_owned();
    let mut i: usize = count;
    assert(text@ + repeated(' ', 0) =~= text@);
    while i < width
        invariant
            count <= i,
            i <= width || i == count,
            result@ == text@ + repeated(' ', (i - count) as nat),
        decreases width - i,
    {
        result.push(' ');
        i = i + 1;
        assert(result@ =~= text@ + repeated(' ', (i - count) as nat));
    }
    result
}

/// How many related scripts are listed at most.
pub const MAX_LISTED: usize = 40;

/// The line of a related script; the one that is chosen is marked.
pub open spec fn script_line(script: ScriptView, marked: bool) -> Seq<char> {
    "  "@ + (if marked {
        "*"@
    } else {
        " "@
    }) + " "@ + padded(script.source.text(), 8) + " "@ + padded(blank_list(script.chips), 28) + " "@
        + script.path + (if script.prepare_only {
        ""@
    } else {
        "  (no PREPAREONLY)"@
    })
}

fn line_of_script(script: &Script, marked: bool) -> (line: String)
    ensures
        line@ == script_line(script@, marked),
{
    let mut line = concat3(
        "  ",
        if marked {
            "*"
        } else {
            " "
        },
        " ",
    );
    line.append(&pad(script.source.name(), 8));
    line.append(" ");
    line.append(&pad(&join_blanks(&script.chips), 28));
    line.append(" ");
    line.append(&script.path);
    line.append(
        if script.prepare_only {
            ""
        } else {
            "  (no PREPAREONLY)"
        },
    );
    line
}

/// The number of scripts of the library.
pub open spec fn library_count(scripts: Seq<ScriptView>) -> nat
    decreases scripts.len(),
{
    if scripts.len() == 0 {
        0
    } else if scripts.last().source == Source::Library {
        library_count(scripts.drop_last()) + 1
    } else {
        library_count(scripts.drop_last())
    }
}

fn count_library(scripts: &[Script]) -> (count: usize)
    ensures
        count == library_count(script_views(scripts@)),
{
    let ghost views = script_views(scripts@);
    let mut count: usize = 0;
    let mut i: usize = 0;
    while i < scripts.len()
        invariant
            i <= scripts@.len(),
            views == script_views(scripts@),
            count <= i,
            count == library_count(views.take(i as int)),
        decreases scripts@.len() - i,
    {
        assert(views.take(i as int + 1).drop_last() =~= views.take(i as int));
        assert(views[i as int] == scripts@[i as int]@);
        match scripts[i].source {
            Source::Library => {
                count = count + 1;
            },
            Source::Trace32 => {},
        }
        i = i + 1;
    }
    assert(views.take(i as int) =~= views);
    count
}

/// The line that says which script a chip gets.
pub open spec fn chip_headline(
    query: Seq<char>,
    choice: Result<(Seq<char>, ScriptView), Seq<char>>,
) -> Seq<char> {
    query + ": "@ + (match choice {
        Ok((pattern, script)) => script.path + " ("@ + script.source.text() + " script, @Chip "@
            + pattern + ")"@,
        Err(error) => error,
    })
}

/// Whether a script is the one that was chosen: whether both paths have the same
/// steps.
pub open spec fn is_chosen(
    choice: Result<(Seq<char>, ScriptView), Seq<char>>,
    script: ScriptView,
) -> bool {
    choice matches Ok((_, best)) && components_of(best.path) == components_of(script.path)
}

/// The lines of related scripts.
pub open spec fn related_lines(
    found: Seq<ScriptView>,
    choice: Result<(Seq<char>, ScriptView), Seq<char>>,
) -> Seq<Seq<char>> {
    found.map_values(|script: ScriptView| script_line(script, is_chosen(choice, script)))
}

/// What is told of the scripts for a chip, below the line that says which one it
/// gets.
pub open spec fn chip_lines(
    query: Seq<char>,
    scripts: Seq<ScriptView>,
    library: Seq<char>,
    sys: Seq<char>,
) -> Seq<Seq<char>> {
    let choice = chosen(query, scripts);
    let found = related(scripts, query);
    let shown = if found.len() > MAX_LISTED {
        found.take(MAX_LISTED as int)
    } else {
        found
    };
    (if found.len() > 0 {
        seq!["  related scripts:"@]
    } else {
        seq![]
    }) + related_lines(shown, choice) + (if found.len() > MAX_LISTED {
        seq!["  ... "@ + decimal_text((found.len() - MAX_LISTED) as nat) + " more; narrow the query"@]
    } else {
        seq![]
    }) + seq![
        ""@,
        "  library: "@ + library + " ("@ + decimal_text(library_count(scripts))
            + " scripts); TRACE32: "@ + joined(sys, "demo/*/flash"@),
        "  Use it with flash.chip = \""@ + query
            + "\" in trace32.toml or 'tracebridge flash --chip "@ + query + "'."@,
    ]
}

/// What is told of the scripts for a chip.
#[derive(Debug)]
pub struct ChipReport {
    pub headline: String,
    pub lines: Vec<String>,
}

fn push_line(lines: &mut Vec<String>, line: String)
    ensures
        text_views(final(lines)@) == text_views(old(lines)@).push(line@),
{
    let ghost before = text_views(lines@);
    lines.push(line);
    assert(text_views(lines@) =~= before.push(line@));
}

/// Reports which script a chip gets, and which scripts have to do with it.
pub fn report_chips(query: &str, scripts: &[Script], library: &str, config: &Config) -> (report:
    ChipReport)
    ensures
        report.headline@ == chip_headline(query@, chosen(query@, script_views(scripts@))),
        text_views(report.lines@) == chip_lines(
            query@,
            script_views(scripts@),
            library@,
            config@.t32_sys,
        ),
{
    let ghost all = script_views(scripts@);
    let ghost choice = chosen(query@, all);
    let best = choose_script(query, scripts);
    let headline = match &best {
        Ok((pattern, script)) => {
            let mut text = concat5(
                &script.path,
                " (",
                script.source.name(),
                " script, @Chip ",
                pattern,
            );
            text.append(")");
            concat3(query, ": ", &text)
        },
        Err(error) => concat3(query, ": ", error),
    };
    let found = search(query, scripts);
    let ghost views = related(all, query@);
    assert(views.len() == found@.len());
    let mut lines: Vec<String> = Vec::new();
    let ghost head: Seq<Seq<char>> = if views.len() > 0 {
        seq!["  related scripts:"@]
    } else {
        seq![]
    };
    if found.len() > 0 {
        push_line(&mut lines, "  related scripts:".to_owned());
    }
    assert(text_views(lines@) =~= head);
    let count: usize = if found.len() > MAX_LISTED {
        MAX_LISTED
    } else {
        found.len()
    };
    let mut i: usize = 0;
    assert(related_lines(views.take(0), choice) =~= seq![]);
    assert(head + seq![] =~= head);
    while i < count
        invariant
            i <= count <= found@.len(),
            views == crate::flash::reference_views(found@),
            choice == (match best {
                Ok((pattern, script)) => Ok::<_, Seq<char>>((pattern@, script@)),
                Err(error) => Err(error@),
            }),
            text_views(lines@) == head + related_lines(views.take(i as int), choice),
        decreases count - i,
    {
        assert(views[i as int] == found@[i as int]@);
        let script = found[i];
        let marked = match &best {
            Ok((_, chosen)) => same_path(&chosen.path, &script.path),
            Err(_) => false,
        };
        push_line(&mut lines, line_of_script(script, marked));
        i = i + 1;
        assert(text_views(lines@) =~= head + related_lines(views.take(i as int), choice));
    }
    let ghost shown = views.take(count as int);
    assert(views.len() <= MAX_LISTED ==> shown =~= views);
    let ghost middle = text_views(lines@);
    if found.len() > MAX_LISTED {
        push_line(
            &mut lines,
            concat3(
                "  ... ",
                &decimal((found.len() - MAX_LISTED) as u128),
                " more; narrow the query",
            ),
        );
    }
    push_line(&mut lines, "".to_owned());
    let mut summary = concat5(
        "  library: ",
        library,
        " (",
        &decimal(count_library(scripts) as u128),
        " scripts); TRACE32: ",
    );
    summary.append(&join(&config.t32_sys, "demo/*/flash"));
    push_line(&mut lines, summary);
    push_line(
        &mut lines,
        concat5(
            "  Use it with flash.chip = \"",
            query,
            "\" in trace32.toml or 'tracebridge flash --chip ",
            query,
            "'.",
        ),
    );
    assert(text_views(lines@) =~= chip_lines(query@, all, library@, config@.t32_sys));
    ChipReport { headline, lines }
}

/// What has been found out for the report on a configuration.
#[derive(Debug)]
pub struct ConfigFacts {
    /// Whether the project, the ELF, PowerView, its configuration and the debug
    /// adapter are there.
    pub project: bool,
    pub elf: bool,
    pub binary: bool,
    pub config: bool,
    pub adapter: bool,
    /// Whether a script that is named is there.
    pub script: bool,
    /// The path of this executable.
    pub exe: Option<String>,
    /// The remote control settings, where the configuration of PowerView is there.
    pub settings: Option<Option<RclSettings>>,
}

/// Whether something is there, in words.
pub open spec fn status_text(found: bool) -> Seq<char> {
    if found {
        "ok     "@
    } else {
        "MISSING"@
    }
}

/// Whether something is there, in words.
pub fn status(found: bool) -> (text: &'static str)
    ensures
        text@ == status_text(found),
{
    if found {
        "ok     "
    } else {
        "MISSING"
    }
}

/// The line of a path in the report on a configuration.
pub open spec fn path_line(found: bool, name: Seq<char>, path: Seq<char>) -> Seq<char> {
    "  "@ + status_text(found) + " "@ + name + "="@ + path
}

fn line_of_path(found: bool, name: &str, path: &str) -> (line: String)
    ensures
        line@ == path_line(found, name@, path@),
{
    let mut line = concat5("  ", status(found), " ", name, "=");
    line.append(path);
    line
}

/// The line of the flash script in the report on a configuration.
pub open spec fn script_state(choice: Result<ChoiceView, Seq<char>>, found: bool) -> Seq<char> {
    match choice {
        Ok(choice) => "  "@ + status_text(choice is Chip || found) + " flash script="@ + described(
            choice,
        ),
        Err(error) => "  MISSING flash script: "@ + error,
    }
}

/// What is said of the remote control settings of PowerView, if anything is.
pub open spec fn settings_note(settings: Option<RclSettingsView>, port: u16) -> Seq<Seq<char>> {
    match settings {
        None => seq![
            "  note    config.t32 does not enable the Remote API; tracebridge adds --t32-api-rcl=TCP:"@
                + decimal_text(port as nat) + " when it starts PowerView"@,
        ],
        Some(found) => if uppercase(found.protocol) != "NETTCP"@ {
            seq![
                "  WARN    config.t32 has RCL="@ + found.protocol
                    + "; tracebridge needs RCL=NETTCP"@,
            ]
        } else if found.port != Some(port) {
            seq![
                "  WARN    config.t32 PORT="@ + (match found.port {
                    Some(other) => decimal_text(other as nat),
                    None => "(none)"@,
                }) + " differs from trace32.rcl_port "@ + decimal_text(port as nat),
            ]
        } else {
            seq![]
        },
    }
}

/// The content of optional settings.
pub open spec fn settings_view(settings: Option<RclSettings>) -> Option<RclSettingsView> {
    match settings {
        Some(found) => Some(found@),
        None => None,
    }
}

fn note_settings(settings: &Option<RclSettings>, port: u16, lines: &mut Vec<String>)
    ensures
        text_views(final(lines)@) == text_views(old(lines)@) + settings_note(
            settings_view(*settings),
            port,
        ),
{
    let ghost before = text_views(lines@);
    match settings {
        None => {
            push_line(
                lines,
                concat3(
                    "  note    config.t32 does not enable the Remote API; tracebridge adds --t32-api-rcl=TCP:",
                    &decimal(port as u128),
                    " when it starts PowerView",
                ),
            );
        },
        Some(found) => {
            let same_port = match found.port {
                Some(other) => other == port,
                None => false,
            };
            if !same(&string_of(&to_uppercase(&chars_of(&found.protocol))), "NETTCP") {
                push_line(
                    lines,
                    concat3(
                        "  WARN    config.t32 has RCL=",
                        &found.protocol,
                        "; tracebridge needs RCL=NETTCP",
                    ),
                );
            } else if !same_port {
                let shown = match found.port {
                    Some(other) => decimal(other as u128),
                    None => "(none)".to_owned(),
                };
                push_line(
                    lines,
                    concat4(
                        "  WARN    config.t32 PORT=",
                        &shown,
                        " differs from trace32.rcl_port ",
                        &decimal(port as u128),
                    ),
                );
            }
        },
    }
    assert(text_views(lines@) =~= before + settings_note(settings_view(*settings), port));
}

/// The report on a configuration.
pub open spec fn config_lines(
    config: ConfigView,
    choice: Result<ChoiceView, Seq<char>>,
    facts: ConfigFacts,
) -> Seq<Seq<char>> {
    seq![
        path_line(facts.project, "project"@, config.project_dir),
        path_line(facts.elf, "ELF"@, config.elf),
        path_line(facts.binary, "T32_BIN"@, config.t32_binary),
        path_line(facts.config, "T32_CONFIG"@, config.t32_config),
        path_line(facts.adapter, "T32_DEBUG_ADAPTER"@, config.debug_adapter),
        script_state(choice, facts.script),
        "  ports   RCL "@ + decimal_text(config.rcl_port as nat) + ", DAP "@ + decimal_text(
            config.dap_port as nat,
        ) + " (t32debugadapter "@ + decimal_text(config.dap_backend_port as nat) + ")"@,
        "  run     "@ + config.run_dir,
    ] + (match facts.exe {
        Some(exe) => seq!["  exe     "@ + exe@],
        None => seq![],
    }) + (match facts.settings {
        Some(settings) => settings_note(settings_view(settings), config.rcl_port),
        None => seq![],
    })
}

/// Reports on a configuration: what is there, and whether it fits together.
pub fn report_config(
    config: &Config,
    choice: &Result<Choice, BridgeError>,
    facts: &ConfigFacts,
) -> (lines: Vec<String>)
    ensures
        text_views(lines@) == config_lines(
            config@,
            match choice {
                Ok(choice) => Ok(choice@),
                Err(error) => Err(error@),
            },
            *facts,
        ),
{
    let mut lines: Vec<String> = Vec::new();
    push_line(&mut lines, line_of_path(facts.project, "project", &config.project_dir));
    push_line(&mut lines, line_of_path(facts.elf, "ELF", &config.elf));
    push_line(&mut lines, line_of_path(facts.binary, "T32_BIN", &config.t32_binary));
    push_line(&mut lines, line_of_path(facts.config, "T32_CONFIG", &config.t32_config));
    push_line(
        &mut lines,
        line_of_path(facts.adapter, "T32_DEBUG_ADAPTER", &config.debug_adapter),
    );
    match choice {
        Ok(choice) => {
            let found = match choice {
                Choice::Explicit(_) => facts.script,
                Choice::Chip { chip, pattern, script } => true,
            };
            push_line(
                &mut lines,
                concat4("  ", status(found), " flash script=", &describe(choice)),
            );
        },
        Err(error) => {
            push_line(&mut lines, concat2("  MISSING flash script: ", &error.0));
        },
    }
    let mut ports = concat5(
        "  ports   RCL ",
        &decimal(config.rcl_port as u128),
        ", DAP ",
        &decimal(config.dap_port as u128),
        " (t32debugadapter ",
    );
    ports.append(&decimal(config.dap_backend_port as u128));
    ports.append(")");
    push_line(&mut lines, ports);
    push_line(&mut lines, concat2("  run     ", &config.run_dir));
    match &facts.exe {
        Some(exe) => {
            push_line(&mut lines, concat2("  exe     ", exe));
        },
        None => {},
    }
    match &facts.settings {
        Some(settings) => {
            note_settings(settings, config.rcl_port, &mut lines);
        },
        None => {},
    }
    assert(text_views(lines@) =~= config_lines(
        config@,
        match choice {
            Ok(choice) => Ok(choice@),
            Err(error) => Err(error@),
        },
        *facts,
    ));
    lines
}

}
