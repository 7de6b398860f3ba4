//! What the reports for a user say.

use vstd::prelude::*;
use vstd::string::*;

use crate::cli::{
    chip_headline, chip_lines, config_lines, described, library_count, script_line, settings_note,
    settings_view, ConfigFacts,
};
use crate::config::{blank_list, ConfigView};
use crate::flash::{chosen, is_related, related, ChoiceView, ScriptView, Source};
use crate::paths::components_of;
use crate::t32config::RclSettingsView;
use crate::text::{decimal_text, has_text, occurs_at, uppercase};

verus! {

/// A text between two others stands in what they make together.
pub proof fn lemma_has_middle(a: Seq<char>, b: Seq<char>, c: Seq<char>)
    ensures
        has_text(a + b + c, b),
{
    assert((a + b + c).subrange(a.len() as int, a.len() + b.len() as int) =~= b);
    assert(occurs_at(a + b + c, b, a.len() as int));
}

/// Whether a line reports on a path: it begins with the name of what is found, or of
/// what is missing, and ends with the path.
pub open spec fn reports_path(
    line: Seq<char>,
    found: bool,
    name: Seq<char>,
    path: Seq<char>,
) -> bool {
    if found {
        line == "  ok      "@ + name + "="@ + path
    } else {
        line == "  MISSING "@ + name + "="@ + path
    }
}

/// The report on a configuration tells of each path whether it is there, in a fixed
/// order, and gives the ports and the directory of the run.
pub proof fn each_path_is_reported(
    config: ConfigView,
    choice: Result<ChoiceView, Seq<char>>,
    facts: ConfigFacts,
)
    ensures
        ({
            let lines = config_lines(config, choice, facts);
            &&& lines.len() >= 8
            &&& reports_path(lines[0], facts.project, "project"@, config.project_dir)
            &&& reports_path(lines[1], facts.elf, "ELF"@, config.elf)
            &&& reports_path(lines[2], facts.binary, "T32_BIN"@, config.t32_binary)
            &&& reports_path(lines[3], facts.config, "T32_CONFIG"@, config.t32_config)
            &&& reports_path(lines[4], facts.adapter, "T32_DEBUG_ADAPTER"@, config.debug_adapter)
            &&& has_text(lines[6], "RCL "@ + decimal_text(config.rcl_port as nat) + ","@)
            &&& has_text(lines[6], "DAP "@ + decimal_text(config.dap_port as nat) + " "@)
            &&& has_text(
                lines[6],
                "t32debugadapter "@ + decimal_text(config.dap_backend_port as nat) + ")"@,
            )
            &&& lines[7] == "  run     "@ + config.run_dir
            &&& facts.exe matches Some(exe) ==> lines.len() >= 9 && lines[8] == "  exe     "@ + exe@
        }),
{
    reveal_strlit("  ");
    reveal_strlit("ok     ");
    reveal_strlit("MISSING");
    reveal_strlit(" ");
    reveal_strlit("  ok      ");
    reveal_strlit("  MISSING ");
    let lines = config_lines(config, choice, facts);
    assert("  "@ + "ok     "@ + " "@ =~= "  ok      "@);
    assert("  "@ + "MISSING"@ + " "@ =~= "  MISSING "@);
    reveal_strlit("  ports   RCL ");
    reveal_strlit("  ports   ");
    reveal_strlit("RCL ");
    reveal_strlit(", DAP ");
    reveal_strlit("DAP ");
    reveal_strlit(",");
    reveal_strlit(" (t32debugadapter ");
    reveal_strlit("t32debugadapter ");
    reveal_strlit(")");
    let line = lines[6];
    let a = decimal_text(config.rcl_port as nat);
    let b = decimal_text(config.dap_port as nat);
    let c = decimal_text(config.dap_backend_port as nat);
    let rcl = "RCL "@ + a + ","@;
    let dap = "DAP "@ + b + " "@;
    let adapter = "t32debugadapter "@ + c + ")"@;
    let n = "  ports   "@.len() as int;
    assert(line.subrange(n, n + rcl.len()) =~= rcl);
    assert(occurs_at(line, rcl, n));
    let m = n + rcl.len() + 1;
    assert(line.subrange(m, m + dap.len()) =~= dap);
    assert(occurs_at(line, dap, m));
    let k = line.len() - adapter.len();
    assert(line.subrange(k, k + adapter.len()) =~= adapter);
    assert(occurs_at(line, adapter, k));
}

/// The script is reported as missing exactly if none could be chosen, for the reason
/// that there was, or if the one that is named is not there.
pub proof fn the_script_is_reported(
    config: ConfigView,
    choice: Result<ChoiceView, Seq<char>>,
    facts: ConfigFacts,
)
    ensures
        ({
            let line = config_lines(config, choice, facts)[5];
            match choice {
                Err(error) => line == "  MISSING flash script: "@ + error,
                Ok(ChoiceView::Explicit(script)) => reports_path(
                    line,
                    facts.script,
                    "flash script"@,
                    script + " (flash.script)"@,
                ),
                Ok(ChoiceView::Chip { chip, pattern, script }) => line
                    == "  ok      flash script="@ + described(choice->Ok_0) && has_text(
                    line,
                    script.path,
                ) && has_text(line, " for "@ + chip + ", @Chip "@ + pattern + ")"@),
            }
        }),
{
    reveal_strlit("  ");
    reveal_strlit("ok     ");
    reveal_strlit("MISSING");
    reveal_strlit(" ");
    reveal_strlit("  ok      ");
    reveal_strlit("  MISSING ");
    reveal_strlit(" flash script=");
    reveal_strlit("flash script");
    reveal_strlit("=");
    reveal_strlit("  ok      flash script=");
    assert("  "@ + "ok     "@ + " flash script="@ =~= "  ok      flash script="@);
    assert("  "@ + "ok     "@ + " flash script="@ =~= "  ok      "@ + "flash script"@ + "="@);
    assert("  "@ + "MISSING"@ + " flash script="@ =~= "  MISSING "@ + "flash script"@ + "="@);
    let line = config_lines(config, choice, facts)[5];
    if let Ok(found) = choice {
        assert("  "@ + "ok     "@ + " flash script="@ + described(found)
            =~= "  ok      flash script="@ + described(found));
        if let ChoiceView::Chip { chip, pattern, script } = found {
            reveal_strlit(" script for ");
            reveal_strlit(" for ");
            let head = "  ok      flash script="@;
            let end = " for "@ + chip + ", @Chip "@ + pattern + ")"@;
            let n = head.len() as int;
            assert(line.subrange(n, n + script.path.len()) =~= script.path);
            assert(occurs_at(line, script.path, n));
            let m = line.len() - end.len();
            assert(line.subrange(m, m + end.len()) =~= end);
            assert(occurs_at(line, end, m));
        }
    }
}

/// A note on the settings of PowerView comes exactly if they do not fit: where there
/// are none, where the protocol is another, and where the port is.
pub proof fn settings_that_fit_need_no_note(settings: Option<RclSettingsView>, port: u16)
    ensures
        settings_note(settings, port).len() == 0 <==> (settings matches Some(found) && uppercase(
            found.protocol,
        ) == "NETTCP"@ && found.port == Some(port)),
        settings is None ==> settings_note(settings, port).len() == 1 && has_text(
            settings_note(settings, port)[0],
            "TCP:"@ + decimal_text(port as nat),
        ),
        settings matches Some(found) ==> uppercase(found.protocol) != "NETTCP"@ ==> settings_note(
            settings,
            port,
        ).len() == 1 && has_text(settings_note(settings, port)[0], "RCL="@ + found.protocol),
        settings matches Some(found) ==> uppercase(found.protocol) == "NETTCP"@ ==> (found.port
            matches Some(other) ==> other != port ==> settings_note(settings, port).len() == 1
            && has_text(settings_note(settings, port)[0], "PORT="@ + decimal_text(other as nat))
            && has_text(settings_note(settings, port)[0], "rcl_port "@ + decimal_text(
            port as nat,
        ))),
{
    let digits = decimal_text(port as nat);
    match settings {
        None => {
            reveal_strlit(
                "  note    config.t32 does not enable the Remote API; tracebridge adds --t32-api-rcl=TCP:",
            );
            reveal_strlit("TCP:");
            let line = settings_note(settings, port)[0];
            let n =
                "  note    config.t32 does not enable the Remote API; tracebridge adds --t32-api-rcl=TCP:"@.len()
                - 4;
            let part = "TCP:"@ + digits;
            assert(line.subrange(n, n + part.len()) =~= part);
            assert(occurs_at(line, part, n));
        },
        Some(found) => {
            let line = settings_note(settings, port)[0];
            if uppercase(found.protocol) != "NETTCP"@ {
                reveal_strlit("  WARN    config.t32 has RCL=");
                reveal_strlit("RCL=");
                let n = "  WARN    config.t32 has RCL="@.len() - 4;
                let part = "RCL="@ + found.protocol;
                assert(line.subrange(n, n + part.len()) =~= part);
                assert(occurs_at(line, part, n));
            } else if let Some(other) = found.port {
                if other != port {
                    reveal_strlit("  WARN    config.t32 PORT=");
                    reveal_strlit("PORT=");
                    reveal_strlit(" differs from trace32.rcl_port ");
                    reveal_strlit("rcl_port ");
                    let n = "  WARN    config.t32 PORT="@.len() - 5;
                    let part = "PORT="@ + decimal_text(other as nat);
                    assert(line.subrange(n, n + part.len()) =~= part);
                    assert(occurs_at(line, part, n));
                    let end = "rcl_port "@ + digits;
                    let m = line.len() - end.len();
                    assert(line.subrange(m, m + end.len()) =~= end);
                    assert(occurs_at(line, end, m));
                }
            }
        },
    }
}

/// The note on the settings ends the report where they were looked at; otherwise none
/// comes.
pub proof fn the_note_ends_the_report(
    config: ConfigView,
    choice: Result<ChoiceView, Seq<char>>,
    facts: ConfigFacts,
)
    ensures
        ({
            let lines = config_lines(config, choice, facts);
            let fixed: int = if facts.exe is Some {
                9
            } else {
                8
            };
            match facts.settings {
                None => lines.len() == fixed,
                Some(settings) => lines.skip(fixed) == settings_note(
                    settings_view(settings),
                    config.rcl_port,
                ),
            }
        }),
{
    let lines = config_lines(config, choice, facts);
    if let Some(settings) = facts.settings {
        let fixed: int = if facts.exe is Some {
            9
        } else {
            8
        };
        assert(lines.skip(fixed) =~= settings_note(settings_view(settings), config.rcl_port));
    }
}

proof fn lemma_related(scripts: Seq<ScriptView>, query: Seq<char>)
    ensures
        related(scripts, query).len() <= scripts.len(),
        related(scripts, query) == scripts.filter(|script: ScriptView| is_related(script, query)),
    decreases scripts.len(),
{
    reveal(Seq::filter);
    if scripts.len() > 0 {
        lemma_related(scripts.drop_last(), query);
    }
}

proof fn lemma_library(scripts: Seq<ScriptView>)
    ensures
        library_count(scripts) == scripts.filter(
            |script: ScriptView| script.source == Source::Library,
        ).len(),
    decreases scripts.len(),
{
    reveal(Seq::filter);
    if scripts.len() > 0 {
        lemma_library(scripts.drop_last());
    }
}

/// The report on a chip lists the related scripts in their order, up to forty, and
/// tells how many more there are; it counts the scripts of the library and says how
/// the chip is configured.
pub proof fn related_scripts_are_listed(
    query: Seq<char>,
    scripts: Seq<ScriptView>,
    library: Seq<char>,
    sys: Seq<char>,
    i: int,
)
    ensures
        ({
            let found = scripts.filter(|script: ScriptView| is_related(script, query));
            let lines = chip_lines(query, scripts, library, sys);
            let n = lines.len();
            &&& found.len() == 0 ==> n == 3
            &&& 0 < found.len() <= 40 ==> n == found.len() + 4
            &&& found.len() > 40 ==> n == 45 && lines[41] == "  ... "@ + decimal_text(
                (found.len() - 40) as nat,
            ) + " more; narrow the query"@
            &&& 0 <= i < found.len() && i < 40 ==> has_text(lines[i + 1], found[i].path)
                && has_text(lines[i + 1], blank_list(found[i].chips)) && (has_text(
                lines[i + 1],
                "(no PREPAREONLY)"@,
            ) || found[i].prepare_only)
            &&& has_text(
                lines[n - 2],
                library + " ("@ + decimal_text(
                    scripts.filter(|script: ScriptView| script.source == Source::Library).len(),
                ) + " scripts)"@,
            )
            &&& has_text(lines[n - 1], "flash.chip = \""@ + query + "\""@)
        }),
{
    lemma_related(scripts, query);
    lemma_library(scripts);
    let found = related(scripts, query);
    let lines = chip_lines(query, scripts, library, sys);
    let n = lines.len();
    if 0 <= i < found.len() && i < 40 {
        let script = found[i];
        let marked = crate::cli::is_chosen(chosen(query, scripts), script);
        let line = script_line(script, marked);
        assert(lines[i + 1] == line);
        let end: Seq<char> = if script.prepare_only {
            ""@
        } else {
            "  (no PREPAREONLY)"@
        };
        let front = "  "@ + (if marked {
            "*"@
        } else {
            " "@
        }) + " "@ + crate::cli::padded(script.source.text(), 8) + " "@;
        let chips = blank_list(script.chips);
        let filled = crate::cli::padded(chips, 28);
        let head = front + filled + " "@;
        assert(line == head + script.path + end);
        lemma_has_middle(head, script.path, end);
        assert(line.subrange(front.len() as int, (front.len() + chips.len()) as int) =~= chips);
        assert(occurs_at(line, chips, front.len() as int));
        if !script.prepare_only {
            reveal_strlit("  (no PREPAREONLY)");
            reveal_strlit("(no PREPAREONLY)");
            let part = "(no PREPAREONLY)"@;
            let at = line.len() - part.len();
            assert(line.subrange(at, at + part.len()) =~= part);
            assert(occurs_at(line, part, at));
        }
    }
    let count = decimal_text(library_count(scripts));
    let summary = lines[n - 2];
    let part = library + " ("@ + count + " scripts)"@;
    reveal_strlit(" scripts); TRACE32: ");
    reveal_strlit(" scripts)");
    let at = "  library: "@.len() as int;
    assert(summary.subrange(at, at + part.len()) =~= part);
    assert(occurs_at(summary, part, at));
    let advice = lines[n - 1];
    let wanted = "flash.chip = \""@ + query + "\""@;
    reveal_strlit("  Use it with flash.chip = \"");
    reveal_strlit("flash.chip = \"");
    reveal_strlit("\"");
    reveal_strlit("\" in trace32.toml or 'tracebridge flash --chip ");
    let k = "  Use it with flash.chip = \""@.len() - "flash.chip = \""@.len();
    assert(advice.subrange(k, k + wanted.len()) =~= wanted);
    assert(occurs_at(advice, wanted, k));
}

/// Exactly the script that the chip gets is marked with a star: that whose path has
/// the same steps. Where the chip gets none, none is marked.
pub proof fn the_chosen_script_is_marked(
    query: Seq<char>,
    scripts: Seq<ScriptView>,
    library: Seq<char>,
    sys: Seq<char>,
    i: int,
)
    requires
        ({
            let found = scripts.filter(|script: ScriptView| is_related(script, query));
            0 <= i < found.len() && i < 40
        }),
    ensures
        ({
            let found = scripts.filter(|script: ScriptView| is_related(script, query));
            let lines = chip_lines(query, scripts, library, sys);
            let star = lines[i + 1][2] == '*';
            match chosen(query, scripts) {
                Ok((pattern, best)) => star <==> components_of(best.path) == components_of(
                    found[i].path,
                ),
                Err(_) => !star,
            }
        }),
{
    lemma_related(scripts, query);
    let found = related(scripts, query);
    let lines = chip_lines(query, scripts, library, sys);
    let marked = crate::cli::is_chosen(chosen(query, scripts), found[i]);
    assert(lines[i + 1] == script_line(found[i], marked));
    reveal_strlit("  ");
    reveal_strlit("*");
    reveal_strlit(" ");
}

/// The headline names the chip and either the script and the pattern by which it was
/// chosen, or the reason why there is none.
pub proof fn the_headline_names_the_script(
    query: Seq<char>,
    choice: Result<(Seq<char>, ScriptView), Seq<char>>,
)
    ensures
        match choice {
            Ok((pattern, script)) => has_text(
                chip_headline(query, choice),
                query + ": "@ + script.path + " ("@,
            ) && has_text(chip_headline(query, choice), "@Chip "@ + pattern + ")"@),
            Err(error) => chip_headline(query, choice) == query + ": "@ + error,
        },
{
    if let Ok((pattern, script)) = choice {
        let line = chip_headline(query, choice);
        reveal_strlit(" script, @Chip ");
        reveal_strlit("@Chip ");
        let head = query + ": "@ + script.path + " ("@;
        assert(line.subrange(0, head.len() as int) =~= head);
        assert(occurs_at(line, head, 0));
        let end = "@Chip "@ + pattern + ")"@;
        let at = line.len() - end.len();
        assert(line.subrange(at, at + end.len()) =~= end);
        assert(occurs_at(line, end, at));
    }
}

}
