//! What the commands start, write and report.

use vstd::prelude::*;
use vstd::string::*;

use crate::cli::{adapter_state, with_flash_options, AdapterStart};
use crate::config::{ConfigView, Known, Vars};
use crate::dap::proxy::adapter_line;
use crate::flash::{choice_for, chosen, ChoiceView, ScriptView};
use crate::laws::config::is_harmless;
use crate::laws::header::scripts_are_chosen_by_chip;
use crate::powerview::start_arguments;
use crate::rustrover::installation;
use crate::t32rcl::error::{io_error, ErrorView, IoKind};
use crate::text::{decimal_round_trip, decimal_text};
use crate::vscode::installer::backup_text;
use crate::world::Found;

verus! {

/// A chip on the command line takes the place of the script and of the chip in the
/// configuration: the script that is used is the one for that chip.
pub proof fn chips_on_the_command_line_count(
    config: ConfigView,
    env: Vars,
    scripts: Seq<ScriptView>,
    world: Known,
    chip: Seq<char>,
)
    requires
        chip.len() > 0,
    ensures
        ({
            let choice = choice_for(
                with_flash_options(config, Some(chip), None),
                env,
                scripts,
                world,
            );
            match chosen(chip, scripts) {
                Ok((pattern, script)) => is_harmless(script.path) ==> choice == Found::Found(
                    Ok::<_, Seq<char>>(ChoiceView::Chip { chip, pattern, script }),
                ),
                Err(_) => !(choice matches Found::Found(Ok(_))),
            }
        }),
{
    let changed = with_flash_options(config, Some(chip), None);
    scripts_are_chosen_by_chip(changed, env, scripts, world, chip);
}

/// A script on the command line is used, whatever chip is given with it; without
/// options, and but for the script and the chip, the configuration stays as it is.
pub proof fn scripts_on_the_command_line_count(
    config: ConfigView,
    chip: Option<Seq<char>>,
    script: Seq<char>,
)
    ensures
        with_flash_options(config, chip, Some(script)).flash_script == script,
        chip is None ==> with_flash_options(config, chip, Some(script)) == (ConfigView {
            flash_script: script,
            ..config
        }),
        with_flash_options(config, None, None) == config,
        with_flash_options(config, chip, Some(script)) == (ConfigView {
            flash_script: script,
            flash_chip: with_flash_options(config, chip, Some(script)).flash_chip,
            ..config
        }),
{
}

/// An adapter that listens is left alone; one that does not is started only where
/// PowerView is there.
pub proof fn adapters_need_powerview(dap_open: bool, rcl_open: bool)
    ensures
        adapter_state(dap_open, rcl_open) == AdapterStart::Start <==> !dap_open && rcl_open,
        adapter_state(dap_open, rcl_open) == AdapterStart::Running <==> dap_open,
        adapter_state(dap_open, rcl_open) == AdapterStart::NoPowerView <==> !dap_open && !rcl_open,
{
}

/// PowerView gets its own configuration, and the port of the remote control exactly
/// if that configuration does not enable it.
pub proof fn powerview_gets_its_port_where_needed(config: ConfigView)
    ensures
        start_arguments(config, true).len() == 2,
        start_arguments(config, false).len() == 3,
        start_arguments(config, false).take(2) == start_arguments(config, true),
        start_arguments(config, true)[0] == "-c"@,
        start_arguments(config, true)[1] == config.t32_config,
        start_arguments(config, false)[2] == "--t32-api-rcl=TCP:"@ + decimal_text(
            config.rcl_port as nat,
        ),
{
    assert(start_arguments(config, false).take(2) =~= start_arguments(config, true));
}

/// The debug adapter is told its port and where to log; talking much only adds to
/// that.
pub proof fn the_adapter_is_told_its_port(port: u16, verbose: bool)
    ensures
        adapter_line(port, verbose)[0] == "--port"@,
        adapter_line(port, verbose)[1] == decimal_text(port as nat),
        adapter_line(port, verbose)[2] == "--log_to"@,
        adapter_line(port, verbose)[3] == "stdout"@,
        adapter_line(port, false).len() == 4,
        adapter_line(port, true).skip(4) == seq!["--log_level"@, "debug"@],
{
    assert(adapter_line(port, true).skip(4) =~= seq!["--log_level"@, "debug"@]);
}

/// A file is written unless it is there with the same text already; it is replaced
/// only where it is there.
pub proof fn files_are_written_unless_they_are_the_same(
    exists: bool,
    current: Option<Seq<char>>,
    contents: Seq<char>,
)
    ensures
        installation(exists, current, contents) is Create <==> !exists,
        installation(exists, current, contents) is Unchanged <==> exists && current == Some(
            contents,
        ),
        installation(exists, current, contents) is Replace <==> exists && current != Some(contents),
{
}

/// Backups with different numbers have different names, and each begins with the name
/// of its file.
pub proof fn backups_have_their_own_names(
    name: Seq<char>,
    timestamp: Seq<char>,
    one: u64,
    two: u64,
)
    ensures
        one != two ==> backup_text(name, timestamp, one) != backup_text(name, timestamp, two),
        name.is_prefix_of(backup_text(name, timestamp, one)),
        backup_text(name, timestamp, 0) == name + ".bak."@ + timestamp,
{
    reveal_strlit(".");
    let head = name + ".bak."@ + timestamp;
    let first = backup_text(name, timestamp, one);
    let second = backup_text(name, timestamp, two);
    assert(head + seq![] =~= head);
    assert(first.subrange(0, name.len() as int) =~= name);
    if one != two && first == second {
        decimal_round_trip(one as nat);
        decimal_round_trip(two as nat);
        assert(first.skip(head.len() as int + 1) == second.skip(head.len() as int + 1));
        if one != 0 {
            assert(first.skip(head.len() as int + 1) =~= decimal_text(one as nat));
        }
        if two != 0 {
            assert(second.skip(head.len() as int + 1) =~= decimal_text(two as nat));
        }
        assert(one == 0 || two == 0);
        assert(first.len() != second.len());
    }
}

/// A socket operation that takes too long is told apart from one that fails.
pub proof fn timeouts_are_told_apart(kind: IoKind, text: Seq<char>)
    ensures
        io_error(kind, text) is Timeout <==> kind == IoKind::TimedOut || kind
            == IoKind::WouldBlock,
        kind == IoKind::Other ==> io_error(kind, text) == ErrorView::Connect(text),
{
}

}
