//! What a configuration holds.

use vstd::prelude::*;
use vstd::string::*;

use crate::config::{
    blank_list, checked_config, command_values, config_of, directory_of, full_path, is_command_safe,
    is_given, lemma_safe_values, nearest, script_path, unsafe_value, with_command_check, ConfigView,
    Interval, Known, Vars,
};
use crate::document::{entry, Entries, TomlView};
use crate::paths::{joined, lemma_parent_is_shorter, parent_of};
use crate::pycompat::{auto_value, user_expanded, words_of};
use crate::world::{Found, QuestionView};

verus! {

/// The value of a key in a section of a document.
pub open spec fn value_at(document: Entries, section: Seq<char>, key: Seq<char>) -> Option<TomlView> {
    match entry(document, section) {
        Some(TomlView::Table(entries)) => entry(entries, key),
        _ => None,
    }
}

/// The text of a key in a section of a document, or a default.
pub open spec fn text_at(
    document: Entries,
    section: Seq<char>,
    key: Seq<char>,
    default: Seq<char>,
) -> Seq<char> {
    match value_at(document, section, key) {
        Some(TomlView::Text(text)) => text,
        _ => default,
    }
}

/// The integer of a key in a section of a document, or a default.
pub open spec fn integer_at(
    document: Entries,
    section: Seq<char>,
    key: Seq<char>,
    default: int,
) -> int {
    match value_at(document, section, key) {
        Some(TomlView::Integer(n)) => n as int,
        _ => default,
    }
}

/// Where no variable overrides it, each setting of the project and its target is
/// the value of its own key in its own section, or its default.
#[verifier::rlimit(60)]
pub proof fn target_settings_come_from_the_file(
    file: Seq<char>,
    document: Entries,
    env: Vars,
    os: Seq<char>,
    world: Known,
)
    ensures
        checked_config(file, document, env, os, world) matches Found::Found(Ok(config)) ==> {
            &&& !env.contains_key("PROGRAM_NAME"@) ==> config.program == text_at(
                document,
                "project"@,
                "program"@,
                ""@,
            )
            &&& !env.contains_key("T32_CPU"@) ==> config.cpu == text_at(
                document,
                "target"@,
                "cpu"@,
                ""@,
            )
            &&& !env.contains_key("T32_CORES"@) ==> config.cores == text_at(
                document,
                "target"@,
                "cores"@,
                "1."@,
            )
            &&& !env.contains_key("T32_MEMACCESS"@) ==> config.mem_access == text_at(
                document,
                "target"@,
                "mem_access"@,
                ""@,
            )
            &&& !env.contains_key("T32_JTAG_CLOCK"@) ==> config.jtag_clock == text_at(
                document,
                "target"@,
                "jtag_clock"@,
                ""@,
            )
            &&& !env.contains_key("T32_DUALPORT"@) ==> config.dual_port == text_at(
                document,
                "target"@,
                "dual_port"@,
                ""@,
            )
        },
{
}

/// Where no variable overrides it, each setting of the operating system on the
/// target and of flashing is the value of its own key in its own section, or its
/// default.
#[verifier::rlimit(60)]
pub proof fn flash_settings_come_from_the_file(
    file: Seq<char>,
    document: Entries,
    env: Vars,
    os: Seq<char>,
    world: Known,
)
    ensures
        checked_config(file, document, env, os, world) matches Found::Found(Ok(config)) ==> {
            &&& config.rtos_config == text_at(document, "rtos"@, "config"@, ""@)
            &&& config.rtos_menu == text_at(document, "rtos"@, "menu"@, ""@)
            &&& config.rtos_show_tasks <==> value_at(document, "rtos"@, "show_tasks"@) == Some(
                TomlView::Boolean(true),
            )
            &&& !is_given(env, "T32_FLASH_CHIP"@) ==> config.flash_chip == text_at(
                document,
                "flash"@,
                "chip"@,
                ""@,
            )
            &&& !env.contains_key("T32_FLASH_SCRIPT"@) ==> config.flash_script == text_at(
                document,
                "flash"@,
                "script"@,
                ""@,
            )
        },
{
}

proof fn lemma_texts_in(items: Seq<TomlView>)
    ensures
        crate::config::texts_in(items) matches Some(texts) ==> texts.len() == items.len() && forall|
            i: int,
        |
            0 <= i < items.len() ==> #[trigger] items[i] == TomlView::Text(texts[i]),
    decreases items.len(),
{
    if items.len() > 0 {
        lemma_texts_in(items.drop_last());
        if let Some(texts) = crate::config::texts_in(items) {
            assert forall|i: int| 0 <= i < items.len() implies #[trigger] items[i]
                == TomlView::Text(texts[i]) by {
                if i < items.len() - 1 {
                    assert(items[i] == items.drop_last()[i]);
                }
            }
        }
    }
}

/// Where no variable overrides them, the arguments of the flash script are the
/// texts of the array in the file, in order, or the words of the command line in
/// it, or none.
#[verifier::rlimit(60)]
pub proof fn flash_arguments_come_from_the_file(
    file: Seq<char>,
    document: Entries,
    env: Vars,
    os: Seq<char>,
    world: Known,
)
    requires
        !env.contains_key("T32_FLASH_ARGS"@),
    ensures
        checked_config(file, document, env, os, world) matches Found::Found(Ok(config)) ==> {
            match value_at(document, "flash"@, "args"@) {
                Some(TomlView::Array(items)) => items.len() == config.flash_args.len() && forall|
                    i: int,
                |
                    0 <= i < items.len() ==> #[trigger] items[i] == TomlView::Text(
                        config.flash_args[i],
                    ),
                Some(TomlView::Text(line)) => words_of(line) == Ok::<_, Seq<char>>(
                    config.flash_args,
                ),
                Some(_) => false,
                None => config.flash_args.len() == 0,
            }
        },
{
    if let Some(TomlView::Array(items)) = value_at(document, "flash"@, "args"@) {
        lemma_texts_in(items);
    }
}

/// Where no variable overrides it, each port and each time limit is the value of
/// its own key, or its default.
#[verifier::rlimit(60)]
pub proof fn numbers_come_from_the_file(
    file: Seq<char>,
    document: Entries,
    env: Vars,
    os: Seq<char>,
    world: Known,
)
    ensures
        checked_config(file, document, env, os, world) matches Found::Found(Ok(config)) ==> {
            &&& !is_given(env, "T32_RCL_PORT"@) ==> config.rcl_port == integer_at(
                document,
                "trace32"@,
                "rcl_port"@,
                20000,
            )
            &&& !is_given(env, "T32_DAP_PORT"@) ==> config.dap_port == integer_at(
                document,
                "trace32"@,
                "dap_port"@,
                58870,
            )
            &&& !is_given(env, "T32_DAP_BACKEND_PORT"@) ==> config.dap_backend_port == integer_at(
                document,
                "trace32"@,
                "dap_backend_port"@,
                58871,
            )
            &&& !is_given(env, "T32_DAP_BACKEND_TIMEOUT"@) ==> config.dap_backend_timeout
                == integer_at(document, "trace32"@, "dap_backend_timeout"@, 30)
            &&& !is_given(env, "T32_TIMEOUT"@) ==> config.operation_timeout == integer_at(
                document,
                "trace32"@,
                "operation_timeout"@,
                600,
            )
        },
{
}

/// The settings of the terminal are the values of their own keys, or their
/// defaults; an address is the number that its text denotes.
#[verifier::rlimit(60)]
pub proof fn terminal_settings_come_from_the_file(
    file: Seq<char>,
    document: Entries,
    env: Vars,
    os: Seq<char>,
    world: Known,
)
    ensures
        checked_config(file, document, env, os, world) matches Found::Found(Ok(config)) ==> {
            &&& !is_given(env, "RTT_SYMBOL"@) ==> config.rtt_symbol == text_at(
                document,
                "rtt"@,
                "symbol"@,
                "_SEGGER_RTT"@,
            )
            &&& config.rtt_control_block_address == (if text_at(
                document,
                "rtt"@,
                "control_block_address"@,
                ""@,
            ).len() == 0 {
                None
            } else {
                match auto_value(text_at(document, "rtt"@, "control_block_address"@, ""@)) {
                    Some(n) => Some(n as u64),
                    None => None,
                }
            })
            &&& config.rtt_control_block_address matches Some(address) ==> auto_value(
                text_at(document, "rtt"@, "control_block_address"@, ""@),
            ) == Some(address as int)
            &&& match value_at(document, "rtt"@, "poll_interval"@) {
                Some(TomlView::Integer(n)) => config.rtt_poll_interval == Interval::Whole(n),
                Some(TomlView::Float(bits)) => config.rtt_poll_interval == Interval::Bits(bits),
                Some(_) => false,
                None => config.rtt_poll_interval == Interval::Bits(0x3F94_7AE1_47AE_147B),
            }
        },
{
    reveal_strlit("");
}

/// A configuration knows its file, the directory of it, and its own directory for
/// running files there; the project lies there too, unless a variable says
/// otherwise, and the program where the file says, seen from the project.
#[verifier::rlimit(60)]
pub proof fn project_paths_come_from_the_file(
    file: Seq<char>,
    document: Entries,
    env: Vars,
    os: Seq<char>,
    world: Known,
)
    ensures
        checked_config(file, document, env, os, world) matches Found::Found(Ok(config)) ==> {
            &&& config.config_file == file
            &&& config.config_dir == directory_of(file)
            &&& config.run_dir == joined(config.config_dir, ".tracebridge"@)
            &&& !is_given(env, "PROJECT_ROOT"@) ==> config.project_dir == config.config_dir
            &&& !is_given(env, "ELF"@) ==> full_path(
                text_at(document, "project"@, "elf"@, ""@),
                config.project_dir,
                env,
                world,
            ) == Found::Found(config.elf)
        },
{
}

/// PowerView lies where the file says, seen from the directory of the file, or in
/// `t32` in the home directory; its programs and files where the file says, or in
/// their places under it.
#[verifier::rlimit(60)]
pub proof fn tool_paths_come_from_the_file(
    file: Seq<char>,
    document: Entries,
    env: Vars,
    os: Seq<char>,
    world: Known,
)
    ensures
        checked_config(file, document, env, os, world) matches Found::Found(Ok(config)) ==> {
            let sys = text_at(document, "trace32"@, "sys"@, ""@);
            let host = text_at(document, "trace32"@, "host"@, ""@);
            let binary = text_at(document, "trace32"@, "binary"@, ""@);
            let own_config = text_at(document, "trace32"@, "config"@, ""@);
            let adapter = text_at(document, "trace32"@, "debug_adapter"@, ""@);
            let executable = if is_given(env, "T32_EXE"@) {
                env["T32_EXE"@]
            } else {
                text_at(document, "trace32"@, "executable"@, "t32marm-qt"@)
            };
            &&& !is_given(env, "T32_SYS"@) && !is_given(env, "T32SYS"@) && sys.len() > 0
                ==> full_path(sys, config.config_dir, env, world) == Found::Found(config.t32_sys)
            &&& !is_given(env, "T32_SYS"@) && !is_given(env, "T32SYS"@) && sys.len() == 0 ==> (
            user_expanded("~"@, env, world) matches Found::Found(home) && full_path(
                joined(home, "t32"@),
                config.config_dir,
                env,
                world,
            ) == Found::Found(config.t32_sys))
            &&& !is_given(env, "T32_HOST"@) && host.len() > 0 ==> config.t32_host == host
            &&& !is_given(env, "T32_HOST"@) && host.len() == 0 ==> (os == "linux"@
                && config.t32_host == "linux64"@) || (os == "macos"@ && config.t32_host
                == "macosx64"@)
            &&& !is_given(env, "T32_BIN"@) ==> (if binary.len() > 0 {
                full_path(binary, config.config_dir, env, world) == Found::Found(
                    config.t32_binary,
                )
            } else {
                config.t32_binary == joined(
                    joined(joined(config.t32_sys, "bin"@), config.t32_host),
                    executable,
                )
            })
            &&& !is_given(env, "T32_CONFIG"@) ==> (if own_config.len() > 0 {
                full_path(own_config, config.config_dir, env, world) == Found::Found(
                    config.t32_config,
                )
            } else {
                config.t32_config == joined(config.t32_sys, "config.t32"@)
            })
            &&& !is_given(env, "T32_DEBUG_ADAPTER"@) ==> (if adapter.len() > 0 {
                full_path(adapter, config.config_dir, env, world) == Found::Found(
                    config.debug_adapter,
                )
            } else {
                config.debug_adapter == joined(
                    joined(joined(config.t32_sys, "demo/env/vscode/bin"@), config.t32_host),
                    "t32debugadapter"@,
                )
            })
        },
{
    reveal_strlit("");
}

/// Whether a value can stand in a command: it holds no quotation mark and no line
/// end.
pub open spec fn is_harmless(value: Seq<char>) -> bool {
    forall|i: int|
        0 <= i < value.len() ==> #[trigger] value[i] != '"' && value[i] != '\n' && value[i]
            != '\r'
}

/// A configuration is accepted only with ports from 1 to 65535, two different ones
/// for the proxy, positive times and a program.
#[verifier::rlimit(60)]
pub proof fn accepted_numbers_are_in_range(
    file: Seq<char>,
    document: Entries,
    env: Vars,
    os: Seq<char>,
    world: Known,
)
    ensures
        checked_config(file, document, env, os, world) matches Found::Found(Ok(config)) ==> {
            &&& config.program.len() > 0
            &&& config.rcl_port != 0 && config.dap_port != 0 && config.dap_backend_port != 0
            &&& config.dap_port != config.dap_backend_port
            &&& config.dap_backend_timeout > 0 && config.operation_timeout > 0
            &&& match config.rtt_poll_interval {
                Interval::Whole(n) => n > 0,
                Interval::Bits(bits) => 0 < bits <= 0x7FF0_0000_0000_0000,
            }
        },
{
}

/// Numbers are complained about only for the reasons that there are: no program,
/// a port that is none, one port for both sides of the proxy, or a time that is not
/// positive.
pub proof fn numbers_in_range_are_accepted(
    program: Seq<char>,
    numbers: crate::config::Numbers,
    poll: Interval,
)
    ensures
        crate::config::complaint(program, numbers, poll) is None <==> {
            &&& program.len() > 0
            &&& 1 <= numbers.rcl_port <= 65535
            &&& 1 <= numbers.dap_port <= 65535
            &&& 1 <= numbers.dap_backend_port <= 65535
            &&& numbers.dap_port != numbers.dap_backend_port
            &&& 1 <= numbers.dap_backend_timeout
            &&& 1 <= numbers.operation_timeout
            &&& match poll {
                Interval::Whole(n) => 1 <= n,
                Interval::Bits(bits) => 0 < bits <= 0x7FF0_0000_0000_0000,
            }
        },
{
}

/// Harmless values are those that can stand in a command.
pub proof fn lemma_harmless(value: Seq<char>)
    ensures
        is_harmless(value) <==> is_command_safe(value),
{
    if is_harmless(value) {
        assert forall|c: char| value.contains(c) implies c != '"' && c != '\n' && c != '\r' by {
            let i = choose|i: int| 0 <= i < value.len() && value[i] == c;
            assert(value[i] == c);
        }
    } else {
        let i = choose|i: int|
            0 <= i < value.len() && !(#[trigger] value[i] != '"' && value[i] != '\n' && value[i]
                != '\r');
        assert(value.contains(value[i]));
    }
}

proof fn lemma_harmless_join(a: Seq<char>, b: Seq<char>)
    ensures
        is_harmless(a + b) <==> is_harmless(a) && is_harmless(b),
{
    let whole = a + b;
    if is_harmless(whole) {
        assert forall|i: int| 0 <= i < a.len() implies #[trigger] a[i] != '"' && a[i] != '\n'
            && a[i] != '\r' by {
            assert(a[i] == whole[i]);
        }
        assert forall|i: int| 0 <= i < b.len() implies #[trigger] b[i] != '"' && b[i] != '\n'
            && b[i] != '\r' by {
            assert(b[i] == whole[a.len() + i]);
        }
    }
}

proof fn lemma_harmless_list(list: Seq<Seq<char>>)
    ensures
        is_harmless(blank_list(list)) <==> forall|i: int|
            0 <= i < list.len() ==> is_harmless(#[trigger] list[i]),
    decreases list.len(),
{
    if list.len() > 0 {
        let rest = list.drop_last();
        lemma_harmless_list(rest);
        reveal_strlit(" ");
        assert(is_harmless(" "@));
        if list.len() > 1 {
            lemma_harmless_join(blank_list(rest) + " "@, list.last());
            lemma_harmless_join(blank_list(rest), " "@);
        }
        assert(list.last() == list[list.len() - 1]);
        if forall|i: int| 0 <= i < list.len() ==> is_harmless(#[trigger] list[i]) {
            assert forall|i: int| 0 <= i < rest.len() implies is_harmless(#[trigger] rest[i]) by {
                assert(rest[i] == list[i]);
            }
        }
        if is_harmless(blank_list(list)) {
            if list.len() == 1 {
                assert(list[0] == list.last());
            }
            assert forall|i: int| 0 <= i < list.len() implies is_harmless(#[trigger] list[i]) by {
                if i < rest.len() {
                    assert(list[i] == rest[i]);
                    assert(is_harmless(rest[i]));
                }
            }
        }
    }
}

/// Whether no value of a configuration that gets into a command can break its
/// quotation there.
pub open spec fn is_harmless_config(config: ConfigView, script: Seq<char>) -> bool {
    &&& is_harmless(config.config_file)
    &&& is_harmless(config.run_dir)
    &&& is_harmless(config.program)
    &&& is_harmless(config.elf)
    &&& is_harmless(config.cpu)
    &&& is_harmless(config.cores)
    &&& is_harmless(config.mem_access)
    &&& is_harmless(config.jtag_clock)
    &&& is_harmless(config.dual_port)
    &&& is_harmless(config.rtos_config)
    &&& is_harmless(config.rtos_menu)
    &&& is_harmless(script)
    &&& forall|i: int|
        0 <= i < config.flash_args.len() ==> is_harmless(#[trigger] config.flash_args[i])
}

/// A configuration passes the last check exactly if no value of it that gets into a
/// command holds a quotation mark or a line end.
pub proof fn harmless_configurations_pass(config: ConfigView, world: Known)
    ensures
        script_path(config, world) matches Found::Found(script) ==> {
            &&& with_command_check(Found::Found(Ok(config)), world) == Found::Found(
                Ok::<_, Seq<char>>(config),
            ) <==> is_harmless_config(config, script)
            &&& !is_harmless_config(config, script) ==> (with_command_check(
                Found::Found(Ok(config)),
                world,
            ) matches Found::Found(Err(_)))
        },
{
    if let Found::Found(script) = script_path(config, world) {
        let values = command_values(config, script);
        lemma_harmless_list(config.flash_args);
        assert forall|v: Seq<char>| is_harmless(v) <==> #[trigger] is_command_safe(v) by {
            lemma_harmless(v);
        }
        if unsafe_value(values) is None {
            lemma_safe_values(values);
            assert(is_command_safe(values[0].1) && is_command_safe(values[1].1));
            assert(is_command_safe(values[2].1) && is_command_safe(values[3].1));
            assert(is_command_safe(values[4].1) && is_command_safe(values[5].1));
            assert(is_command_safe(values[6].1) && is_command_safe(values[7].1));
            assert(is_command_safe(values[8].1) && is_command_safe(values[9].1));
            assert(is_command_safe(values[10].1) && is_command_safe(values[11].1));
            assert(is_command_safe(values[12].1));
        } else if is_harmless_config(config, script) {
            assert forall|i: int| 0 <= i < values.len() implies is_command_safe(
                (#[trigger] values[i]).1,
            ) by {
                assert(is_command_safe(config.config_file) && is_command_safe(config.run_dir));
                assert(is_command_safe(config.program) && is_command_safe(config.elf));
                assert(is_command_safe(config.cpu) && is_command_safe(config.cores));
                assert(is_command_safe(config.mem_access) && is_command_safe(config.jtag_clock));
                assert(is_command_safe(config.dual_port) && is_command_safe(config.rtos_config));
                assert(is_command_safe(config.rtos_menu) && is_command_safe(script));
                assert(is_command_safe(blank_list(config.flash_args)));
            }
            lemma_nothing_unsafe(values);
        }
    }
}

proof fn lemma_nothing_unsafe(values: Seq<(Seq<char>, Seq<char>)>)
    requires
        forall|i: int| 0 <= i < values.len() ==> is_command_safe((#[trigger] values[i]).1),
    ensures
        unsafe_value(values) is None,
    decreases values.len(),
{
    if values.len() > 0 {
        let rest = values.skip(1);
        assert(is_command_safe(values[0].1));
        assert forall|i: int| 0 <= i < rest.len() implies is_command_safe((#[trigger] rest[i]).1) by {
            assert(rest[i] == values[i + 1]);
        }
        lemma_nothing_unsafe(rest);
    }
}

/// An accepted configuration has passed the last check.
#[verifier::rlimit(60)]
pub proof fn accepted_values_are_harmless(
    file: Seq<char>,
    document: Entries,
    env: Vars,
    os: Seq<char>,
    world: Known,
)
    ensures
        checked_config(file, document, env, os, world) matches Found::Found(Ok(config)) ==> (
        script_path(config, world) matches Found::Found(script) && is_harmless_config(
            config,
            script,
        )),
{
    if let Found::Found(Ok(config)) = config_of(file, document, env, os, world) {
        harmless_configurations_pass(config, world);
    }
}

/// Whether a key is missing or holds a text.
pub open spec fn is_text_or_missing(document: Entries, section: Seq<char>, key: Seq<char>) -> bool {
    value_at(document, section, key) matches Some(value) ==> value is Text
}

/// Whether a key is missing or holds an integer.
pub open spec fn is_integer_or_missing(document: Entries, section: Seq<char>, key: Seq<char>) -> bool {
    value_at(document, section, key) matches Some(value) ==> value is Integer
}

/// Whether a section is missing or a table.
pub open spec fn is_table_or_missing(document: Entries, section: Seq<char>) -> bool {
    entry(document, section) matches Some(value) ==> value is Table
}

/// Whether every section is a table.
pub open spec fn has_sections(document: Entries) -> bool {
    &&& is_table_or_missing(document, "project"@)
    &&& is_table_or_missing(document, "target"@)
    &&& is_table_or_missing(document, "flash"@)
    &&& is_table_or_missing(document, "rtos"@)
    &&& is_table_or_missing(document, "trace32"@)
    &&& is_table_or_missing(document, "rtt"@)
}

/// Whether every key of a path or a tool holds a text.
pub open spec fn has_path_texts(document: Entries) -> bool {
    &&& is_text_or_missing(document, "project"@, "elf"@)
    &&& is_text_or_missing(document, "trace32"@, "sys"@)
    &&& is_text_or_missing(document, "trace32"@, "host"@)
    &&& is_text_or_missing(document, "trace32"@, "executable"@)
    &&& is_text_or_missing(document, "trace32"@, "binary"@)
    &&& is_text_or_missing(document, "trace32"@, "config"@)
    &&& is_text_or_missing(document, "trace32"@, "debug_adapter"@)
}

/// Whether every other key of a text holds one.
pub open spec fn has_setting_texts(document: Entries) -> bool {
    &&& is_text_or_missing(document, "project"@, "program"@)
    &&& is_text_or_missing(document, "target"@, "cpu"@)
    &&& is_text_or_missing(document, "target"@, "cores"@)
    &&& is_text_or_missing(document, "target"@, "mem_access"@)
    &&& is_text_or_missing(document, "target"@, "jtag_clock"@)
    &&& is_text_or_missing(document, "target"@, "dual_port"@)
    &&& is_text_or_missing(document, "rtos"@, "config"@)
    &&& is_text_or_missing(document, "rtos"@, "menu"@)
    &&& is_text_or_missing(document, "flash"@, "chip"@)
    &&& is_text_or_missing(document, "flash"@, "script"@)
    &&& is_text_or_missing(document, "rtt"@, "control_block_address"@)
    &&& is_text_or_missing(document, "rtt"@, "symbol"@)
}

/// Whether every key of a number, a truth value or a list holds one.
pub open spec fn has_setting_values(document: Entries) -> bool {
    &&& value_at(document, "rtos"@, "show_tasks"@) matches Some(value) ==> value is Boolean
    &&& value_at(document, "flash"@, "args"@) matches Some(value) ==> match value {
        TomlView::Text(line) => words_of(line) is Ok,
        TomlView::Array(items) => forall|i: int|
            0 <= i < items.len() ==> #[trigger] items[i] is Text,
        _ => false,
    }
    &&& is_integer_or_missing(document, "trace32"@, "rcl_port"@)
    &&& is_integer_or_missing(document, "trace32"@, "dap_port"@)
    &&& is_integer_or_missing(document, "trace32"@, "dap_backend_port"@)
    &&& is_integer_or_missing(document, "trace32"@, "dap_backend_timeout"@)
    &&& is_integer_or_missing(document, "trace32"@, "operation_timeout"@)
    &&& value_at(document, "rtt"@, "poll_interval"@) matches Some(value) ==> value is Integer
        || value is Float
}

/// A document is accepted only where every section is a table and every value has
/// the kind that its key asks for, even where a variable overrides it; and the
/// project has no root of its own.
#[verifier::rlimit(60)]
pub proof fn wrong_kinds_are_rejected(
    file: Seq<char>,
    document: Entries,
    env: Vars,
    os: Seq<char>,
    world: Known,
)
    ensures
        checked_config(file, document, env, os, world) matches Found::Found(Ok(config))
            ==> has_sections(document) && has_path_texts(document) && has_setting_texts(document)
            && has_setting_values(document) && value_at(document, "project"@, "root"@) is None,
{
    if let Some(TomlView::Array(items)) = value_at(document, "flash"@, "args"@) {
        lemma_texts_in(items);
    }
}

proof fn lemma_all_texts(items: Seq<TomlView>)
    requires
        forall|i: int| 0 <= i < items.len() ==> #[trigger] items[i] is Text,
    ensures
        crate::config::texts_in(items) is Some,
    decreases items.len(),
{
    if items.len() > 0 {
        let rest = items.drop_last();
        assert forall|i: int| 0 <= i < rest.len() implies #[trigger] rest[i] is Text by {
            assert(rest[i] == items[i]);
        }
        lemma_all_texts(rest);
        assert(items[items.len() - 1] is Text);
    }
}

/// A document in which every value has its kind is complained about only for its
/// values: without overriding variables, and on a host that is known, nothing but a
/// number out of range, an address that is none, or a missing program keeps it from
/// being accepted.
#[verifier::rlimit(80)]
pub proof fn sound_documents_are_accepted(
    file: Seq<char>,
    document: Entries,
    os: Seq<char>,
    world: Known,
)
    requires
        has_sections(document),
        has_path_texts(document),
        has_setting_texts(document),
        has_setting_values(document),
        value_at(document, "project"@, "root"@) is None,
        os == "linux"@ || os == "macos"@,
        text_at(document, "project"@, "program"@, ""@).len() > 0,
        1 <= integer_at(document, "trace32"@, "rcl_port"@, 20000) <= 65535,
        1 <= integer_at(document, "trace32"@, "dap_port"@, 58870) <= 65535,
        1 <= integer_at(document, "trace32"@, "dap_backend_port"@, 58871) <= 65535,
        integer_at(document, "trace32"@, "dap_port"@, 58870) != integer_at(
            document,
            "trace32"@,
            "dap_backend_port"@,
            58871,
        ),
        1 <= integer_at(document, "trace32"@, "dap_backend_timeout"@, 30),
        1 <= integer_at(document, "trace32"@, "operation_timeout"@, 600),
        text_at(document, "rtt"@, "control_block_address"@, ""@).len() > 0 ==> (auto_value(
            text_at(document, "rtt"@, "control_block_address"@, ""@),
        ) matches Some(n) && 0 <= n <= u64::MAX),
        match value_at(document, "rtt"@, "poll_interval"@) {
            Some(TomlView::Integer(n)) => 1 <= n,
            Some(TomlView::Float(bits)) => 0 < bits <= 0x7FF0_0000_0000_0000,
            _ => true,
        },
    ensures
        !(config_of(file, document, Map::empty(), os, world) matches Found::Found(Err(_))),
{
    reveal_strlit("");
    if let Some(TomlView::Array(items)) = value_at(document, "flash"@, "args"@) {
        lemma_all_texts(items);
    }
}

/// The directory `steps` levels above another, as it is written.
pub open spec fn ancestor(directory: Seq<char>, steps: nat) -> Option<Seq<char>>
    decreases steps,
{
    if steps == 0 {
        Some(directory)
    } else {
        match parent_of(directory) {
            Some(up) => ancestor(up, (steps - 1) as nat),
            None => None,
        }
    }
}

/// Whether a directory is known to hold a configuration file, or known not to.
pub open spec fn holds_config(directory: Seq<char>, world: Known) -> Found<bool> {
    let question = QuestionView::File(joined(directory, "trace32.toml"@));
    if world.contains_key(question) {
        Found::Found(world[question] is Some)
    } else {
        Found::Ask(question)
    }
}

/// The configuration file is searched upwards: the one that is found lies in a
/// directory at or above the one where the search began, and no directory between
/// them has one; none is found only where none has one.
pub proof fn the_nearest_file_is_found(directory: Seq<char>, world: Known) -> (steps: nat)
    ensures
        match nearest(directory, world) {
            Found::Found(Some(candidate)) => (ancestor(directory, steps) matches Some(up)
                && candidate == joined(up, "trace32.toml"@) && holds_config(up, world)
                == Found::Found(true)),
            Found::Found(None) => ancestor(directory, steps) is None,
            Found::Ask(question) => (ancestor(directory, steps) matches Some(up) && holds_config(
                up,
                world,
            ) == Found::<bool>::Ask(question)),
        },
        forall|k: nat|
            k < steps ==> (#[trigger] ancestor(directory, k) matches Some(up) && holds_config(
                up,
                world,
            ) == Found::Found(false)),
    decreases directory.len(),
{
    lemma_parent_is_shorter(directory);
    if holds_config(directory, world) != Found::Found(false) {
        0
    } else {
        match parent_of(directory) {
            None => {
                assert(ancestor(directory, 1) is None);
                assert forall|k: nat| k < 1 implies (#[trigger] ancestor(directory, k) matches Some(
                    up,
                ) && holds_config(up, world) == Found::Found(false)) by {}
                1
            },
            Some(up) => {
                let inner = the_nearest_file_is_found(up, world);
                let steps = inner + 1;
                assert(ancestor(directory, steps) == ancestor(up, inner));
                assert forall|k: nat| k < steps implies (#[trigger] ancestor(
                    directory,
                    k,
                ) matches Some(at) && holds_config(at, world) == Found::Found(false)) by {
                    if k > 0 {
                        assert(ancestor(directory, k) == ancestor(up, (k - 1) as nat));
                    }
                }
                steps
            },
        }
    }
}

}
