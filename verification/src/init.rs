//! The configuration file that a new project starts with.

use vstd::prelude::*;
use vstd::string::*;

use crate::errors::BridgeError;
use crate::paths::{file_name, file_name_of};
use crate::text::{chars_of, concat2, concat4, replace, replaced, string_of};

verus! {

/// The configuration file, with a token in place of the program name.
pub const TEMPLATE: &'static str = "# tracebridge configuration. The directory that holds this file is the project
# root; every relative path below is relative to it.

[project]
# Name of the program in TRACE32, as in \\\\program\\module\\symbol.
program = \"__PROGRAM__\"
elf = \"build/__PROGRAM__.elf\"

[target]
# SYStem.CPU and CORE.ASSIGN. Empty values are not set.
cpu = \"\"
cores = \"1.\"
mem_access = \"\"
jtag_clock = \"\"
dual_port = \"\"

[rtos]
# RTOS awareness, e.g. ~~/demo/arm/kernel/freertos/freertos.t32. Empty: none.
config = \"\"
menu = \"\"
show_tasks = true

[flash]
# Chip name for choosing a script (default: target.cpu), or the script itself.
# The script must support PREPAREONLY.
chip = \"\"
script = \"\"
args = [\"DUALPORT=1\", \"JTAG_CLOCK=10MHz\"]

[trace32]
# Installation directory (default: ~/t32) and remote control settings.
sys = \"\"
host = \"\"
executable = \"t32marm-qt\"
binary = \"\"
config = \"\"
debug_adapter = \"\"
rcl_port = 20000
dap_port = 58870
dap_backend_port = 58871
dap_backend_timeout = 30
operation_timeout = 600

[rtt]
symbol = \"_SEGGER_RTT\"
# Empty: look the symbol up. Otherwise an address such as \"0x20000000\".
control_block_address = \"\"
poll_interval = 0.02
";

/// A character of a program name; what cannot stand there becomes an underscore.
pub open spec fn name_char(c: char) -> char {
    if ('a' <= c && c <= 'z') || ('A' <= c && c <= 'Z') || ('0' <= c && c <= '9') || c == '_' || c
        == '-' {
        c
    } else {
        '_'
    }
}

/// The program name that a directory suggests.
pub open spec fn program_name(directory: Seq<char>) -> Seq<char> {
    match file_name_of(directory) {
        Some(name) => if name.len() > 0 {
            name.map_values(|c: char| name_char(c))
        } else {
            "app"@
        },
        None => "app"@,
    }
}

fn suggest_name(directory: &str) -> (result: String)
    ensures
        result@ == program_name(directory@),
{
    match file_name(directory) {
        Some(name) => {
            let s = chars_of(&name);
            if s.len() == 0 {
                return "app".to_owned();
            }
            let mut out: Vec<char> = Vec::new();
            let mut i: usize = 0;
            while i < s.len()
                invariant
                    i <= s@.len(),
                    out@ == s@.take(i as int).map_values(|c: char| name_char(c)),
                decreases s@.len() - i,
            {
                let c: char = s[i];
                let kept = ('a' <= c && c <= 'z') || ('A' <= c && c <= 'Z') || ('0' <= c && c
                    <= '9') || c == '_' || c == '-';
                out.push(
                    if kept {
                        c
                    } else {
                        '_'
                    },
                );
                i = i + 1;
                assert(out@ =~= s@.take(i as int).map_values(|c: char| name_char(c)));
            }
            assert(s@.take(i as int) =~= s@);
            string_of(&out)
        },
        None => "app".to_owned(),
    }
}

/// The configuration file for a directory.
pub fn render(directory: &str) -> (text: String)
    ensures
        text@ == replaced(TEMPLATE@, "__PROGRAM__"@, program_name(directory@)),
{
    let name = suggest_name(directory);
    string_of(&replace(&chars_of(TEMPLATE), &chars_of("__PROGRAM__"), &chars_of(&name)))
}

/// The complaint about a file that could not be created; one that is there is
/// never overwritten.
pub fn not_created(path: &str, exists: bool, error: &str) -> (result: BridgeError)
    ensures
        result@ == (if exists {
            path@ + " already exists; refusing to overwrite it"@
        } else {
            "cannot create "@ + path@ + ": "@ + error@
        }),
{
    if exists {
        BridgeError(concat2(path, " already exists; refusing to overwrite it"))
    } else {
        BridgeError(concat4("cannot create ", path, ": ", error))
    }
}

}
