//! The configuration, flash scripts, target sequences and PowerView of a project.

use std::collections::VecDeque;

use tracebridge::cli::{
    action_texts, adapter_start, apply_flash_options, describe, no_powerview, report_chips,
    report_config, status, AdapterStart, ConfigFacts,
};
use tracebridge::config::{
    find_config_file, host_default, load_config, load_document, parent_directory, Config,
    FileContent, Interval,
};
use tracebridge::document::Toml;
use tracebridge::errors::BridgeError;
use tracebridge::flash::{
    best_pattern, catalog, choose_script, cmm_files, glob_match, library_dir, read_script, resolve,
    search, sort_paths, Choice, Script, ScriptFile, Source,
};
use tracebridge::paths::{extension, file_name, file_stem, join, parent, same_path};
use tracebridge::powerview::{
    check_executable_path, powerview_arguments, require_file, toolbar_command, toolbar_failed,
    StartEvent, StartStage, ToolbarConnect, Wait, WaitEvent, WaitStage, TOOLBAR_CMM,
};
use tracebridge::pycompat::{expandvars, expanduser, parse_decimal, parse_int_auto, shlex_split};
use tracebridge::remote::{reset_and_stop_with, unconnected, Rcl};
use tracebridge::t32config::{parse_rcl_settings, RclSettings};
use tracebridge::t32rcl::error::{Error, Span};
use tracebridge::target::{
    program, run_sequence, setup_debug, timeout_unset, validate_target_action, Action,
};
use tracebridge::world::{Env, Lookup, Question, World};

fn env(pairs: &[(&str, &str)]) -> Env {
    let mut env = Env::new();
    for (name, value) in pairs {
        env.insert(name, value);
    }
    env
}

/// What exists in the world of a test.
#[derive(Default, Clone)]
struct Files {
    files: Vec<String>,
    executables: Vec<String>,
    directories: Vec<String>,
    links: Vec<(String, String)>,
    home: Option<String>,
}

impl Files {
    fn answer(&self, question: &Question) -> Option<String> {
        let listed = |list: &[String], path: &String| list.contains(path).then_some(String::new());
        match question {
            Question::Link(path) => self
                .links
                .iter()
                .find(|(link, _)| link == path)
                .map(|(_, target)| target.clone()),
            Question::Directory(path) => listed(&self.directories, path),
            Question::File(path) => listed(&self.files, path),
            Question::Executable(path) => listed(&self.executables, path),
            Question::Home(_) => None,
            Question::OwnHome => self.home.clone(),
        }
    }

    /// Calls until every question has been answered.
    fn settle<T>(&self, mut call: impl FnMut(&World) -> Lookup<T>) -> T {
        let mut world = World::new();
        loop {
            match call(&world) {
                Lookup::Found(value) => return value,
                Lookup::Ask(question) => {
                    let answer = self.answer(&question);
                    world.learn(question, answer);
                }
            }
        }
    }
}

fn resolve_path(path: &str, base: &str, files: &Files) -> String {
    files.settle(|world| tracebridge::paths::resolve(path, base, world))
}

const CONFIG: &str = r#"
[project]
program = "demo"
elf = "build/demo.elf"

[target]
cpu = "CORTEXM4"
cores = "1."
mem_access = "AXI"
jtag_clock = "10MHz"
dual_port = "ON"

[flash]
script = "flash.cmm"
args = ["CPU=DEMO", "DUALPORT=1"]

[trace32]
sys = "fake-t32"
rcl_port = 20000
dap_port = 58870
dap_backend_port = 58871

[rtt]
symbol = "_SEGGER_RTT"
control_block_address = "0x20001000"
poll_interval = 0.05
"#;

/// A project in `/work/project`.
struct Fixture {
    source: String,
    files: Files,
}

const ROOT: &str = "/work/project";

impl Fixture {
    fn new(source: &str) -> Fixture {
        let files = Files {
            files: vec![
                format!("{ROOT}/flash.cmm"),
                format!("{ROOT}/trace32.toml"),
            ],
            directories: vec![ROOT.into(), format!("{ROOT}/build")],
            ..Files::default()
        };
        Fixture {
            source: source.into(),
            files,
        }
    }

    fn replaced(from: &str, to: &str) -> Fixture {
        Fixture::new(&CONFIG.replace(from, to))
    }

    fn load(&self, pairs: &[(&str, &str)]) -> Result<Config, BridgeError> {
        let mut vars = env(&[("HOME", "/nonexistent-tb-home")]);
        for (name, value) in pairs {
            vars.insert(name, value);
        }
        let content = FileContent::Bytes(self.source.clone().into_bytes());
        let file = format!("{ROOT}/trace32.toml");
        self.files
            .settle(|world| load_config(&file, &content, &vars, "linux", world))
    }

    fn script(&self, config: &Config) -> String {
        self.files.settle(|world| config.resolved_flash_script(world))
    }

    fn script_exists(&self, config: &Config) -> bool {
        self.files.settle(|world| config.flash_script_exists(world))
    }
}

fn seconds(interval: Interval) -> f64 {
    match interval {
        Interval::Whole(n) => n as f64,
        Interval::Bits(bits) => f64::from_bits(bits),
    }
}

#[test]
fn loads_typed_configuration_and_resolves_paths() {
    let fixture = Fixture::new(CONFIG);
    let config = fixture.load(&[]).unwrap();
    assert_eq!(config.project_dir, ROOT);
    assert_eq!(config.config_dir, ROOT);
    assert_eq!(config.run_dir, format!("{ROOT}/.tracebridge"));
    assert_eq!(config.elf, format!("{ROOT}/build/demo.elf"));
    assert_eq!(config.rtt_control_block_address, Some(0x2000_1000));
    assert_eq!(config.flash_args, ["CPU=DEMO", "DUALPORT=1"]);
    assert_eq!(fixture.script(&config), format!("{ROOT}/flash.cmm"));
    assert!(fixture.script_exists(&config));
    assert_eq!(config.t32_sys, format!("{ROOT}/fake-t32"));
    assert_eq!(seconds(config.rtt_poll_interval), 0.05);
}

#[test]
fn environment_overrides_trace32_installation() {
    let fixture = Fixture::new(CONFIG);
    let override_dir = format!("{ROOT}/override");
    let config = fixture
        .load(&[
            ("T32SYS", &override_dir),
            ("T32_RCL_PORT", "21000"),
            ("PROGRAM_NAME", "override-program"),
        ])
        .unwrap();
    assert_eq!(config.t32_sys, override_dir);
    assert_eq!(config.rcl_port, 21000);
    assert_eq!(config.program, "override-program");
}

#[test]
fn paths_with_spaces_are_supported() {
    let content = FileContent::Bytes(CONFIG.as_bytes().to_vec());
    let file = format!("{ROOT}/tool kit/trace32.toml");
    let config = Files::default()
        .settle(|world| load_config(&file, &content, &Env::new(), "linux", world))
        .unwrap();
    assert_eq!(config.config_dir, format!("{ROOT}/tool kit"));
    assert!(config.elf.contains("tool kit"));
}

#[test]
fn loads_optional_rtos_configuration() {
    let fixture = Fixture::new(&format!(
        "{CONFIG}\n[rtos]\nconfig = \"~~/demo/freertos.t32\"\nmenu = \"~~/demo/freertos.men\"\nshow_tasks = true\n"
    ));
    let config = fixture.load(&[]).unwrap();
    assert_eq!(config.rtos_config, "~~/demo/freertos.t32");
    assert!(config.rtos_show_tasks);
}

#[test]
fn rejects_unsafe_trace32_value() {
    let fixture = Fixture::replaced("program = \"demo\"", "program = 'bad\"name'");
    let error = fixture.load(&[]).unwrap_err();
    assert!(error.0.contains("unsafe for TRACE32"), "{error:?}");
    assert_eq!(
        error.0,
        "project.program contains characters unsafe for TRACE32 commands"
    );
}

#[test]
fn defaults_follow_python() {
    let fixture = Fixture::new("[project]\nprogram = \"app\"\n");
    let config = fixture.load(&[]).unwrap();
    assert_eq!(config.cores, "1.");
    assert_eq!(config.t32_sys, "/nonexistent-tb-home/t32");
    let host = host_default("linux").unwrap();
    assert_eq!(
        config.t32_binary,
        format!("/nonexistent-tb-home/t32/bin/{host}/t32marm-qt")
    );
    assert_eq!(config.t32_config, "/nonexistent-tb-home/t32/config.t32");
    assert_eq!(
        config.debug_adapter,
        format!("/nonexistent-tb-home/t32/demo/env/vscode/bin/{host}/t32debugadapter")
    );
    assert_eq!(
        (config.rcl_port, config.dap_port, config.dap_backend_port),
        (20000, 58870, 58871)
    );
    assert_eq!(
        (config.dap_backend_timeout, config.operation_timeout),
        (30, 600)
    );
    assert_eq!(config.rtt_symbol, "_SEGGER_RTT");
    assert_eq!(config.rtt_control_block_address, None);
    assert_eq!(seconds(config.rtt_poll_interval), 0.02);
    assert_eq!(config.elf, ROOT);
    assert!(!fixture.script_exists(&config));
}

#[test]
fn env_text_ignores_empty_values_but_env_override_does_not() {
    let fixture = Fixture::new(CONFIG);
    let config = fixture
        .load(&[
            ("ELF", ""),
            ("T32_CPU", ""),
            ("RTT_SYMBOL", ""),
            ("T32_RCL_PORT", ""),
        ])
        .unwrap();
    assert_eq!(config.elf, format!("{ROOT}/build/demo.elf"));
    assert_eq!(config.cpu, "");
    assert_eq!(config.rtt_symbol, "_SEGGER_RTT");
    assert_eq!(config.rcl_port, 20000);
    let error = fixture.load(&[("PROGRAM_NAME", "")]).unwrap_err();
    assert_eq!(error.0, "project.program is empty in trace32.toml");
}

#[test]
fn t32_sys_takes_precedence_over_t32sys() {
    let fixture = Fixture::new(CONFIG);
    let config = fixture
        .load(&[("T32_SYS", "/opt/a"), ("T32SYS", "/opt/b")])
        .unwrap();
    assert_eq!(config.t32_sys, "/opt/a");
    let config = fixture
        .load(&[("T32_SYS", ""), ("T32SYS", "/opt/b")])
        .unwrap();
    assert_eq!(config.t32_sys, "/opt/b");
}

#[test]
fn flash_args_environment_is_split_like_a_shell() {
    let fixture = Fixture::new(CONFIG);
    let config = fixture.load(&[("T32_FLASH_ARGS", "A=1 'B C'")]).unwrap();
    assert_eq!(config.flash_args, ["A=1", "B C"]);
    let config = fixture.load(&[("T32_FLASH_ARGS", "")]).unwrap();
    assert!(config.flash_args.is_empty());
    let error = fixture.load(&[("T32_FLASH_ARGS", "'x")]).unwrap_err();
    assert_eq!(error.0, "cannot parse T32_FLASH_ARGS: No closing quotation");
}

#[test]
fn integer_overrides_are_validated() {
    let fixture = Fixture::new(CONFIG);
    let error = fixture.load(&[("T32_DAP_PORT", "abc")]).unwrap_err();
    assert_eq!(
        error.0,
        "T32_DAP_PORT environment override must be an integer"
    );
    let error = fixture.load(&[("T32_DAP_PORT", "58871")]).unwrap_err();
    assert_eq!(
        error.0,
        "trace32.dap_port and trace32.dap_backend_port must be different"
    );
    let error = fixture.load(&[("T32_RCL_PORT", "70000")]).unwrap_err();
    assert_eq!(error.0, "trace32.rcl_port must be between 1 and 65535");
    let error = fixture.load(&[("T32_TIMEOUT", "0")]).unwrap_err();
    assert_eq!(error.0, "trace32.operation_timeout must be positive");
    let error = fixture.load(&[("T32_DAP_PORT", "0")]).unwrap_err();
    assert_eq!(error.0, "trace32.dap_port must be between 1 and 65535");
    let error = fixture.load(&[("T32_DAP_BACKEND_PORT", "-1")]).unwrap_err();
    assert_eq!(
        error.0,
        "trace32.dap_backend_port must be between 1 and 65535"
    );
    let error = fixture
        .load(&[("T32_DAP_BACKEND_TIMEOUT", "0")])
        .unwrap_err();
    assert_eq!(error.0, "trace32.dap_backend_timeout must be positive");
}

#[test]
fn type_errors_name_the_key() {
    let load = |from: &str, to: &str| Fixture::replaced(from, to).load(&[]).unwrap_err().0;
    assert_eq!(
        load("rcl_port = 20000", "rcl_port = \"20000\""),
        "rcl_port must be an integer"
    );
    assert_eq!(load("cpu = \"CORTEXM4\"", "cpu = 4"), "cpu must be a string");
    assert_eq!(
        load("args = [\"CPU=DEMO\", \"DUALPORT=1\"]", "args = [1]"),
        "args must be an array of strings"
    );
    assert_eq!(
        load("poll_interval = 0.05", "poll_interval = true"),
        "poll_interval must be a number"
    );
    let fixture = Fixture::new(&format!("rtt = 1\n{}", CONFIG.replace("[rtt]", "[other]")));
    assert_eq!(
        fixture.load(&[]).unwrap_err().0,
        "[rtt] in trace32.toml must be a table"
    );
    assert_eq!(
        load("0x20001000", "zz"),
        "rtt.control_block_address must be empty or an integer such as 0x20000000"
    );
    assert_eq!(
        load("args = [\"CPU=DEMO\", \"DUALPORT=1\"]", "args = 1979-05-27"),
        "args must be an array of strings"
    );
    assert_eq!(
        load("[rtt]", "[rtos]\nshow_tasks = 1\n[rtt]"),
        "show_tasks must be a boolean"
    );
    assert_eq!(
        load("poll_interval = 0.05", "poll_interval = -1"),
        "rtt.poll_interval must be positive"
    );
    assert_eq!(
        load("poll_interval = 0.05", "poll_interval = nan"),
        "rtt.poll_interval must be positive"
    );
}

#[test]
fn flash_args_string_is_split() {
    let fixture = Fixture::replaced(
        "args = [\"CPU=DEMO\", \"DUALPORT=1\"]",
        "args = \"X=1 Y=2\"",
    );
    assert_eq!(fixture.load(&[]).unwrap().flash_args, ["X=1", "Y=2"]);
}

#[test]
fn project_root_key_is_rejected() {
    let fixture = Fixture::replaced("[project]", "[project]\nroot = \"..\"");
    let error = fixture.load(&[]).unwrap_err();
    assert!(
        error.0.starts_with("project.root is no longer supported"),
        "{error:?}"
    );
}

#[test]
fn project_root_environment_is_relative_to_the_config() {
    let mut fixture = Fixture::new(CONFIG);
    fixture.files.directories.push(format!("{ROOT}/fw"));
    let config = fixture.load(&[("PROJECT_ROOT", "fw")]).unwrap();
    assert_eq!(config.project_dir, format!("{ROOT}/fw"));
    assert_eq!(config.elf, format!("{ROOT}/fw/build/demo.elf"));
    assert_eq!(config.run_dir, format!("{ROOT}/.tracebridge"));
    let error = fixture.load(&[("PROJECT_ROOT", "missing")]).unwrap_err();
    assert!(error
        .0
        .starts_with("PROJECT_ROOT does not resolve to a directory"));
}

#[test]
fn practice_paths_are_not_resolved() {
    let fixture = Fixture::replaced("script = \"flash.cmm\"", "script = \"~~/demo/flash.cmm\"");
    let config = fixture.load(&[]).unwrap();
    assert_eq!(fixture.script(&config), "~~/demo/flash.cmm");
    assert!(fixture.script_exists(&config));
}

#[test]
fn home_and_variables_are_expanded() {
    let fixture = Fixture::replaced("sys = \"fake-t32\"", "sys = \"~/tools/$T32_VERSION\"");
    let config = fixture.load(&[("T32_VERSION", "2026")]).unwrap();
    assert_eq!(config.t32_sys, "/nonexistent-tb-home/tools/2026");
}

#[test]
fn missing_and_invalid_files() {
    let load = |content: FileContent| {
        Files::default()
            .settle(|world| {
                load_config(
                    "/nonexistent-tb/trace32.toml",
                    &content,
                    &Env::new(),
                    "linux",
                    world,
                )
            })
            .unwrap_err()
            .0
    };
    assert_eq!(
        load(FileContent::Missing),
        "config not found: /nonexistent-tb/trace32.toml"
    );
    assert_eq!(
        load(FileContent::Unreadable("denied".into())),
        "cannot read /nonexistent-tb/trace32.toml: denied"
    );
    assert!(load(FileContent::Bytes(b"[project\n".to_vec())).starts_with("cannot parse "));
    let error = load(FileContent::Bytes("[a]\nb = \u{fc}".as_bytes().to_vec()));
    assert!(error.starts_with("cannot parse /nonexistent-tb/trace32.toml: "));
    assert!(error.ends_with(" (at line 2, column 5)"), "{error}");
    assert!(load(FileContent::Bytes(vec![0xff]))
        .starts_with("cannot parse /nonexistent-tb/trace32.toml: invalid utf-8 sequence"));
}

#[test]
fn unknown_hosts_must_be_configured() {
    assert_eq!(host_default("macos").unwrap(), "macosx64");
    assert_eq!(
        host_default("windows").unwrap_err().0,
        "cannot auto-detect the TRACE32 host directory on windows; set trace32.host"
    );
    let document: Vec<(String, Toml)> = vec![
        (
            "project".into(),
            Toml::Table(vec![("program".into(), Toml::Text("app".into()))]),
        ),
        (
            "trace32".into(),
            Toml::Table(vec![("host".into(), Toml::Text("win64".into()))]),
        ),
        (
            "rtt".into(),
            Toml::Table(vec![("poll_interval".into(), Toml::Integer(2))]),
        ),
    ];
    let vars = env(&[("HOME", "/h")]);
    let config = Files::default()
        .settle(|world| load_document("/p/trace32.toml", &document, &vars, "windows", world))
        .unwrap();
    assert_eq!(config.t32_binary, "/h/t32/bin/win64/t32marm-qt");
    assert_eq!(config.rtt_poll_interval, Interval::Whole(2));
}

#[test]
fn config_is_found_in_parent_directories() {
    let fixture = Fixture::new(CONFIG);
    let find = |cwd: &str| {
        fixture
            .files
            .settle(|world| find_config_file(None, cwd, &Env::new(), world))
    };
    assert_eq!(
        find(&format!("{ROOT}/src/deep")).unwrap(),
        format!("{ROOT}/trace32.toml")
    );
    assert_eq!(
        find("/").unwrap_err().0,
        "no trace32.toml found in / or any parent directory; run 'tracebridge init' to create one, or pass --config"
    );
}

#[test]
fn explicit_config_wins_over_search() {
    let fixture = Fixture::new(CONFIG);
    let found = fixture
        .files
        .settle(|world| find_config_file(Some("other/trace32.toml"), ROOT, &Env::new(), world))
        .unwrap();
    assert_eq!(found, format!("{ROOT}/other/trace32.toml"));
}

#[test]
fn expanduser_uses_home() {
    let vars = env(&[("HOME", "/home/me")]);
    let expand = |value: &str| Files::default().settle(|world| expanduser(value, &vars, world));
    assert_eq!(expand("~"), "/home/me");
    assert_eq!(expand("~/t32"), "/home/me/t32");
    assert_eq!(expand("a/~"), "a/~");
    assert_eq!(expand("~nosuchuser_tb/x"), "~nosuchuser_tb/x");
}

#[test]
fn home_of_the_user_is_asked_for() {
    let files = Files {
        home: Some("/root/".into()),
        ..Files::default()
    };
    let expand = |value: &str| files.settle(|world| expanduser(value, &Env::new(), world));
    assert_eq!(expand("~/x"), "/root/x");
    let root = Files {
        home: Some("/".into()),
        ..Files::default()
    };
    assert_eq!(
        root.settle(|world| expanduser("~", &Env::new(), world)),
        "/"
    );
}

#[test]
fn expandvars_matches_posixpath() {
    let vars = env(&[("A", "1"), ("B_2", "two")]);
    assert_eq!(expandvars("$A/${B_2}/$C/${C}", &vars), "1/two/$C/${C}");
    assert_eq!(expandvars("$A$A", &vars), "11");
    assert_eq!(expandvars("x$", &vars), "x$");
    assert_eq!(expandvars("${A", &vars), "${A");
    assert_eq!(expandvars("$-A", &vars), "$-A");
}

#[test]
fn resolve_is_lexical_for_missing_paths() {
    let base = "/nonexistent-tb/base";
    let none = Files::default();
    assert_eq!(
        resolve_path("../x/./y", base, &none),
        "/nonexistent-tb/x/y"
    );
    assert_eq!(resolve_path("/a/b/..", base, &none), "/a");
    assert_eq!(resolve_path("/..//", base, &none), "/");
    for path in ["../x/./y", "/a/b/..", "/..//", "q//r/../s"] {
        let once = resolve_path(path, base, &none);
        assert_eq!(resolve_path(&once, "elsewhere", &none), once);
    }
}

#[test]
fn resolve_follows_symbolic_links() {
    let files = Files {
        links: vec![
            ("/t/link".into(), "/t/real".into()),
            ("/t/up".into(), "../t/link/inner".into()),
            ("/t/loop".into(), "loop".into()),
        ],
        ..Files::default()
    };
    assert_eq!(resolve_path("link/missing", "/t", &files), "/t/real/missing");
    assert_eq!(resolve_path("up/x", "/t", &files), "/t/real/inner/x");
    assert_eq!(resolve_path("loop", "/t", &files), "/t/loop");
}

#[test]
fn python_int_forms() {
    assert_eq!(parse_decimal(" 21000 "), Some(21000));
    assert_eq!(parse_decimal("2_0"), Some(20));
    assert_eq!(parse_decimal("abc"), None);
    assert_eq!(parse_int_auto("0x20001000"), Some(0x2000_1000));
    assert_eq!(parse_int_auto("0X10"), Some(16));
    assert_eq!(parse_int_auto("0b101"), Some(5));
    assert_eq!(parse_int_auto("0o17"), Some(15));
    assert_eq!(parse_int_auto("4096"), Some(4096));
    assert_eq!(parse_int_auto("0"), Some(0));
    assert_eq!(parse_int_auto("010"), None);
    assert_eq!(parse_int_auto("0x"), None);
    assert_eq!(parse_int_auto("zz"), None);
    assert_eq!(parse_int_auto("-0x_f"), Some(-15));
    assert_eq!(parse_int_auto("00"), Some(0));
    assert_eq!(parse_decimal("9223372036854775808"), None);
    for value in [0, 1, 7, 8, 10, 16, 4096, i128::MAX] {
        for text in [
            format!("{value}"),
            format!("{value:#x}"),
            format!("{value:#o}"),
            format!("{value:#b}"),
        ] {
            assert_eq!(parse_int_auto(&text), Some(value));
            assert_eq!(parse_int_auto(&format!("+{text}")), Some(value));
            assert_eq!(parse_int_auto(&format!("-{text}")), Some(-value));
        }
    }
}

#[test]
fn shlex_matches_python() {
    assert_eq!(
        shlex_split(r#"DUALPORT=1 "A B" 'c d' e\ f"#).unwrap(),
        ["DUALPORT=1", "A B", "c d", "e f"]
    );
    assert_eq!(shlex_split(r#"a"b c"d"#).unwrap(), ["ab cd"]);
    assert_eq!(shlex_split(r#""x\"y\\z\n""#).unwrap(), [r#"x"y\z\n"#]);
    assert_eq!(shlex_split("''").unwrap(), [""]);
    assert_eq!(shlex_split("  ").unwrap(), Vec::<String>::new());
    assert_eq!(shlex_split("a #b").unwrap(), ["a", "#b"]);
    assert_eq!(shlex_split("'open").unwrap_err(), "No closing quotation");
    assert_eq!(shlex_split("end\\").unwrap_err(), "No escaped character");
}

#[test]
fn paths_are_taken_apart() {
    assert_eq!(file_name("/a/b.c/").as_deref(), Some("b.c"));
    assert_eq!(file_name("/a/.."), None);
    assert_eq!(file_name("/"), None);
    assert_eq!(file_stem("x.tar.gz"), "x.tar");
    assert_eq!(file_stem(".bashrc"), ".bashrc");
    assert_eq!(extension("x.tar.gz").as_deref(), Some("gz"));
    assert_eq!(extension(".bashrc"), None);
    assert_eq!(join("/a/", "b"), "/a/b");
    assert_eq!(join("/a", "/b"), "/b");
    assert_eq!(parent_directory("/a/b/c"), "/a/b");
    assert_eq!(parent_directory("/"), "/");
    assert_eq!(parent_directory("/a//b/./c/"), "/a//b");
    assert_eq!(parent_directory("./c"), ".");
    assert_eq!(parent_directory("c"), "");
}

/// Texts of paths that are written in odd ways.
const ODD_PATHS: [&str; 26] = [
    "", ".", "./", "./.", "./a", "./a/.", ".a", "..", "../a", "a", "a/", "a/.", "a//b", "a/./b",
    "a/../b", "/", "//", "/.", "/./.", "//a", "///a//", "/a/b", "/a//b/.", "/a-b/c", "/a/c", "/a/.b",
];

#[test]
fn parents_are_kept_as_they_are_written() {
    for path in ODD_PATHS {
        let expected = std::path::Path::new(path)
            .parent()
            .map(|parent| parent.to_str().unwrap());
        assert_eq!(parent(path).as_deref(), expected, "{path}");
    }
    let content = FileContent::Bytes(b"[project]\nprogram = \"x\"\nroot = 1\n".to_vec());
    let error = Files::default()
        .settle(|world| load_config("/w//x/./trace32.toml", &content, &Env::new(), "linux", world))
        .unwrap_err();
    assert!(error.0.contains("(/w//x);"), "{error:?}");
}

#[test]
fn paths_are_compared_by_components() {
    for a in ODD_PATHS {
        for b in ODD_PATHS {
            let (x, y) = (std::path::Path::new(a), std::path::Path::new(b));
            assert_eq!(same_path(a, b), x == y, "{a} {b}");
        }
    }
    let mut expected: Vec<std::path::PathBuf> = ODD_PATHS.iter().map(|path| path.into()).collect();
    expected.sort();
    let paths: Vec<String> = ODD_PATHS.iter().map(|path| path.to_string()).collect();
    let sorted: Vec<std::path::PathBuf> =
        sort_paths(&paths).into_iter().map(|path| path.into()).collect();
    for (a, b) in sorted.iter().zip(&expected) {
        assert_eq!(a.to_str(), b.to_str());
    }
    let mut scripts = vec![
        script("a", Source::Trace32, &["ABC"], true),
        script("b", Source::Trace32, &["ABC"], false),
    ];
    scripts[1].path = "//TRACE32/./a.cmm".into();
    let report = report_chips("ABC", &scripts, "/lib", &make_config("/p"));
    assert!(report.lines[1].starts_with("  * TRACE32"));
    assert!(report.lines[2].starts_with("  * TRACE32"));
}

fn script(name: &str, source: Source, chips: &[&str], prepare_only: bool) -> Script {
    Script {
        path: format!("/{}/{name}.cmm", source.name()),
        source,
        chips: chips.iter().map(|c| c.to_string()).collect(),
        prepare_only,
        accepts_cpu: true,
    }
}

#[test]
fn glob_matching() {
    assert!(glob_match("SR6P7*", "SR6P7-G7"));
    assert!(glob_match("stm32h7*", "STM32H743ZI"));
    assert!(glob_match("STM32F4?1*", "STM32F401RE"));
    assert!(glob_match("SR6P6", "sr6p6"));
    assert!(!glob_match("SR6P7*", "SR6P6"));
    assert!(!glob_match("SR6P6", "SR6P6X"));
    assert!(glob_match("*", "anything"));
}

#[test]
fn globs_backtrack() {
    assert!(glob_match("a*b*c", "axxbyybzc"));
    assert!(!glob_match("a*b*c", "axxbyybz"));
    assert!(glob_match("*ab?", "aabab1"));
    assert!(glob_match("**", ""));
    assert!(!glob_match("?", ""));
    assert!(glob_match("*", "*a"));
}

#[test]
fn exact_and_longer_patterns_win() {
    let scripts = [
        script("stm32h7", Source::Trace32, &["STM32H7*"], true),
        script("stm32h743", Source::Trace32, &["STM32H743*"], true),
        script("stm32h743xi", Source::Trace32, &["STM32H743XI"], true),
    ];
    assert_eq!(
        choose_script("STM32H743XI", &scripts).unwrap().1.path,
        scripts[2].path
    );
    assert_eq!(
        choose_script("STM32H743ZI", &scripts).unwrap().1.path,
        scripts[1].path
    );
    let (pattern, chosen) = choose_script("STM32H750VB", &scripts).unwrap();
    assert_eq!(
        (pattern.as_str(), &chosen.path),
        ("STM32H7*", &scripts[0].path)
    );
}

#[test]
fn internal_flash_script_wins_over_memory_variants() {
    let scripts = [
        script("stm32f4xx-qspi", Source::Trace32, &["STM32F4*"], true),
        script("stm32f4xx", Source::Trace32, &["STM32F4*"], true),
        script("stm32f4xx-optionbyte", Source::Trace32, &["STM32F4*"], true),
    ];
    assert_eq!(
        choose_script("STM32F407VG", &scripts).unwrap().1.path,
        scripts[1].path
    );
}

#[test]
fn library_wins_over_trace32() {
    let scripts = [
        script("sr6p6", Source::Trace32, &["SR6P6"], true),
        script("my_sr6", Source::Library, &["SR6*"], true),
    ];
    assert_eq!(
        choose_script("SR6P6", &scripts).unwrap().1.source,
        Source::Library
    );
}

#[test]
fn ties_and_missing_prepareonly_are_reported() {
    let scripts = [
        script("a", Source::Trace32, &["STM32F4*"], true),
        script("b", Source::Trace32, &["STM32F4*"], true),
    ];
    let error = choose_script("STM32F407VG", &scripts).unwrap_err();
    assert!(error.contains("several flash scripts"), "{error}");
    assert!(
        error.ends_with(": /TRACE32/a.cmm (STM32F4*), /TRACE32/b.cmm (STM32F4*)"),
        "{error}"
    );
    let scripts = [script("old", Source::Trace32, &["SR6P6"], false)];
    let error = choose_script("SR6P6", &scripts).unwrap_err();
    assert!(error.contains("do not support PREPAREONLY"), "{error}");
    assert_eq!(
        choose_script("XYZ", &[]).unwrap_err(),
        "no flash script found for chip XYZ"
    );
}

#[test]
fn the_last_of_equal_patterns_counts() {
    let script = script("x", Source::Trace32, &["ST?32*", "STM??*", "*"], true);
    assert_eq!(best_pattern(&script, "STM32"), Some("ST?32*"));
    let script = Script {
        chips: vec!["S*1".into(), "S1*".into()],
        ..script
    };
    assert_eq!(best_pattern(&script, "S11"), Some("S1*"));
}

#[test]
fn header_patterns_are_read() {
    let content = "; @Title: x\n; @Chip: STM32H7S* STM32H7R*\n;@Chip: STM32H750VB\nENTRY %LINE &p\n\
         &p=STRing.SCAN(\"&p\",\"PREPAREONLY\",0)\n\
         &c=STRing.SCANAndExtract(\"&p\",\"CPU=\",\"\")\n";
    let script = read_script("/x.cmm", Source::Library, Some(&content.as_bytes().to_vec())).unwrap();
    assert_eq!(script.chips, ["STM32H7S*", "STM32H7R*", "STM32H750VB"]);
    assert!(script.prepare_only);
    assert!(script.accepts_cpu);
    assert_eq!(read_script("/x.cmm", Source::Library, None), None);
    let mut far = "\n".repeat(200);
    far.push_str("; @Chip: A\r\n");
    assert!(read_script("/x", Source::Library, Some(&far.into_bytes()))
        .unwrap()
        .chips
        .is_empty());
    let returned = b"; @Chip:A,B\tC\r\n\xff".to_vec();
    assert_eq!(
        read_script("/x", Source::Library, Some(&returned))
            .unwrap()
            .chips,
        ["A", "B", "C"]
    );
}

#[test]
fn scripts_are_listed_in_order() {
    let entries: Vec<String> = ["/d/b.cmm", "/d/a.CMM", "/d/x.txt", "/d/a-b.cmm", "/d/.cmm"]
        .iter()
        .map(|path| path.to_string())
        .collect();
    assert_eq!(
        cmm_files(&entries),
        ["/d/a-b.cmm", "/d/a.CMM", "/d/b.cmm"]
    );
    let directories: Vec<String> = ["/d/arm-x/flash", "/d/arm/flash", "/d/Arm/flash"]
        .iter()
        .map(|path| path.to_string())
        .collect();
    assert_eq!(
        sort_paths(&directories),
        ["/d/Arm/flash", "/d/arm/flash", "/d/arm-x/flash"]
    );
}

fn make_config(root: &str) -> Config {
    Config {
        config_file: format!("{root}/trace32.toml"),
        config_dir: root.into(),
        run_dir: format!("{root}/.tracebridge"),
        project_dir: root.into(),
        program: "demo".into(),
        elf: format!("{root}/demo.elf"),
        cpu: "CPU".into(),
        cores: "1.".into(),
        mem_access: String::new(),
        jtag_clock: String::new(),
        dual_port: String::new(),
        rtos_config: String::new(),
        rtos_menu: String::new(),
        rtos_show_tasks: false,
        flash_chip: String::new(),
        flash_script: format!("{root}/flash.cmm"),
        flash_args: Vec::new(),
        t32_sys: root.into(),
        t32_host: "test".into(),
        t32_binary: format!("{root}/powerview"),
        t32_config: format!("{root}/config.t32"),
        debug_adapter: format!("{root}/adapter"),
        rcl_port: 20000,
        dap_port: 58870,
        dap_backend_port: 58871,
        dap_backend_timeout: 1,
        operation_timeout: 1,
        rtt_symbol: "_SEGGER_RTT".into(),
        rtt_control_block_address: None,
        rtt_poll_interval: Interval::Bits(0.02f64.to_bits()),
    }
}

/// The files that `make_config` names.
fn made_files(root: &str) -> Files {
    Files {
        files: vec![format!("{root}/demo.elf"), format!("{root}/flash.cmm")],
        ..Files::default()
    }
}

#[test]
fn resolution_order() {
    let mut config = make_config("/p");
    config.flash_script = String::new();
    let vars = env(&[("XDG_CONFIG_HOME", "/p/config")]);
    let mut files = vec![ScriptFile {
        path: "/p/t32/demo/arm/flash/sr6p7g7.cmm".into(),
        source: Source::Trace32,
        content: Some(b"; @Chip: SR6P7*\n; DO sr6p7g7 [PREPAREONLY]\n".to_vec()),
    }];
    let find = |config: &Config, files: &Vec<ScriptFile>| {
        let scripts = catalog(files);
        Files::default().settle(|world| resolve(config, &vars, &scripts, world))
    };

    // target.cpu is used when flash.chip is empty.
    config.cpu = "SR6P7-G7".into();
    let choice = find(&config, &files).unwrap();
    assert_eq!(choice.script(), "/p/t32/demo/arm/flash/sr6p7g7.cmm");

    // flash.chip wins over target.cpu; the library over TRACE32.
    config.flash_chip = "SR6P6".into();
    let error = find(&config, &files).unwrap_err();
    assert!(
        error
            .0
            .starts_with("no flash script found for chip SR6P6; put a script"),
        "{error:?}"
    );
    let library = Files::default().settle(|world| library_dir(&vars, world));
    assert_eq!(library, "/p/config/tracebridge/flash");
    files.insert(
        0,
        ScriptFile {
            path: format!("{library}/sr6p6.cmm"),
            source: Source::Library,
            content: Some(b"; @Chip: SR6P6\n; PREPAREONLY\n".to_vec()),
        },
    );
    match find(&config, &files).unwrap() {
        Choice::Chip {
            pattern, script, ..
        } => {
            assert_eq!(pattern, "SR6P6");
            assert_eq!(script.source, Source::Library);
        }
        other => panic!("{other:?}"),
    }

    // flash.script wins over everything.
    config.flash_script = "~~/demo/arm/flash/other.cmm".into();
    assert_eq!(
        find(&config, &files).unwrap(),
        Choice::Explicit("~~/demo/arm/flash/other.cmm".into())
    );

    // Nothing to go on.
    config.flash_script.clear();
    config.flash_chip.clear();
    config.cpu.clear();
    assert!(find(&config, &files)
        .unwrap_err()
        .0
        .starts_with("no flash script:"));

    // A path that would break a command.
    config.cpu = "X".into();
    files[0].path = "/a\"b.cmm".into();
    files[0].content = Some(b"; @Chip: X\n; PREPAREONLY\n".to_vec());
    assert_eq!(
        find(&config, &files).unwrap_err().0,
        "flash script path is unsafe for TRACE32 commands: /a\"b.cmm"
    );
}

#[test]
fn cpu_argument_is_added_only_when_useful() {
    let chosen = |accepts_cpu| Choice::Chip {
        chip: "STM32F407VG".into(),
        pattern: "STM32F4*".into(),
        script: Script {
            accepts_cpu,
            ..script("stm32f4xx", Source::Trace32, &["STM32F4*"], true)
        },
    };
    assert_eq!(
        chosen(true).cpu_argument(&vec!["DUALPORT=1".into()]),
        Some("CPU=STM32F407VG".into())
    );
    assert_eq!(
        chosen(true).cpu_argument(&vec!["cpu=STM32F405RG".into()]),
        None
    );
    assert_eq!(chosen(false).cpu_argument(&vec![]), None);
    assert_eq!(
        Choice::Explicit("x.cmm".into()).cpu_argument(&vec![]),
        None
    );
}

#[test]
fn search_finds_related_scripts() {
    let scripts = [
        script("stm32f4", Source::Trace32, &["STM32F4*"], true),
        script("sr6p7g7", Source::Trace32, &["SR6P7*"], true),
    ];
    assert_eq!(search("STM32F407", &scripts).len(), 1);
    assert_eq!(search("sr6", &scripts).len(), 1);
    assert_eq!(search("nrf", &scripts).len(), 0);
}

/// Records every call; `fail_on` makes commands with that prefix fail.
#[derive(Default)]
struct Recorder {
    calls: Vec<String>,
    system_up: bool,
    state_run: bool,
    fail_on: Option<String>,
    time_out: bool,
}

impl Recorder {
    fn commands(&self) -> Vec<&str> {
        self.calls
            .iter()
            .filter_map(|call| call.strip_prefix("cmd "))
            .collect()
    }
}

impl Rcl for Recorder {
    fn cmd(&mut self, command: &str) -> Result<(), Error> {
        self.calls.push(format!("cmd {command}"));
        match &self.fail_on {
            Some(prefix) if command.starts_with(prefix.as_str()) => {
                if self.time_out {
                    Err(Error::Timeout)
                } else {
                    Err(Error::Protocol(format!("{command} failed")))
                }
            }
            _ => Ok(()),
        }
    }
    fn cmm(&mut self, script: &str, timeout: Option<Span>) -> Result<(), Error> {
        let timeout = timeout.map(|span| std::time::Duration::new(span.secs(), span.nanos()));
        self.calls.push(format!("cmm {script} {timeout:?}"));
        Ok(())
    }
    fn print(&mut self, text: &str) -> Result<(), Error> {
        self.calls.push(format!("print {text}"));
        Ok(())
    }
    fn system_up(&mut self) -> Result<bool, Error> {
        self.calls.push("system_up".into());
        Ok(self.system_up)
    }
    fn state_run(&mut self) -> Result<bool, Error> {
        self.calls.push("state_run".into());
        Ok(self.state_run)
    }
}

#[test]
fn reset_breaks_then_resets_to_up() {
    let mut recorder = Recorder::default();
    reset_and_stop_with(&mut recorder).unwrap();
    assert_eq!(recorder.commands(), ["Break", "SYStem.Mode Up"]);
}

#[test]
fn reset_failure_is_reported() {
    let mut recorder = Recorder {
        fail_on: Some("Break".into()),
        ..Default::default()
    };
    let error = reset_and_stop_with(&mut recorder).unwrap_err();
    assert_eq!(error.0, "TRACE32 reset failed: Break failed");
    assert_eq!(
        unconnected(20000, &Error::Timeout).0,
        "cannot connect to TRACE32 on RCL port 20000: timed out"
    );
}

fn validate(
    config: &Config,
    action: Action,
    files: &Files,
) -> Result<Option<Choice>, BridgeError> {
    let vars = env(&[("XDG_CONFIG_HOME", "/nonexistent-tb")]);
    files.settle(|world| validate_target_action(config, action, &vars, &[], world))
}

#[test]
fn flash_requires_a_script_or_a_chip() {
    let mut config = make_config("/p");
    let files = made_files("/p");
    config.flash_script = String::new();
    config.cpu = String::new();
    let error = validate(&config, Action::Flash, &files).unwrap_err();
    assert!(
        error.0.starts_with("no flash script: set flash.chip"),
        "{error:?}"
    );
    config.cpu = "CPU".into();
    let error = validate(&config, Action::Flash, &files).unwrap_err();
    assert!(
        error.0.starts_with("no flash script found for chip CPU"),
        "{error:?}"
    );
}

#[test]
fn missing_elf_and_script_are_reported() {
    let mut config = make_config("/p");
    let files = made_files("/p");
    assert_eq!(
        validate(&config, Action::Flash, &files).unwrap(),
        Some(Choice::Explicit("/p/flash.cmm".into()))
    );
    assert_eq!(validate(&config, Action::Load, &files).unwrap(), None);
    config.flash_script = "/p/nope.cmm".into();
    let error = validate(&config, Action::Flash, &files).unwrap_err();
    assert!(error.0.starts_with("flash script not found: "));
    config.elf = "/nonexistent-tb/app.elf".into();
    let error = validate(&config, Action::Load, &files).unwrap_err();
    assert_eq!(error.0, "ELF not found: /nonexistent-tb/app.elf");
}

#[test]
fn load_sequence_when_system_is_down() {
    let mut config = make_config("/p");
    config.mem_access = "AXI".into();
    config.dual_port = "ON".into();
    config.rtos_config = "~~/freertos.t32".into();
    config.rtos_menu = "~~/freertos.men".into();
    config.rtos_show_tasks = true;
    let mut recorder = Recorder::default();
    run_sequence(&config, None, &mut recorder).unwrap();
    let elf = &config.elf;
    assert_eq!(
        recorder.calls,
        [
            "system_up".to_string(),
            "cmd SYStem.Mode Down".into(),
            "cmd SYStem.CPU CPU".into(),
            "cmd SYStem.MemAccess AXI".into(),
            "cmd CORE.ASSIGN 1.".into(),
            "cmd SYStem.Mode Attach".into(),
            format!("cmd Data.LOAD.Elf \"{elf}\" /NoCODE"),
            "cmd SYStem.Option.DUALPORT ON".into(),
            "cmd List.auto".into(),
            "cmd TASK.CONFIG \"~~/freertos.t32\"".into(),
            "cmd MENU.ReProgram \"~~/freertos.men\"".into(),
            "cmd TASK.List".into(),
            "state_run".into(),
            "cmd Go".into(),
            "print tracebridge: symbols loaded for demo".into(),
        ]
    );
}

#[test]
fn load_sequence_when_attached_and_running() {
    let config = make_config("/p");
    let mut recorder = Recorder {
        system_up: true,
        state_run: true,
        ..Default::default()
    };
    run_sequence(&config, None, &mut recorder).unwrap();
    let elf = &config.elf;
    assert_eq!(
        recorder.calls,
        [
            "system_up".to_string(),
            format!("cmd Data.LOAD.Elf \"{elf}\" /NoCODE"),
            "cmd List.auto".into(),
            "state_run".into(),
            "print tracebridge: symbols loaded for demo".into(),
        ]
    );
}

#[test]
fn setup_stops_at_the_first_error() {
    let config = make_config("/p");
    let mut recorder = Recorder {
        fail_on: Some("CORE.ASSIGN".into()),
        ..Default::default()
    };
    let error = setup_debug(&config, &mut recorder).unwrap_err();
    assert_eq!(error.to_string(), "CORE.ASSIGN 1. failed");
    assert_eq!(
        recorder.commands(),
        ["SYStem.Mode Down", "SYStem.CPU CPU", "CORE.ASSIGN 1."]
    );
}

#[test]
fn flash_sequence() {
    let mut config = make_config("/p");
    config.jtag_clock = "10MHz".into();
    config.flash_args = vec!["DUALPORT=1".into(), "X=2".into()];
    let mut recorder = Recorder {
        system_up: true,
        state_run: true,
        ..Default::default()
    };
    let script = made_files("/p").settle(|world| config.resolved_flash_script(world));
    run_sequence(&config, Some(&script), &mut recorder).unwrap();
    let elf = &config.elf;
    assert_eq!(
        recorder.calls,
        [
            format!("cmm \"{script}\" PREPAREONLY DUALPORT=1 X=2 Some(1s)"),
            "cmd SYStem.JtagClock 10MHz".into(),
            "cmd FLASH.ReProgram ALL /Erase".into(),
            format!("cmd Data.LOAD.Elf \"{elf}\""),
            "cmd FLASH.ReProgram OFF".into(),
            "cmd SYStem.Down".into(),
            "cmd SYStem.Up".into(),
            "cmd SYStem.JtagClock 10MHz".into(),
            "cmd SYStem.Option.IMASKASM ON".into(),
            "cmd SYStem.Option.IMASKHLL ON".into(),
            format!("print tracebridge: flashed {elf}"),
            "system_up".into(),
            format!("cmd Data.LOAD.Elf \"{elf}\" /NoCODE"),
            "cmd List.auto".into(),
            "state_run".into(),
            "print tracebridge: symbols loaded for demo".into(),
        ]
    );
}

#[test]
fn flash_leaves_reprogram_mode_when_loading_fails() {
    let config = make_config("/p");
    let mut recorder = Recorder {
        fail_on: Some("Data.LOAD.Elf".into()),
        ..Default::default()
    };
    let error = program(&config, "flash.cmm", &mut recorder).unwrap_err();
    assert!(error.to_string().contains("Data.LOAD.Elf"));
    let commands = recorder.commands();
    let load = commands
        .iter()
        .position(|c| c.starts_with("Data.LOAD.Elf"))
        .unwrap();
    assert_eq!(commands[load + 1], "FLASH.ReProgram OFF");
    assert_eq!(commands.len(), load + 2);
}

#[test]
fn failures_name_the_action() {
    let config = make_config("/p");
    let mut recorder = Recorder {
        fail_on: Some("List.auto".into()),
        system_up: true,
        ..Default::default()
    };
    let error = run_sequence(&config, None, &mut recorder).unwrap_err();
    assert_eq!(error.0, "TRACE32 load failed: List.auto failed");
    let mut recorder = Recorder {
        fail_on: Some("SYStem.CPU".into()),
        time_out: true,
        ..Default::default()
    };
    let error = run_sequence(&config, None, &mut recorder).unwrap_err();
    assert_eq!(error.0, "TRACE32 operation exceeded 1s");
    assert_eq!(recorder.calls.last().unwrap(), "cmd SYStem.CPU CPU");
    assert_eq!(
        timeout_unset(Action::Flash, &Error::Timeout).0,
        "TRACE32 flash failed: timed out"
    );
}

#[test]
fn finds_rcl_section() {
    let source = "OS=\nSYS=/t32\n\nPBI=\nUSB\n\n;API\nRCL=NETTCP\nPORT=20000\n\nSCREEN=\n";
    assert_eq!(
        parse_rcl_settings(source),
        Some(RclSettings {
            protocol: "NETTCP".into(),
            port: Some(20000)
        })
    );
}

#[test]
fn missing_section_and_port() {
    assert_eq!(parse_rcl_settings("OS=\nSYS=/t32\n"), None);
    assert_eq!(
        parse_rcl_settings("RCL=NETASSIST\n\nPORT=1\n"),
        Some(RclSettings {
            protocol: "NETASSIST".into(),
            port: None
        })
    );
    assert_eq!(
        parse_rcl_settings(" rcl = NETTCP \n; PORT=1\nport = +2\r\nPORT=x")
            .unwrap()
            .port,
        None
    );
    assert_eq!(
        parse_rcl_settings(" rcl = NETTCP \n; PORT=1\nport = +2\r\n")
            .unwrap()
            .port,
        Some(2)
    );
}

#[test]
fn toolbar_command_passes_script_exe_and_config() {
    assert_eq!(
        toolbar_command(
            "/p/.tracebridge/toolbar.cmm",
            "/usr/local/bin/tracebridge",
            "/p/trace32.toml",
        ),
        "\"/p/.tracebridge/toolbar.cmm\" \"/usr/local/bin/tracebridge\" \"/p/trace32.toml\""
    );
}

#[test]
fn toolbar_script_calls_tracebridge_with_its_config() {
    assert!(TOOLBAR_CMM.contains(
        "TOOLITEM \"Flash\"    \":FLASH\" \"OS.Command \"\"&exe\"\" --config \"\"&config\"\" flash &\""
    ));
    assert!(TOOLBAR_CMM.contains("--config \"\"&config\"\" load &\""));
    assert!(check_executable_path("/usr/bin/tracebridge").is_ok());
    assert_eq!(
        check_executable_path("/a\"b").unwrap_err().0,
        "tracebridge executable path is unsafe for a TRACE32 command"
    );
    let mut connect = ToolbarConnect::new(1000);
    assert!(connect.attempt(61_000).is_ok());
    connect.failed(BridgeError::new("refused"));
    assert_eq!(
        connect.attempt(61_001).unwrap_err().0,
        "could not connect to install the toolbar: refused"
    );
    assert_eq!(
        toolbar_failed(&Error::Timeout).0,
        "could not install the PowerView toolbar: timed out"
    );
}

/// The surroundings of PowerView in a test.
struct FakeHost {
    ports: VecDeque<bool>,
    verify: VecDeque<Result<(), BridgeError>>,
    verified: usize,
    exit: Option<i32>,
    spawned: usize,
    toolbar: usize,
    clock: u64,
    files: Files,
}

impl FakeHost {
    fn new(ports: &[bool]) -> FakeHost {
        FakeHost {
            ports: ports.iter().copied().collect(),
            verify: VecDeque::new(),
            verified: 0,
            exit: None,
            spawned: 0,
            toolbar: 0,
            clock: 5,
            files: Files {
                files: vec!["/p/powerview".into(), "/p/config.t32".into()],
                executables: vec!["/p/powerview".into()],
                ..Files::default()
            },
        }
    }

    fn check(&mut self) -> Result<(), BridgeError> {
        self.verified += 1;
        self.verify.pop_front().unwrap_or(Ok(()))
    }

    fn event(&mut self, stage: WaitStage) -> WaitEvent {
        match stage {
            WaitStage::Begin | WaitStage::Clock => WaitEvent::Time(self.clock),
            WaitStage::Process => WaitEvent::Exit(self.exit),
            WaitStage::Port => WaitEvent::Port(self.ports.pop_front().unwrap_or(false)),
            WaitStage::Verify => WaitEvent::Verified(self.check()),
            WaitStage::Pause => {
                self.clock += 200;
                WaitEvent::Paused
            }
        }
    }

    fn wait(&mut self, config: &Config, timeout: u64) -> Result<(), BridgeError> {
        let mut wait = Wait::new(timeout);
        loop {
            let event = self.event(wait.stage);
            if let Some(result) = wait.advance(event, config, "/tmp/powerview.log") {
                return result;
            }
        }
    }

    fn start(&mut self, config: &Config) -> Result<bool, BridgeError> {
        let mut stage = StartStage::Probe;
        loop {
            let event = match &stage {
                StartStage::Probe => StartEvent::Port(self.ports.pop_front().unwrap_or(false)),
                StartStage::Verify => StartEvent::Verified(self.check()),
                StartStage::Prepare => StartEvent::Prepared(self.files.settle(|world| {
                    match require_file(&config.t32_binary, "PowerView", true, world) {
                        Lookup::Found(Ok(())) => {
                            require_file(&config.t32_config, "TRACE32 config", false, world)
                        }
                        other => other,
                    }
                })),
                StartStage::Spawn => {
                    self.spawned += 1;
                    StartEvent::Spawned(Ok(()))
                }
                StartStage::Wait(wait) => StartEvent::Waited(self.event(wait.stage)),
                StartStage::Toolbar => {
                    self.toolbar += 1;
                    StartEvent::Installed(Ok(()))
                }
            };
            if let Some(result) = stage.advance(event, config, "/tmp/powerview.log") {
                return result;
            }
        }
    }
}

#[test]
fn existing_port_must_answer_as_rcl() {
    let config = make_config("/p");
    let mut host = FakeHost::new(&[true]);
    host.verify.push_back(Err(BridgeError::new("not RCL")));
    let error = host.start(&config).unwrap_err();
    assert_eq!(
        error.0,
        "port 20000 is open but is not a usable TRACE32 RCL endpoint: not RCL"
    );
    assert_eq!(host.spawned, 0);
}

#[test]
fn running_powerview_is_reused() {
    let config = make_config("/p");
    let mut host = FakeHost::new(&[true]);
    assert!(!host.start(&config).unwrap());
    assert_eq!(host.spawned, 0);
    assert_eq!(host.toolbar, 0);
}

#[test]
fn process_exit_is_reported_without_waiting_for_timeout() {
    let config = make_config("/p");
    let mut host = FakeHost::new(&[false]);
    host.exit = Some(7);
    let error = host.start(&config).unwrap_err();
    assert!(
        error.0.starts_with("PowerView exited with code 7"),
        "{error:?}"
    );
    assert_eq!(host.spawned, 1);
}

#[test]
fn new_powerview_gets_the_toolbar() {
    let config = make_config("/p");
    let mut host = FakeHost::new(&[false, false, true]);
    assert!(host.start(&config).unwrap());
    assert_eq!(host.toolbar, 1);
}

#[test]
fn missing_binary_is_reported() {
    let config = make_config("/p");
    let mut host = FakeHost::new(&[false]);
    host.files = Files::default();
    assert_eq!(
        host.start(&config).unwrap_err().0,
        format!("PowerView not found: {}", config.t32_binary)
    );
    let mut host = FakeHost::new(&[false]);
    host.files.executables.clear();
    assert_eq!(
        host.start(&config).unwrap_err().0,
        format!("PowerView not executable: {}", config.t32_binary)
    );
}

#[test]
fn successful_launcher_exit_waits_for_detached_application() {
    let config = make_config("/p");
    let mut host = FakeHost::new(&[false, true]);
    host.exit = Some(0);
    host.wait(&config, 1000).unwrap();
    assert_eq!(host.verified, 1);
}

#[test]
fn timeout_mentions_launcher_and_last_rcl_error() {
    let config = make_config("/p");
    let mut host = FakeHost::new(&[true; 20]);
    host.verify = (0..20).map(|_| Err(BridgeError::new("refused"))).collect();
    host.exit = Some(0);
    let error = host.wait(&config, 1000).unwrap_err();
    assert_eq!(
        error.0,
        format!(
            "PowerView did not become ready on RCL port 20000 (the launcher exited \
             successfully, but RCL never became ready): refused; check RCL=NETTCP in {} \
             and /tmp/powerview.log",
            config.t32_config
        )
    );
    // The first attempt, and one after each pause up to the deadline.
    assert_eq!(host.verified, 6);
}

#[test]
fn remote_api_is_enabled_on_the_command_line_when_config_lacks_it() {
    let config = make_config("/p");
    let arguments = powerview_arguments(&config, &parse_rcl_settings("PBI=\nUSB\n"));
    assert_eq!(arguments[2], "--t32-api-rcl=TCP:20000");
    let settings = parse_rcl_settings("RCL=NETTCP\nPORT=20000\n");
    assert_eq!(
        powerview_arguments(&config, &settings),
        ["-c", "/p/config.t32"]
    );
}

#[test]
fn flash_options_override_the_configuration() {
    let config = apply_flash_options(make_config("/p"), Some("SR6P6".into()), None);
    assert_eq!((config.flash_chip.as_str(), config.flash_script.as_str()), ("SR6P6", ""));
    let config = apply_flash_options(make_config("/p"), None, Some("x.cmm".into()));
    assert_eq!((config.flash_chip.as_str(), config.flash_script.as_str()), ("", "x.cmm"));
    assert_eq!(action_texts(Action::Load).0, "loading symbols from");
    assert_eq!(adapter_start(true, false), AdapterStart::Running);
    assert_eq!(adapter_start(false, false), AdapterStart::NoPowerView);
    assert_eq!(adapter_start(false, true), AdapterStart::Start);
    assert_eq!(
        no_powerview(20000).0,
        "no PowerView on RCL port 20000; run 'tracebridge open', 'flash' or 'load' first"
    );
}

#[test]
fn chips_are_reported() {
    let scripts = [
        script("stm32f4", Source::Trace32, &["STM32F4*"], true),
        script("mine", Source::Library, &["STM32F407VG"], false),
    ];
    let report = report_chips("STM32F407VG", &scripts, "/lib", &make_config("/p"));
    assert_eq!(
        report.headline,
        "STM32F407VG: /TRACE32/stm32f4.cmm (TRACE32 script, @Chip STM32F4*)"
    );
    assert_eq!(
        report.lines,
        [
            "  related scripts:",
            "  * TRACE32  STM32F4*                     /TRACE32/stm32f4.cmm",
            "    library  STM32F407VG                  /library/mine.cmm  (no PREPAREONLY)",
            "",
            "  library: /lib (1 scripts); TRACE32: /p/demo/*/flash",
            "  Use it with flash.chip = \"STM32F407VG\" in trace32.toml or 'tracebridge flash --chip STM32F407VG'.",
        ]
    );
    let many: Vec<Script> = (0..43)
        .map(|i| script(&format!("s{i}"), Source::Trace32, &["ABC*"], true))
        .collect();
    let report = report_chips("ABC", &many, "/lib", &make_config("/p"));
    assert_eq!(report.lines[41], "  ... 3 more; narrow the query");
    assert_eq!(report.lines.len(), 1 + 40 + 1 + 3);
}

#[test]
fn configurations_are_reported() {
    let facts = |settings: Option<Option<RclSettings>>| ConfigFacts {
        project: true,
        elf: false,
        binary: true,
        config: true,
        adapter: true,
        script: false,
        exe: Some("/bin/tracebridge".into()),
        settings,
    };
    let choice = Ok(Choice::Explicit("/p/flash.cmm".into()));
    let config = make_config("/p");
    let lines = report_config(&config, &choice, &facts(Some(None)));
    assert_eq!(
        lines,
        [
            "  ok      project=/p",
            "  MISSING ELF=/p/demo.elf",
            "  ok      T32_BIN=/p/powerview",
            "  ok      T32_CONFIG=/p/config.t32",
            "  ok      T32_DEBUG_ADAPTER=/p/adapter",
            "  MISSING flash script=/p/flash.cmm (flash.script)",
            "  ports   RCL 20000, DAP 58870 (t32debugadapter 58871)",
            "  run     /p/.tracebridge",
            "  exe     /bin/tracebridge",
            "  note    config.t32 does not enable the Remote API; tracebridge adds --t32-api-rcl=TCP:20000 when it starts PowerView",
        ]
    );
    let last = |protocol: &str, port: Option<u16>| {
        report_config(
            &config,
            &Err(BridgeError::new("no script")),
            &facts(Some(Some(RclSettings {
                protocol: protocol.into(),
                port,
            }))),
        )
        .pop()
        .unwrap()
    };
    assert_eq!(
        last("NETASSIST", None),
        "  WARN    config.t32 has RCL=NETASSIST; tracebridge needs RCL=NETTCP"
    );
    assert_eq!(
        last("nettcp", None),
        "  WARN    config.t32 PORT=(none) differs from trace32.rcl_port 20000"
    );
    assert_eq!(last("NETTCP", Some(20000)), "  exe     /bin/tracebridge");
    assert_eq!(status(false), "MISSING");
    let chosen = Choice::Chip {
        chip: "A".into(),
        pattern: "A*".into(),
        script: script("s", Source::Library, &["A*"], true),
    };
    assert_eq!(
        describe(&chosen),
        "/library/s.cmm (library script for A, @Chip A*)"
    );
}

#[test]
fn questions_are_asked_once() {
    let fixture = Fixture::new(CONFIG);
    let content = FileContent::Bytes(CONFIG.as_bytes().to_vec());
    let file = format!("{ROOT}/trace32.toml");
    let vars = env(&[("HOME", "/h"), ("PROJECT_ROOT", "build")]);
    let mut asked: Vec<Question> = Vec::new();
    let mut world = World::new();
    let config = loop {
        match load_config(&file, &content, &vars, "linux", &world) {
            Lookup::Found(config) => break config.unwrap(),
            Lookup::Ask(question) => {
                assert!(!asked.contains(&question), "{question:?}");
                asked.push(question.clone());
                let answer = fixture.files.answer(&question);
                world.learn(question, answer);
            }
        }
    };
    assert!(asked.contains(&Question::Directory(format!("{ROOT}/build"))));
    world.learn(Question::File("/other".into()), None);
    assert_eq!(
        load_config(&file, &content, &vars, "linux", &world),
        Lookup::Found(Ok(config))
    );
}
