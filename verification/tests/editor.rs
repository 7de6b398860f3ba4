//! The files that are written for a project and its editors.

use tracebridge::config::{load_config, Config, FileContent, Interval};
use tracebridge::dap::proxy::{listening_line, log_line};
use tracebridge::init::{not_created, render as render_template};
use tracebridge::json::{as_i64, as_str, get_field, Json};
use tracebridge::pycompat::shlex_split;
use tracebridge::rustrover::{plan_installation, quote, render, xml_escape, Installation};
use tracebridge::vscode::installer::{
    backup_name, merge_document, merge_file, merge_named_items, replace_tokens, replacements,
    temporary_name, to_pretty_json, Kind, LAUNCH_TEMPLATE, TASKS_TEMPLATE,
};
use tracebridge::vscode::jsonc::{accept, load, loads, strip_comments, strip_trailing_commas};
use tracebridge::world::{Env, Lookup, Question, World};

fn json(text: &str) -> Json {
    loads(text, "test").unwrap()
}

fn at<'a>(value: &'a Json, key: &str) -> &'a Json {
    get_field(value, key).unwrap()
}

fn item(value: &Json, index: usize) -> &Json {
    match value {
        Json::Array(items) => &items[index],
        other => panic!("{other:?}"),
    }
}

fn text(value: &Json) -> &str {
    as_str(Some(value)).unwrap()
}

fn make_config(root: &str) -> Config {
    Config {
        config_file: format!("{root}/trace32.toml"),
        config_dir: root.into(),
        run_dir: format!("{root}/.tracebridge"),
        project_dir: root.into(),
        program: "demo".into(),
        elf: format!("{root}/demo.elf"),
        cpu: "CPU".into(),
        cores: "1.".into(),
        mem_access: String::new(),
        jtag_clock: String::new(),
        dual_port: String::new(),
        rtos_config: String::new(),
        rtos_menu: String::new(),
        rtos_show_tasks: false,
        flash_chip: String::new(),
        flash_script: format!("{root}/flash.cmm"),
        flash_args: Vec::new(),
        t32_sys: root.into(),
        t32_host: "test".into(),
        t32_binary: format!("{root}/powerview"),
        t32_config: format!("{root}/config.t32"),
        debug_adapter: format!("{root}/adapter"),
        rcl_port: 20000,
        dap_port: 58870,
        dap_backend_port: 58871,
        dap_backend_timeout: 1,
        operation_timeout: 1,
        rtt_symbol: "_SEGGER_RTT".into(),
        rtt_control_block_address: None,
        rtt_poll_interval: Interval::Bits(0.02f64.to_bits()),
    }
}

#[test]
fn comments_and_trailing_commas() {
    let document = json(
        r#"
            {
                // line comment
                "url": "https://example.com/a//b",
                "items": [1, 2,],
                /* block comment */
            }
            "#,
    );
    assert_eq!(text(at(&document, "url")), "https://example.com/a//b");
    assert_eq!(at(&document, "items"), &json("[1, 2]"));
}

#[test]
fn unterminated_block_comment_is_rejected() {
    let error = loads(r#"{"value": 1 /*"#, "<string>").unwrap_err();
    assert!(error.0.contains("unterminated"));
}

#[test]
fn comma_at_end_of_file_is_not_silently_removed() {
    assert!(loads(r#"{"value": 1},"#, "<string>").is_err());
    assert_eq!(strip_trailing_commas("[1, \x1c],"), "[1 \x1c],");
    assert_eq!(strip_trailing_commas("[\",]\",]"), "[\",]\"]");
}

#[test]
fn strings_keep_comment_markers_and_escaped_quotes() {
    let document = json(r#"{"a": "x\" // not a comment ,}", "b": "/*"}"#);
    assert_eq!(text(at(&document, "a")), "x\" // not a comment ,}");
    assert_eq!(text(at(&document, "b")), "/*");
}

#[test]
fn block_comment_keeps_line_breaks() {
    assert_eq!(strip_comments("a/* x\ny */b").unwrap(), "a\nb");
    assert_eq!(strip_comments("a // c\nb").unwrap(), "a \nb");
}

#[test]
fn bom_is_ignored() {
    let content = Ok("\u{feff}{\"a\": 1}".as_bytes().to_vec());
    let document = load(&content, "x.json").unwrap();
    assert_eq!(as_i64(Some(at(&document, "a"))), Some(1));
    assert_eq!(
        load(&Err("denied".into()), "x.json").unwrap_err().0,
        "cannot read x.json: denied"
    );
    assert!(load(&Ok(vec![0xff]), "x.json")
        .unwrap_err()
        .0
        .starts_with("cannot read x.json: invalid utf-8"));
    assert_eq!(
        accept(Err("bad".into()), "x.json").unwrap_err().0,
        "cannot parse x.json: bad"
    );
}

#[test]
fn merge_tasks_preserves_unrelated_and_updates_tracebridge() {
    let existing = json(
        r#"{"version": "2.0.0", "tasks": [
            {"label": "build", "command": "make"},
            {"label": "T32: Flash + Debug", "command": "old"},
            {"label": "tracebridge: adapter", "command": "old", "extra": 1},
            {"label": "T32: Start Debug Adapter", "command": "python3"}
        ]}"#,
    );
    let template = json(
        r#"{"version": "2.0.0", "tasks": [
            {"label": "tracebridge: adapter", "command": "/bin/tracebridge"}
        ]}"#,
    );
    let merged = merge_document(Kind::Tasks, &existing, &template).unwrap();
    assert_eq!(
        merged,
        json(
            r#"{"version": "2.0.0", "tasks": [
                {"label": "build", "command": "make"},
                {"label": "tracebridge: adapter", "command": "/bin/tracebridge", "extra": 1}
            ]}"#
        )
    );
    assert_eq!(
        merge_document(Kind::Tasks, &merged, &template).unwrap(),
        merged
    );
}

#[test]
fn merge_launch_drops_legacy_and_appends_new() {
    let existing = json(
        r#"{"configurations": [
            {"name": "1. Flash + Debug"},
            {"name": "Native", "type": "cppdbg"},
            {"name": "TRACE32: Attach", "preLaunchTask": "T32: Start Debug Adapter", "cmm": "x.cmm"}
        ], "compounds": []}"#,
    );
    let template = json(
        r#"{"version": "0.2.0", "configurations": [
            {"name": "TRACE32: Attach", "preLaunchTask": "tracebridge: adapter"}
        ]}"#,
    );
    let merged = merge_document(Kind::Launch, &existing, &template).unwrap();
    assert_eq!(
        merged,
        json(
            r#"{"configurations": [
                {"name": "Native", "type": "cppdbg"},
                {"name": "TRACE32: Attach", "preLaunchTask": "tracebridge: adapter", "cmm": "x.cmm"}
            ], "compounds": [], "version": "0.2.0"}"#
        )
    );
}

fn items(text: &str) -> Vec<Json> {
    match json(text) {
        Json::Array(items) => items,
        other => panic!("{other:?}"),
    }
}

#[test]
fn duplicate_existing_entries_are_merged_once() {
    let existing = items(r#"[{"label": "a", "x": 1}, {"label": "a", "x": 2}]"#);
    let template = items(r#"[{"label": "a", "y": 3}]"#);
    assert_eq!(
        merge_named_items(&existing, &template, "label", &vec![]),
        items(r#"[{"label": "a", "x": 1, "y": 3}]"#)
    );
}

#[test]
fn malformed_documents_are_rejected() {
    let template = json(r#"{"tasks": []}"#);
    assert_eq!(
        merge_document(Kind::Tasks, &json("[]"), &template)
            .unwrap_err()
            .0,
        "tasks.json must contain a JSON object"
    );
    assert_eq!(
        merge_document(Kind::Tasks, &json(r#"{"tasks": {}}"#), &template)
            .unwrap_err()
            .0,
        "tasks.json must contain a tasks array"
    );
    assert_eq!(
        merge_document(Kind::Launch, &json("{}"), &json(r#"{"configurations": []}"#))
            .unwrap_err()
            .0,
        "launch.json must contain a configurations array"
    );
}

#[test]
fn replace_tokens_preserves_number_type() {
    let result = replace_tokens(
        &json(r#"{"debugServer": "__PORT__", "text": "port=__PORT__", "list": ["__PORT__"]}"#),
        &vec![("__PORT__", Json::Number("58870".into()))],
    );
    assert_eq!(
        result,
        json(r#"{"debugServer": 58870, "text": "port=58870", "list": [58870]}"#)
    );
    let result = replace_tokens(
        &json(r#"["<T>", "x<T>"]"#),
        &vec![("<T>", json(r#"{"a": [1, null]}"#))],
    );
    assert_eq!(
        result,
        json(r#"[{"a": [1, null]}, "x{\"a\":[1,null]}"]"#)
    );
}

#[test]
fn templates_resolve_to_the_expected_files() {
    let config = make_config("/p");
    let tokens = replacements(&config, "/usr/local/bin/tracebridge");
    let tasks = replace_tokens(&json(TASKS_TEMPLATE), &tokens);
    let task = item(at(&tasks, "tasks"), 0);
    assert_eq!(text(at(task, "label")), "tracebridge: adapter");
    assert_eq!(text(at(task, "command")), "/usr/local/bin/tracebridge");
    assert_eq!(
        at(task, "args"),
        &json(r#"["--config", "/p/trace32.toml", "adapter"]"#)
    );
    let background = at(item(at(task, "problemMatcher"), 0), "background");
    assert_eq!(
        text(at(background, "endsPattern")),
        "^\\[tracebridge\\] adapter listening on 127\\.0\\.0\\.1:58870.*$"
    );
    let launch = replace_tokens(&json(LAUNCH_TEMPLATE), &tokens);
    let attach = item(at(&launch, "configurations"), 0);
    assert_eq!(as_i64(Some(at(attach, "debugServer"))), Some(58870));
    assert_eq!(as_i64(Some(at(attach, "trace32Port"))), Some(20000));
    assert_eq!(at(attach, "preLaunchTask"), at(task, "label"));
}

#[test]
fn ready_line_matches_the_task_patterns() {
    // The adapter prints this line, and the command a line before it.
    let ready = "[tracebridge] adapter listening on 127.0.0.1:58870 (backend 58871)";
    assert_eq!(log_line(&listening_line(58870, 58871)), ready);
    let ends = "^\\[tracebridge\\] adapter listening on 127\\.0\\.0\\.1:";
    assert!(ends.starts_with('^'));
    assert!(ready.starts_with(&ends[1..].replace('\\', "")));
    assert!(TASKS_TEMPLATE.contains("starting debug adapter proxy"));
}

#[test]
fn pretty_json_matches_python_indentation() {
    let text = to_pretty_json(&json("{\"a\": [1, {\"b\": \"\u{fc}\"}], \"e\": [], \"o\": {}}")).unwrap();
    assert_eq!(
        text,
        "{\n    \"a\": [\n        1,\n        {\n            \"b\": \"\u{fc}\"\n        }\n    ],\n    \"e\": [],\n    \"o\": {}\n}\n"
    );
    assert!(to_pretty_json(&Json::Number("x".into())).is_err());
}

#[test]
fn install_creates_backup_and_merges_templates() {
    let config = make_config("/p");
    let tokens = replacements(&config, "/opt/bin/tracebridge");
    let existing = Some(Ok(
        "{\n  // mine\n  \"version\": \"2.0.0\",\n  \"tasks\": [{\"label\": \"build\"},\n  {\"label\": \"T32: Flash\"},],\n}\n"
            .as_bytes()
            .to_vec(),
    ));
    let installed = merge_file(Kind::Tasks, "tasks.json", &existing, TASKS_TEMPLATE, &tokens).unwrap();
    let tasks = at(&installed, "tasks");
    assert_eq!(text(at(item(tasks, 0), "label")), "build");
    assert_eq!(text(at(item(tasks, 1), "label")), "tracebridge: adapter");
    assert_eq!(text(at(item(tasks, 1), "command")), "/opt/bin/tracebridge");
    let launch = merge_file(Kind::Launch, "launch.json", &None, LAUNCH_TEMPLATE, &tokens).unwrap();
    let attach = item(at(&launch, "configurations"), 0);
    assert_eq!(text(at(attach, "name")), "TRACE32: Attach");
    // Running again is stable.
    let written = Some(Ok(to_pretty_json(&installed).unwrap().into_bytes()));
    assert_eq!(
        merge_file(Kind::Tasks, "tasks.json", &written, TASKS_TEMPLATE, &tokens).unwrap(),
        installed
    );
    let broken = Some(Err("denied".into()));
    assert_eq!(
        merge_file(Kind::Tasks, "tasks.json", &broken, TASKS_TEMPLATE, &tokens)
            .unwrap_err()
            .0,
        "cannot read tasks.json: denied"
    );
}

#[test]
fn backup_names_do_not_collide() {
    let first = backup_name("tasks.json", "20260102030405", 0);
    let second = backup_name("tasks.json", "20260102030405", 1);
    assert_eq!(first, "tasks.json.bak.20260102030405");
    assert_ne!(first, second);
    assert!(second.ends_with(".1"));
    assert_eq!(temporary_name("tasks.json", 42), "tasks.json.tmp.42");
}

#[test]
fn run_configuration_starts_the_adapter_in_launch_mode() {
    let config = make_config("/p");
    let xml = render(&config, "/Users/me/.local/bin/tracebridge");
    assert!(xml.contains("type=\"DAPConfiguration\""));
    assert!(xml.contains(&format!(
        "<option name=\"command\" value=\"/Users/me/.local/bin/tracebridge --config {} adapter\" />",
        config.config_file
    )));
    assert!(xml.contains("<option name=\"debugMode\" value=\"LAUNCH\" />"));
    assert!(xml.contains("<option name=\"debugServerWaitStrategy\" value=\"TRACE\" />"));
    assert!(xml.contains("value=\"[tracebridge] adapter listening on ${address}:${port}\""));
    assert!(xml.contains("&quot;request&quot;: &quot;attach&quot;"));
    assert!(xml.contains("&quot;trace32Port&quot;: 20000"));
    assert!(xml.contains("<option value=\"*.c\" />"));
    assert!(xml.contains("<option name=\"connectTimeout\" value=\"6000\" />"));
    let mut config = config;
    config.dap_backend_timeout = u64::MAX;
    assert!(render(&config, "/x").contains("value=\"18446744073709551620000\""));
}

#[test]
fn ready_pattern_matches_the_proxy_line_like_lsp4ij() {
    // LSP4IJ: static text must start the remaining input, ${address} is
    // [\w.]+ and ${port} is \d+.
    let line = "[tracebridge] adapter listening on 127.0.0.1:58870 (backend 58871)";
    assert_eq!(log_line(&listening_line(58870, 58871)), line);
    let rest = line
        .strip_prefix("[tracebridge] adapter listening on ")
        .unwrap();
    let (address, rest) = rest.split_once(':').unwrap();
    assert!(address
        .chars()
        .all(|c| c.is_alphanumeric() || c == '_' || c == '.'));
    let port: String = rest.chars().take_while(char::is_ascii_digit).collect();
    assert_eq!(port, "58870");
}

#[test]
fn paths_with_spaces_are_quoted_and_escaped() {
    assert_eq!(quote("/a b/tracebridge"), "\"/a b/tracebridge\"");
    assert_eq!(quote("/a/b"), "/a/b");
    assert_eq!(xml_escape("a\"<&>"), "a&quot;&lt;&amp;&gt;");
    assert_eq!(xml_escape("a\nb"), "a&#10;b");
    for argument in ["", "a\\b", "a\"b", "'", "a\nb c", "x"] {
        assert_eq!(shlex_split(&quote(argument)).unwrap(), [argument]);
    }
}

#[test]
fn install_is_idempotent_and_backs_up_changes() {
    let mut config = make_config("/p");
    let exe = "/usr/local/bin/tracebridge";
    let contents = render(&config, exe);
    assert_eq!(
        plan_installation(false, None, &contents),
        Installation::Create
    );
    assert_eq!(
        plan_installation(true, Some(&contents), &render(&config, exe)),
        Installation::Unchanged
    );
    config.rcl_port = 21000;
    let changed = render(&config, exe);
    assert_eq!(
        plan_installation(true, Some(&contents), &changed),
        Installation::Replace
    );
    assert_eq!(
        plan_installation(true, None, &changed),
        Installation::Replace
    );
    assert!(changed.contains("21000"));
}

#[test]
fn template_loads_and_uses_directory_name() {
    let content = FileContent::Bytes(render_template("/work/my app").into_bytes());
    let mut world = World::new();
    let mut vars = Env::new();
    vars.insert("HOME", "/h");
    let config = loop {
        match load_config("/work/my app/trace32.toml", &content, &vars, "linux", &world) {
            Lookup::Found(result) => break result.unwrap(),
            Lookup::Ask(question) => {
                assert!(matches!(question, Question::Link(_)));
                world.learn(question, None);
            }
        }
    };
    assert_eq!(config.program, "my_app");
    assert!(config.elf.ends_with("build/my_app.elf"));
    assert_eq!(config.flash_args, ["DUALPORT=1", "JTAG_CLOCK=10MHz"]);
    assert!(config.rtos_show_tasks);
    assert!(render_template("/").contains("program = \"app\""));
}

#[test]
fn existing_file_is_not_overwritten() {
    let error = not_created("/p/trace32.toml", true, "exists");
    assert!(error.0.contains("refusing to overwrite"));
    assert_eq!(
        not_created("/p/trace32.toml", false, "denied").0,
        "cannot create /p/trace32.toml: denied"
    );
}

#[test]
fn written_documents_are_read_back() {
    let document = json(
        r#"{"a": "// no /* comment */", "b": ",] ,}", "n": [1.50, -0, 1E5, 2e-3, 123456789012345678901], "e": [[], {}], "u": "﻿\u0000\"\\"}"#,
    );
    let written = to_pretty_json(&document).unwrap();
    assert_eq!(loads(&written, "x").unwrap(), document);
    assert_eq!(load(&Ok(written.into_bytes()), "x").unwrap(), document);
    let numbers = at(&document, "n");
    assert_eq!(item(numbers, 0), &Json::Number("1.50".into()));
    assert_eq!(item(numbers, 2), &Json::Number("1e+5".into()));
}
