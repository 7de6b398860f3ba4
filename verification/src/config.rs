//! The configuration: where it is found, how it is read, and what it must be.

use vstd::prelude::*;
use vstd::string::*;
use vstd::utf8::*;

use crate::document::{
    entry, entry_views, get, item_views, lemma_item_views, parse_toml, toml_document, Entries, Toml,
    TomlError, TomlErrorView, TomlView,
};
use crate::errors::BridgeError;
use crate::paths::{
    join, joined, lemma_parent_is_shorter, parent, parent_of, resolve, resolved,
    resolved_paths_stand,
};
use crate::pycompat::{
    auto_value, decimal_value, expand_path, expanduser, parse_decimal, parse_int_auto,
    path_expanded, shlex_split, user_expanded, words_of,
};
use crate::t32rcl::eval::text_views;
use crate::text::{
    chars_of, concat2, concat3, concat4, concat5, contains_char, copy_range, decimal,
    decimal_text, decode_utf8_text, same, starts_with, string_of, trim_end, utf8_complaint,
    whitespace,
};
use crate::world::{
    ask, stands, text_lookup, variable, Env, Found, Lookup, Question, QuestionView, World,
};

verus! {

/// The name of the configuration file.
pub const CONFIG_FILE_NAME: &'static str = "trace32.toml";

/// The name of the directory for files of the running tool.
pub const RUN_DIR_NAME: &'static str = ".tracebridge";

/// A length of time in seconds: a whole number, or the bits of a floating-point
/// number.
#[derive(Debug, Clone, Copy, PartialEq, Eq, Structural)]
pub enum Interval {
    Whole(i64),
    Bits(u64),
}

/// The bits of 0.02.
pub const DEFAULT_POLL_BITS: u64 = 0x3F94_7AE1_47AE_147B;

/// Whether an interval is more than zero. The bits of the positive numbers lie
/// between those of zero and, inclusive, those of infinity; behind them come the
/// numbers that are none, and the negative ones.
pub open spec fn is_positive(interval: Interval) -> bool {
    match interval {
        Interval::Whole(n) => n > 0,
        Interval::Bits(bits) => 0 < bits <= 0x7FF0_0000_0000_0000,
    }
}

fn positive(interval: Interval) -> (result: bool)
    ensures
        result == is_positive(interval),
{
    match interval {
        Interval::Whole(n) => n > 0,
        Interval::Bits(bits) => 0 < bits && bits <= 0x7FF0_0000_0000_0000,
    }
}

/// The configuration of a project.
#[derive(Debug, Clone, PartialEq, Eq)]
pub struct Config {
    pub config_file: String,
    /// Directory that holds the file; the base of every relative path.
    pub config_dir: String,
    pub run_dir: String,
    pub project_dir: String,
    pub program: String,
    pub elf: String,
    pub cpu: String,
    pub cores: String,
    pub mem_access: String,
    pub jtag_clock: String,
    pub dual_port: String,
    pub rtos_config: String,
    pub rtos_menu: String,
    pub rtos_show_tasks: bool,
    pub flash_chip: String,
    pub flash_script: String,
    pub flash_args: Vec<String>,
    pub t32_sys: String,
    pub t32_host: String,
    pub t32_binary: String,
    pub t32_config: String,
    pub debug_adapter: String,
    pub rcl_port: u16,
    pub dap_port: u16,
    pub dap_backend_port: u16,
    pub dap_backend_timeout: u64,
    pub operation_timeout: u64,
    pub rtt_symbol: String,
    pub rtt_control_block_address: Option<u64>,
    pub rtt_poll_interval: Interval,
}

/// The content of a [`Config`].
pub ghost struct ConfigView {
    pub config_file: Seq<char>,
    pub config_dir: Seq<char>,
    pub run_dir: Seq<char>,
    pub project_dir: Seq<char>,
    pub program: Seq<char>,
    pub elf: Seq<char>,
    pub cpu: Seq<char>,
    pub cores: Seq<char>,
    pub mem_access: Seq<char>,
    pub jtag_clock: Seq<char>,
    pub dual_port: Seq<char>,
    pub rtos_config: Seq<char>,
    pub rtos_menu: Seq<char>,
    pub rtos_show_tasks: bool,
    pub flash_chip: Seq<char>,
    pub flash_script: Seq<char>,
    pub flash_args: Seq<Seq<char>>,
    pub t32_sys: Seq<char>,
    pub t32_host: Seq<char>,
    pub t32_binary: Seq<char>,
    pub t32_config: Seq<char>,
    pub debug_adapter: Seq<char>,
    pub rcl_port: u16,
    pub dap_port: u16,
    pub dap_backend_port: u16,
    pub dap_backend_timeout: u64,
    pub operation_timeout: u64,
    pub rtt_symbol: Seq<char>,
    pub rtt_control_block_address: Option<u64>,
    pub rtt_poll_interval: Interval,
}

impl View for Config {
    type V = ConfigView;

    open spec fn view(&self) -> ConfigView {
        ConfigView {
            config_file: self.config_file@,
            config_dir: self.config_dir@,
            run_dir: self.run_dir@,
            project_dir: self.project_dir@,
            program: self.program@,
            elf: self.elf@,
            cpu: self.cpu@,
            cores: self.cores@,
            mem_access: self.mem_access@,
            jtag_clock: self.jtag_clock@,
            dual_port: self.dual_port@,
            rtos_config: self.rtos_config@,
            rtos_menu: self.rtos_menu@,
            rtos_show_tasks: self.rtos_show_tasks,
            flash_chip: self.flash_chip@,
            flash_script: self.flash_script@,
            flash_args: text_views(self.flash_args@),
            t32_sys: self.t32_sys@,
            t32_host: self.t32_host@,
            t32_binary: self.t32_binary@,
            t32_config: self.t32_config@,
            debug_adapter: self.debug_adapter@,
            rcl_port: self.rcl_port,
            dap_port: self.dap_port,
            dap_backend_port: self.dap_backend_port,
            dap_backend_timeout: self.dap_backend_timeout,
            operation_timeout: self.operation_timeout,
            rtt_symbol: self.rtt_symbol@,
            rtt_control_block_address: self.rtt_control_block_address,
            rtt_poll_interval: self.rtt_poll_interval,
        }
    }
}

/// The answers that are known, by question.
pub type Known = Map<QuestionView, Option<Seq<char>>>;

/// The variables that are set, by name.
pub type Vars = Map<Seq<char>, Seq<char>>;

/// The content of a result.
pub open spec fn outcome<T>(result: Result<T, BridgeError>) -> Result<T, Seq<char>> {
    match result {
        Ok(value) => Ok(value),
        Err(error) => Err(error@),
    }
}

/// The content of a result that is a text.
pub open spec fn text_outcome(result: Result<String, BridgeError>) -> Result<Seq<char>, Seq<char>> {
    match result {
        Ok(text) => Ok(text@),
        Err(error) => Err(error@),
    }
}

/// The content of a result that is a list of texts.
pub open spec fn list_outcome(result: Result<Vec<String>, BridgeError>) -> Result<
    Seq<Seq<char>>,
    Seq<char>,
> {
    match result {
        Ok(list) => Ok(text_views(list@)),
        Err(error) => Err(error@),
    }
}

/// The entries of an optional table.
pub open spec fn table_view(table: Option<&Vec<(String, Toml)>>) -> Option<Entries> {
    match table {
        Some(entries) => Some(entry_views(entries@)),
        None => None,
    }
}

/// A section of the document.
pub open spec fn section(document: Entries, name: Seq<char>) -> Result<Option<Entries>, Seq<char>> {
    match entry(document, name) {
        None => Ok(None),
        Some(TomlView::Table(entries)) => Ok(Some(entries)),
        Some(_) => Err("["@ + name + "] in trace32.toml must be a table"@),
    }
}

/// The value of a setting in an optional section.
pub open spec fn setting(table: Option<Entries>, key: Seq<char>) -> Option<TomlView> {
    match table {
        Some(entries) => entry(entries, key),
        None => None,
    }
}

/// A setting that is a text.
pub open spec fn text_setting(
    table: Option<Entries>,
    key: Seq<char>,
    default: Seq<char>,
) -> Result<Seq<char>, Seq<char>> {
    match setting(table, key) {
        None => Ok(default),
        Some(TomlView::Text(value)) => Ok(value),
        Some(_) => Err(key + " must be a string"@),
    }
}

/// A setting that is an integer.
pub open spec fn integer_setting(table: Option<Entries>, key: Seq<char>, default: i64) -> Result<
    i64,
    Seq<char>,
> {
    match setting(table, key) {
        None => Ok(default),
        Some(TomlView::Integer(value)) => Ok(value),
        Some(_) => Err(key + " must be an integer"@),
    }
}

/// A setting that is a length of time.
pub open spec fn interval_setting(
    table: Option<Entries>,
    key: Seq<char>,
    default: Interval,
) -> Result<Interval, Seq<char>> {
    match setting(table, key) {
        None => Ok(default),
        Some(TomlView::Integer(value)) => Ok(Interval::Whole(value)),
        Some(TomlView::Float(bits)) => Ok(Interval::Bits(bits)),
        Some(_) => Err(key + " must be a number"@),
    }
}

/// A setting that is a truth value.
pub open spec fn boolean_setting(table: Option<Entries>, key: Seq<char>, default: bool) -> Result<
    bool,
    Seq<char>,
> {
    match setting(table, key) {
        None => Ok(default),
        Some(TomlView::Boolean(value)) => Ok(value),
        Some(_) => Err(key + " must be a boolean"@),
    }
}

/// The texts in an array, if it holds nothing else.
pub open spec fn texts_in(items: Seq<TomlView>) -> Option<Seq<Seq<char>>>
    decreases items.len(),
{
    if items.len() == 0 {
        Some(seq![])
    } else {
        match (texts_in(items.drop_last()), items.last()) {
            (Some(texts), TomlView::Text(text)) => Some(texts.push(text)),
            _ => None,
        }
    }
}

/// A setting that is a list of texts: an array of them, or a command line.
pub open spec fn list_setting(table: Option<Entries>, key: Seq<char>) -> Result<
    Seq<Seq<char>>,
    Seq<char>,
> {
    match setting(table, key) {
        None => Ok(seq![]),
        Some(TomlView::Text(value)) => match words_of(value) {
            Ok(words) => Ok(words),
            Err(message) => Err("cannot parse "@ + key + ": "@ + message),
        },
        Some(TomlView::Array(items)) => match texts_in(items) {
            Some(texts) => Ok(texts),
            None => Err(key + " must be an array of strings"@),
        },
        Some(_) => Err(key + " must be an array of strings"@),
    }
}

fn table<'a>(document: &'a Vec<(String, Toml)>, name: &str) -> (result: Result<
    Option<&'a Vec<(String, Toml)>>,
    BridgeError,
>)
    ensures
        match result {
            Ok(table) => section(entry_views(document@), name@) == Ok::<_, Seq<char>>(
                table_view(table),
            ),
            Err(error) => section(entry_views(document@), name@) == Err::<Option<Entries>, _>(
                error@,
            ),
        },
{
    match get(document, name) {
        None => Ok(None),
        Some(Toml::Table(entries)) => Ok(Some(entries)),
        Some(_) => Err(BridgeError(concat3("[", name, "] in trace32.toml must be a table"))),
    }
}

fn find_setting<'a>(table: Option<&'a Vec<(String, Toml)>>, key: &str) -> (result: Option<&'a Toml>)
    ensures
        match result {
            Some(value) => setting(table_view(table), key@) == Some(value@),
            None => setting(table_view(table), key@) is None,
        },
{
    match table {
        Some(entries) => get(entries, key),
        None => None,
    }
}

fn text(table: Option<&Vec<(String, Toml)>>, key: &str, default: &str) -> (result: Result<
    String,
    BridgeError,
>)
    ensures
        text_outcome(result) == text_setting(table_view(table), key@, default@),
{
    match find_setting(table, key) {
        None => Ok(default.to_owned()),
        Some(Toml::Text(value)) => Ok(value.clone()),
        Some(_) => Err(BridgeError(concat2(key, " must be a string"))),
    }
}

fn integer(table: Option<&Vec<(String, Toml)>>, key: &str, default: i64) -> (result: Result<
    i64,
    BridgeError,
>)
    ensures
        outcome(result) == integer_setting(table_view(table), key@, default),
{
    match find_setting(table, key) {
        None => Ok(default),
        Some(Toml::Integer(value)) => Ok(*value),
        Some(_) => Err(BridgeError(concat2(key, " must be an integer"))),
    }
}

fn number(table: Option<&Vec<(String, Toml)>>, key: &str, default: Interval) -> (result: Result<
    Interval,
    BridgeError,
>)
    ensures
        outcome(result) == interval_setting(table_view(table), key@, default),
{
    match find_setting(table, key) {
        None => Ok(default),
        Some(Toml::Integer(value)) => Ok(Interval::Whole(*value)),
        Some(Toml::Float(bits)) => Ok(Interval::Bits(*bits)),
        Some(_) => Err(BridgeError(concat2(key, " must be a number"))),
    }
}

fn boolean(table: Option<&Vec<(String, Toml)>>, key: &str, default: bool) -> (result: Result<
    bool,
    BridgeError,
>)
    ensures
        outcome(result) == boolean_setting(table_view(table), key@, default),
{
    match find_setting(table, key) {
        None => Ok(default),
        Some(Toml::Boolean(value)) => Ok(*value),
        Some(_) => Err(BridgeError(concat2(key, " must be a boolean"))),
    }
}

proof fn lemma_texts_in_prefix(items: Seq<TomlView>, n: int)
    requires
        0 <= n <= items.len(),
        texts_in(items.take(n)) is None,
    ensures
        texts_in(items) is None,
    decreases items.len() - n,
{
    if n == items.len() {
        assert(items.take(n) =~= items);
    } else {
        assert(items.take(n + 1).drop_last() =~= items.take(n));
        lemma_texts_in_prefix(items, n + 1);
    }
}

fn array_texts(items: &Vec<Toml>) -> (result: Option<Vec<String>>)
    ensures
        match result {
            Some(texts) => texts_in(item_views(items@)) == Some(text_views(texts@)),
            None => texts_in(item_views(items@)) is None,
        },
{
    let ghost views = item_views(items@);
    proof {
        lemma_item_views(items@);
    }
    let mut texts: Vec<String> = Vec::new();
    let mut i: usize = 0;
    assert(text_views(texts@) =~= seq![]);
    while i < items.len()
        invariant
            i <= items@.len(),
            views == item_views(items@),
            views.len() == items@.len(),
            forall|j: int| 0 <= j < items@.len() ==> #[trigger] views[j] == items@[j]@,
            texts_in(views.take(i as int)) == Some(text_views(texts@)),
        decreases items@.len() - i,
    {
        assert(views.take(i as int + 1).drop_last() =~= views.take(i as int));
        assert(views[i as int] == items@[i as int]@);
        match &items[i] {
            Toml::Text(text) => {
                let ghost before = text_views(texts@);
                texts.push(text.clone());
                assert(text_views(texts@) =~= before.push(text@));
            },
            _ => {
                proof {
                    lemma_texts_in_prefix(views, i as int + 1);
                }
                return None;
            },
        }
        i = i + 1;
    }
    assert(views.take(i as int) =~= views);
    Some(texts)
}

fn string_list(table: Option<&Vec<(String, Toml)>>, key: &str) -> (result: Result<
    Vec<String>,
    BridgeError,
>)
    ensures
        list_outcome(result) == list_setting(table_view(table), key@),
{
    match find_setting(table, key) {
        None => {
            let none: Vec<String> = Vec::new();
            assert(text_views(none@) =~= seq![]);
            Ok(none)
        },
        Some(Toml::Text(value)) => match shlex_split(value) {
            Ok(words) => Ok(words),
            Err(message) => Err(BridgeError(concat4("cannot parse ", key, ": ", message))),
        },
        Some(Toml::Array(items)) => match array_texts(items) {
            Some(texts) => Ok(texts),
            None => Err(BridgeError(concat2(key, " must be an array of strings"))),
        },
        Some(_) => Err(BridgeError(concat2(key, " must be an array of strings"))),
    }
}

/// The value of a variable, or a fallback where it is not set or empty.
pub open spec fn env_or(env: Vars, name: Seq<char>, fallback: Seq<char>) -> Seq<char> {
    match variable(env, name) {
        Some(value) => if value.len() > 0 {
            value
        } else {
            fallback
        },
        None => fallback,
    }
}

/// The value of a variable, or a fallback where it is not set.
pub open spec fn env_or_unset(env: Vars, name: Seq<char>, fallback: Seq<char>) -> Seq<char> {
    match variable(env, name) {
        Some(value) => value,
        None => fallback,
    }
}

/// The integer that a variable holds, or a fallback where it is not set or empty.
pub open spec fn env_number(env: Vars, name: Seq<char>, fallback: i64) -> Result<i64, Seq<char>> {
    match variable(env, name) {
        Some(value) => if value.len() > 0 {
            match decimal_value(value) {
                Some(n) => Ok(n as i64),
                None => Err(name + " environment override must be an integer"@),
            }
        } else {
            Ok(fallback)
        },
        None => Ok(fallback),
    }
}

/// The words that a variable holds, or a fallback where it is not set.
pub open spec fn env_words(env: Vars, name: Seq<char>, fallback: Seq<Seq<char>>) -> Result<
    Seq<Seq<char>>,
    Seq<char>,
> {
    match variable(env, name) {
        Some(value) => match words_of(value) {
            Ok(words) => Ok(words),
            Err(message) => Err("cannot parse "@ + name + ": "@ + message),
        },
        None => Ok(fallback),
    }
}

/// The value of a variable, or a fallback where it is not set or empty.
pub fn env_text(env: &Env, name: &str, fallback: String) -> (result: String)
    ensures
        result@ == env_or(env@, name@, fallback@),
{
    match env.get(name) {
        Some(value) => if value.is_empty() {
            fallback
        } else {
            value.to_owned()
        },
        None => fallback,
    }
}

/// The value of a variable, even an empty one, or a fallback.
pub fn env_override(env: &Env, name: &str, fallback: String) -> (result: String)
    ensures
        result@ == env_or_unset(env@, name@, fallback@),
{
    match env.get(name) {
        Some(value) => value.to_owned(),
        None => fallback,
    }
}

/// The integer that a variable holds, or a fallback where it is not set or empty.
pub fn env_integer(env: &Env, name: &str, fallback: i64) -> (result: Result<i64, BridgeError>)
    ensures
        outcome(result) == env_number(env@, name@, fallback),
{
    match env.get(name) {
        Some(value) => if value.is_empty() {
            Ok(fallback)
        } else {
            match parse_decimal(value) {
                Some(n) => Ok(n),
                None => Err(
                    BridgeError(concat2(name, " environment override must be an integer")),
                ),
            }
        },
        None => Ok(fallback),
    }
}

/// The words that a variable holds, or a fallback where it is not set.
pub fn env_arguments(env: &Env, name: &str, fallback: Vec<String>) -> (result: Result<
    Vec<String>,
    BridgeError,
>)
    ensures
        list_outcome(result) == env_words(env@, name@, text_views(fallback@)),
{
    match env.get(name) {
        Some(value) => match shlex_split(value) {
            Ok(words) => Ok(words),
            Err(message) => Err(BridgeError(concat4("cannot parse ", name, ": ", message))),
        },
        None => Ok(fallback),
    }
}

/// The directory of PowerView for an operating system.
pub open spec fn host_of(os: Seq<char>) -> Result<Seq<char>, Seq<char>> {
    if os == "macos"@ {
        Ok("macosx64"@)
    } else if os == "linux"@ {
        Ok("linux64"@)
    } else {
        Err(
            "cannot auto-detect the TRACE32 host directory on "@ + os + "; set trace32.host"@,
        )
    }
}

/// The directory of PowerView for an operating system.
pub fn host_default(os: &str) -> (result: Result<String, BridgeError>)
    ensures
        text_outcome(result) == host_of(os@),
{
    if same(os, "macos") {
        Ok("macosx64".to_owned())
    } else if same(os, "linux") {
        Ok("linux64".to_owned())
    } else {
        Err(
            BridgeError(
                concat3(
                    "cannot auto-detect the TRACE32 host directory on ",
                    os,
                    "; set trace32.host",
                ),
            ),
        )
    }
}

/// The directory that a path lies in, as it is written; the root for the root
/// itself.
pub open spec fn directory_of(path: Seq<char>) -> Seq<char> {
    match parent_of(path) {
        Some(directory) => directory,
        None => seq!['/'],
    }
}

/// The directory that a path lies in.
pub fn parent_directory(path: &str) -> (result: String)
    ensures
        result@ == directory_of(path@),
{
    match parent(path) {
        Some(directory) => directory,
        None => {
            let mut root: Vec<char> = Vec::new();
            root.push('/');
            assert(root@ =~= seq!['/']);
            string_of(&root)
        },
    }
}

/// The nearest configuration file in a directory or in one above it.
pub open spec fn nearest(directory: Seq<char>, world: Known) -> Found<Option<Seq<char>>>
    decreases directory.len(),
    via nearest_goes_up
{
    let candidate = joined(directory, CONFIG_FILE_NAME@);
    match ask(world, QuestionView::File(candidate)) {
        Found::Ask(question) => Found::Ask(question),
        Found::Found(Some(_)) => Found::Found(Some(candidate)),
        Found::Found(None) => match parent_of(directory) {
            Some(up) => nearest(up, world),
            None => Found::Found(None),
        },
    }
}

#[via_fn]
proof fn nearest_goes_up(directory: Seq<char>, world: Known) {
    lemma_parent_is_shorter(directory);
}

/// The configuration file: the one that was named, else the nearest one upwards
/// from the working directory.
pub open spec fn config_file_found(
    explicit: Option<Seq<char>>,
    cwd: Seq<char>,
    env: Vars,
    world: Known,
) -> Found<Result<Seq<char>, Seq<char>>> {
    match explicit {
        Some(path) => match user_expanded(path, env, world) {
            Found::Ask(question) => Found::Ask(question),
            Found::Found(expanded) => match resolved(expanded, cwd, world) {
                Found::Ask(question) => Found::Ask(question),
                Found::Found(file) => Found::Found(Ok(file)),
            },
        },
        None => match nearest(cwd, world) {
            Found::Ask(question) => Found::Ask(question),
            Found::Found(Some(candidate)) => match resolved(candidate, cwd, world) {
                Found::Ask(question) => Found::Ask(question),
                Found::Found(file) => Found::Found(Ok(file)),
            },
            Found::Found(None) => Found::Found(
                Err(
                    "no trace32.toml found in "@ + cwd
                        + " or any parent directory; run 'tracebridge init' to create one, or pass --config"@,
                ),
            ),
        },
    }
}

/// The content of a lookup of a result that is a text.
pub open spec fn result_lookup(lookup: Lookup<Result<String, BridgeError>>) -> Found<
    Result<Seq<char>, Seq<char>>,
> {
    match lookup {
        Lookup::Found(result) => Found::Found(text_outcome(result)),
        Lookup::Ask(question) => Found::Ask(question@),
    }
}

fn resolve_found(path: &str, base: &str, world: &World) -> (result: Lookup<
    Result<String, BridgeError>,
>)
    ensures
        result_lookup(result) == (match resolved(path@, base@, world@) {
            Found::Found(file) => Found::Found(Ok::<_, Seq<char>>(file)),
            Found::Ask(question) => Found::Ask(question),
        }),
{
    match resolve(path, base, world) {
        Lookup::Found(file) => Lookup::Found(Ok(file)),
        Lookup::Ask(question) => Lookup::Ask(question),
    }
}

/// Finds the configuration: the file that was named, else the nearest one in the
/// working directory or above it.
pub fn find_config_file(explicit: Option<&str>, cwd: &str, env: &Env, world: &World) -> (result:
    Lookup<Result<String, BridgeError>>)
    ensures
        result_lookup(result) == config_file_found(
            match explicit {
                Some(path) => Some(path@),
                None => None,
            },
            cwd@,
            env@,
            world@,
        ),
{
    match explicit {
        Some(path) => match expanduser(path, env, world) {
            Lookup::Ask(question) => Lookup::Ask(question),
            Lookup::Found(expanded) => resolve_found(&expanded, cwd, world),
        },
        None => {
            let mut directory = cwd.to_owned();
            loop
                invariant
                    explicit is None,
                    nearest(cwd@, world@) == nearest(directory@, world@),
                decreases directory@.len(),
            {
                let candidate = join(&directory, CONFIG_FILE_NAME);
                match world.ask(Question::File(candidate.clone())) {
                    Lookup::Ask(question) => {
                        return Lookup::Ask(question);
                    },
                    Lookup::Found(Some(_)) => {
                        return resolve_found(&candidate, cwd, world);
                    },
                    Lookup::Found(None) => {},
                }
                proof {
                    lemma_parent_is_shorter(directory@);
                }
                match parent(&directory) {
                    Some(up) => {
                        directory = up;
                    },
                    None => {
                        return Lookup::Found(
                            Err(
                                BridgeError(
                                    concat3(
                                        "no trace32.toml found in ",
                                        cwd,
                                        " or any parent directory; run 'tracebridge init' to create one, or pass --config",
                                    ),
                                ),
                            ),
                        );
                    },
                }
            }
        },
    }
}

/// The number of line ends among bytes.
pub open spec fn line_ends(bytes: Seq<u8>) -> nat
    decreases bytes.len(),
{
    if bytes.len() == 0 {
        0
    } else if bytes.last() == 10 {
        line_ends(bytes.drop_last()) + 1
    } else {
        line_ends(bytes.drop_last())
    }
}

/// The number of bytes behind the last line end.
pub open spec fn last_line_length(bytes: Seq<u8>) -> nat
    decreases bytes.len(),
{
    if bytes.len() == 0 || bytes.last() == 10 {
        0
    } else {
        last_line_length(bytes.drop_last()) + 1
    }
}

/// The complaint about a file that is no TOML, with the line and column where
/// that is known.
pub open spec fn parse_complaint(file: Seq<char>, source: Seq<char>, error: TomlErrorView) -> Seq<
    char,
> {
    let raw = encode_utf8(source);
    "cannot parse "@ + file + ": "@ + trim_end(error.message) + (match error.start {
        Some(start) => {
            let before = raw.take(
                if start <= raw.len() {
                    start as int
                } else {
                    raw.len() as int
                },
            );
            " (at line "@ + decimal_text(line_ends(before) + 1) + ", column "@ + decimal_text(
                last_line_length(before) + 1,
            ) + ")"@
        },
        None => seq![],
    })
}

fn parse_failure(file: &str, source: &str, error: &TomlError) -> (result: BridgeError)
    ensures
        result@ == parse_complaint(file@, source@, error@),
{
    let raw = source.as_bytes();
    let message = chars_of(&error.message);
    let mut end: usize = message.len();
    assert(message@.take(end as int) =~= message@);
    while end > 0 && whitespace(message[end - 1])
        invariant
            end <= message@.len(),
            trim_end(message@) == trim_end(message@.take(end as int)),
        decreases end,
    {
        assert(message@.take(end as int).drop_last() =~= message@.take(end as int - 1));
        end = end - 1;
    }
    let trimmed = copy_range(&message, 0, end);
    assert(trimmed@ =~= message@.take(end as int));
    let mut text = concat4("cannot parse ", file, ": ", &string_of(&trimmed));
    match error.start {
        Some(start) => {
            let limit: usize = if start <= raw.len() {
                start
            } else {
                raw.len()
            };
            let mut line: u128 = 1;
            let mut column: u128 = 1;
            let mut i: usize = 0;
            while i < limit
                invariant
                    i <= limit <= raw@.len(),
                    line == line_ends(raw@.take(i as int)) + 1,
                    column == last_line_length(raw@.take(i as int)) + 1,
                    line <= i + 1,
                    column <= i + 1,
                decreases limit - i,
            {
                assert(raw@.take(i as int + 1).drop_last() =~= raw@.take(i as int));
                if raw[i] == 10 {
                    line = line + 1;
                    column = 1;
                } else {
                    column = column + 1;
                }
                i = i + 1;
            }
            let place = concat5(
                " (at line ",
                &decimal(line),
                ", column ",
                &decimal(column),
                ")",
            );
            text.append(&place);
        },
        None => {
            assert(text@ + seq![] =~= text@);
        },
    }
    BridgeError(text)
}

/// The sections of the document.
pub ghost struct SectionsView {
    pub project: Option<Entries>,
    pub target: Option<Entries>,
    pub flash: Option<Entries>,
    pub rtos: Option<Entries>,
    pub trace32: Option<Entries>,
    pub rtt: Option<Entries>,
}

/// The sections of the document, or the complaint about the first that is none.
pub open spec fn sections_of(document: Entries) -> Result<SectionsView, Seq<char>> {
    match section(document, "project"@) {
        Err(e) => Err(e),
        Ok(project) => match section(document, "target"@) {
            Err(e) => Err(e),
            Ok(target) => match section(document, "flash"@) {
                Err(e) => Err(e),
                Ok(flash) => match section(document, "rtos"@) {
                    Err(e) => Err(e),
                    Ok(rtos) => match section(document, "trace32"@) {
                        Err(e) => Err(e),
                        Ok(trace32) => match section(document, "rtt"@) {
                            Err(e) => Err(e),
                            Ok(rtt) => Ok(
                                SectionsView { project, target, flash, rtos, trace32, rtt },
                            ),
                        },
                    },
                },
            },
        },
    }
}

struct Sections<'a> {
    project: Option<&'a Vec<(String, Toml)>>,
    target: Option<&'a Vec<(String, Toml)>>,
    flash: Option<&'a Vec<(String, Toml)>>,
    rtos: Option<&'a Vec<(String, Toml)>>,
    trace32: Option<&'a Vec<(String, Toml)>>,
    rtt: Option<&'a Vec<(String, Toml)>>,
}

impl<'a> View for Sections<'a> {
    type V = SectionsView;

    closed spec fn view(&self) -> SectionsView {
        SectionsView {
            project: table_view(self.project),
            target: table_view(self.target),
            flash: table_view(self.flash),
            rtos: table_view(self.rtos),
            trace32: table_view(self.trace32),
            rtt: table_view(self.rtt),
        }
    }
}

fn read_sections<'a>(document: &'a Vec<(String, Toml)>) -> (result: Result<
    Sections<'a>,
    BridgeError,
>)
    ensures
        match result {
            Ok(sections) => sections_of(entry_views(document@)) == Ok::<_, Seq<char>>(sections@),
            Err(error) => sections_of(entry_views(document@)) == Err::<SectionsView, _>(error@),
        },
{
    let project = match table(document, "project") {
        Ok(table) => table,
        Err(error) => {
            return Err(error);
        },
    };
    let target = match table(document, "target") {
        Ok(table) => table,
        Err(error) => {
            return Err(error);
        },
    };
    let flash = match table(document, "flash") {
        Ok(table) => table,
        Err(error) => {
            return Err(error);
        },
    };
    let rtos = match table(document, "rtos") {
        Ok(table) => table,
        Err(error) => {
            return Err(error);
        },
    };
    let trace32 = match table(document, "trace32") {
        Ok(table) => table,
        Err(error) => {
            return Err(error);
        },
    };
    let rtt = match table(document, "rtt") {
        Ok(table) => table,
        Err(error) => {
            return Err(error);
        },
    };
    Ok(Sections { project, target, flash, rtos, trace32, rtt })
}

/// The path that a value names: expanded, and resolved against a directory.
pub open spec fn full_path(value: Seq<char>, base: Seq<char>, env: Vars, world: Known) -> Found<
    Seq<char>,
> {
    match path_expanded(value, env, world) {
        Found::Found(text) => resolved(text, base, world),
        Found::Ask(question) => Found::Ask(question),
    }
}

fn find_path(value: &str, base: &str, env: &Env, world: &World) -> (result: Lookup<String>)
    ensures
        text_lookup(result) == full_path(value@, base@, env@, world@),
{
    match expand_path(value, env, world) {
        Lookup::Found(text) => resolve(&text, base, world),
        Lookup::Ask(question) => Lookup::Ask(question),
    }
}

/// The directory that the program is built in: what `PROJECT_ROOT` names, or
/// that of the configuration.
pub open spec fn project_root(config_dir: Seq<char>, env: Vars, world: Known) -> Found<
    Result<Seq<char>, Seq<char>>,
> {
    let value = env_or(env, "PROJECT_ROOT"@, seq![]);
    if value.len() == 0 {
        Found::Found(Ok(config_dir))
    } else {
        match full_path(value, config_dir, env, world) {
            Found::Ask(question) => Found::Ask(question),
            Found::Found(path) => match ask(world, QuestionView::Directory(path)) {
                Found::Ask(question) => Found::Ask(question),
                Found::Found(Some(_)) => Found::Found(Ok(path)),
                Found::Found(None) => Found::Found(
                    Err("PROJECT_ROOT does not resolve to a directory: "@ + path),
                ),
            },
        }
    }
}

fn find_project_root(config_dir: &str, env: &Env, world: &World) -> (result: Lookup<
    Result<String, BridgeError>,
>)
    ensures
        result_lookup(result) == project_root(config_dir@, env@, world@),
{
    let none = String::new();
    assert(none@ =~= seq![]);
    let value = env_text(env, "PROJECT_ROOT", none);
    if value.as_str().is_empty() {
        return Lookup::Found(Ok(config_dir.to_owned()));
    }
    match find_path(&value, config_dir, env, world) {
        Lookup::Ask(question) => Lookup::Ask(question),
        Lookup::Found(path) => match world.ask(Question::Directory(path.clone())) {
            Lookup::Ask(question) => Lookup::Ask(question),
            Lookup::Found(Some(_)) => Lookup::Found(Ok(path)),
            Lookup::Found(None) => Lookup::Found(
                Err(
                    BridgeError(
                        concat2("PROJECT_ROOT does not resolve to a directory: ", &path),
                    ),
                ),
            ),
        },
    }
}

/// The directory that PowerView is installed in: what the environment or the
/// configuration names, or `t32` in the home directory.
pub open spec fn system_path(
    trace32: Option<Entries>,
    config_dir: Seq<char>,
    env: Vars,
    world: Known,
) -> Found<Result<Seq<char>, Seq<char>>> {
    match text_setting(trace32, "sys"@, ""@) {
        Err(e) => Found::Found(Err(e)),
        Ok(configured) => match user_expanded("~"@, env, world) {
            Found::Ask(question) => if configured.len() == 0 {
                Found::Ask(question)
            } else {
                system_path_from(configured, config_dir, env, world)
            },
            Found::Found(home) => system_path_from(
                if configured.len() == 0 {
                    joined(home, "t32"@)
                } else {
                    configured
                },
                config_dir,
                env,
                world,
            ),
        },
    }
}

/// The directory that PowerView is installed in, unless the environment says
/// otherwise.
pub open spec fn system_path_from(
    fallback: Seq<char>,
    config_dir: Seq<char>,
    env: Vars,
    world: Known,
) -> Found<Result<Seq<char>, Seq<char>>> {
    match full_path(env_or(env, "T32_SYS"@, env_or(env, "T32SYS"@, fallback)), config_dir, env, world) {
        Found::Ask(question) => Found::Ask(question),
        Found::Found(path) => Found::Found(Ok(path)),
    }
}

fn find_system(
    trace32: Option<&Vec<(String, Toml)>>,
    config_dir: &str,
    env: &Env,
    world: &World,
) -> (result: Lookup<Result<String, BridgeError>>)
    ensures
        result_lookup(result) == system_path(table_view(trace32), config_dir@, env@, world@),
{
    let configured = match text(trace32, "sys", "") {
        Ok(text) => text,
        Err(error) => {
            return Lookup::Found(Err(error));
        },
    };
    let fallback = if configured.as_str().is_empty() {
        match expanduser("~", env, world) {
            Lookup::Ask(question) => {
                return Lookup::Ask(question);
            },
            Lookup::Found(home) => join(&home, "t32"),
        }
    } else {
        configured
    };
    let value = env_text(env, "T32_SYS", env_text(env, "T32SYS", fallback));
    match find_path(&value, config_dir, env, world) {
        Lookup::Ask(question) => Lookup::Ask(question),
        Lookup::Found(path) => Lookup::Found(Ok(path)),
    }
}

/// Where things lie.
pub ghost struct PlacesView {
    pub project_dir: Seq<char>,
    pub elf: Seq<char>,
    pub sys: Seq<char>,
    pub host: Seq<char>,
}

/// Where the project, its program and PowerView lie.
pub open spec fn places_of(
    sections: SectionsView,
    config_dir: Seq<char>,
    env: Vars,
    os: Seq<char>,
    world: Known,
) -> Found<Result<PlacesView, Seq<char>>> {
    match project_root(config_dir, env, world) {
        Found::Ask(q) => Found::Ask(q),
        Found::Found(Err(e)) => Found::Found(Err(e)),
        Found::Found(Ok(project_dir)) => match text_setting(sections.project, "elf"@, ""@) {
            Err(e) => Found::Found(Err(e)),
            Ok(named) => match full_path(env_or(env, "ELF"@, named), project_dir, env, world) {
                Found::Ask(q) => Found::Ask(q),
                Found::Found(elf) => match system_path(sections.trace32, config_dir, env, world) {
                    Found::Ask(q) => Found::Ask(q),
                    Found::Found(Err(e)) => Found::Found(Err(e)),
                    Found::Found(Ok(sys)) => match text_setting(sections.trace32, "host"@, ""@) {
                        Err(e) => Found::Found(Err(e)),
                        Ok(configured) => {
                            let host = env_or(env, "T32_HOST"@, configured);
                            if host.len() > 0 {
                                Found::Found(Ok(PlacesView { project_dir, elf, sys, host }))
                            } else {
                                match host_of(os) {
                                    Err(e) => Found::Found(Err(e)),
                                    Ok(host) => Found::Found(
                                        Ok(PlacesView { project_dir, elf, sys, host }),
                                    ),
                                }
                            }
                        },
                    },
                },
            },
        },
    }
}

struct Places {
    project_dir: String,
    elf: String,
    sys: String,
    host: String,
}

impl View for Places {
    type V = PlacesView;

    closed spec fn view(&self) -> PlacesView {
        PlacesView {
            project_dir: self.project_dir@,
            elf: self.elf@,
            sys: self.sys@,
            host: self.host@,
        }
    }
}

fn find_places(sections: &Sections, config_dir: &str, env: &Env, os: &str, world: &World) -> (result:
    Lookup<Result<Places, BridgeError>>)
    ensures
        match result {
            Lookup::Found(Ok(places)) => places_of(sections@, config_dir@, env@, os@, world@)
                == Found::Found(Ok::<_, Seq<char>>(places@)),
            Lookup::Found(Err(error)) => places_of(sections@, config_dir@, env@, os@, world@)
                == Found::Found(Err::<PlacesView, _>(error@)),
            Lookup::Ask(question) => places_of(sections@, config_dir@, env@, os@, world@)
                == Found::<Result<PlacesView, Seq<char>>>::Ask(question@),
        },
{
    let project_dir = match find_project_root(config_dir, env, world) {
        Lookup::Ask(question) => {
            return Lookup::Ask(question);
        },
        Lookup::Found(Err(error)) => {
            return Lookup::Found(Err(error));
        },
        Lookup::Found(Ok(path)) => path,
    };
    let named = match text(sections.project, "elf", "") {
        Ok(text) => text,
        Err(error) => {
            return Lookup::Found(Err(error));
        },
    };
    let elf = match find_path(&env_text(env, "ELF", named), &project_dir, env, world) {
        Lookup::Ask(question) => {
            return Lookup::Ask(question);
        },
        Lookup::Found(path) => path,
    };
    let sys = match find_system(sections.trace32, config_dir, env, world) {
        Lookup::Ask(question) => {
            return Lookup::Ask(question);
        },
        Lookup::Found(Err(error)) => {
            return Lookup::Found(Err(error));
        },
        Lookup::Found(Ok(path)) => path,
    };
    let configured = match text(sections.trace32, "host", "") {
        Ok(text) => text,
        Err(error) => {
            return Lookup::Found(Err(error));
        },
    };
    let mut host = env_text(env, "T32_HOST", configured);
    if host.as_str().is_empty() {
        match host_default(os) {
            Ok(name) => {
                host = name;
            },
            Err(error) => {
                return Lookup::Found(Err(error));
            },
        }
    }
    Lookup::Found(Ok(Places { project_dir, elf, sys, host }))
}

/// The programs and files of PowerView.
pub ghost struct ToolsView {
    pub binary: Seq<char>,
    pub config: Seq<char>,
    pub adapter: Seq<char>,
}

/// The path that a value names, or another where it is empty.
pub open spec fn path_or(
    value: Seq<char>,
    fallback: Seq<char>,
    config_dir: Seq<char>,
    env: Vars,
    world: Known,
) -> Found<Seq<char>> {
    if value.len() == 0 {
        Found::Found(fallback)
    } else {
        full_path(value, config_dir, env, world)
    }
}

fn find_path_or(value: &str, fallback: String, config_dir: &str, env: &Env, world: &World) -> (result:
    Lookup<String>)
    ensures
        text_lookup(result) == path_or(value@, fallback@, config_dir@, env@, world@),
{
    if value.is_empty() {
        Lookup::Found(fallback)
    } else {
        find_path(value, config_dir, env, world)
    }
}

/// The programs and files of PowerView: each by its own setting, or in its place
/// under the directory of PowerView.
pub open spec fn tools_of(
    trace32: Option<Entries>,
    config_dir: Seq<char>,
    sys: Seq<char>,
    host: Seq<char>,
    env: Vars,
    world: Known,
) -> Found<Result<ToolsView, Seq<char>>> {
    match text_setting(trace32, "executable"@, "t32marm-qt"@) {
        Err(e) => Found::Found(Err(e)),
        Ok(executable) => match text_setting(trace32, "binary"@, ""@) {
            Err(e) => Found::Found(Err(e)),
            Ok(binary) => match text_setting(trace32, "config"@, ""@) {
                Err(e) => Found::Found(Err(e)),
                Ok(config) => match text_setting(trace32, "debug_adapter"@, ""@) {
                    Err(e) => Found::Found(Err(e)),
                    Ok(adapter) => match path_or(
                        env_or(env, "T32_BIN"@, binary),
                        joined(
                            joined(joined(sys, "bin"@), host),
                            env_or(env, "T32_EXE"@, executable),
                        ),
                        config_dir,
                        env,
                        world,
                    ) {
                        Found::Ask(q) => Found::Ask(q),
                        Found::Found(binary) => match path_or(
                            env_or(env, "T32_CONFIG"@, config),
                            joined(sys, "config.t32"@),
                            config_dir,
                            env,
                            world,
                        ) {
                            Found::Ask(q) => Found::Ask(q),
                            Found::Found(config) => match path_or(
                                env_or(env, "T32_DEBUG_ADAPTER"@, adapter),
                                joined(
                                    joined(joined(sys, "demo/env/vscode/bin"@), host),
                                    "t32debugadapter"@,
                                ),
                                config_dir,
                                env,
                                world,
                            ) {
                                Found::Ask(q) => Found::Ask(q),
                                Found::Found(adapter) => Found::Found(
                                    Ok(ToolsView { binary, config, adapter }),
                                ),
                            },
                        },
                    },
                },
            },
        },
    }
}

struct Tools {
    binary: String,
    config: String,
    adapter: String,
}

impl View for Tools {
    type V = ToolsView;

    closed spec fn view(&self) -> ToolsView {
        ToolsView { binary: self.binary@, config: self.config@, adapter: self.adapter@ }
    }
}

fn find_tools(
    trace32: Option<&Vec<(String, Toml)>>,
    config_dir: &str,
    sys: &str,
    host: &str,
    env: &Env,
    world: &World,
) -> (result: Lookup<Result<Tools, BridgeError>>)
    ensures
        match result {
            Lookup::Found(Ok(tools)) => tools_of(
                table_view(trace32),
                config_dir@,
                sys@,
                host@,
                env@,
                world@,
            ) == Found::Found(Ok::<_, Seq<char>>(tools@)),
            Lookup::Found(Err(error)) => tools_of(
                table_view(trace32),
                config_dir@,
                sys@,
                host@,
                env@,
                world@,
            ) == Found::Found(Err::<ToolsView, _>(error@)),
            Lookup::Ask(question) => tools_of(
                table_view(trace32),
                config_dir@,
                sys@,
                host@,
                env@,
                world@,
            ) == Found::<Result<ToolsView, Seq<char>>>::Ask(question@),
        },
{
    let executable = match text(trace32, "executable", "t32marm-qt") {
        Ok(text) => text,
        Err(error) => {
            return Lookup::Found(Err(error));
        },
    };
    let binary = match text(trace32, "binary", "") {
        Ok(text) => text,
        Err(error) => {
            return Lookup::Found(Err(error));
        },
    };
    let config = match text(trace32, "config", "") {
        Ok(text) => text,
        Err(error) => {
            return Lookup::Found(Err(error));
        },
    };
    let adapter = match text(trace32, "debug_adapter", "") {
        Ok(text) => text,
        Err(error) => {
            return Lookup::Found(Err(error));
        },
    };
    let binary_default = join(
        &join(&join(sys, "bin"), host),
        &env_text(env, "T32_EXE", executable),
    );
    let binary = match find_path_or(
        &env_text(env, "T32_BIN", binary),
        binary_default,
        config_dir,
        env,
        world,
    ) {
        Lookup::Ask(question) => {
            return Lookup::Ask(question);
        },
        Lookup::Found(path) => path,
    };
    let config = match find_path_or(
        &env_text(env, "T32_CONFIG", config),
        join(sys, "config.t32"),
        config_dir,
        env,
        world,
    ) {
        Lookup::Ask(question) => {
            return Lookup::Ask(question);
        },
        Lookup::Found(path) => path,
    };
    let adapter_default = join(&join(&join(sys, "demo/env/vscode/bin"), host), "t32debugadapter");
    let adapter = match find_path_or(
        &env_text(env, "T32_DEBUG_ADAPTER", adapter),
        adapter_default,
        config_dir,
        env,
        world,
    ) {
        Lookup::Ask(question) => {
            return Lookup::Ask(question);
        },
        Lookup::Found(path) => path,
    };
    Lookup::Found(Ok(Tools { binary, config, adapter }))
}

/// The address of the RTT control block: empty for none, or an integer of at most
/// 64 bits.
pub open spec fn block_address(rtt: Option<Entries>) -> Result<Option<u64>, Seq<char>> {
    match text_setting(rtt, "control_block_address"@, ""@) {
        Err(e) => Err(e),
        Ok(value) => if value.len() == 0 {
            Ok(None)
        } else {
            match auto_value(value) {
                Some(n) => if 0 <= n <= u64::MAX {
                    Ok(Some(n as u64))
                } else {
                    Err(bad_block_address())
                },
                None => Err(bad_block_address()),
            }
        },
    }
}

/// The complaint about the address of the RTT control block.
pub open spec fn bad_block_address() -> Seq<char> {
    "rtt.control_block_address must be empty or an integer such as 0x20000000"@
}

fn find_block_address(rtt: Option<&Vec<(String, Toml)>>) -> (result: Result<
    Option<u64>,
    BridgeError,
>)
    ensures
        outcome(result) == block_address(table_view(rtt)),
{
    let value = match text(rtt, "control_block_address", "") {
        Ok(text) => text,
        Err(error) => {
            return Err(error);
        },
    };
    if value.as_str().is_empty() {
        return Ok(None);
    }
    match parse_int_auto(&value) {
        Some(n) => if 0 <= n && n <= u64::MAX as i128 {
            Ok(Some(n as u64))
        } else {
            Err(
                BridgeError::new(
                    "rtt.control_block_address must be empty or an integer such as 0x20000000",
                ),
            )
        },
        None => Err(
            BridgeError::new(
                "rtt.control_block_address must be empty or an integer such as 0x20000000",
            ),
        ),
    }
}

/// The settings of the target.
pub ghost struct TargetView {
    pub program: Seq<char>,
    pub cpu: Seq<char>,
    pub cores: Seq<char>,
    pub mem_access: Seq<char>,
    pub jtag_clock: Seq<char>,
    pub dual_port: Seq<char>,
}

/// A setting that a variable overrides, even an empty one.
pub open spec fn overridden(
    table: Option<Entries>,
    key: Seq<char>,
    default: Seq<char>,
    env: Vars,
    name: Seq<char>,
) -> Result<Seq<char>, Seq<char>> {
    match text_setting(table, key, default) {
        Err(e) => Err(e),
        Ok(value) => Ok(env_or_unset(env, name, value)),
    }
}

fn override_text(
    table: Option<&Vec<(String, Toml)>>,
    key: &str,
    default: &str,
    env: &Env,
    name: &str,
) -> (result: Result<String, BridgeError>)
    ensures
        text_outcome(result) == overridden(table_view(table), key@, default@, env@, name@),
{
    match text(table, key, default) {
        Err(error) => Err(error),
        Ok(value) => Ok(env_override(env, name, value)),
    }
}

/// The settings of the program and of the target.
pub open spec fn target_of(sections: SectionsView, env: Vars) -> Result<TargetView, Seq<char>> {
    match overridden(sections.project, "program"@, ""@, env, "PROGRAM_NAME"@) {
        Err(e) => Err(e),
        Ok(program) => match overridden(sections.target, "cpu"@, ""@, env, "T32_CPU"@) {
            Err(e) => Err(e),
            Ok(cpu) => match overridden(sections.target, "cores"@, "1."@, env, "T32_CORES"@) {
                Err(e) => Err(e),
                Ok(cores) => match overridden(
                    sections.target,
                    "mem_access"@,
                    ""@,
                    env,
                    "T32_MEMACCESS"@,
                ) {
                    Err(e) => Err(e),
                    Ok(mem_access) => match overridden(
                        sections.target,
                        "jtag_clock"@,
                        ""@,
                        env,
                        "T32_JTAG_CLOCK"@,
                    ) {
                        Err(e) => Err(e),
                        Ok(jtag_clock) => match overridden(
                            sections.target,
                            "dual_port"@,
                            ""@,
                            env,
                            "T32_DUALPORT"@,
                        ) {
                            Err(e) => Err(e),
                            Ok(dual_port) => Ok(
                                TargetView {
                                    program,
                                    cpu,
                                    cores,
                                    mem_access,
                                    jtag_clock,
                                    dual_port,
                                },
                            ),
                        },
                    },
                },
            },
        },
    }
}

struct Target {
    program: String,
    cpu: String,
    cores: String,
    mem_access: String,
    jtag_clock: String,
    dual_port: String,
}

impl View for Target {
    type V = TargetView;

    closed spec fn view(&self) -> TargetView {
        TargetView {
            program: self.program@,
            cpu: self.cpu@,
            cores: self.cores@,
            mem_access: self.mem_access@,
            jtag_clock: self.jtag_clock@,
            dual_port: self.dual_port@,
        }
    }
}

fn read_target(sections: &Sections, env: &Env) -> (result: Result<Target, BridgeError>)
    ensures
        match result {
            Ok(target) => target_of(sections@, env@) == Ok::<_, Seq<char>>(target@),
            Err(error) => target_of(sections@, env@) == Err::<TargetView, _>(error@),
        },
{
    let program = match override_text(sections.project, "program", "", env, "PROGRAM_NAME") {
        Ok(text) => text,
        Err(error) => {
            return Err(error);
        },
    };
    let cpu = match override_text(sections.target, "cpu", "", env, "T32_CPU") {
        Ok(text) => text,
        Err(error) => {
            return Err(error);
        },
    };
    let cores = match override_text(sections.target, "cores", "1.", env, "T32_CORES") {
        Ok(text) => text,
        Err(error) => {
            return Err(error);
        },
    };
    let mem_access = match override_text(sections.target, "mem_access", "", env, "T32_MEMACCESS") {
        Ok(text) => text,
        Err(error) => {
            return Err(error);
        },
    };
    let jtag_clock = match override_text(sections.target, "jtag_clock", "", env, "T32_JTAG_CLOCK") {
        Ok(text) => text,
        Err(error) => {
            return Err(error);
        },
    };
    let dual_port = match override_text(sections.target, "dual_port", "", env, "T32_DUALPORT") {
        Ok(text) => text,
        Err(error) => {
            return Err(error);
        },
    };
    Ok(Target { program, cpu, cores, mem_access, jtag_clock, dual_port })
}

/// The settings of the operating system on the target and of its flash memory.
pub ghost struct FlashView {
    pub rtos_config: Seq<char>,
    pub rtos_menu: Seq<char>,
    pub rtos_show_tasks: bool,
    pub chip: Seq<char>,
    pub script: Seq<char>,
    pub args: Seq<Seq<char>>,
}

/// The settings of the operating system on the target and of its flash memory.
pub open spec fn flash_of(sections: SectionsView, env: Vars) -> Result<FlashView, Seq<char>> {
    match text_setting(sections.rtos, "config"@, ""@) {
        Err(e) => Err(e),
        Ok(rtos_config) => match text_setting(sections.rtos, "menu"@, ""@) {
            Err(e) => Err(e),
            Ok(rtos_menu) => match boolean_setting(sections.rtos, "show_tasks"@, false) {
                Err(e) => Err(e),
                Ok(rtos_show_tasks) => match text_setting(sections.flash, "chip"@, ""@) {
                    Err(e) => Err(e),
                    Ok(chip) => match overridden(
                        sections.flash,
                        "script"@,
                        ""@,
                        env,
                        "T32_FLASH_SCRIPT"@,
                    ) {
                        Err(e) => Err(e),
                        Ok(script) => match list_setting(sections.flash, "args"@) {
                            Err(e) => Err(e),
                            Ok(listed) => match env_words(env, "T32_FLASH_ARGS"@, listed) {
                                Err(e) => Err(e),
                                Ok(args) => Ok(
                                    FlashView {
                                        rtos_config,
                                        rtos_menu,
                                        rtos_show_tasks,
                                        chip: env_or(env, "T32_FLASH_CHIP"@, chip),
                                        script,
                                        args,
                                    },
                                ),
                            },
                        },
                    },
                },
            },
        },
    }
}

struct Flash {
    rtos_config: String,
    rtos_menu: String,
    rtos_show_tasks: bool,
    chip: String,
    script: String,
    args: Vec<String>,
}

impl View for Flash {
    type V = FlashView;

    closed spec fn view(&self) -> FlashView {
        FlashView {
            rtos_config: self.rtos_config@,
            rtos_menu: self.rtos_menu@,
            rtos_show_tasks: self.rtos_show_tasks,
            chip: self.chip@,
            script: self.script@,
            args: text_views(self.args@),
        }
    }
}

fn read_flash(sections: &Sections, env: &Env) -> (result: Result<Flash, BridgeError>)
    ensures
        match result {
            Ok(flash) => flash_of(sections@, env@) == Ok::<_, Seq<char>>(flash@),
            Err(error) => flash_of(sections@, env@) == Err::<FlashView, _>(error@),
        },
{
    let rtos_config = match text(sections.rtos, "config", "") {
        Ok(text) => text,
        Err(error) => {
            return Err(error);
        },
    };
    let rtos_menu = match text(sections.rtos, "menu", "") {
        Ok(text) => text,
        Err(error) => {
            return Err(error);
        },
    };
    let rtos_show_tasks = match boolean(sections.rtos, "show_tasks", false) {
        Ok(flag) => flag,
        Err(error) => {
            return Err(error);
        },
    };
    let chip = match text(sections.flash, "chip", "") {
        Ok(text) => env_text(env, "T32_FLASH_CHIP", text),
        Err(error) => {
            return Err(error);
        },
    };
    let script = match override_text(sections.flash, "script", "", env, "T32_FLASH_SCRIPT") {
        Ok(text) => text,
        Err(error) => {
            return Err(error);
        },
    };
    let listed = match string_list(sections.flash, "args") {
        Ok(list) => list,
        Err(error) => {
            return Err(error);
        },
    };
    let args = match env_arguments(env, "T32_FLASH_ARGS", listed) {
        Ok(list) => list,
        Err(error) => {
            return Err(error);
        },
    };
    Ok(Flash { rtos_config, rtos_menu, rtos_show_tasks, chip, script, args })
}

/// The ports and times as they are written, before they are checked.
#[derive(Debug, Clone, Copy)]
pub struct Numbers {
    pub rcl_port: i64,
    pub dap_port: i64,
    pub dap_backend_port: i64,
    pub dap_backend_timeout: i64,
    pub operation_timeout: i64,
}

/// An integer setting that a variable overrides, unless it is empty.
pub open spec fn overridden_number(
    table: Option<Entries>,
    key: Seq<char>,
    default: i64,
    env: Vars,
    name: Seq<char>,
) -> Result<i64, Seq<char>> {
    match integer_setting(table, key, default) {
        Err(e) => Err(e),
        Ok(value) => env_number(env, name, value),
    }
}

fn override_integer(
    table: Option<&Vec<(String, Toml)>>,
    key: &str,
    default: i64,
    env: &Env,
    name: &str,
) -> (result: Result<i64, BridgeError>)
    ensures
        outcome(result) == overridden_number(table_view(table), key@, default, env@, name@),
{
    match integer(table, key, default) {
        Err(error) => Err(error),
        Ok(value) => env_integer(env, name, value),
    }
}

/// The ports and times.
pub open spec fn numbers_of(trace32: Option<Entries>, env: Vars) -> Result<Numbers, Seq<char>> {
    match overridden_number(trace32, "rcl_port"@, 20000, env, "T32_RCL_PORT"@) {
        Err(e) => Err(e),
        Ok(rcl_port) => match overridden_number(
            trace32,
            "dap_port"@,
            58870,
            env,
            "T32_DAP_PORT"@,
        ) {
            Err(e) => Err(e),
            Ok(dap_port) => match overridden_number(
                trace32,
                "dap_backend_port"@,
                58871,
                env,
                "T32_DAP_BACKEND_PORT"@,
            ) {
                Err(e) => Err(e),
                Ok(dap_backend_port) => match overridden_number(
                    trace32,
                    "dap_backend_timeout"@,
                    30,
                    env,
                    "T32_DAP_BACKEND_TIMEOUT"@,
                ) {
                    Err(e) => Err(e),
                    Ok(dap_backend_timeout) => match overridden_number(
                        trace32,
                        "operation_timeout"@,
                        600,
                        env,
                        "T32_TIMEOUT"@,
                    ) {
                        Err(e) => Err(e),
                        Ok(operation_timeout) => Ok(
                            Numbers {
                                rcl_port,
                                dap_port,
                                dap_backend_port,
                                dap_backend_timeout,
                                operation_timeout,
                            },
                        ),
                    },
                },
            },
        },
    }
}

fn read_numbers(trace32: Option<&Vec<(String, Toml)>>, env: &Env) -> (result: Result<
    Numbers,
    BridgeError,
>)
    ensures
        outcome(result) == numbers_of(table_view(trace32), env@),
{
    let rcl_port: i64 = match override_integer(trace32, "rcl_port", 20000, env, "T32_RCL_PORT") {
        Ok(n) => n,
        Err(error) => {
            return Err(error);
        },
    };
    let dap_port: i64 = match override_integer(trace32, "dap_port", 58870, env, "T32_DAP_PORT") {
        Ok(n) => n,
        Err(error) => {
            return Err(error);
        },
    };
    let dap_backend_port: i64 = match override_integer(
        trace32,
        "dap_backend_port",
        58871,
        env,
        "T32_DAP_BACKEND_PORT",
    ) {
        Ok(n) => n,
        Err(error) => {
            return Err(error);
        },
    };
    let dap_backend_timeout: i64 = match override_integer(
        trace32,
        "dap_backend_timeout",
        30,
        env,
        "T32_DAP_BACKEND_TIMEOUT",
    ) {
        Ok(n) => n,
        Err(error) => {
            return Err(error);
        },
    };
    let operation_timeout: i64 = match override_integer(
        trace32,
        "operation_timeout",
        600,
        env,
        "T32_TIMEOUT",
    ) {
        Ok(n) => n,
        Err(error) => {
            return Err(error);
        },
    };
    Ok(
        Numbers { rcl_port, dap_port, dap_backend_port, dap_backend_timeout, operation_timeout },
    )
}

/// Whether a number is that of a port.
pub open spec fn is_port(n: i64) -> bool {
    1 <= n <= 65535
}

/// What is wrong with the values of a configuration, if anything is.
pub open spec fn complaint(program: Seq<char>, numbers: Numbers, poll: Interval) -> Option<
    Seq<char>,
> {
    if program.len() == 0 {
        Some("project.program is empty in trace32.toml"@)
    } else if !is_port(numbers.rcl_port) {
        Some("trace32.rcl_port must be between 1 and 65535"@)
    } else if !is_port(numbers.dap_port) {
        Some("trace32.dap_port must be between 1 and 65535"@)
    } else if !is_port(numbers.dap_backend_port) {
        Some("trace32.dap_backend_port must be between 1 and 65535"@)
    } else if numbers.dap_port == numbers.dap_backend_port {
        Some("trace32.dap_port and trace32.dap_backend_port must be different"@)
    } else if numbers.dap_backend_timeout <= 0 {
        Some("trace32.dap_backend_timeout must be positive"@)
    } else if numbers.operation_timeout <= 0 {
        Some("trace32.operation_timeout must be positive"@)
    } else if !is_positive(poll) {
        Some("rtt.poll_interval must be positive"@)
    } else {
        None
    }
}

fn check_values(program: &str, numbers: &Numbers, poll: Interval) -> (result: Result<
    (),
    BridgeError,
>)
    ensures
        match complaint(program@, *numbers, poll) {
            Some(text) => result matches Err(error) && error@ == text,
            None => result is Ok,
        },
{
    if program.is_empty() {
        return Err(BridgeError::new("project.program is empty in trace32.toml"));
    }
    if numbers.rcl_port < 1 || numbers.rcl_port > 65535 {
        return Err(BridgeError::new("trace32.rcl_port must be between 1 and 65535"));
    }
    if numbers.dap_port < 1 || numbers.dap_port > 65535 {
        return Err(BridgeError::new("trace32.dap_port must be between 1 and 65535"));
    }
    if numbers.dap_backend_port < 1 || numbers.dap_backend_port > 65535 {
        return Err(BridgeError::new("trace32.dap_backend_port must be between 1 and 65535"));
    }
    if numbers.dap_port == numbers.dap_backend_port {
        return Err(
            BridgeError::new("trace32.dap_port and trace32.dap_backend_port must be different"),
        );
    }
    if numbers.dap_backend_timeout <= 0 {
        return Err(BridgeError::new("trace32.dap_backend_timeout must be positive"));
    }
    if numbers.operation_timeout <= 0 {
        return Err(BridgeError::new("trace32.operation_timeout must be positive"));
    }
    if !positive(poll) {
        return Err(BridgeError::new("rtt.poll_interval must be positive"));
    }
    Ok(())
}

/// Texts with a blank between them.
pub open spec fn blank_list(list: Seq<Seq<char>>) -> Seq<char>
    decreases list.len(),
{
    if list.len() == 0 {
        seq![]
    } else if list.len() == 1 {
        list[0]
    } else {
        blank_list(list.drop_last()) + " "@ + list.last()
    }
}

/// Puts a blank between texts.
pub fn join_blanks(list: &Vec<String>) -> (result: String)
    ensures
        result@ == blank_list(text_views(list@)),
{
    let ghost views = text_views(list@);
    let mut result = String::new();
    let mut i: usize = 0;
    while i < list.len()
        invariant
            i <= list@.len(),
            views == text_views(list@),
            result@ == blank_list(views.take(i as int)),
        decreases list@.len() - i,
    {
        assert(views.take(i as int + 1).drop_last() =~= views.take(i as int));
        assert(views[i as int] == list@[i as int]@);
        if i > 0 {
            result.append(" ");
        }
        result.append(&list[i]);
        i = i + 1;
        assert(result@ =~= blank_list(views.take(i as int)));
    }
    assert(views.take(i as int) =~= views);
    result
}

/// Whether a value can stand between quotation marks in a TRACE32 command.
pub open spec fn is_command_safe(value: Seq<char>) -> bool {
    !value.contains('"') && !value.contains('\n') && !value.contains('\r')
}

/// Values that are embedded in TRACE32 commands, under the names by which a user
/// knows them.
pub open spec fn command_values(config: ConfigView, flash_script: Seq<char>) -> Seq<
    (Seq<char>, Seq<char>),
> {
    seq![
        ("config file"@, config.config_file),
        ("run directory"@, config.run_dir),
        ("project.program"@, config.program),
        ("project.elf"@, config.elf),
        ("target.cpu"@, config.cpu),
        ("target.cores"@, config.cores),
        ("target.mem_access"@, config.mem_access),
        ("target.jtag_clock"@, config.jtag_clock),
        ("target.dual_port"@, config.dual_port),
        ("rtos.config"@, config.rtos_config),
        ("rtos.menu"@, config.rtos_menu),
        ("flash.script"@, flash_script),
        ("flash.args"@, blank_list(config.flash_args)),
    ]
}

/// The complaint about the first value that is not safe in a command.
pub open spec fn unsafe_value(values: Seq<(Seq<char>, Seq<char>)>) -> Option<Seq<char>>
    decreases values.len(),
{
    if values.len() == 0 {
        None
    } else if !is_command_safe(values[0].1) {
        Some(values[0].0 + " contains characters unsafe for TRACE32 commands"@)
    } else {
        unsafe_value(values.skip(1))
    }
}

fn check_safe(values: &Vec<(&'static str, String)>) -> (result: Result<(), BridgeError>)
    ensures
        match unsafe_value(values@.map_values(|v: (&'static str, String)| (v.0@, v.1@))) {
            Some(text) => result matches Err(error) && error@ == text,
            None => result is Ok,
        },
{
    let ghost views = values@.map_values(|v: (&'static str, String)| (v.0@, v.1@));
    let mut i: usize = 0;
    assert(views.skip(0) =~= views);
    while i < values.len()
        invariant
            i <= values@.len(),
            views == values@.map_values(|v: (&'static str, String)| (v.0@, v.1@)),
            unsafe_value(views) == unsafe_value(views.skip(i as int)),
        decreases values@.len() - i,
    {
        assert(views.skip(i as int)[0] == views[i as int]);
        assert(views.skip(i as int).skip(1) =~= views.skip(i as int + 1));
        let value = chars_of(&values[i].1);
        if contains_char(&value, '"') || contains_char(&value, '\n') || contains_char(
            &value,
            '\r',
        ) {
            return Err(
                BridgeError(
                    concat2(values[i].0, " contains characters unsafe for TRACE32 commands"),
                ),
            );
        }
        i = i + 1;
    }
    Ok(())
}

/// The flash script: a path of TRACE32, which begins with `~~`, as it is, any
/// other resolved against the directory of the configuration.
pub open spec fn script_path(config: ConfigView, world: Known) -> Found<Seq<char>> {
    if config.flash_script.len() == 0 || "~~"@.is_prefix_of(config.flash_script) {
        Found::Found(config.flash_script)
    } else {
        resolved(config.flash_script, config.config_dir, world)
    }
}

/// Whether the flash script is there; of a path of TRACE32 that is taken for
/// granted.
pub open spec fn script_exists(config: ConfigView, world: Known) -> Found<bool> {
    match script_path(config, world) {
        Found::Ask(question) => Found::Ask(question),
        Found::Found(path) => if path.len() == 0 {
            Found::Found(false)
        } else if path == "~~"@ || "~~/"@.is_prefix_of(path) {
            Found::Found(true)
        } else {
            match ask(world, QuestionView::File(path)) {
                Found::Ask(question) => Found::Ask(question),
                Found::Found(answer) => Found::Found(answer is Some),
            }
        },
    }
}

/// Whether the values that are embedded in commands are safe there.
pub open spec fn command_check(config: ConfigView, world: Known) -> Found<Result<(), Seq<char>>> {
    match script_path(config, world) {
        Found::Ask(question) => Found::Ask(question),
        Found::Found(script) => match unsafe_value(command_values(config, script)) {
            Some(text) => Found::Found(Err(text)),
            None => Found::Found(Ok(())),
        },
    }
}

impl Config {
    /// The flash script, resolved unless it is a path of TRACE32.
    pub fn resolved_flash_script(&self, world: &World) -> (result: Lookup<String>)
        ensures
            text_lookup(result) == script_path(self@, world@),
    {
        if self.flash_script.as_str().is_empty() || starts_with(
            &chars_of(&self.flash_script),
            &chars_of("~~"),
        ) {
            Lookup::Found(self.flash_script.clone())
        } else {
            resolve(&self.flash_script, &self.config_dir, world)
        }
    }

    /// Whether the flash script is there.
    pub fn flash_script_exists(&self, world: &World) -> (result: Lookup<bool>)
        ensures
            match result {
                Lookup::Found(answer) => script_exists(self@, world@) == Found::Found(answer),
                Lookup::Ask(question) => script_exists(self@, world@) == Found::<bool>::Ask(
                    question@,
                ),
            },
    {
        match self.resolved_flash_script(world) {
            Lookup::Ask(question) => Lookup::Ask(question),
            Lookup::Found(path) => {
                if path.as_str().is_empty() {
                    return Lookup::Found(false);
                }
                if same(&path, "~~") || starts_with(&chars_of(&path), &chars_of("~~/")) {
                    return Lookup::Found(true);
                }
                match world.ask(Question::File(path)) {
                    Lookup::Ask(question) => Lookup::Ask(question),
                    Lookup::Found(answer) => Lookup::Found(answer.is_some()),
                }
            },
        }
    }

    /// Checks that the values embedded in TRACE32 commands do not break their
    /// quoting.
    pub fn check_command_values(&self, world: &World) -> (result: Lookup<Result<(), BridgeError>>)
        ensures
            match result {
                Lookup::Found(result) => command_check(self@, world@) == Found::Found(
                    outcome(result),
                ),
                Lookup::Ask(question) => command_check(self@, world@) == Found::<
                    Result<(), Seq<char>>,
                >::Ask(question@),
            },
    {
        let script = match self.resolved_flash_script(world) {
            Lookup::Ask(question) => {
                return Lookup::Ask(question);
            },
            Lookup::Found(script) => script,
        };
        let mut values: Vec<(&'static str, String)> = Vec::new();
        values.push(("config file", self.config_file.clone()));
        values.push(("run directory", self.run_dir.clone()));
        values.push(("project.program", self.program.clone()));
        values.push(("project.elf", self.elf.clone()));
        values.push(("target.cpu", self.cpu.clone()));
        values.push(("target.cores", self.cores.clone()));
        values.push(("target.mem_access", self.mem_access.clone()));
        values.push(("target.jtag_clock", self.jtag_clock.clone()));
        values.push(("target.dual_port", self.dual_port.clone()));
        values.push(("rtos.config", self.rtos_config.clone()));
        values.push(("rtos.menu", self.rtos_menu.clone()));
        values.push(("flash.script", script));
        values.push(("flash.args", join_blanks(&self.flash_args)));
        assert(values@.map_values(|v: (&'static str, String)| (v.0@, v.1@)) =~= command_values(
            self@,
            script@,
        ));
        Lookup::Found(check_safe(&values))
    }
}

/// The complaint about a setting that is no longer there.
pub open spec fn obsolete_root(config_dir: Seq<char>) -> Seq<char> {
    "project.root is no longer supported; the project root is the directory containing trace32.toml ("@
        + config_dir + "); remove it"@
}

/// The configuration that a document describes, before its values are checked
/// for use in commands.
pub open spec fn config_of(
    file: Seq<char>,
    document: Entries,
    env: Vars,
    os: Seq<char>,
    world: Known,
) -> Found<Result<ConfigView, Seq<char>>> {
    let config_dir = directory_of(file);
    match sections_of(document) {
        Err(e) => Found::Found(Err(e)),
        Ok(sections) => if setting(sections.project, "root"@) is Some {
            Found::Found(Err(obsolete_root(config_dir)))
        } else {
            match places_of(sections, config_dir, env, os, world) {
                Found::Ask(q) => Found::Ask(q),
                Found::Found(Err(e)) => Found::Found(Err(e)),
                Found::Found(Ok(places)) => match tools_of(
                    sections.trace32,
                    config_dir,
                    places.sys,
                    places.host,
                    env,
                    world,
                ) {
                    Found::Ask(q) => Found::Ask(q),
                    Found::Found(Err(e)) => Found::Found(Err(e)),
                    Found::Found(Ok(tools)) => Found::Found(
                        settings_of(file, config_dir, sections, places, tools, env),
                    ),
                },
            }
        },
    }
}

/// The configuration, once it is known where things lie.
pub open spec fn settings_of(
    file: Seq<char>,
    config_dir: Seq<char>,
    sections: SectionsView,
    places: PlacesView,
    tools: ToolsView,
    env: Vars,
) -> Result<ConfigView, Seq<char>> {
    match block_address(sections.rtt) {
        Err(e) => Err(e),
        Ok(address) => match target_of(sections, env) {
            Err(e) => Err(e),
            Ok(target) => match flash_of(sections, env) {
                Err(e) => Err(e),
                Ok(flash) => match numbers_of(sections.trace32, env) {
                    Err(e) => Err(e),
                    Ok(numbers) => match text_setting(sections.rtt, "symbol"@, "_SEGGER_RTT"@) {
                        Err(e) => Err(e),
                        Ok(symbol) => match interval_setting(
                            sections.rtt,
                            "poll_interval"@,
                            Interval::Bits(DEFAULT_POLL_BITS),
                        ) {
                            Err(e) => Err(e),
                            Ok(poll) => match complaint(target.program, numbers, poll) {
                                Some(text) => Err(text),
                                None => Ok(
                                    ConfigView {
                                        config_file: file,
                                        config_dir,
                                        run_dir: joined(config_dir, RUN_DIR_NAME@),
                                        project_dir: places.project_dir,
                                        program: target.program,
                                        elf: places.elf,
                                        cpu: target.cpu,
                                        cores: target.cores,
                                        mem_access: target.mem_access,
                                        jtag_clock: target.jtag_clock,
                                        dual_port: target.dual_port,
                                        rtos_config: flash.rtos_config,
                                        rtos_menu: flash.rtos_menu,
                                        rtos_show_tasks: flash.rtos_show_tasks,
                                        flash_chip: flash.chip,
                                        flash_script: flash.script,
                                        flash_args: flash.args,
                                        t32_sys: places.sys,
                                        t32_host: places.host,
                                        t32_binary: tools.binary,
                                        t32_config: tools.config,
                                        debug_adapter: tools.adapter,
                                        rcl_port: numbers.rcl_port as u16,
                                        dap_port: numbers.dap_port as u16,
                                        dap_backend_port: numbers.dap_backend_port as u16,
                                        dap_backend_timeout: numbers.dap_backend_timeout as u64,
                                        operation_timeout: numbers.operation_timeout as u64,
                                        rtt_symbol: env_or(env, "RTT_SYMBOL"@, symbol),
                                        rtt_control_block_address: address,
                                        rtt_poll_interval: poll,
                                    },
                                ),
                            },
                        },
                    },
                },
            },
        },
    }
}

fn read_settings(
    file: &str,
    config_dir: &str,
    sections: &Sections,
    places: Places,
    tools: Tools,
    env: &Env,
) -> (result: Result<Config, BridgeError>)
    ensures
        match result {
            Ok(config) => settings_of(file@, config_dir@, sections@, places@, tools@, env@)
                == Ok::<_, Seq<char>>(config@),
            Err(error) => settings_of(file@, config_dir@, sections@, places@, tools@, env@)
                == Err::<ConfigView, _>(error@),
        },
{
    let address: Option<u64> = match find_block_address(sections.rtt) {
        Ok(address) => address,
        Err(error) => {
            return Err(error);
        },
    };
    let target = match read_target(sections, env) {
        Ok(target) => target,
        Err(error) => {
            return Err(error);
        },
    };
    let flash = match read_flash(sections, env) {
        Ok(flash) => flash,
        Err(error) => {
            return Err(error);
        },
    };
    let numbers = match read_numbers(sections.trace32, env) {
        Ok(numbers) => numbers,
        Err(error) => {
            return Err(error);
        },
    };
    let symbol = match text(sections.rtt, "symbol", "_SEGGER_RTT") {
        Ok(text) => text,
        Err(error) => {
            return Err(error);
        },
    };
    let poll = match number(sections.rtt, "poll_interval", Interval::Bits(DEFAULT_POLL_BITS)) {
        Ok(poll) => poll,
        Err(error) => {
            return Err(error);
        },
    };
    match check_values(&target.program, &numbers, poll) {
        Ok(()) => {},
        Err(error) => {
            return Err(error);
        },
    }
    Ok(
        Config {
            config_file: file.to_owned(),
            config_dir: config_dir.to_owned(),
            run_dir: join(config_dir, RUN_DIR_NAME),
            project_dir: places.project_dir,
            program: target.program,
            elf: places.elf,
            cpu: target.cpu,
            cores: target.cores,
            mem_access: target.mem_access,
            jtag_clock: target.jtag_clock,
            dual_port: target.dual_port,
            rtos_config: flash.rtos_config,
            rtos_menu: flash.rtos_menu,
            rtos_show_tasks: flash.rtos_show_tasks,
            flash_chip: flash.chip,
            flash_script: flash.script,
            flash_args: flash.args,
            t32_sys: places.sys,
            t32_host: places.host,
            t32_binary: tools.binary,
            t32_config: tools.config,
            debug_adapter: tools.adapter,
            rcl_port: numbers.rcl_port as u16,
            dap_port: numbers.dap_port as u16,
            dap_backend_port: numbers.dap_backend_port as u16,
            dap_backend_timeout: numbers.dap_backend_timeout as u64,
            operation_timeout: numbers.operation_timeout as u64,
            rtt_symbol: env_text(env, "RTT_SYMBOL", symbol),
            rtt_control_block_address: address,
            rtt_poll_interval: poll,
        },
    )
}

/// A configuration, once its values have been checked for use in commands.
pub open spec fn with_command_check(
    found: Found<Result<ConfigView, Seq<char>>>,
    world: Known,
) -> Found<Result<ConfigView, Seq<char>>> {
    match found {
        Found::Found(Ok(config)) => match command_check(config, world) {
            Found::Ask(q) => Found::Ask(q),
            Found::Found(Err(e)) => Found::Found(Err(e)),
            Found::Found(Ok(())) => Found::Found(Ok(config)),
        },
        other => other,
    }
}

/// The configuration that a document describes, if all of it is in order.
pub open spec fn checked_config(
    file: Seq<char>,
    document: Entries,
    env: Vars,
    os: Seq<char>,
    world: Known,
) -> Found<Result<ConfigView, Seq<char>>> {
    with_command_check(config_of(file, document, env, os, world), world)
}

/// The content of a lookup of a configuration.
pub open spec fn config_lookup(lookup: Lookup<Result<Config, BridgeError>>) -> Found<
    Result<ConfigView, Seq<char>>,
> {
    match lookup {
        Lookup::Found(Ok(config)) => Found::Found(Ok(config@)),
        Lookup::Found(Err(error)) => Found::Found(Err(error@)),
        Lookup::Ask(question) => Found::Ask(question@),
    }
}

fn build_config(
    file: &str,
    document: &Vec<(String, Toml)>,
    env: &Env,
    os: &str,
    world: &World,
) -> (result: Lookup<Result<Config, BridgeError>>)
    ensures
        config_lookup(result) == config_of(file@, entry_views(document@), env@, os@, world@),
{
    let config_dir = parent_directory(file);
    let sections = match read_sections(document) {
        Ok(sections) => sections,
        Err(error) => {
            return Lookup::Found(Err(error));
        },
    };
    match find_setting(sections.project, "root") {
        Some(_) => {
            return Lookup::Found(
                Err(
                    BridgeError(
                        concat3(
                            "project.root is no longer supported; the project root is the directory containing trace32.toml (",
                            &config_dir,
                            "); remove it",
                        ),
                    ),
                ),
            );
        },
        None => {},
    }
    let places = match find_places(&sections, &config_dir, env, os, world) {
        Lookup::Ask(question) => {
            return Lookup::Ask(question);
        },
        Lookup::Found(Err(error)) => {
            return Lookup::Found(Err(error));
        },
        Lookup::Found(Ok(places)) => places,
    };
    let tools = match find_tools(
        sections.trace32,
        &config_dir,
        &places.sys,
        &places.host,
        env,
        world,
    ) {
        Lookup::Ask(question) => {
            return Lookup::Ask(question);
        },
        Lookup::Found(Err(error)) => {
            return Lookup::Found(Err(error));
        },
        Lookup::Found(Ok(tools)) => tools,
    };
    Lookup::Found(read_settings(file, &config_dir, &sections, places, tools, env))
}

/// Builds and checks the configuration that a document describes.
pub fn load_document(
    file: &str,
    document: &Vec<(String, Toml)>,
    env: &Env,
    os: &str,
    world: &World,
) -> (result: Lookup<Result<Config, BridgeError>>)
    ensures
        config_lookup(result) == checked_config(file@, entry_views(document@), env@, os@, world@),
{
    match build_config(file, document, env, os, world) {
        Lookup::Found(Ok(config)) => match config.check_command_values(world) {
            Lookup::Ask(question) => Lookup::Ask(question),
            Lookup::Found(Err(error)) => Lookup::Found(Err(error)),
            Lookup::Found(Ok(())) => Lookup::Found(Ok(config)),
        },
        other => other,
    }
}

/// What reading the configuration file gave.
#[derive(Debug, Clone, PartialEq, Eq)]
pub enum FileContent {
    Bytes(Vec<u8>),
    Missing,
    Unreadable(String),
}

/// The configuration in a file, from what reading the file gave.
pub open spec fn loaded(
    file: Seq<char>,
    content: FileContent,
    env: Vars,
    os: Seq<char>,
    world: Known,
) -> Found<Result<ConfigView, Seq<char>>> {
    match content {
        FileContent::Missing => Found::Found(Err("config not found: "@ + file)),
        FileContent::Unreadable(error) => Found::Found(
            Err("cannot read "@ + file + ": "@ + error@),
        ),
        FileContent::Bytes(bytes) => if !valid_utf8(bytes@) {
            Found::Found(Err("cannot parse "@ + file + ": "@ + utf8_complaint(bytes@)))
        } else {
            match toml_document(decode_utf8(bytes@)) {
                Err(error) => Found::Found(
                    Err(parse_complaint(file, decode_utf8(bytes@), error)),
                ),
                Ok(document) => checked_config(file, document, env, os, world),
            }
        },
    }
}

/// Loads and checks the configuration in a file, from what reading the file gave.
pub fn load_config(file: &str, content: &FileContent, env: &Env, os: &str, world: &World) -> (result:
    Lookup<Result<Config, BridgeError>>)
    ensures
        config_lookup(result) == loaded(file@, *content, env@, os@, world@),
{
    match content {
        FileContent::Missing => Lookup::Found(
            Err(BridgeError(concat2("config not found: ", file))),
        ),
        FileContent::Unreadable(error) => Lookup::Found(
            Err(BridgeError(concat4("cannot read ", file, ": ", error))),
        ),
        FileContent::Bytes(bytes) => match decode_utf8_text(bytes) {
            Err(complaint) => Lookup::Found(
                Err(BridgeError(concat4("cannot parse ", file, ": ", &complaint))),
            ),
            Ok(source) => match parse_toml(&source) {
                Err(error) => Lookup::Found(Err(parse_failure(file, &source, &error))),
                Ok(document) => load_document(file, &document, env, os, world),
            },
        },
    }
}

/// Whether a configuration can be worked with.
pub open spec fn is_usable(config: ConfigView) -> bool {
    &&& config.program.len() > 0
    &&& config.rcl_port >= 1
    &&& config.dap_port >= 1
    &&& config.dap_backend_port >= 1
    &&& config.dap_port != config.dap_backend_port
    &&& config.dap_backend_timeout > 0
    &&& config.operation_timeout > 0
    &&& is_positive(config.rtt_poll_interval)
}

/// Where no value is complained about, every value is safe.
pub proof fn lemma_safe_values(values: Seq<(Seq<char>, Seq<char>)>)
    requires
        unsafe_value(values) is None,
    ensures
        forall|i: int| 0 <= i < values.len() ==> is_command_safe((#[trigger] values[i]).1),
    decreases values.len(),
{
    if values.len() > 0 {
        lemma_safe_values(values.skip(1));
        assert forall|i: int| 0 <= i < values.len() implies is_command_safe(
            (#[trigger] values[i]).1,
        ) by {
            if i > 0 {
                assert(values[i] == values.skip(1)[i - 1]);
            }
        }
    }
}

/// Every configuration that is accepted can be worked with: it has a program, its
/// ports are ports and the two of the proxy differ, and its times are positive.
/// No value that is embedded in a TRACE32 command breaks the quoting there.
#[verifier::rlimit(40)]
pub proof fn accepted_configurations_are_usable(
    file: Seq<char>,
    document: Entries,
    env: Vars,
    os: Seq<char>,
    world: Known,
)
    ensures
        checked_config(file, document, env, os, world) matches Found::Found(Ok(config))
            ==> is_usable(config) && (script_path(config, world) matches Found::Found(script)
            && forall|i: int|
            0 <= i < command_values(config, script).len() ==> is_command_safe(
                (#[trigger] command_values(config, script)[i]).1,
            )),
{
    if let Found::Found(Ok(config)) = checked_config(file, document, env, os, world) {
        if let Found::Found(script) = script_path(config, world) {
            lemma_safe_values(command_values(config, script));
        }
    }
}

/// Whether a variable is set and not empty.
pub open spec fn is_given(env: Vars, name: Seq<char>) -> bool {
    env.contains_key(name) && env[name].len() > 0
}

/// The environment overrides the configuration file. The value of these variables
/// is used even where it is empty.
#[verifier::rlimit(40)]
pub proof fn set_variables_win(
    file: Seq<char>,
    document: Entries,
    env: Vars,
    os: Seq<char>,
    world: Known,
)
    ensures
        checked_config(file, document, env, os, world) matches Found::Found(Ok(config)) ==> {
            &&& env.contains_key("PROGRAM_NAME"@) ==> config.program == env["PROGRAM_NAME"@]
            &&& env.contains_key("T32_CPU"@) ==> config.cpu == env["T32_CPU"@]
            &&& env.contains_key("T32_CORES"@) ==> config.cores == env["T32_CORES"@]
            &&& env.contains_key("T32_MEMACCESS"@) ==> config.mem_access == env["T32_MEMACCESS"@]
            &&& env.contains_key("T32_JTAG_CLOCK"@) ==> config.jtag_clock == env["T32_JTAG_CLOCK"@]
            &&& env.contains_key("T32_DUALPORT"@) ==> config.dual_port == env["T32_DUALPORT"@]
            &&& env.contains_key("T32_FLASH_SCRIPT"@) ==> config.flash_script
                == env["T32_FLASH_SCRIPT"@]
            &&& env.contains_key("T32_FLASH_ARGS"@) ==> words_of(env["T32_FLASH_ARGS"@]) == Ok::<
                _,
                Seq<char>,
            >(config.flash_args)
        },
{
}

/// The environment overrides the configuration file. The value of these variables
/// is used unless it is empty.
#[verifier::rlimit(40)]
pub proof fn given_variables_win(
    file: Seq<char>,
    document: Entries,
    env: Vars,
    os: Seq<char>,
    world: Known,
)
    ensures
        checked_config(file, document, env, os, world) matches Found::Found(Ok(config)) ==> {
            &&& is_given(env, "T32_HOST"@) ==> config.t32_host == env["T32_HOST"@]
            &&& is_given(env, "T32_FLASH_CHIP"@) ==> config.flash_chip == env["T32_FLASH_CHIP"@]
            &&& is_given(env, "RTT_SYMBOL"@) ==> config.rtt_symbol == env["RTT_SYMBOL"@]
            &&& is_given(env, "PROJECT_ROOT"@) ==> full_path(
                env["PROJECT_ROOT"@],
                config.config_dir,
                env,
                world,
            ) == Found::Found(config.project_dir)
            &&& is_given(env, "ELF"@) ==> full_path(env["ELF"@], config.project_dir, env, world)
                == Found::Found(config.elf)
            &&& is_given(env, "T32_SYS"@) ==> full_path(
                env["T32_SYS"@],
                config.config_dir,
                env,
                world,
            ) == Found::Found(config.t32_sys)
            &&& is_given(env, "T32SYS"@) && !is_given(env, "T32_SYS"@) ==> full_path(
                env["T32SYS"@],
                config.config_dir,
                env,
                world,
            ) == Found::Found(config.t32_sys)
            &&& is_given(env, "T32_BIN"@) ==> full_path(
                env["T32_BIN"@],
                config.config_dir,
                env,
                world,
            ) == Found::Found(config.t32_binary)
            &&& is_given(env, "T32_CONFIG"@) ==> full_path(
                env["T32_CONFIG"@],
                config.config_dir,
                env,
                world,
            ) == Found::Found(config.t32_config)
            &&& is_given(env, "T32_DEBUG_ADAPTER"@) ==> full_path(
                env["T32_DEBUG_ADAPTER"@],
                config.config_dir,
                env,
                world,
            ) == Found::Found(config.debug_adapter)
            &&& is_given(env, "T32_RCL_PORT"@) ==> decimal_value(env["T32_RCL_PORT"@]) == Some(
                config.rcl_port as int,
            )
            &&& is_given(env, "T32_DAP_PORT"@) ==> decimal_value(env["T32_DAP_PORT"@]) == Some(
                config.dap_port as int,
            )
            &&& is_given(env, "T32_DAP_BACKEND_PORT"@) ==> decimal_value(
                env["T32_DAP_BACKEND_PORT"@],
            ) == Some(config.dap_backend_port as int)
            &&& is_given(env, "T32_DAP_BACKEND_TIMEOUT"@) ==> decimal_value(
                env["T32_DAP_BACKEND_TIMEOUT"@],
            ) == Some(config.dap_backend_timeout as int)
            &&& is_given(env, "T32_TIMEOUT"@) ==> decimal_value(env["T32_TIMEOUT"@]) == Some(
                config.operation_timeout as int,
            )
        },
{
}

proof fn lemma_nearest_stands(directory: Seq<char>, world: Known, more: Known)
    requires
        world.submap_of(more),
    ensures
        stands(nearest(directory, world), world, nearest(directory, more)),
    decreases directory.len(),
{
    let question = QuestionView::File(joined(directory, CONFIG_FILE_NAME@));
    if world.contains_key(question) {
        assert(more.contains_key(question) && more[question] == world[question]);
        lemma_parent_is_shorter(directory);
        if let Some(up) = parent_of(directory) {
            lemma_nearest_stands(up, world, more);
        }
    }
}

/// The configuration file that was found stays the same when more becomes known,
/// and only what is not known is asked.
pub proof fn found_configurations_stand(
    explicit: Option<Seq<char>>,
    cwd: Seq<char>,
    env: Vars,
    world: Known,
    more: Known,
)
    requires
        world.submap_of(more),
    ensures
        stands(
            config_file_found(explicit, cwd, env, world),
            world,
            config_file_found(explicit, cwd, env, more),
        ),
{
    match explicit {
        Some(path) => {
            if let Found::Found(expanded) = user_expanded(path, env, world) {
                resolved_paths_stand(expanded, cwd, world, more);
            }
        },
        None => {
            lemma_nearest_stands(cwd, world, more);
            if let Found::Found(Some(candidate)) = nearest(cwd, world) {
                resolved_paths_stand(candidate, cwd, world, more);
            }
        },
    }
}

proof fn lemma_full_path_stands(
    value: Seq<char>,
    base: Seq<char>,
    env: Vars,
    world: Known,
    more: Known,
)
    requires
        world.submap_of(more),
    ensures
        stands(full_path(value, base, env, world), world, full_path(value, base, env, more)),
{
    if let Found::Found(text) = path_expanded(value, env, world) {
        resolved_paths_stand(text, base, world, more);
    }
}

proof fn lemma_root_stands(config_dir: Seq<char>, env: Vars, world: Known, more: Known)
    requires
        world.submap_of(more),
    ensures
        stands(project_root(config_dir, env, world), world, project_root(config_dir, env, more)),
{
    let value = env_or(env, "PROJECT_ROOT"@, seq![]);
    lemma_full_path_stands(value, config_dir, env, world, more);
}

proof fn lemma_system_stands(
    trace32: Option<Entries>,
    config_dir: Seq<char>,
    env: Vars,
    world: Known,
    more: Known,
)
    requires
        world.submap_of(more),
    ensures
        stands(
            system_path(trace32, config_dir, env, world),
            world,
            system_path(trace32, config_dir, env, more),
        ),
{
    if let Ok(configured) = text_setting(trace32, "sys"@, ""@) {
        let home = user_expanded("~"@, env, world);
        let fallback = if configured.len() == 0 {
            joined(home->Found_0, "t32"@)
        } else {
            configured
        };
        lemma_full_path_stands(
            env_or(env, "T32_SYS"@, env_or(env, "T32SYS"@, fallback)),
            config_dir,
            env,
            world,
            more,
        );
    }
}

proof fn lemma_places_stand(
    sections: SectionsView,
    config_dir: Seq<char>,
    env: Vars,
    os: Seq<char>,
    world: Known,
    more: Known,
)
    requires
        world.submap_of(more),
    ensures
        stands(
            places_of(sections, config_dir, env, os, world),
            world,
            places_of(sections, config_dir, env, os, more),
        ),
{
    lemma_root_stands(config_dir, env, world, more);
    lemma_system_stands(sections.trace32, config_dir, env, world, more);
    if let Found::Found(Ok(project_dir)) = project_root(config_dir, env, world) {
        if let Ok(named) = text_setting(sections.project, "elf"@, ""@) {
            lemma_full_path_stands(env_or(env, "ELF"@, named), project_dir, env, world, more);
        }
    }
}

proof fn lemma_tools_stand(
    trace32: Option<Entries>,
    config_dir: Seq<char>,
    sys: Seq<char>,
    host: Seq<char>,
    env: Vars,
    world: Known,
    more: Known,
)
    requires
        world.submap_of(more),
    ensures
        stands(
            tools_of(trace32, config_dir, sys, host, env, world),
            world,
            tools_of(trace32, config_dir, sys, host, env, more),
        ),
{
    let binary = text_setting(trace32, "binary"@, ""@)->Ok_0;
    let config = text_setting(trace32, "config"@, ""@)->Ok_0;
    let adapter = text_setting(trace32, "debug_adapter"@, ""@)->Ok_0;
    lemma_full_path_stands(env_or(env, "T32_BIN"@, binary), config_dir, env, world, more);
    lemma_full_path_stands(env_or(env, "T32_CONFIG"@, config), config_dir, env, world, more);
    lemma_full_path_stands(env_or(env, "T32_DEBUG_ADAPTER"@, adapter), config_dir, env, world, more);
}

#[verifier::rlimit(40)]
proof fn lemma_config_stands(
    file: Seq<char>,
    document: Entries,
    env: Vars,
    os: Seq<char>,
    world: Known,
    more: Known,
)
    requires
        world.submap_of(more),
    ensures
        stands(
            config_of(file, document, env, os, world),
            world,
            config_of(file, document, env, os, more),
        ),
{
    let config_dir = directory_of(file);
    if let Ok(sections) = sections_of(document) {
        lemma_places_stand(sections, config_dir, env, os, world, more);
        if let Found::Found(Ok(places)) = places_of(sections, config_dir, env, os, world) {
            lemma_tools_stand(
                sections.trace32,
                config_dir,
                places.sys,
                places.host,
                env,
                world,
                more,
            );
        }
    }
}

proof fn lemma_check_stands(config: ConfigView, world: Known, more: Known)
    requires
        world.submap_of(more),
    ensures
        stands(command_check(config, world), world, command_check(config, more)),
{
    resolved_paths_stand(config.flash_script, config.config_dir, world, more);
}

proof fn lemma_checked_stands(
    before: Found<Result<ConfigView, Seq<char>>>,
    after: Found<Result<ConfigView, Seq<char>>>,
    world: Known,
    more: Known,
)
    requires
        world.submap_of(more),
        stands(before, world, after),
    ensures
        stands(
            with_command_check(before, world),
            world,
            with_command_check(after, more),
        ),
{
    if let Found::Found(Ok(config)) = before {
        lemma_check_stands(config, world, more);
    }
}

/// A configuration that was loaded, or a complaint about it, stays the same when
/// more becomes known, and only what is not known is asked.
#[verifier::rlimit(40)]
pub proof fn loaded_configurations_stand(
    file: Seq<char>,
    content: FileContent,
    env: Vars,
    os: Seq<char>,
    world: Known,
    more: Known,
)
    requires
        world.submap_of(more),
    ensures
        stands(
            loaded(file, content, env, os, world),
            world,
            loaded(file, content, env, os, more),
        ),
{
    if let FileContent::Bytes(bytes) = content {
        if let Ok(document) = toml_document(decode_utf8(bytes@)) {
            let before = config_of(file, document, env, os, world);
            let after = config_of(file, document, env, os, more);
            lemma_config_stands(file, document, env, os, world, more);
            lemma_checked_stands(before, after, world, more);
        }
    }
}

}
