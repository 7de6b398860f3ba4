//! What is wrong with a configuration, in words.

use vstd::prelude::*;
use vstd::string::*;
use vstd::utf8::*;

use crate::config::{
    boolean_setting, checked_config, complaint, config_file_found, env_number, integer_setting,
    interval_setting, is_command_safe, is_given, last_line_length, line_ends, list_setting, loaded,
    parse_complaint, script_exists, script_path, section, text_setting, unsafe_value, ConfigView,
    FileContent, Interval, Known, Numbers, Vars,
};
use crate::document::{entry, Entries, TomlErrorView, TomlView};
use crate::paths::resolved;
use crate::pycompat::user_expanded;
use crate::text::{decimal_text, has_text, occurs_at, trim_end};
use crate::world::{Found, QuestionView};

verus! {

/// The first entry with a key counts, and a key that no entry has is not found.
pub proof fn the_first_entry_counts(
    before: Entries,
    key: Seq<char>,
    value: TomlView,
    behind: Entries,
)
    requires
        forall|i: int| 0 <= i < before.len() ==> (#[trigger] before[i]).0 != key,
    ensures
        entry(before.push((key, value)) + behind, key) == Some(value),
        entry(before, key) is None,
    decreases before.len(),
{
    let all = before.push((key, value)) + behind;
    if before.len() == 0 {
        assert(all[0] == (key, value));
    } else {
        let rest = before.skip(1);
        assert forall|i: int| 0 <= i < rest.len() implies (#[trigger] rest[i]).0 != key by {
            assert(rest[i] == before[i + 1]);
        }
        assert(all[0] == before[0]);
        assert(all.skip(1) =~= rest.push((key, value)) + behind);
        the_first_entry_counts(rest, key, value, behind);
    }
}

proof fn lemma_prefix(a: Seq<char>, b: Seq<char>)
    ensures
        a.is_prefix_of(a + b),
{
    assert((a + b).subrange(0, a.len() as int) =~= a);
}

/// A value of another kind than its key asks for is complained about by its key, and
/// what is missing never is.
pub proof fn values_of_another_kind_are_named(
    entries: Entries,
    key: Seq<char>,
    text: Seq<char>,
    number: i64,
    interval: Interval,
    flag: bool,
)
    ensures
        match entry(entries, key) {
            None => {
                &&& text_setting(Some(entries), key, text) == Ok::<_, Seq<char>>(text)
                &&& integer_setting(Some(entries), key, number) == Ok::<_, Seq<char>>(number)
                &&& interval_setting(Some(entries), key, interval) == Ok::<_, Seq<char>>(interval)
                &&& boolean_setting(Some(entries), key, flag) == Ok::<_, Seq<char>>(flag)
                &&& list_setting(Some(entries), key) == Ok::<_, Seq<char>>(
                    Seq::<Seq<char>>::empty(),
                )
            },
            Some(value) => {
                &&& text_setting(Some(entries), key, text) is Err <==> !(value is Text)
                &&& integer_setting(Some(entries), key, number) is Err <==> !(
                value is Integer)
                &&& boolean_setting(Some(entries), key, flag) is Err <==> !(
                value is Boolean)
                &&& interval_setting(Some(entries), key, interval) is Err <==> !(
                value is Integer || value is Float)
                &&& text_setting(Some(entries), key, text) matches Err(told) ==> key.is_prefix_of(
                    told,
                )
                &&& integer_setting(Some(entries), key, number) matches Err(told)
                    ==> key.is_prefix_of(told)
                &&& boolean_setting(Some(entries), key, flag) matches Err(told) ==> key.is_prefix_of(
                    told,
                )
                &&& interval_setting(Some(entries), key, interval) matches Err(told)
                    ==> key.is_prefix_of(told)
                &&& list_setting(Some(entries), key) matches Err(told) ==> has_text(told, key)
            },
        },
        section(entries, key) is Err <==> (entry(entries, key) matches Some(value)
            && !(value is Table)),
        section(entries, key) matches Err(told) ==> has_text(told, key),
{
    lemma_prefix(key, " must be a string"@);
    lemma_prefix(key, " must be an integer"@);
    lemma_prefix(key, " must be a boolean"@);
    lemma_prefix(key, " must be a number"@);
    if let Err(told) = list_setting(Some(entries), key) {
        let other = key + " must be an array of strings"@;
        assert(other.subrange(0, key.len() as int) =~= key);
        if told == other {
            assert(occurs_at(told, key, 0));
        } else {
            let n = "cannot parse "@.len() as int;
            assert(told.subrange(n, n + key.len()) =~= key);
            assert(occurs_at(told, key, n));
        }
    }
    if let Err(told) = section(entries, key) {
        let n = "["@.len() as int;
        assert(told.subrange(n, n + key.len()) =~= key);
        assert(occurs_at(told, key, n));
    }
}

/// A number of the configuration that is out of range is named; the first one counts,
/// in the order of the settings.
pub proof fn numbers_out_of_range_are_named(program: Seq<char>, numbers: Numbers, poll: Interval)
    ensures
        ({
            let told = complaint(program, numbers, poll);
            let rcl = 1 <= numbers.rcl_port <= 65535;
            let dap = 1 <= numbers.dap_port <= 65535;
            let backend = 1 <= numbers.dap_backend_port <= 65535;
            let differ = numbers.dap_port != numbers.dap_backend_port;
            &&& program.len() == 0 ==> told == Some("project.program is empty in trace32.toml"@)
            &&& program.len() > 0 && !rcl ==> told == Some(
                "trace32.rcl_port must be between 1 and 65535"@,
            )
            &&& program.len() > 0 && rcl && !dap ==> told == Some(
                "trace32.dap_port must be between 1 and 65535"@,
            )
            &&& program.len() > 0 && rcl && dap && !backend ==> told == Some(
                "trace32.dap_backend_port must be between 1 and 65535"@,
            )
            &&& program.len() > 0 && rcl && dap && backend && !differ ==> told == Some(
                "trace32.dap_port and trace32.dap_backend_port must be different"@,
            )
            &&& program.len() > 0 && rcl && dap && backend && differ ==> {
                &&& numbers.dap_backend_timeout <= 0 ==> told == Some(
                    "trace32.dap_backend_timeout must be positive"@,
                )
                &&& numbers.dap_backend_timeout > 0 && numbers.operation_timeout <= 0 ==> told
                    == Some("trace32.operation_timeout must be positive"@)
                &&& numbers.dap_backend_timeout > 0 && numbers.operation_timeout > 0 && told is Some
                    ==> told == Some("rtt.poll_interval must be positive"@)
            }
        }),
{
}

/// Of the values for commands, the first that is unsafe is named.
pub proof fn the_first_unsafe_value_is_named(
    before: Seq<(Seq<char>, Seq<char>)>,
    name: Seq<char>,
    value: Seq<char>,
    behind: Seq<(Seq<char>, Seq<char>)>,
)
    requires
        forall|i: int| 0 <= i < before.len() ==> is_command_safe((#[trigger] before[i]).1),
        !is_command_safe(value),
    ensures
        unsafe_value(before.push((name, value)) + behind) == Some(
            name + " contains characters unsafe for TRACE32 commands"@,
        ),
    decreases before.len(),
{
    let all = before.push((name, value)) + behind;
    if before.len() == 0 {
        assert(all[0] == (name, value));
    } else {
        let rest = before.skip(1);
        assert forall|i: int| 0 <= i < rest.len() implies is_command_safe(
            (#[trigger] rest[i]).1,
        ) by {
            assert(rest[i] == before[i + 1]);
        }
        assert(is_command_safe(before[0].1));
        assert(all[0] == before[0]);
        assert(all.skip(1) =~= rest.push((name, value)) + behind);
        the_first_unsafe_value_is_named(rest, name, value, behind);
    }
}

/// A position is counted in lines and, in the last line, in bytes: each line feed
/// begins a new line.
pub proof fn line_feeds_begin_lines(a: Seq<u8>, b: Seq<u8>)
    requires
        !b.contains(10u8),
    ensures
        line_ends(b) == 0,
        last_line_length(b) == b.len(),
        line_ends(a.push(10u8) + b) == line_ends(a) + 1,
        last_line_length(a.push(10u8) + b) == b.len(),
    decreases b.len(),
{
    let all = a.push(10u8) + b;
    if b.len() == 0 {
        assert(all =~= a.push(10u8));
        assert(all.drop_last() =~= a);
    } else {
        assert(b.contains(b[b.len() - 1]));
        assert(all.last() == b.last());
        assert(all.drop_last() =~= a.push(10u8) + b.drop_last());
        assert(!b.drop_last().contains(10u8)) by {
            if b.drop_last().contains(10u8) {
                let i = choose|i: int| 0 <= i < b.drop_last().len() && b.drop_last()[i] == 10u8;
                assert(b[i] == 10u8);
            }
        }
        line_feeds_begin_lines(a, b.drop_last());
    }
}

/// A complaint about the text of a file names the file and what is wrong, and tells
/// the line and the column where that is known; both are counted from one.
pub proof fn places_in_files_are_told(
    file: Seq<char>,
    source: Seq<char>,
    error: TomlErrorView,
    start: usize,
)
    requires
        error.start == Some(start),
        start <= encode_utf8(source).len(),
    ensures
        ({
            let told = parse_complaint(file, source, error);
            let before = encode_utf8(source).take(start as int);
            &&& has_text(told, file)
            &&& has_text(told, trim_end(error.message))
            &&& has_text(
                told,
                "line "@ + decimal_text(line_ends(before) + 1) + ", column "@ + decimal_text(
                    last_line_length(before) + 1,
                ) + ")"@,
            )
        }),
{
    let told = parse_complaint(file, source, error);
    let message = trim_end(error.message);
    let before = encode_utf8(source).take(start as int);
    let place = "line "@ + decimal_text(line_ends(before) + 1) + ", column "@ + decimal_text(
        last_line_length(before) + 1,
    ) + ")"@;
    reveal_strlit(" (at line ");
    reveal_strlit("line ");
    let n = "cannot parse "@.len() as int;
    assert(told.subrange(n, n + file.len()) =~= file);
    assert(occurs_at(told, file, n));
    let m = n + file.len() + ": "@.len();
    assert(told.subrange(m, m + message.len()) =~= message);
    assert(occurs_at(told, message, m));
    let k = told.len() - place.len();
    assert(told.subrange(k, k + place.len()) =~= place);
    assert(occurs_at(told, place, k));
}

/// A file that is named is used, seen from the current directory, whether or not there
/// is another.
pub proof fn named_files_are_used(
    path: Seq<char>,
    cwd: Seq<char>,
    env: Vars,
    world: Known,
    expanded: Seq<char>,
)
    requires
        user_expanded(path, env, world) == Found::Found(expanded),
    ensures
        resolved(expanded, cwd, world) matches Found::Found(file) ==> config_file_found(
            Some(path),
            cwd,
            env,
            world,
        ) == Found::Found(Ok::<_, Seq<char>>(file)),
{
}

/// A file that is not there or cannot be read is named.
pub proof fn files_that_cannot_be_read_are_named(
    file: Seq<char>,
    content: FileContent,
    env: Vars,
    os: Seq<char>,
    world: Known,
)
    requires
        !(content is Bytes),
    ensures
        loaded(file, content, env, os, world) matches Found::Found(Err(told)) && has_text(
            told,
            file,
        ) && (content matches FileContent::Unreadable(error) ==> has_text(told, error@)),
{
    match content {
        FileContent::Missing => {
            let told = "config not found: "@ + file;
            let n = "config not found: "@.len() as int;
            assert(told.subrange(n, n + file.len()) =~= file);
            assert(occurs_at(told, file, n));
        },
        FileContent::Unreadable(error) => {
            let told = "cannot read "@ + file + ": "@ + error@;
            let n = "cannot read "@.len() as int;
            assert(told.subrange(n, n + file.len()) =~= file);
            assert(occurs_at(told, file, n));
            let m = told.len() - error@.len();
            assert(told.subrange(m, m + error@.len()) =~= error@);
            assert(occurs_at(told, error@, m));
        },
        FileContent::Bytes(_) => {},
    }
}

/// A root that a variable gives is accepted only where it is a directory.
#[verifier::rlimit(60)]
pub proof fn given_roots_are_directories(
    file: Seq<char>,
    document: Entries,
    env: Vars,
    os: Seq<char>,
    world: Known,
)
    requires
        is_given(env, "PROJECT_ROOT"@),
    ensures
        checked_config(file, document, env, os, world) matches Found::Found(Ok(config))
            ==> world.contains_key(QuestionView::Directory(config.project_dir))
            && world[QuestionView::Directory(config.project_dir)] is Some,
{
}

/// A script is looked for where it is said to be; one of TRACE32 itself is taken for
/// granted.
pub proof fn scripts_are_looked_for(config: ConfigView, world: Known, path: Seq<char>)
    requires
        script_path(config, world) == Found::Found(path),
    ensures
        path.len() == 0 ==> script_exists(config, world) == Found::Found(false),
        path.len() == 2 && path[0] == '~' && path[1] == '~' ==> script_exists(config, world)
            == Found::Found(true),
        path.len() > 2 && path[0] == '~' && path[1] == '~' && path[2] == '/' ==> script_exists(
            config,
            world,
        ) == Found::Found(true),
        path.len() > 0 && path[0] != '~' && world.contains_key(QuestionView::File(path))
            ==> script_exists(config, world) == Found::Found(
            world[QuestionView::File(path)] is Some,
        ),
{
    reveal_strlit("~~");
    reveal_strlit("~~/");
    if path.len() == 2 && path[0] == '~' && path[1] == '~' {
        assert(path =~= "~~"@);
    }
    if path.len() > 2 && path[0] == '~' && path[1] == '~' && path[2] == '/' {
        assert(path.subrange(0, 3) =~= "~~/"@);
    }
    if path.len() > 0 && path[0] != '~' {
        assert("~~"@[0] == '~');
        assert("~~/"@[0] == '~');
    }
}

/// A number in a variable counts unless the variable is empty; what is no number is
/// complained about by the name of the variable.
pub proof fn variables_hold_numbers(env: Vars, name: Seq<char>, fallback: i64)
    ensures
        !is_given(env, name) ==> env_number(env, name, fallback) == Ok::<_, Seq<char>>(fallback),
        env_number(env, name, fallback) matches Err(told) ==> name.is_prefix_of(told),
{
    lemma_prefix(name, " environment override must be an integer"@);
}

}
