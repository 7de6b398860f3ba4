//! What the files for editors hold.

use vstd::prelude::*;
use vstd::string::*;

use crate::config::ConfigView;
use crate::init::program_name;
use crate::json::{field, json_pretty, lemma_member_set, member, with_member, JsonView};
use crate::laws::report::lemma_has_middle;
use crate::paths::file_name_of;
use crate::rustrover::{
    adapter_command, attach_parameters, is_plain_char, mapping_lines, option_line, quoted,
    quoted_text, rendered, xml_text, READY_PATTERN,
};
use crate::text::{decimal_text, has_text, lemma_replace_absent, occurs_at};
use crate::vscode::installer::{
    combined, empty_document, is_distinct, is_template, items_in, kept_items, kind_key, kind_legacy,
    kind_list, members_of, merged_document, merged_items, name_of, named, new_items, pretty,
    token_text, tokens_for, tokens_in_text, tokens_replaced, with_members, Kind,
};

verus! {

proof fn lemma_named_push(items: Seq<JsonView>, item: JsonView, key: Seq<char>, name: Seq<char>)
    ensures
        named(items.push(item), key, name) == (match named(items, key, name) {
            Some(found) => Some(found),
            None => if name_of(item, key) == Some(name) {
                Some(item)
            } else {
                None
            },
        }),
    decreases items.len(),
{
    let all = items.push(item);
    if items.len() == 0 {
        assert(all[0] == item);
        assert(named(all.skip(1), key, name) is None) by {
            assert(all.skip(1).len() == 0);
        }
    } else {
        assert(all[0] == items[0]);
        assert(all.skip(1) =~= items.skip(1).push(item));
        lemma_named_push(items.skip(1), item, key, name);
    }
}

proof fn lemma_with_members(
    members: Seq<(Seq<char>, JsonView)>,
    others: Seq<(Seq<char>, JsonView)>,
    key: Seq<char>,
)
    requires
        is_distinct(others),
    ensures
        member(with_members(members, others), key) == (match member(others, key) {
            Some(value) => Some(value),
            None => member(members, key),
        }),
    decreases others.len(),
{
    if others.len() == 0 {
    } else {
        let rest = others.drop_last();
        let last = others.last();
        assert forall|i: int, j: int| 0 <= i < j < rest.len() implies (#[trigger] rest[i]).0
            != (#[trigger] rest[j]).0 by {
            assert(rest[i] == others[i]);
            assert(rest[j] == others[j]);
        }
        lemma_with_members(members, rest, key);
        lemma_member_set(with_members(members, rest), last.0, last.1, key);
        lemma_member_push(rest, last, key);
        assert(rest.push(last) =~= others);
        if key == last.0 && member(rest, key) is Some {
            let at = lemma_member_place(rest, key);
            assert(others[at].0 == others[others.len() - 1].0);
        }
    }
}

proof fn lemma_member_place(members: Seq<(Seq<char>, JsonView)>, key: Seq<char>) -> (at: int)
    requires
        member(members, key) is Some,
    ensures
        0 <= at < members.len(),
        members[at].0 == key,
    decreases members.len(),
{
    if members[0].0 == key {
        0
    } else {
        lemma_member_place(members.skip(1), key) + 1
    }
}

proof fn lemma_member_push(
    members: Seq<(Seq<char>, JsonView)>,
    last: (Seq<char>, JsonView),
    key: Seq<char>,
)
    ensures
        member(members.push(last), key) == (match member(members, key) {
            Some(value) => Some(value),
            None => if last.0 == key {
                Some(last.1)
            } else {
                None
            },
        }),
    decreases members.len(),
{
    let all = members.push(last);
    if members.len() == 0 {
        assert(all.skip(1).len() == 0);
        assert(member(all.skip(1), key) is None);
    } else {
        assert(all.skip(1) =~= members.skip(1).push(last));
        lemma_member_push(members.skip(1), last, key);
    }
}

/// What becomes of an existing item that has the name of a template item: the fields
/// of the template count, and the others of the item are kept.
pub proof fn fields_are_combined(item: JsonView, template: JsonView, key: Seq<char>)
    requires
        is_distinct(members_of(template)),
        item is Object,
        template is Object,
    ensures
        field(combined(item, template), key) == (match field(template, key) {
            Some(value) => Some(value),
            None => field(item, key),
        }),
{
    lemma_with_members(members_of(item), members_of(template), key);
}

proof fn lemma_kept_named(
    existing: Seq<JsonView>,
    template: Seq<JsonView>,
    key: Seq<char>,
    ignored: Seq<Seq<char>>,
    at: int,
)
    requires
        is_template(template, key, ignored),
        0 <= at < template.len(),
    ensures
        ({
            let name = name_of(template[at], key)->Some_0;
            let (kept, installed) = kept_items(existing, template, key, ignored);
            match named(existing, key, name) {
                Some(old) => named(kept, key, name) == Some(combined(old, template[at]))
                    && installed.contains(name),
                None => named(kept, key, name) is None && !installed.contains(name),
            }
        }),
        forall|i: int|
            0 <= i < kept_items(existing, template, key, ignored).0.len() ==> (name_of(
                #[trigger] kept_items(existing, template, key, ignored).0[i],
                key,
            ) matches Some(own) ==> !ignored.contains(own)),
    decreases existing.len(),
{
    let name = name_of(template[at], key)->Some_0;
    let (kept, installed) = kept_items(existing, template, key, ignored);
    crate::vscode::installer::lemma_named_template(template, key, ignored, at);
    if existing.len() > 0 {
        let rest = existing.drop_last();
        let item = existing.last();
        let (before, known) = kept_items(rest, template, key, ignored);
        lemma_kept_named(rest, template, key, ignored, at);
        assert(rest.push(item) =~= existing);
        lemma_named_push(rest, item, key, name);
        assert(name_of(template[at], key) is Some);
        if let Some(own) = name_of(item, key) {
            if !ignored.contains(own) {
                if let Some(pattern) = named(template, key, own) {
                    crate::vscode::installer::lemma_named_item(template, key, own);
                    let k = choose|k: int| 0 <= k < template.len() && template[k] == pattern;
                    assert(name_of(template[k], key) is Some);
                    crate::vscode::installer::lemma_combined_name(item, pattern, key);
                    lemma_named_push(before, combined(item, pattern), key, name);
                    if !known.contains(own) {
                        assert(installed == known.push(own));
                        assert(installed.last() == own);
                        if own == name {
                            assert(installed[installed.len() - 1] == name);
                        }
                        if known.contains(name) {
                            let j = choose|j: int| 0 <= j < known.len() && known[j] == name;
                            assert(installed[j] == name);
                        }
                        if installed.contains(name) && own != name {
                            let j = choose|j: int| 0 <= j < installed.len() && installed[j] == name;
                            assert(known[j] == name);
                        }
                    }
                } else {
                    lemma_named_push(before, item, key, name);
                }
            }
        } else {
            lemma_named_push(before, item, key, name);
        }
    }
}

proof fn lemma_new_named(
    template: Seq<JsonView>,
    count: int,
    key: Seq<char>,
    ignored: Seq<Seq<char>>,
    installed: Seq<Seq<char>>,
    front: Seq<JsonView>,
    at: int,
)
    requires
        is_template(template, key, ignored),
        0 <= at < template.len(),
        0 <= count <= template.len(),
    ensures
        ({
            let name = name_of(template[at], key)->Some_0;
            let all = front + new_items(template.take(count), key, installed);
            named(all, key, name) == (match named(front, key, name) {
                Some(found) => Some(found),
                None => if at < count && !installed.contains(name) {
                    Some(template[at])
                } else {
                    None
                },
            })
        }),
        forall|i: int|
            0 <= i < new_items(template.take(count), key, installed).len() ==> (name_of(
                #[trigger] new_items(template.take(count), key, installed)[i],
                key,
            ) matches Some(own) && !ignored.contains(own)),
    decreases count,
{
    let name = name_of(template[at], key)->Some_0;
    assert(name_of(template[at], key) is Some);
    if count == 0 {
        assert(front + new_items(template.take(0), key, installed) =~= front);
    } else {
        lemma_new_named(template, count - 1, key, ignored, installed, front, at);
        assert(template.take(count).drop_last() =~= template.take(count - 1));
        let item = template[count - 1];
        assert(template.take(count).last() == item);
        assert(name_of(template[count - 1], key) is Some);
        let before = new_items(template.take(count - 1), key, installed);
        let now = new_items(template.take(count), key, installed);
        let own = name_of(item, key)->Some_0;
        if at < count - 1 {
            assert(name_of(template[at], key) != name_of(template[count - 1], key));
        } else if at > count - 1 {
            assert(name_of(template[count - 1], key) != name_of(template[at], key));
        }
        if !installed.contains(own) {
            assert(front + now =~= (front + before).push(item));
            lemma_named_push(front + before, item, key, name);
        }
    }
}

/// Every template item is installed: the merged items have one with its name, which
/// has every field of the template, and of an existing item with that name all other
/// fields. No item has a name that is no longer used.
pub proof fn templates_are_installed(
    existing: Seq<JsonView>,
    template: Seq<JsonView>,
    key: Seq<char>,
    ignored: Seq<Seq<char>>,
    at: int,
    other: Seq<char>,
)
    requires
        is_template(template, key, ignored),
        0 <= at < template.len(),
    ensures
        ({
            let name = name_of(template[at], key)->Some_0;
            let merged = merged_items(existing, template, key, ignored);
            &&& named(merged, key, name) matches Some(item) && field(item, other) == (match field(
                template[at],
                other,
            ) {
                Some(value) => Some(value),
                None => match named(existing, key, name) {
                    Some(old) => field(old, other),
                    None => None,
                },
            })
            &&& forall|i: int|
                0 <= i < merged.len() ==> (name_of(#[trigger] merged[i], key) matches Some(own)
                    ==> !ignored.contains(own))
        }),
{
    let name = name_of(template[at], key)->Some_0;
    let (kept, installed) = kept_items(existing, template, key, ignored);
    lemma_kept_named(existing, template, key, ignored, at);
    lemma_new_named(template, template.len() as int, key, ignored, installed, kept, at);
    assert(template.take(template.len() as int) =~= template);
    assert(name_of(template[at], key) is Some);
    if let Some(old) = named(existing, key, name) {
        crate::vscode::installer::lemma_named_item(existing, key, name);
        fields_are_combined(old, template[at], other);
    }
    let merged = merged_items(existing, template, key, ignored);
    let fresh = new_items(template, key, installed);
    assert forall|i: int| 0 <= i < merged.len() implies (name_of(#[trigger] merged[i], key) matches Some(
        own,
    ) ==> !ignored.contains(own)) by {
        if i < kept.len() {
            assert(merged[i] == kept[i]);
        } else {
            assert(merged[i] == fresh[i - kept.len()]);
        }
    }
}

/// A merged document has the version of the template, or that of its kind, and the
/// merged items.
pub proof fn documents_get_version_and_items(kind: Kind, existing: JsonView, template: JsonView)
    ensures
        merged_document(kind, existing, template) matches Ok(merged) ==> {
            &&& field(template, "version"@) is Some ==> field(merged, "version"@) == field(
                template,
                "version"@,
            )
            &&& field(template, "version"@) is None && kind == Kind::Tasks ==> field(
                merged,
                "version"@,
            ) == Some(JsonView::Text("2.0.0"@))
            &&& field(template, "version"@) is None && kind == Kind::Launch ==> field(
                merged,
                "version"@,
            ) == Some(JsonView::Text("0.2.0"@))
            &&& field(merged, kind_list(kind)) matches Some(JsonView::Array(items)) && field(
                existing,
                kind_list(kind),
            ) matches Some(JsonView::Array(old)) && field(template, kind_list(kind)) matches Some(
                JsonView::Array(new),
            ) && items == merged_items(old, new, kind_key(kind), kind_legacy(kind))
        },
        kind_list(Kind::Tasks) == "tasks"@ && kind_list(Kind::Launch) == "configurations"@,
        kind_key(Kind::Tasks) == "label"@ && kind_key(Kind::Launch) == "name"@,
{
    reveal_strlit("version");
    reveal_strlit("tasks");
    reveal_strlit("configurations");
    assert("version"@.len() == 7 && "tasks"@.len() == 5 && "configurations"@.len() == 14);
    if let Ok(merged) = merged_document(kind, existing, template) {
        let members = members_of(existing);
        let version = match member(members_of(template), "version"@) {
            Some(value) => value,
            None => JsonView::Text(crate::vscode::installer::kind_version(kind)),
        };
        let items = merged_items(
            items_in(members, kind)->Some_0,
            items_in(members_of(template), kind)->Some_0,
            kind_key(kind),
            kind_legacy(kind),
        );
        let one = with_member(members, "version"@, version);
        lemma_member_set(members, "version"@, version, "version"@);
        lemma_member_set(one, kind_list(kind), JsonView::Array(items), "version"@);
        lemma_member_set(one, kind_list(kind), JsonView::Array(items), kind_list(kind));
    }
}

/// Each token stands for its own value: the executable, the configuration file and
/// the two ports, which stay numbers.
pub proof fn tokens_stand_for_their_values(config: ConfigView, exe: Seq<char>)
    ensures
        ({
            let tokens = tokens_for(config, exe);
            &&& tokens_replaced(JsonView::Text("__TRACEBRIDGE_EXE__"@), tokens) == JsonView::Text(
                exe,
            )
            &&& tokens_replaced(JsonView::Text("__TRACEBRIDGE_CONFIG__"@), tokens)
                == JsonView::Text(config.config_file)
            &&& tokens_replaced(JsonView::Text("__T32_DAP_PORT__"@), tokens) == JsonView::Number(
                decimal_text(config.dap_port as nat),
            )
            &&& tokens_replaced(JsonView::Text("__T32_RCL_PORT__"@), tokens) == JsonView::Number(
                decimal_text(config.rcl_port as nat),
            )
        }),
{
    reveal_strlit("__TRACEBRIDGE_EXE__");
    reveal_strlit("__TRACEBRIDGE_CONFIG__");
    reveal_strlit("__T32_DAP_PORT__");
    reveal_strlit("__T32_RCL_PORT__");
    assert("__TRACEBRIDGE_EXE__"@.len() == 19 && "__TRACEBRIDGE_CONFIG__"@.len() == 22);
    assert("__T32_DAP_PORT__"@.len() == 16 && "__T32_RCL_PORT__"@.len() == 16);
    assert("__T32_DAP_PORT__"@[6] != "__T32_RCL_PORT__"@[6]);
    let tokens = tokens_for(config, exe);
    reveal_with_fuel(member, 5);
    assert(tokens.skip(1)[0] == tokens[1]);
    assert(tokens.skip(1).skip(1)[0] == tokens[2]);
    assert(tokens.skip(1).skip(1).skip(1)[0] == tokens[3]);
}

/// A text without any token stays as it is, and so does any value that is neither a
/// text nor holds one.
pub proof fn other_texts_are_kept(text: Seq<char>, tokens: Seq<(Seq<char>, JsonView)>)
    requires
        forall|i: int|
            0 <= i < tokens.len() ==> (#[trigger] tokens[i]).0.len() > 0 && !has_text(
                text,
                tokens[i].0,
            ),
    ensures
        tokens_replaced(JsonView::Text(text), tokens) == JsonView::Text(text),
        tokens_replaced(JsonView::Number(text), tokens) == JsonView::Number(text),
        tokens_replaced(JsonView::Null, tokens) == JsonView::Null,
        tokens_replaced(JsonView::Bool(true), tokens) == JsonView::Bool(true),
        tokens_replaced(JsonView::Bool(false), tokens) == JsonView::Bool(false),
{
    lemma_no_tokens(text, tokens);
    if member(tokens, text) is Some {
        let at = lemma_member_place(tokens, text);
        assert(text.subrange(0, text.len() as int) =~= text);
        assert(occurs_at(text, tokens[at].0, 0));
    }
}

proof fn lemma_no_tokens(text: Seq<char>, tokens: Seq<(Seq<char>, JsonView)>)
    requires
        forall|i: int|
            0 <= i < tokens.len() ==> (#[trigger] tokens[i]).0.len() > 0 && !has_text(
                text,
                tokens[i].0,
            ),
    ensures
        tokens_in_text(text, tokens) == text,
    decreases tokens.len(),
{
    if tokens.len() > 0 {
        let rest = tokens.drop_last();
        assert forall|i: int| 0 <= i < rest.len() implies (#[trigger] rest[i]).0.len() > 0
            && !has_text(text, rest[i].0) by {
            assert(rest[i] == tokens[i]);
        }
        lemma_no_tokens(text, rest);
        assert(tokens[tokens.len() - 1] == tokens.last());
        lemma_replace_absent(text, tokens.last().0, token_text(tokens.last().1), 0);
        assert(text.skip(0) =~= text);
    }
}

/// Arrays and objects keep their shape: each item and each member is replaced by
/// itself, and keys stay.
pub proof fn shapes_are_kept(
    items: Seq<JsonView>,
    item: JsonView,
    members: Seq<(Seq<char>, JsonView)>,
    key: Seq<char>,
    tokens: Seq<(Seq<char>, JsonView)>,
)
    ensures
        tokens_replaced(JsonView::Array(items), tokens) matches JsonView::Array(done)
            && tokens_replaced(JsonView::Array(items.push(item)), tokens) == JsonView::Array(
            done.push(tokens_replaced(item, tokens)),
        ),
        tokens_replaced(JsonView::Object(members), tokens) matches JsonView::Object(done)
            && tokens_replaced(JsonView::Object(members.push((key, item))), tokens)
            == JsonView::Object(done.push((key, tokens_replaced(item, tokens)))),
        tokens_replaced(JsonView::Array(Seq::empty()), tokens) == JsonView::Array(Seq::empty()),
        tokens_replaced(JsonView::Object(Seq::empty()), tokens) == JsonView::Object(Seq::empty()),
{
    assert(items.push(item).drop_last() =~= items);
    assert(members.push((key, item)).drop_last() =~= members);
    assert(crate::vscode::installer::items_replaced(Seq::empty(), tokens) =~= Seq::empty());
    assert(crate::vscode::installer::members_replaced(Seq::empty(), tokens) =~= Seq::empty());
}

/// The program name for a new configuration is that of the directory, letter by
/// letter: letters, digits, dashes and underscores stay, anything else becomes an
/// underscore; a directory without a name gives `app`.
pub proof fn programs_are_named_after_directories(directory: Seq<char>)
    ensures
        match file_name_of(directory) {
            Some(name) => {
                &&& name.len() > 0 ==> program_name(directory).len() == name.len()
                &&& forall|i: int|
                    0 <= i < name.len() ==> (program_name(directory)[i] == #[trigger] name[i] || (
                    program_name(directory)[i] == '_'))
                &&& forall|i: int|
                    0 <= i < name.len() && (('a' <= #[trigger] name[i] && name[i] <= 'z') || ('A'
                        <= name[i] && name[i] <= 'Z') || ('0' <= name[i] && name[i] <= '9')
                        || name[i] == '-' || name[i] == '_') ==> program_name(directory)[i]
                        == name[i]
                &&& forall|i: int|
                    0 <= i < name.len() && !(('a' <= #[trigger] name[i] && name[i] <= 'z') || ('A'
                        <= name[i] && name[i] <= 'Z') || ('0' <= name[i] && name[i] <= '9')
                        || name[i] == '-' || name[i] == '_') ==> program_name(directory)[i] == '_'
            },
            None => program_name(directory) == "app"@,
        },
{
}

/// Each character of a text becomes the same in an XML attribute, but for those that
/// mean something there, which become their entities.
pub proof fn special_characters_become_entities(a: Seq<char>, c: char)
    ensures
        xml_text(a.push(c)) == xml_text(a) + (if c == '&' {
            "&amp;"@
        } else if c == '<' {
            "&lt;"@
        } else if c == '>' {
            "&gt;"@
        } else if c == '"' {
            "&quot;"@
        } else if c == '\n' {
            "&#10;"@
        } else {
            seq![c]
        }),
        xml_text(seq![]) == Seq::<char>::empty(),
{
    assert(a.push(c).drop_last() =~= a);
    assert(a.push(c).last() == c);
}

/// Whether a run configuration sets an option.
pub open spec fn sets_option(text: Seq<char>, name: Seq<char>, value: Seq<char>) -> bool {
    has_text(text, "<option name=\""@ + name + "\" value=\""@ + xml_text(value) + "\" />"@)
}

proof fn lemma_option(text: Seq<char>, a: Seq<char>, name: Seq<char>, value: Seq<char>, b: Seq<char>)
    requires
        text == a + option_line(name, value) + b,
    ensures
        sets_option(text, name, value),
{
    reveal_strlit("    <option name=\"");
    reveal_strlit("<option name=\"");
    reveal_strlit("    ");
    reveal_strlit("\" />\n");
    reveal_strlit("\" />");
    reveal_strlit("\n");
    let wanted = "<option name=\""@ + name + "\" value=\""@ + xml_text(value) + "\" />"@;
    let line = option_line(name, value);
    assert(line =~= "    "@ + wanted + "\n"@);
    let front = a + "    "@;
    let back = "\n"@ + b;
    assert(text =~= front + wanted + back);
    lemma_has_middle(front, wanted, back);
}

/// The run configuration of the IDE starts the adapter with the configuration, in the
/// directory of the project, and gives it five seconds more than the backend has.
pub proof fn run_configurations_start_the_adapter(config: ConfigView, exe: Seq<char>)
    ensures
        sets_option(
            rendered(config, exe),
            "command"@,
            quoted(exe) + " --config "@ + quoted(config.config_file) + " adapter"@,
        ),
        sets_option(rendered(config, exe), "workingDirectory"@, config.project_dir),
        sets_option(rendered(config, exe), "debugMode"@, "LAUNCH"@),
        sets_option(
            rendered(config, exe),
            "connectTimeout"@,
            decimal_text((config.dap_backend_timeout * 1000 + 5000) as nat),
        ),
{
    let text = rendered(config, exe);
    let head =
        "<component name=\"ProjectRunConfigurationManager\">\n  <configuration default=\"false\" name=\"TRACE32: Attach\" type=\"DAPConfiguration\" factoryName=\"DAPConfiguration\">\n"@;
    let server = option_line("serverName"@, "tracebridge"@);
    let command = option_line("command"@, adapter_command(exe, config.config_file));
    let directory = option_line("workingDirectory"@, config.project_dir);
    let mode = option_line("debugMode"@, "LAUNCH"@);
    let strategy = option_line("debugServerWaitStrategy"@, "TRACE"@);
    let ready = option_line("debugServerReadyPattern"@, READY_PATTERN@);
    let timeout = option_line(
        "connectTimeout"@,
        decimal_text((config.dap_backend_timeout * 1000 + 5000) as nat),
    );
    let launch = option_line("launchConfiguration"@, attach_parameters(config));
    let end =
        "    <option name=\"serverMappings\">\n      <list>\n        <ServerMappingSettings>\n          <fileType>\n"@
        + mapping_lines()
        + "          </fileType>\n        </ServerMappingSettings>\n      </list>\n    </option>\n"@
        + "    <method v=\"2\" />\n  </configuration>\n</component>\n"@;
    let before_command = head + server;
    let before_directory = before_command + command;
    let before_mode = before_directory + directory;
    let before_timeout = before_mode + mode + strategy + ready;
    let behind_timeout = launch + end;
    let behind_mode = strategy + ready + timeout + behind_timeout;
    let behind_directory = mode + behind_mode;
    let behind_command = directory + behind_directory;
    assert(text =~= before_timeout + timeout + behind_timeout);
    assert(text =~= before_mode + mode + behind_mode);
    assert(text =~= before_directory + directory + behind_directory);
    assert(text =~= before_command + command + behind_command);
    lemma_option(
        text,
        before_command,
        "command"@,
        adapter_command(exe, config.config_file),
        behind_command,
    );
    lemma_option(
        text,
        before_directory,
        "workingDirectory"@,
        config.project_dir,
        behind_directory,
    );
    lemma_option(text, before_mode, "debugMode"@, "LAUNCH"@, behind_mode);
    lemma_option(
        text,
        before_timeout,
        "connectTimeout"@,
        decimal_text((config.dap_backend_timeout * 1000 + 5000) as nat),
        behind_timeout,
    );
}

/// The IDE attaches to the port of the remote control.
pub proof fn run_configurations_attach_to_the_port(config: ConfigView, exe: Seq<char>)
    ensures
        has_text(
            attach_parameters(config),
            "\"trace32Port\": "@ + decimal_text(config.rcl_port as nat) + "\n"@,
        ),
        sets_option(rendered(config, exe), "launchConfiguration"@, attach_parameters(config)),
        sets_option(rendered(config, exe), "debugServerReadyPattern"@, READY_PATTERN@),
{
    let text = rendered(config, exe);
    let head =
        "<component name=\"ProjectRunConfigurationManager\">\n  <configuration default=\"false\" name=\"TRACE32: Attach\" type=\"DAPConfiguration\" factoryName=\"DAPConfiguration\">\n"@
        + option_line("serverName"@, "tracebridge"@) + option_line(
        "command"@,
        adapter_command(exe, config.config_file),
    ) + option_line("workingDirectory"@, config.project_dir) + option_line(
        "debugMode"@,
        "LAUNCH"@,
    ) + option_line("debugServerWaitStrategy"@, "TRACE"@);
    let ready = option_line("debugServerReadyPattern"@, READY_PATTERN@);
    let timeout = option_line(
        "connectTimeout"@,
        decimal_text((config.dap_backend_timeout * 1000 + 5000) as nat),
    );
    let launch = option_line("launchConfiguration"@, attach_parameters(config));
    let end =
        "    <option name=\"serverMappings\">\n      <list>\n        <ServerMappingSettings>\n          <fileType>\n"@
        + mapping_lines()
        + "          </fileType>\n        </ServerMappingSettings>\n      </list>\n    </option>\n"@
        + "    <method v=\"2\" />\n  </configuration>\n</component>\n"@;
    assert(text =~= head + ready + (timeout + launch + end));
    assert(text =~= head + ready + timeout + launch + end);
    lemma_option(text, head, "debugServerReadyPattern"@, READY_PATTERN@, timeout + launch + end);
    lemma_option(
        text,
        head + ready + timeout,
        "launchConfiguration"@,
        attach_parameters(config),
        end,
    );
    let digits = decimal_text(config.rcl_port as nat);
    let front =
        "{\n  \"type\": \"node\",\n  \"request\": \"attach\",\n  \"trace32Node\": \"localhost\",\n  \"trace32Port\": "@;
    reveal_strlit(
        "{\n  \"type\": \"node\",\n  \"request\": \"attach\",\n  \"trace32Node\": \"localhost\",\n  \"trace32Port\": ",
    );
    reveal_strlit("\"trace32Port\": ");
    reveal_strlit("\n}");
    reveal_strlit("\n");
    reveal_strlit("}");
    let wanted = "\"trace32Port\": "@ + digits + "\n"@;
    let all = attach_parameters(config);
    let at = front.len() - "\"trace32Port\": "@.len();
    assert(all.subrange(at, at + wanted.len()) =~= wanted);
    assert(occurs_at(all, wanted, at));
}

/// Items that earlier versions installed are those with one of the old names.
pub proof fn old_items_are_known_by_name(name: Seq<char>)
    ensures
        kind_legacy(Kind::Tasks).contains(name) <==> {
            ||| name == "T32: Flash"@
            ||| name == "T32: Load ELF"@
            ||| name == "T32: RTT Viewer"@
            ||| name == "T32: Start Debug Adapter"@
            ||| name == "T32: Flash + Debug"@
            ||| name == "T32: Load + Debug"@
        },
        kind_legacy(Kind::Launch).contains(name) <==> {
            ||| name == "1. Flash + Debug"@
            ||| name == "2. Load + Debug"@
        },
{
    let tasks = kind_legacy(Kind::Tasks);
    let launch = kind_legacy(Kind::Launch);
    assert(tasks[0] == "T32: Flash"@ && tasks[1] == "T32: Load ELF"@ && tasks[2]
        == "T32: RTT Viewer"@ && tasks[3] == "T32: Start Debug Adapter"@ && tasks[4]
        == "T32: Flash + Debug"@ && tasks[5] == "T32: Load + Debug"@);
    assert(launch[0] == "1. Flash + Debug"@ && launch[1] == "2. Load + Debug"@);
}

/// A document that is not there counts as one of its kind without items.
pub proof fn new_documents_have_no_items(kind: Kind)
    ensures
        items_in(members_of(empty_document(kind)), kind) == Some(Seq::<JsonView>::empty()),
        field(empty_document(kind), "version"@) == Some(
            JsonView::Text(
                match kind {
                    Kind::Tasks => "2.0.0"@,
                    Kind::Launch => "0.2.0"@,
                },
            ),
        ),
{
    reveal_strlit("version");
    reveal_strlit("tasks");
    reveal_strlit("configurations");
    assert("version"@.len() == 7 && "tasks"@.len() == 5 && "configurations"@.len() == 14);
    let members = members_of(empty_document(kind));
    reveal_with_fuel(member, 3);
    assert(members.skip(1)[0] == members[1]);
}

/// Whether a character has no meaning of its own to a shell.
pub open spec fn is_shell_plain(c: char) -> bool {
    ||| '0' <= c && c <= '9'
    ||| 'A' <= c && c <= 'Z'
    ||| 'a' <= c && c <= 'z'
    ||| c == '/' || c == '.' || c == '_' || c == '-' || c == '+' || c == ':' || c == '=' || c == '@'
    ||| c == '%' || c == ','
}

/// An argument without any character that means something to a shell stands as it is;
/// any other, and an empty one, stands between quotation marks.
pub proof fn arguments_are_quoted_where_needed(argument: Seq<char>)
    ensures
        argument.len() > 0 && (forall|i: int|
            0 <= i < argument.len() ==> is_shell_plain(#[trigger] argument[i])) ==> quoted(argument)
            == argument,
        (exists|i: int| 0 <= i < argument.len() && !is_shell_plain(#[trigger] argument[i])) ==> {
            &&& quoted(argument).len() >= argument.len() + 2
            &&& quoted(argument)[0] == '"' && quoted(argument).last() == '"'
        },
        argument.len() == 0 ==> quoted(argument) == seq!['"', '"'],
{
    if argument.len() > 0 && forall|i: int|
        0 <= i < argument.len() ==> is_shell_plain(#[trigger] argument[i]) {
        assert forall|i: int| 0 <= i < argument.len() implies is_plain_char(#[trigger] argument[i]) by {
            assert(is_shell_plain(argument[i]));
        }
    }
    if exists|i: int| 0 <= i < argument.len() && !is_shell_plain(#[trigger] argument[i]) {
        let i = choose|i: int| 0 <= i < argument.len() && !is_shell_plain(#[trigger] argument[i]);
        assert(!is_plain_char(argument[i]));
        lemma_quoted_longer(argument);
    }
    if argument.len() == 0 {
        assert(quoted(argument) =~= seq!['"', '"']);
    }
}

proof fn lemma_quoted_longer(s: Seq<char>)
    ensures
        quoted_text(s).len() >= s.len(),
    decreases s.len(),
{
    if s.len() > 0 {
        lemma_quoted_longer(s.drop_last());
    }
}

/// A document is written with four blanks for each level, and ends with a line end.
pub proof fn documents_end_with_a_line_end(document: JsonView)
    ensures
        pretty(document) matches Ok(text) ==> text.len() > 0 && text.last() == '\n' && json_pretty(
            document,
            seq![' ', ' ', ' ', ' '],
        ) == Ok::<_, Seq<char>>(text.drop_last()),
        pretty(document) is Ok <==> json_pretty(document, seq![' ', ' ', ' ', ' ']) is Ok,
{
    reveal_strlit("    ");
    assert("    "@ =~= seq![' ', ' ', ' ', ' ']);
    if let Ok(text) = json_pretty(document, "    "@) {
        assert(text.push('\n').drop_last() =~= text);
    }
}

/// An item of the template without a name is always added.
pub proof fn nameless_items_are_added(
    template: Seq<JsonView>,
    item: JsonView,
    key: Seq<char>,
    installed: Seq<Seq<char>>,
)
    requires
        name_of(item, key) is None,
    ensures
        new_items(template.push(item), key, installed) == new_items(template, key, installed).push(
            item,
        ),
{
    assert(template.push(item).drop_last() =~= template);
}

}
