//! Merging the debug configuration into the files of VS Code.

use vstd::prelude::*;
use vstd::string::*;
use vstd::utf8::*;

use crate::config::{Config, ConfigView};
use crate::dap::proxy::{ready_line, LOG_PREFIX};
use crate::errors::BridgeError;
use crate::json::{
    as_str, copy, field, get, get_field, insert, is_plain, item_views, json_bytes, json_pretty,
    lemma_item_views, lemma_member_set, lemma_member_set_again, lemma_member_views, member,
    member_views, nesting, string_in, with_member, write_json, write_pretty, Json, JsonView,
    Message,
};
use crate::text::{
    chars_of, concat2, concat3, concat4, decimal, decimal_round_trip, decimal_text,
    decode_utf8_lossy, has_text, lemma_replace_absent, lemma_replace_once, occurs_at, replace,
    replaced, same, string_of, utf8_replaced,
};
use crate::vscode::jsonc::{
    file_loaded, lemma_strict_line_end, load, loaded, loads, strict_text_is_kept, value_outcome,
    without_mark, Place,
};

verus! {

/// The tasks that are merged in.
pub const TASKS_TEMPLATE: &'static str = "{
    \"version\": \"2.0.0\",
    \"tasks\": [
        {
            // Started by the TRACE32: Attach debug configuration.
            \"label\": \"tracebridge: adapter\",
            \"type\": \"process\",
            \"command\": \"__TRACEBRIDGE_EXE__\",
            \"args\": [\"--config\", \"__TRACEBRIDGE_CONFIG__\", \"adapter\"],
            \"isBackground\": true,
            \"hide\": true,
            \"presentation\": {\"reveal\": \"silent\", \"panel\": \"dedicated\"},
            \"problemMatcher\": [
                {
                    \"pattern\": [{\"regexp\": \"^$\", \"file\": 1, \"location\": 2, \"message\": 3}],
                    \"background\": {
                        \"activeOnStart\": true,
                        \"beginsPattern\": \"starting debug adapter proxy\",
                        \"endsPattern\": \"^\\\\[tracebridge\\\\] adapter listening on 127\\\\.0\\\\.0\\\\.1:__T32_DAP_PORT__.*$\"
                    }
                }
            ]
        }
    ]
}
";

/// What VS Code waits for until it attaches: a regular expression, with the token of
/// the port in it.
pub const ENDS_PATTERN: &'static str = "^\\[tracebridge\\] adapter listening on 127\\.0\\.0\\.1:__T32_DAP_PORT__.*$";

/// The debug configurations that are merged in.
pub const LAUNCH_TEMPLATE: &'static str = "{
    \"version\": \"0.2.0\",
    \"configurations\": [
        {
            \"name\": \"TRACE32: Attach\",
            \"type\": \"node\",
            \"request\": \"attach\",
            \"debugServer\": \"__T32_DAP_PORT__\",
            \"trace32Node\": \"localhost\",
            \"trace32Port\": \"__T32_RCL_PORT__\",
            \"preLaunchTask\": \"tracebridge: adapter\"
        }
    ]
}
";

/// The content of replacements for tokens.
pub open spec fn token_views(replacements: Seq<(&'static str, Json)>) -> Seq<(Seq<char>, JsonView)> {
    replacements.map_values(|r: (&'static str, Json)| (r.0@, r.1@))
}

/// What a token is replaced by inside a longer text: a text as it is, any other
/// value as compact JSON.
pub open spec fn token_text(value: JsonView) -> Seq<char> {
    match value {
        JsonView::Text(text) => text,
        JsonView::Number(text) => text,
        _ => match json_bytes(value) {
            Ok(bytes) => utf8_replaced(bytes),
            Err(_) => seq![],
        },
    }
}

/// A text with all tokens replaced, one after the other.
pub open spec fn tokens_in_text(text: Seq<char>, tokens: Seq<(Seq<char>, JsonView)>) -> Seq<char>
    decreases tokens.len(),
{
    if tokens.len() == 0 {
        text
    } else {
        replaced(
            tokens_in_text(text, tokens.drop_last()),
            tokens.last().0,
            token_text(tokens.last().1),
        )
    }
}

/// A value with the tokens in it replaced: a text that is a token becomes the
/// value of the token, in other texts the tokens are replaced.
pub open spec fn tokens_replaced(value: JsonView, tokens: Seq<(Seq<char>, JsonView)>) -> JsonView
    decreases value,
{
    match value {
        JsonView::Array(items) => JsonView::Array(items_replaced(items, tokens)),
        JsonView::Object(members) => JsonView::Object(members_replaced(members, tokens)),
        JsonView::Text(text) => match member(tokens, text) {
            Some(replacement) => replacement,
            None => JsonView::Text(tokens_in_text(text, tokens)),
        },
        _ => value,
    }
}

/// Items with the tokens in them replaced.
pub open spec fn items_replaced(items: Seq<JsonView>, tokens: Seq<(Seq<char>, JsonView)>) -> Seq<
    JsonView,
>
    decreases items,
{
    if items.len() == 0 {
        seq![]
    } else {
        items_replaced(items.drop_last(), tokens).push(tokens_replaced(items.last(), tokens))
    }
}

/// Members with the tokens in their values replaced.
pub open spec fn members_replaced(
    members: Seq<(Seq<char>, JsonView)>,
    tokens: Seq<(Seq<char>, JsonView)>,
) -> Seq<(Seq<char>, JsonView)>
    decreases members,
{
    if members.len() == 0 {
        seq![]
    } else {
        members_replaced(members.drop_last(), tokens).push(
            (members.last().0, tokens_replaced(members.last().1, tokens)),
        )
    }
}

fn text_of_token(value: &Json) -> (text: String)
    ensures
        text@ == token_text(value@),
{
    match value {
        Json::Text(text) => text.clone(),
        Json::Number(text) => text.clone(),
        _ => match write_json(value) {
            Ok(bytes) => decode_utf8_lossy(&bytes),
            Err(_) => {
                let none = String::new();
                assert(none@ =~= seq![]);
                none
            },
        },
    }
}

fn find_token(text: &str, replacements: &Vec<(&'static str, Json)>) -> (result: Option<Json>)
    ensures
        match result {
            Some(value) => member(token_views(replacements@), text@) == Some(value@),
            None => member(token_views(replacements@), text@) is None,
        },
{
    let ghost views = token_views(replacements@);
    let mut i: usize = 0;
    assert(views.skip(0) =~= views);
    while i < replacements.len()
        invariant
            i <= replacements@.len(),
            views == token_views(replacements@),
            member(views, text@) == member(views.skip(i as int), text@),
        decreases replacements@.len() - i,
    {
        assert(views.skip(i as int)[0] == views[i as int]);
        assert(views.skip(i as int).skip(1) =~= views.skip(i as int + 1));
        if same(replacements[i].0, text) {
            return Some(copy(&replacements[i].1));
        }
        i = i + 1;
    }
    None
}

fn replace_in_text(text: &str, replacements: &Vec<(&'static str, Json)>) -> (result: String)
    ensures
        result@ == tokens_in_text(text@, token_views(replacements@)),
{
    let ghost views = token_views(replacements@);
    let mut chars = chars_of(text);
    let mut i: usize = 0;
    assert(views.take(0) =~= seq![]);
    while i < replacements.len()
        invariant
            i <= replacements@.len(),
            views == token_views(replacements@),
            chars@ == tokens_in_text(text@, views.take(i as int)),
        decreases replacements@.len() - i,
    {
        assert(views.take(i as int + 1).drop_last() =~= views.take(i as int));
        assert(views[i as int] == (replacements@[i as int].0@, replacements@[i as int].1@));
        let with = text_of_token(&replacements[i].1);
        chars = replace(&chars, &chars_of(replacements[i].0), &chars_of(&with));
        i = i + 1;
    }
    assert(views.take(i as int) =~= views);
    string_of(&chars)
}

/// Replaces the tokens in a value: a text that is a token becomes the value of
/// the token, so that ports stay numbers; in longer texts the tokens are replaced
/// by their text.
pub fn replace_tokens(value: &Json, replacements: &Vec<(&'static str, Json)>) -> (result: Json)
    ensures
        result@ == tokens_replaced(value@, token_views(replacements@)),
    decreases value,
{
    let ghost tokens = token_views(replacements@);
    match value {
        Json::Array(items) => {
            let mut copies: Vec<Json> = Vec::new();
            let mut i: usize = 0;
            proof {
                lemma_item_views(items@);
            }
            while i < items.len()
                invariant
                    i <= items@.len(),
                    *value == Json::Array(*items),
                    tokens == token_views(replacements@),
                    item_views(copies@) == items_replaced(
                        item_views(items@.take(i as int)),
                        tokens,
                    ),
                decreases items@.len() - i,
            {
                assert(items@.take(i as int + 1).drop_last() =~= items@.take(i as int));
                assert(item_views(items@.take(i as int + 1)).drop_last() =~= item_views(
                    items@.take(i as int),
                ));
                assert(decreases_to!(*value => value->Array_0));
                assert(decreases_to!(*items => items[i as int]));
                let item = replace_tokens(&items[i], replacements);
                let ghost before = copies@;
                copies.push(item);
                assert(copies@.drop_last() =~= before);
                i = i + 1;
            }
            assert(items@.take(i as int) =~= items@);
            Json::Array(copies)
        },
        Json::Object(members) => {
            let mut copies: Vec<(String, Json)> = Vec::new();
            let mut i: usize = 0;
            while i < members.len()
                invariant
                    i <= members@.len(),
                    *value == Json::Object(*members),
                    tokens == token_views(replacements@),
                    member_views(copies@) == members_replaced(
                        member_views(members@.take(i as int)),
                        tokens,
                    ),
                decreases members@.len() - i,
            {
                assert(members@.take(i as int + 1).drop_last() =~= members@.take(i as int));
                assert(member_views(members@.take(i as int + 1)).drop_last() =~= member_views(
                    members@.take(i as int),
                ));
                assert(decreases_to!(*value => value->Object_0));
                assert(decreases_to!(*members => members[i as int]));
                let item = replace_tokens(&members[i].1, replacements);
                let ghost before = copies@;
                copies.push((members[i].0.clone(), item));
                assert(copies@.drop_last() =~= before);
                i = i + 1;
            }
            assert(members@.take(i as int) =~= members@);
            Json::Object(copies)
        },
        Json::Text(text) => match find_token(text, replacements) {
            Some(replacement) => replacement,
            None => Json::Text(replace_in_text(text, replacements)),
        },
        _ => copy(value),
    }
}

/// The name of an item: the text of one of its members.
pub open spec fn name_of(item: JsonView, key: Seq<char>) -> Option<Seq<char>> {
    string_in(field(item, key))
}

/// The first item with a name.
pub open spec fn named(items: Seq<JsonView>, key: Seq<char>, name: Seq<char>) -> Option<JsonView>
    decreases items.len(),
{
    if items.len() == 0 {
        None
    } else if name_of(items[0], key) == Some(name) {
        Some(items[0])
    } else {
        named(items.skip(1), key, name)
    }
}

/// Members with others set in them, one after the other.
pub open spec fn with_members(
    members: Seq<(Seq<char>, JsonView)>,
    others: Seq<(Seq<char>, JsonView)>,
) -> Seq<(Seq<char>, JsonView)>
    decreases others.len(),
{
    if others.len() == 0 {
        members
    } else {
        with_member(
            with_members(members, others.drop_last()),
            others.last().0,
            others.last().1,
        )
    }
}

/// The members of a value; none where it is no object.
pub open spec fn members_of(value: JsonView) -> Seq<(Seq<char>, JsonView)> {
    match value {
        JsonView::Object(members) => members,
        _ => seq![],
    }
}

/// An item with the members of its template set; what the template does not name
/// is kept.
pub open spec fn combined(item: JsonView, template: JsonView) -> JsonView {
    JsonView::Object(with_members(members_of(item), members_of(template)))
}

/// What existing items become: ignored ones go, the first with the name of a
/// template item is combined with it and later ones go, and all others stay. The
/// second part of the result lists the names of the combined ones.
pub open spec fn kept_items(
    existing: Seq<JsonView>,
    template: Seq<JsonView>,
    key: Seq<char>,
    ignored: Seq<Seq<char>>,
) -> (Seq<JsonView>, Seq<Seq<char>>)
    decreases existing.len(),
{
    if existing.len() == 0 {
        (seq![], seq![])
    } else {
        let (kept, installed) = kept_items(existing.drop_last(), template, key, ignored);
        let item = existing.last();
        match name_of(item, key) {
            None => (kept.push(item), installed),
            Some(name) => if ignored.contains(name) {
                (kept, installed)
            } else {
                match named(template, key, name) {
                    None => (kept.push(item), installed),
                    Some(pattern) => if installed.contains(name) {
                        (kept, installed)
                    } else {
                        (kept.push(combined(item, pattern)), installed.push(name))
                    },
                }
            },
        }
    }
}

/// The template items that are not installed yet.
pub open spec fn new_items(
    template: Seq<JsonView>,
    key: Seq<char>,
    installed: Seq<Seq<char>>,
) -> Seq<JsonView>
    decreases template.len(),
{
    if template.len() == 0 {
        seq![]
    } else {
        let before = new_items(template.drop_last(), key, installed);
        if name_of(template.last(), key) matches Some(name) && installed.contains(name) {
            before
        } else {
            before.push(template.last())
        }
    }
}

/// Existing items merged with those of a template.
pub open spec fn merged_items(
    existing: Seq<JsonView>,
    template: Seq<JsonView>,
    key: Seq<char>,
    ignored: Seq<Seq<char>>,
) -> Seq<JsonView> {
    let (kept, installed) = kept_items(existing, template, key, ignored);
    kept + new_items(template, key, installed)
}

fn item_name(item: &Json, key: &str) -> (result: Option<String>)
    ensures
        match result {
            Some(name) => name_of(item@, key@) == Some(name@),
            None => name_of(item@, key@) is None,
        },
{
    match as_str(get_field(item, key)) {
        Some(name) => Some(name.to_owned()),
        None => None,
    }
}

fn find_named<'a>(items: &'a Vec<Json>, key: &str, name: &str) -> (result: Option<&'a Json>)
    ensures
        match result {
            Some(item) => named(item_views(items@), key@, name@) == Some(item@),
            None => named(item_views(items@), key@, name@) is None,
        },
{
    let ghost views = item_views(items@);
    proof {
        lemma_item_views(items@);
    }
    let mut i: usize = 0;
    assert(views.skip(0) =~= views);
    while i < items.len()
        invariant
            i <= items@.len(),
            views == item_views(items@),
            views.len() == items@.len(),
            forall|j: int| 0 <= j < items@.len() ==> #[trigger] views[j] == items@[j]@,
            named(views, key@, name@) == named(views.skip(i as int), key@, name@),
        decreases items@.len() - i,
    {
        assert(views.skip(i as int)[0] == views[i as int]);
        assert(views.skip(i as int).skip(1) =~= views.skip(i as int + 1));
        match item_name(&items[i], key) {
            Some(found) => {
                if same(&found, name) {
                    return Some(&items[i]);
                }
            },
            None => {},
        }
        i = i + 1;
    }
    None
}

fn lists(names: &Vec<String>, name: &str) -> (result: bool)
    ensures
        result == crate::t32rcl::eval::text_views(names@).contains(name@),
{
    let ghost views = crate::t32rcl::eval::text_views(names@);
    let mut i: usize = 0;
    while i < names.len()
        invariant
            i <= names@.len(),
            views == crate::t32rcl::eval::text_views(names@),
            forall|j: int| 0 <= j < i ==> views[j] != name@,
        decreases names@.len() - i,
    {
        assert(views[i as int] == names@[i as int]@);
        if same(&names[i], name) {
            return true;
        }
        i = i + 1;
    }
    false
}

fn combine(item: &Json, template: &Json) -> (result: Json)
    ensures
        result@ == combined(item@, template@),
{
    let mut members: Message = match copy(item) {
        Json::Object(members) => members,
        _ => Vec::new(),
    };
    assert(member_views(members@) =~= members_of(item@));
    match template {
        Json::Object(fields) => {
            let ghost views = member_views(fields@);
            proof {
                lemma_member_views(fields@);
            }
            let mut i: usize = 0;
            assert(views.take(0) =~= seq![]);
            while i < fields.len()
                invariant
                    i <= fields@.len(),
                    views == member_views(fields@),
                    views.len() == fields@.len(),
                    forall|j: int|
                        0 <= j < fields@.len() ==> #[trigger] views[j] == (
                            fields@[j].0@,
                            fields@[j].1@,
                        ),
                    member_views(members@) == with_members(
                        members_of(item@),
                        views.take(i as int),
                    ),
                decreases fields@.len() - i,
            {
                assert(views.take(i as int + 1).drop_last() =~= views.take(i as int));
                assert(views[i as int] == (fields@[i as int].0@, fields@[i as int].1@));
                insert(&mut members, &fields[i].0, copy(&fields[i].1));
                i = i + 1;
            }
            assert(views.take(i as int) =~= views);
        },
        _ => {},
    }
    Json::Object(members)
}

fn push_item(items: &mut Vec<Json>, item: Json)
    ensures
        item_views(final(items)@) == item_views(old(items)@).push(item@),
{
    let ghost before = items@;
    items.push(item);
    assert(items@.drop_last() =~= before);
}

/// Merges existing items with those of a template: a template item replaces the
/// members of the existing item with its name, other existing items are kept in
/// place, `ignored` names are dropped, and new template items are appended.
pub fn merge_named_items(
    existing: &Vec<Json>,
    template: &Vec<Json>,
    key: &str,
    ignored: &Vec<String>,
) -> (merged: Vec<Json>)
    ensures
        item_views(merged@) == merged_items(
            item_views(existing@),
            item_views(template@),
            key@,
            crate::t32rcl::eval::text_views(ignored@),
        ),
{
    let ghost views = item_views(existing@);
    let ghost patterns = item_views(template@);
    let ghost dropped = crate::t32rcl::eval::text_views(ignored@);
    proof {
        lemma_item_views(existing@);
        lemma_item_views(template@);
    }
    let mut merged: Vec<Json> = Vec::new();
    let mut installed: Vec<String> = Vec::new();
    let mut i: usize = 0;
    assert(views.take(0) =~= seq![]);
    assert(crate::t32rcl::eval::text_views(installed@) =~= seq![]);
    while i < existing.len()
        invariant
            i <= existing@.len(),
            views == item_views(existing@),
            views.len() == existing@.len(),
            patterns == item_views(template@),
            dropped == crate::t32rcl::eval::text_views(ignored@),
            forall|j: int| 0 <= j < existing@.len() ==> #[trigger] views[j] == existing@[j]@,
            (item_views(merged@), crate::t32rcl::eval::text_views(installed@)) == kept_items(
                views.take(i as int),
                patterns,
                key@,
                dropped,
            ),
        decreases existing@.len() - i,
    {
        assert(views.take(i as int + 1).drop_last() =~= views.take(i as int));
        assert(views[i as int] == existing@[i as int]@);
        let item = &existing[i];
        match item_name(item, key) {
            None => {
                push_item(&mut merged, copy(item));
            },
            Some(name) => {
                if !lists(ignored, &name) {
                    match find_named(template, key, &name) {
                        None => {
                            push_item(&mut merged, copy(item));
                        },
                        Some(pattern) => {
                            if !lists(&installed, &name) {
                                push_item(&mut merged, combine(item, pattern));
                                let ghost before = crate::t32rcl::eval::text_views(installed@);
                                installed.push(name);
                                assert(crate::t32rcl::eval::text_views(installed@) =~= before.push(
                                    name@,
                                ));
                            }
                        },
                    }
                }
            },
        }
        i = i + 1;
    }
    assert(views.take(i as int) =~= views);
    let ghost kept = item_views(merged@);
    let ghost names = crate::t32rcl::eval::text_views(installed@);
    let mut t: usize = 0;
    assert(patterns.take(0) =~= seq![]);
    assert(kept + seq![] =~= kept);
    while t < template.len()
        invariant
            t <= template@.len(),
            patterns == item_views(template@),
            patterns.len() == template@.len(),
            names == crate::t32rcl::eval::text_views(installed@),
            forall|j: int| 0 <= j < template@.len() ==> #[trigger] patterns[j] == template@[j]@,
            item_views(merged@) == kept + new_items(patterns.take(t as int), key@, names),
        decreases template@.len() - t,
    {
        assert(patterns.take(t as int + 1).drop_last() =~= patterns.take(t as int));
        assert(patterns[t as int] == template@[t as int]@);
        let known = match item_name(&template[t], key) {
            Some(name) => lists(&installed, &name),
            None => false,
        };
        if !known {
            push_item(&mut merged, copy(&template[t]));
        }
        t = t + 1;
        assert(item_views(merged@) =~= kept + new_items(patterns.take(t as int), key@, names));
    }
    assert(patterns.take(t as int) =~= patterns);
    merged
}

/// Which of the two files is meant.
#[derive(Debug, Clone, Copy, PartialEq, Eq, Structural)]
pub enum Kind {
    Tasks,
    Launch,
}

/// The name of the file of a kind, without its extension.
pub open spec fn kind_name(kind: Kind) -> Seq<char> {
    match kind {
        Kind::Tasks => "tasks"@,
        Kind::Launch => "launch"@,
    }
}

/// The member that holds the items of a file.
pub open spec fn kind_list(kind: Kind) -> Seq<char> {
    match kind {
        Kind::Tasks => "tasks"@,
        Kind::Launch => "configurations"@,
    }
}

/// The member that holds the name of an item.
pub open spec fn kind_key(kind: Kind) -> Seq<char> {
    match kind {
        Kind::Tasks => "label"@,
        Kind::Launch => "name"@,
    }
}

/// The version of a file that does not give one.
pub open spec fn kind_version(kind: Kind) -> Seq<char> {
    match kind {
        Kind::Tasks => "2.0.0"@,
        Kind::Launch => "0.2.0"@,
    }
}

/// The names of items that are no longer used.
pub open spec fn kind_legacy(kind: Kind) -> Seq<Seq<char>> {
    match kind {
        Kind::Tasks => seq![
            "T32: Flash"@,
            "T32: Load ELF"@,
            "T32: RTT Viewer"@,
            "T32: Start Debug Adapter"@,
            "T32: Flash + Debug"@,
            "T32: Load + Debug"@,
        ],
        Kind::Launch => seq!["1. Flash + Debug"@, "2. Load + Debug"@],
    }
}

fn legacy_names(kind: Kind) -> (names: Vec<String>)
    ensures
        crate::t32rcl::eval::text_views(names@) == kind_legacy(kind),
{
    let mut names: Vec<String> = Vec::new();
    match kind {
        Kind::Tasks => {
            names.push("T32: Flash".to_owned());
            names.push("T32: Load ELF".to_owned());
            names.push("T32: RTT Viewer".to_owned());
            names.push("T32: Start Debug Adapter".to_owned());
            names.push("T32: Flash + Debug".to_owned());
            names.push("T32: Load + Debug".to_owned());
        },
        Kind::Launch => {
            names.push("1. Flash + Debug".to_owned());
            names.push("2. Load + Debug".to_owned());
        },
    }
    assert(crate::t32rcl::eval::text_views(names@) =~= kind_legacy(kind));
    names
}

/// The items that a document of a kind lists.
pub open spec fn items_in(
    members: Seq<(Seq<char>, JsonView)>,
    kind: Kind,
) -> Option<Seq<JsonView>> {
    match member(members, kind_list(kind)) {
        Some(JsonView::Array(items)) => Some(items),
        _ => None,
    }
}

/// A document merged with a template of its kind: the items are merged, the
/// version is that of the template, and everything else stays.
pub open spec fn merged_document(kind: Kind, existing: JsonView, template: JsonView) -> Result<
    JsonView,
    Seq<char>,
> {
    match (existing, template) {
        (JsonView::Object(old_members), JsonView::Object(new_members)) => match (
            items_in(old_members, kind),
            items_in(new_members, kind),
        ) {
            (Some(old_items), Some(new_items)) => {
                let version = match member(new_members, "version"@) {
                    Some(value) => value,
                    None => JsonView::Text(kind_version(kind)),
                };
                let items = merged_items(old_items, new_items, kind_key(kind), kind_legacy(kind));
                Ok(
                    JsonView::Object(
                        with_member(
                            with_member(old_members, "version"@, version),
                            kind_list(kind),
                            JsonView::Array(items),
                        ),
                    ),
                )
            },
            _ => Err(
                kind_name(kind) + ".json must contain a "@ + kind_list(kind) + " array"@,
            ),
        },
        _ => Err(kind_name(kind) + ".json must contain a JSON object"@),
    }
}

/// Merges a document with a template of its kind.
pub fn merge_document(kind: Kind, existing: &Json, template: &Json) -> (result: Result<
    Json,
    BridgeError,
>)
    ensures
        value_outcome(result) == merged_document(kind, existing@, template@),
{
    let (name, list, key, version) = match kind {
        Kind::Tasks => ("tasks", "tasks", "label", "2.0.0"),
        Kind::Launch => ("launch", "configurations", "name", "0.2.0"),
    };
    match (existing, template) {
        (Json::Object(old_members), Json::Object(new_members)) => {
            match (get(old_members, list), get(new_members, list)) {
                (Some(Json::Array(old_items)), Some(Json::Array(new_items))) => {
                    let items = merge_named_items(old_items, new_items, key, &legacy_names(kind));
                    let mut merged: Message = match copy(existing) {
                        Json::Object(members) => members,
                        _ => Vec::new(),
                    };
                    let version = match get(new_members, "version") {
                        Some(value) => copy(value),
                        None => Json::Text(version.to_owned()),
                    };
                    insert(&mut merged, "version", version);
                    insert(&mut merged, list, Json::Array(items));
                    Ok(Json::Object(merged))
                },
                _ => Err(
                    BridgeError(concat4(name, ".json must contain a ", list, " array")),
                ),
            }
        },
        _ => Err(BridgeError(concat2(name, ".json must contain a JSON object"))),
    }
}

/// The tokens of the templates and what they stand for.
pub open spec fn tokens_for(config: ConfigView, exe: Seq<char>) -> Seq<(Seq<char>, JsonView)> {
    seq![
        ("__TRACEBRIDGE_EXE__"@, JsonView::Text(exe)),
        ("__TRACEBRIDGE_CONFIG__"@, JsonView::Text(config.config_file)),
        ("__T32_DAP_PORT__"@, JsonView::Number(decimal_text(config.dap_port as nat))),
        ("__T32_RCL_PORT__"@, JsonView::Number(decimal_text(config.rcl_port as nat))),
    ]
}

/// The tokens of the templates and what they stand for.
pub fn replacements(config: &Config, exe: &str) -> (tokens: Vec<(&'static str, Json)>)
    ensures
        token_views(tokens@) == tokens_for(config@, exe@),
{
    let mut tokens: Vec<(&'static str, Json)> = Vec::new();
    tokens.push(("__TRACEBRIDGE_EXE__", Json::Text(exe.to_owned())));
    tokens.push(("__TRACEBRIDGE_CONFIG__", Json::Text(config.config_file.clone())));
    tokens.push(("__T32_DAP_PORT__", Json::Number(decimal(config.dap_port as u128))));
    tokens.push(("__T32_RCL_PORT__", Json::Number(decimal(config.rcl_port as u128))));
    assert(token_views(tokens@) =~= tokens_for(config@, exe@));
    tokens
}

/// The document of a kind that lists nothing.
pub open spec fn empty_document(kind: Kind) -> JsonView {
    JsonView::Object(
        seq![
            ("version"@, JsonView::Text(kind_version(kind))),
            (kind_list(kind), JsonView::Array(seq![])),
        ],
    )
}

fn new_document(kind: Kind) -> (document: Json)
    ensures
        document@ == empty_document(kind),
{
    let (list, version) = match kind {
        Kind::Tasks => ("tasks", "2.0.0"),
        Kind::Launch => ("configurations", "0.2.0"),
    };
    let mut members: Message = Vec::new();
    members.push(("version".to_owned(), Json::Text(version.to_owned())));
    members.push((list.to_owned(), Json::Array(Vec::new())));
    proof {
        lemma_member_views(members@);
        assert(member_views(members@) =~= empty_document(kind)->Object_0);
    }
    Json::Object(members)
}

/// The text of a document: indented by four blanks, with a line end.
pub open spec fn pretty(document: JsonView) -> Result<Seq<char>, Seq<char>> {
    match json_pretty(document, "    "@) {
        Ok(text) => Ok(text.push('\n')),
        Err(message) => Err(message),
    }
}

/// Whether a text, as the content of a file, is read as a document.
pub open spec fn is_file_of(text: Seq<char>, document: JsonView) -> bool {
    forall|name: Seq<char>| #[trigger]
        loaded(without_mark(text), name) == Ok::<_, Seq<char>>(document)
}

/// Writes a document, indented by four blanks, with a line end. An error comes
/// only of a number that is none. What is written is read back as the document.
pub fn to_pretty_json(document: &Json) -> (result: Result<String, String>)
    ensures
        match result {
            Ok(text) => pretty(document@) == Ok::<_, Seq<char>>(text@),
            Err(message) => pretty(document@) == Err::<Seq<char>, _>(message@),
        },
        is_plain(document@) && nesting(document@) <= 127 ==> (result matches Ok(text) && is_file_of(
            text@,
            document@,
        )),
{
    proof {
        reveal_strlit("    ");
    }
    match write_pretty(document, "    ") {
        Ok(text) => {
            let ghost before = text@;
            let mut text = text;
            text.push('\n');
            proof {
                if is_plain(document@) && nesting(document@) <= 127 {
                    lemma_strict_line_end(before, 0, Place::Plain);
                    assert forall|name: Seq<char>| #[trigger]
                        loaded(without_mark(text@), name) == Ok::<_, Seq<char>>(document@) by {
                        strict_text_is_kept(text@, name);
                    }
                }
            }
            Ok(text)
        },
        Err(message) => Err(message),
    }
}

/// What a file is merged to: from what reading it gave, if it is there, and from
/// the template with its tokens replaced.
pub open spec fn merged_file(
    kind: Kind,
    name: Seq<char>,
    existing: Option<Result<Vec<u8>, String>>,
    template: Seq<char>,
    tokens: Seq<(Seq<char>, JsonView)>,
) -> Result<JsonView, Seq<char>> {
    let document = match existing {
        Some(content) => file_loaded(content, name),
        None => Ok(empty_document(kind)),
    };
    match document {
        Err(error) => Err(error),
        Ok(document) => match loaded(template, "template"@) {
            Err(error) => Err(error),
            Ok(pattern) => merged_document(kind, document, tokens_replaced(pattern, tokens)),
        },
    }
}

/// Merges one file with its template.
pub fn merge_file(
    kind: Kind,
    name: &str,
    existing: &Option<Result<Vec<u8>, String>>,
    template: &str,
    tokens: &Vec<(&'static str, Json)>,
) -> (result: Result<Json, BridgeError>)
    ensures
        value_outcome(result) == merged_file(
            kind,
            name@,
            *existing,
            template@,
            token_views(tokens@),
        ),
{
    let document = match existing {
        Some(content) => match load(content, name) {
            Ok(document) => document,
            Err(error) => {
                return Err(error);
            },
        },
        None => new_document(kind),
    };
    match loads(template, "template") {
        Ok(pattern) => merge_document(kind, &document, &replace_tokens(&pattern, tokens)),
        Err(error) => Err(error),
    }
}

/// The name of a backup of a file.
pub open spec fn backup_text(name: Seq<char>, timestamp: Seq<char>, suffix: u64) -> Seq<char> {
    name + ".bak."@ + timestamp + (if suffix == 0 {
        seq![]
    } else {
        "."@ + decimal_text(suffix as nat)
    })
}

/// The name of a backup of a file: the time, and a number where that name is
/// taken.
pub fn backup_name(name: &str, timestamp: &str, suffix: u64) -> (backup: String)
    ensures
        backup@ == backup_text(name@, timestamp@, suffix),
{
    let mut backup = concat3(name, ".bak.", timestamp);
    if suffix > 0 {
        let number = concat2(".", &decimal(suffix as u128));
        backup.append(&number);
    } else {
        assert(backup@ + seq![] =~= backup@);
    }
    backup
}

/// The name of the file that is written before it takes the place of another.
pub fn temporary_name(name: &str, process: u32) -> (temporary: String)
    ensures
        temporary@ == name@ + ".tmp."@ + decimal_text(process as nat),
{
    concat3(name, ".tmp.", &decimal(process as u128))
}

/// Whether the keys of members are distinct.
pub open spec fn is_distinct(members: Seq<(Seq<char>, JsonView)>) -> bool {
    forall|i: int, j: int|
        0 <= i < j < members.len() ==> (#[trigger] members[i]).0 != (#[trigger] members[j]).0
}

/// Whether items can serve as a template: each has a name of its own that is not
/// ignored, and distinct keys.
pub open spec fn is_template(
    template: Seq<JsonView>,
    key: Seq<char>,
    ignored: Seq<Seq<char>>,
) -> bool {
    &&& forall|i: int|
        0 <= i < template.len() ==> (name_of(#[trigger] template[i], key) matches Some(name)
            && !ignored.contains(name) && is_distinct(members_of(template[i])))
    &&& forall|i: int, j: int|
        0 <= i < j < template.len() ==> name_of(#[trigger] template[i], key) != name_of(
            #[trigger] template[j],
            key,
        )
}

proof fn lemma_distinct_member(members: Seq<(Seq<char>, JsonView)>, at: int)
    requires
        is_distinct(members),
        0 <= at < members.len(),
    ensures
        member(members, members[at].0) == Some(members[at].1),
    decreases members.len(),
{
    if at > 0 {
        let rest = members.skip(1);
        assert(members[0].0 != members[at].0);
        assert forall|i: int, j: int| 0 <= i < j < rest.len() implies (#[trigger] rest[i]).0
            != (#[trigger] rest[j]).0 by {
            assert(rest[i] == members[i + 1]);
            assert(rest[j] == members[j + 1]);
        }
        assert(rest[at - 1] == members[at]);
        lemma_distinct_member(rest, at - 1);
    }
}

proof fn lemma_member_at(members: Seq<(Seq<char>, JsonView)>, key: Seq<char>) -> (at: int)
    requires
        member(members, key) is Some,
    ensures
        0 <= at < members.len(),
        members[at].0 == key,
        Some(members[at].1) == member(members, key),
    decreases members.len(),
{
    if members[0].0 == key {
        0
    } else {
        let inner = lemma_member_at(members.skip(1), key);
        inner + 1
    }
}

proof fn lemma_members_set(
    members: Seq<(Seq<char>, JsonView)>,
    others: Seq<(Seq<char>, JsonView)>,
)
    requires
        is_distinct(others),
    ensures
        forall|i: int|
            0 <= i < others.len() ==> member(
                with_members(members, others),
                (#[trigger] others[i]).0,
            ) == Some(others[i].1),
    decreases others.len(),
{
    if others.len() > 0 {
        let rest = others.drop_last();
        let last = others.last();
        assert forall|i: int, j: int| 0 <= i < j < rest.len() implies (#[trigger] rest[i]).0
            != (#[trigger] rest[j]).0 by {
            assert(rest[i] == others[i]);
            assert(rest[j] == others[j]);
        }
        lemma_members_set(members, rest);
        assert forall|i: int| 0 <= i < others.len() implies member(
            with_members(members, others),
            (#[trigger] others[i]).0,
        ) == Some(others[i].1) by {
            lemma_member_set(with_members(members, rest), last.0, last.1, others[i].0);
            if i < rest.len() {
                assert(rest[i] == others[i]);
                assert(others[i].0 != others[others.len() - 1].0);
            }
        }
    }
}

proof fn lemma_members_set_again(
    members: Seq<(Seq<char>, JsonView)>,
    others: Seq<(Seq<char>, JsonView)>,
)
    requires
        forall|i: int|
            0 <= i < others.len() ==> member(members, (#[trigger] others[i]).0) == Some(
                others[i].1,
            ),
    ensures
        with_members(members, others) == members,
    decreases others.len(),
{
    if others.len() > 0 {
        let rest = others.drop_last();
        assert forall|i: int| 0 <= i < rest.len() implies member(members, (#[trigger] rest[i]).0)
            == Some(rest[i].1) by {
            assert(rest[i] == others[i]);
        }
        lemma_members_set_again(members, rest);
        assert(others[others.len() - 1] == others.last());
        lemma_member_set_again(members, others.last().0, others.last().1);
    }
}

proof fn lemma_combined(item: JsonView, pattern: JsonView, key: Seq<char>)
    requires
        is_distinct(members_of(pattern)),
        name_of(pattern, key) is Some,
    ensures
        combined(combined(item, pattern), pattern) == combined(item, pattern),
        combined(pattern, pattern) == pattern,
        name_of(combined(item, pattern), key) == name_of(pattern, key),
{
    let fields = members_of(pattern);
    let after = with_members(members_of(item), fields);
    lemma_members_set(members_of(item), fields);
    lemma_members_set_again(after, fields);
    assert forall|i: int| 0 <= i < fields.len() implies member(fields, (#[trigger] fields[i]).0)
        == Some(fields[i].1) by {
        lemma_distinct_member(fields, i);
    }
    lemma_members_set_again(fields, fields);
    let at = lemma_member_at(fields, key);
    assert(member(after, fields[at].0) == Some(fields[at].1));
}

proof fn lemma_named(items: Seq<JsonView>, key: Seq<char>, name: Seq<char>)
    ensures
        named(items, key, name) matches Some(item) ==> items.contains(item) && name_of(item, key)
            == Some(name),
    decreases items.len(),
{
    if items.len() > 0 {
        if name_of(items[0], key) != Some(name) {
            let rest = items.skip(1);
            lemma_named(rest, key, name);
            if let Some(item) = named(rest, key, name) {
                let i = choose|i: int| 0 <= i < rest.len() && rest[i] == item;
                assert(items[i + 1] == item);
            }
        } else {
            assert(items.contains(items[0]));
        }
    }
}

proof fn lemma_named_at(items: Seq<JsonView>, key: Seq<char>, at: int)
    requires
        0 <= at < items.len(),
        name_of(items[at], key) is Some,
        forall|i: int| 0 <= i < at ==> name_of(#[trigger] items[i], key) != name_of(items[at], key),
    ensures
        named(items, key, name_of(items[at], key)->Some_0) == Some(items[at]),
    decreases items.len(),
{
    if at > 0 {
        let rest = items.skip(1);
        assert(name_of(items[0], key) != name_of(items[at], key));
        assert(rest[at - 1] == items[at]);
        assert forall|i: int| 0 <= i < at - 1 implies name_of(#[trigger] rest[i], key) != name_of(
            rest[at - 1],
            key,
        ) by {
            assert(rest[i] == items[i + 1]);
        }
        lemma_named_at(rest, key, at - 1);
    }
}

/// The item that is found by a name is one of the items and has that name.
pub proof fn lemma_named_item(items: Seq<JsonView>, key: Seq<char>, name: Seq<char>)
    ensures
        named(items, key, name) matches Some(item) ==> items.contains(item) && name_of(item, key)
            == Some(name) && item is Object,
{
    lemma_named(items, key, name);
}

/// A template item is found by its name.
pub proof fn lemma_named_template(
    template: Seq<JsonView>,
    key: Seq<char>,
    ignored: Seq<Seq<char>>,
    at: int,
)
    requires
        is_template(template, key, ignored),
        0 <= at < template.len(),
    ensures
        named(template, key, name_of(template[at], key)->Some_0) == Some(template[at]),
        template[at] is Object,
        is_distinct(members_of(template[at])),
        !ignored.contains(name_of(template[at], key)->Some_0),
{
    assert(name_of(template[at], key) is Some);
    assert forall|i: int| 0 <= i < at implies name_of(#[trigger] template[i], key) != name_of(
        template[at],
        key,
    ) by {}
    lemma_named_at(template, key, at);
}

/// An item combined with a template item has the name of that.
pub proof fn lemma_combined_name(item: JsonView, pattern: JsonView, key: Seq<char>)
    requires
        is_distinct(members_of(pattern)),
        name_of(pattern, key) is Some,
    ensures
        name_of(combined(item, pattern), key) == name_of(pattern, key),
{
    lemma_combined(item, pattern, key);
}

proof fn lemma_kept_again(
    existing: Seq<JsonView>,
    template: Seq<JsonView>,
    key: Seq<char>,
    ignored: Seq<Seq<char>>,
)
    requires
        is_template(template, key, ignored),
    ensures
        ({
            let (kept, installed) = kept_items(existing, template, key, ignored);
            kept_items(kept, template, key, ignored) == (kept, installed)
        }),
    decreases existing.len(),
{
    if existing.len() > 0 {
        let rest = existing.drop_last();
        lemma_kept_again(rest, template, key, ignored);
        let (before, known) = kept_items(rest, template, key, ignored);
        let (kept, installed) = kept_items(existing, template, key, ignored);
        let item = existing.last();
        if kept != before {
            assert(kept.drop_last() =~= before);
        }
        match name_of(item, key) {
            None => {},
            Some(name) => {
                if !ignored.contains(name) {
                    match named(template, key, name) {
                        None => {},
                        Some(pattern) => {
                            if !known.contains(name) {
                                lemma_named(template, key, name);
                                let i = choose|i: int|
                                    0 <= i < template.len() && template[i] == pattern;
                                assert(name_of(template[i], key) is Some);
                                lemma_combined(item, pattern, key);
                                assert(kept.drop_last() =~= before);
                                assert(kept.last() == combined(item, pattern));
                                assert(kept.len() > 0);
                            }
                        },
                    }
                }
            },
        }
    }
}

/// The names of items.
pub open spec fn names_of(items: Seq<JsonView>, key: Seq<char>) -> Seq<Seq<char>> {
    items.map_values(|item: JsonView| name_of(item, key)->Some_0)
}

proof fn lemma_new_again(
    kept: Seq<JsonView>,
    installed: Seq<Seq<char>>,
    template: Seq<JsonView>,
    count: int,
    key: Seq<char>,
    ignored: Seq<Seq<char>>,
)
    requires
        is_template(template, key, ignored),
        0 <= count <= template.len(),
        kept_items(kept, template, key, ignored) == (kept, installed),
    ensures
        ({
            let fresh = new_items(template.take(count), key, installed);
            &&& kept_items(kept + fresh, template, key, ignored) == (
                kept + fresh,
                installed + names_of(fresh, key),
            )
            &&& forall|k: int|
                0 <= k < fresh.len() ==> exists|i: int|
                    0 <= i < count && #[trigger] template[i] == #[trigger] fresh[k]
            &&& forall|i: int|
                0 <= i < count ==> (installed + names_of(fresh, key)).contains(
                    name_of(#[trigger] template[i], key)->Some_0,
                )
        }),
    decreases count,
{
    let fresh = new_items(template.take(count), key, installed);
    if count == 0 {
        assert(template.take(0) =~= seq![]);
        assert(kept + fresh =~= kept);
        assert(installed + names_of(fresh, key) =~= installed);
    } else {
        lemma_new_again(kept, installed, template, count - 1, key, ignored);
        let before = new_items(template.take(count - 1), key, installed);
        assert(template.take(count).drop_last() =~= template.take(count - 1));
        let item = template[count - 1];
        assert(template.take(count).last() == item);
        let name = name_of(item, key)->Some_0;
        assert(name_of(template[count - 1], key) is Some);
        let known = installed + names_of(before, key);
        if installed.contains(name) {
            assert(fresh == before);
            let i = choose|i: int| 0 <= i < installed.len() && installed[i] == name;
            assert(known[i] == name);
        } else {
            assert(fresh == before.push(item));
            assert(names_of(fresh, key) =~= names_of(before, key).push(name));
            let all = kept + fresh;
            assert(all.drop_last() =~= kept + before);
            assert(all.last() == item);
            assert forall|i: int| 0 <= i < count - 1 implies name_of(#[trigger] template[i], key)
                != name_of(template[count - 1], key) by {}
            lemma_named_at(template, key, count - 1);
            lemma_combined(item, item, key);
            assert(!known.contains(name)) by {
                if known.contains(name) {
                    let i = choose|i: int| 0 <= i < known.len() && known[i] == name;
                    if i < installed.len() {
                        assert(installed[i] == name);
                    } else {
                        let k = i - installed.len();
                        assert(names_of(before, key)[k] == name);
                        let j = choose|j: int|
                            0 <= j < count - 1 && #[trigger] template[j] == before[k];
                        assert(name_of(template[j], key) is Some);
                        assert(name_of(template[j], key) == name_of(template[count - 1], key));
                    }
                }
            }
            assert(known.push(name) =~= installed + names_of(fresh, key));
            assert(kept_items(all, template, key, ignored) == (
                (kept + before).push(combined(item, item)),
                known.push(name),
            ));
            assert((kept + before).push(item) =~= all);
            assert forall|k: int| 0 <= k < fresh.len() implies exists|i: int|
                0 <= i < count && #[trigger] template[i] == #[trigger] fresh[k] by {
                if k < before.len() {
                    assert(fresh[k] == before[k]);
                    let j = choose|j: int|
                        0 <= j < count - 1 && #[trigger] template[j] == before[k];
                    assert(template[j] == fresh[k]);
                } else {
                    assert(template[count - 1] == fresh[k]);
                }
            }
            let now = installed + names_of(fresh, key);
            assert forall|i: int| 0 <= i < count implies now.contains(
                name_of(#[trigger] template[i], key)->Some_0,
            ) by {
                if i < count - 1 {
                    let wanted = name_of(template[i], key)->Some_0;
                    assert(known.contains(wanted));
                    let j = choose|j: int| 0 <= j < known.len() && known[j] == wanted;
                    assert(now[j] == wanted);
                } else {
                    assert(now.last() == name);
                    assert(now[now.len() - 1] == name);
                }
            }
        }
    }
}

proof fn lemma_nothing_new(
    template: Seq<JsonView>,
    count: int,
    key: Seq<char>,
    installed: Seq<Seq<char>>,
)
    requires
        0 <= count <= template.len(),
        forall|i: int|
            0 <= i < template.len() ==> name_of(#[trigger] template[i], key) is Some
                && installed.contains(name_of(template[i], key)->Some_0),
    ensures
        new_items(template.take(count), key, installed) == Seq::<JsonView>::empty(),
    decreases count,
{
    if count > 0 {
        lemma_nothing_new(template, count - 1, key, installed);
        assert(template.take(count).drop_last() =~= template.take(count - 1));
        assert(template.take(count).last() == template[count - 1]);
    } else {
        assert(template.take(0) =~= seq![]);
    }
}

/// Merging again is stable: items that were merged with a template stay as they
/// are when they are merged with it once more.
pub proof fn merging_again_changes_nothing(
    existing: Seq<JsonView>,
    template: Seq<JsonView>,
    key: Seq<char>,
    ignored: Seq<Seq<char>>,
)
    requires
        is_template(template, key, ignored),
    ensures
        ({
            let merged = merged_items(existing, template, key, ignored);
            merged_items(merged, template, key, ignored) == merged
        }),
{
    let (kept, installed) = kept_items(existing, template, key, ignored);
    lemma_kept_again(existing, template, key, ignored);
    lemma_new_again(kept, installed, template, template.len() as int, key, ignored);
    assert(template.take(template.len() as int) =~= template);
    let fresh = new_items(template, key, installed);
    let all = installed + names_of(fresh, key);
    assert forall|i: int| 0 <= i < template.len() implies name_of(#[trigger] template[i], key) is Some
        && all.contains(name_of(template[i], key)->Some_0) by {}
    lemma_nothing_new(template, template.len() as int, key, all);
    assert((kept + fresh) + Seq::<JsonView>::empty() =~= kept + fresh);
}

/// Installing again is stable: a document that was merged with a template stays
/// as it is when it is merged with it once more.
pub proof fn installing_again_changes_nothing(
    kind: Kind,
    existing: JsonView,
    template: JsonView,
    items: Seq<JsonView>,
)
    requires
        items_in(members_of(template), kind) == Some(items),
        is_template(items, kind_key(kind), kind_legacy(kind)),
    ensures
        merged_document(kind, existing, template) matches Ok(merged) ==> merged_document(
            kind,
            merged,
            template,
        ) == Ok::<_, Seq<char>>(merged),
{
    if let Ok(merged) = merged_document(kind, existing, template) {
        let old_members = members_of(existing);
        let old_items = items_in(old_members, kind)->Some_0;
        let version = match member(members_of(template), "version"@) {
            Some(value) => value,
            None => JsonView::Text(kind_version(kind)),
        };
        let list = kind_list(kind);
        let result = merged_items(old_items, items, kind_key(kind), kind_legacy(kind));
        let one = with_member(old_members, "version"@, version);
        let two = with_member(one, list, JsonView::Array(result));
        assert(merged == JsonView::Object(two));
        merging_again_changes_nothing(old_items, items, kind_key(kind), kind_legacy(kind));
        reveal_strlit("version");
        reveal_strlit("tasks");
        reveal_strlit("configurations");
        assert("version"@.len() != list.len());
        lemma_member_set(one, list, JsonView::Array(result), list);
        lemma_member_set(one, list, JsonView::Array(result), "version"@);
        lemma_member_set(old_members, "version"@, version, "version"@);
        lemma_member_set_again(two, "version"@, version);
        lemma_member_set_again(two, list, JsonView::Array(result));
    }
}

/// Running the installation again is stable: a file that holds what was merged is
/// merged to the same document. What `to_pretty_json` writes is such a file.
pub proof fn running_again_changes_nothing(
    kind: Kind,
    name: Seq<char>,
    existing: Option<Result<Vec<u8>, String>>,
    template: Seq<char>,
    tokens: Seq<(Seq<char>, JsonView)>,
    items: Seq<JsonView>,
    merged: JsonView,
    text: Seq<char>,
    content: Vec<u8>,
)
    requires
        merged_file(kind, name, existing, template, tokens) == Ok::<_, Seq<char>>(merged),
        loaded(template, "template"@) matches Ok(pattern) && items_in(
            members_of(tokens_replaced(pattern, tokens)),
            kind,
        ) == Some(items),
        is_template(items, kind_key(kind), kind_legacy(kind)),
        is_file_of(text, merged),
        content@ == encode_utf8(text),
    ensures
        merged_file(kind, name, Some(Ok(content)), template, tokens) == Ok::<_, Seq<char>>(merged),
{
    let pattern = loaded(template, "template"@)->Ok_0;
    let before = match existing {
        Some(content) => file_loaded(content, name),
        None => Ok(empty_document(kind)),
    };
    installing_again_changes_nothing(
        kind,
        before->Ok_0,
        tokens_replaced(pattern, tokens),
        items,
    );
    encode_utf8_valid_utf8(text);
    encode_utf8_decode_utf8(text);
    assert(loaded(without_mark(text), name) == Ok::<_, Seq<char>>(merged));
}

/// Whether an item has nothing to do with a template: it has no name, or one that
/// is neither ignored nor that of a template item.
pub open spec fn is_unrelated(
    item: JsonView,
    template: Seq<JsonView>,
    key: Seq<char>,
    ignored: Seq<Seq<char>>,
) -> bool {
    match name_of(item, key) {
        Some(name) => !ignored.contains(name) && named(template, key, name) is None,
        None => true,
    }
}

/// The items that have nothing to do with a template, in order.
pub open spec fn unrelated_items(
    items: Seq<JsonView>,
    template: Seq<JsonView>,
    key: Seq<char>,
    ignored: Seq<Seq<char>>,
) -> Seq<JsonView>
    decreases items.len(),
{
    if items.len() == 0 {
        seq![]
    } else {
        let before = unrelated_items(items.drop_last(), template, key, ignored);
        if is_unrelated(items.last(), template, key, ignored) {
            before.push(items.last())
        } else {
            before
        }
    }
}

proof fn lemma_unrelated_kept(
    existing: Seq<JsonView>,
    template: Seq<JsonView>,
    key: Seq<char>,
    ignored: Seq<Seq<char>>,
)
    requires
        is_template(template, key, ignored),
    ensures
        unrelated_items(kept_items(existing, template, key, ignored).0, template, key, ignored)
            == unrelated_items(existing, template, key, ignored),
    decreases existing.len(),
{
    if existing.len() > 0 {
        let rest = existing.drop_last();
        lemma_unrelated_kept(rest, template, key, ignored);
        let before = kept_items(rest, template, key, ignored).0;
        let kept = kept_items(existing, template, key, ignored).0;
        let item = existing.last();
        if kept != before {
            assert(kept.drop_last() =~= before);
        }
        if let Some(name) = name_of(item, key) {
            if let Some(pattern) = named(template, key, name) {
                lemma_named(template, key, name);
                let i = choose|i: int| 0 <= i < template.len() && template[i] == pattern;
                assert(name_of(template[i], key) is Some);
                lemma_combined(item, pattern, key);
            }
        }
    }
}

proof fn lemma_new_related(
    kept: Seq<JsonView>,
    template: Seq<JsonView>,
    count: int,
    key: Seq<char>,
    ignored: Seq<Seq<char>>,
    installed: Seq<Seq<char>>,
)
    requires
        is_template(template, key, ignored),
        0 <= count <= template.len(),
    ensures
        unrelated_items(
            kept + new_items(template.take(count), key, installed),
            template,
            key,
            ignored,
        ) == unrelated_items(kept, template, key, ignored),
    decreases count,
{
    let fresh = new_items(template.take(count), key, installed);
    if count == 0 {
        assert(kept + fresh =~= kept);
    } else {
        lemma_new_related(kept, template, count - 1, key, ignored, installed);
        assert(template.take(count).drop_last() =~= template.take(count - 1));
        let item = template[count - 1];
        assert(template.take(count).last() == item);
        let before = new_items(template.take(count - 1), key, installed);
        assert(name_of(item, key) is Some);
        assert forall|i: int| 0 <= i < count - 1 implies name_of(#[trigger] template[i], key)
            != name_of(template[count - 1], key) by {}
        lemma_named_at(template, key, count - 1);
        if fresh != before {
            assert((kept + fresh).drop_last() =~= kept + before);
        }
    }
}

/// Existing items that have nothing to do with the template are kept as they are
/// and in their order, and no others are added.
pub proof fn unrelated_items_are_kept(
    existing: Seq<JsonView>,
    template: Seq<JsonView>,
    key: Seq<char>,
    ignored: Seq<Seq<char>>,
)
    requires
        is_template(template, key, ignored),
    ensures
        unrelated_items(
            merged_items(existing, template, key, ignored),
            template,
            key,
            ignored,
        ) == unrelated_items(existing, template, key, ignored),
{
    let (kept, installed) = kept_items(existing, template, key, ignored);
    lemma_unrelated_kept(existing, template, key, ignored);
    lemma_new_related(kept, template, template.len() as int, key, ignored, installed);
    assert(template.take(template.len() as int) =~= template);
}

/// Merging a document changes nothing in it but its version and its items.
pub proof fn other_members_are_kept(
    kind: Kind,
    existing: JsonView,
    template: JsonView,
    key: Seq<char>,
)
    requires
        key != "version"@,
        key != kind_list(kind),
    ensures
        merged_document(kind, existing, template) matches Ok(merged) ==> field(merged, key)
            == field(existing, key),
{
    if let Ok(JsonView::Object(merged)) = merged_document(kind, existing, template) {
        let members = members_of(existing);
        let version = match member(members_of(template), "version"@) {
            Some(value) => value,
            None => JsonView::Text(kind_version(kind)),
        };
        let one = with_member(members, "version"@, version);
        lemma_member_set(members, "version"@, version, key);
        lemma_member_set(one, kind_list(kind), member(merged, kind_list(kind))->Some_0, key);
        let items = merged_items(
            items_in(members, kind)->Some_0,
            items_in(members_of(template), kind)->Some_0,
            kind_key(kind),
            kind_legacy(kind),
        );
        lemma_member_set(one, kind_list(kind), JsonView::Array(items), key);
    }
}

/// A text spelled character by character.
pub open spec fn spelled(s: Seq<char>, spelling: spec_fn(char) -> Seq<char>) -> Seq<char>
    decreases s.len(),
{
    if s.len() == 0 {
        seq![]
    } else {
        spelled(s.drop_last(), spelling) + spelling(s.last())
    }
}

/// How a character is spelled in a JSON string: a backslash is doubled.
pub open spec fn json_spelling() -> spec_fn(char) -> Seq<char> {
    |c: char|
        if c == '\\' {
            seq!['\\', '\\']
        } else {
            seq![c]
        }
}

/// How a character is spelled in a regular expression: brackets and dots have a
/// backslash before them.
pub open spec fn regex_spelling() -> spec_fn(char) -> Seq<char> {
    |c: char|
        if c == '[' || c == ']' || c == '.' {
            seq!['\\', c]
        } else {
            seq![c]
        }
}

proof fn lemma_spelled_join(a: Seq<char>, b: Seq<char>, spelling: spec_fn(char) -> Seq<char>)
    ensures
        spelled(a + b, spelling) == spelled(a, spelling) + spelled(b, spelling),
    decreases b.len(),
{
    if b.len() == 0 {
        assert(a + b =~= a);
        assert(spelled(a, spelling) + spelled(b, spelling) =~= spelled(a, spelling));
    } else {
        assert((a + b).drop_last() =~= a + b.drop_last());
        lemma_spelled_join(a, b.drop_last(), spelling);
        assert(spelled(a + b, spelling) =~= spelled(a, spelling) + spelled(b, spelling));
    }
}

proof fn lemma_spelled_plain(s: Seq<char>, spelling: spec_fn(char) -> Seq<char>)
    requires
        forall|i: int| 0 <= i < s.len() ==> spelling(#[trigger] s[i]) == seq![s[i]],
    ensures
        spelled(s, spelling) == s,
    decreases s.len(),
{
    if s.len() > 0 {
        let rest = s.drop_last();
        assert forall|i: int| 0 <= i < rest.len() implies spelling(#[trigger] rest[i]) == seq![
            rest[i],
        ] by {
            assert(rest[i] == s[i]);
        }
        lemma_spelled_plain(rest, spelling);
        assert(spelling(s[s.len() - 1]) == seq![s.last()]);
        assert(rest + seq![s.last()] =~= s);
    }
}

proof fn lemma_spelled_one(c: char, spelling: spec_fn(char) -> Seq<char>)
    ensures
        spelled(seq![c], spelling) == spelling(c),
{
    assert(seq![c].drop_last() =~= seq![]);
    assert(spelled(seq![], spelling) =~= seq![]);
    assert(seq![] + spelling(c) =~= spelling(c));
}

/// The fixed text of the line that VS Code waits for.
pub open spec fn ready_text() -> Seq<char> {
    "[tracebridge] adapter listening on 127.0.0.1:"@
}

/// A character, spelled, before and behind plain texts.
proof fn lemma_spelled_between(
    head: Seq<char>,
    c: char,
    tail: Seq<char>,
    spelling: spec_fn(char) -> Seq<char>,
)
    requires
        forall|i: int| 0 <= i < tail.len() ==> spelling(#[trigger] tail[i]) == seq![tail[i]],
    ensures
        spelled(head.push(c) + tail, spelling) == spelled(head, spelling) + spelling(c) + tail,
{
    lemma_spelled_join(head.push(c), tail, spelling);
    lemma_spelled_plain(tail, spelling);
    assert(head.push(c) =~= head + seq![c]);
    lemma_spelled_join(head, seq![c], spelling);
    lemma_spelled_one(c, spelling);
}

#[verifier::rlimit(40)]
proof fn lemma_ends_member()
    ensures
        occurs_at(TASKS_TEMPLATE@, "\"endsPattern\": \"^\\\\[tracebridge\\\\] adapter listening on 127\\\\.0\\\\.0\\\\.1:__T32_DAP_PORT__.*$\""@, 764),
{
    reveal_strlit("{
    \"version\": \"2.0.0\",
    \"tasks\": [
        {
            // Started by the TRACE32: Attach debug configuration.
            \"label\": \"tracebridge: adapter\",
            \"type\": \"process\",
            \"command\": \"__TRACEBRIDGE_EXE__\",
            \"args\": [\"--config\", \"__TRACEBRIDGE_CONFIG__\", \"adapter\"],
            \"isBackground\": true,
            \"hide\": true,
            \"presentation\": {\"reveal\": \"silent\", \"panel\": \"dedicated\"},
            \"problemMatcher\": [
                {
                    \"pattern\": [{\"regexp\": \"^$\", \"file\": 1, \"location\": 2, \"message\": 3}],
                    \"background\": {
                        \"activeOnStart\": true,
                        \"beginsPattern\": \"starting debug adapter proxy\",
                        \"endsPattern\": \"^\\\\[tracebridge\\\\] adapter listening on 127\\\\.0\\\\.0\\\\.1:__T32_DAP_PORT__.*$\"
                    }
                }
            ]
        }
    ]
}
");
    reveal_strlit("\"endsPattern\": \"^\\\\[tracebridge\\\\] adapter listening on 127\\\\.0\\\\.0\\\\.1:__T32_DAP_PORT__.*$\"");
    let part = "\"endsPattern\": \"^\\\\[tracebridge\\\\] adapter listening on 127\\\\.0\\\\.0\\\\.1:__T32_DAP_PORT__.*$\""@;
    assert(TASKS_TEMPLATE@.subrange(764, 856) =~= part);
}

proof fn lemma_regex_of_ready_text()
    ensures
        ENDS_PATTERN@ == "^"@ + spelled(ready_text(), regex_spelling()) + "__T32_DAP_PORT__"@
            + ".*$"@,
{
    let f = regex_spelling();
    reveal_strlit("^\\[tracebridge\\] adapter listening on 127\\.0\\.0\\.1:__T32_DAP_PORT__.*$");
    reveal_strlit("[tracebridge] adapter listening on 127.0.0.1:");
    reveal_strlit("^");
    reveal_strlit("__T32_DAP_PORT__");
    reveal_strlit(".*$");
    reveal_strlit("tracebridge");
    reveal_strlit(" adapter listening on 127");
    reveal_strlit("0");
    reveal_strlit("1:");
    let none = Seq::<char>::empty();
    let one = none.push('[') + "tracebridge"@;
    let two = one.push(']') + " adapter listening on 127"@;
    let three = two.push('.') + "0"@;
    let four = three.push('.') + "0"@;
    let five = four.push('.') + "1:"@;
    lemma_spelled_between(none, '[', "tracebridge"@, f);
    lemma_spelled_between(one, ']', " adapter listening on 127"@, f);
    lemma_spelled_between(two, '.', "0"@, f);
    lemma_spelled_between(three, '.', "0"@, f);
    lemma_spelled_between(four, '.', "1:"@, f);
    assert(spelled(none, f) =~= none);
    assert(ready_text() =~= five);
    assert(ENDS_PATTERN@ =~= "^"@ + spelled(five, f) + "__T32_DAP_PORT__"@ + ".*$"@);
}

proof fn lemma_json_of_pattern()
    ensures
        "\"endsPattern\": \"^\\\\[tracebridge\\\\] adapter listening on 127\\\\.0\\\\.0\\\\.1:__T32_DAP_PORT__.*$\""@
            == "\"endsPattern\": \""@ + spelled(ENDS_PATTERN@, json_spelling()) + "\""@,
{
    let f = json_spelling();
    reveal_strlit("^\\[tracebridge\\] adapter listening on 127\\.0\\.0\\.1:__T32_DAP_PORT__.*$");
    reveal_strlit("\"endsPattern\": \"^\\\\[tracebridge\\\\] adapter listening on 127\\\\.0\\\\.0\\\\.1:__T32_DAP_PORT__.*$\"");
    reveal_strlit("\"endsPattern\": \"");
    reveal_strlit("\"");
    reveal_strlit("^");
    reveal_strlit("[tracebridge");
    reveal_strlit("] adapter listening on 127");
    reveal_strlit(".0");
    reveal_strlit(".1:__T32_DAP_PORT__.*$");
    let zero = "^"@;
    let one = zero.push('\\') + "[tracebridge"@;
    let two = one.push('\\') + "] adapter listening on 127"@;
    let three = two.push('\\') + ".0"@;
    let four = three.push('\\') + ".0"@;
    let five = four.push('\\') + ".1:__T32_DAP_PORT__.*$"@;
    lemma_spelled_plain(zero, f);
    lemma_spelled_between(zero, '\\', "[tracebridge"@, f);
    lemma_spelled_between(one, '\\', "] adapter listening on 127"@, f);
    lemma_spelled_between(two, '\\', ".0"@, f);
    lemma_spelled_between(three, '\\', ".0"@, f);
    lemma_spelled_between(four, '\\', ".1:__T32_DAP_PORT__.*$"@, f);
    assert(ENDS_PATTERN@ =~= five);
    assert("\"endsPattern\": \"^\\\\[tracebridge\\\\] adapter listening on 127\\\\.0\\\\.0\\\\.1:__T32_DAP_PORT__.*$\""@
        =~= "\"endsPattern\": \""@ + spelled(five, f) + "\""@);
}

proof fn lemma_pattern_lacks(token: Seq<char>, with: Seq<char>)
    requires
        token == "__TRACEBRIDGE_EXE__"@ || token == "__TRACEBRIDGE_CONFIG__"@,
    ensures
        replaced(ENDS_PATTERN@, token, with) == ENDS_PATTERN@,
{
    reveal_strlit("^\\[tracebridge\\] adapter listening on 127\\.0\\.0\\.1:__T32_DAP_PORT__.*$");
    reveal_strlit("__TRACEBRIDGE_EXE__");
    reveal_strlit("__TRACEBRIDGE_CONFIG__");
    let s = ENDS_PATTERN@;
    assert forall|i: int| 0 <= i < s.len() implies !occurs_at(s, token, i) by {
        if occurs_at(s, token, i) {
            let part = s.subrange(i, i + token.len());
            assert(part[0] == s[i] && part[1] == s[i + 1]);
            assert(part[2] == s[i + 2] && part[3] == s[i + 3]);
        }
    }
    lemma_replace_absent(s, token, with, 0);
    assert(s.skip(0) =~= s);
}

/// The line with which the proxy says that it is ready is the one that the task
/// waits for. The template holds the pattern, a regular expression; with its tokens
/// replaced, it asks for the fixed text and the port of the proxy at the beginning
/// of a line, and the line has them there.
#[verifier::rlimit(40)]
pub proof fn ready_line_fits_task(config: ConfigView, exe: Seq<char>)
    ensures
        has_text(
            TASKS_TEMPLATE@,
            "\"endsPattern\": \""@ + spelled(ENDS_PATTERN@, json_spelling()) + "\""@,
        ),
        tokens_replaced(JsonView::Text(ENDS_PATTERN@), tokens_for(config, exe)) == JsonView::Text(
            "^"@ + spelled(ready_text(), regex_spelling()) + decimal_text(config.dap_port as nat)
                + ".*$"@,
        ),
        (ready_text() + decimal_text(config.dap_port as nat)).is_prefix_of(
            ready_line(config.dap_port, config.dap_backend_port),
        ),
{
    lemma_ends_member();
    lemma_json_of_pattern();
    lemma_regex_of_ready_text();
    let tokens = tokens_for(config, exe);
    let port = decimal_text(config.dap_port as nat);
    let head = "^"@ + spelled(ready_text(), regex_spelling());
    let after = head + port + ".*$"@;
    reveal_strlit("^\\[tracebridge\\] adapter listening on 127\\.0\\.0\\.1:__T32_DAP_PORT__.*$");
    reveal_strlit("__TRACEBRIDGE_EXE__");
    reveal_strlit("__TRACEBRIDGE_CONFIG__");
    reveal_strlit("__T32_DAP_PORT__");
    reveal_strlit("__T32_RCL_PORT__");
    reveal_strlit(".*$");
    lemma_pattern_lacks(tokens[0].0, token_text(tokens[0].1));
    lemma_pattern_lacks(tokens[1].0, token_text(tokens[1].1));
    assert forall|i: int| 0 <= i < head.len() implies #[trigger] head[i] != '_' by {
        assert(head[i] == ENDS_PATTERN@[i]);
    }
    lemma_replace_once(head, tokens[2].0, ".*$"@, port, 0);
    assert(head.skip(0) =~= head);
    decimal_round_trip(config.dap_port as nat);
    assert forall|i: int| 0 <= i < after.len() implies !occurs_at(after, tokens[3].0, i) by {
        if occurs_at(after, tokens[3].0, i) {
            assert(after.subrange(i, i + tokens[3].0.len())[0] == after[i]);
            if head.len() <= i < head.len() + port.len() {
                assert(after[i] == port[i - head.len()]);
            } else if i < head.len() {
                assert(after[i] == head[i]);
            }
        }
    }
    lemma_replace_absent(after, tokens[3].0, token_text(tokens[3].1), 0);
    assert(after.skip(0) =~= after);
    assert(tokens.drop_last().drop_last().drop_last().drop_last() =~= seq![]);
    assert(tokens.drop_last().drop_last().drop_last().last() == tokens[0]);
    assert(tokens.drop_last().drop_last().last() == tokens[1]);
    assert(tokens.drop_last().last() == tokens[2]);
    assert(tokens_in_text(ENDS_PATTERN@, tokens) == after) by {
        reveal_with_fuel(tokens_in_text, 5);
    }
    assert(member(tokens, ENDS_PATTERN@) is None) by {
        reveal_with_fuel(member, 5);
        assert(tokens.skip(1)[0] == tokens[1]);
        assert(tokens.skip(1).skip(1)[0] == tokens[2]);
        assert(tokens.skip(1).skip(1).skip(1)[0] == tokens[3]);
        assert(tokens.skip(1).skip(1).skip(1).skip(1) =~= seq![]);
    }
    reveal_strlit("[tracebridge] adapter listening on 127.0.0.1:");
    reveal_strlit("[tracebridge] ");
    reveal_strlit("adapter listening on 127.0.0.1:");
    let line = ready_line(config.dap_port, config.dap_backend_port);
    let prefix = ready_text() + port;
    assert(LOG_PREFIX@ + "adapter listening on 127.0.0.1:"@ =~= ready_text());
    assert(line.subrange(0, prefix.len() as int) =~= prefix);
}

}
