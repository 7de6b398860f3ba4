//! JSON values. Numbers keep their text and objects the order of their members.

use serde_json::Value as Node;
use vstd::prelude::*;
use vstd::utf8::*;

use crate::text::{chars_of, copy_range, digits_value, is_digits, parse_digits, same};
use crate::vscode::jsonc::{is_strict, Place};

verus! {

/// A JSON value.
#[derive(Debug, PartialEq, Eq)]
pub enum Json {
    Null,
    Bool(bool),
    /// A number as it is written.
    Number(String),
    Text(String),
    Array(Vec<Json>),
    Object(Vec<(String, Json)>),
}

/// The content of a [`Json`].
pub ghost enum JsonView {
    Null,
    Bool(bool),
    Number(Seq<char>),
    Text(Seq<char>),
    Array(Seq<JsonView>),
    Object(Seq<(Seq<char>, JsonView)>),
}

/// The content of a value.
pub open spec fn json_view(value: Json) -> JsonView
    decreases value,
{
    match value {
        Json::Null => JsonView::Null,
        Json::Bool(flag) => JsonView::Bool(flag),
        Json::Number(text) => JsonView::Number(text@),
        Json::Text(text) => JsonView::Text(text@),
        Json::Array(items) => JsonView::Array(item_views(items@)),
        Json::Object(members) => JsonView::Object(member_views(members@)),
    }
}

/// The contents of the items of an array.
pub open spec fn item_views(items: Seq<Json>) -> Seq<JsonView>
    decreases items,
{
    if items.len() == 0 {
        seq![]
    } else {
        item_views(items.drop_last()).push(json_view(items.last()))
    }
}

/// The contents of the members of an object.
pub open spec fn member_views(members: Seq<(String, Json)>) -> Seq<(Seq<char>, JsonView)>
    decreases members,
{
    if members.len() == 0 {
        seq![]
    } else {
        member_views(members.drop_last()).push(
            (members.last().0@, json_view(members.last().1)),
        )
    }
}

impl View for Json {
    type V = JsonView;

    open spec fn view(&self) -> JsonView {
        json_view(*self)
    }
}

/// The members of a JSON object, in order.
pub type Message = Vec<(String, Json)>;

/// There is one content for each item, in order.
pub proof fn lemma_item_views(items: Seq<Json>)
    ensures
        item_views(items).len() == items.len(),
        forall|i: int| 0 <= i < items.len() ==> #[trigger] item_views(items)[i] == items[i]@,
    decreases items.len(),
{
    if items.len() > 0 {
        lemma_item_views(items.drop_last());
        assert forall|i: int| 0 <= i < items.len() implies #[trigger] item_views(items)[i]
            == items[i]@ by {
            if i < items.len() - 1 {
                assert(items.drop_last()[i] == items[i]);
                assert(item_views(items)[i] == item_views(items.drop_last())[i]);
            }
        }
    }
}

/// There is one content for each member, in order.
pub proof fn lemma_member_views(members: Seq<(String, Json)>)
    ensures
        member_views(members).len() == members.len(),
        forall|i: int|
            0 <= i < members.len() ==> #[trigger] member_views(members)[i] == (
                members[i].0@,
                members[i].1@,
            ),
    decreases members.len(),
{
    if members.len() > 0 {
        lemma_member_views(members.drop_last());
        assert forall|i: int| 0 <= i < members.len() implies #[trigger] member_views(members)[i]
            == (members[i].0@, members[i].1@) by {
            if i < members.len() - 1 {
                assert(members.drop_last()[i] == members[i]);
                assert(member_views(members)[i] == member_views(members.drop_last())[i]);
            }
        }
    }
}

/// The value of the first member with a key.
pub open spec fn member(members: Seq<(Seq<char>, JsonView)>, key: Seq<char>) -> Option<JsonView>
    decreases members.len(),
{
    if members.len() == 0 {
        None
    } else if members[0].0 == key {
        Some(members[0].1)
    } else {
        member(members.skip(1), key)
    }
}

/// The members with one of them set: in its place if the key is there, else at
/// the end.
pub open spec fn with_member(
    members: Seq<(Seq<char>, JsonView)>,
    key: Seq<char>,
    value: JsonView,
) -> Seq<(Seq<char>, JsonView)>
    decreases members.len(),
{
    if members.len() == 0 {
        seq![(key, value)]
    } else if members[0].0 == key {
        seq![(key, value)] + members.skip(1)
    } else {
        seq![members[0]] + with_member(members.skip(1), key, value)
    }
}

/// The value of a member of a value, if that is an object.
pub open spec fn field(value: JsonView, key: Seq<char>) -> Option<JsonView> {
    match value {
        JsonView::Object(members) => member(members, key),
        _ => None,
    }
}

/// The text that an optional value is.
pub open spec fn string_in(value: Option<JsonView>) -> Option<Seq<char>> {
    match value {
        Some(JsonView::Text(text)) => Some(text),
        _ => None,
    }
}

/// The 64-bit integer that the text of a number denotes.
pub open spec fn i64_of(text: Seq<char>) -> Option<i64> {
    let signed = text.len() > 0 && (text[0] == '-' || text[0] == '+');
    let digits = if signed {
        text.skip(1)
    } else {
        text
    };
    if !is_digits(digits, 10) {
        None
    } else if signed && text[0] == '-' {
        if digits_value(digits, 10) <= 0x8000_0000_0000_0000 {
            Some((-digits_value(digits, 10)) as i64)
        } else {
            None
        }
    } else if digits_value(digits, 10) <= 0x7FFF_FFFF_FFFF_FFFF {
        Some(digits_value(digits, 10) as i64)
    } else {
        None
    }
}

/// The 64-bit integer that an optional value is.
pub open spec fn integer_in(value: Option<JsonView>) -> Option<i64> {
    match value {
        Some(JsonView::Number(text)) => i64_of(text),
        _ => None,
    }
}

/// The value of the first member with a key.
pub fn get<'a>(members: &'a Message, key: &str) -> (result: Option<&'a Json>)
    ensures
        match result {
            Some(value) => member(member_views(members@), key@) == Some(value@),
            None => member(member_views(members@), key@) is None,
        },
{
    let ghost views = member_views(members@);
    proof {
        lemma_member_views(members@);
    }
    let mut i: usize = 0;
    assert(views.skip(0) =~= views);
    while i < members.len()
        invariant
            i <= members@.len(),
            views == member_views(members@),
            views.len() == members@.len(),
            forall|j: int|
                0 <= j < members@.len() ==> #[trigger] views[j] == (
                    members@[j].0@,
                    members@[j].1@,
                ),
            member(views, key@) == member(views.skip(i as int), key@),
        decreases members@.len() - i,
    {
        assert(views.skip(i as int)[0] == views[i as int]);
        assert(views.skip(i as int).skip(1) =~= views.skip(i as int + 1));
        if same(members[i].0.as_str(), key) {
            return Some(&members[i].1);
        }
        i = i + 1;
    }
    None
}

proof fn lemma_with_member(members: Seq<(Seq<char>, JsonView)>, key: Seq<char>, value: JsonView, at: int)
    requires
        0 <= at <= members.len(),
        forall|j: int| 0 <= j < at ==> (#[trigger] members[j]).0 != key,
        at < members.len() ==> members[at].0 == key,
    ensures
        with_member(members, key, value) == if at < members.len() {
            members.update(at, (key, value))
        } else {
            members.push((key, value))
        },
    decreases members.len(),
{
    if members.len() == 0 {
        assert(with_member(members, key, value) =~= members.push((key, value)));
    } else if at == 0 {
        assert(with_member(members, key, value) =~= members.update(0, (key, value)));
    } else {
        let rest = members.skip(1);
        assert forall|j: int| 0 <= j < at - 1 implies (#[trigger] rest[j]).0 != key by {
            assert(rest[j] == members[j + 1]);
        }
        lemma_with_member(rest, key, value, at - 1);
        assert(with_member(members, key, value) =~= if at < members.len() {
            members.update(at, (key, value))
        } else {
            members.push((key, value))
        });
    }
}

/// Sets a member: in its place if the key is there, else at the end.
pub fn insert(members: &mut Message, key: &str, value: Json)
    ensures
        member_views(final(members)@) == with_member(member_views(old(members)@), key@, value@),
{
    let ghost before = member_views(members@);
    proof {
        lemma_member_views(members@);
    }
    let mut i: usize = 0;
    while i < members.len()
        invariant
            i <= members@.len(),
            members@ == old(members)@,
            before == member_views(members@),
            before.len() == members@.len(),
            forall|j: int|
                0 <= j < members@.len() ==> #[trigger] before[j] == (
                    members@[j].0@,
                    members@[j].1@,
                ),
            forall|j: int| 0 <= j < i ==> (#[trigger] before[j]).0 != key@,
        decreases members@.len() - i,
    {
        if same(members[i].0.as_str(), key) {
            members.set(i, (key.to_owned(), value));
            proof {
                lemma_with_member(before, key@, value@, i as int);
                lemma_member_views(members@);
                assert(member_views(members@) =~= before.update(i as int, (key@, value@)));
            }
            return;
        }
        i = i + 1;
    }
    members.push((key.to_owned(), value));
    proof {
        lemma_with_member(before, key@, value@, i as int);
        lemma_member_views(members@);
        assert(member_views(members@) =~= before.push((key@, value@)));
    }
}

/// The members of a value that is an object.
pub fn get_field<'a>(value: &'a Json, key: &str) -> (result: Option<&'a Json>)
    ensures
        match result {
            Some(inner) => field(value@, key@) == Some(inner@),
            None => field(value@, key@) is None,
        },
{
    match value {
        Json::Object(members) => get(members, key),
        _ => None,
    }
}

/// The content of an optional reference to a value.
pub open spec fn opt_json(value: Option<&Json>) -> Option<JsonView> {
    match value {
        Some(value) => Some(value@),
        None => None,
    }
}

/// The text that an optional value is.
pub fn as_str(value: Option<&Json>) -> (result: Option<&str>)
    ensures
        match result {
            Some(text) => string_in(opt_json(value)) == Some(text@),
            None => string_in(opt_json(value)) is None,
        },
{
    match value {
        Some(Json::Text(text)) => Some(text.as_str()),
        _ => None,
    }
}

/// Reads the text of a number as a 64-bit integer.
pub fn parse_i64(text: &str) -> (result: Option<i64>)
    ensures
        result == i64_of(text@),
{
    let s = chars_of(text);
    let negative = s.len() > 0 && s[0] == '-';
    let start: usize = if s.len() > 0 && (s[0] == '-' || s[0] == '+') {
        1
    } else {
        0
    };
    let digits = copy_range(&s, start, s.len());
    assert(digits@ =~= if start == 1 {
        text@.skip(1)
    } else {
        text@
    });
    if negative {
        match parse_digits(&digits, 10, 0x8000_0000_0000_0000) {
            Some(value) => Some((-(value as i128)) as i64),
            None => None,
        }
    } else {
        match parse_digits(&digits, 10, 0x7FFF_FFFF_FFFF_FFFF) {
            Some(value) => Some(value as i64),
            None => None,
        }
    }
}

/// The 64-bit integer that an optional value is.
pub fn as_i64(value: Option<&Json>) -> (result: Option<i64>)
    ensures
        result == integer_in(opt_json(value)),
{
    match value {
        Some(Json::Number(text)) => parse_i64(text),
        _ => None,
    }
}

/// A copy of a value.
pub fn copy(value: &Json) -> (result: Json)
    ensures
        result@ == value@,
    decreases value,
{
    match value {
        Json::Null => Json::Null,
        Json::Bool(flag) => Json::Bool(*flag),
        Json::Number(text) => Json::Number(text.clone()),
        Json::Text(text) => Json::Text(text.clone()),
        Json::Array(items) => {
            let mut copies: Vec<Json> = Vec::new();
            let mut i: usize = 0;
            while i < items.len()
                invariant
                    i <= items@.len(),
                    *value == Json::Array(*items),
                    item_views(copies@) == item_views(items@.take(i as int)),
                decreases items@.len() - i,
            {
                assert(items@.take(i as int + 1).drop_last() =~= items@.take(i as int));
                assert(decreases_to!(*value => value->Array_0));
                assert(decreases_to!(*items => items[i as int]));
                let item = copy(&items[i]);
                let ghost before = copies@;
                copies.push(item);
                assert(copies@.drop_last() =~= before);
                i = i + 1;
            }
            assert(items@.take(i as int) =~= items@);
            Json::Array(copies)
        },
        Json::Object(members) => {
            let mut copies: Vec<(String, Json)> = Vec::new();
            let mut i: usize = 0;
            while i < members.len()
                invariant
                    i <= members@.len(),
                    *value == Json::Object(*members),
                    member_views(copies@) == member_views(members@.take(i as int)),
                decreases members@.len() - i,
            {
                assert(members@.take(i as int + 1).drop_last() =~= members@.take(i as int));
                assert(decreases_to!(*value => value->Object_0));
                assert(decreases_to!(*members => members[i as int]));
                let item = copy(&members[i].1);
                let ghost before = copies@;
                copies.push((members[i].0.clone(), item));
                assert(copies@.drop_last() =~= before);
                i = i + 1;
            }
            assert(members@.take(i as int) =~= members@);
            Json::Object(copies)
        },
    }
}

/// A copy of the members of an object.
pub fn copy_members(members: &Message) -> (result: Message)
    ensures
        member_views(result@) == member_views(members@),
{
    let mut copies: Message = Vec::new();
    let mut i: usize = 0;
    while i < members.len()
        invariant
            i <= members@.len(),
            member_views(copies@) == member_views(members@.take(i as int)),
        decreases members@.len() - i,
    {
        assert(members@.take(i as int + 1).drop_last() =~= members@.take(i as int));
        let ghost before = copies@;
        copies.push((members[i].0.clone(), copy(&members[i].1)));
        assert(copies@.drop_last() =~= before);
        i = i + 1;
    }
    assert(members@.take(i as int) =~= members@);
    copies
}

/// A tree of `serde_json`.
#[verifier::external_body]
struct Tree {
    inner: Node,
}

/// Turns a `serde_json::Value` into a value of this library, variant by variant.
#[verifier::external_body]
fn from_tree(tree: Tree) -> (result: Json) {
    match tree.inner {
        Node::Null => Json::Null,
        Node::Bool(flag) => Json::Bool(flag),
        Node::Number(number) => Json::Number(number.to_string()),
        Node::String(text) => Json::Text(text),
        Node::Array(items) => Json::Array(
            items.into_iter().map(|inner| from_tree(Tree { inner })).collect(),
        ),
        Node::Object(members) => Json::Object(
            members.into_iter().map(|(key, inner)| (key, from_tree(Tree { inner }))).collect(),
        ),
    }
}

/// Turns a value of this library into a `serde_json::Value`, variant by variant.
/// The text of a number is read by `serde_json::Number`, whose error is handed
/// on as text.
#[verifier::external_body]
fn to_tree(value: &Json) -> (result: Result<Tree, String>) {
    let inner = match value {
        Json::Null => Node::Null,
        Json::Bool(flag) => Node::Bool(*flag),
        Json::Number(text) => Node::Number(text.parse().map_err(|e: serde_json::Error| e.to_string())?),
        Json::Text(text) => Node::String(text.clone()),
        Json::Array(items) => items.iter().map(|v| Ok(to_tree(v)?.inner)).collect::<Result<_, String>>()?,
        Json::Object(members) => members.iter().map(|(key, v)| Ok((key.clone(), to_tree(v)?.inner)))
            .collect::<Result<_, String>>()?,
    };
    Ok(Tree { inner })
}

/// What `serde_json::from_str` makes of a text: a value, or the text of its
/// error.
pub uninterp spec fn json_document(text: Seq<char>) -> Result<JsonView, Seq<char>>;

/// What `serde_json::to_vec` writes for a value, or the text of the error of
/// reading one of its numbers.
pub uninterp spec fn json_bytes(value: JsonView) -> Result<Seq<u8>, Seq<char>>;

/// What a `serde_json::Serializer` with a `PrettyFormatter` of some indentation
/// writes for a value, or the text of the error of reading one of its numbers.
pub uninterp spec fn json_pretty(value: JsonView, indent: Seq<char>) -> Result<Seq<char>, Seq<char>>;

/// The bits of what `serde_json::Number::as_f64` gives for the text of a number.
pub uninterp spec fn number_bits(text: Seq<char>) -> Option<u64>;

/// The nesting of arrays and objects in a value.
pub open spec fn nesting(value: JsonView) -> nat
    decreases value,
{
    match value {
        JsonView::Array(items) => 1 + item_nesting(items),
        JsonView::Object(members) => 1 + member_nesting(members),
        _ => 0,
    }
}

/// The deepest nesting among items.
pub open spec fn item_nesting(items: Seq<JsonView>) -> nat
    decreases items,
{
    if items.len() == 0 {
        0
    } else {
        let before = item_nesting(items.drop_last());
        let last = nesting(items.last());
        if last > before {
            last
        } else {
            before
        }
    }
}

/// The deepest nesting among members.
pub open spec fn member_nesting(members: Seq<(Seq<char>, JsonView)>) -> nat
    decreases members,
{
    if members.len() == 0 {
        0
    } else {
        let before = member_nesting(members.drop_last());
        let last = nesting(members.last().1);
        if last > before {
            last
        } else {
            before
        }
    }
}

/// How many digits a text begins with.
pub open spec fn leading_digits(text: Seq<char>) -> nat
    decreases text.len(),
{
    if text.len() > 0 && '0' <= text[0] && text[0] <= '9' {
        1 + leading_digits(text.skip(1))
    } else {
        0
    }
}

/// Whether a text is nothing or the exponent of a number: `e`, a sign, digits.
pub open spec fn is_plain_exponent(text: Seq<char>) -> bool {
    text.len() == 0 || (text.len() > 2 && text[0] == 'e' && (text[1] == '+' || text[1] == '-')
        && leading_digits(text.skip(2)) == text.len() - 2)
}

/// Whether a text is a number as `serde_json` writes it: an optional minus sign,
/// digits without superfluous leading zeros, an optional fraction, and an
/// optional exponent with its sign.
pub open spec fn is_plain_number(text: Seq<char>) -> bool {
    let whole = if text.len() > 0 && text[0] == '-' {
        text.skip(1)
    } else {
        text
    };
    let count = leading_digits(whole);
    let rest = whole.skip(count as int);
    &&& count > 0
    &&& count > 1 ==> whole[0] != '0'
    &&& if rest.len() > 0 && rest[0] == '.' {
        let digits = leading_digits(rest.skip(1));
        digits > 0 && is_plain_exponent(rest.skip(1 + digits as int))
    } else {
        is_plain_exponent(rest)
    }
}

/// Whether the numbers of a value are as `serde_json` writes them, and the keys of
/// each object distinct. An object whose first key is the one that stands for a
/// number inside `serde_json` would be read as a number.
pub open spec fn is_plain(value: JsonView) -> bool
    decreases value,
{
    match value {
        JsonView::Number(text) => is_plain_number(text),
        JsonView::Array(items) => items_plain(items),
        JsonView::Object(members) => members_plain(members),
        _ => true,
    }
}

/// Whether every item is plain.
pub open spec fn items_plain(items: Seq<JsonView>) -> bool
    decreases items,
{
    items.len() == 0 || (items_plain(items.drop_last()) && is_plain(items.last()))
}

/// Whether every member is plain and has a key of its own, and the first key is not
/// the one that stands for a number.
pub open spec fn members_plain(members: Seq<(Seq<char>, JsonView)>) -> bool
    decreases members,
{
    members.len() == 0 || (members_plain(members.drop_last()) && is_plain(members.last().1)
        && (members.len() == 1 ==> members.last().0 != "$serde_json::private::Number"@) && member(
        members.drop_last(),
        members.last().0,
    ) is None)
}

/// Calls `serde_json::from_str`.
#[verifier::external_body]
pub(crate) fn parse_json(text: &str) -> (result: Result<Json, String>)
    ensures
        match result {
            Ok(value) => json_document(text@) == Ok::<_, Seq<char>>(value@),
            Err(message) => json_document(text@) == Err::<JsonView, _>(message@),
        },
{
    match serde_json::from_str::<Node>(text) {
        Ok(inner) => Ok(from_tree(Tree { inner })),
        Err(error) => Err(error.to_string()),
    }
}

/// Calls `serde_json::to_vec`. A plain value of at most 127 levels, the limit of
/// `serde_json::from_str`, is written as UTF-8 that is read back as that value.
/// Of other values only the name of the outcome is stated.
#[verifier::external_body]
pub(crate) fn write_json(value: &Json) -> (result: Result<Vec<u8>, String>)
    ensures
        match result {
            Ok(bytes) => json_bytes(value@) == Ok::<_, Seq<char>>(bytes@) && (is_plain(value@)
                && nesting(value@) <= 127 ==> valid_utf8(bytes@) && json_document(
                decode_utf8(bytes@),
            ) == Ok::<_, Seq<char>>(value@)),
            Err(message) => json_bytes(value@) == Err::<Seq<u8>, _>(message@) && !(is_plain(value@)
                && nesting(value@) <= 127),
        },
{
    match to_tree(value) {
        Ok(tree) => serde_json::to_vec(&tree.inner).map_err(|error| error.to_string()),
        Err(message) => Err(message),
    }
}

/// Whether a text is made of blanks.
pub open spec fn is_indent(text: Seq<char>) -> bool {
    forall|i: int| 0 <= i < text.len() ==> #[trigger] text[i] == ' '
}

/// Writes a value with a `serde_json::Serializer` and a `PrettyFormatter`. With an
/// indentation of blanks, a plain value of at most 127 levels is written as strict
/// JSON: without a byte order mark, comments or trailing commas, and such that
/// `serde_json::from_str` reads it back as that value, a line end behind it
/// included. Of other values only the name of the outcome is stated.
#[verifier::external_body]
pub(crate) fn write_pretty(value: &Json, indent: &str) -> (result: Result<String, String>)
    ensures
        match result {
            Ok(text) => json_pretty(value@, indent@) == Ok::<_, Seq<char>>(text@) && (is_plain(
                value@,
            ) && nesting(value@) <= 127 && is_indent(indent@) ==> is_strict(
                text@,
                0,
                Place::Plain,
            ) && text@.len() > 0 && text@[0] != '\u{feff}' && json_document(text@.push('\n'))
                == Ok::<_, Seq<char>>(value@)),
            Err(message) => json_pretty(value@, indent@) == Err::<Seq<char>, _>(message@) && !(
            is_plain(value@) && nesting(value@) <= 127),
        },
{
    let tree = to_tree(value)?;
    let mut output = Vec::new();
    let formatter = serde_json::ser::PrettyFormatter::with_indent(indent.as_bytes());
    let mut serializer = serde_json::Serializer::with_formatter(&mut output, formatter);
    match serde::Serialize::serialize(&tree.inner, &mut serializer) {
        Ok(()) => String::from_utf8(output).map_err(|error| error.to_string()),
        Err(error) => Err(error.to_string()),
    }
}

/// Calls `serde_json::Number::as_f64`; the floating-point number is handed on as
/// its bits.
#[verifier::external_body]
fn read_number_bits(text: &str) -> (result: Option<u64>)
    ensures
        result == number_bits(text@),
{
    match text.parse::<serde_json::Number>() {
        Ok(number) => number.as_f64().map(|value| value.to_bits()),
        Err(_) => None,
    }
}

/// Whether the bits of a floating-point number are those of a zero, of either
/// sign.
pub open spec fn is_zero_bits(bits: u64) -> bool {
    bits == 0 || bits == 0x8000_0000_0000_0000
}

/// Whether an optional value counts as true: a number that is finite and not
/// zero, anything else that is not empty.
pub open spec fn is_truthy(value: Option<JsonView>) -> bool {
    match value {
        None => false,
        Some(JsonView::Null) => false,
        Some(JsonView::Bool(flag)) => flag,
        Some(JsonView::Number(text)) => match number_bits(text) {
            Some(bits) => !is_zero_bits(bits),
            None => false,
        },
        Some(JsonView::Text(text)) => text.len() > 0,
        Some(JsonView::Array(items)) => items.len() > 0,
        Some(JsonView::Object(members)) => members.len() > 0,
    }
}

/// Whether an optional value counts as true.
pub fn truthy(value: Option<&Json>) -> (result: bool)
    ensures
        result == is_truthy(opt_json(value)),
{
    match value {
        None => false,
        Some(Json::Null) => false,
        Some(Json::Bool(flag)) => *flag,
        Some(Json::Number(text)) => match read_number_bits(text) {
            Some(bits) => !(bits == 0 || bits == 0x8000_0000_0000_0000),
            None => false,
        },
        Some(Json::Text(text)) => !text.as_str().is_empty(),
        Some(Json::Array(items)) => {
            proof {
                lemma_item_views(items@);
            }
            items.len() > 0
        },
        Some(Json::Object(members)) => {
            proof {
                lemma_member_views(members@);
            }
            members.len() > 0
        },
    }
}

/// Setting a member sets that member and no other.
pub proof fn lemma_member_set(
    members: Seq<(Seq<char>, JsonView)>,
    key: Seq<char>,
    value: JsonView,
    other: Seq<char>,
)
    ensures
        member(with_member(members, key, value), other) == (if other == key {
            Some(value)
        } else {
            member(members, other)
        }),
    decreases members.len(),
{
    let after = with_member(members, key, value);
    if members.len() == 0 {
        assert(after.skip(1) =~= seq![]);
        assert(member(after.skip(1), other) is None);
    } else if members[0].0 == key {
        assert(after.skip(1) =~= members.skip(1));
    } else {
        lemma_member_set(members.skip(1), key, value, other);
        assert(after.skip(1) =~= with_member(members.skip(1), key, value));
        assert(after[0] == members[0]);
    }
}

/// Setting a member to the value that it has changes nothing.
pub proof fn lemma_member_set_again(
    members: Seq<(Seq<char>, JsonView)>,
    key: Seq<char>,
    value: JsonView,
)
    requires
        member(members, key) == Some(value),
    ensures
        with_member(members, key, value) == members,
    decreases members.len(),
{
    if members[0].0 == key {
        assert(with_member(members, key, value) =~= members);
    } else {
        lemma_member_set_again(members.skip(1), key, value);
        assert(with_member(members, key, value) =~= members);
    }
}

}
