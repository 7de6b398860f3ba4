//! TOML documents.

use vstd::prelude::*;

use crate::text::same;

verus! {

/// A TOML value. A floating-point number is held as its bits, and of a date only
/// is known that it is one.
#[derive(Debug, PartialEq, Eq)]
pub enum Toml {
    Text(String),
    Integer(i64),
    Float(u64),
    Boolean(bool),
    Datetime,
    Array(Vec<Toml>),
    Table(Vec<(String, Toml)>),
}

/// The content of a [`Toml`].
pub ghost enum TomlView {
    Text(Seq<char>),
    Integer(i64),
    Float(u64),
    Boolean(bool),
    Datetime,
    Array(Seq<TomlView>),
    Table(Seq<(Seq<char>, TomlView)>),
}

/// The entries of a table.
pub type Entries = Seq<(Seq<char>, TomlView)>;

/// The content of a value.
pub open spec fn toml_view(value: Toml) -> TomlView
    decreases value,
{
    match value {
        Toml::Text(text) => TomlView::Text(text@),
        Toml::Integer(n) => TomlView::Integer(n),
        Toml::Float(bits) => TomlView::Float(bits),
        Toml::Boolean(flag) => TomlView::Boolean(flag),
        Toml::Datetime => TomlView::Datetime,
        Toml::Array(items) => TomlView::Array(item_views(items@)),
        Toml::Table(entries) => TomlView::Table(entry_views(entries@)),
    }
}

/// The contents of the items of an array.
pub open spec fn item_views(items: Seq<Toml>) -> Seq<TomlView>
    decreases items,
{
    if items.len() == 0 {
        seq![]
    } else {
        item_views(items.drop_last()).push(toml_view(items.last()))
    }
}

/// The contents of the entries of a table.
pub open spec fn entry_views(entries: Seq<(String, Toml)>) -> Entries
    decreases entries,
{
    if entries.len() == 0 {
        seq![]
    } else {
        entry_views(entries.drop_last()).push((entries.last().0@, toml_view(entries.last().1)))
    }
}

impl View for Toml {
    type V = TomlView;

    open spec fn view(&self) -> TomlView {
        toml_view(*self)
    }
}

/// There is one content for each item, in order.
pub proof fn lemma_item_views(items: Seq<Toml>)
    ensures
        item_views(items).len() == items.len(),
        forall|i: int| 0 <= i < items.len() ==> #[trigger] item_views(items)[i] == items[i]@,
    decreases items.len(),
{
    if items.len() > 0 {
        lemma_item_views(items.drop_last());
        assert forall|i: int| 0 <= i < items.len() implies #[trigger] item_views(items)[i]
            == items[i]@ by {
            if i < items.len() - 1 {
                assert(items.drop_last()[i] == items[i]);
                assert(item_views(items)[i] == item_views(items.drop_last())[i]);
            }
        }
    }
}

proof fn lemma_entry_views(entries: Seq<(String, Toml)>)
    ensures
        entry_views(entries).len() == entries.len(),
        forall|i: int|
            0 <= i < entries.len() ==> #[trigger] entry_views(entries)[i] == (
                entries[i].0@,
                entries[i].1@,
            ),
    decreases entries.len(),
{
    if entries.len() > 0 {
        lemma_entry_views(entries.drop_last());
        assert forall|i: int| 0 <= i < entries.len() implies #[trigger] entry_views(entries)[i] == (
            entries[i].0@,
            entries[i].1@,
        ) by {
            if i < entries.len() - 1 {
                assert(entries.drop_last()[i] == entries[i]);
                assert(entry_views(entries)[i] == entry_views(entries.drop_last())[i]);
            }
        }
    }
}

/// The value of the first entry with a key.
pub open spec fn entry(entries: Entries, key: Seq<char>) -> Option<TomlView>
    decreases entries.len(),
{
    if entries.len() == 0 {
        None
    } else if entries[0].0 == key {
        Some(entries[0].1)
    } else {
        entry(entries.skip(1), key)
    }
}

/// The value of the first entry with a key.
pub fn get<'a>(entries: &'a Vec<(String, Toml)>, key: &str) -> (result: Option<&'a Toml>)
    ensures
        match result {
            Some(value) => entry(entry_views(entries@), key@) == Some(value@),
            None => entry(entry_views(entries@), key@) is None,
        },
{
    let ghost views = entry_views(entries@);
    proof {
        lemma_entry_views(entries@);
    }
    let mut i: usize = 0;
    assert(views.skip(0) =~= views);
    while i < entries.len()
        invariant
            i <= entries@.len(),
            views == entry_views(entries@),
            views.len() == entries@.len(),
            forall|j: int|
                0 <= j < entries@.len() ==> #[trigger] views[j] == (
                    entries@[j].0@,
                    entries@[j].1@,
                ),
            entry(views, key@) == entry(views.skip(i as int), key@),
        decreases entries@.len() - i,
    {
        assert(views.skip(i as int)[0] == views[i as int]);
        assert(views.skip(i as int).skip(1) =~= views.skip(i as int + 1));
        if same(entries[i].0.as_str(), key) {
            return Some(&entries[i].1);
        }
        i = i + 1;
    }
    None
}

/// What is wrong with a document: a message, and the byte where it went wrong.
#[derive(Debug)]
pub struct TomlError {
    pub message: String,
    pub start: Option<usize>,
}

/// The content of a [`TomlError`].
pub ghost struct TomlErrorView {
    pub message: Seq<char>,
    pub start: Option<usize>,
}

impl View for TomlError {
    type V = TomlErrorView;

    open spec fn view(&self) -> TomlErrorView {
        TomlErrorView { message: self.message@, start: self.start }
    }
}

/// A tree of the `toml` crate.
#[verifier::external_body]
struct Tree {
    inner: toml::Value,
}

/// Turns a `toml::Value` into a value of this library, variant by variant. A
/// floating-point number becomes its bits; a date loses its value.
#[verifier::external_body]
fn from_tree(tree: Tree) -> (result: Toml) {
    match tree.inner {
        toml::Value::String(text) => Toml::Text(text),
        toml::Value::Integer(n) => Toml::Integer(n),
        toml::Value::Float(value) => Toml::Float(value.to_bits()),
        toml::Value::Boolean(flag) => Toml::Boolean(flag),
        toml::Value::Datetime(_) => Toml::Datetime,
        toml::Value::Array(items) => Toml::Array(
            items.into_iter().map(|inner| from_tree(Tree { inner })).collect(),
        ),
        toml::Value::Table(entries) => Toml::Table(
            entries.into_iter().map(|(key, inner)| (key, from_tree(Tree { inner }))).collect(),
        ),
    }
}

/// What parsing a text as a `toml::Table` gives: the entries, or what
/// `toml::de::Error` says of it.
pub uninterp spec fn toml_document(source: Seq<char>) -> Result<Entries, TomlErrorView>;

/// Parses a text as a `toml::Table`.
#[verifier::external_body]
pub(crate) fn parse_toml(source: &str) -> (result: Result<Vec<(String, Toml)>, TomlError>)
    ensures
        match result {
            Ok(entries) => toml_document(source@) == Ok::<_, TomlErrorView>(entry_views(entries@)),
            Err(error) => toml_document(source@) == Err::<Entries, _>(error@),
        },
{
    match source.parse::<toml::Table>() {
        Ok(table) => Ok(
            table.into_iter().map(|(key, inner)| (key, from_tree(Tree { inner }))).collect(),
        ),
        Err(error) => Err(
            TomlError {
                message: error.message().to_string(),
                start: error.span().map(|span| span.start),
            },
        ),
    }
}

}
