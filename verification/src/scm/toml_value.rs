//! TOML documents as plain values.

use vstd::prelude::*;

use crate::text::{same, string_views};

verus! {

/// A TOML value. Numbers, booleans and dates are of no interest here.
#[derive(Debug)]
pub enum TomlValue {
    Text(String),
    List(Vec<TomlValue>),
    Table(Vec<(String, TomlValue)>),
    Other,
}

/// A TOML value with its texts as character sequences.
pub enum TomlTree {
    Text(Seq<char>),
    List(Seq<TomlTree>),
    Table(Seq<TomlEntry>),
    Other,
}

/// A key of a table and the value under it.
pub struct TomlEntry {
    pub key: Seq<char>,
    pub value: TomlTree,
}

impl View for TomlValue {
    type V = TomlTree;

    open spec fn view(&self) -> TomlTree
        decreases self,
    {
        match self {
            TomlValue::Text(text) => TomlTree::Text(text@),
            TomlValue::List(items) => TomlTree::List(
                Seq::new(
                    items@.len(),
                    |i: int|
                        if 0 <= i < items@.len() {
                            items@[i].view()
                        } else {
                            TomlTree::Other
                        },
                ),
            ),
            TomlValue::Table(entries) => TomlTree::Table(
                Seq::new(
                    entries@.len(),
                    |i: int|
                        if 0 <= i < entries@.len() {
                            TomlEntry { key: entries@[i].0@, value: entries@[i].1.view() }
                        } else {
                            TomlEntry { key: Seq::empty(), value: TomlTree::Other }
                        },
                ),
            ),
            TomlValue::Other => TomlTree::Other,
        }
    }
}

/// The value type of the `toml` crate.
#[verifier::external_type_specification]
#[verifier::external_body]
pub struct ExValue(toml::Value);

/// What a value of the `toml` crate holds.
pub uninterp spec fn toml_tree(value: toml::Value) -> TomlTree;

/// What reading a text as a TOML document gives: the document's table, or the
/// message that says why the text is not one.
pub uninterp spec fn toml_document(content: Seq<char>) -> Result<TomlTree, Seq<char>>;

/// Calls `toml::from_str`, and `to_string` on its error. The outcome depends on
/// the text alone, and is called `toml_document`.
#[verifier::external_body]
fn from_text(content: &str) -> (result: Result<toml::Value, String>)
    ensures
        match result {
            Ok(value) => toml_document(content@) == Ok::<TomlTree, Seq<char>>(toml_tree(value)),
            Err(message) => toml_document(content@) == Err::<TomlTree, Seq<char>>(message@),
        },
{
    toml::from_str(content).map_err(|error: toml::de::Error| error.to_string())
}

/// One level of a value of the `toml` crate.
enum Level {
    Text(String),
    List(Vec<toml::Value>),
    Table(Vec<(String, toml::Value)>),
    Other,
}

/// Takes a `toml::Value` apart by its variants. An array hands out its items in
/// order, and a table its entries in the order in which it is walked.
#[verifier::external_body]
fn level(value: toml::Value) -> (result: Level)
    ensures
        match result {
            Level::Text(text) => toml_tree(value) == TomlTree::Text(text@),
            Level::List(items) => toml_tree(value) == TomlTree::List(
                Seq::new(items@.len(), |i: int| toml_tree(items@[i])),
            ),
            Level::Table(entries) => toml_tree(value) == TomlTree::Table(
                Seq::new(entries@.len(), |i: int| TomlEntry { key: entries@[i].0@, value: toml_tree(entries@[i].1) }),
            ),
            Level::Other => toml_tree(value) == TomlTree::Other,
        },
{
    match value {
        toml::Value::String(text) => Level::Text(text),
        toml::Value::Array(items) => Level::List(items),
        toml::Value::Table(entries) => Level::Table(entries.into_iter().collect()),
        toml::Value::Integer(_) => Level::Other,
        toml::Value::Float(_) => Level::Other,
        toml::Value::Boolean(_) => Level::Other,
        toml::Value::Datetime(_) => Level::Other,
    }
}

/// A value of the `toml` crate as a plain value.
fn plain(value: toml::Value) -> (result: TomlValue)
    ensures
        result@ == toml_tree(value),
    decreases toml_tree(value),
{
    let ghost tree = toml_tree(value);
    match level(value) {
        Level::Text(text) => TomlValue::Text(text),
        Level::List(items) => {
            let ghost all = items@;
            let mut list: Vec<TomlValue> = Vec::new();
            for item in it: items
                invariant
                    it.seq() == all,
                    tree == toml_tree(value),
                    list@.len() == it.index(),
                    tree == TomlTree::List(Seq::new(all.len(), |i: int| toml_tree(all[i]))),
                    forall|i: int| 0 <= i < list@.len() ==> (#[trigger] list@[i])@ == toml_tree(all[i]),
            {
                proof {
                    assert(decreases_to!(tree => tree->List_0[it.index()]));
                }
                list.push(plain(item));
            }
            let result = TomlValue::List(list);
            assert(result@->List_0 =~= tree->List_0);
            result
        },
        Level::Table(entries) => {
            let ghost all = entries@;
            let mut table: Vec<(String, TomlValue)> = Vec::new();
            for entry in it: entries
                invariant
                    it.seq() == all,
                    tree == toml_tree(value),
                    table@.len() == it.index(),
                    tree == TomlTree::Table(
                        Seq::new(all.len(), |i: int| TomlEntry { key: all[i].0@, value: toml_tree(all[i].1) }),
                    ),
                    forall|i: int|
                        0 <= i < table@.len() ==> (#[trigger] table@[i]).0@ == all[i].0@
                            && table@[i].1@ == toml_tree(all[i].1),
            {
                proof {
                    assert(decreases_to!(tree => tree->Table_0[it.index()]));
                    assert(decreases_to!(tree->Table_0[it.index()] => tree->Table_0[it.index()].value));
                }
                table.push((entry.0, plain(entry.1)));
            }
            let result = TomlValue::Table(table);
            assert(result@->Table_0 =~= tree->Table_0);
            result
        },
        Level::Other => TomlValue::Other,
    }
}

/// Read a text as a TOML document.
pub fn parse_toml(content: &str) -> (result: Result<TomlValue, String>)
    ensures
        match result {
            Ok(document) => toml_document(content@) == Ok::<TomlTree, Seq<char>>(document@),
            Err(message) => toml_document(content@) == Err::<TomlTree, Seq<char>>(message@),
        },
{
    match from_text(content) {
        Ok(value) => Ok(plain(value)),
        Err(message) => Err(message),
    }
}

/// The value of the first entry under `key`.
pub open spec fn entry_of(entries: Seq<TomlEntry>, key: Seq<char>) -> Option<TomlTree>
    decreases entries.len(),
{
    if entries.len() == 0 {
        None
    } else if entries[0].key == key {
        Some(entries[0].value)
    } else {
        entry_of(entries.drop_first(), key)
    }
}

/// What stands under `key`, if the value is a table that has it.
pub open spec fn under(tree: Option<TomlTree>, key: Seq<char>) -> Option<TomlTree> {
    match tree {
        Some(TomlTree::Table(entries)) => entry_of(entries, key),
        _ => None,
    }
}

/// The text, if the value is one.
pub open spec fn text_in(tree: Option<TomlTree>) -> Option<Seq<char>> {
    match tree {
        Some(TomlTree::Text(text)) => Some(text),
        _ => None,
    }
}

/// The keys of a table, in order. What is no table has none.
pub open spec fn keys_in(tree: Option<TomlTree>) -> Seq<Seq<char>> {
    match tree {
        Some(TomlTree::Table(entries)) => entries.map_values(|e: TomlEntry| e.key),
        _ => Seq::empty(),
    }
}

/// The texts among the items, in order.
pub open spec fn texts_among(items: Seq<TomlTree>) -> Seq<Seq<char>>
    decreases items.len(),
{
    if items.len() == 0 {
        Seq::empty()
    } else {
        let before = texts_among(items.drop_last());
        match items.last() {
            TomlTree::Text(text) => before.push(text),
            _ => before,
        }
    }
}

/// The texts in a list, in order. What is no list has none.
pub open spec fn texts_in(tree: Option<TomlTree>) -> Seq<Seq<char>> {
    match tree {
        Some(TomlTree::List(items)) => texts_among(items),
        _ => Seq::empty(),
    }
}

/// The texts in the lists that the entries hold, one list after the other.
pub open spec fn texts_in_groups(entries: Seq<TomlEntry>) -> Seq<Seq<char>>
    decreases entries.len(),
{
    if entries.len() == 0 {
        Seq::empty()
    } else {
        texts_in_groups(entries.drop_last()) + texts_in(Some(entries.last().value))
    }
}

/// The texts in the lists that a table holds. What is no table has none.
pub open spec fn grouped_texts_in(tree: Option<TomlTree>) -> Seq<Seq<char>> {
    match tree {
        Some(TomlTree::Table(entries)) => texts_in_groups(entries),
        _ => Seq::empty(),
    }
}

/// The tree of a value, if there is one.
pub open spec fn tree_of(value: Option<&TomlValue>) -> Option<TomlTree> {
    match value {
        Some(value) => Some(value@),
        None => None,
    }
}

/// What stands under `key`, if the value is a table that has it.
pub fn get<'a>(value: Option<&'a TomlValue>, key: &str) -> (found: Option<&'a TomlValue>)
    ensures
        tree_of(found) == under(tree_of(value), key@),
{
    let table = match value {
        Some(table) => table,
        None => return None,
    };
    let entries = match table {
        TomlValue::Table(entries) => entries,
        _ => return None,
    };
    let ghost all = table@->Table_0;
    assert(all.skip(0) =~= all);
    let mut i: usize = 0;
    while i < entries.len()
        invariant
            i <= entries.len(),
            tree_of(value) == Some(TomlTree::Table(all)),
            all.len() == entries@.len(),
            forall|j: int|
                0 <= j < entries@.len() ==> #[trigger] all[j] == (TomlEntry { key: entries@[j].0@, value: entries@[j].1@ }),
            entry_of(all, key@) == entry_of(all.skip(i as int), key@),
        decreases entries.len() - i,
    {
        let ghost rest = all.skip(i as int);
        assert(rest[0] == all[i as int]);
        if same(&entries[i].0, key) {
            return Some(&entries[i].1);
        }
        assert(rest.drop_first() =~= all.skip(i + 1));
        i = i + 1;
    }
    None
}

/// The text, if the value is one.
pub fn as_text(value: Option<&TomlValue>) -> (text: Option<String>)
    ensures
        match text {
            Some(text) => text_in(tree_of(value)) == Some(text@),
            None => text_in(tree_of(value)) is None,
        },
{
    match value {
        Some(TomlValue::Text(text)) => Some(text.clone()),
        _ => None,
    }
}

/// The keys of a table, in order. What is no table has none.
pub fn keys(value: Option<&TomlValue>) -> (list: Vec<String>)
    ensures
        string_views(list@) == keys_in(tree_of(value)),
{
    let mut list: Vec<String> = Vec::new();
    if let Some(table) = value {
        if let TomlValue::Table(entries) = table {
            let ghost all = table@->Table_0;
            let mut i: usize = 0;
            while i < entries.len()
                invariant
                    i <= entries.len(),
                    list@.len() == i,
                    all.len() == entries@.len(),
                    forall|j: int|
                        0 <= j < entries@.len() ==> #[trigger] all[j] == (TomlEntry {
                            key: entries@[j].0@,
                            value: entries@[j].1@,
                        }),
                    forall|j: int| 0 <= j < i ==> (#[trigger] list@[j])@ == all[j].key,
                decreases entries.len() - i,
            {
                list.push(entries[i].0.clone());
                i = i + 1;
            }
        }
    }
    assert(string_views(list@) =~= keys_in(tree_of(value)));
    list
}

/// Append the texts in a list, in order. What is no list has none.
fn append_texts(value: &TomlValue, list: &mut Vec<String>)
    ensures
        string_views(final(list)@) == string_views(old(list)@) + texts_in(Some(value@)),
{
    match value {
        TomlValue::List(items) => {
            let ghost all = value@->List_0;
            let ghost before = string_views(list@);
            assert(all.take(0) =~= Seq::<TomlTree>::empty());
            let mut i: usize = 0;
            while i < items.len()
                invariant
                    i <= items.len(),
                    all.len() == items@.len(),
                    forall|j: int| 0 <= j < items@.len() ==> #[trigger] all[j] == items@[j]@,
                    string_views(list@) =~= before + texts_among(all.take(i as int)),
                decreases items.len() - i,
            {
                assert(all.take(i + 1).drop_last() =~= all.take(i as int));
                assert(all.take(i + 1).last() == all[i as int]);
                if let TomlValue::Text(text) = &items[i] {
                    let ghost so_far = list@;
                    list.push(text.clone());
                    assert(string_views(list@) =~= string_views(so_far).push(text@));
                }
                i = i + 1;
            }
            assert(all.take(i as int) =~= all);
        },
        _ => {
            assert(string_views(list@) =~= string_views(list@) + Seq::<Seq<char>>::empty());
        },
    }
}

/// The texts in a list, in order. What is no list has none.
pub fn list_texts(value: Option<&TomlValue>) -> (list: Vec<String>)
    ensures
        string_views(list@) == texts_in(tree_of(value)),
{
    let mut list: Vec<String> = Vec::new();
    if let Some(value) = value {
        append_texts(value, &mut list);
    }
    assert(string_views(list@) =~= texts_in(tree_of(value)));
    list
}

/// The texts in the lists that a table holds. What is no table has none.
pub fn grouped_texts(value: Option<&TomlValue>) -> (list: Vec<String>)
    ensures
        string_views(list@) == grouped_texts_in(tree_of(value)),
{
    let mut list: Vec<String> = Vec::new();
    if let Some(table) = value {
        if let TomlValue::Table(entries) = table {
            let ghost all = table@->Table_0;
            assert(all.take(0) =~= Seq::<TomlEntry>::empty());
            let mut i: usize = 0;
            while i < entries.len()
                invariant
                    i <= entries.len(),
                    all.len() == entries@.len(),
                    forall|j: int|
                        0 <= j < entries@.len() ==> #[trigger] all[j] == (TomlEntry {
                            key: entries@[j].0@,
                            value: entries@[j].1@,
                        }),
                    string_views(list@) =~= texts_in_groups(all.take(i as int)),
                decreases entries.len() - i,
            {
                assert(all.take(i + 1).drop_last() =~= all.take(i as int));
                assert(all.take(i + 1).last() == all[i as int]);
                append_texts(&entries[i].1, &mut list);
                i = i + 1;
            }
            assert(all.take(i as int) =~= all);
        }
    }
    assert(string_views(list@) =~= grouped_texts_in(tree_of(value)));
    list
}

} // verus!
