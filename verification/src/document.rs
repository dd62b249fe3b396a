//! The TOML document as this library sees it: tables of the `toml` crate,
//! described by the ordered list of their entries.
use vstd::prelude::*;

verus! {

/// `toml::Value`, a value of a document. Nothing of its inside is visible
/// here; `node_of` says what it is.
#[verifier::external_type_specification]
#[verifier::external_body]
pub struct ExValue(toml::Value);

/// `toml::map::Map`, the table of a document. Nothing of its inside is
/// visible here; `table_entries` says what it holds.
#[verifier::external_type_specification]
#[verifier::external_body]
#[verifier::reject_recursive_types(K)]
#[verifier::reject_recursive_types(V)]
pub struct ExTable<K, V>(toml::map::Map<K, V>);

/// What a value of a document is, as far as a merge looks into it.
pub enum Node {
    /// A string value.
    Text(Seq<char>),
    /// A table, with its entries in order.
    Table(Seq<(Seq<char>, Node)>),
    /// A value of another kind, carried as it is.
    Other(toml::Value),
}

/// The entries of a table as a list: each key with what its value is.
pub type Entries = Seq<(Seq<char>, Node)>;

/// What a value is: its text when it is a string, its entries when it is a
/// table, and the value itself when it is of another kind.
pub uninterp spec fn node_of(value: toml::Value) -> Node;

/// The entries that a table holds, in the order in which it is walked. With
/// ordered tables that is the order in which the keys were first inserted.
pub uninterp spec fn table_entries(table: toml::map::Map<String, toml::Value>) -> Entries;

/// What `toml::from_str` makes of a document text: the entries of the root
/// table, or the message of the error it reports.
pub uninterp spec fn toml_parse(text: Seq<char>) -> Result<Entries, Seq<char>>;

/// What `toml::to_string_pretty` makes of a root table with the given
/// entries: the document text, or the message of the error it reports.
pub uninterp spec fn toml_pretty(root: Entries) -> Result<Seq<char>, Seq<char>>;

/// Index of the entry with the given key, or the number of entries when no
/// entry has it.
pub open spec fn key_index<V>(entries: Seq<(Seq<char>, V)>, key: Seq<char>) -> int
    decreases entries.len(),
{
    if entries.len() == 0 {
        0
    } else if entries.first().0 == key {
        0
    } else {
        1 + key_index(entries.drop_first(), key)
    }
}

/// The entries after `key` is bound to `value`: an entry that has the key
/// keeps its place and gets the value; otherwise a new entry comes last.
pub open spec fn upsert<V>(entries: Seq<(Seq<char>, V)>, key: Seq<char>, value: V) -> Seq<
    (Seq<char>, V),
> {
    let i = key_index(entries, key);
    if i < entries.len() {
        entries.update(i, (key, value))
    } else {
        entries.push((key, value))
    }
}

/// `key_index` is the one place that holds the key with no holder before it.
pub proof fn lemma_key_index<V>(entries: Seq<(Seq<char>, V)>, key: Seq<char>)
    ensures
        0 <= key_index(entries, key) <= entries.len(),
        key_index(entries, key) < entries.len() ==> entries[key_index(entries, key)].0 == key,
        forall|k: int| 0 <= k < key_index(entries, key) ==> (#[trigger] entries[k]).0 != key,
    decreases entries.len(),
{
    if entries.len() > 0 && entries.first().0 != key {
        let rest = entries.drop_first();
        lemma_key_index(rest, key);
        assert forall|k: int| 0 <= k < key_index(entries, key) implies (#[trigger] entries[k]).0
            != key by {
            if k > 0 {
                assert(entries[k] == rest[k - 1]);
            }
        }
    }
}

/// An index that holds the key with no holder before it, or the length when
/// nothing holds the key, is `key_index`.
pub proof fn lemma_key_index_is<V>(entries: Seq<(Seq<char>, V)>, key: Seq<char>, i: int)
    requires
        0 <= i <= entries.len(),
        i < entries.len() ==> entries[i].0 == key,
        forall|k: int| 0 <= k < i ==> (#[trigger] entries[k]).0 != key,
    ensures
        key_index(entries, key) == i,
{
    lemma_key_index(entries, key);
    let j = key_index(entries, key);
    if j < i {
        assert(entries[j].0 != key);
    } else if i < j {
        assert(entries[i].0 != key);
    }
}

/// Parses a document with `toml::from_str` into a table. The call succeeds
/// exactly where `toml_parse` names entries, and the table then holds them;
/// otherwise the error's message is the one `toml_parse` names.
#[verifier::external_body]
pub(crate) fn parse_table(text: &str) -> (r: Result<toml::map::Map<String, toml::Value>, String>)
    ensures
        match r {
            Ok(table) => toml_parse(text@) == Ok::<Entries, Seq<char>>(table_entries(table)),
            Err(message) => toml_parse(text@) == Err::<Entries, Seq<char>>(message@),
        },
{
    toml::from_str::<toml::Table>(text).map_err(|e| e.to_string())
}

/// Writes a root table as text with `toml::to_string_pretty`. The call
/// succeeds exactly where `toml_pretty` names a text for the table's entries,
/// and returns that text; otherwise the error's message is the one
/// `toml_pretty` names.
#[verifier::external_body]
pub(crate) fn render_table(table: &toml::map::Map<String, toml::Value>) -> (r: Result<
    String,
    String,
>)
    ensures
        match r {
            Ok(text) => toml_pretty(table_entries(*table)) == Ok::<Seq<char>, Seq<char>>(text@),
            Err(message) => toml_pretty(table_entries(*table)) == Err::<Seq<char>, Seq<char>>(
                message@,
            ),
        },
{
    toml::to_string_pretty(table).map_err(|e| e.to_string())
}

/// `Map::new`: a table without entries.
#[verifier::external_body]
pub(crate) fn new_table() -> (table: toml::map::Map<String, toml::Value>)
    ensures
        table_entries(table) == Seq::<(Seq<char>, Node)>::empty(),
{
    toml::map::Map::new()
}

/// `Map::len`: the number of entries.
#[verifier::external_body]
pub(crate) fn table_len(table: &toml::map::Map<String, toml::Value>) -> (n: usize)
    ensures
        n == table_entries(*table).len(),
{
    table.len()
}

/// `Map::get`: the value of the entry with the given key, if there is one.
#[verifier::external_body]
pub(crate) fn table_get<'a>(
    table: &'a toml::map::Map<String, toml::Value>,
    key: &str,
) -> (r: Option<&'a toml::Value>)
    ensures
        ({
            let entries = table_entries(*table);
            let i = key_index(entries, key@);
            match r {
                Some(value) => i < entries.len() && node_of(*value) == entries[i].1,
                None => i == entries.len(),
            }
        }),
{
    table.get(key)
}

/// `Map::insert`: binds `key` to `value`. An entry that has the key keeps
/// its place in the order and gets the value; otherwise the new entry comes
/// last.
#[verifier::external_body]
pub(crate) fn table_insert(
    table: &mut toml::map::Map<String, toml::Value>,
    key: &str,
    value: toml::Value,
)
    ensures
        table_entries(*final(table)) == upsert(table_entries(*old(table)), key@, node_of(value)),
{
    table.insert(key.to_owned(), value);
}

/// `Value::as_table`: a copy of the table that `value` holds, or `None` when
/// it is of another kind.
#[verifier::external_body]
pub(crate) fn as_table(value: &toml::Value) -> (r: Option<toml::map::Map<String, toml::Value>>)
    ensures
        match r {
            Some(table) => node_of(*value) == Node::Table(table_entries(table)),
            None => !(node_of(*value) is Table),
        },
{
    value.as_table().cloned()
}

/// `Value::String`: the string value that holds `text`.
#[verifier::external_body]
pub(crate) fn string_value(text: &str) -> (value: toml::Value)
    ensures
        node_of(value) == Node::Text(text@),
{
    toml::Value::String(text.to_owned())
}

/// `Value::Table`: the table value that holds the table's entries.
#[verifier::external_body]
pub(crate) fn table_as_value(table: toml::map::Map<String, toml::Value>) -> (value: toml::Value)
    ensures
        node_of(value) == Node::Table(table_entries(table)),
{
    toml::Value::Table(table)
}

} // verus!
