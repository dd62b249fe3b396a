//! Merge of collected entries into an existing document, under the section
//! reserved for them.
use crate::document::{
    as_table, key_index, new_table, parse_table, render_table, string_value, table_as_value,
    table_entries, table_get, table_insert, table_len, toml_parse, toml_pretty, upsert, Entries,
    Node,
};
use crate::error::{MergeError, MergeErrorView};
use crate::marker::{can_place, header_line, mark_section, place_markers};
use crate::source::pair_views;
use vstd::prelude::*;
use vstd::string::StrSliceExecFns;
use vstd::utf8::encode_utf8;

verus! {

/// Name of the section that holds the merged entries.
pub const SECTION: &'static str = "env";

/// The section after each entry, in order, is bound in it as a string value.
pub open spec fn merged_section(section: Entries, entries: Seq<(Seq<char>, Seq<char>)>) -> Entries
    decreases entries.len(),
{
    if entries.len() == 0 {
        section
    } else {
        upsert(
            merged_section(section, entries.drop_last()),
            entries.last().0,
            Node::Text(entries.last().1),
        )
    }
}

/// The entries of the section that a root table holds: none when the root
/// has no section, `None` when the section's name is bound to a value that
/// is not a table.
pub open spec fn section_of(root: Entries) -> Option<Entries> {
    let i = key_index(root, SECTION@);
    if i < root.len() {
        match root[i].1 {
            Node::Table(section) => Some(section),
            _ => None,
        }
    } else {
        Some(Seq::empty())
    }
}

/// The root table after the merge: the section, with the entries bound in
/// it, stands where it stood, or comes last when the root had none.
pub open spec fn merged_root(root: Entries, entries: Seq<(Seq<char>, Seq<char>)>) -> Entries {
    upsert(root, SECTION@, Node::Table(merged_section(section_of(root)->0, entries)))
}

/// The written form of a root table whose section holds `len` entries: its
/// text with the opening marker before the line that heads the section and
/// the closing marker after the `len` lines that follow the header.
pub open spec fn add_prefix_spec(root: Entries, len: int) -> Result<Seq<char>, MergeErrorView> {
    match toml_pretty(root) {
        Err(message) => Err(MergeErrorView::SerializeError(message)),
        Ok(text) => {
            let index = header_line(text);
            if can_place(text, index, len) {
                Ok(place_markers(text, index, len))
            } else {
                Err(MergeErrorView::MarkerOutOfRange)
            }
        },
    }
}

/// What merging the entries into a root table comes to.
pub open spec fn merge_into(entries: Seq<(Seq<char>, Seq<char>)>, root: Entries) -> Result<
    Seq<char>,
    MergeErrorView,
> {
    match section_of(root) {
        None => Err(MergeErrorView::SectionNotTable),
        Some(section) => add_prefix_spec(
            merged_root(root, entries),
            merged_section(section, entries).len() as int,
        ),
    }
}

/// What merging the entries into a document text comes to. The empty text is
/// the empty document.
pub open spec fn merge_spec(entries: Seq<(Seq<char>, Seq<char>)>, text: Seq<char>) -> Result<
    Seq<char>,
    MergeErrorView,
> {
    if text.len() == 0 {
        merge_into(entries, Seq::empty())
    } else {
        match toml_parse(text) {
            Err(message) => Err(MergeErrorView::ParseError(message)),
            Ok(root) => merge_into(entries, root),
        }
    }
}

/// The result holds the bytes of the expected text, or the expected error.
pub open spec fn is_outcome(
    r: Result<Vec<u8>, MergeError>,
    expected: Result<Seq<char>, MergeErrorView>,
) -> bool {
    match (r, expected) {
        (Ok(bytes), Ok(text)) => bytes@ == encode_utf8(text),
        (Err(e), Err(v)) => e@ == v,
        _ => false,
    }
}

/// Writes the root table as text and brackets its section, which holds `len`
/// entries, with the markers.
pub fn add_prefix(root: &toml::map::Map<String, toml::Value>, len: usize) -> (r: Result<
    String,
    MergeError,
>)
    ensures
        match (r, add_prefix_spec(table_entries(*root), len as int)) {
            (Ok(text), Ok(expected)) => text@ == expected,
            (Err(e), Err(v)) => e@ == v,
            _ => false,
        },
{
    match render_table(root) {
        Err(message) => Err(MergeError::SerializeError(message)),
        Ok(text) => match mark_section(text.as_str(), len) {
            Some(marked) => Ok(marked),
            None => Err(MergeError::MarkerOutOfRange),
        },
    }
}

/// Merges the entries into a root table and writes the result.
pub fn merge_table(env_vars: &[(String, String)], root: toml::map::Map<String, toml::Value>) -> (r:
    Result<Vec<u8>, MergeError>)
    ensures
        is_outcome(r, merge_into(pair_views(env_vars@), table_entries(root))),
{
    let ghost entries = pair_views(env_vars@);
    let ghost start_root = table_entries(root);
    let mut root = root;
    let mut section = match table_get(&root, SECTION) {
        None => new_table(),
        Some(value) => match as_table(value) {
            Some(table) => table,
            None => {
                return Err(MergeError::SectionNotTable);
            },
        },
    };
    let ghost start = table_entries(section);
    assert(section_of(start_root) == Some(start));
    let mut i: usize = 0;
    assert(entries.take(0) =~= Seq::<(Seq<char>, Seq<char>)>::empty());
    while i < env_vars.len()
        invariant
            i <= env_vars@.len(),
            entries == pair_views(env_vars@),
            table_entries(section) == merged_section(start, entries.take(i as int)),
        decreases env_vars@.len() - i,
    {
        let ghost next = entries.take(i + 1);
        assert(next.drop_last() == entries.take(i as int));
        assert(next.last() == entries[i as int]);
        let value = string_value(env_vars[i].1.as_str());
        table_insert(&mut section, env_vars[i].0.as_str(), value);
        i += 1;
    }
    assert(entries.take(env_vars@.len() as int) == entries);
    let len = table_len(&section);
    let value = table_as_value(section);
    table_insert(&mut root, SECTION, value);
    assert(table_entries(root) == merged_root(start_root, entries));
    match add_prefix(&root, len) {
        Err(e) => Err(e),
        Ok(content) => Ok(content.as_str().as_bytes_vec()),
    }
}

/// Merges the entries into the document that `file_content` holds, under the
/// section reserved for them, and returns the bytes of the new document. The
/// empty text stands for a document that does not exist yet.
pub fn merge_existing_toml(env_vars: &[(String, String)], file_content: &str) -> (r: Result<
    Vec<u8>,
    MergeError,
>)
    ensures
        is_outcome(r, merge_spec(pair_views(env_vars@), file_content@)),
{
    if file_content.is_empty() {
        merge_table(env_vars, new_table())
    } else {
        match parse_table(file_content) {
            Err(message) => Err(MergeError::ParseError(message)),
            Ok(root) => merge_table(env_vars, root),
        }
    }
}

} // verus!
