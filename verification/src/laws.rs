//! Laws of the merge: what holds of every document and every list of entries.
use crate::args::gathered;
use crate::collect::{
    arranged, collected, distinct_keys, entry_keys, held_all, held_of, is_first_repeat,
    is_sorted_listing, lemma_held_prefix,
};
use crate::document::{
    key_index, lemma_key_index, lemma_key_index_is, toml_parse, upsert, Entries, Node,
};
use crate::error::{MergeError, MergeErrorView};
use crate::marker::{
    can_place, header_line, lemma_first_line, marked_lines, END, HEADER, START,
};
use crate::merge::{merge_into, merge_spec, merged_root, merged_section, section_of, SECTION};
use crate::order::{law_sort_order_unique, sorts};
use crate::source::{is_file_order, pair_views, path_keys, paths_of, SourceView};
use crate::text::{lemma_lines_hold_no_line_feed, lines_of};
use vstd::prelude::*;

verus! {

/// No two entries have the same key. Every table is like that.
pub open spec fn unique_keys<V>(s: Seq<(Seq<char>, V)>) -> bool {
    forall|i: int, j: int| 0 <= i < j < s.len() ==> (#[trigger] s[i]).0 != (#[trigger] s[j]).0
}

/// Some entry has the key.
pub open spec fn has_key<V>(s: Seq<(Seq<char>, V)>, key: Seq<char>) -> bool {
    key_index(s, key) < s.len()
}

/// The value that the last entry with the given key binds, if any has it.
pub open spec fn last_binding(entries: Seq<(Seq<char>, Seq<char>)>, key: Seq<char>) -> Option<
    Seq<char>,
>
    decreases entries.len(),
{
    if entries.len() == 0 {
        None
    } else if entries.last().0 == key {
        Some(entries.last().1)
    } else {
        last_binding(entries.drop_last(), key)
    }
}

/// The entries as string values of a table.
pub open spec fn as_texts(entries: Seq<(Seq<char>, Seq<char>)>) -> Entries {
    Seq::new(entries.len(), |i: int| (entries[i].0, Node::Text(entries[i].1)))
}

/// Among unique keys, the place that holds a key is its `key_index`.
pub proof fn lemma_key_at<V>(s: Seq<(Seq<char>, V)>, key: Seq<char>, i: int)
    requires
        0 <= i < s.len(),
        s[i].0 == key,
    ensures
        has_key(s, key),
        key_index(s, key) <= i,
        unique_keys(s) ==> key_index(s, key) == i,
{
    lemma_key_index(s, key);
    let j = key_index(s, key);
    if j > i {
        assert(s[i].0 != key);
    }
    if unique_keys(s) && j < i {
        assert(s[j].0 != s[i].0);
    }
}

/// Binding a key changes the entry that holds it, or adds one at the end,
/// and leaves every other entry as it is.
pub proof fn lemma_upsert<V>(s: Seq<(Seq<char>, V)>, key: Seq<char>, value: V)
    requires
        unique_keys(s),
    ensures
        ({
            let u = upsert(s, key, value);
            let i = key_index(s, key);
            &&& 0 <= i <= s.len()
            &&& u.len() == if i < s.len() {
                s.len()
            } else {
                s.len() + 1
            }
            &&& u[i] == (key, value)
            &&& key_index(u, key) == i
            &&& forall|k: int| 0 <= k < s.len() && k != i ==> #[trigger] u[k] == s[k]
            &&& forall|k: int| 0 <= k < s.len() ==> (#[trigger] u[k]).0 == s[k].0
            &&& unique_keys(u)
        }),
{
    lemma_key_index(s, key);
    let u = upsert(s, key, value);
    let i = key_index(s, key);
    assert forall|a: int, b: int| 0 <= a < b < u.len() implies (#[trigger] u[a]).0 != (
    #[trigger] u[b]).0 by {
        if b < s.len() {
            assert(s[a].0 != s[b].0);
        } else {
            assert(s[a].0 != key);
        }
    }
    assert forall|k: int| 0 <= k < i implies (#[trigger] u[k]).0 != key by {
        assert(s[k].0 != key);
    }
    lemma_key_index_is(u, key, i);
}

/// What a section holds after entries were bound in it: the keys it had stay
/// where they were, a key that the entries bind holds the last value bound to
/// it, and every other key holds what it held.
pub proof fn lemma_merged_section(section: Entries, entries: Seq<(Seq<char>, Seq<char>)>)
    requires
        unique_keys(section),
    ensures
        ({
            let m = merged_section(section, entries);
            &&& unique_keys(m)
            &&& m.len() >= section.len()
            &&& forall|i: int| 0 <= i < section.len() ==> (#[trigger] m[i]).0 == section[i].0
            &&& forall|i: int|
                0 <= i < m.len() ==> match last_binding(entries, (#[trigger] m[i]).0) {
                    Some(value) => m[i].1 == Node::Text(value),
                    None => i < section.len() && m[i].1 == section[i].1,
                }
            &&& forall|key: Seq<char>| #[trigger]
                last_binding(entries, key) is Some ==> has_key(m, key)
        }),
    decreases entries.len(),
{
    let m = merged_section(section, entries);
    if entries.len() == 0 {
    } else {
        let rest = entries.drop_last();
        let key = entries.last().0;
        let value = Node::Text(entries.last().1);
        let before = merged_section(section, rest);
        lemma_merged_section(section, rest);
        lemma_upsert(before, key, value);
        let at = key_index(before, key);
        assert forall|i: int| 0 <= i < m.len() implies match last_binding(
            entries,
            (#[trigger] m[i]).0,
        ) {
            Some(value) => m[i].1 == Node::Text(value),
            None => i < section.len() && m[i].1 == section[i].1,
        } by {
            if i != at {
                assert(m[i] == before[i]);
                if before[i].0 == key {
                    lemma_key_at(before, key, i);
                }
            }
        }
        assert forall|k: Seq<char>| #[trigger] last_binding(entries, k) is Some implies has_key(
            m,
            k,
        ) by {
            if k == key {
                lemma_key_at(m, key, at);
            } else {
                assert(last_binding(rest, k) is Some);
                assert(has_key(before, k));
                lemma_key_index(before, k);
                let i = key_index(before, k);
                assert(m[i].0 == before[i].0);
                lemma_key_at(m, k, i);
            }
        }
    }
}

/// Merging the same entries a second time changes nothing in the section.
pub proof fn law_section_idempotent(section: Entries, entries: Seq<(Seq<char>, Seq<char>)>)
    requires
        unique_keys(section),
    ensures
        merged_section(merged_section(section, entries), entries) == merged_section(
            section,
            entries,
        ),
{
    let m = merged_section(section, entries);
    lemma_merged_section(section, entries);
    let again = merged_section(m, entries);
    lemma_merged_section(m, entries);
    if again.len() > m.len() {
        let i = m.len() as int;
        let key = again[i].0;
        assert(last_binding(entries, key) is Some);
        assert(has_key(m, key));
        lemma_key_index(m, key);
        let at = key_index(m, key);
        assert(again[at].0 == m[at].0);
        assert(again[at].0 != again[i].0);
    }
    assert forall|i: int| 0 <= i < m.len() implies again[i] == m[i] by {
        assert(again[i].0 == m[i].0);
    }
    assert(again =~= m);
}

/// A key that the section holds and the entries bind keeps its place, holds
/// the last value bound to it, and occurs once.
pub proof fn law_overwrite_in_place(
    section: Entries,
    entries: Seq<(Seq<char>, Seq<char>)>,
    i: int,
    value: Seq<char>,
)
    requires
        unique_keys(section),
        0 <= i < section.len(),
        last_binding(entries, section[i].0) == Some(value),
    ensures
        ({
            let m = merged_section(section, entries);
            &&& i < m.len()
            &&& m[i] == (section[i].0, Node::Text(value))
            &&& forall|k: int| 0 <= k < m.len() && k != i ==> (#[trigger] m[k]).0 != section[i].0
        }),
{
    let m = merged_section(section, entries);
    lemma_merged_section(section, entries);
    assert(m[i].0 == section[i].0);
    assert forall|k: int| 0 <= k < m.len() && k != i implies (#[trigger] m[k]).0
        != section[i].0 by {
        if k < i {
            assert(m[k].0 != m[i].0);
        } else {
            assert(m[i].0 != m[k].0);
        }
    }
}

/// A key that the entries do not bind holds in the merged section what it
/// held, at its place.
pub proof fn law_unbound_key_kept(section: Entries, entries: Seq<(Seq<char>, Seq<char>)>, i: int)
    requires
        unique_keys(section),
        0 <= i < section.len(),
        last_binding(entries, section[i].0) is None,
    ensures
        i < merged_section(section, entries).len(),
        merged_section(section, entries)[i] == section[i],
{
    let m = merged_section(section, entries);
    lemma_merged_section(section, entries);
    assert(m[i].0 == section[i].0);
}

/// Entries with keys that differ, merged into an empty section, give a
/// section that holds exactly those entries, in their order.
pub proof fn law_fresh_section(entries: Seq<(Seq<char>, Seq<char>)>)
    requires
        unique_keys(entries),
    ensures
        merged_section(Seq::empty(), entries) == as_texts(entries),
    decreases entries.len(),
{
    if entries.len() == 0 {
        assert(merged_section(Seq::empty(), entries) =~= as_texts(entries));
    } else {
        let rest = entries.drop_last();
        let key = entries.last().0;
        assert forall|i: int, j: int| 0 <= i < j < rest.len() implies (#[trigger] rest[i]).0 != (
        #[trigger] rest[j]).0 by {
            assert(entries[i].0 != entries[j].0);
        }
        law_fresh_section(rest);
        let before = as_texts(rest);
        assert forall|k: int| 0 <= k < before.len() implies (#[trigger] before[k]).0 != key by {
            assert(entries[k].0 != entries[entries.len() - 1].0);
        }
        lemma_key_index_is(before, key, before.len() as int);
        assert(merged_section(Seq::empty(), entries) =~= as_texts(entries));
    }
}

/// A document without the section gets it as its last entry; what the
/// document held stays as it was, in the same order.
pub proof fn law_section_appended(root: Entries, entries: Seq<(Seq<char>, Seq<char>)>)
    requires
        !has_key(root, SECTION@),
    ensures
        section_of(root) == Some(Seq::<(Seq<char>, Node)>::empty()),
        merged_root(root, entries) == root.push(
            (SECTION@, Node::Table(merged_section(Seq::empty(), entries))),
        ),
{
    lemma_key_index(root, SECTION@);
}

/// A document that has the section keeps it at its place; every other entry
/// of the document stays as it was.
pub proof fn law_section_in_place(root: Entries, entries: Seq<(Seq<char>, Seq<char>)>)
    requires
        has_key(root, SECTION@),
        section_of(root) is Some,
    ensures
        ({
            let i = key_index(root, SECTION@);
            merged_root(root, entries) == root.update(
                i,
                (SECTION@, Node::Table(merged_section(section_of(root)->0, entries))),
            )
        }),
{
    lemma_key_index(root, SECTION@);
}

/// Collecting from files that share no key and merging into an empty
/// document gives a document whose only entry is the section, and the section
/// holds exactly the keys of all files, each with its flattened value.
pub proof fn law_collect_then_merge(files: Seq<SourceView>, out: Seq<(Seq<char>, Seq<char>)>)
    requires
        distinct_keys(held_all(files)),
        is_sorted_listing(out, held_all(files)),
    ensures
        ({
            let held = held_all(files);
            let section = merged_section(Seq::empty(), out);
            &&& merged_root(Seq::empty(), out) == seq![(SECTION@, Node::Table(section))]
            &&& section == as_texts(out)
            &&& section.len() == held.len()
            &&& forall|i: int|
                0 <= i < held.len() ==> section.contains(
                    ((#[trigger] held[i]).key, Node::Text(held[i].value)),
                )
            &&& forall|j: int|
                0 <= j < section.len() ==> exists|i: int|
                    0 <= i < held.len() && #[trigger] section[j] == (
                        (#[trigger] held[i]).key,
                        Node::Text(held[i].value),
                    )
        }),
{
    let held = held_all(files);
    let perm = choose|perm: Seq<usize>| #[trigger]
        sorts(perm, entry_keys(held)) && out == arranged(held, perm);
    assert forall|a: int, b: int| 0 <= a < b < out.len() implies (#[trigger] out[a]).0 != (
    #[trigger] out[b]).0 by {
        let x = perm[a] as int;
        let y = perm[b] as int;
        assert(x != y);
        if x < y {
            assert(held[x].key != held[y].key);
        } else {
            assert(held[y].key != held[x].key);
        }
    }
    law_fresh_section(out);
    let section = merged_section(Seq::empty(), out);
    assert forall|i: int| 0 <= i < held.len() implies section.contains(
        ((#[trigger] held[i]).key, Node::Text(held[i].value)),
    ) by {
        assert(perm.contains(i as usize));
        let a = choose|a: int| 0 <= a < perm.len() && perm[a] == i as usize;
        assert(section[a] == (held[i].key, Node::Text(held[i].value)));
    }
    assert forall|j: int| 0 <= j < section.len() implies exists|i: int|
        0 <= i < held.len() && #[trigger] section[j] == (
            (#[trigger] held[i]).key,
            Node::Text(held[i].value),
        ) by {
        let i = perm[j] as int;
        assert(section[j] == (held[i].key, Node::Text(held[i].value)));
    }
    lemma_key_index(Seq::<(Seq<char>, Node)>::empty(), SECTION@);
    assert(merged_root(Seq::empty(), out) =~= seq![(SECTION@, Node::Table(section))]);
}

/// Merging the same entries into the merged document gives the same document.
pub proof fn law_document_idempotent(root: Entries, entries: Seq<(Seq<char>, Seq<char>)>)
    requires
        unique_keys(root),
        section_of(root) is Some,
        unique_keys(section_of(root)->0),
    ensures
        section_of(merged_root(root, entries)) == Some(
            merged_section(section_of(root)->0, entries),
        ),
        merged_root(merged_root(root, entries), entries) == merged_root(root, entries),
        key_index(merged_root(root, entries), SECTION@) == key_index(root, SECTION@),
{
    let section = section_of(root)->0;
    let m = merged_section(section, entries);
    let once = merged_root(root, entries);
    lemma_upsert(root, SECTION@, Node::Table(m));
    law_section_idempotent(section, entries);
    let i = key_index(root, SECTION@);
    assert(once[i] == (SECTION@, Node::Table(m)));
    assert(section_of(once) == Some(m));
    assert(merged_root(once, entries) =~= once);
}

/// Running the merge again on what it wrote reproduces it, character for
/// character, whenever the text that was written reads back as the merged
/// document.
pub proof fn law_rerun_reproduces(
    root: Entries,
    entries: Seq<(Seq<char>, Seq<char>)>,
    written: Seq<char>,
)
    requires
        unique_keys(root),
        section_of(root) is Some,
        unique_keys(section_of(root)->0),
        merge_into(entries, root) == Ok::<Seq<char>, MergeErrorView>(written),
    ensures
        written.len() > 0 && toml_parse(written) == Ok::<Entries, Seq<char>>(
            merged_root(root, entries),
        ) ==> merge_spec(entries, written) == Ok::<Seq<char>, MergeErrorView>(written),
{
    law_document_idempotent(root, entries);
    let once = merged_root(root, entries);
    let section = merged_section(section_of(root)->0, entries);
    law_section_idempotent(section_of(root)->0, entries);
    assert(section_of(once) == Some(section));
    assert(merged_section(section, entries) == section);
    assert(merged_root(once, entries) == once);
    assert(merge_into(entries, once) == merge_into(entries, root));
}

/// Running the merge on an empty document and then again on its own output
/// gives that output again, whenever the output reads back as the merged
/// document.
pub proof fn law_rerun_on_own_output(entries: Seq<(Seq<char>, Seq<char>)>, written: Seq<char>)
    requires
        merge_spec(entries, Seq::empty()) == Ok::<Seq<char>, MergeErrorView>(written),
    ensures
        written.len() > 0 && toml_parse(written) == Ok::<Entries, Seq<char>>(
            merged_root(Seq::empty(), entries),
        ) ==> merge_spec(entries, written) == Ok::<Seq<char>, MergeErrorView>(written),
{
    let root = Seq::<(Seq<char>, Node)>::empty();
    lemma_key_index(root, SECTION@);
    law_rerun_reproduces(root, entries, written);
}

/// What collecting comes to is fixed by the files: two results of which
/// `collected` holds are the same list, or the same error.
pub proof fn law_collected_is_fixed(
    r: Result<Vec<(String, String)>, MergeError>,
    t: Result<Vec<(String, String)>, MergeError>,
    files: Seq<SourceView>,
)
    requires
        collected(r, files),
        collected(t, files),
    ensures
        r is Ok <==> t is Ok,
        r is Ok ==> pair_views(r->Ok_0@) == pair_views(t->Ok_0@),
        r is Err ==> r->Err_0@ == t->Err_0@,
{
    let s = held_all(files);
    if r is Ok && t is Ok {
        let p = choose|perm: Seq<usize>| #[trigger]
            sorts(perm, entry_keys(s)) && pair_views(r->Ok_0@) == arranged(s, perm);
        let q = choose|perm: Seq<usize>| #[trigger]
            sorts(perm, entry_keys(s)) && pair_views(t->Ok_0@) == arranged(s, perm);
        law_sort_order_unique(p, q, entry_keys(s));
    } else if r is Err {
        let (i, j) = choose|i: int, j: int|
            {
                &&& #[trigger] is_first_repeat(s, i, j)
                &&& r->Err_0@ == MergeErrorView::DuplicateKey(s[j].key, s[j].path, s[i].path)
            };
        assert(s[i].key == s[j].key);
        if t is Err {
            let (k, l) = choose|k: int, l: int|
                {
                    &&& #[trigger] is_first_repeat(s, k, l)
                    &&& t->Err_0@ == MergeErrorView::DuplicateKey(s[l].key, s[l].path, s[k].path)
                };
            if j < l {
                assert(s.take(l)[i].key != s.take(l)[j].key);
            } else if l < j {
                assert(s.take(j)[k].key != s.take(j)[l].key);
            } else if i < k {
                assert(s.take(j)[i].key != s.take(j)[k].key);
            } else if k < i {
                assert(s.take(j)[k].key != s.take(j)[i].key);
            }
        }
    } else {
        let (k, l) = choose|k: int, l: int|
            {
                &&& #[trigger] is_first_repeat(s, k, l)
                &&& t->Err_0@ == MergeErrorView::DuplicateKey(s[l].key, s[l].path, s[k].path)
            };
        assert(s[k].key == s[l].key);
    }
}

/// The markers bracket the section. Where they are placed, the opening
/// marker stands directly before the first line that is the section's header,
/// the closing marker directly after the `len` lines that follow the header,
/// and so the lines between the two are the header and those `len` lines.
/// Every other line of the text stands outside the pair, before the opening
/// marker or after the closing one, in the order it had. Each marker occurs
/// once.
pub proof fn law_markers_bracket_section(text: Seq<char>, len: int)
    requires
        can_place(text, header_line(text), len),
    ensures
        ({
            let lines = lines_of(text);
            let h = header_line(text);
            let m = marked_lines(text, h, len);
            &&& 0 <= h < lines.len()
            &&& m.len() == lines.len() + 2
            &&& lines[h] == HEADER@
            &&& forall|k: int| 0 <= k < h ==> #[trigger] m[k] == lines[k] && lines[k] != HEADER@
            &&& m[h] == START@
            &&& m[h + 1] == HEADER@
            &&& forall|k: int| h < k < h + len + 2 ==> #[trigger] m[k] == lines[k - 1]
            &&& m[h + len + 2] == END@
            &&& forall|k: int| h + len + 2 < k < m.len() ==> #[trigger] m[k] == lines[k - 2]
            &&& forall|k: int| 0 <= k < m.len() && #[trigger] m[k] == START@ ==> k == h
            &&& forall|k: int| 0 <= k < m.len() && #[trigger] m[k] == END@ ==> k == h + len + 2
        }),
{
    let lines = lines_of(text);
    let h = header_line(text);
    let m = marked_lines(text, h, len);
    lemma_first_line(lines, HEADER@);
    lemma_lines_hold_no_line_feed(text);
    reveal_strlit("# GENERATED BY ENV_TO_CONFIG_TOML START\n");
    reveal_strlit("\n# GENERATED BY ENV_TO_CONFIG_TOML END\n");
    assert(START@[39] == '\n');
    assert(END@[0] == '\n');
    assert(START@.len() != END@.len());
    assert forall|k: int| 0 <= k < m.len() && k != h && k != h + len + 2 implies !(
    #[trigger] m[k]).contains('\n') by {
        if k < h {
            assert(m[k] == lines[k]);
        } else if k < h + len + 2 {
            assert(m[k] == lines[k - 1]);
        } else {
            assert(m[k] == lines[k - 2]);
        }
    }
}

/// The file holds a pair with the given key.
pub open spec fn defines(file: SourceView, key: Seq<char>) -> bool {
    exists|p: int| 0 <= p < file.pairs.len() && (#[trigger] file.pairs[p]).0 == key
}

/// Where the entries of file `f` start in what the files contribute.
pub open spec fn offset(files: Seq<SourceView>, f: int) -> nat {
    held_all(files.take(f)).len()
}

/// The entries of file `f` stand together, from `offset(files, f)` on, and
/// the entries of the next file start after them.
pub proof fn lemma_offset(files: Seq<SourceView>, f: int)
    requires
        0 <= f < files.len(),
    ensures
        offset(files, f + 1) == offset(files, f) + files[f].pairs.len(),
        offset(files, f + 1) <= held_all(files).len(),
        forall|p: int|
            0 <= p < files[f].pairs.len() ==> #[trigger] held_all(files)[offset(files, f) + p]
                == held_of(files[f])[p],
{
    let upto = files.take(f + 1);
    assert(upto.drop_last() == files.take(f));
    assert(upto.last() == files[f]);
    lemma_held_prefix(files, f + 1);
    let whole = held_all(files);
    let part = held_all(upto);
    assert forall|p: int| 0 <= p < files[f].pairs.len() implies #[trigger] whole[offset(files, f)
        + p] == held_of(files[f])[p] by {
        let i = offset(files, f) + p;
        assert(whole.take(part.len() as int)[i] == part[i]);
    }
}

/// Later files start later.
pub proof fn lemma_offset_monotone(files: Seq<SourceView>, f: int, g: int)
    requires
        0 <= f <= g <= files.len(),
    ensures
        offset(files, f) <= offset(files, g),
{
    lemma_held_prefix(files.take(g), f);
    assert(files.take(g).take(f) == files.take(f));
}

/// Every entry that the files contribute comes from one of them.
pub proof fn lemma_origin(files: Seq<SourceView>, i: int) -> (f: int)
    requires
        0 <= i < held_all(files).len(),
    ensures
        0 <= f < files.len(),
        offset(files, f) <= i < offset(files, f + 1),
        held_all(files)[i] == held_of(files[f])[i - offset(files, f)],
    decreases files.len(),
{
    let last = files.len() - 1;
    assert(files.take(files.len() as int) == files);
    assert(files.take(last) == files.drop_last());
    lemma_offset(files, last);
    if i >= offset(files, last) {
        last
    } else {
        let rest = files.drop_last();
        let f = lemma_origin(rest, i);
        assert(rest.take(f) == files.take(f));
        assert(rest.take(f + 1) == files.take(f + 1));
        f
    }
}

/// Files that share a key cannot be collected: collecting fails with
/// `DuplicateKey`, which names a key that two files define, then the file
/// that was met second and the file that was met first.
pub proof fn law_shared_key_fails(
    r: Result<Vec<(String, String)>, MergeError>,
    files: Seq<SourceView>,
    a: int,
    b: int,
    key: Seq<char>,
)
    requires
        collected(r, files),
        forall|f: int| 0 <= f < files.len() ==> unique_keys(#[trigger] files[f].pairs),
        0 <= a < b < files.len(),
        defines(files[a], key),
        defines(files[b], key),
    ensures
        r is Err,
        exists|first: int, second: int, shared: Seq<char>|
            {
                &&& 0 <= first < second < files.len()
                &&& #[trigger] defines(files[first], shared)
                &&& #[trigger] defines(files[second], shared)
                &&& r->Err_0@ == MergeErrorView::DuplicateKey(
                    shared,
                    files[second].path,
                    files[first].path,
                )
            },
{
    let held = held_all(files);
    let pa = choose|p: int|
        0 <= p < files[a].pairs.len() && (#[trigger] files[a].pairs[p]).0 == key;
    let pb = choose|p: int|
        0 <= p < files[b].pairs.len() && (#[trigger] files[b].pairs[p]).0 == key;
    lemma_offset(files, a);
    lemma_offset(files, b);
    lemma_offset_monotone(files, a + 1, b);
    let ia = offset(files, a) + pa;
    let ib = offset(files, b) + pb;
    assert(held[ia] == held_of(files[a])[pa]);
    assert(held[ib] == held_of(files[b])[pb]);
    assert(held[ia].key == held[ib].key);
    assert(!distinct_keys(held));
    let e = r->Err_0;
    let (i, j) = choose|i: int, j: int|
        {
            &&& #[trigger] is_first_repeat(held, i, j)
            &&& e@ == MergeErrorView::DuplicateKey(held[j].key, held[j].path, held[i].path)
        };
    let first = lemma_origin(files, i);
    let second = lemma_origin(files, j);
    let pi = i - offset(files, first);
    let pj = j - offset(files, second);
    lemma_offset(files, first);
    lemma_offset(files, second);
    assert(held[i] == held_of(files[first])[pi]);
    assert(held[j] == held_of(files[second])[pj]);
    assert(files[first].pairs[pi].0 == held[i].key);
    assert(files[second].pairs[pj].0 == held[j].key);
    if first > second {
        lemma_offset_monotone(files, second + 1, first);
    }
    if first == second {
        assert(files[first].pairs[pi].0 != files[first].pairs[pj].0);
    }
    assert(defines(files[first], held[j].key));
    assert(defines(files[second], held[j].key));
}

/// The order in which files are met is the case-insensitive order of their
/// paths: when two of the matched files share a key, collecting for the
/// pattern fails with `DuplicateKey`, which names a shared key, then the file
/// that comes second in that order and the file that comes first.
pub proof fn law_shared_key_fails_in_path_order(
    r: Result<Vec<(String, String)>, MergeError>,
    pattern: Seq<char>,
    files: Seq<SourceView>,
    a: int,
    b: int,
    key: Seq<char>,
)
    requires
        gathered(r, pattern, files),
        forall|f: int| 0 <= f < files.len() ==> unique_keys(#[trigger] files[f].pairs),
        0 <= a < files.len(),
        0 <= b < files.len(),
        a != b,
        defines(files[a], key),
        defines(files[b], key),
    ensures
        r is Err,
        exists|ordered: Seq<SourceView>, first: int, second: int, shared: Seq<char>|
            {
                &&& #[trigger] is_file_order(ordered, files)
                &&& 0 <= first < second < ordered.len()
                &&& #[trigger] defines(ordered[first], shared)
                &&& #[trigger] defines(ordered[second], shared)
                &&& r->Err_0@ == MergeErrorView::DuplicateKey(
                    shared,
                    ordered[second].path,
                    ordered[first].path,
                )
            },
{
    let ordered = choose|ordered: Seq<SourceView>| #[trigger]
        is_file_order(ordered, files) && collected(r, ordered);
    let perm = choose|perm: Seq<usize>| #[trigger]
        sorts(perm, path_keys(paths_of(files))) && ordered == Seq::new(
            files.len(),
            |i: int| files[perm[i] as int],
        );
    assert(perm.contains(a as usize));
    assert(perm.contains(b as usize));
    let sa = choose|x: int| 0 <= x < perm.len() && perm[x] == a as usize;
    let sb = choose|x: int| 0 <= x < perm.len() && perm[x] == b as usize;
    assert(ordered[sa] == files[a]);
    assert(ordered[sb] == files[b]);
    assert forall|f: int| 0 <= f < ordered.len() implies unique_keys(
        #[trigger] ordered[f].pairs,
    ) by {
        assert(ordered[f] == files[perm[f] as int]);
    }
    if sa < sb {
        law_shared_key_fails(r, ordered, sa, sb, key);
    } else {
        law_shared_key_fails(r, ordered, sb, sa, key);
    }
}

} // verus!
