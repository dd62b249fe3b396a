//! Collection of entries from several files into one ordered list, with
//! detection of keys that two files define.
use crate::error::{MergeError, MergeErrorView};
use crate::flatten::{flatten_spec, flatten_value};
use crate::order::{key_views, lowercase, sort_order, sorts, to_lower, Key};
use crate::source::{pair_views, source_views, SourceFile, SourceView};
use crate::text::chars_of;
use vstd::prelude::*;

verus! {

/// An entry together with the file that defines it.
pub struct Held {
    pub key: Seq<char>,
    pub value: Seq<char>,
    pub path: Seq<char>,
}

/// What one file contributes: its pairs in order, each value flattened.
pub open spec fn held_of(file: SourceView) -> Seq<Held> {
    Seq::new(
        file.pairs.len(),
        |i: int|
            Held { key: file.pairs[i].0, value: flatten_spec(file.pairs[i].1), path: file.path },
    )
}

/// What the files contribute, in the order in which they are met.
pub open spec fn held_all(files: Seq<SourceView>) -> Seq<Held>
    decreases files.len(),
{
    if files.len() == 0 {
        Seq::empty()
    } else {
        held_all(files.drop_last()) + held_of(files.last())
    }
}

/// No two of the entries have the same key.
pub open spec fn distinct_keys(s: Seq<Held>) -> bool {
    forall|i: int, j: int| 0 <= i < j < s.len() ==> (#[trigger] s[i]).key != (#[trigger] s[j]).key
}

/// Entry `j` is the first that repeats a key, and entry `i` is the one that
/// defined that key.
pub open spec fn is_first_repeat(s: Seq<Held>, i: int, j: int) -> bool {
    &&& 0 <= i < j < s.len()
    &&& s[i].key == s[j].key
    &&& distinct_keys(s.take(j))
}

/// The key by which collected entries are ordered: the lowercase key, then
/// the key itself.
pub open spec fn entry_keys(s: Seq<Held>) -> Seq<Key> {
    Seq::new(s.len(), |i: int| (lowercase(s[i].key), s[i].key))
}

/// The entries of `s` as key/value pairs, taken in the order `perm`.
pub open spec fn arranged(s: Seq<Held>, perm: Seq<usize>) -> Seq<(Seq<char>, Seq<char>)> {
    Seq::new(s.len(), |i: int| (s[perm[i] as int].key, s[perm[i] as int].value))
}

/// `out` holds the key/value pairs of `s`, ordered by lowercase key and,
/// between keys that differ in case only, by the key itself.
pub open spec fn is_sorted_listing(out: Seq<(Seq<char>, Seq<char>)>, s: Seq<Held>) -> bool {
    exists|perm: Seq<usize>| #[trigger] sorts(perm, entry_keys(s)) && out == arranged(s, perm)
}

/// The entries that a vector of (key, value, path) triples holds.
pub open spec fn held_views(entries: Seq<(String, String, String)>) -> Seq<Held> {
    Seq::new(
        entries.len(),
        |i: int| Held { key: entries[i].0@, value: entries[i].1@, path: entries[i].2@ },
    )
}

/// Index of the entry with the given key, or the number of entries.
fn find_key(entries: &Vec<(String, String, String)>, key: &String) -> (i: usize)
    ensures
        i <= entries@.len(),
        i < entries@.len() ==> held_views(entries@)[i as int].key == key@,
        forall|k: int| 0 <= k < i ==> (#[trigger] held_views(entries@)[k]).key != key@,
{
    let mut i: usize = 0;
    while i < entries.len()
        invariant
            i <= entries@.len(),
            forall|k: int| 0 <= k < i ==> (#[trigger] held_views(entries@)[k]).key != key@,
        decreases entries@.len() - i,
    {
        if entries[i].0 == *key {
            return i;
        }
        i += 1;
    }
    i
}

/// The entries accepted so far, each with the file that defined it. No two
/// of them have the same key.
#[derive(Debug)]
pub struct Collector {
    entries: Vec<(String, String, String)>,
}

impl View for Collector {
    type V = Seq<Held>;

    closed spec fn view(&self) -> Seq<Held> {
        held_views(self.entries@)
    }
}

impl Collector {
    #[verifier::type_invariant]
    spec fn keys_are_distinct(self) -> bool {
        distinct_keys(held_views(self.entries@))
    }

    /// A collector that holds nothing.
    pub fn new() -> (c: Collector)
        ensures
            c@ == Seq::<Held>::empty(),
    {
        let c = Collector { entries: Vec::new() };
        assert(c@ =~= Seq::<Held>::empty());
        c
    }

    /// Takes in the pairs of one file, in order, and stops at the first key
    /// that an earlier entry holds already.
    pub fn add(self, file: &SourceFile) -> (r: Result<Collector, MergeError>)
        ensures
            ({
                let all = self@ + held_of(file@);
                match r {
                    Ok(c) => distinct_keys(all) && c@ == all,
                    Err(e) => exists|i: int, j: int|
                        {
                            &&& #[trigger] is_first_repeat(all, i, j)
                            &&& e@ == MergeErrorView::DuplicateKey(
                                all[j].key,
                                all[j].path,
                                all[i].path,
                            )
                        },
                }
            }),
    {
        proof {
            use_type_invariant(&self);
        }
        let ghost start = self@;
        let ghost all = start + held_of(file@);
        let mut entries = self.entries;
        let mut p: usize = 0;
        while p < file.pairs.len()
            invariant
                p <= file.pairs@.len(),
                start == self@,
                all == start + held_of(file@),
                held_views(entries@) == all.take(start.len() + p),
                distinct_keys(held_views(entries@)),
            decreases file.pairs@.len() - p,
        {
            let i = find_key(&entries, &file.pairs[p].0);
            let ghost j = start.len() + p;
            let ghost cur = held_views(entries@);
            assert(all[j] == held_of(file@)[p as int]);
            if i < entries.len() {
                let e = MergeError::DuplicateKey(
                    file.pairs[p].0.clone(),
                    file.path.clone(),
                    entries[i].2.clone(),
                );
                proof {
                    assert(cur[i as int] == all[i as int]);
                    assert(all.take(j as int) == cur);
                    assert(is_first_repeat(all, i as int, j as int));
                    assert(e@ == MergeErrorView::DuplicateKey(
                        all[j as int].key,
                        all[j as int].path,
                        all[i as int].path,
                    ));
                }
                return Err(e);
            }
            let value = flatten_value(file.pairs[p].1.as_str());
            entries.push((file.pairs[p].0.clone(), value, file.path.clone()));
            proof {
                assert(held_views(entries@) =~= cur.push(all[j]));
                assert(held_views(entries@) =~= all.take(j + 1));
                assert forall|a: int, b: int| 0 <= a < b < cur.len() + 1 implies (
                #[trigger] held_views(entries@)[a]).key != (#[trigger] held_views(
                    entries@,
                )[b]).key by {
                    if b < cur.len() {
                        assert(cur[a].key != cur[b].key);
                    } else {
                        assert(cur[a].key != all[j].key);
                    }
                }
            }
            p += 1;
        }
        assert(all.take(all.len() as int) == all);
        Ok(Collector { entries })
    }

    /// The collected key/value pairs, ordered by lowercase key and, between
    /// keys that differ in case only, by the key itself.
    pub fn finish(self) -> (out: Vec<(String, String)>)
        ensures
            is_sorted_listing(pair_views(out@), self@),
    {
        let entries = self.entries;
        let ghost s = held_views(entries@);
        let mut keys: Vec<(Vec<char>, Vec<char>)> = Vec::new();
        let mut k: usize = 0;
        while k < entries.len()
            invariant
                k <= entries@.len(),
                keys@.len() == k,
                forall|a: int|
                    0 <= a < k ==> (#[trigger] keys@[a]).0@ == lowercase(entries@[a].0@)
                        && keys@[a].1@ == entries@[a].0@,
            decreases entries@.len() - k,
        {
            let lower = to_lower(entries[k].0.as_str());
            keys.push((chars_of(lower.as_str()), chars_of(entries[k].0.as_str())));
            k += 1;
        }
        assert(key_views(keys@) =~= entry_keys(s));
        let perm = sort_order(&keys);
        let mut out: Vec<(String, String)> = Vec::new();
        let mut i: usize = 0;
        while i < perm.len()
            invariant
                i <= perm@.len(),
                perm@.len() == entries@.len(),
                forall|a: int| 0 <= a < perm@.len() ==> (#[trigger] perm@[a]) < entries@.len(),
                out@.len() == i,
                forall|a: int|
                    0 <= a < i ==> (#[trigger] out@[a]).0@ == entries@[perm@[a] as int].0@
                        && out@[a].1@ == entries@[perm@[a] as int].1@,
            decreases perm@.len() - i,
        {
            let entry = &entries[perm[i]];
            out.push((entry.0.clone(), entry.1.clone()));
            i += 1;
        }
        assert(pair_views(out@) =~= arranged(s, perm@));
        out
    }
}

/// What collecting from `files`, met in the given order, comes to: the sorted
/// listing when no key is defined twice, and otherwise the error that names
/// the first repeated key, the file that repeats it and the file that
/// defined it.
pub open spec fn collected(
    r: Result<Vec<(String, String)>, MergeError>,
    files: Seq<SourceView>,
) -> bool {
    let s = held_all(files);
    match r {
        Ok(out) => distinct_keys(s) && is_sorted_listing(pair_views(out@), s),
        Err(e) => exists|i: int, j: int|
            {
                &&& #[trigger] is_first_repeat(s, i, j)
                &&& e@ == MergeErrorView::DuplicateKey(s[j].key, s[j].path, s[i].path)
            },
    }
}

/// What the first `n` files contribute is the start of what all contribute.
pub proof fn lemma_held_prefix(files: Seq<SourceView>, n: int)
    requires
        0 <= n <= files.len(),
    ensures
        held_all(files.take(n)).len() <= held_all(files).len(),
        held_all(files).take(held_all(files.take(n)).len() as int) == held_all(files.take(n)),
    decreases files.len(),
{
    if n == files.len() {
        assert(files.take(n) == files);
    } else {
        lemma_held_prefix(files.drop_last(), n);
        assert(files.drop_last().take(n) == files.take(n));
    }
}

/// Collects the entries of the files, met in the given order. With no file
/// the result is the empty list.
pub fn collect(files: &Vec<SourceFile>) -> (r: Result<Vec<(String, String)>, MergeError>)
    ensures
        collected(r, source_views(files@)),
{
    let ghost views = source_views(files@);
    let mut c = Collector::new();
    let mut f: usize = 0;
    assert(views.take(0) =~= Seq::<SourceView>::empty());
    while f < files.len()
        invariant
            f <= files@.len(),
            views == source_views(files@),
            c@ == held_all(views.take(f as int)),
            distinct_keys(c@),
        decreases files@.len() - f,
    {
        let ghost before = c@;
        let ghost next_views = views.take(f + 1);
        assert(next_views.drop_last() == views.take(f as int));
        assert(next_views.last() == files@[f as int]@);
        let ghost all = before + held_of(files@[f as int]@);
        assert(all == held_all(next_views));
        match c.add(&files[f]) {
            Ok(next) => {
                c = next;
            },
            Err(e) => {
                proof {
                    lemma_held_prefix(views, f + 1);
                    let whole = held_all(views);
                    let (i, j) = choose|i: int, j: int|
                        {
                            &&& #[trigger] is_first_repeat(all, i, j)
                            &&& e@ == MergeErrorView::DuplicateKey(
                                all[j].key,
                                all[j].path,
                                all[i].path,
                            )
                        };
                    assert(whole.take(j) == all.take(j));
                    assert(whole[i] == all[i] && whole[j] == all[j]);
                    assert(is_first_repeat(whole, i, j));
                }
                return Err(e);
            },
        }
        f += 1;
    }
    assert(views.take(files@.len() as int) == views);
    Ok(c.finish())
}

} // verus!
