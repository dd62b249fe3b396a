//! Source files: the pairs that a file defines, and the order in which files
//! are met.
use crate::error::{MergeError, MergeErrorView};
use crate::order::{key_le, key_views, lex_le, lowercase, sort_order, sorts, to_lower, Key};
use crate::text::chars_of;
use vstd::prelude::*;
use vstd::string::StringExecFns;

verus! {

/// A file and the raw key/value pairs it defines, in the file's order.
#[derive(Debug, Clone)]
pub struct SourceFile {
    pub path: String,
    pub pairs: Vec<(String, String)>,
}

/// Mathematical form of a `SourceFile`.
pub struct SourceView {
    pub path: Seq<char>,
    pub pairs: Seq<(Seq<char>, Seq<char>)>,
}

/// The pairs of texts that a vector of string pairs holds.
pub open spec fn pair_views(pairs: Seq<(String, String)>) -> Seq<(Seq<char>, Seq<char>)> {
    Seq::new(pairs.len(), |i: int| (pairs[i].0@, pairs[i].1@))
}

/// The texts that a vector of strings holds.
pub open spec fn string_views(texts: Seq<String>) -> Seq<Seq<char>> {
    Seq::new(texts.len(), |i: int| texts[i]@)
}

impl View for SourceFile {
    type V = SourceView;

    open spec fn view(&self) -> SourceView {
        SourceView { path: self.path@, pairs: pair_views(self.pairs@) }
    }
}

/// The files that a vector of files holds, in mathematical form.
pub open spec fn source_views(files: Seq<SourceFile>) -> Seq<SourceView> {
    Seq::new(files.len(), |i: int| files[i]@)
}

/// The keys by which paths are ordered: the lowercase path. Paths that differ
/// in case only keep the order in which they were given.
pub open spec fn path_keys(paths: Seq<Seq<char>>) -> Seq<Key> {
    Seq::new(paths.len(), |i: int| (lowercase(paths[i]), Seq::<char>::empty()))
}

/// The paths of the files, in order.
pub open spec fn paths_of(files: Seq<SourceView>) -> Seq<Seq<char>> {
    Seq::new(files.len(), |i: int| files[i].path)
}

/// `out` holds the paths of `paths`, in ascending order of their lowercase
/// form; paths with the same lowercase form keep their relative order.
pub open spec fn is_path_order(out: Seq<Seq<char>>, paths: Seq<Seq<char>>) -> bool {
    exists|perm: Seq<usize>| #[trigger]
        sorts(perm, path_keys(paths)) && out == Seq::new(
            paths.len(),
            |i: int| paths[perm[i] as int],
        )
}

/// `out` holds the files of `files`, in ascending order of their lowercase
/// paths; files whose paths have the same lowercase form keep their relative
/// order.
pub open spec fn is_file_order(out: Seq<SourceView>, files: Seq<SourceView>) -> bool {
    exists|perm: Seq<usize>| #[trigger]
        sorts(perm, path_keys(paths_of(files))) && out == Seq::new(
            files.len(),
            |i: int| files[perm[i] as int],
        )
}

/// The keys by which the pairs of one file are ordered: the key itself.
pub open spec fn pair_keys(pairs: Seq<(Seq<char>, Seq<char>)>) -> Seq<Key> {
    Seq::new(pairs.len(), |i: int| (pairs[i].0, Seq::<char>::empty()))
}

/// `out` holds the pairs of `pairs` in ascending order of their keys; pairs
/// with the same key keep their relative order.
pub open spec fn is_key_order(
    out: Seq<(Seq<char>, Seq<char>)>,
    pairs: Seq<(Seq<char>, Seq<char>)>,
) -> bool {
    exists|perm: Seq<usize>| #[trigger]
        sorts(perm, pair_keys(pairs)) && out == Seq::new(
            pairs.len(),
            |i: int| pairs[perm[i] as int],
        )
}

/// Each key stands strictly before the next in lexicographic order.
pub open spec fn ascending_keys(pairs: Seq<(Seq<char>, Seq<char>)>) -> bool {
    forall|i: int, j: int|
        0 <= i < j < pairs.len() ==> lex_le((#[trigger] pairs[i]).0, (#[trigger] pairs[j]).0)
            && pairs[i].0 != pairs[j].0
}

/// `pairs` lists the mapping `m`: each key of `m` once, with its value.
pub open spec fn lists(pairs: Seq<(Seq<char>, Seq<char>)>, m: Map<Seq<char>, Seq<char>>) -> bool {
    &&& forall|i: int, j: int|
        0 <= i < j < pairs.len() ==> (#[trigger] pairs[i]).0 != (#[trigger] pairs[j]).0
    &&& forall|i: int| 0 <= i < pairs.len() ==> m.contains_pair((#[trigger] pairs[i]).0, pairs[i].1)
    &&& forall|k: Seq<char>| #[trigger]
        m.dom().contains(k) ==> exists|i: int| 0 <= i < pairs.len() && (#[trigger] pairs[i]).0 == k
}

/// The mapping from key to raw value that `env_file_reader::read_str` reads
/// from a text, or `None` for a text that it rejects.
pub uninterp spec fn env_parse(text: Seq<char>) -> Option<Map<Seq<char>, Seq<char>>>;

/// Parses a text with `env_file_reader::read_str` and hands out the pairs of
/// the map it returns. The call fails exactly on the texts that `env_parse`
/// rejects; otherwise the pairs list the map `env_parse` names, each key
/// once, in the order in which the hash map is walked, which is not fixed.
#[verifier::external_body]
fn read_pairs(text: &str) -> (r: Option<Vec<(String, String)>>)
    ensures
        r is Some <==> env_parse(text@) is Some,
        r is Some ==> lists(pair_views(r->0@), env_parse(text@)->0),
{
    env_file_reader::read_str(text).ok().map(|m| m.into_iter().collect())
}

impl SourceFile {
    /// The file at `path` with the given pairs, put in ascending order of
    /// their keys.
    pub fn new(path: &str, pairs: &Vec<(String, String)>) -> (file: SourceFile)
        ensures
            file@.path == path@,
            is_key_order(file@.pairs, pair_views(pairs@)),
    {
        let mut keys: Vec<(Vec<char>, Vec<char>)> = Vec::new();
        let mut k: usize = 0;
        while k < pairs.len()
            invariant
                k <= pairs@.len(),
                keys@.len() == k,
                forall|a: int|
                    0 <= a < k ==> (#[trigger] keys@[a]).0@ == pairs@[a].0@ && keys@[a].1@
                        == Seq::<char>::empty(),
            decreases pairs@.len() - k,
        {
            keys.push((chars_of(pairs[k].0.as_str()), Vec::new()));
            k += 1;
        }
        let ghost views = pair_views(pairs@);
        assert(key_views(keys@) =~= pair_keys(views));
        let perm = sort_order(&keys);
        let mut out: Vec<(String, String)> = Vec::new();
        let mut i: usize = 0;
        while i < perm.len()
            invariant
                i <= perm@.len(),
                perm@.len() == pairs@.len(),
                forall|a: int| 0 <= a < perm@.len() ==> (#[trigger] perm@[a]) < pairs@.len(),
                out@.len() == i,
                forall|a: int|
                    0 <= a < i ==> (#[trigger] out@[a]).0@ == pairs@[perm@[a] as int].0@
                        && out@[a].1@ == pairs@[perm@[a] as int].1@,
            decreases perm@.len() - i,
        {
            let pair = &pairs[perm[i]];
            out.push((pair.0.clone(), pair.1.clone()));
            i += 1;
        }
        assert(pair_views(out@) =~= Seq::new(views.len(), |i: int| views[perm@[i] as int]));
        SourceFile { path: String::from_str(path), pairs: out }
    }

    /// Reads the pairs of a file from its text. The pairs come out in
    /// ascending order of their keys, so the result depends on the text alone.
    pub fn parse(path: &str, text: &str) -> (r: Result<SourceFile, MergeError>)
        ensures
            match r {
                Ok(file) => {
                    &&& env_parse(text@) is Some
                    &&& file@.path == path@
                    &&& lists(file@.pairs, env_parse(text@)->0)
                    &&& ascending_keys(file@.pairs)
                },
                Err(e) => env_parse(text@) is None && e@ == MergeErrorView::IoError(
                    "ParseError"@,
                ),
            },
    {
        match read_pairs(text) {
            None => Err(MergeError::IoError(String::from_str("ParseError"))),
            Some(pairs) => {
                let file = SourceFile::new(path, &pairs);
                proof {
                    lemma_key_order_lists(
                        file@.pairs,
                        pair_views(pairs@),
                        env_parse(text@)->0,
                    );
                }
                Ok(file)
            },
        }
    }
}

/// Putting the listing of a mapping in key order gives a listing of the same
/// mapping, with strictly ascending keys.
pub proof fn lemma_key_order_lists(
    out: Seq<(Seq<char>, Seq<char>)>,
    pairs: Seq<(Seq<char>, Seq<char>)>,
    m: Map<Seq<char>, Seq<char>>,
)
    requires
        is_key_order(out, pairs),
        lists(pairs, m),
    ensures
        lists(out, m),
        ascending_keys(out),
{
    let perm = choose|perm: Seq<usize>| #[trigger]
        sorts(perm, pair_keys(pairs)) && out == Seq::new(
            pairs.len(),
            |i: int| pairs[perm[i] as int],
        );
    let keys = pair_keys(pairs);
    assert forall|i: int, j: int| 0 <= i < j < out.len() implies lex_le(
        (#[trigger] out[i]).0,
        (#[trigger] out[j]).0,
    ) && out[i].0 != out[j].0 by {
        let a = perm[i] as int;
        let b = perm[j] as int;
        assert(a != b);
        assert(key_le(keys[a], keys[b]));
        if a < b {
            assert(pairs[a].0 != pairs[b].0);
        } else {
            assert(pairs[b].0 != pairs[a].0);
        }
    }
    assert forall|k: Seq<char>| #[trigger] m.dom().contains(k) implies exists|i: int|
        0 <= i < out.len() && (#[trigger] out[i]).0 == k by {
        let i = choose|i: int| 0 <= i < pairs.len() && (#[trigger] pairs[i]).0 == k;
        assert(perm.contains(i as usize));
        let a = choose|a: int| 0 <= a < perm.len() && perm[a] == i as usize;
        assert(out[a].0 == k);
    }
}

/// A copy of the pairs.
pub fn copy_pairs(pairs: &Vec<(String, String)>) -> (r: Vec<(String, String)>)
    ensures
        pair_views(r@) == pair_views(pairs@),
{
    let mut r: Vec<(String, String)> = Vec::new();
    let mut i: usize = 0;
    while i < pairs.len()
        invariant
            i <= pairs@.len(),
            r@.len() == i,
            forall|a: int|
                0 <= a < i ==> (#[trigger] r@[a]).0@ == pairs@[a].0@ && r@[a].1@ == pairs@[a].1@,
        decreases pairs@.len() - i,
    {
        r.push((pairs[i].0.clone(), pairs[i].1.clone()));
        i += 1;
    }
    assert(pair_views(r@) =~= pair_views(pairs@));
    r
}

/// The sort keys of a list of paths.
fn lowercase_keys(paths: &Vec<String>) -> (keys: Vec<(Vec<char>, Vec<char>)>)
    ensures
        key_views(keys@) == path_keys(string_views(paths@)),
{
    let mut keys: Vec<(Vec<char>, Vec<char>)> = Vec::new();
    let mut i: usize = 0;
    while i < paths.len()
        invariant
            i <= paths@.len(),
            keys@.len() == i,
            forall|a: int|
                0 <= a < i ==> (#[trigger] keys@[a]).0@ == lowercase(paths@[a]@) && keys@[a].1@
                    == Seq::<char>::empty(),
        decreases paths@.len() - i,
    {
        let lower = to_lower(paths[i].as_str());
        keys.push((chars_of(lower.as_str()), Vec::new()));
        i += 1;
    }
    assert(key_views(keys@) =~= path_keys(string_views(paths@)));
    keys
}

/// The paths in case-insensitive order. Paths that differ in case only keep
/// the order in which they were given.
pub fn sort_paths(paths: &Vec<String>) -> (out: Vec<String>)
    ensures
        is_path_order(string_views(out@), string_views(paths@)),
{
    let keys = lowercase_keys(paths);
    let perm = sort_order(&keys);
    let ghost views = string_views(paths@);
    let mut out: Vec<String> = Vec::new();
    let mut i: usize = 0;
    while i < perm.len()
        invariant
            i <= perm@.len(),
            perm@.len() == paths@.len(),
            forall|a: int| 0 <= a < perm@.len() ==> (#[trigger] perm@[a]) < paths@.len(),
            out@.len() == i,
            forall|a: int| 0 <= a < i ==> (#[trigger] out@[a])@ == paths@[perm@[a] as int]@,
        decreases perm@.len() - i,
    {
        out.push(paths[perm[i]].clone());
        i += 1;
    }
    assert(string_views(out@) =~= Seq::new(views.len(), |i: int| views[perm@[i] as int]));
    out
}

/// The files in case-insensitive order of their paths. Files whose paths
/// differ in case only keep the order in which they were given.
pub fn sort_files(files: &Vec<SourceFile>) -> (out: Vec<SourceFile>)
    ensures
        is_file_order(source_views(out@), source_views(files@)),
{
    let mut paths: Vec<String> = Vec::new();
    let mut k: usize = 0;
    while k < files.len()
        invariant
            k <= files@.len(),
            paths@.len() == k,
            forall|a: int| 0 <= a < k ==> (#[trigger] paths@[a])@ == files@[a].path@,
        decreases files@.len() - k,
    {
        paths.push(files[k].path.clone());
        k += 1;
    }
    let ghost views = source_views(files@);
    assert(string_views(paths@) =~= paths_of(views));
    let keys = lowercase_keys(&paths);
    let perm = sort_order(&keys);
    let mut out: Vec<SourceFile> = Vec::new();
    let mut i: usize = 0;
    while i < perm.len()
        invariant
            i <= perm@.len(),
            perm@.len() == files@.len(),
            forall|a: int| 0 <= a < perm@.len() ==> (#[trigger] perm@[a]) < files@.len(),
            out@.len() == i,
            forall|a: int| 0 <= a < i ==> (#[trigger] out@[a])@ == files@[perm@[a] as int]@,
        decreases perm@.len() - i,
    {
        let file = &files[perm[i]];
        out.push(SourceFile { path: file.path.clone(), pairs: copy_pairs(&file.pairs) });
        i += 1;
    }
    assert(source_views(out@) =~= Seq::new(views.len(), |i: int| views[perm@[i] as int]));
    out
}

} // verus!
