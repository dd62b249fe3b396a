//! Ordering of text: code-point lexicographic order, case folding, and a
//! stable sort that yields the permutation which puts a list of keys in order.
use vstd::prelude::*;

verus! {

/// The lowercase form of `s` under the Unicode case mapping that
/// `str::to_lowercase` applies.
pub uninterp spec fn lowercase(s: Seq<char>) -> Seq<char>;

/// Lowercases with `str::to_lowercase`. The mapping depends on the characters
/// alone (it takes no locale), so the result is `lowercase` of the input.
#[verifier::external_body]
pub(crate) fn to_lower(s: &str) -> (r: String)
    ensures
        r@ == lowercase(s@),
{
    s.to_lowercase()
}

/// `a` comes before `b`, or equals it, in lexicographic order by code point.
/// This is the order of `str` and `String`.
pub open spec fn lex_le(a: Seq<char>, b: Seq<char>) -> bool
    decreases a.len(),
{
    if a.len() == 0 {
        true
    } else if b.len() == 0 {
        false
    } else if a.first() != b.first() {
        (a.first() as u32) < (b.first() as u32)
    } else {
        lex_le(a.drop_first(), b.drop_first())
    }
}

/// A sort key: a primary text, and a secondary text that decides between
/// equal primaries.
pub type Key = (Seq<char>, Seq<char>);

/// Order of sort keys: by primary text, then by secondary text.
pub open spec fn key_le(x: Key, y: Key) -> bool {
    if x.0 == y.0 {
        lex_le(x.1, y.1)
    } else {
        lex_le(x.0, y.0)
    }
}

/// `perm` lists each index below `n` exactly once, and `n` is a length that a
/// vector can have.
pub open spec fn is_permutation(perm: Seq<usize>, n: nat) -> bool {
    &&& perm.len() == n
    &&& n <= usize::MAX
    &&& forall|i: int| 0 <= i < n ==> (#[trigger] perm[i]) < n
    &&& forall|i: int, j: int| 0 <= i < j < n ==> #[trigger] perm[i] != #[trigger] perm[j]
    &&& forall|v: usize| v < n ==> #[trigger] perm.contains(v)
}

/// Taking the keys in the order `perm` gives puts them in ascending order, and
/// keys that are equal stay in the order they had (the sort is stable).
pub open spec fn sorts(perm: Seq<usize>, keys: Seq<Key>) -> bool {
    &&& is_permutation(perm, keys.len())
    &&& forall|i: int, j: int|
        0 <= i < j < perm.len() ==> {
            &&& key_le(keys[(#[trigger] perm[i]) as int], keys[(#[trigger] perm[j]) as int])
            &&& keys[perm[i] as int] == keys[perm[j] as int] ==> perm[i] < perm[j]
        }
}

/// The keys that a vector of key pairs holds.
pub open spec fn key_views(keys: Seq<(Vec<char>, Vec<char>)>) -> Seq<Key> {
    Seq::new(keys.len(), |i: int| (keys[i].0@, keys[i].1@))
}

/// Every text stands before or at itself.
pub proof fn lemma_lex_le_reflexive(a: Seq<char>)
    ensures
        lex_le(a, a),
    decreases a.len(),
{
    if a.len() > 0 {
        lemma_lex_le_reflexive(a.drop_first());
    }
}

/// Of two texts, one stands before or at the other.
pub proof fn lemma_lex_le_total(a: Seq<char>, b: Seq<char>)
    ensures
        lex_le(a, b) || lex_le(b, a),
    decreases a.len(),
{
    if a.len() > 0 && b.len() > 0 {
        if a.first() == b.first() {
            lemma_lex_le_total(a.drop_first(), b.drop_first());
        } else {
            let x = a.first();
            let y = b.first();
            vstd::utf8::char_u32_cast(x, x as u32);
            vstd::utf8::char_u32_cast(y, y as u32);
        }
    }
}

/// Two texts that each stand before or at the other are the same text.
pub proof fn lemma_lex_le_antisymmetric(a: Seq<char>, b: Seq<char>)
    requires
        lex_le(a, b),
        lex_le(b, a),
    ensures
        a == b,
    decreases a.len(),
{
    if a.len() == 0 || b.len() == 0 {
        assert(a =~= b);
    } else if a.first() == b.first() {
        lemma_lex_le_antisymmetric(a.drop_first(), b.drop_first());
        assert(a =~= seq![a.first()] + a.drop_first());
        assert(b =~= seq![b.first()] + b.drop_first());
    }
}

/// The order of texts is transitive.
pub proof fn lemma_lex_le_transitive(a: Seq<char>, b: Seq<char>, c: Seq<char>)
    requires
        lex_le(a, b),
        lex_le(b, c),
    ensures
        lex_le(a, c),
    decreases a.len(),
{
    if a.len() > 0 && b.len() > 0 && c.len() > 0 {
        if a.first() == b.first() && b.first() == c.first() {
            lemma_lex_le_transitive(a.drop_first(), b.drop_first(), c.drop_first());
        }
    }
}

/// Of two keys, one stands before or at the other.
pub proof fn lemma_key_le_total(x: Key, y: Key)
    ensures
        key_le(x, y) || key_le(y, x),
{
    lemma_lex_le_total(x.0, y.0);
    lemma_lex_le_total(x.1, y.1);
}

/// Two keys that each stand before or at the other are the same key.
pub proof fn lemma_key_le_antisymmetric(x: Key, y: Key)
    requires
        key_le(x, y),
        key_le(y, x),
    ensures
        x == y,
{
    if x.0 == y.0 {
        lemma_lex_le_antisymmetric(x.1, y.1);
    } else {
        lemma_lex_le_antisymmetric(x.0, y.0);
    }
}

/// The order of keys is transitive.
pub proof fn lemma_key_le_transitive(x: Key, y: Key, z: Key)
    requires
        key_le(x, y),
        key_le(y, z),
    ensures
        key_le(x, z),
{
    if x.0 == y.0 && y.0 == z.0 {
        lemma_lex_le_transitive(x.1, y.1, z.1);
    } else if x.0 == y.0 {
    } else if y.0 == z.0 {
    } else {
        lemma_lex_le_transitive(x.0, y.0, z.0);
        if x.0 == z.0 {
            lemma_lex_le_antisymmetric(x.0, y.0);
        }
    }
}

/// Two orders that sort the same keys agree on their first `n` places.
proof fn lemma_sorts_agree(p: Seq<usize>, q: Seq<usize>, keys: Seq<Key>, n: int)
    requires
        sorts(p, keys),
        sorts(q, keys),
        0 <= n <= keys.len(),
    ensures
        forall|i: int| 0 <= i < n ==> p[i] == q[i],
    decreases n,
{
    if n > 0 {
        lemma_sorts_agree(p, q, keys, n - 1);
        let i = n - 1;
        let x = p[i];
        let y = q[i];
        if x != y {
            assert(q.contains(x));
            let j = choose|j: int| 0 <= j < q.len() && q[j] == x;
            assert(p.contains(y));
            let k = choose|k: int| 0 <= k < p.len() && p[k] == y;
            if j < i {
                assert(p[j] == q[j]);
                assert(p[j] != p[i]);
            }
            if k < i {
                assert(q[k] == p[k]);
                assert(q[k] != q[i]);
            }
            assert(key_le(keys[q[i] as int], keys[q[j] as int]));
            assert(key_le(keys[p[i] as int], keys[p[k] as int]));
            lemma_key_le_antisymmetric(keys[x as int], keys[y as int]);
        }
    }
}

/// The order that sorts a list of keys is unique: what `sorts` says of a
/// permutation holds of one permutation only.
pub proof fn law_sort_order_unique(p: Seq<usize>, q: Seq<usize>, keys: Seq<Key>)
    requires
        sorts(p, keys),
        sorts(q, keys),
    ensures
        p == q,
{
    lemma_sorts_agree(p, q, keys, keys.len() as int);
    assert(p =~= q);
}

/// How one text stands to another in lexicographic order.
#[derive(Clone, Copy, Debug, PartialEq, Eq)]
pub enum Rel {
    Before,
    Same,
    After,
}

/// Compares two texts in lexicographic order by code point.
pub fn lex_rel(a: &Vec<char>, b: &Vec<char>) -> (r: Rel)
    ensures
        r == Rel::Same <==> a@ == b@,
        r == Rel::After <==> !lex_le(a@, b@),
{
    let mut i: usize = 0;
    assert(a@.skip(0) == a@ && b@.skip(0) == b@);
    while i < a.len() && i < b.len() && a[i] == b[i]
        invariant
            i <= a.len(),
            i <= b.len(),
            a@.take(i as int) == b@.take(i as int),
            lex_le(a@, b@) == lex_le(a@.skip(i as int), b@.skip(i as int)),
        decreases a.len() - i,
    {
        assert(a@.skip(i as int).drop_first() == a@.skip(i + 1));
        assert(b@.skip(i as int).drop_first() == b@.skip(i + 1));
        assert(a@.take(i + 1) == a@.take(i as int).push(a@[i as int]));
        assert(b@.take(i + 1) == b@.take(i as int).push(b@[i as int]));
        i += 1;
    }
    proof {
        lemma_lex_le_reflexive(a@);
    }
    if i == a.len() {
        if i == b.len() {
            assert(a@ == a@.take(i as int) && b@ == b@.take(i as int));
            Rel::Same
        } else {
            Rel::Before
        }
    } else if i == b.len() {
        Rel::After
    } else {
        let x: u32 = a[i] as u32;
        let y: u32 = b[i] as u32;
        if x < y {
            Rel::Before
        } else {
            Rel::After
        }
    }
}

/// Whether the key `x` comes before the key `y`, or equals it.
pub fn key_le_exec(x: &(Vec<char>, Vec<char>), y: &(Vec<char>, Vec<char>)) -> (r: bool)
    ensures
        r == key_le((x.0@, x.1@), (y.0@, y.1@)),
{
    match lex_rel(&x.0, &y.0) {
        Rel::Before => true,
        Rel::After => false,
        Rel::Same => match lex_rel(&x.1, &y.1) {
            Rel::After => false,
            _ => true,
        },
    }
}

/// The order in which to take `keys` so that they ascend. Equal keys keep
/// their relative order.
pub fn sort_order(keys: &Vec<(Vec<char>, Vec<char>)>) -> (perm: Vec<usize>)
    ensures
        sorts(perm@, key_views(keys@)),
{
    let ghost ks = key_views(keys@);
    let mut perm: Vec<usize> = Vec::new();
    let mut i: usize = 0;
    while i < keys.len()
        invariant
            i <= keys.len(),
            ks == key_views(keys@),
            perm@.len() == i,
            forall|a: int| 0 <= a < i ==> (#[trigger] perm@[a]) < i,
            forall|a: int, b: int| 0 <= a < b < i ==> #[trigger] perm@[a] != #[trigger] perm@[b],
            forall|v: usize| v < i ==> #[trigger] perm@.contains(v),
            forall|a: int, b: int|
                0 <= a < b < i ==> {
                    &&& key_le(ks[(#[trigger] perm@[a]) as int], ks[(#[trigger] perm@[b]) as int])
                    &&& ks[perm@[a] as int] == ks[perm@[b] as int] ==> perm@[a] < perm@[b]
                },
        decreases keys.len() - i,
    {
        let mut p: usize = i;
        while p > 0 && !key_le_exec(&keys[perm[p - 1]], &keys[i])
            invariant
                p <= i,
                i < keys.len(),
                perm@.len() == i,
                ks == key_views(keys@),
                forall|a: int| 0 <= a < i ==> (#[trigger] perm@[a]) < i,
                forall|a: int|
                    p <= a < i ==> !key_le(ks[(#[trigger] perm@[a]) as int], ks[i as int]),
            decreases p,
        {
            p -= 1;
        }
        let ghost old_perm = perm@;
        perm.insert(p, i);
        proof {
            let np = perm@;
            assert forall|a: int, b: int| 0 <= a < b < i + 1 implies {
                &&& #[trigger] np[a] != #[trigger] np[b]
                &&& key_le(ks[np[a] as int], ks[np[b] as int])
                &&& ks[np[a] as int] == ks[np[b] as int] ==> np[a] < np[b]
            } by {
                let ki = ks[i as int];
                if b == p {
                    // np[a] is an earlier element, np[b] is the new index
                    let last = old_perm[p - 1];
                    assert(key_le(ks[last as int], ki));
                    if a < p - 1 {
                        assert(key_le(ks[old_perm[a] as int], ks[old_perm[p - 1] as int]));
                        lemma_key_le_transitive(ks[old_perm[a] as int], ks[last as int], ki);
                    }
                } else if a == p {
                    // np[a] is the new index, np[b] came after the slot
                    let other = old_perm[b - 1];
                    assert(!key_le(ks[other as int], ki));
                    lemma_key_le_total(ks[other as int], ki);
                    lemma_lex_le_reflexive(ki.0);
                    lemma_lex_le_reflexive(ki.1);
                } else {
                    let oa = if a < p { a } else { a - 1 };
                    let ob = if b < p { b } else { b - 1 };
                    assert(np[a] == old_perm[oa] && np[b] == old_perm[ob]);
                    assert(oa < ob);
                }
            }
            assert forall|v: usize| v < i + 1 implies #[trigger] np.contains(v) by {
                if v == i {
                    assert(np[p as int] == v);
                } else {
                    assert(old_perm.contains(v));
                    let a = choose|a: int| 0 <= a < old_perm.len() && old_perm[a] == v;
                    let na = if a < p { a } else { a + 1 };
                    assert(np[na] == v);
                }
            }
            assert forall|a: int| 0 <= a < i + 1 implies (#[trigger] np[a]) < i + 1 by {
                if a != p {
                    let oa = if a < p { a } else { a - 1 };
                    assert(np[a] == old_perm[oa]);
                }
            }
        }
        i += 1;
    }
    perm
}

} // verus!
