//! Character-level text primitives: whitespace, trimming, line splitting and
//! joining, with executable versions over `Vec<char>`.
use vstd::prelude::*;

verus! {

/// Whether `c` is one of the code points that carry the Unicode
/// `White_Space` property.
pub open spec fn is_space(c: char) -> bool {
    let n = c as u32;
    ||| 0x09 <= n <= 0x0D
    ||| n == 0x20
    ||| n == 0x85
    ||| n == 0xA0
    ||| n == 0x1680
    ||| 0x2000 <= n <= 0x200A
    ||| n == 0x2028
    ||| n == 0x2029
    ||| n == 0x202F
    ||| n == 0x205F
    ||| n == 0x3000
}

/// `s` without its leading whitespace.
pub open spec fn trim_start(s: Seq<char>) -> Seq<char>
    decreases s.len(),
{
    if s.len() > 0 && is_space(s.first()) {
        trim_start(s.drop_first())
    } else {
        s
    }
}

/// `s` without its trailing whitespace.
pub open spec fn trim_end(s: Seq<char>) -> Seq<char>
    decreases s.len(),
{
    if s.len() > 0 && is_space(s.last()) {
        trim_end(s.drop_last())
    } else {
        s
    }
}

/// `s` without leading and trailing whitespace.
pub open spec fn trim(s: Seq<char>) -> Seq<char> {
    trim_end(trim_start(s))
}

/// Index of the first line feed of `s`, or `s.len()` when it has none.
pub open spec fn first_newline(s: Seq<char>) -> nat
    decreases s.len(),
{
    if s.len() == 0 || s.first() == '\n' {
        0
    } else {
        1 + first_newline(s.drop_first())
    }
}

/// A line without the carriage return that preceded its line feed.
pub open spec fn strip_cr(line: Seq<char>) -> Seq<char> {
    if line.len() > 0 && line.last() == '\r' {
        line.drop_last()
    } else {
        line
    }
}

/// The lines of `s`. A line ends at a line feed, or at a carriage return
/// directly followed by one; the terminator is not part of the line. Text
/// after the last line feed is a line only when it is not empty, and keeps a
/// carriage return at its end.
pub open spec fn lines_of(s: Seq<char>) -> Seq<Seq<char>>
    decreases s.len(),
{
    if s.len() == 0 {
        Seq::empty()
    } else {
        let n = first_newline(s);
        if n >= s.len() {
            seq![s]
        } else {
            seq![strip_cr(s.take(n as int))] + lines_of(s.skip(n as int + 1))
        }
    }
}

/// The parts in order, with `sep` between each two neighbours.
pub open spec fn join(parts: Seq<Seq<char>>, sep: Seq<char>) -> Seq<char>
    decreases parts.len(),
{
    if parts.len() == 0 {
        Seq::empty()
    } else if parts.len() == 1 {
        parts[0]
    } else {
        join(parts.drop_last(), sep) + sep + parts.last()
    }
}

/// `first_newline` is within the text, and no line feed stands before it.
pub proof fn lemma_first_newline(s: Seq<char>)
    ensures
        first_newline(s) <= s.len(),
        forall|i: int| 0 <= i < first_newline(s) ==> s[i] != '\n',
    decreases s.len(),
{
    if s.len() > 0 && s.first() != '\n' {
        let t = s.drop_first();
        lemma_first_newline(t);
        assert forall|i: int| 0 <= i < first_newline(s) implies s[i] != '\n' by {
            if i > 0 {
                assert(s[i] == t[i - 1]);
            }
        }
    }
}

/// No line holds a line feed.
pub proof fn lemma_lines_hold_no_line_feed(s: Seq<char>)
    ensures
        forall|k: int| 0 <= k < lines_of(s).len() ==> !(#[trigger] lines_of(s)[k]).contains('\n'),
    decreases s.len(),
{
    if s.len() > 0 {
        lemma_first_newline(s);
        let n = first_newline(s) as int;
        if n >= s.len() {
            assert(lines_of(s) =~= seq![s]);
        } else {
            let head = strip_cr(s.take(n));
            let rest = lines_of(s.skip(n + 1));
            lemma_lines_hold_no_line_feed(s.skip(n + 1));
            assert forall|i: int| 0 <= i < head.len() implies head[i] != '\n' by {
                assert(head[i] == s[i]);
            }
            assert forall|k: int| 0 <= k < lines_of(s).len() implies !(
            #[trigger] lines_of(s)[k]).contains('\n') by {
                if k > 0 {
                    assert(lines_of(s)[k] == rest[k - 1]);
                }
            }
        }
    }
}

/// The character sequences that a vector of character vectors holds.
pub open spec fn views(parts: Seq<Vec<char>>) -> Seq<Seq<char>> {
    Seq::new(parts.len(), |i: int| parts[i]@)
}

/// Executable test for the `White_Space` property.
pub fn is_space_char(c: char) -> (r: bool)
    ensures
        r == is_space(c),
{
    let n: u32 = c as u32;
    (0x09 <= n && n <= 0x0D) || n == 0x20 || n == 0x85 || n == 0xA0 || n == 0x1680 || (0x2000 <= n
        && n <= 0x200A) || n == 0x2028 || n == 0x2029 || n == 0x202F || n == 0x205F || n == 0x3000
}

/// The characters of `s`, one vector slot per code point.
pub fn chars_of(s: &str) -> (v: Vec<char>)
    ensures
        v@ == s@,
{
    let mut v: Vec<char> = Vec::new();
    for c in it: s.chars()
        invariant
            it.seq() == s@,
            v@ == it.seq().take(it.index() as int),
    {
        v.push(c);
    }
    v
}

/// Collects code points into a `String` with `String::from_iter`: the string
/// holds exactly the given characters, in the given order.
#[verifier::external_body]
pub(crate) fn string_of(chars: &Vec<char>) -> (s: String)
    ensures
        s@ == chars@,
{
    String::from_iter(chars.iter())
}

/// A copy of `v[from..to]`.
pub fn slice_of(v: &Vec<char>, from: usize, to: usize) -> (r: Vec<char>)
    requires
        from <= to <= v.len(),
    ensures
        r@ == v@.subrange(from as int, to as int),
{
    let mut r: Vec<char> = Vec::new();
    let mut i: usize = from;
    while i < to
        invariant
            from <= i <= to <= v.len(),
            r@ == v@.subrange(from as int, i as int),
        decreases to - i,
    {
        r.push(v[i]);
        i += 1;
    }
    r
}

/// Index of the first character of `v` at or after `from` that is not
/// whitespace, or `v.len()`.
pub fn skip_spaces(v: &Vec<char>, from: usize) -> (a: usize)
    requires
        from <= v.len(),
    ensures
        from <= a <= v.len(),
        v@.skip(a as int) == trim_start(v@.skip(from as int)),
{
    let n = v.len();
    let mut a: usize = from;
    while a < n && is_space_char(v[a])
        invariant
            n == v.len(),
            from <= a <= n,
            trim_start(v@.skip(from as int)) == trim_start(v@.skip(a as int)),
        decreases n - a,
    {
        assert(v@.skip(a as int).drop_first() == v@.skip(a + 1));
        a += 1;
    }
    a
}

/// `v` without leading and trailing whitespace.
pub fn trimmed(v: &Vec<char>) -> (r: Vec<char>)
    ensures
        r@ == trim(v@),
{
    let n = v.len();
    let a = skip_spaces(v, 0);
    assert(v@.skip(0) == v@);
    let mut b: usize = n;
    assert(v@.subrange(a as int, n as int) == v@.skip(a as int));
    while b > a && is_space_char(v[b - 1])
        invariant
            n == v.len(),
            a <= b <= n,
            trim(v@) == trim_end(v@.subrange(a as int, b as int)),
        decreases b,
    {
        assert(v@.subrange(a as int, b as int).drop_last() == v@.subrange(a as int, b - 1));
        b -= 1;
    }
    slice_of(v, a, b)
}

/// The lines of `v`, in order.
pub fn split_lines(v: &Vec<char>) -> (out: Vec<Vec<char>>)
    ensures
        views(out@) == lines_of(v@),
{
    let n = v.len();
    let mut out: Vec<Vec<char>> = Vec::new();
    let mut start: usize = 0;
    assert(v@.skip(0) == v@);
    while start < n
        invariant
            n == v.len(),
            start <= n,
            lines_of(v@) == views(out@) + lines_of(v@.skip(start as int)),
        decreases n - start,
    {
        let ghost rest = v@.skip(start as int);
        let mut i: usize = start;
        while i < n && v[i] != '\n'
            invariant
                n == v.len(),
                start <= i <= n,
                rest == v@.skip(start as int),
                first_newline(rest) == (i - start) + first_newline(v@.skip(i as int)),
            decreases n - i,
        {
            assert(v@.skip(i as int).drop_first() == v@.skip(i + 1));
            i += 1;
        }
        let ghost before = views(out@);
        if i == n {
            let line = slice_of(v, start, n);
            assert(line@ == rest);
            out.push(line);
            assert(views(out@) =~= before + seq![rest]);
            start = n;
            assert(lines_of(v@.skip(n as int)) == Seq::<Seq<char>>::empty());
        } else {
            let end = if i > start && v[i - 1] == '\r' {
                i - 1
            } else {
                i
            };
            let line = slice_of(v, start, end);
            assert(rest.take(i - start) == v@.subrange(start as int, i as int));
            assert(line@ == strip_cr(rest.take(i - start)));
            assert(rest.skip(i - start + 1) == v@.skip(i + 1));
            out.push(line);
            assert(views(out@) =~= before + seq![strip_cr(rest.take(i - start))]);
            start = i + 1;
        }
    }
    assert(lines_of(v@.skip(n as int)) == Seq::<Seq<char>>::empty());
    out
}

/// The parts in order, with `sep` between each two neighbours.
pub fn join_chars(parts: &Vec<Vec<char>>, sep: &Vec<char>) -> (r: Vec<char>)
    ensures
        r@ == join(views(parts@), sep@),
{
    let mut r: Vec<char> = Vec::new();
    let mut k: usize = 0;
    while k < parts.len()
        invariant
            k <= parts.len(),
            r@ == join(views(parts@).take(k as int), sep@),
        decreases parts.len() - k,
    {
        let ghost done = views(parts@).take(k as int);
        let ghost next = views(parts@).take(k + 1);
        assert(next.drop_last() == done);
        assert(next.last() == parts[k as int]@);
        if k > 0 {
            r.extend_from_slice(sep.as_slice());
        }
        r.extend_from_slice(parts[k].as_slice());
        k += 1;
    }
    assert(views(parts@).take(parts.len() as int) == views(parts@));
    r
}

} // verus!
