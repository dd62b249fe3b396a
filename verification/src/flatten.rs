//! Flattening of a raw, possibly multi-line value into one line.
use crate::text::{
    chars_of, join, join_chars, lines_of, skip_spaces, split_lines, string_of, trim, trim_start,
    trimmed, views,
};
use vstd::prelude::*;

verus! {

/// Token that stands for a line break in a flattened value.
pub const JOINER: &'static str = "||||";

/// A line is a comment when its first character that is not whitespace is `#`.
pub open spec fn is_comment(line: Seq<char>) -> bool {
    let t = trim_start(line);
    t.len() > 0 && t.first() == '#'
}

/// The lines that are not comments, in order.
pub open spec fn drop_comments(lines: Seq<Seq<char>>) -> Seq<Seq<char>>
    decreases lines.len(),
{
    if lines.len() == 0 {
        Seq::empty()
    } else if is_comment(lines.last()) {
        drop_comments(lines.drop_last())
    } else {
        drop_comments(lines.drop_last()).push(lines.last())
    }
}

/// The flattened form of a raw value: surrounding whitespace removed, comment
/// lines dropped, and the remaining lines joined by `JOINER`.
pub open spec fn flatten_spec(raw: Seq<char>) -> Seq<char> {
    join(drop_comments(lines_of(trim(raw))), JOINER@)
}

/// Whether `line` is a comment.
pub fn is_comment_line(line: &Vec<char>) -> (r: bool)
    ensures
        r == is_comment(line@),
{
    let a = skip_spaces(line, 0);
    assert(line@.skip(0) == line@);
    a < line.len() && line[a] == '#'
}

/// Flattens a raw value.
pub fn flatten_value(raw: &str) -> (r: String)
    ensures
        r@ == flatten_spec(raw@),
{
    let chars = chars_of(raw);
    let body = trimmed(&chars);
    let lines = split_lines(&body);
    let mut kept: Vec<Vec<char>> = Vec::new();
    let mut k: usize = 0;
    while k < lines.len()
        invariant
            k <= lines.len(),
            views(kept@) == drop_comments(views(lines@).take(k as int)),
        decreases lines.len() - k,
    {
        let ghost next = views(lines@).take(k + 1);
        assert(next.drop_last() == views(lines@).take(k as int));
        assert(next.last() == lines[k as int]@);
        if !is_comment_line(&lines[k]) {
            let ghost before = views(kept@);
            kept.push(lines[k].clone());
            assert(views(kept@) =~= before.push(lines[k as int]@));
        }
        k += 1;
    }
    assert(views(lines@).take(lines.len() as int) == views(lines@));
    let sep = chars_of(JOINER);
    let flat = join_chars(&kept, &sep);
    string_of(&flat)
}

} // verus!
