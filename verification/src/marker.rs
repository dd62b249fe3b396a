//! Placement of the two marker lines that bracket the merged section in the
//! written document.
use crate::order::{lex_rel, Rel};
use crate::text::{chars_of, join, join_chars, lines_of, split_lines, string_of, views};
use vstd::prelude::*;

verus! {

/// Line that opens the merged region.
pub const START: &'static str = "# GENERATED BY ENV_TO_CONFIG_TOML START\n";

/// Line that closes the merged region.
pub const END: &'static str = "\n# GENERATED BY ENV_TO_CONFIG_TOML END\n";

/// Separator between the lines of the written document.
pub const NEWLINE: &'static str = "\n";

/// The line that heads the section in a written document.
pub const HEADER: &'static str = "[env]";

/// Index of the first line that equals `line`, or the number of lines when
/// none does.
pub open spec fn first_line(lines: Seq<Seq<char>>, line: Seq<char>) -> int
    decreases lines.len(),
{
    if lines.len() == 0 {
        0
    } else if lines.first() == line {
        0
    } else {
        1 + first_line(lines.drop_first(), line)
    }
}

/// Index of the line that heads the section in `text`: the first line that
/// is the header, or the number of lines when the text has no such line.
pub open spec fn header_line(text: Seq<char>) -> int {
    first_line(lines_of(text), HEADER@)
}

/// `first_line` is the one place that holds the line with no holder before
/// it.
pub proof fn lemma_first_line(lines: Seq<Seq<char>>, line: Seq<char>)
    ensures
        0 <= first_line(lines, line) <= lines.len(),
        first_line(lines, line) < lines.len() ==> lines[first_line(lines, line)] == line,
        forall|k: int| 0 <= k < first_line(lines, line) ==> #[trigger] lines[k] != line,
    decreases lines.len(),
{
    if lines.len() > 0 && lines.first() != line {
        let rest = lines.drop_first();
        lemma_first_line(rest, line);
        assert forall|k: int| 0 <= k < first_line(lines, line) implies #[trigger] lines[k]
            != line by {
            if k > 0 {
                assert(lines[k] == rest[k - 1]);
            }
        }
    }
}

/// An index that holds the line with no holder before it, or the length when
/// nothing holds the line, is `first_line`.
pub proof fn lemma_first_line_is(lines: Seq<Seq<char>>, line: Seq<char>, i: int)
    requires
        0 <= i <= lines.len(),
        i < lines.len() ==> lines[i] == line,
        forall|k: int| 0 <= k < i ==> #[trigger] lines[k] != line,
    ensures
        first_line(lines, line) == i,
{
    lemma_first_line(lines, line);
    let j = first_line(lines, line);
    if j < i {
        assert(lines[j] != line);
    } else if i < j {
        assert(lines[i] != line);
    }
}

/// Whether the markers fit around a section whose header is line `index` and
/// which holds `len` entries: the text has that line and `len` lines after
/// it.
pub open spec fn can_place(text: Seq<char>, index: int, len: int) -> bool {
    0 <= index && 0 <= len && index + len + 1 <= lines_of(text).len()
}

/// The lines with the markers around lines `index` to `index + len`: the
/// lines before line `index`, the opening marker, line `index` and the `len`
/// lines that follow it, the closing marker, and the lines that are left.
pub open spec fn bracketed(lines: Seq<Seq<char>>, index: int, len: int) -> Seq<Seq<char>> {
    lines.take(index) + seq![START@] + lines.subrange(index, index + len + 1) + seq![END@]
        + lines.skip(index + len + 1)
}

/// The lines of `text` with the markers around the section whose header is
/// line `index` and which holds `len` entries.
pub open spec fn marked_lines(text: Seq<char>, index: int, len: int) -> Seq<Seq<char>> {
    bracketed(lines_of(text), index, len)
}

/// The text with both markers in place, its lines joined by line feeds.
pub open spec fn place_markers(text: Seq<char>, index: int, len: int) -> Seq<char> {
    join(marked_lines(text, index, len), NEWLINE@)
}

/// Puts the markers into the lines.
fn mark(lines: Vec<Vec<char>>, index: usize, len: usize) -> (r: String)
    requires
        index + len + 1 <= lines@.len(),
    ensures
        r@ == join(bracketed(views(lines@), index as int, len as int), NEWLINE@),
{
    let mut lines = lines;
    let ghost plain = views(lines@);
    lines.insert(index, chars_of(START));
    assert(views(lines@) =~= plain.insert(index as int, START@));
    let ghost opened = views(lines@);
    let n = lines.len();
    assert(index + len + 2 <= n);
    lines.insert(index + len + 2, chars_of(END));
    assert(views(lines@) =~= opened.insert(index + len + 2, END@));
    assert(views(lines@) =~= bracketed(plain, index as int, len as int));
    let sep = chars_of(NEWLINE);
    let joined = join_chars(&lines, &sep);
    string_of(&joined)
}

/// Index of the first line that equals `line`, or the number of lines.
pub fn find_line(lines: &Vec<Vec<char>>, line: &Vec<char>) -> (i: usize)
    ensures
        i == first_line(views(lines@), line@),
{
    let mut i: usize = 0;
    while i < lines.len()
        invariant
            i <= lines@.len(),
            forall|k: int| 0 <= k < i ==> #[trigger] views(lines@)[k] != line@,
        decreases lines@.len() - i,
    {
        match lex_rel(&lines[i], line) {
            Rel::Same => {
                proof {
                    lemma_first_line_is(views(lines@), line@, i as int);
                }
                return i;
            },
            _ => {},
        }
        i += 1;
    }
    proof {
        lemma_first_line_is(views(lines@), line@, i as int);
    }
    i
}

/// Brackets the section of a written document, which holds `len` entries,
/// with the two markers: the opening marker goes in before the line that
/// heads the section, the closing marker after the `len` lines that follow
/// the header. `None` where the text has no header line or fewer than `len`
/// lines after it.
pub fn mark_section(text: &str, len: usize) -> (r: Option<String>)
    ensures
        match r {
            Some(marked) => can_place(text@, header_line(text@), len as int) && marked@
                == place_markers(text@, header_line(text@), len as int),
            None => !can_place(text@, header_line(text@), len as int),
        },
{
    let chars = chars_of(text);
    let lines = split_lines(&chars);
    let header = chars_of(HEADER);
    let index = find_line(&lines, &header);
    let n = lines.len();
    if index < n && len <= n - index - 1 {
        Some(mark(lines, index, len))
    } else {
        None
    }
}

} // verus!
