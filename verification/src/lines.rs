//! Splitting a text into lines.

use vstd::prelude::*;
use crate::text::{chars_of, copy_range, text_of};

verus! {

/// The position of the first line feed at or after `from`, or the length of
/// the text where none follows.
pub open spec fn newline_from(s: Seq<char>, from: int) -> int
    decreases s.len() - from,
{
    if 0 <= from < s.len() && s[from] != '\n' {
        newline_from(s, from + 1)
    } else {
        from
    }
}

/// The position lies at or after `from`, holds a line feed unless it is the
/// length of the text, and no line feed stands before it.
pub proof fn lemma_newline_from(s: Seq<char>, from: int)
    requires
        0 <= from <= s.len(),
    ensures
        from <= newline_from(s, from) <= s.len(),
        newline_from(s, from) < s.len() ==> s[newline_from(s, from)] == '\n',
        forall|i: int| from <= i < newline_from(s, from) ==> s[i] != '\n',
    decreases s.len() - from,
{
    if from < s.len() && s[from] != '\n' {
        lemma_newline_from(s, from + 1);
    }
}

/// A line without the carriage return that stood before its line feed.
pub open spec fn without_carriage_return(line: Seq<char>) -> Seq<char> {
    if line.len() > 0 && line.last() == '\r' {
        line.drop_last()
    } else {
        line
    }
}

/// The lines of the text that begins at position `from` of `s`.
pub open spec fn lines_from(s: Seq<char>, from: int) -> Seq<Seq<char>>
    decreases s.len() - from,
{
    if 0 <= from < s.len() {
        let end = newline_from(s, from);
        if end < s.len() {
            proof {
                lemma_newline_from(s, from);
            }
            seq![without_carriage_return(s.subrange(from, end))] + lines_from(s, end + 1)
        } else {
            seq![s.subrange(from, s.len() as int)]
        }
    } else {
        Seq::empty()
    }
}

/// The lines of a text. A line ends with a line feed, or with a carriage
/// return and a line feed; neither belongs to the line. The last line may
/// lack its line feed: it then keeps a carriage return at its end. The empty
/// text has no line, and after the last line feed no empty line follows.
pub open spec fn lines_of(text: Seq<char>) -> Seq<Seq<char>> {
    lines_from(text, 0)
}

/// No line holds a line feed.
pub proof fn lemma_lines_hold_no_newline(s: Seq<char>, from: int)
    requires
        0 <= from <= s.len(),
    ensures
        forall|i: int, j: int|
            0 <= i < lines_from(s, from).len() && 0 <= j < lines_from(s, from)[i].len()
                ==> lines_from(s, from)[i][j] != '\n',
    decreases s.len() - from,
{
    if from < s.len() {
        lemma_newline_from(s, from);
        let end = newline_from(s, from);
        if end < s.len() {
            lemma_lines_hold_no_newline(s, end + 1);
            let head = without_carriage_return(s.subrange(from, end));
            let tail = lines_from(s, end + 1);
            assert forall|i: int, j: int|
                0 <= i < lines_from(s, from).len() && 0 <= j < lines_from(s, from)[i].len()
                    implies lines_from(s, from)[i][j] != '\n' by {
                if i == 0 {
                    assert(lines_from(s, from)[0] == head);
                    assert(head[j] == s[from + j]);
                } else {
                    assert(lines_from(s, from)[i] == tail[i - 1]);
                }
            }
        } else {
            assert forall|i: int, j: int|
                0 <= i < lines_from(s, from).len() && 0 <= j < lines_from(s, from)[i].len()
                    implies lines_from(s, from)[i][j] != '\n' by {
                assert(lines_from(s, from)[i][j] == s[from + j]);
            }
        }
    }
}

/// Splits a text into its lines.
pub fn split_lines(text: &str) -> (r: Vec<String>)
    ensures
        r.deep_view() == lines_of(text@),
{
    let chars = chars_of(text);
    let n = chars.len();
    let mut out: Vec<String> = Vec::new();
    let mut start: usize = 0;
    assert(out.deep_view() =~= Seq::<Seq<char>>::empty());
    while start < n
        invariant
            start <= n,
            n == chars.len(),
            chars@ == text@,
            lines_of(text@) == out.deep_view() + lines_from(chars@, start as int),
        decreases n - start,
    {
        let mut end: usize = start;
        while end < n && chars[end] != '\n'
            invariant
                start <= end <= n,
                n == chars.len(),
                newline_from(chars@, start as int) == newline_from(chars@, end as int),
            decreases n - end,
        {
            end += 1;
        }
        let ghost before = out.deep_view();
        if end == n {
            let line = text_of(copy_range(chars.as_slice(), start, n).as_slice());
            out.push(line);
            assert(out.deep_view() =~= before.push(line@));
            start = n;
        } else {
            let cut: usize = if end > start && chars[end - 1] == '\r' {
                end - 1
            } else {
                end
            };
            let line = text_of(copy_range(chars.as_slice(), start, cut).as_slice());
            assert(line@ =~= without_carriage_return(chars@.subrange(start as int, end as int)));
            out.push(line);
            assert(out.deep_view() =~= before.push(line@));
            start = end + 1;
        }
    }
    out
}

} // verus!
