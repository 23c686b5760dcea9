//! Classification of one log line: its severity and, for an error line, the
//! message that follows the word "error".
//!
//! The keywords are ASCII words, so a line is matched against them with its
//! ASCII letters folded to lower case and every other character left as it
//! is. The folded line has the length of the line, and so the place of a
//! match in it is the place of the word in the line itself, from which the
//! message is cut in its own case. Folding by the Unicode tables would find
//! the same lines: no character beyond ASCII lowers to a letter that could
//! take part in one of these words.

use vstd::prelude::*;
use crate::severity::Severity;
use crate::text::{
    ascii_lowered, chars_of, copy_range, cut_whitespace_back, find, first_occurrence,
    has_substring, is_whitespace, lemma_first_occurrence_exists, lemma_first_occurrence_is,
    lemma_substring_of_needle, occurs_at, skip_whitespace, text_of, to_ascii_lowered,
    whitespace_end, whitespace_start_back,
};

verus! {

/// The word that marks an error line.
pub open spec fn keyword_error() -> Seq<char> {
    seq!['e', 'r', 'r', 'o', 'r']
}

/// The shorter word that marks a warning line.
pub open spec fn keyword_warn() -> Seq<char> {
    seq!['w', 'a', 'r', 'n']
}

/// The longer word that marks a warning line; it holds the shorter one.
pub open spec fn keyword_warning() -> Seq<char> {
    seq!['w', 'a', 'r', 'n', 'i', 'n', 'g']
}

/// The word that marks an info line.
pub open spec fn keyword_info() -> Seq<char> {
    seq!['i', 'n', 'f', 'o']
}

/// The severity of a line. The keywords are looked for without regard to the
/// case of the line's ASCII letters, and the first rule that applies decides:
/// "error", then "warn" or "warning", then "info". A line with none of them
/// has no severity.
pub open spec fn severity_of(line: Seq<char>) -> Option<Severity> {
    let low = ascii_lowered(line);
    if has_substring(low, keyword_error()) {
        Some(Severity::Error)
    } else if has_substring(low, keyword_warn()) || has_substring(low, keyword_warning()) {
        Some(Severity::Warning)
    } else if has_substring(low, keyword_info()) {
        Some(Severity::Info)
    } else {
        None
    }
}

/// The characters that may separate the word "error" from its message.
pub open spec fn is_separator(c: char) -> bool {
    c == ' ' || c == ':' || c == '-'
}

/// The first position at or after `from` that holds no separator, or the
/// length of the text.
pub open spec fn separators_end(s: Seq<char>, from: int) -> int
    decreases s.len() - from,
{
    if 0 <= from < s.len() && is_separator(s[from]) {
        separators_end(s, from + 1)
    } else {
        from
    }
}

/// Where the error message of a line begins and ends, given the position at
/// which the word "error" begins: after the word, the separators that follow
/// it and the white space after those, and before the white space at the end
/// of the line.
pub open spec fn message_span(line: Seq<char>, word_at: int) -> (int, int) {
    let begin = whitespace_end(line, separators_end(line, word_at + keyword_error().len()));
    (begin, whitespace_start_back(line, begin, line.len() as int))
}

/// The error message of a line: the text of the line itself, in its own
/// case, that follows the leftmost "error", trimmed. A line without the word
/// has none, and neither has one on which nothing is left after trimming.
pub open spec fn error_key_of(line: Seq<char>) -> Option<Seq<char>> {
    let low = ascii_lowered(line);
    if has_substring(low, keyword_error()) {
        let (begin, end) = message_span(line, first_occurrence(low, keyword_error()));
        if begin < end {
            Some(line.subrange(begin, end))
        } else {
            None
        }
    } else {
        None
    }
}

/// What the classifier says of one line.
#[derive(Debug)]
pub struct LineClass {
    pub severity: Option<Severity>,
    pub error_key: Option<String>,
}

impl LineClass {
    /// The error message as a sequence of characters.
    pub open spec fn key_text(&self) -> Option<Seq<char>> {
        match self.error_key {
            Some(k) => Some(k@),
            None => None,
        }
    }
}

/// The span of an error message lies within its line, after the word.
pub proof fn lemma_message_span(line: Seq<char>, word_at: int)
    requires
        0 <= word_at,
        word_at + keyword_error().len() <= line.len(),
    ensures
        word_at + keyword_error().len() <= message_span(line, word_at).0,
        message_span(line, word_at).0 <= message_span(line, word_at).1 <= line.len(),
{
    let after = word_at + keyword_error().len();
    lemma_separators_end(line, after);
    lemma_whitespace_end(line, separators_end(line, after));
    lemma_whitespace_start_back(line, message_span(line, word_at).0, line.len() as int);
}

/// What is cut around an error message is padding, and all of it: between
/// the word and the message stand separators and then white space, after the
/// message stands white space to the end of the line, and the message does
/// not begin or end with white space.
pub proof fn lemma_message_span_trims(line: Seq<char>, word_at: int)
    requires
        0 <= word_at,
        word_at + keyword_error().len() <= line.len(),
    ensures
        ({
            let after = word_at + keyword_error().len();
            let middle = separators_end(line, after);
            let (begin, end) = message_span(line, word_at);
            &&& after <= middle <= begin <= end <= line.len()
            &&& forall|i: int| after <= i < middle ==> is_separator(line[i])
            &&& middle < line.len() ==> !is_separator(line[middle])
            &&& forall|i: int| middle <= i < begin ==> is_whitespace(line[i])
            &&& forall|i: int| end <= i < line.len() ==> is_whitespace(line[i])
            &&& begin < end ==> !is_whitespace(line[begin]) && !is_whitespace(line[end - 1])
        }),
{
    let after = word_at + keyword_error().len();
    let middle = separators_end(line, after);
    let (begin, end) = message_span(line, word_at);
    lemma_message_span(line, word_at);
    lemma_separators_end(line, after);
    lemma_separators_run(line, after);
    lemma_whitespace_end(line, middle);
    lemma_whitespace_run(line, middle);
    lemma_whitespace_start_back(line, begin, line.len() as int);
    lemma_whitespace_run_back(line, begin, line.len() as int);
}

proof fn lemma_separators_run(s: Seq<char>, from: int)
    requires
        0 <= from,
    ensures
        forall|i: int| from <= i < separators_end(s, from) ==> is_separator(s[i]),
    decreases s.len() - from,
{
    if from < s.len() && is_separator(s[from]) {
        lemma_separators_run(s, from + 1);
    }
}

proof fn lemma_whitespace_run(s: Seq<char>, from: int)
    requires
        0 <= from,
    ensures
        forall|i: int| from <= i < whitespace_end(s, from) ==> is_whitespace(s[i]),
    decreases s.len() - from,
{
    if from < s.len() && is_whitespace(s[from]) {
        lemma_whitespace_run(s, from + 1);
    }
}

proof fn lemma_whitespace_run_back(s: Seq<char>, low: int, to: int)
    requires
        0 <= low <= to <= s.len(),
    ensures
        forall|i: int| whitespace_start_back(s, low, to) <= i < to ==> is_whitespace(s[i]),
    decreases to,
{
    if low < to && is_whitespace(s[to - 1]) {
        lemma_whitespace_run_back(s, low, to - 1);
    }
}

/// Only an error line has an error message, and the message is never empty.
pub proof fn lemma_key_implies_error(line: Seq<char>)
    ensures
        error_key_of(line) is Some ==> severity_of(line) == Some(Severity::Error),
        error_key_of(line) matches Some(k) ==> k.len() > 0,
{
    let low = ascii_lowered(line);
    if has_substring(low, keyword_error()) {
        lemma_first_occurrence_exists(low, keyword_error());
        lemma_message_span(line, first_occurrence(low, keyword_error()));
    }
}

/// An error message begins and ends with a character that is no white space.
pub proof fn lemma_key_is_trimmed(line: Seq<char>)
    ensures
        error_key_of(line) matches Some(k) ==> !is_whitespace(k.first()) && !is_whitespace(
            k.last(),
        ),
{
    let low = ascii_lowered(line);
    if has_substring(low, keyword_error()) {
        lemma_first_occurrence_exists(low, keyword_error());
        let at = first_occurrence(low, keyword_error());
        let (begin, end) = message_span(line, at);
        lemma_message_span_trims(line, at);
        if begin < end {
            let k = line.subrange(begin, end);
            assert(k.first() == line[begin]);
            assert(k.last() == line[end - 1]);
        }
    }
}

proof fn lemma_separators_end(s: Seq<char>, from: int)
    requires
        0 <= from,
    ensures
        from <= separators_end(s, from),
        from <= s.len() ==> separators_end(s, from) <= s.len(),
        separators_end(s, from) < s.len() ==> !is_separator(s[separators_end(s, from)]),
    decreases s.len() - from,
{
    if from < s.len() && is_separator(s[from]) {
        lemma_separators_end(s, from + 1);
    }
}

proof fn lemma_whitespace_end(s: Seq<char>, from: int)
    requires
        0 <= from,
    ensures
        from <= whitespace_end(s, from),
        from <= s.len() ==> whitespace_end(s, from) <= s.len(),
        whitespace_end(s, from) < s.len() ==> !is_whitespace(
            s[whitespace_end(s, from)],
        ),
    decreases s.len() - from,
{
    if from < s.len() && is_whitespace(s[from]) {
        lemma_whitespace_end(s, from + 1);
    }
}

proof fn lemma_whitespace_start_back(s: Seq<char>, low: int, to: int)
    requires
        0 <= low <= to <= s.len(),
    ensures
        low <= whitespace_start_back(s, low, to) <= to,
        low < whitespace_start_back(s, low, to) ==> !is_whitespace(
            s[whitespace_start_back(s, low, to) - 1],
        ),
    decreases to,
{
    if low < to && is_whitespace(s[to - 1]) {
        lemma_whitespace_start_back(s, low, to - 1);
    }
}

fn skip_separators(s: &[char], from: usize) -> (r: usize)
    requires
        from <= s.len(),
    ensures
        r == separators_end(s@, from as int),
        from <= r <= s.len(),
{
    let mut i: usize = from;
    while i < s.len() && (s[i] == ' ' || s[i] == ':' || s[i] == '-')
        invariant
            from <= i <= s.len(),
            separators_end(s@, from as int) == separators_end(s@, i as int),
        decreases s.len() - i,
    {
        i += 1;
    }
    i
}

/// Classifies a line given as characters.
pub fn classify_chars(line: &[char]) -> (r: LineClass)
    ensures
        r.severity == severity_of(line@),
        r.key_text() == error_key_of(line@),
{
    let length = line.len();
    let low = to_ascii_lowered(line);
    let error: [char; 5] = ['e', 'r', 'r', 'o', 'r'];
    let warn: [char; 4] = ['w', 'a', 'r', 'n'];
    let info: [char; 4] = ['i', 'n', 'f', 'o'];
    assert(error@ =~= keyword_error());
    assert(warn@ =~= keyword_warn());
    assert(info@ =~= keyword_info());
    match find(low.as_slice(), error.as_slice()) {
        Some(at) => {
            proof {
                lemma_first_occurrence_is(low@, keyword_error(), at as int);
                assert(occurs_at(low@, keyword_error(), at as int));
                assert(keyword_error().len() == 5);
                assert(low@.len() == line@.len());
            }
            let after = skip_separators(line, at + 5);
            let begin = skip_whitespace(line, after);
            let end = cut_whitespace_back(line, begin, length);
            let error_key = if begin < end {
                Some(text_of(copy_range(line, begin, end).as_slice()))
            } else {
                None
            };
            LineClass { severity: Some(Severity::Error), error_key }
        },
        None => {
            if find(low.as_slice(), warn.as_slice()).is_some() {
                LineClass { severity: Some(Severity::Warning), error_key: None }
            } else {
                proof {
                    if has_substring(low@, keyword_warning()) {
                        assert(occurs_at(keyword_warning(), keyword_warn(), 0)) by {
                            assert(keyword_warning().subrange(0, 4) =~= keyword_warn());
                        }
                        lemma_substring_of_needle(low@, keyword_warning(), keyword_warn());
                    }
                }
                if find(low.as_slice(), info.as_slice()).is_some() {
                    LineClass { severity: Some(Severity::Info), error_key: None }
                } else {
                    LineClass { severity: None, error_key: None }
                }
            }
        },
    }
}

/// Classifies a line. The result depends on the characters of the line alone.
pub fn classify_line(line: &str) -> (r: LineClass)
    ensures
        r.severity == severity_of(line@),
        r.key_text() == error_key_of(line@),
{
    let chars = chars_of(line);
    classify_chars(chars.as_slice())
}

} // verus!
