//! The scan of one file: from what was found at a path, through the text of
//! the file, to the counts, the error messages and the kept lines.

use vstd::prelude::*;
use vstd::utf8::{decode_utf8, valid_utf8};
use crate::classify::{classify_line, error_key_of, severity_of};
use crate::errors::{absorbed, count_in, ErrorStat, ErrorTable};
use crate::filter::{keeps, kept_lines, FilterSpec};
use crate::lines::{lines_of, split_lines};
use crate::severity::{Severity, SeverityCounts, Tally};
use crate::text::{decode, lowercase_of};

verus! {

/// Why a file gave no result.
#[derive(Clone, Copy, Debug, PartialEq, Eq, Structural)]
pub enum FileError {
    /// Nothing exists at the path.
    NotFound,
    /// What exists at the path is no regular file.
    NotAFile,
    /// The file could not be read, or what it holds is no text.
    ReadError,
}

impl FileError {
    /// The cause in words.
    pub open spec fn cause_text(self) -> Seq<char> {
        match self {
            FileError::NotFound => "file does not exist"@,
            FileError::NotAFile => "not a regular file"@,
            FileError::ReadError => "file could not be read as text"@,
        }
    }

    /// The cause in words, for the line that reports the failure.
    pub fn cause(&self) -> (r: &'static str)
        ensures
            r@ == self.cause_text(),
    {
        match self {
            FileError::NotFound => "file does not exist",
            FileError::NotAFile => "not a regular file",
            FileError::ReadError => "file could not be read as text",
        }
    }
}

/// What the scan of one file found.
pub struct PartialView {
    pub counts: Tally,
    pub errors: Map<Seq<char>, ErrorStat>,
    pub retained: Seq<Seq<char>>,
}

/// The result of scanning one file: the number of lines of each severity,
/// the error messages with their counts, and the lines that passed the
/// filter, in their order.
#[derive(Debug)]
pub struct PartialResult {
    pub counts: SeverityCounts,
    pub errors: ErrorTable,
    pub retained: Vec<String>,
}

impl View for PartialResult {
    type V = PartialView;

    open spec fn view(&self) -> PartialView {
        PartialView {
            counts: self.counts@,
            errors: self.errors@,
            retained: self.retained.deep_view(),
        }
    }
}

/// The result that holds nothing: what a file without lines gives, and what
/// a file that failed contributes.
pub open spec fn empty_partial() -> PartialView {
    PartialView { counts: Tally::zero(), errors: Map::empty(), retained: Seq::empty() }
}

/// The result `p` after one more line. The line is counted under its
/// severity, its error message under the lower-case form of the message, and
/// it is kept if it passes the filter; the three do not depend on each other.
pub open spec fn with_line(p: PartialView, keyword: Option<Seq<char>>, line: Seq<char>)
    -> PartialView {
    PartialView {
        counts: match severity_of(line) {
            Some(s) => p.counts.bumped(s),
            None => p.counts,
        },
        errors: match error_key_of(line) {
            Some(k) => absorbed(p.errors, ErrorStat { key: lowercase_of(k), text: k, count: 1 }),
            None => p.errors,
        },
        retained: if keeps(keyword, line) {
            p.retained.push(line)
        } else {
            p.retained
        },
    }
}

/// The result of scanning the given lines, from the first to the last.
pub open spec fn scan_of(keyword: Option<Seq<char>>, lines: Seq<Seq<char>>) -> PartialView
    decreases lines.len(),
{
    if lines.len() == 0 {
        empty_partial()
    } else {
        with_line(scan_of(keyword, lines.drop_last()), keyword, lines.last())
    }
}

/// What comes of a file: the failure that the path or the reading gave, or
/// the scan of the text that the bytes hold. `content` is `None` where the
/// file could not be read.
pub open spec fn outcome_of(
    exists: bool,
    is_file: bool,
    content: Option<Seq<u8>>,
    keyword: Option<Seq<char>>,
) -> Result<PartialView, FileError> {
    if !exists {
        Err(FileError::NotFound)
    } else if !is_file {
        Err(FileError::NotAFile)
    } else {
        content_outcome(content, keyword)
    }
}

/// What comes of the content of a file that could be opened.
pub open spec fn content_outcome(content: Option<Seq<u8>>, keyword: Option<Seq<char>>) -> Result<
    PartialView,
    FileError,
> {
    match content {
        Some(bytes) if valid_utf8(bytes) => Ok(scan_of(keyword, lines_of(decode_utf8(bytes)))),
        _ => Err(FileError::ReadError),
    }
}

/// The kept lines of a scan are the lines that pass the filter, no count is
/// larger than the number of lines, and the counts of the severities add up
/// to no more than it.
pub proof fn lemma_scan_of(keyword: Option<Seq<char>>, lines: Seq<Seq<char>>)
    ensures
        scan_of(keyword, lines).retained == kept_lines(keyword, lines),
        scan_of(keyword, lines).counts.total() <= lines.len(),
        forall|k: Seq<char>| count_in(scan_of(keyword, lines).errors, k) <= lines.len(),
        forall|k: Seq<char>| #[trigger]
            scan_of(keyword, lines).errors.contains_key(k) ==> scan_of(keyword, lines).errors[k].key
                == k && scan_of(keyword, lines).errors[k].count >= 1,
    decreases lines.len(),
{
    if lines.len() > 0 {
        lemma_scan_of(keyword, lines.drop_last());
        let before = scan_of(keyword, lines.drop_last());
        let after = scan_of(keyword, lines);
        assert forall|k: Seq<char>| count_in(after.errors, k) <= lines.len() by {
            assert(count_in(before.errors, k) <= lines.len() - 1);
            assert(count_in(after.errors, k) <= count_in(before.errors, k) + 1);
        }
    }
}

/// The lines of severity `s`.
pub open spec fn has_severity(s: Severity) -> spec_fn(Seq<char>) -> bool {
    |line: Seq<char>| severity_of(line) == Some(s)
}

/// The lines whose error message is counted under the key `k`.
pub open spec fn has_error_key(k: Seq<char>) -> spec_fn(Seq<char>) -> bool {
    |line: Seq<char>|
        match error_key_of(line) {
            Some(m) => lowercase_of(m) == k,
            None => false,
        }
}

/// What a scan counts: for each severity the number of lines of that
/// severity, and for each key the number of lines whose error message is
/// counted under it.
pub proof fn lemma_scan_counts_lines(keyword: Option<Seq<char>>, lines: Seq<Seq<char>>)
    ensures
        forall|s: Severity|
            scan_of(keyword, lines).counts.count(s) == lines.filter(has_severity(s)).len(),
        forall|k: Seq<char>|
            count_in(scan_of(keyword, lines).errors, k) == lines.filter(has_error_key(k)).len(),
    decreases lines.len(),
{
    reveal(Seq::filter);
    if lines.len() > 0 {
        lemma_scan_counts_lines(keyword, lines.drop_last());
        let before = scan_of(keyword, lines.drop_last());
        assert forall|s: Severity|
            scan_of(keyword, lines).counts.count(s) == lines.filter(has_severity(s)).len() by {
            assert(before.counts.count(s) == lines.drop_last().filter(has_severity(s)).len());
        }
        assert forall|k: Seq<char>|
            count_in(scan_of(keyword, lines).errors, k) == lines.filter(
                has_error_key(k),
            ).len() by {
            assert(count_in(before.errors, k) == lines.drop_last().filter(
                has_error_key(k),
            ).len());
        }
    } else {
        assert forall|s: Severity|
            scan_of(keyword, lines).counts.count(s) == lines.filter(has_severity(s)).len() by {}
        assert forall|k: Seq<char>|
            count_in(scan_of(keyword, lines).errors, k) == lines.filter(
                has_error_key(k),
            ).len() by {}
    }
}

impl PartialResult {
    /// The result is well formed: its table of error messages is.
    pub open spec fn wf(&self) -> bool {
        self.errors.wf()
    }

    /// The result that holds nothing.
    pub fn empty() -> (r: Self)
        ensures
            r.wf(),
            r@ == empty_partial(),
    {
        let r = PartialResult {
            counts: SeverityCounts::new(),
            errors: ErrorTable::new(),
            retained: Vec::new(),
        };
        assert(r.retained.deep_view() =~= Seq::<Seq<char>>::empty());
        r
    }
}

/// Scans lines that were split already.
pub fn scan_lines(lines: &Vec<String>, filter: &FilterSpec) -> (r: PartialResult)
    ensures
        r.wf(),
        r@ == scan_of(filter@, lines.deep_view()),
{
    let mut out = PartialResult::empty();
    let mut i: usize = 0;
    assert(lines.deep_view().take(0) =~= Seq::<Seq<char>>::empty());
    while i < lines.len()
        invariant
            i <= lines.len(),
            out.wf(),
            out@ == scan_of(filter@, lines.deep_view().take(i as int)),
        decreases lines.len() - i,
    {
        let ghost done = lines.deep_view().take(i as int);
        let ghost before = out@;
        let ghost kept = out.retained.deep_view();
        proof {
            lemma_scan_of(filter@, done);
            assert(lines.deep_view().take(i + 1).drop_last() =~= done);
            assert(lines.deep_view().take(i + 1).last() == lines[i as int]@);
        }
        let line = lines[i].as_str();
        let class = classify_line(line);
        match class.severity {
            Some(s) => {
                assert(before.counts.count(s) <= before.counts.total());
                out.counts.bump(s);
            },
            None => {},
        }
        match class.error_key {
            Some(k) => {
                assert(count_in(out.errors@, lowercase_of(k@)) < usize::MAX) by {
                    assert(out.errors@ == before.errors);
                    assert(count_in(scan_of(filter@, done).errors, lowercase_of(k@))
                        <= done.len());
                    assert(done.len() == i);
                }
                out.errors.record(k.as_str());
            },
            None => {},
        }
        if filter.retains(line) {
            let copy = lines[i].clone();
            out.retained.push(copy);
            assert(out.retained.deep_view() =~= kept.push(copy@));
        }
        assert(out@ == with_line(before, filter@, lines[i as int]@));
        i += 1;
    }
    assert(lines.deep_view().take(lines.len() as int) =~= lines.deep_view());
    out
}

/// Scans a text: splits it into lines, classifies each line and applies the
/// filter to it.
pub fn scan_text(text: &str, filter: &FilterSpec) -> (r: PartialResult)
    ensures
        r.wf(),
        r@ == scan_of(filter@, lines_of(text@)),
{
    let lines = split_lines(text);
    scan_lines(&lines, filter)
}

/// Scans the bytes of a file. Bytes that are no valid UTF-8 give a
/// `ReadError`, and nothing else does.
pub fn scan_bytes(bytes: &[u8], filter: &FilterSpec) -> (r: Result<PartialResult, FileError>)
    ensures
        match r {
            Ok(p) => p.wf() && Ok::<PartialView, FileError>(p@) == content_outcome(
                Some(bytes@),
                filter@,
            ),
            Err(e) => Err::<PartialView, FileError>(e) == content_outcome(Some(bytes@), filter@),
        },
{
    match decode(bytes) {
        Some(text) => Ok(scan_text(text, filter)),
        None => Err(FileError::ReadError),
    }
}

/// Decides from what was found at a path whether the file is to be read:
/// a path at which nothing exists gives `NotFound`, one at which something
/// else than a regular file exists gives `NotAFile`.
pub fn check_path(exists: bool, is_file: bool) -> (r: Result<(), FileError>)
    ensures
        r == (if !exists {
            Err::<(), FileError>(FileError::NotFound)
        } else if !is_file {
            Err(FileError::NotAFile)
        } else {
            Ok(())
        }),
{
    if !exists {
        Err(FileError::NotFound)
    } else if !is_file {
        Err(FileError::NotAFile)
    } else {
        Ok(())
    }
}

/// Scans what was read of a file that could be opened; `None` stands for a
/// read that failed, and gives a `ReadError`.
pub fn scan_content(content: Option<&[u8]>, filter: &FilterSpec) -> (r: Result<
    PartialResult,
    FileError,
>)
    ensures
        match r {
            Ok(p) => p.wf() && Ok::<PartialView, FileError>(p@) == content_outcome(
                match content {
                    Some(b) => Some(b@),
                    None => None,
                },
                filter@,
            ),
            Err(e) => Err::<PartialView, FileError>(e) == content_outcome(
                match content {
                    Some(b) => Some(b@),
                    None => None,
                },
                filter@,
            ),
        },
{
    match content {
        Some(bytes) => scan_bytes(bytes, filter),
        None => Err(FileError::ReadError),
    }
}

/// Scans one file, given what was found at its path and what was read of it.
pub fn scan_file(exists: bool, is_file: bool, content: Option<&[u8]>, filter: &FilterSpec) -> (r:
    Result<PartialResult, FileError>)
    ensures
        match r {
            Ok(p) => p.wf() && Ok::<PartialView, FileError>(p@) == outcome_of(
                exists,
                is_file,
                match content {
                    Some(b) => Some(b@),
                    None => None,
                },
                filter@,
            ),
            Err(e) => Err::<PartialView, FileError>(e) == outcome_of(
                exists,
                is_file,
                match content {
                    Some(b) => Some(b@),
                    None => None,
                },
                filter@,
            ),
        },
{
    match check_path(exists, is_file) {
        Err(e) => Err(e),
        Ok(_) => scan_content(content, filter),
    }
}

} // verus!
