//! The optional keyword filter that decides which lines are kept for output.

use vstd::prelude::*;
use crate::text::{chars_of, find, has_substring, lowercase_of};

verus! {

/// Whether a line whose lower-case form is `lowered` passes the filter: every
/// line passes where there is no keyword, and with a keyword the lines whose
/// lower-case form holds it.
pub open spec fn keeps_lowered(keyword: Option<Seq<char>>, lowered: Seq<char>) -> bool {
    match keyword {
        None => true,
        Some(k) => has_substring(lowered, k),
    }
}

/// Whether a line passes the filter.
pub open spec fn keeps(keyword: Option<Seq<char>>, line: Seq<char>) -> bool {
    keeps_lowered(keyword, lowercase_of(line))
}

/// The lines that pass the filter, in their order.
pub open spec fn kept_lines(keyword: Option<Seq<char>>, lines: Seq<Seq<char>>) -> Seq<Seq<char>>
    decreases lines.len(),
{
    if lines.len() == 0 {
        Seq::empty()
    } else {
        let before = kept_lines(keyword, lines.drop_last());
        if keeps(keyword, lines.last()) {
            before.push(lines.last())
        } else {
            before
        }
    }
}

/// The lines that pass the filter.
pub open spec fn passes(keyword: Option<Seq<char>>) -> spec_fn(Seq<char>) -> bool {
    |line: Seq<char>| keeps(keyword, line)
}

/// The kept lines are the lines that pass, picked out in their order.
pub proof fn lemma_kept_lines_is_filter(keyword: Option<Seq<char>>, lines: Seq<Seq<char>>)
    ensures
        kept_lines(keyword, lines) == lines.filter(passes(keyword)),
    decreases lines.len(),
{
    reveal(Seq::filter);
    if lines.len() > 0 {
        lemma_kept_lines_is_filter(keyword, lines.drop_last());
    }
}

/// Every kept line passes the filter and is one of the lines.
pub proof fn lemma_kept_lines_pass(keyword: Option<Seq<char>>, lines: Seq<Seq<char>>)
    ensures
        kept_lines(keyword, lines).len() <= lines.len(),
        forall|i: int|
            0 <= i < kept_lines(keyword, lines).len() ==> keeps(
                keyword,
                #[trigger] kept_lines(keyword, lines)[i],
            ) && lines.contains(kept_lines(keyword, lines)[i]),
    decreases lines.len(),
{
    if lines.len() > 0 {
        lemma_kept_lines_pass(keyword, lines.drop_last());
        let before = kept_lines(keyword, lines.drop_last());
        assert forall|i: int| 0 <= i < kept_lines(keyword, lines).len() implies keeps(
            keyword,
            #[trigger] kept_lines(keyword, lines)[i],
        ) && lines.contains(kept_lines(keyword, lines)[i]) by {
            if i < before.len() {
                let j = choose|j: int|
                    0 <= j < lines.drop_last().len() && lines.drop_last()[j] == before[i];
                assert(lines[j] == before[i]);
            } else {
                assert(lines[lines.len() - 1] == lines.last());
            }
        }
    }
}

/// Lines that all pass the filter are all kept.
pub proof fn lemma_kept_lines_of_passing(keyword: Option<Seq<char>>, lines: Seq<Seq<char>>)
    requires
        forall|i: int| 0 <= i < lines.len() ==> keeps(keyword, #[trigger] lines[i]),
    ensures
        kept_lines(keyword, lines) == lines,
    decreases lines.len(),
{
    if lines.len() > 0 {
        lemma_kept_lines_of_passing(keyword, lines.drop_last());
        assert(lines.drop_last().push(lines.last()) =~= lines);
    }
}

/// Filtering is idempotent: to filter the kept lines again with the same
/// keyword keeps them all.
pub proof fn lemma_filter_idempotent(keyword: Option<Seq<char>>, lines: Seq<Seq<char>>)
    ensures
        kept_lines(keyword, kept_lines(keyword, lines)) == kept_lines(keyword, lines),
{
    lemma_kept_lines_pass(keyword, lines);
    lemma_kept_lines_of_passing(keyword, kept_lines(keyword, lines));
}

/// Without a keyword every line is kept.
pub proof fn lemma_no_filter_keeps_all(lines: Seq<Seq<char>>)
    ensures
        kept_lines(None, lines) == lines,
{
    lemma_kept_lines_of_passing(None, lines);
}

/// The kept lines of two texts in a row are the kept lines of the first
/// followed by those of the second.
pub proof fn lemma_kept_lines_concat(
    keyword: Option<Seq<char>>,
    first: Seq<Seq<char>>,
    second: Seq<Seq<char>>,
)
    ensures
        kept_lines(keyword, first + second) == kept_lines(keyword, first) + kept_lines(
            keyword,
            second,
        ),
    decreases second.len(),
{
    if second.len() == 0 {
        assert(first + second =~= first);
        assert(kept_lines(keyword, first) + kept_lines(keyword, second) =~= kept_lines(
            keyword,
            first,
        ));
    } else {
        lemma_kept_lines_concat(keyword, first, second.drop_last());
        assert((first + second).drop_last() =~= first + second.drop_last());
        assert((first + second).last() == second.last());
        if keeps(keyword, second.last()) {
            assert((kept_lines(keyword, first) + kept_lines(keyword, second.drop_last())).push(
                second.last(),
            ) =~= kept_lines(keyword, first) + kept_lines(keyword, second.drop_last()).push(
                second.last(),
            ));
        }
    }
}

/// An optional keyword, held in lower case.
#[derive(Debug)]
pub struct FilterSpec {
    keyword: Option<Vec<char>>,
}

impl View for FilterSpec {
    type V = Option<Seq<char>>;

    closed spec fn view(&self) -> Option<Seq<char>> {
        match self.keyword {
            Some(k) => Some(k@),
            None => None,
        }
    }
}

impl FilterSpec {
    /// The filter that keeps every line.
    pub fn all() -> (r: Self)
        ensures
            r@ is None,
    {
        FilterSpec { keyword: None }
    }

    /// The filter for a keyword that is in lower case already.
    pub fn lowered_keyword(lowered: String) -> (r: Self)
        ensures
            r@ == Some(lowered@),
    {
        FilterSpec { keyword: Some(chars_of(lowered.as_str())) }
    }

    /// The filter for a keyword, whose lower-case form it holds.
    pub fn keyword(word: &str) -> (r: Self)
        ensures
            r@ == Some(lowercase_of(word@)),
    {
        Self::lowered_keyword(word.to_lowercase())
    }

    /// The filter for an optional keyword.
    pub fn new(word: Option<&str>) -> (r: Self)
        ensures
            r@ == match word {
                Some(w) => Some(lowercase_of(w@)),
                None => None,
            },
    {
        match word {
            Some(w) => Self::keyword(w),
            None => Self::all(),
        }
    }

    /// Whether the filter has a keyword.
    pub fn is_active(&self) -> (r: bool)
        ensures
            r == (self@ is Some),
    {
        self.keyword.is_some()
    }

    /// Whether a line passes, given the lower-case form of the line.
    pub fn retains_lowered(&self, lowered: &str) -> (r: bool)
        ensures
            r == keeps_lowered(self@, lowered@),
    {
        match &self.keyword {
            None => true,
            Some(k) => {
                let hay = chars_of(lowered);
                find(hay.as_slice(), k.as_slice()).is_some()
            },
        }
    }

    /// Whether a line passes.
    pub fn retains(&self, line: &str) -> (r: bool)
        ensures
            r == keeps(self@, line@),
    {
        if self.keyword.is_none() {
            true
        } else {
            let lowered = line.to_lowercase();
            self.retains_lowered(lowered.as_str())
        }
    }

    /// The lines that pass, in their order.
    pub fn retain_lines(&self, lines: &Vec<String>) -> (r: Vec<String>)
        ensures
            r.deep_view() == kept_lines(self@, lines.deep_view()),
    {
        let mut out: Vec<String> = Vec::new();
        let mut i: usize = 0;
        assert(out.deep_view() =~= Seq::<Seq<char>>::empty());
        assert(lines.deep_view().take(0) =~= Seq::<Seq<char>>::empty());
        while i < lines.len()
            invariant
                i <= lines.len(),
                out.deep_view() == kept_lines(self@, lines.deep_view().take(i as int)),
            decreases lines.len() - i,
        {
            let ghost before = out.deep_view();
            assert(lines.deep_view().take(i + 1).drop_last() =~= lines.deep_view().take(i as int));
            assert(lines.deep_view().take(i + 1).last() == lines[i as int]@);
            if self.retains(lines[i].as_str()) {
                let line = lines[i].clone();
                out.push(line);
                assert(out.deep_view() =~= before.push(line@));
            }
            i += 1;
        }
        assert(lines.deep_view().take(lines.len() as int) =~= lines.deep_view());
        out
    }
}

} // verus!
