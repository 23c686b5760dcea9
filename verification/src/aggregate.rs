//! The aggregate of the per-file results: what the merge of a result does,
//! why the order of the merges does not matter to the counts, and the
//! bookkeeping of which files have reported.

use vstd::prelude::*;
use vstd::multiset::Multiset;
use vstd::seq_lib::{lemma_multiset_commutative, to_multiset_build, to_multiset_remove};
use crate::errors::{
    count_in, lemma_merged_empty, merged, well_formed_contents, ErrorStat, ErrorTable,
};
use crate::scan::{empty_partial, FileError, PartialResult, PartialView};
use crate::severity::{Severity, SeverityCounts, Tally};

verus! {

/// What the aggregate holds: the merged counts of the severities, the merged
/// table of error messages, and the kept lines of all files.
pub struct AggregateView {
    pub counts: Tally,
    pub errors: Map<Seq<char>, ErrorStat>,
    pub content: Seq<Seq<char>>,
}

/// The aggregate before any file has reported.
pub open spec fn empty_state() -> AggregateView {
    AggregateView { counts: Tally::zero(), errors: Map::empty(), content: Seq::empty() }
}

/// The aggregate `a` after the merge of the result `p`: counts are added,
/// and the kept lines of `p` follow those that were there.
pub open spec fn merged_state(a: AggregateView, p: PartialView) -> AggregateView {
    AggregateView {
        counts: a.counts.plus(p.counts),
        errors: merged(a.errors, p.errors),
        content: a.content + p.retained,
    }
}

/// The aggregate after the merge of the given results, one after the other.
pub open spec fn merged_all(parts: Seq<PartialView>) -> AggregateView
    decreases parts.len(),
{
    if parts.len() == 0 {
        empty_state()
    } else {
        merged_state(merged_all(parts.drop_last()), parts.last())
    }
}

/// What is counted in a result: the lines of a severity, or the sightings
/// of an error message.
pub enum Counted {
    Lines(Severity),
    Sightings(Seq<char>),
}

/// How many of `what` the result `p` holds.
pub open spec fn counted_in(p: PartialView, what: Counted) -> nat {
    match what {
        Counted::Lines(s) => p.counts.count(s),
        Counted::Sightings(k) => count_in(p.errors, k),
    }
}

/// How many of `what` the given results hold together.
pub open spec fn sum_of(parts: Seq<PartialView>, what: Counted) -> nat
    decreases parts.len(),
{
    if parts.len() == 0 {
        0
    } else {
        sum_of(parts.drop_last(), what) + counted_in(parts.last(), what)
    }
}

/// The number of lines of severity `s` in all of the given results.
pub open spec fn total_severity(parts: Seq<PartialView>, s: Severity) -> nat {
    sum_of(parts, Counted::Lines(s))
}

/// The number of sightings of the key `k` in all of the given results.
pub open spec fn total_key(parts: Seq<PartialView>, k: Seq<char>) -> nat {
    sum_of(parts, Counted::Sightings(k))
}

/// The kept lines of the given results, one result after the other.
pub open spec fn all_retained(parts: Seq<PartialView>) -> Seq<Seq<char>>
    decreases parts.len(),
{
    if parts.len() == 0 {
        Seq::empty()
    } else {
        all_retained(parts.drop_last()) + parts.last().retained
    }
}

/// After any number of merges, each count of the aggregate is the sum of the
/// counts of the merged results, and its content their kept lines in a row.
pub proof fn lemma_merged_all_sums(parts: Seq<PartialView>)
    ensures
        forall|s: Severity| merged_all(parts).counts.count(s) == total_severity(parts, s),
        forall|k: Seq<char>| count_in(merged_all(parts).errors, k) == total_key(parts, k),
        merged_all(parts).content == all_retained(parts),
    decreases parts.len(),
{
    if parts.len() > 0 {
        lemma_merged_all_sums(parts.drop_last());
        let before = merged_all(parts.drop_last());
        assert forall|s: Severity| merged_all(parts).counts.count(s) == total_severity(
            parts,
            s,
        ) by {
            assert(before.counts.count(s) == total_severity(parts.drop_last(), s));
        }
        assert forall|k: Seq<char>| count_in(merged_all(parts).errors, k) == total_key(
            parts,
            k,
        ) by {
            assert(count_in(before.errors, k) == total_key(parts.drop_last(), k));
        }
    }
}

proof fn lemma_sum_without(parts: Seq<PartialView>, f: Counted, i: int)
    requires
        0 <= i < parts.len(),
    ensures
        sum_of(parts, f) == sum_of(parts.remove(i), f) + counted_in(parts[i], f),
    decreases parts.len(),
{
    if i == parts.len() - 1 {
        assert(parts.remove(i) =~= parts.drop_last());
    } else {
        lemma_sum_without(parts.drop_last(), f, i);
        assert(parts.remove(i).drop_last() =~= parts.drop_last().remove(i));
        assert(parts.remove(i).last() == parts.last());
    }
}

/// A sum over results does not depend on their order.
pub proof fn lemma_sum_of_permutation(
    a: Seq<PartialView>,
    b: Seq<PartialView>,
    f: Counted,
)
    requires
        a.to_multiset() == b.to_multiset(),
    ensures
        sum_of(a, f) == sum_of(b, f),
    decreases a.len(),
{
    a.to_multiset_ensures();
    b.to_multiset_ensures();
    if a.len() > 0 {
        let x = a.last();
        let rest = a.drop_last();
        assert(rest.push(x) =~= a);
        to_multiset_build(rest, x);
        assert(b.to_multiset().count(x) > 0);
        assert(b.contains(x));
        let i = choose|i: int| 0 <= i < b.len() && b[i] == x;
        to_multiset_remove(b, i);
        assert(b.remove(i).to_multiset() =~= rest.to_multiset());
        lemma_sum_of_permutation(rest, b.remove(i), f);
        lemma_sum_without(b, f, i);
    }
}

/// The merged counts do not depend on the order of the merges: where two
/// sequences hold the same results, each as often in the one as in the
/// other, the aggregates of both count the same for every severity and for
/// every error message.
pub proof fn lemma_merge_order_independent(a: Seq<PartialView>, b: Seq<PartialView>)
    requires
        a.to_multiset() == b.to_multiset(),
    ensures
        merged_all(a).counts == merged_all(b).counts,
        forall|k: Seq<char>|
            count_in(merged_all(a).errors, k) == count_in(merged_all(b).errors, k),
        forall|k: Seq<char>|
            merged_all(a).errors.contains_key(k) == merged_all(b).errors.contains_key(k),
{
    lemma_merged_all_sums(a);
    lemma_merged_all_sums(b);
    assert forall|s: Severity| merged_all(a).counts.count(s) == merged_all(b).counts.count(
        s,
    ) by {
        lemma_sum_of_permutation(a, b, Counted::Lines(s));
        assert(merged_all(a).counts.count(s) == total_severity(a, s));
        assert(merged_all(b).counts.count(s) == total_severity(b, s));
    }
    assert(merged_all(a).counts.count(Severity::Error) == merged_all(b).counts.count(
        Severity::Error,
    ));
    assert(merged_all(a).counts.count(Severity::Warning) == merged_all(b).counts.count(
        Severity::Warning,
    ));
    assert(merged_all(a).counts.count(Severity::Info) == merged_all(b).counts.count(
        Severity::Info,
    ));
    assert forall|k: Seq<char>|
        count_in(merged_all(a).errors, k) == count_in(merged_all(b).errors, k) by {
        lemma_sum_of_permutation(a, b, Counted::Sightings(k));
        assert(count_in(merged_all(a).errors, k) == total_key(a, k));
        assert(count_in(merged_all(b).errors, k) == total_key(b, k));
    }
    assert forall|k: Seq<char>|
        merged_all(a).errors.contains_key(k) == merged_all(b).errors.contains_key(k) by {
        lemma_keys_of_merged_all(a, k);
        lemma_keys_of_merged_all(b, k);
        lemma_holds_key_permutation(a, b, k);
    }
}

/// The kept lines of the given results as a bag: each line as often as the
/// results keep it, without regard to order.
pub open spec fn retained_bag(parts: Seq<PartialView>) -> Multiset<Seq<char>>
    decreases parts.len(),
{
    if parts.len() == 0 {
        Multiset::empty()
    } else {
        retained_bag(parts.drop_last()).add(parts.last().retained.to_multiset())
    }
}

/// The content of the aggregate holds the kept lines of the merged results,
/// each as often as they keep it.
pub proof fn lemma_content_bag(parts: Seq<PartialView>)
    ensures
        merged_all(parts).content.to_multiset() == retained_bag(parts),
    decreases parts.len(),
{
    if parts.len() == 0 {
        Seq::<Seq<char>>::empty().to_multiset_ensures();
        assert(merged_all(parts).content.to_multiset() =~= retained_bag(parts));
    } else {
        lemma_content_bag(parts.drop_last());
        lemma_multiset_commutative(merged_all(parts.drop_last()).content, parts.last().retained);
    }
}

proof fn lemma_bag_without(parts: Seq<PartialView>, i: int)
    requires
        0 <= i < parts.len(),
    ensures
        retained_bag(parts) == retained_bag(parts.remove(i)).add(parts[i].retained.to_multiset()),
    decreases parts.len(),
{
    if i == parts.len() - 1 {
        assert(parts.remove(i) =~= parts.drop_last());
    } else {
        lemma_bag_without(parts.drop_last(), i);
        assert(parts.remove(i).drop_last() =~= parts.drop_last().remove(i));
        assert(parts.remove(i).last() == parts.last());
        assert(retained_bag(parts) =~= retained_bag(parts.remove(i)).add(
            parts[i].retained.to_multiset(),
        ));
    }
}

/// Which lines the aggregate holds, and how often each, does not depend on
/// the order of the merges.
pub proof fn lemma_content_order_independent(a: Seq<PartialView>, b: Seq<PartialView>)
    requires
        a.to_multiset() == b.to_multiset(),
    ensures
        merged_all(a).content.to_multiset() == merged_all(b).content.to_multiset(),
{
    lemma_content_bag(a);
    lemma_content_bag(b);
    lemma_bag_permutation(a, b);
}

proof fn lemma_bag_permutation(a: Seq<PartialView>, b: Seq<PartialView>)
    requires
        a.to_multiset() == b.to_multiset(),
    ensures
        retained_bag(a) == retained_bag(b),
    decreases a.len(),
{
    a.to_multiset_ensures();
    b.to_multiset_ensures();
    if a.len() > 0 {
        let x = a.last();
        let rest = a.drop_last();
        assert(rest.push(x) =~= a);
        to_multiset_build(rest, x);
        assert(b.to_multiset().count(x) > 0);
        assert(b.contains(x));
        let i = choose|i: int| 0 <= i < b.len() && b[i] == x;
        to_multiset_remove(b, i);
        assert(b.remove(i).to_multiset() =~= rest.to_multiset());
        lemma_bag_permutation(rest, b.remove(i));
        lemma_bag_without(b, i);
    }
}

/// Some result of the sequence has the key.
pub open spec fn some_part_has_key(parts: Seq<PartialView>, k: Seq<char>) -> bool {
    exists|i: int| 0 <= i < parts.len() && (#[trigger] parts[i]).errors.contains_key(k)
}

/// The aggregate has the keys of the merged results and no others.
pub proof fn lemma_keys_of_merged_all(parts: Seq<PartialView>, k: Seq<char>)
    ensures
        merged_all(parts).errors.contains_key(k) == some_part_has_key(parts, k),
    decreases parts.len(),
{
    if parts.len() > 0 {
        lemma_keys_of_merged_all(parts.drop_last(), k);
        if some_part_has_key(parts.drop_last(), k) {
            let i = choose|i: int|
                0 <= i < parts.drop_last().len() && (#[trigger] parts.drop_last()[i]).errors.contains_key(
                    k,
                );
            assert(parts[i].errors.contains_key(k));
        }
        if parts.last().errors.contains_key(k) {
            assert(parts[parts.len() - 1].errors.contains_key(k));
        }
        if some_part_has_key(parts, k) {
            let i = choose|i: int|
                0 <= i < parts.len() && (#[trigger] parts[i]).errors.contains_key(k);
            if i < parts.len() - 1 {
                assert(parts.drop_last()[i].errors.contains_key(k));
            }
        }
    }
}

proof fn lemma_holds_key_permutation(a: Seq<PartialView>, b: Seq<PartialView>, k: Seq<char>)
    requires
        a.to_multiset() == b.to_multiset(),
    ensures
        some_part_has_key(a, k) == some_part_has_key(b, k),
{
    a.to_multiset_ensures();
    b.to_multiset_ensures();
    if some_part_has_key(a, k) {
        let i = choose|i: int| 0 <= i < a.len() && (#[trigger] a[i]).errors.contains_key(k);
        assert(a.contains(a[i]));
        assert(b.to_multiset().count(a[i]) > 0);
        assert(b.contains(a[i]));
        let j = choose|j: int| 0 <= j < b.len() && b[j] == a[i];
        assert(b[j].errors.contains_key(k));
    }
    if some_part_has_key(b, k) {
        let i = choose|i: int| 0 <= i < b.len() && (#[trigger] b[i]).errors.contains_key(k);
        assert(b.contains(b[i]));
        assert(a.to_multiset().count(b[i]) > 0);
        assert(a.contains(b[i]));
        let j = choose|j: int| 0 <= j < a.len() && a[j] == b[i];
        assert(a[j].errors.contains_key(k));
    }
}

/// A result that holds nothing changes no aggregate.
pub proof fn lemma_empty_contribution(a: AggregateView)
    requires
        well_formed_contents(a.errors),
    ensures
        merged_state(a, empty_partial()) == a,
{
    lemma_merged_empty(a.errors);
    assert(merged_state(a, empty_partial()).content =~= a.content);
}

/// The merged results of all files that have reported.
pub struct AggregateState {
    counts: SeverityCounts,
    errors: ErrorTable,
    content: Vec<String>,
    history: Ghost<Seq<PartialView>>,
}

impl View for AggregateState {
    type V = AggregateView;

    closed spec fn view(&self) -> AggregateView {
        AggregateView {
            counts: self.counts@,
            errors: self.errors@,
            content: self.content.deep_view(),
        }
    }
}

impl AggregateState {
    /// The results that were merged, in the order of their merges.
    pub closed spec fn history(&self) -> Seq<PartialView> {
        self.history@
    }

    /// The state is well formed: it holds what the merges of its history
    /// give.
    pub closed spec fn wf(&self) -> bool {
        &&& self.errors.wf()
        &&& self@ == merged_all(self.history@)
    }

    /// The counts of `partial` can be added to those of the state within the
    /// machine's range.
    pub open spec fn fits(&self, partial: &PartialResult) -> bool {
        &&& forall|s: Severity| self@.counts.count(s) + partial@.counts.count(s) <= usize::MAX
        &&& forall|k: Seq<char>|
            count_in(self@.errors, k) + count_in(partial@.errors, k) <= usize::MAX
    }

    /// In a well-formed state every count is the sum of the counts of the
    /// merged results: for each severity, and for each error message.
    pub proof fn lemma_counts_are_sums(&self)
        requires
            self.wf(),
        ensures
            forall|s: Severity| self@.counts.count(s) == total_severity(self.history(), s),
            forall|k: Seq<char>| count_in(self@.errors, k) == total_key(self.history(), k),
            self@.content == all_retained(self.history()),
            well_formed_contents(self@.errors),
    {
        lemma_merged_all_sums(self.history@);
        self.errors.lemma_wf_contents();
    }

    /// The state before any merge.
    pub fn new() -> (r: Self)
        ensures
            r.wf(),
            r.history() == Seq::<PartialView>::empty(),
            r@ == empty_state(),
    {
        let r = AggregateState {
            counts: SeverityCounts::new(),
            errors: ErrorTable::new(),
            content: Vec::new(),
            history: Ghost(Seq::empty()),
        };
        assert(r.content.deep_view() =~= Seq::<Seq<char>>::empty());
        r
    }

    /// Whether the counts of `partial` can be added to those of the state.
    pub fn can_merge(&self, partial: &PartialResult) -> (r: bool)
        requires
            self.wf(),
            partial.wf(),
        ensures
            r == self.fits(partial),
    {
        let r = self.counts.can_add(&partial.counts) && self.errors.can_merge(&partial.errors);
        proof {
            assert(self@.counts == self.counts@);
            assert(self@.errors == self.errors@);
            if self.fits(partial) {
                assert forall|s: Severity|
                    self.counts@.count(s) + partial.counts@.count(s) <= usize::MAX by {
                    assert(self@.counts.count(s) + partial@.counts.count(s) <= usize::MAX);
                }
                assert forall|k: Seq<char>|
                    count_in(self.errors@, k) + count_in(partial.errors@, k) <= usize::MAX by {
                    assert(count_in(self@.errors, k) + count_in(partial@.errors, k)
                        <= usize::MAX);
                }
            }
        }
        r
    }

    /// Merges the result of one file into the state.
    pub fn merge(&mut self, partial: PartialResult)
        requires
            old(self).wf(),
            partial.wf(),
            old(self).fits(&partial),
        ensures
            final(self).wf(),
            final(self).history() == old(self).history().push(partial@),
            final(self)@ == merged_state(old(self)@, partial@),
    {
        let ghost before = self.content.deep_view();
        let ghost added = partial.retained.deep_view();
        let mut partial = partial;
        proof {
            assert(self@.counts == self.counts@);
            assert(self@.errors == self.errors@);
            assert forall|s: Severity|
                self.counts@.count(s) + partial.counts@.count(s) <= usize::MAX by {
                assert(self@.counts.count(s) + partial@.counts.count(s) <= usize::MAX);
            }
            assert forall|k: Seq<char>|
                count_in(self.errors@, k) + count_in(partial.errors@, k) <= usize::MAX by {
                assert(count_in(self@.errors, k) + count_in(partial@.errors, k) <= usize::MAX);
            }
        }
        self.counts.add(&partial.counts);
        self.errors.merge(&partial.errors);
        self.content.append(&mut partial.retained);
        assert(self.content.deep_view() =~= before + added);
        proof {
            let ghost view = PartialView {
                counts: partial.counts@,
                errors: partial.errors@,
                retained: added,
            };
            assert(self.history@.push(view).drop_last() =~= self.history@);
            self.history = Ghost(self.history@.push(view));
        }
    }

    /// Records that a file reported without a result. It joins the history
    /// as a result that holds nothing, and the state holds what it held.
    pub fn merge_nothing(&mut self)
        requires
            old(self).wf(),
        ensures
            final(self).wf(),
            final(self).history() == old(self).history().push(empty_partial()),
            final(self)@ == old(self)@,
    {
        proof {
            self.errors.lemma_wf_contents();
            lemma_empty_contribution(self@);
            assert(self.history@.push(empty_partial()).drop_last() =~= self.history@);
            self.history = Ghost(self.history@.push(empty_partial()));
        }
    }

    /// The number of lines of a severity.
    pub fn count(&self, s: Severity) -> (r: usize)
        ensures
            r == self@.counts.count(s),
    {
        self.counts.get(s)
    }

    /// The merged table of error messages.
    pub fn errors(&self) -> (r: &ErrorTable)
        requires
            self.wf(),
        ensures
            r.wf(),
            r@ == self@.errors,
    {
        &self.errors
    }

    /// The kept lines of all merged results.
    pub fn content(&self) -> (r: &Vec<String>)
        ensures
            r.deep_view() == self@.content,
    {
        &self.content
    }
}

/// What the outcome of a file is in terms of what was found.
pub open spec fn outcome_view(outcome: Result<PartialResult, FileError>) -> Result<
    PartialView,
    FileError,
> {
    match outcome {
        Ok(p) => Ok(p@),
        Err(e) => Err(e),
    }
}

/// What a file contributes to the aggregate: its result, or nothing where it
/// failed.
pub open spec fn contribution(outcome: Result<PartialView, FileError>) -> PartialView {
    match outcome {
        Ok(p) => p,
        Err(_) => empty_partial(),
    }
}

/// The aggregate of a batch of files together with the count of the files
/// that have reported. Every file reports once, with its result or with its
/// failure, and the aggregate is handed out when all have.
pub struct Aggregator {
    state: AggregateState,
    expected: usize,
    reported: usize,
    failed: usize,
}

impl Aggregator {
    /// The number of files of the batch.
    pub closed spec fn expected_files(&self) -> nat {
        self.expected as nat
    }

    /// The number of files that have reported.
    pub closed spec fn reported_files(&self) -> nat {
        self.reported as nat
    }

    /// The number of files that have reported a failure.
    pub closed spec fn failed_files(&self) -> nat {
        self.failed as nat
    }

    /// The aggregate of the files that have reported.
    pub closed spec fn aggregate(&self) -> AggregateState {
        self.state
    }

    /// The aggregator is well formed: its aggregate is, no more files have
    /// reported than the batch has, and each of them stands in the history.
    pub closed spec fn wf(&self) -> bool {
        &&& self.state.wf()
        &&& self.failed <= self.reported <= self.expected
        &&& self.state.history().len() == self.reported
    }

    /// Every file has reported.
    pub open spec fn is_complete(&self) -> bool {
        self.reported_files() == self.expected_files()
    }

    /// The outcome of one more file can be taken in: a file is missing yet,
    /// and the counts of the outcome fit.
    pub open spec fn accepts(&self, outcome: &Result<PartialResult, FileError>) -> bool {
        &&& !self.is_complete()
        &&& outcome matches Ok(p) ==> self.aggregate().fits(&p)
    }

    /// What holds of every well-formed aggregator.
    pub proof fn lemma_wf(&self)
        requires
            self.wf(),
        ensures
            self.aggregate().wf(),
            self.aggregate().history().len() == self.reported_files(),
            self.failed_files() <= self.reported_files() <= self.expected_files(),
    {
    }

    /// The aggregator for a batch of `expected` files, none of which has
    /// reported.
    pub fn new(expected: usize) -> (r: Self)
        ensures
            r.wf(),
            r.expected_files() == expected,
            r.reported_files() == 0,
            r.failed_files() == 0,
            r.aggregate()@ == empty_state(),
    {
        Aggregator { state: AggregateState::new(), expected, reported: 0, failed: 0 }
    }

    /// The number of files that have not reported.
    pub fn pending(&self) -> (r: usize)
        requires
            self.wf(),
        ensures
            r == self.expected_files() - self.reported_files(),
    {
        self.expected - self.reported
    }

    /// The number of files that have reported a failure.
    pub fn failures(&self) -> (r: usize)
        ensures
            r == self.failed_files(),
    {
        self.failed
    }

    /// Whether every file has reported.
    pub fn all_reported(&self) -> (r: bool)
        ensures
            r == self.is_complete(),
    {
        self.reported == self.expected
    }

    /// Whether the outcome of one more file can be taken in.
    pub fn can_accept(&self, outcome: &Result<PartialResult, FileError>) -> (r: bool)
        requires
            self.wf(),
            outcome matches Ok(p) ==> p.wf(),
        ensures
            r == self.accepts(outcome),
    {
        if self.reported == self.expected {
            false
        } else {
            match outcome {
                Ok(p) => self.state.can_merge(p),
                Err(_) => true,
            }
        }
    }

    /// Takes in the outcome of one file. A result is merged into the
    /// aggregate; a failure leaves the aggregate as it is. Either way the
    /// file has reported.
    pub fn accept(&mut self, outcome: Result<PartialResult, FileError>)
        requires
            old(self).wf(),
            outcome matches Ok(p) ==> p.wf(),
            old(self).accepts(&outcome),
        ensures
            final(self).wf(),
            final(self).expected_files() == old(self).expected_files(),
            final(self).reported_files() == old(self).reported_files() + 1,
            final(self).failed_files() == old(self).failed_files() + (if outcome is Err {
                1nat
            } else {
                0nat
            }),
            final(self).aggregate().history() == old(self).aggregate().history().push(
                contribution(outcome_view(outcome)),
            ),
            final(self).aggregate()@ == merged_state(
                old(self).aggregate()@,
                contribution(outcome_view(outcome)),
            ),
            outcome is Err ==> final(self).aggregate()@ == old(self).aggregate()@,
    {
        match outcome {
            Ok(p) => {
                self.state.merge(p);
            },
            Err(_) => {
                proof {
                    self.state.lemma_counts_are_sums();
                    lemma_empty_contribution(self.state@);
                }
                self.state.merge_nothing();
                self.failed = self.failed + 1;
            },
        }
        self.reported = self.reported + 1;
    }

    /// Hands out the aggregate once every file has reported, and not before.
    pub fn finish(self) -> (r: Option<AggregateState>)
        requires
            self.wf(),
        ensures
            r is Some <==> self.is_complete(),
            r matches Some(state) ==> state == self.aggregate() && state.wf(),
    {
        if self.reported == self.expected {
            Some(self.state)
        } else {
            None
        }
    }
}

} // verus!
