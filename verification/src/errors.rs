//! The table of error messages: how often each message was seen, where two
//! messages are the same if their lower-case forms are.

use vstd::prelude::*;
use crate::text::{chars_of, copy_range, lowercase_of, same_chars};

verus! {

/// What is known of one error message: the key under which it is counted,
/// the spelling in which it was first seen, and how often it was seen.
pub struct ErrorStat {
    pub key: Seq<char>,
    pub text: Seq<char>,
    pub count: nat,
}

/// One error message of a table.
#[derive(Debug)]
pub struct ErrorEntry {
    key: Vec<char>,
    text: String,
    count: usize,
}

impl View for ErrorEntry {
    type V = ErrorStat;

    closed spec fn view(&self) -> ErrorStat {
        ErrorStat { key: self.key@, text: self.text@, count: self.count as nat }
    }
}

impl ErrorEntry {
    /// The message as it was first seen.
    pub fn text(&self) -> (r: &String)
        ensures
            r@ == self@.text,
    {
        &self.text
    }

    /// How often the message was seen.
    pub fn count(&self) -> (r: usize)
        ensures
            r == self@.count,
    {
        self.count
    }

    /// The key under which the message is counted.
    pub fn key(&self) -> (r: &Vec<char>)
        ensures
            r@ == self@.key,
    {
        &self.key
    }

    /// A copy of the entry.
    pub fn duplicate(&self) -> (r: Self)
        ensures
            r@ == self@,
    {
        let key = copy_range(self.key.as_slice(), 0, self.key.len());
        assert(key@ =~= self.key@);
        ErrorEntry { key, text: self.text.clone(), count: self.count }
    }
}

/// What each entry of a sequence says.
pub open spec fn stats_of(entries: Seq<ErrorEntry>) -> Seq<ErrorStat> {
    Seq::new(entries.len(), |i: int| entries[i]@)
}

/// How often a table with the contents `m` has seen the key `k`.
pub open spec fn count_in(m: Map<Seq<char>, ErrorStat>, k: Seq<char>) -> nat {
    if m.contains_key(k) {
        m[k].count
    } else {
        0
    }
}

/// The contents `m` after `stat.count` more sightings of the key `stat.key`.
/// A key that is new comes in with the spelling `stat.text`; a key that is
/// there keeps its spelling.
pub open spec fn absorbed(m: Map<Seq<char>, ErrorStat>, stat: ErrorStat) -> Map<
    Seq<char>,
    ErrorStat,
> {
    m.insert(
        stat.key,
        ErrorStat {
            key: stat.key,
            text: if m.contains_key(stat.key) {
                m[stat.key].text
            } else {
                stat.text
            },
            count: count_in(m, stat.key) + stat.count,
        },
    )
}

/// The contents of two tables merged: the keys of both, each with the sum of
/// its two counts, and with its spelling in `a` where `a` has the key.
pub open spec fn merged(a: Map<Seq<char>, ErrorStat>, b: Map<Seq<char>, ErrorStat>) -> Map<
    Seq<char>,
    ErrorStat,
> {
    Map::new(
        |k: Seq<char>| a.contains_key(k) || b.contains_key(k),
        |k: Seq<char>|
            ErrorStat {
                key: k,
                text: if a.contains_key(k) {
                    a[k].text
                } else {
                    b[k].text
                },
                count: count_in(a, k) + count_in(b, k),
            },
    )
}

/// The sequence `stats` lists the contents `m`: every element is an entry of
/// `m`, every key of `m` is listed, and none twice.
pub open spec fn lists(stats: Seq<ErrorStat>, m: Map<Seq<char>, ErrorStat>) -> bool {
    &&& forall|i: int|
        0 <= i < stats.len() ==> m.contains_key((#[trigger] stats[i]).key) && m[stats[i].key]
            == stats[i]
    &&& forall|k: Seq<char>| #[trigger]
        m.contains_key(k) ==> exists|i: int| 0 <= i < stats.len() && (#[trigger] stats[i]).key == k
    &&& forall|i: int, j: int|
        0 <= i < j < stats.len() ==> (#[trigger] stats[i]).key != (#[trigger] stats[j]).key
}

/// The contents of a well-formed table are finite, each entry stands under
/// its own key, and each was seen at least once.
pub open spec fn well_formed_contents(m: Map<Seq<char>, ErrorStat>) -> bool {
    forall|k: Seq<char>| #[trigger] m.contains_key(k) ==> m[k].key == k && m[k].count >= 1
}

/// Merging adds the counts of every key.
pub proof fn lemma_merged_counts(
    a: Map<Seq<char>, ErrorStat>,
    b: Map<Seq<char>, ErrorStat>,
    k: Seq<char>,
)
    ensures
        count_in(merged(a, b), k) == count_in(a, k) + count_in(b, k),
{
}

/// Merging with the empty table changes nothing.
pub proof fn lemma_merged_empty(a: Map<Seq<char>, ErrorStat>)
    requires
        well_formed_contents(a),
    ensures
        merged(a, Map::empty()) == a,
        merged(Map::empty(), a) == a,
{
    assert(merged(a, Map::empty()) =~= a);
    assert(merged(Map::empty(), a) =~= a);
}

spec fn holds_at(entries: Seq<ErrorEntry>, k: Seq<char>, i: int) -> bool {
    0 <= i < entries.len() && entries[i].key@ == k
}

spec fn has_key(entries: Seq<ErrorEntry>, k: Seq<char>) -> bool {
    exists|i: int| holds_at(entries, k, i)
}

spec fn index_of(entries: Seq<ErrorEntry>, k: Seq<char>) -> int {
    choose|i: int| holds_at(entries, k, i)
}

spec fn distinct_keys(entries: Seq<ErrorEntry>) -> bool {
    forall|i: int, j: int|
        0 <= i < j < entries.len() ==> (#[trigger] entries[i]).key@ != (#[trigger] entries[j]).key@
}

spec fn contents(entries: Seq<ErrorEntry>) -> Map<Seq<char>, ErrorStat> {
    Map::new(|k: Seq<char>| has_key(entries, k), |k: Seq<char>| entries[index_of(entries, k)]@)
}

proof fn lemma_contents_at(entries: Seq<ErrorEntry>, i: int)
    requires
        distinct_keys(entries),
        0 <= i < entries.len(),
    ensures
        contents(entries).contains_key(entries[i].key@),
        contents(entries)[entries[i].key@] == entries[i]@,
        index_of(entries, entries[i].key@) == i,
{
    let k = entries[i].key@;
    assert(holds_at(entries, k, i));
    let j = index_of(entries, k);
    assert(holds_at(entries, k, j));
    if j < i {
        assert(entries[j].key@ != entries[i].key@);
    } else if i < j {
        assert(entries[i].key@ != entries[j].key@);
    }
}

proof fn lemma_contents_listed(entries: Seq<ErrorEntry>)
    requires
        distinct_keys(entries),
    ensures
        lists(stats_of(entries), contents(entries)),
{
    let stats = stats_of(entries);
    let m = contents(entries);
    assert forall|i: int| 0 <= i < stats.len() implies m.contains_key((#[trigger] stats[i]).key)
        && m[stats[i].key] == stats[i] by {
        lemma_contents_at(entries, i);
    }
    assert forall|k: Seq<char>| #[trigger] m.contains_key(k) implies exists|i: int|
        0 <= i < stats.len() && (#[trigger] stats[i]).key == k by {
        let i = index_of(entries, k);
        assert(holds_at(entries, k, i));
        assert(stats[i].key == k);
    }
    assert forall|i: int, j: int| 0 <= i < j < stats.len() implies (#[trigger] stats[i]).key != (
    #[trigger] stats[j]).key by {
        assert(entries[i].key@ != entries[j].key@);
    }
}

/// A table of error messages with their counts.
#[derive(Debug)]
pub struct ErrorTable {
    entries: Vec<ErrorEntry>,
}

impl View for ErrorTable {
    type V = Map<Seq<char>, ErrorStat>;

    closed spec fn view(&self) -> Map<Seq<char>, ErrorStat> {
        contents(self.entries@)
    }
}

impl ErrorTable {
    /// The table is well formed: no key stands in it twice, and every entry
    /// was seen at least once.
    pub closed spec fn wf(&self) -> bool {
        &&& distinct_keys(self.entries@)
        &&& forall|i: int| 0 <= i < self.entries.len() ==> (#[trigger] self.entries[i]).count >= 1
    }

    /// The counts of `other` can be added to the counts of this table.
    pub open spec fn fits(&self, other: &ErrorTable) -> bool {
        forall|k: Seq<char>| count_in(self@, k) + count_in(other@, k) <= usize::MAX
    }

    /// What a well-formed table holds is well formed.
    pub proof fn lemma_wf_contents(&self)
        requires
            self.wf(),
        ensures
            well_formed_contents(self@),
    {
        assert forall|k: Seq<char>| #[trigger] self@.contains_key(k) implies self@[k].key == k
            && self@[k].count >= 1 by {
            let i = index_of(self.entries@, k);
            assert(holds_at(self.entries@, k, i));
            lemma_contents_at(self.entries@, i);
        }
    }

    /// The table that has seen nothing.
    pub fn new() -> (r: Self)
        ensures
            r.wf(),
            r@ == Map::<Seq<char>, ErrorStat>::empty(),
    {
        let r = ErrorTable { entries: Vec::new() };
        assert(r@ =~= Map::<Seq<char>, ErrorStat>::empty()) by {
            assert forall|k: Seq<char>| !has_key(r.entries@, k) by {
                assert forall|i: int| !holds_at(r.entries@, k, i) by {}
            }
        }
        r
    }

    /// Whether the table has seen nothing.
    pub fn is_empty(&self) -> (r: bool)
        requires
            self.wf(),
        ensures
            r == (self@ == Map::<Seq<char>, ErrorStat>::empty()),
    {
        let r = self.entries.len() == 0;
        proof {
            if r {
                assert forall|k: Seq<char>| !has_key(self.entries@, k) by {
                    assert forall|i: int| !holds_at(self.entries@, k, i) by {}
                }
                assert(self@ =~= Map::<Seq<char>, ErrorStat>::empty());
            } else {
                lemma_contents_at(self.entries@, 0);
            }
        }
        r
    }

    fn position(&self, key: &[char]) -> (r: Option<usize>)
        ensures
            match r {
                Some(i) => holds_at(self.entries@, key@, i as int),
                None => !has_key(self.entries@, key@),
            },
    {
        let mut i: usize = 0;
        while i < self.entries.len()
            invariant
                i <= self.entries.len(),
                forall|j: int| 0 <= j < i ==> !holds_at(self.entries@, key@, j),
            decreases self.entries.len() - i,
        {
            if same_chars(self.entries[i].key.as_slice(), key) {
                return Some(i);
            }
            i += 1;
        }
        None
    }

    /// How often the key was seen.
    pub fn count_of_key(&self, key: &[char]) -> (r: usize)
        requires
            self.wf(),
        ensures
            r == count_in(self@, key@),
    {
        match self.position(key) {
            Some(i) => {
                proof {
                    lemma_contents_at(self.entries@, i as int);
                }
                self.entries[i].count
            },
            None => 0,
        }
    }

    /// How often the message was seen, in whatever case.
    pub fn count_of(&self, message: &str) -> (r: usize)
        requires
            self.wf(),
        ensures
            r == count_in(self@, lowercase_of(message@)),
    {
        let lowered = message.to_lowercase();
        let key = chars_of(lowered.as_str());
        self.count_of_key(key.as_slice())
    }

    /// Counts `count` more sightings of the key `key`, seen in the spelling
    /// `text`.
    pub fn absorb(&mut self, key: Vec<char>, text: String, count: usize)
        requires
            old(self).wf(),
            count >= 1,
            count_in(old(self)@, key@) + count <= usize::MAX,
        ensures
            final(self).wf(),
            final(self)@ == absorbed(
                old(self)@,
                (ErrorStat { key: key@, text: text@, count: count as nat }),
            ),
    {
        let ghost before = self.entries@;
        let ghost stat = ErrorStat { key: key@, text: text@, count: count as nat };
        match self.position(key.as_slice()) {
            Some(i) => {
                proof {
                    lemma_contents_at(before, i as int);
                }
                let seen = self.entries[i].count;
                let kept = self.entries[i].text.clone();
                self.entries.set(i, ErrorEntry { key, text: kept, count: seen + count });
                proof {
                    let after = self.entries@;
                    assert(distinct_keys(after)) by {
                        assert forall|a: int, b: int| 0 <= a < b < after.len() implies (
                        #[trigger] after[a]).key@ != (#[trigger] after[b]).key@ by {
                            assert(before[a].key@ != before[b].key@);
                        }
                    }
                    assert(contents(after) =~= absorbed(contents(before), stat)) by {
                        assert forall|k: Seq<char>|
                            has_key(after, k) <==> (has_key(before, k) || k == stat.key) by {
                            if has_key(after, k) {
                                let j = index_of(after, k);
                                assert(holds_at(before, k, j));
                            }
                            if has_key(before, k) {
                                let j = index_of(before, k);
                                assert(holds_at(after, k, j));
                            }
                            if k == stat.key {
                                assert(holds_at(after, k, i as int));
                            }
                        }
                        assert forall|k: Seq<char>| has_key(after, k) implies contents(after)[k]
                            == absorbed(contents(before), stat)[k] by {
                            let j = index_of(after, k);
                            assert(holds_at(after, k, j));
                            lemma_contents_at(after, j);
                            if j != i {
                                assert(holds_at(before, k, j));
                                lemma_contents_at(before, j);
                                assert(before[j].key@ != before[i as int].key@);
                            }
                        }
                    }
                }
            },
            None => {
                self.entries.push(ErrorEntry { key, text, count });
                proof {
                    let after = self.entries@;
                    let n = before.len() as int;
                    assert(distinct_keys(after)) by {
                        assert forall|a: int, b: int| 0 <= a < b < after.len() implies (
                        #[trigger] after[a]).key@ != (#[trigger] after[b]).key@ by {
                            if b < n {
                                assert(before[a].key@ != before[b].key@);
                            } else {
                                assert(!holds_at(before, stat.key, a));
                            }
                        }
                    }
                    assert(contents(after) =~= absorbed(contents(before), stat)) by {
                        assert forall|k: Seq<char>|
                            has_key(after, k) <==> (has_key(before, k) || k == stat.key) by {
                            if has_key(after, k) {
                                let j = index_of(after, k);
                                if j < n {
                                    assert(holds_at(before, k, j));
                                }
                            }
                            if has_key(before, k) {
                                let j = index_of(before, k);
                                assert(holds_at(after, k, j));
                            }
                            if k == stat.key {
                                assert(holds_at(after, k, n));
                            }
                        }
                        assert forall|k: Seq<char>| has_key(after, k) implies contents(after)[k]
                            == absorbed(contents(before), stat)[k] by {
                            let j = index_of(after, k);
                            assert(holds_at(after, k, j));
                            lemma_contents_at(after, j);
                            if j < n {
                                assert(holds_at(before, k, j));
                                lemma_contents_at(before, j);
                                assert(!holds_at(before, stat.key, j));
                            }
                        }
                    }
                }
            },
        }
    }

    /// Counts one more sighting of a message. Messages with the same
    /// lower-case form are counted together, under the spelling of the first.
    pub fn record(&mut self, message: &str)
        requires
            old(self).wf(),
            count_in(old(self)@, lowercase_of(message@)) < usize::MAX,
        ensures
            final(self).wf(),
            final(self)@ == absorbed(
                old(self)@,
                (ErrorStat { key: lowercase_of(message@), text: message@, count: 1 }),
            ),
    {
        let lowered = message.to_lowercase();
        let key = chars_of(lowered.as_str());
        self.absorb(key, message.to_owned(), 1);
    }

    /// Whether the counts of `other` can be added to the counts of this table.
    pub fn can_merge(&self, other: &ErrorTable) -> (r: bool)
        requires
            self.wf(),
            other.wf(),
        ensures
            r == self.fits(other),
    {
        let mut i: usize = 0;
        while i < other.entries.len()
            invariant
                i <= other.entries.len(),
                self.wf(),
                other.wf(),
                forall|j: int|
                    0 <= j < i ==> count_in(self@, (#[trigger] other.entries[j]).key@)
                        + other.entries[j].count <= usize::MAX,
            decreases other.entries.len() - i,
        {
            let here = self.count_of_key(other.entries[i].key.as_slice());
            if other.entries[i].count > usize::MAX - here {
                proof {
                    lemma_contents_at(other.entries@, i as int);
                }
                return false;
            }
            i += 1;
        }
        proof {
            assert forall|k: Seq<char>| count_in(self@, k) + count_in(other@, k)
                <= usize::MAX by {
                if other@.contains_key(k) {
                    let j = index_of(other.entries@, k);
                    assert(holds_at(other.entries@, k, j));
                    lemma_contents_at(other.entries@, j);
                    assert(count_in(self@, other.entries[j].key@) + other.entries[j].count
                        <= usize::MAX);
                }
            }
        }
        true
    }

    /// Adds the counts of `other` to this table, key by key.
    pub fn merge(&mut self, other: &ErrorTable)
        requires
            old(self).wf(),
            other.wf(),
            old(self).fits(other),
        ensures
            final(self).wf(),
            final(self)@ == merged(old(self)@, other@),
    {
        let ghost start = self@;
        let mut i: usize = 0;
        proof {
            self.lemma_wf_contents();
            assert(merged(start, contents(other.entries@.take(0))) =~= start) by {
                assert forall|k: Seq<char>| !has_key(other.entries@.take(0), k) by {
                    assert forall|j: int| !holds_at(other.entries@.take(0), k, j) by {}
                }
            }
        }
        while i < other.entries.len()
            invariant
                i <= other.entries.len(),
                self.wf(),
                other.wf(),
                well_formed_contents(start),
                forall|k: Seq<char>| count_in(start, k) + count_in(other@, k) <= usize::MAX,
                self@ == merged(start, contents(other.entries@.take(i as int))),
            decreases other.entries.len() - i,
        {
            let entry = &other.entries[i];
            let ghost done = other.entries@.take(i as int);
            let ghost next = other.entries@.take(i + 1);
            let ghost now = self@;
            proof {
                lemma_contents_at(other.entries@, i as int);
                assert(!has_key(done, entry.key@)) by {
                    assert forall|j: int| !holds_at(done, entry.key@, j) by {
                        if 0 <= j < i {
                            assert(other.entries[j].key@ != other.entries[i as int].key@);
                        }
                    }
                }
                assert(count_in(now, entry.key@) == count_in(start, entry.key@));
                assert(count_in(other@, entry.key@) == entry.count);
            }
            let key = copy_range(entry.key.as_slice(), 0, entry.key.len());
            assert(key@ =~= entry.key@);
            self.absorb(key, entry.text.clone(), entry.count);
            proof {
                assert(distinct_keys(next)) by {
                    assert forall|a: int, b: int| 0 <= a < b < next.len() implies (
                    #[trigger] next[a]).key@ != (#[trigger] next[b]).key@ by {
                        assert(other.entries[a].key@ != other.entries[b].key@);
                    }
                }
                assert(distinct_keys(done)) by {
                    assert forall|a: int, b: int| 0 <= a < b < done.len() implies (
                    #[trigger] done[a]).key@ != (#[trigger] done[b]).key@ by {
                        assert(other.entries[a].key@ != other.entries[b].key@);
                    }
                }
                lemma_contents_at(next, i as int);
                assert forall|k: Seq<char>|
                    has_key(next, k) <==> (has_key(done, k) || k == entry.key@) by {
                    if has_key(next, k) {
                        let j = index_of(next, k);
                        if j < i {
                            assert(holds_at(done, k, j));
                        }
                    }
                    if has_key(done, k) {
                        let j = index_of(done, k);
                        assert(holds_at(next, k, j));
                    }
                    if k == entry.key@ {
                        assert(holds_at(next, k, i as int));
                    }
                }
                assert forall|k: Seq<char>| has_key(done, k) implies contents(next)[k]
                    == contents(done)[k] by {
                    let j = index_of(done, k);
                    assert(holds_at(done, k, j));
                    lemma_contents_at(done, j);
                    assert(holds_at(next, k, j));
                    lemma_contents_at(next, j);
                }
                assert(self@ =~= merged(start, contents(next)));
            }
            i += 1;
        }
        assert(other.entries@.take(other.entries.len() as int) =~= other.entries@);
    }

    /// The entries of the table, each once, in no order that callers may
    /// rely on.
    pub fn entries(&self) -> (r: Vec<ErrorEntry>)
        requires
            self.wf(),
        ensures
            lists(stats_of(r@), self@),
    {
        let mut out: Vec<ErrorEntry> = Vec::new();
        let mut i: usize = 0;
        while i < self.entries.len()
            invariant
                i <= self.entries.len(),
                out.len() == i,
                forall|j: int| 0 <= j < i ==> (#[trigger] out[j])@ == self.entries[j]@,
            decreases self.entries.len() - i,
        {
            out.push(self.entries[i].duplicate());
            i += 1;
        }
        proof {
            lemma_contents_listed(self.entries@);
            assert(stats_of(out@) =~= stats_of(self.entries@));
        }
        out
    }
}

} // verus!
