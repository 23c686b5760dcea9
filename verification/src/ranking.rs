//! The ranking of error messages: most frequent first, and among equally
//! frequent ones the one whose key comes first in the order of the
//! dictionary.

use vstd::prelude::*;
use crate::errors::{lists, stats_of, ErrorEntry, ErrorStat, ErrorTable};

verus! {

/// The strict order of the dictionary on texts, character by character, a
/// proper prefix before the longer text.
pub open spec fn text_before(a: Seq<char>, b: Seq<char>) -> bool
    decreases a.len(),
{
    if b.len() == 0 {
        false
    } else if a.len() == 0 {
        true
    } else if a[0] != b[0] {
        a[0] < b[0]
    } else {
        text_before(a.skip(1), b.skip(1))
    }
}

/// `a` is listed before `b`: it was seen more often, or as often and its key
/// comes first.
pub open spec fn ranks_before(a: ErrorStat, b: ErrorStat) -> bool {
    a.count > b.count || (a.count == b.count && text_before(a.key, b.key))
}

/// Every element is listed before all that follow it.
pub open spec fn is_ranked(stats: Seq<ErrorStat>) -> bool {
    forall|i: int, j: int|
        0 <= i < j < stats.len() ==> ranks_before(#[trigger] stats[i], #[trigger] stats[j])
}

/// `stats` is the ranking of the contents `m`: it lists what `m` holds, in
/// the order of the ranks.
pub open spec fn is_ranking_of(stats: Seq<ErrorStat>, m: Map<Seq<char>, ErrorStat>) -> bool {
    lists(stats, m) && is_ranked(stats)
}

/// The ranking of the contents `m`.
pub open spec fn ranking_of(m: Map<Seq<char>, ErrorStat>) -> Seq<ErrorStat> {
    choose|stats: Seq<ErrorStat>| is_ranking_of(stats, m)
}

/// The first `limit` elements of the ranking of `m`, or all of them where
/// there are fewer.
pub open spec fn top_of(m: Map<Seq<char>, ErrorStat>, limit: nat) -> Seq<ErrorStat> {
    let all = ranking_of(m);
    if limit <= all.len() {
        all.take(limit as int)
    } else {
        all
    }
}

/// No text comes before itself.
pub proof fn lemma_text_before_irreflexive(a: Seq<char>)
    ensures
        !text_before(a, a),
    decreases a.len(),
{
    if a.len() > 0 {
        lemma_text_before_irreflexive(a.skip(1));
    }
}

/// The order of the dictionary is transitive.
pub proof fn lemma_text_before_transitive(a: Seq<char>, b: Seq<char>, c: Seq<char>)
    requires
        text_before(a, b),
        text_before(b, c),
    ensures
        text_before(a, c),
    decreases a.len(),
{
    if a.len() > 0 && a[0] == b[0] && b[0] == c[0] {
        lemma_text_before_transitive(a.skip(1), b.skip(1), c.skip(1));
    }
}

/// Of two different texts one comes before the other.
pub proof fn lemma_text_before_total(a: Seq<char>, b: Seq<char>)
    requires
        a != b,
    ensures
        text_before(a, b) || text_before(b, a),
    decreases a.len(),
{
    if a.len() == 0 || b.len() == 0 {
        if a.len() == 0 && b.len() == 0 {
            assert(a =~= b);
        }
    } else if a[0] == b[0] {
        if a.skip(1) == b.skip(1) {
            assert(a =~= seq![a[0]] + a.skip(1));
            assert(b =~= seq![b[0]] + b.skip(1));
        }
        lemma_text_before_total(a.skip(1), b.skip(1));
    }
}

/// The order of the ranks is strict: nothing is listed before itself, the
/// order is transitive, and of two entries with different keys one is listed
/// before the other.
pub proof fn lemma_ranks_before_strict(a: ErrorStat, b: ErrorStat, c: ErrorStat)
    ensures
        !ranks_before(a, a),
        ranks_before(a, b) && ranks_before(b, c) ==> ranks_before(a, c),
        ranks_before(a, b) ==> !ranks_before(b, a),
        a.key != b.key ==> ranks_before(a, b) || ranks_before(b, a),
{
    lemma_text_before_irreflexive(a.key);
    if ranks_before(a, b) && ranks_before(b, c) {
        if a.count == b.count && b.count == c.count {
            lemma_text_before_transitive(a.key, b.key, c.key);
        }
    }
    if ranks_before(a, b) && ranks_before(b, a) {
        lemma_text_before_transitive(a.key, b.key, a.key);
    }
    if a.key != b.key {
        lemma_text_before_total(a.key, b.key);
    }
}

/// Contents have one ranking only.
pub proof fn lemma_ranking_unique(
    first: Seq<ErrorStat>,
    second: Seq<ErrorStat>,
    m: Map<Seq<char>, ErrorStat>,
)
    requires
        is_ranking_of(first, m),
        is_ranking_of(second, m),
    ensures
        first == second,
{
    lemma_ranking_prefix(first, second, m, first.len() as int);
    lemma_ranking_prefix(second, first, m, second.len() as int);
    if first.len() < second.len() {
        let extra = second[first.len() as int];
        assert(m.contains_key(extra.key));
        let p = choose|p: int| 0 <= p < first.len() && (#[trigger] first[p]).key == extra.key;
        assert(second[p].key != second[first.len() as int].key);
    } else if second.len() < first.len() {
        let extra = first[second.len() as int];
        assert(m.contains_key(extra.key));
        let p = choose|p: int| 0 <= p < second.len() && (#[trigger] second[p]).key == extra.key;
        assert(first[p].key != first[second.len() as int].key);
    }
    assert(first =~= second);
}

proof fn lemma_ranking_prefix(
    first: Seq<ErrorStat>,
    second: Seq<ErrorStat>,
    m: Map<Seq<char>, ErrorStat>,
    n: int,
)
    requires
        is_ranking_of(first, m),
        is_ranking_of(second, m),
        0 <= n <= first.len(),
    ensures
        forall|i: int| 0 <= i < n && i < second.len() ==> first[i] == second[i],
    decreases n,
{
    if n > 0 {
        lemma_ranking_prefix(first, second, m, n - 1);
        let i = n - 1;
        if i < second.len() {
            let x = first[i];
            let y = second[i];
            assert(m.contains_key(x.key));
            assert(m.contains_key(y.key));
            let q = choose|q: int| 0 <= q < second.len() && (#[trigger] second[q]).key == x.key;
            let p = choose|p: int| 0 <= p < first.len() && (#[trigger] first[p]).key == y.key;
            assert(second[q] == x);
            assert(first[p] == y);
            if q < i {
                assert(first[q] == second[q]);
                assert(first[q].key != first[i].key);
            } else if q > i {
                assert(ranks_before(second[i], second[q]));
                if p < i {
                    assert(first[p] == second[p]);
                    assert(second[p].key != second[i].key);
                } else if p > i {
                    assert(ranks_before(first[i], first[p]));
                    lemma_ranks_before_strict(x, y, x);
                } else {
                    assert(second[i].key != second[q].key);
                }
            }
        }
    }
}

/// The ranking that a function has found is the ranking.
pub proof fn lemma_is_the_ranking(stats: Seq<ErrorStat>, m: Map<Seq<char>, ErrorStat>)
    requires
        is_ranking_of(stats, m),
    ensures
        ranking_of(m) == stats,
{
    lemma_ranking_unique(ranking_of(m), stats, m);
}

/// Whether the text `a` comes before the text `b` in the order of the
/// dictionary.
pub fn key_before(a: &[char], b: &[char]) -> (r: bool)
    ensures
        r == text_before(a@, b@),
{
    let mut i: usize = 0;
    assert(a@.skip(0) =~= a@);
    assert(b@.skip(0) =~= b@);
    loop
        invariant
            i <= a.len(),
            i <= b.len(),
            text_before(a@, b@) == text_before(a@.skip(i as int), b@.skip(i as int)),
        decreases a.len() - i,
    {
        if i == b.len() {
            return false;
        }
        if i == a.len() {
            return true;
        }
        assert(a@.skip(i as int)[0] == a@[i as int]);
        assert(b@.skip(i as int)[0] == b@[i as int]);
        if a[i] != b[i] {
            return a[i] < b[i];
        }
        assert(a@.skip(i as int).skip(1) =~= a@.skip(i + 1));
        assert(b@.skip(i as int).skip(1) =~= b@.skip(i + 1));
        i += 1;
    }
}

/// Whether the entry `a` is listed before the entry `b`.
pub fn entry_before(a: &ErrorEntry, b: &ErrorEntry) -> (r: bool)
    ensures
        r == ranks_before(a@, b@),
{
    if a.count() != b.count() {
        a.count() > b.count()
    } else {
        key_before(a.key().as_slice(), b.key().as_slice())
    }
}

fn best_of(pool: &Vec<ErrorEntry>) -> (best: usize)
    requires
        pool.len() > 0,
        forall|i: int, j: int|
            0 <= i < j < pool.len() ==> (#[trigger] pool[i])@.key != (#[trigger] pool[j])@.key,
    ensures
        best < pool.len(),
        forall|j: int|
            0 <= j < pool.len() && j != best ==> ranks_before(
                pool[best as int]@,
                (#[trigger] pool[j])@,
            ),
{
    let mut best: usize = 0;
    let mut j: usize = 1;
    while j < pool.len()
        invariant
            best < j <= pool.len(),
            forall|i: int, j: int|
                0 <= i < j < pool.len() ==> (#[trigger] pool[i])@.key != (#[trigger] pool[j])@.key,
            forall|t: int|
                0 <= t < j && t != best ==> ranks_before(pool[best as int]@, (#[trigger] pool[t])@),
        decreases pool.len() - j,
    {
        if entry_before(&pool[j], &pool[best]) {
            proof {
                assert forall|t: int| 0 <= t < j + 1 && t != j implies ranks_before(
                    pool[j as int]@,
                    (#[trigger] pool[t])@,
                ) by {
                    if t != best {
                        lemma_ranks_before_strict(pool[j as int]@, pool[best as int]@, pool[t]@);
                    }
                }
            }
            best = j;
        } else {
            proof {
                assert(pool[best as int]@.key != pool[j as int]@.key);
                lemma_ranks_before_strict(pool[best as int]@, pool[j as int]@, pool[j as int]@);
            }
        }
        j += 1;
    }
    best
}

/// The entries of the table in the order of their ranks.
pub fn ranking(table: &ErrorTable) -> (r: Vec<ErrorEntry>)
    requires
        table.wf(),
    ensures
        is_ranking_of(stats_of(r@), table@),
        stats_of(r@) == ranking_of(table@),
{
    let mut pool = table.entries();
    let mut out: Vec<ErrorEntry> = Vec::new();
    let ghost m = table@;
    proof {
        let all = stats_of(pool@);
        assert forall|i: int| 0 <= i < pool.len() implies m.contains_key(
            (#[trigger] pool[i])@.key,
        ) && m[pool[i]@.key] == pool[i]@ by {
            assert(all[i] == pool[i]@);
        }
        assert forall|k: Seq<char>| #[trigger] m.contains_key(k) implies exists|j: int|
            0 <= j < pool.len() && (#[trigger] pool[j])@.key == k by {
            let j = choose|j: int| 0 <= j < all.len() && (#[trigger] all[j]).key == k;
            assert(pool[j]@.key == k);
        }
        assert forall|i: int, j: int| 0 <= i < j < pool.len() implies (#[trigger] pool[i])@.key
            != (#[trigger] pool[j])@.key by {
            assert(all[i].key != all[j].key);
        }
    }
    while pool.len() > 0
        invariant
            forall|i: int|
                0 <= i < out.len() ==> m.contains_key((#[trigger] out[i])@.key) && m[out[i]@.key]
                    == out[i]@,
            forall|i: int|
                0 <= i < pool.len() ==> m.contains_key((#[trigger] pool[i])@.key)
                    && m[pool[i]@.key] == pool[i]@,
            forall|k: Seq<char>| #[trigger]
                m.contains_key(k) ==> (exists|i: int|
                    0 <= i < out.len() && (#[trigger] out[i])@.key == k) || (exists|j: int|
                    0 <= j < pool.len() && (#[trigger] pool[j])@.key == k),
            forall|i: int, j: int|
                0 <= i < j < pool.len() ==> (#[trigger] pool[i])@.key != (#[trigger] pool[j])@.key,
            forall|i: int, j: int|
                0 <= i < out.len() && 0 <= j < pool.len() ==> ranks_before(
                    (#[trigger] out[i])@,
                    (#[trigger] pool[j])@,
                ),
            forall|i: int, j: int|
                0 <= i < j < out.len() ==> ranks_before((#[trigger] out[i])@, (#[trigger] out[j])@),
        decreases pool.len(),
    {
        let best = best_of(&pool);
        let ghost old_pool = pool@;
        let ghost old_out = out@;
        let entry = pool.remove(best);
        out.push(entry);
        proof {
            assert forall|i: int| 0 <= i < pool.len() implies (#[trigger] pool[i]) == old_pool[if i
                < best {
                i
            } else {
                i + 1
            }] by {}
            assert forall|i: int| 0 <= i < pool.len() implies m.contains_key(
                (#[trigger] pool[i])@.key,
            ) && m[pool[i]@.key] == pool[i]@ by {
                let o = if i < best {
                    i
                } else {
                    i + 1
                };
                assert(pool[i] == old_pool[o]);
            }
            assert forall|k: Seq<char>| #[trigger] m.contains_key(k) implies (exists|i: int|
                0 <= i < out.len() && (#[trigger] out[i])@.key == k) || (exists|j: int|
                0 <= j < pool.len() && (#[trigger] pool[j])@.key == k) by {
                if exists|i: int| 0 <= i < old_out.len() && (#[trigger] old_out[i])@.key == k {
                    let i = choose|i: int|
                        0 <= i < old_out.len() && (#[trigger] old_out[i])@.key == k;
                    assert(out[i]@.key == k);
                } else {
                    let j = choose|j: int|
                        0 <= j < old_pool.len() && (#[trigger] old_pool[j])@.key == k;
                    if j == best {
                        assert(out[old_out.len() as int]@.key == k);
                    } else if j < best {
                        assert(pool[j]@.key == k);
                    } else {
                        assert(pool[j - 1]@.key == k);
                    }
                }
            }
            assert forall|i: int, j: int| 0 <= i < j < pool.len() implies (#[trigger] pool[i])@.key
                != (#[trigger] pool[j])@.key by {
                let oi = if i < best {
                    i
                } else {
                    i + 1
                };
                let oj = if j < best {
                    j
                } else {
                    j + 1
                };
                assert(old_pool[oi]@.key != old_pool[oj]@.key);
            }
            assert forall|i: int, j: int|
                0 <= i < out.len() && 0 <= j < pool.len() implies ranks_before(
                (#[trigger] out[i])@,
                (#[trigger] pool[j])@,
            ) by {
                let oj = if j < best {
                    j
                } else {
                    j + 1
                };
                assert(pool[j] == old_pool[oj]);
                if i < old_out.len() {
                    assert(ranks_before(old_out[i]@, old_pool[oj]@));
                } else {
                    assert(ranks_before(old_pool[best as int]@, old_pool[oj]@));
                }
            }
            assert forall|i: int, j: int| 0 <= i < j < out.len() implies ranks_before(
                (#[trigger] out[i])@,
                (#[trigger] out[j])@,
            ) by {
                if j < old_out.len() {
                    assert(ranks_before(old_out[i]@, old_out[j]@));
                } else {
                    assert(ranks_before(old_out[i]@, old_pool[best as int]@));
                }
            }
        }
    }
    proof {
        let stats = stats_of(out@);
        assert forall|i: int| 0 <= i < stats.len() implies m.contains_key(
            (#[trigger] stats[i]).key,
        ) && m[stats[i].key] == stats[i] by {
            assert(stats[i] == out[i]@);
        }
        assert forall|k: Seq<char>| #[trigger] m.contains_key(k) implies exists|i: int|
            0 <= i < stats.len() && (#[trigger] stats[i]).key == k by {
            let i = choose|i: int| 0 <= i < out.len() && (#[trigger] out[i])@.key == k;
            assert(stats[i].key == k);
        }
        assert forall|i: int, j: int| 0 <= i < j < stats.len() implies ranks_before(
            #[trigger] stats[i],
            #[trigger] stats[j],
        ) by {
            assert(ranks_before(out[i]@, out[j]@));
        }
        assert forall|i: int, j: int| 0 <= i < j < stats.len() implies (#[trigger] stats[i]).key
            != (#[trigger] stats[j]).key by {
            assert(ranks_before(stats[i], stats[j]));
            lemma_text_before_irreflexive(stats[i].key);
            if stats[i].key == stats[j].key {
                assert(stats[i] == m[stats[i].key]);
                assert(stats[j] == m[stats[j].key]);
            }
        }
        lemma_is_the_ranking(stats, m);
    }
    out
}

/// The `limit` entries of the table that rank first, in the order of their
/// ranks; all entries where the table has no more than `limit`.
pub fn top_errors(table: &ErrorTable, limit: usize) -> (r: Vec<ErrorEntry>)
    requires
        table.wf(),
    ensures
        stats_of(r@) == top_of(table@, limit as nat),
        r.len() <= limit,
{
    let mut all = ranking(table);
    let ghost full = stats_of(all@);
    all.truncate(limit);
    proof {
        if limit <= full.len() {
            assert(stats_of(all@) =~= full.take(limit as int));
        } else {
            assert(stats_of(all@) =~= full);
        }
    }
    all
}

} // verus!
