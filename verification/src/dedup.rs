//! Transaction deduplication.
//!
//! Several peers often gossip the same transaction. The hashes of recent
//! transactions are remembered, and a transaction whose hash is among them is
//! skipped before forwarding.
use vstd::prelude::*;

use crate::lru_cache;
use crate::recency;
use crate::rlp::B256;

verus! {

/// Counts of the transactions that were checked. They wrap around.
#[derive(Debug, Clone, Copy, PartialEq, Eq, Structural)]
pub struct DedupStats {
    /// How many transactions were checked.
    pub total: u64,
    /// How many of them were duplicates.
    pub duplicates: u64,
    /// How many of them were new.
    pub unique: u64,
}

/// Configuration of the deduplication.
#[derive(Debug, Clone)]
pub struct DedupConfig {
    /// Maximum number of transaction hashes to remember.
    pub cache_size: usize,
    /// After how many transactions the statistics are due again; never, if zero.
    pub log_interval: u64,
}

/// The number of hashes that are remembered unless configured otherwise.
pub fn default_cache_size() -> (r: usize)
    ensures
        r == 100_000,
{
    100_000
}

/// The interval of the statistics unless configured otherwise.
pub fn default_log_interval() -> (r: u64)
    ensures
        r == 1000,
{
    1000
}

impl Default for DedupConfig {
    fn default() -> (r: Self)
        ensures
            r.cache_size == 100_000,
            r.log_interval == 1000,
    {
        DedupConfig { cache_size: default_cache_size(), log_interval: default_log_interval() }
    }
}

/// Remembers the hashes of recent transactions.
pub struct TxDedup {
    seen: lru::LruCache<B256, ()>,
    stats: DedupStats,
    log_interval: u64,
}

/// The mathematical value of a [`TxDedup`].
#[verifier::ext_equal]
pub struct DedupView {
    /// The remembered hashes, the latest first.
    pub seen: Seq<(B256, ())>,
    /// How many hashes are remembered at most.
    pub limit: nat,
    pub stats: DedupStats,
    pub log_interval: u64,
}

impl DedupView {
    /// The value that remembers nothing yet.
    pub open spec fn fresh(limit: nat, log_interval: u64) -> DedupView {
        DedupView {
            seen: Seq::empty(),
            limit,
            stats: DedupStats { total: 0, duplicates: 0, unique: 0 },
            log_interval,
        }
    }

    /// What holds of every value: no hash is remembered twice, there are at most
    /// as many as allowed, and each transaction counted as new or as duplicate.
    pub open spec fn valid(self) -> bool {
        &&& recency::within(self.seen, self.limit)
        &&& self.stats.total == (self.stats.unique + self.stats.duplicates) % (u64::MAX + 1)
    }

    /// The value after a transaction with this hash was checked: its hash is the
    /// latest one, and it is counted as new where it was not remembered.
    pub open spec fn checked(self, hash: B256) -> DedupView {
        let is_new = !recency::holds(self.seen, hash);
        DedupView {
            seen: recency::pushed(self.seen, self.limit, hash, ()),
            stats: DedupStats {
                total: next_count(self.stats.total),
                unique: if is_new {
                    next_count(self.stats.unique)
                } else {
                    self.stats.unique
                },
                duplicates: if is_new {
                    self.stats.duplicates
                } else {
                    next_count(self.stats.duplicates)
                },
            },
            ..self
        }
    }

    /// The value after transactions with these hashes were checked, in that order.
    pub open spec fn checked_all(self, history: Seq<B256>) -> DedupView
        decreases history.len(),
    {
        if history.len() == 0 {
            self
        } else {
            self.checked_all(history.drop_last()).checked(history.last())
        }
    }

    /// The statistics, where they are due: after each `log_interval`
    /// transactions.
    pub open spec fn stats_due(self) -> Option<DedupStats> {
        if self.log_interval > 0 && self.stats.total % self.log_interval == 0 {
            Some(self.stats)
        } else {
            None
        }
    }
}

/// `n + 1`, or zero behind the largest number.
pub open spec fn next_count(n: u64) -> u64 {
    if n == u64::MAX {
        0
    } else {
        (n + 1) as u64
    }
}

impl View for TxDedup {
    type V = DedupView;

    closed spec fn view(&self) -> DedupView {
        DedupView {
            seen: lru_cache::seen_entries(self.seen),
            limit: lru_cache::seen_limit(self.seen),
            stats: self.stats,
            log_interval: self.log_interval,
        }
    }
}

impl TxDedup {
    /// Makes a value that remembers nothing yet.
    pub fn new(config: DedupConfig) -> (r: Self)
        requires
            0 < config.cache_size <= lru_cache::MAX_CAPACITY,
        ensures
            r@ == DedupView::fresh(config.cache_size as nat, config.log_interval),
            r@.limit == config.cache_size,
            r@.log_interval == config.log_interval,
            r@.seen.len() == 0,
            r@.stats == (DedupStats { total: 0, duplicates: 0, unique: 0 }),
            r@.valid(),
    {
        TxDedup {
            seen: lru_cache::seen_new(config.cache_size),
            stats: DedupStats { total: 0, duplicates: 0, unique: 0 },
            log_interval: config.log_interval,
        }
    }

    /// Whether the transaction is new: `true` where its hash is not among the
    /// remembered ones. Its hash is then the latest one.
    pub fn check_and_insert(&mut self, hash: B256) -> (is_new: bool)
        requires
            old(self)@.valid(),
        ensures
            final(self)@.valid(),
            is_new == !recency::holds(old(self)@.seen, hash),
            final(self)@ == old(self)@.checked(hash),
            final(self)@.limit == old(self)@.limit,
            final(self)@.log_interval == old(self)@.log_interval,
            final(self)@.seen[0] == (hash, ()),
            forall|other: B256|
                other != hash && recency::holds(old(self)@.seen, other) && (old(self)@.seen.len()
                    < old(self)@.limit || other != old(self)@.seen.last().0) ==> #[trigger]
                    recency::holds(final(self)@.seen, other),
            recency::holds(final(self)@.seen, hash),
            forall|other: B256|
                other != hash && #[trigger] recency::holds(final(self)@.seen, other)
                    ==> recency::holds(old(self)@.seen, other),
    {
        proof {
            recency::lemma_pushed(self@.seen, self@.limit, hash, ());
        }
        self.stats.total = self.stats.total.wrapping_add(1);
        let is_new = if lru_cache::seen_contains(&self.seen, &hash) {
            proof {
                let p = recency::position(self@.seen, hash);
                assert(self@.seen[p] == (hash, ()));
            }
            lru_cache::seen_promote(&mut self.seen, &hash);
            false
        } else {
            lru_cache::seen_push(&mut self.seen, hash);
            true
        };
        if is_new {
            self.stats.unique = self.stats.unique.wrapping_add(1);
        } else {
            self.stats.duplicates = self.stats.duplicates.wrapping_add(1);
        }
        is_new
    }

    /// The statistics, where they are due: after each `log_interval`
    /// transactions.
    pub fn stats_due(&self) -> (r: Option<DedupStats>)
        ensures
            r == self@.stats_due(),
            r == if self@.log_interval > 0 && self@.stats.total as int
                % self@.log_interval as int == 0 {
                Some(self@.stats)
            } else {
                None
            },
    {
        if self.log_interval > 0 && self.stats.total % self.log_interval == 0 {
            Some(self.stats)
        } else {
            None
        }
    }
}

/// What is remembered after transactions with these hashes were checked, in that
/// order, where at most `limit` hashes are remembered.
pub open spec fn seen_after(limit: nat, history: Seq<B256>) -> Seq<(B256, ())>
    decreases history.len(),
{
    if history.len() == 0 {
        Seq::empty()
    } else {
        recency::pushed(seen_after(limit, history.drop_last()), limit, history.last(), ())
    }
}

/// The hashes of a history without repetition, the latest first.
spec fn ranked(history: Seq<B256>) -> Seq<(B256, ())>
    decreases history.len(),
{
    if history.len() == 0 {
        Seq::empty()
    } else {
        seq![(history.last(), ())] + recency::without(
            ranked(history.drop_last()),
            history.last(),
        )
    }
}

/// Exactly the latest `limit` different hashes are remembered.
proof fn lemma_seen_is_ranked(limit: nat, history: Seq<B256>)
    requires
        0 < limit,
    ensures
        recency::distinct(ranked(history)),
        seen_after(limit, history) == recency::truncated(ranked(history), limit),
    decreases history.len(),
{
    if history.len() > 0 {
        let h = history.last();
        let r = ranked(history.drop_last());
        let s = seen_after(limit, history.drop_last());
        lemma_seen_is_ranked(limit, history.drop_last());
        recency::lemma_without(r, h);
        recency::lemma_prepend(recency::without(r, h), h, ());
        let long = seq![(h, ())] + recency::without(r, h);
        let short = seq![(h, ())] + recency::without(s, h);
        if r.len() > limit {
            if recency::holds(s, h) {
                let p = recency::position(s, h);
                assert(r[p] == s[p]);
                recency::lemma_lookup_at(r, p);
                assert(short =~= long.take(limit as int));
            } else {
                if recency::holds(r, h) {
                    let p = recency::position(r, h);
                    if p < limit {
                        assert(s[p] == r[p]);
                    }
                }
                assert(short.take(limit as int) =~= long.take(limit as int));
            }
        }
    }
}

/// The hashes from the latest occurrence of a hash on are those ranked down to
/// it.
proof fn lemma_rank(history: Seq<B256>, p: int) -> (i: int)
    requires
        0 <= p < ranked(history).len(),
    ensures
        0 <= i < history.len(),
        history[i] == ranked(history)[p].0,
        forall|k: int|
            i < k < history.len() ==> #[trigger] history[k] != ranked(history)[p].0,
        forall|x: B256| #[trigger]
            history.skip(i).contains(x) <==> recency::holds(ranked(history).take(p + 1), x),
    decreases history.len(),
{
    lemma_seen_is_ranked(1, history);
    let n = history.len() - 1;
    let z = history.last();
    let front = history.drop_last();
    let r = ranked(front);
    let all = ranked(history);
    let w = recency::without(r, z);
    let top = all.take(p + 1);
    lemma_seen_is_ranked(1, front);
    assert(top[0] == (z, ()));
    if p == 0 {
        assert forall|x: B256| #[trigger] history.skip(n).contains(x) <==> recency::holds(top, x) by {
            if history.skip(n).contains(x) {
                assert(x == z);
                assert(top[0].0 == x);
            }
            if recency::holds(top, x) {
                assert(history.skip(n)[0] == x);
            }
        }
        n
    } else {
        let q = if recency::holds(r, z) && p - 1 >= recency::position(r, z) {
            p
        } else {
            p - 1
        };
        assert(all[p] == r[q]);
        let i = lemma_rank(front, q);
        let below = r.take(q + 1);
        assert forall|k: int| i < k < history.len() implies #[trigger] history[k] != all[p].0 by {
            if k < n {
                assert(front[k] == history[k]);
            } else {
                assert(all[0].0 != all[p].0);
            }
        }
        assert forall|x: B256| #[trigger] history.skip(i).contains(x) <==> recency::holds(top, x) by {
            if history.skip(i).contains(x) {
                let k = choose|k: int| 0 <= k < history.skip(i).len() && history.skip(i)[k] == x;
                if x == z {
                    assert(top[0].0 == x);
                } else {
                    assert(front.skip(i)[k] == x);
                    assert(front.skip(i).contains(x));
                    assert(recency::holds(below, x));
                    let m = recency::position(below, x);
                    let m2 = if recency::holds(r, z) && m > recency::position(r, z) {
                        m
                    } else {
                        m + 1
                    };
                    assert(below[m] == r[m]);
                    assert(all[m2] == r[m]);
                    assert(m2 <= p);
                    assert(top[m2].0 == x);
                }
            }
            if recency::holds(top, x) {
                let m = recency::position(top, x);
                if m == 0 {
                    assert(history.skip(i)[history.skip(i).len() - 1] == z);
                } else {
                    let m2 = if recency::holds(r, z) && m - 1 >= recency::position(r, z) {
                        m
                    } else {
                        m - 1
                    };
                    assert(top[m] == all[m]);
                    assert(all[m] == r[m2]);
                    assert(m2 <= q);
                    assert(below[m2].0 == x);
                    assert(front.skip(i).contains(x));
                    let k = choose|k: int| 0 <= k < front.skip(i).len() && front.skip(i)[k] == x;
                    assert(history.skip(i)[k] == x);
                }
            }
        }
        i
    }
}

/// A sequence has as many different elements as a list of them without
/// repetition has entries.
proof fn lemma_count(s: Seq<B256>, t: Seq<(B256, ())>)
    requires
        recency::distinct(t),
        forall|x: B256| #[trigger] s.contains(x) <==> recency::holds(t, x),
    ensures
        s.to_set().len() == t.len(),
{
    let keys = Seq::new(t.len(), |i: int| t[i].0);
    assert(keys.no_duplicates());
    keys.unique_seq_to_set();
    assert forall|x: B256| keys.to_set().contains(x) <==> s.to_set().contains(x) by {
        if keys.to_set().contains(x) {
            let i = choose|i: int| 0 <= i < keys.len() && keys[i] == x;
            assert(t[i].0 == x);
            assert(s.contains(x));
        }
        if s.to_set().contains(x) {
            assert(s.contains(x));
            let i = recency::position(t, x);
            assert(keys[i] == x);
        }
    }
    assert(keys.to_set() =~= s.to_set());
}

/// Every hash of a history is ranked.
proof fn lemma_ranked_contains(history: Seq<B256>, k: int)
    requires
        0 <= k < history.len(),
    ensures
        recency::holds(ranked(history), history[k]),
    decreases history.len(),
{
    let z = history.last();
    let front = history.drop_last();
    assert(ranked(history)[0] == (z, ()));
    if history[k] != z {
        lemma_ranked_contains(front, k);
        lemma_seen_is_ranked(1, front);
        recency::lemma_without(ranked(front), z);
        recency::lemma_prepend(recency::without(ranked(front), z), z, ());
    }
}

/// A transaction is taken for a duplicate exactly where its hash was checked
/// before and, from then on, no more than `limit` different hashes were checked,
/// its own among them.
pub proof fn law_duplicate_iff_recent(limit: nat, history: Seq<B256>, hash: B256)
    requires
        0 < limit,
    ensures
        recency::holds(seen_after(limit, history), hash) <==> exists|i: int|
            0 <= i < history.len() && #[trigger] history[i] == hash && history.skip(
                i,
            ).to_set().len() <= limit,
{
    lemma_seen_is_ranked(limit, history);
    let all = ranked(history);
    let seen = seen_after(limit, history);
    if recency::holds(seen, hash) {
        let p = recency::position(seen, hash);
        assert(all[p] == seen[p]);
        let i = lemma_rank(history, p);
        lemma_count(history.skip(i), all.take(p + 1));
        assert(history[i] == hash);
    }
    if exists|i: int|
        0 <= i < history.len() && #[trigger] history[i] == hash && history.skip(i).to_set().len()
            <= limit {
        let k = choose|i: int|
            0 <= i < history.len() && #[trigger] history[i] == hash && history.skip(
                i,
            ).to_set().len() <= limit;
        lemma_ranked_contains(history, k);
        let p = recency::position(all, hash);
        let i = lemma_rank(history, p);
        lemma_count(history.skip(i), all.take(p + 1));
        assert(k <= i);
        assert(history.skip(i).to_set().subset_of(history.skip(k).to_set())) by {
            assert forall|x: B256| history.skip(i).to_set().contains(x) implies history.skip(
                k,
            ).to_set().contains(x) by {
                let j = choose|j: int| 0 <= j < history.skip(i).len() && history.skip(i)[j] == x;
                assert(history.skip(k)[j + i - k] == x);
            }
        }
        vstd::set_lib::lemma_len_subset(history.skip(i).to_set(), history.skip(k).to_set());
        assert(seen[p] == all[p]);
    }
}

/// Whether each transaction of a history was new when it was checked.
pub open spec fn results(limit: nat, history: Seq<B256>) -> Seq<bool> {
    Seq::new(
        history.len(),
        |i: int| !recency::holds(seen_after(limit, history.take(i)), history[i]),
    )
}

/// How many of the results are `value`.
pub open spec fn count_of(results: Seq<bool>, value: bool) -> nat {
    results.filter(|result: bool| result == value).len()
}

/// One more result.
proof fn lemma_results(limit: nat, history: Seq<B256>, value: bool)
    requires
        history.len() > 0,
    ensures
        ({
            let front = history.drop_last();
            let last = !recency::holds(seen_after(limit, front), history.last());
            count_of(results(limit, history), value) == count_of(results(limit, front), value)
                + if last == value {
                1nat
            } else {
                0
            }
        }),
{
    let front = history.drop_last();
    assert(history.take(history.len() - 1) =~= front);
    assert forall|i: int| 0 <= i < front.len() implies #[trigger] front.take(i) == history.take(
        i,
    ) by {
        assert(front.take(i) =~= history.take(i));
    }
    assert(results(limit, history).drop_last() =~= results(limit, front));
    reveal(Seq::filter);
}

/// After a number of checks that fits in the counters, the statistics tell how
/// many checks there were, how many of them found a new transaction and how many
/// a duplicate. They are due after each `log_interval` checks, and never where
/// that is zero.
pub proof fn law_statistics_count_the_results(
    limit: nat,
    log_interval: u64,
    history: Seq<B256>,
)
    requires
        0 < limit,
        history.len() <= u64::MAX,
    ensures
        ({
            let after = DedupView::fresh(limit, log_interval).checked_all(history);
            let all = results(limit, history);
            &&& after.seen == seen_after(limit, history)
            &&& after.stats.total == history.len()
            &&& after.stats.unique == count_of(all, true)
            &&& after.stats.duplicates == count_of(all, false)
            &&& after.stats.unique + after.stats.duplicates == history.len()
            &&& after.stats_due() == if log_interval > 0 && history.len() as int
                % log_interval as int == 0 {
                Some(after.stats)
            } else {
                None
            }
            &&& after.limit == limit
            &&& after.log_interval == log_interval
        }),
    decreases history.len(),
{
    if history.len() > 0 {
        law_statistics_count_the_results(limit, log_interval, history.drop_last());
        lemma_results(limit, history, true);
        lemma_results(limit, history, false);
    } else {
        reveal(Seq::filter);
        assert(results(limit, history) =~= Seq::empty());
    }
}

} // verus!
