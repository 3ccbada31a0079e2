//! Garbage collection: choosing which entries to evict (least recently
//! used, least frequently used, or first in), and the statistics of runs.

use vstd::prelude::*;
use std::time::{Duration, Instant};
use super::directory::{CacheDirectory, str_seq, lemma_push_contains, lemma_str_seq_push, lemma_str_seq_take};
use super::types::{DiskLocation, expired_at};
use crate::assoc::{assoc_find, assoc_insert, assoc_map, assoc_remove, has_key, keys_unique, lemma_assoc_map_dom, lemma_assoc_map_index, str_eq};
use crate::clock::{duration_add, duration_as_nanos, duration_from_nanos_u128, duration_nanos, duration_new, instant_now, max_duration_nanos};

verus! {

/// Eviction strategy.
#[derive(Debug, Clone, Copy, PartialEq, Eq, Structural)]
pub enum EvictionStrategy {
    /// Evict entries that have not been used for the longest time.
    LRU,
    /// Evict entries with the fewest recorded accesses.
    LFU,
    /// Evict entries in the order they were inserted.
    FIFO,
}

/// Statistics of garbage-collection runs.
#[derive(Debug, Clone, Copy)]
pub struct GCMetrics {
    /// Number of runs.
    pub total_runs: u64,
    /// Entries evicted in all runs.
    pub total_evicted: u64,
    /// Bytes freed in all runs.
    pub total_bytes_freed: u64,
    /// Time spent in all runs.
    pub total_duration: Duration,
    /// When the last run finished.
    pub last_run: Option<Instant>,
    /// How long the last run took.
    pub last_duration: Option<Duration>,
    /// Entries evicted by the last run.
    pub last_evicted: usize,
    /// Number of adjustments of the trigger threshold.
    pub adaptive_adjustments: u64,
}

impl GCMetrics {
    /// Statistics with every count at zero and no run yet.
    pub fn new() -> (m: GCMetrics)
        ensures
            m.total_runs == 0,
            m.total_evicted == 0,
            m.total_bytes_freed == 0,
            duration_nanos(m.total_duration) == 0,
            m.last_run is None,
            m.last_duration is None,
            m.last_evicted == 0,
            m.adaptive_adjustments == 0,
    {
        GCMetrics {
            total_runs: 0,
            total_evicted: 0,
            total_bytes_freed: 0,
            total_duration: duration_new(0, 0),
            last_run: None,
            last_duration: None,
            last_evicted: 0,
            adaptive_adjustments: 0,
        }
    }

    /// Records a run that evicted `evicted` entries, freeing `bytes_freed`
    /// bytes in `duration`.
    pub fn record_run(&mut self, evicted: usize, bytes_freed: u64, duration: Duration)
        requires
            old(self).total_runs < u64::MAX,
            old(self).total_evicted + evicted <= u64::MAX,
            old(self).total_bytes_freed + bytes_freed <= u64::MAX,
            duration_nanos(old(self).total_duration) + duration_nanos(duration)
                <= max_duration_nanos(),
        ensures
            final(self).total_runs == old(self).total_runs + 1,
            final(self).total_evicted == old(self).total_evicted + evicted,
            final(self).total_bytes_freed == old(self).total_bytes_freed + bytes_freed,
            duration_nanos(final(self).total_duration) == duration_nanos(old(self).total_duration)
                + duration_nanos(duration),
            final(self).last_run is Some,
            final(self).last_duration == Some(duration),
            final(self).last_evicted == evicted,
            final(self).adaptive_adjustments == old(self).adaptive_adjustments,
    {
        self.total_runs = self.total_runs + 1;
        self.total_evicted = self.total_evicted + evicted as u64;
        self.total_bytes_freed = self.total_bytes_freed + bytes_freed;
        self.total_duration = duration_add(self.total_duration, duration);
        self.last_run = Some(instant_now());
        self.last_duration = Some(duration);
        self.last_evicted = evicted;
    }

    /// Records a run as `record_run` does when every total still fits its
    /// counter, the summed duration included; otherwise leaves the metrics
    /// as they are. Gives whether the run was recorded.
    pub fn try_record_run(&mut self, evicted: usize, bytes_freed: u64, duration: Duration) -> (recorded: bool)
        ensures
            recorded == (old(self).total_runs < u64::MAX && old(self).total_evicted + evicted <= u64::MAX
                && old(self).total_bytes_freed + bytes_freed <= u64::MAX && duration_nanos(old(self).total_duration)
                + duration_nanos(duration) <= max_duration_nanos()),
            !recorded ==> *final(self) == *old(self),
            recorded ==> {
                &&& final(self).total_runs == old(self).total_runs + 1
                &&& final(self).total_evicted == old(self).total_evicted + evicted
                &&& final(self).total_bytes_freed == old(self).total_bytes_freed + bytes_freed
                &&& duration_nanos(final(self).total_duration) == duration_nanos(old(self).total_duration)
                    + duration_nanos(duration)
                &&& final(self).last_run is Some
                &&& final(self).last_duration == Some(duration)
                &&& final(self).last_evicted == evicted
                &&& final(self).adaptive_adjustments == old(self).adaptive_adjustments
            },
    {
        let total = duration_as_nanos(&self.total_duration);
        let more = duration_as_nanos(&duration);
        let max: u128 = 18_446_744_073_709_551_615u128 * 1_000_000_000u128 + 999_999_999u128;
        if self.total_runs < u64::MAX && self.total_evicted <= u64::MAX - evicted as u64 && self.total_bytes_freed
            <= u64::MAX - bytes_freed && total + more <= max {
            self.record_run(evicted, bytes_freed, duration);
            true
        } else {
            false
        }
    }

    /// Records an adjustment of the trigger threshold.
    pub fn record_adaptive_adjustment(&mut self)
        requires
            old(self).adaptive_adjustments < u64::MAX,
        ensures
            final(self).adaptive_adjustments == old(self).adaptive_adjustments + 1,
            final(self).total_runs == old(self).total_runs,
            final(self).total_evicted == old(self).total_evicted,
            final(self).total_bytes_freed == old(self).total_bytes_freed,
            final(self).total_duration == old(self).total_duration,
            final(self).last_run == old(self).last_run,
            final(self).last_duration == old(self).last_duration,
            final(self).last_evicted == old(self).last_evicted,
    {
        self.adaptive_adjustments = self.adaptive_adjustments + 1;
    }

    /// Average time of a run: the total divided by the number of runs (taken
    /// to 32 bits, as the division of a duration takes it), or zero before
    /// the first run.
    pub fn average_duration(&self) -> (d: Duration)
        requires
            self.total_runs > 0 ==> self.total_runs as u32 != 0,
        ensures
            self.total_runs == 0 ==> duration_nanos(d) == 0,
            self.total_runs > 0 ==> duration_nanos(d) == duration_nanos(self.total_duration) / (
            self.total_runs as u32 as nat),
    {
        if self.total_runs > 0 {
            let n = duration_as_nanos(&self.total_duration);
            let runs = #[verifier::truncate] (self.total_runs as u32);
            let q = n / (runs as u128);
            assert(q <= n) by (nonlinear_arith)
                requires q == n / (runs as u128), runs > 0;
            duration_from_nanos_u128(q)
        } else {
            duration_new(0, 0)
        }
    }
}

/// A victim with the characters of its key.
pub open spec fn victim_view(v: (String, DiskLocation)) -> (Seq<char>, DiskLocation) {
    (v.0@, v.1)
}

/// The victims with the characters of their keys.
pub open spec fn victims_view(v: Seq<(String, DiskLocation)>) -> Seq<(Seq<char>, DiskLocation)> {
    Seq::new(v.len(), |i: int| victim_view(v[i]))
}

/// The keys of `keys` that have an entry, paired with their locations.
pub open spec fn present_pairs(keys: Seq<Seq<char>>, m: Map<Seq<char>, DiskLocation>) -> Seq<
    (Seq<char>, DiskLocation),
>
    decreases keys.len(),
{
    if keys.len() == 0 {
        Seq::empty()
    } else if m.dom().contains(keys.last()) {
        present_pairs(keys.drop_last(), m).push((keys.last(), m[keys.last()]))
    } else {
        present_pairs(keys.drop_last(), m)
    }
}

/// The entries of `list` that have outlived `ttl` at `now`, in order.
pub open spec fn expired_entries(list: Seq<(String, DiskLocation)>, ttl: u64, now: u64) -> Seq<
    (Seq<char>, DiskLocation),
>
    decreases list.len(),
{
    if list.len() == 0 {
        Seq::empty()
    } else if expired_at(list.last().1.timestamp, ttl, now) {
        expired_entries(list.drop_last(), ttl, now).push(victim_view(list.last()))
    } else {
        expired_entries(list.drop_last(), ttl, now)
    }
}

/// `s` without the strings that occur in `ks`.
pub open spec fn without_all(s: Seq<Seq<char>>, ks: Seq<Seq<char>>) -> Seq<Seq<char>>
    decreases s.len(),
{
    if s.len() == 0 {
        s
    } else if ks.contains(s.last()) {
        without_all(s.drop_last(), ks)
    } else {
        without_all(s.drop_last(), ks).push(s.last())
    }
}

/// Whether one of `keys` equals `k`.
pub fn strs_contain(keys: &[String], k: &str) -> (b: bool)
    ensures
        b == str_seq(keys@).contains(k@),
{
    let mut i: usize = 0;
    while i < keys.len()
        invariant
            i <= keys@.len(),
            forall|j: int| 0 <= j < i ==> (#[trigger] keys@[j])@ != k@,
        decreases keys@.len() - i,
    {
        if str_eq(keys[i].as_str(), k) {
            assert(str_seq(keys@)[i as int] == k@);
            return true;
        }
        i = i + 1;
    }
    proof {
        if str_seq(keys@).contains(k@) {
            let j = choose|j: int| 0 <= j < str_seq(keys@).len() && str_seq(keys@)[j] == k@;
            assert(keys@[j]@ == k@);
        }
    }
    false
}

/// Position of the first entry with the fewest accesses.
pub open spec fn first_min_pos(s: Seq<(Seq<char>, DiskLocation, u64)>) -> int
    decreases s.len(),
{
    if s.len() <= 1 {
        0
    } else {
        let p = first_min_pos(s.drop_last());
        if s.last().2 < s[p].2 {
            s.len() - 1
        } else {
            p
        }
    }
}

/// The entries ordered by access count, fewest first; entries with equal
/// counts keep their order (a stable sort).
pub open spec fn by_frequency(s: Seq<(Seq<char>, DiskLocation, u64)>) -> Seq<(Seq<char>, DiskLocation)>
    decreases s.len(),
{
    if s.len() == 0 {
        Seq::empty()
    } else {
        let p = first_min_pos(s);
        proof {
            lemma_first_min_pos(s);
        }
        seq![(s[p].0, s[p].1)] + by_frequency(s.remove(p))
    }
}

pub proof fn lemma_first_min_pos(s: Seq<(Seq<char>, DiskLocation, u64)>)
    requires
        s.len() > 0,
    ensures
        0 <= first_min_pos(s) < s.len(),
        forall|j: int| 0 <= j < s.len() ==> s[first_min_pos(s)].2 <= #[trigger] s[j].2,
        forall|j: int| 0 <= j < first_min_pos(s) ==> s[first_min_pos(s)].2 < #[trigger] s[j].2,
    decreases s.len(),
{
    if s.len() > 1 {
        let d = s.drop_last();
        lemma_first_min_pos(d);
        let p = first_min_pos(d);
        assert forall|j: int| 0 <= j < d.len() implies #[trigger] d[j] == s[j] by {}
        assert(d[p] == s[p]);
        assert(first_min_pos(s) == if s.last().2 < s[p].2 {
            s.len() - 1
        } else {
            p
        });
        if s.last().2 < s[p].2 {
            assert forall|j: int| 0 <= j < s.len() implies s[first_min_pos(s)].2 <= #[trigger] s[j].2 by {
                if j < s.len() - 1 {
                    assert(d[p].2 <= d[j].2);
                }
            }
            assert forall|j: int| 0 <= j < first_min_pos(s) implies s[first_min_pos(s)].2 < #[trigger] s[j].2 by {
                assert(d[p].2 <= d[j].2);
            }
        } else {
            assert forall|j: int| 0 <= j < s.len() implies s[first_min_pos(s)].2 <= #[trigger] s[j].2 by {
                if j < s.len() - 1 {
                    assert(d[p].2 <= d[j].2);
                }
            }
            assert forall|j: int| 0 <= j < first_min_pos(s) implies s[first_min_pos(s)].2 < #[trigger] s[j].2 by {
                assert(d[p].2 < d[j].2);
            }
        }
    }
}

/// The access counts attached to the entries, in the entries' order.
pub open spec fn with_freq(list: Seq<(String, DiskLocation)>, freq: Map<Seq<char>, u64>) -> Seq<
    (Seq<char>, DiskLocation, u64),
> {
    Seq::new(
        list.len(),
        |i: int|
            (
                list[i].0@,
                list[i].1,
                if freq.dom().contains(list[i].0@) {
                    freq[list[i].0@]
                } else {
                    0
                },
            ),
    )
}

/// `n` or the length of `s`, whichever is less.
pub open spec fn at_most(n: int, len: int) -> int {
    if n <= len {
        n
    } else {
        len
    }
}

/// Tracks what the eviction strategies need: access counts (LFU) and
/// insertion order (FIFO), plus the time-to-live of entries.
pub struct EvictionTracker {
    strategy: EvictionStrategy,
    ttl_secs: u64,
    access_freq: Vec<(String, u64)>,
    insertion_order: Vec<String>,
}

impl EvictionTracker {
    /// The strategy in use.
    pub closed spec fn spec_strategy(&self) -> EvictionStrategy {
        self.strategy
    }

    /// Time-to-live of entries (0: entries do not expire).
    pub closed spec fn spec_ttl(&self) -> u64 {
        self.ttl_secs
    }

    /// Recorded accesses per key.
    pub closed spec fn frequencies(&self) -> Map<Seq<char>, u64> {
        assoc_map(self.access_freq@)
    }

    /// Keys in insertion order.
    pub closed spec fn insertions(&self) -> Seq<Seq<char>> {
        str_seq(self.insertion_order@)
    }

    /// No key is counted twice.
    pub closed spec fn wf(&self) -> bool {
        keys_unique(self.access_freq@)
    }

    /// A tracker for `strategy` with entries living `ttl_secs` seconds.
    pub fn new(strategy: EvictionStrategy, ttl_secs: u64) -> (t: EvictionTracker)
        ensures
            t.wf(),
            t.spec_strategy() == strategy,
            t.spec_ttl() == ttl_secs,
            t.frequencies() == Map::<Seq<char>, u64>::empty(),
            t.insertions() == Seq::<Seq<char>>::empty(),
    {
        let t = EvictionTracker {
            strategy,
            ttl_secs,
            access_freq: Vec::new(),
            insertion_order: Vec::new(),
        };
        assert(t.insertions() =~= Seq::<Seq<char>>::empty());
        t
    }

    /// Changes the strategy and time-to-live; what was recorded stays.
    pub fn set_policy(&mut self, strategy: EvictionStrategy, ttl_secs: u64)
        ensures
            final(self).spec_strategy() == strategy,
            final(self).spec_ttl() == ttl_secs,
            final(self).frequencies() == old(self).frequencies(),
            final(self).insertions() == old(self).insertions(),
            final(self).wf() == old(self).wf(),
    {
        self.strategy = strategy;
        self.ttl_secs = ttl_secs;
    }

    /// Records an insertion; only FIFO keeps track of it.
    pub fn record_insertion(&mut self, key: String)
        ensures
            final(self).spec_strategy() == old(self).spec_strategy(),
            final(self).spec_ttl() == old(self).spec_ttl(),
            final(self).frequencies() == old(self).frequencies(),
            final(self).wf() == old(self).wf(),
            old(self).spec_strategy() is FIFO ==> final(self).insertions() == old(self).insertions().push(key@),
            !(old(self).spec_strategy() is FIFO) ==> final(self).insertions() == old(self).insertions(),
    {
        if self.strategy == EvictionStrategy::FIFO {
            let ghost before = self.insertion_order@;
            self.insertion_order.push(key);
            assert(str_seq(self.insertion_order@) =~= str_seq(before).push(key@));
        }
    }

    /// How often `key` was accessed, if its accesses are counted.
    pub fn access_count(&self, key: &str) -> (n: Option<u64>)
        requires
            self.wf(),
        ensures
            n is Some <==> self.frequencies().dom().contains(key@),
            n matches Some(c) ==> c == self.frequencies()[key@],
    {
        proof {
            lemma_assoc_map_dom(self.access_freq@, key@);
        }
        match assoc_find(&self.access_freq, key) {
            Some(i) => {
                proof {
                    lemma_assoc_map_index(self.access_freq@, i as int);
                }
                Some(self.access_freq[i].1)
            },
            None => None,
        }
    }

    /// Records an access; only LFU counts it.
    pub fn record_access(&mut self, key: &str)
        requires
            old(self).wf(),
            old(self).frequencies().dom().contains(key@) ==> old(self).frequencies()[key@] < u64::MAX,
        ensures
            final(self).wf(),
            final(self).spec_strategy() == old(self).spec_strategy(),
            final(self).spec_ttl() == old(self).spec_ttl(),
            final(self).insertions() == old(self).insertions(),
            old(self).spec_strategy() is LFU ==> final(self).frequencies() == old(self).frequencies().insert(
                key@,
                if old(self).frequencies().dom().contains(key@) {
                    (old(self).frequencies()[key@] + 1) as u64
                } else {
                    1
                },
            ),
            !(old(self).spec_strategy() is LFU) ==> final(self).frequencies() == old(self).frequencies(),
    {
        if self.strategy == EvictionStrategy::LFU {
            proof {
                lemma_assoc_map_dom(self.access_freq@, key@);
            }
            let n = match assoc_find(&self.access_freq, key) {
                Some(i) => {
                    proof {
                        lemma_assoc_map_index(self.access_freq@, i as int);
                    }
                    self.access_freq[i].1 + 1
                },
                None => 1,
            };
            assoc_insert(&mut self.access_freq, key.to_owned(), n);
        }
    }

    /// Forgets what was recorded for the given keys.
    pub fn cleanup_removed_keys(&mut self, keys: &[String])
        requires
            old(self).wf(),
        ensures
            final(self).wf(),
            final(self).spec_strategy() == old(self).spec_strategy(),
            final(self).spec_ttl() == old(self).spec_ttl(),
            final(self).frequencies() == old(self).frequencies().remove_keys(str_seq(keys@).to_set()),
            final(self).insertions() == without_all(old(self).insertions(), str_seq(keys@)),
    {
        let mut i: usize = 0;
        while i < keys.len()
            invariant
                i <= keys@.len(),
                self.wf(),
                self.strategy == old(self).strategy,
                self.ttl_secs == old(self).ttl_secs,
                self.insertion_order == old(self).insertion_order,
                self.frequencies() == old(self).frequencies().remove_keys(
                    str_seq(keys@).take(i as int).to_set(),
                ),
            decreases keys@.len() - i,
        {
            assoc_remove(&mut self.access_freq, keys[i].as_str());
            proof {
                lemma_str_seq_take(keys@, i as int);
                let a = str_seq(keys@).take(i as int);
                assert forall|x: Seq<char>| #[trigger] str_seq(keys@).take(i + 1).to_set().contains(x)
                    <==> a.to_set().insert(keys@[i as int]@).contains(x) by {
                    lemma_push_contains(a, keys@[i as int]@, x);
                }
                assert(str_seq(keys@).take(i + 1).to_set() =~= a.to_set().insert(keys@[i as int]@));
                assert(self.frequencies() =~= old(self).frequencies().remove_keys(
                    str_seq(keys@).take(i + 1).to_set(),
                ));
            }
            i = i + 1;
        }
        assert(str_seq(keys@).take(keys@.len() as int) =~= str_seq(keys@));
        let ghost ks = str_seq(keys@);
        let ghost before = str_seq(self.insertion_order@);
        let mut kept: Vec<String> = Vec::new();
        let mut j: usize = 0;
        while j < self.insertion_order.len()
            invariant
                j <= self.insertion_order@.len(),
                ks == str_seq(keys@),
                before == str_seq(self.insertion_order@),
                str_seq(kept@) == without_all(before.take(j as int), ks),
            decreases self.insertion_order@.len() - j,
        {
            let ghost kb = kept@;
            proof {
                lemma_str_seq_take(self.insertion_order@, j as int);
                assert(before.take(j + 1).drop_last() =~= before.take(j as int));
            }
            if !strs_contain(keys, self.insertion_order[j].as_str()) {
                kept.push(self.insertion_order[j].clone());
                proof {
                    lemma_str_seq_push(kb, self.insertion_order@[j as int]);
                }
            }
            j = j + 1;
        }
        assert(before.take(before.len() as int) =~= before);
        self.insertion_order = kept;
    }

    /// Chooses up to `target_count` entries to evict at time `now`: first
    /// entries that outlived the time-to-live (when one is set), then, for
    /// the rest, entries chosen by the strategy.
    pub fn select_victims_at(&self, directory: &CacheDirectory, target_count: usize, now: u64) -> (r:
        Vec<(String, DiskLocation)>)
        requires
            self.wf(),
            directory.wf(),
        ensures
            victims_view(r@) == victims_spec(*self, *directory, target_count as int, now),
            (forall|j: int|
                0 <= j < directory.entry_list().len() ==> !expired_at(
                    #[trigger] directory.entry_list()[j].1.timestamp,
                    self.spec_ttl(),
                    now,
                )) ==> victims_view(r@) == strategy_victims(
                self.spec_strategy(),
                *directory,
                self.frequencies(),
                self.insertions(),
                target_count as int,
            ),
    {
        proof {
            if forall|j: int|
                0 <= j < directory.entry_list().len() ==> !expired_at(
                    #[trigger] directory.entry_list()[j].1.timestamp,
                    self.spec_ttl(),
                    now,
                ) {
                law_victims_without_expiry_follow_strategy(*self, *directory, target_count as int, now);
            }
        }
        let mut victims = if self.ttl_secs > 0 {
            select_expired_entries(directory, self.ttl_secs, now, target_count)
        } else {
            let v: Vec<(String, DiskLocation)> = Vec::new();
            assert(victims_view(v@) =~= Seq::empty());
            v
        };
        if victims.len() < target_count {
            let remaining = target_count - victims.len();
            let mut extra = match self.strategy {
                EvictionStrategy::LRU => select_lru_victims(directory, remaining),
                EvictionStrategy::LFU => self.select_lfu_victims(directory, remaining),
                EvictionStrategy::FIFO => self.select_fifo_victims(directory, remaining),
            };
            let ghost a = victims@;
            let ghost b = extra@;
            victims.append(&mut extra);
            assert(victims_view(victims@) =~= victims_view(a) + victims_view(b));
        } else {
            assert(victims_view(victims@) + Seq::<(Seq<char>, DiskLocation)>::empty() =~= victims_view(victims@));
        }
        victims
    }

    /// Chooses up to `target_count` entries to evict now.
    pub fn select_victims(&self, directory: &CacheDirectory, target_count: usize) -> (r: Vec<
        (String, DiskLocation),
    >)
        requires
            self.wf(),
            directory.wf(),
        ensures
            exists|now: u64| victims_view(r@) == victims_spec(*self, *directory, target_count as int, now),
    {
        self.select_victims_at(directory, target_count, crate::clock::unix_now_secs())
    }

    fn select_lfu_victims(&self, directory: &CacheDirectory, target_count: usize) -> (r: Vec<
        (String, DiskLocation),
    >)
        requires
            self.wf(),
            directory.wf(),
        ensures
            victims_view(r@) == by_frequency(with_freq(directory.entry_list(), self.frequencies())).take(
                at_most(target_count as int, directory.entry_list().len() as int),
            ),
    {
        let list = directory.iter();
        let ghost orig = with_freq(list@, self.frequencies());
        let mut rem: Vec<(String, DiskLocation, u64)> = Vec::new();
        let mut i: usize = 0;
        while i < list.len()
            invariant
                self.wf(),
                i <= list@.len(),
                orig == with_freq(list@, self.frequencies()),
                triple_view(rem@) == orig.take(i as int),
            decreases list@.len() - i,
        {
            let f = match assoc_find(&self.access_freq, list[i].0.as_str()) {
                Some(j) => {
                    proof {
                        lemma_assoc_map_index(self.access_freq@, j as int);
                    }
                    self.access_freq[j].1
                },
                None => {
                    proof {
                        lemma_assoc_map_dom(self.access_freq@, list@[i as int].0@);
                    }
                    0
                },
            };
            let ghost before = rem@;
            rem.push((list[i].0.clone(), list[i].1, f));
            proof {
                assert(triple_view(rem@) =~= triple_view(before).push(
                    (list@[i as int].0@, list@[i as int].1, f),
                ));
                assert(orig.take(i + 1) =~= orig.take(i as int).push(orig[i as int]));
            }
            i = i + 1;
        }
        assert(orig.take(list@.len() as int) =~= orig);
        let n = if target_count <= list.len() {
            target_count
        } else {
            list.len()
        };
        let mut out: Vec<(String, DiskLocation)> = Vec::new();
        let mut k: usize = 0;
        while k < n
            invariant
                k <= n <= orig.len(),
                rem@.len() + k == orig.len(),
                victims_view(out@) + by_frequency(triple_view(rem@)) == by_frequency(orig),
                victims_view(out@).len() == k,
            decreases n - k,
        {
            let ghost rv = triple_view(rem@);
            proof {
                lemma_first_min_pos(rv);
            }
            let mut p: usize = 0;
            let mut q: usize = 1;
            while q < rem.len()
                invariant
                    rv == triple_view(rem@),
                    rem@.len() > 0,
                    0 <= p < q <= rem@.len(),
                    p == first_min_pos(rv.take(q as int)),
                decreases rem@.len() - q,
            {
                assert(rv.take(q + 1).drop_last() =~= rv.take(q as int));
                proof {
                    lemma_first_min_pos(rv.take(q as int));
                }
                if rem[q].2 < rem[p].2 {
                    p = q;
                }
                q = q + 1;
            }
            assert(rv.take(rem@.len() as int) =~= rv);
            let (key, loc, _) = rem.remove(p);
            proof {
                assert(triple_view(rem@) =~= rv.remove(p as int));
            }
            let ghost before = out@;
            out.push((key, loc));
            proof {
                assert(victims_view(out@) =~= victims_view(before).push((rv[p as int].0, rv[p as int].1)));
                assert(by_frequency(rv) == seq![(rv[p as int].0, rv[p as int].1)] + by_frequency(rv.remove(p as int)));
                assert(victims_view(out@) + by_frequency(triple_view(rem@)) =~= victims_view(before)
                    + by_frequency(rv));
            }
            k = k + 1;
        }
        proof {
            assert(by_frequency(orig).take(n as int) =~= victims_view(out@));
        }
        out
    }

    fn select_fifo_victims(&self, directory: &CacheDirectory, target_count: usize) -> (r: Vec<
        (String, DiskLocation),
    >)
        requires
            directory.wf(),
        ensures
            victims_view(r@) == present_pairs(
                self.insertions().take(at_most(target_count as int, self.insertions().len() as int)),
                directory.entries(),
            ),
    {
        let n = if target_count <= self.insertion_order.len() {
            target_count
        } else {
            self.insertion_order.len()
        };
        present_locations(directory, &self.insertion_order, n)
    }
}

/// The views of triples of key, location and count.
pub open spec fn triple_view(v: Seq<(String, DiskLocation, u64)>) -> Seq<(Seq<char>, DiskLocation, u64)> {
    Seq::new(v.len(), |i: int| (v[i].0@, v[i].1, v[i].2))
}

/// The victims chosen at `now` for `n` evictions: entries that outlived the
/// time-to-live first (when one is set), then the strategy's choice for the
/// rest.
pub open spec fn victims_spec(t: EvictionTracker, directory: CacheDirectory, n: int, now: u64) -> Seq<
    (Seq<char>, DiskLocation),
> {
    let all_expired = expired_entries(directory.entry_list(), t.spec_ttl(), now);
    let expired = if t.spec_ttl() > 0 {
        all_expired.take(at_most(n, all_expired.len() as int))
    } else {
        Seq::empty()
    };
    let rest = n - expired.len();
    expired + if rest > 0 {
        strategy_victims(t.spec_strategy(), directory, t.frequencies(), t.insertions(), rest)
    } else {
        Seq::empty()
    }
}

/// What each strategy chooses for `n` victims.
pub open spec fn strategy_victims(
    strategy: EvictionStrategy,
    directory: CacheDirectory,
    freq: Map<Seq<char>, u64>,
    insertions: Seq<Seq<char>>,
    n: int,
) -> Seq<(Seq<char>, DiskLocation)> {
    match strategy {
        EvictionStrategy::LRU => {
            let lru = directory.lru_order().take(
                at_most(directory.entry_list().len() as int, directory.lru_order().len() as int),
            );
            present_pairs(lru.take(at_most(n, lru.len() as int)), directory.entries())
        },
        EvictionStrategy::LFU => by_frequency(with_freq(directory.entry_list(), freq)).take(
            at_most(n, directory.entry_list().len() as int),
        ),
        EvictionStrategy::FIFO => present_pairs(
            insertions.take(at_most(n, insertions.len() as int)),
            directory.entries(),
        ),
    }
}

proof fn lemma_present_pairs_len(keys: Seq<Seq<char>>, m: Map<Seq<char>, DiskLocation>)
    ensures
        present_pairs(keys, m).len() <= keys.len(),
    decreases keys.len(),
{
    if keys.len() > 0 {
        lemma_present_pairs_len(keys.drop_last(), m);
    }
}

proof fn lemma_by_frequency_len(s: Seq<(Seq<char>, DiskLocation, u64)>)
    ensures
        by_frequency(s).len() == s.len(),
    decreases s.len(),
{
    if s.len() > 0 {
        lemma_first_min_pos(s);
        lemma_by_frequency_len(s.remove(first_min_pos(s)));
    }
}

/// The entries of `list` that outlived `ttl` at `now`, at most `n` of them.
fn select_expired_entries(directory: &CacheDirectory, ttl: u64, now: u64, n: usize) -> (r: Vec<
    (String, DiskLocation),
>)
    ensures
        victims_view(r@) == expired_entries(directory.entry_list(), ttl, now).take(
            at_most(n as int, expired_entries(directory.entry_list(), ttl, now).len() as int),
        ),
{
    let list = directory.iter();
    let mut all: Vec<(String, DiskLocation)> = Vec::new();
    let mut i: usize = 0;
    while i < list.len()
        invariant
            i <= list@.len(),
            list@ == directory.entry_list(),
            victims_view(all@) == expired_entries(list@.take(i as int), ttl, now),
        decreases list@.len() - i,
    {
        let ghost before = all@;
        assert(list@.take(i + 1).drop_last() =~= list@.take(i as int));
        assert(list@.take(i + 1).last() == list@[i as int]);
        if list[i].1.is_expired_at(ttl, now) {
            all.push((list[i].0.clone(), list[i].1));
            assert(victims_view(all@) =~= victims_view(before).push(victim_view(list@[i as int])));
        }
        i = i + 1;
    }
    assert(list@.take(list@.len() as int) =~= list@);
    let m = if n <= all.len() {
        n
    } else {
        all.len()
    };
    let mut out: Vec<(String, DiskLocation)> = Vec::new();
    let mut k: usize = 0;
    while k < m
        invariant
            k <= m <= all@.len(),
            victims_view(out@) == victims_view(all@).take(k as int),
        decreases m - k,
    {
        let ghost before = out@;
        out.push((all[k].0.clone(), all[k].1));
        proof {
            assert(out@ == before.push(all@[k as int]));
            assert(victims_view(out@) =~= victims_view(before).push(victim_view(all@[k as int])));
            assert(victims_view(all@).take(k + 1) =~= victims_view(all@).take(k as int).push(
                victim_view(all@[k as int]),
            ));
        }
        k = k + 1;
    }
    out
}

/// The keys `keys[..n]` that have an entry, with their locations.
fn present_locations(directory: &CacheDirectory, keys: &Vec<String>, n: usize) -> (r: Vec<
    (String, DiskLocation),
>)
    requires
        directory.wf(),
        n <= keys@.len(),
    ensures
        victims_view(r@) == present_pairs(str_seq(keys@).take(n as int), directory.entries()),
{
    let mut out: Vec<(String, DiskLocation)> = Vec::new();
    let mut i: usize = 0;
    while i < n
        invariant
            directory.wf(),
            i <= n <= keys@.len(),
            victims_view(out@) == present_pairs(str_seq(keys@).take(i as int), directory.entries()),
        decreases n - i,
    {
        let ghost before = out@;
        assert(str_seq(keys@).take(i + 1).drop_last() =~= str_seq(keys@).take(i as int));
        assert(str_seq(keys@).take(i + 1).last() == keys@[i as int]@);
        match directory.get(keys[i].as_str()) {
            Some(loc) => {
                out.push((keys[i].clone(), *loc));
                assert(victims_view(out@) =~= victims_view(before).push((keys@[i as int]@, *loc)));
            },
            None => {},
        }
        i = i + 1;
    }
    out
}

/// The least recently used entries, at most `target_count` of them.
fn select_lru_victims(directory: &CacheDirectory, target_count: usize) -> (r: Vec<(String, DiskLocation)>)
    requires
        directory.wf(),
    ensures
        ({
            let lru = directory.lru_order().take(
                at_most(directory.entry_list().len() as int, directory.lru_order().len() as int),
            );
            victims_view(r@) == present_pairs(lru.take(at_most(target_count as int, lru.len() as int)), directory.entries())
        }),
{
    let keys = directory.select_lru_victims_count(directory.len());
    let n = if target_count <= keys.len() {
        target_count
    } else {
        keys.len()
    };
    present_locations(directory, &keys, n)
}

/// How many entries a collection run sets out to evict to free
/// `blocks_to_free` blocks: their bytes over the average size of an entry
/// (the bytes in use over the number of entries, or one block when there
/// are none), and at least one.
pub open spec fn target_evictions_spec(blocks_to_free: int, block_size: int, used_blocks: int, entries: int) -> int {
    let avg = if entries > 0 {
        used_blocks * block_size / entries
    } else {
        block_size
    };
    let t = blocks_to_free * block_size / avg;
    if t < 1 {
        1
    } else {
        t
    }
}

/// The number of entries a collection run sets out to evict; see
/// `target_evictions_spec`.
pub fn target_evictions(blocks_to_free: usize, block_size: usize, used_blocks: usize, entries: usize) -> (n: usize)
    requires
        used_blocks * block_size <= usize::MAX,
        blocks_to_free * block_size <= usize::MAX,
        entries > 0 ==> used_blocks * block_size >= entries,
        entries == 0 ==> block_size > 0,
    ensures
        n == target_evictions_spec(blocks_to_free as int, block_size as int, used_blocks as int, entries as int),
        n >= 1,
{
    let avg = if entries > 0 {
        let used_bytes = used_blocks * block_size;
        assert(used_bytes / entries >= 1) by (nonlinear_arith)
            requires
                used_bytes >= entries,
                entries > 0,
        ;
        used_bytes / entries
    } else {
        block_size
    };
    let t = blocks_to_free * block_size / avg;
    if t < 1 {
        1
    } else {
        t
    }
}

proof fn lemma_none_expired(list: Seq<(String, DiskLocation)>, ttl: u64, now: u64)
    requires
        forall|j: int| 0 <= j < list.len() ==> !expired_at(#[trigger] list[j].1.timestamp, ttl, now),
    ensures
        expired_entries(list, ttl, now) == Seq::<(Seq<char>, DiskLocation)>::empty(),
    decreases list.len(),
{
    if list.len() > 0 {
        let d = list.drop_last();
        assert forall|j: int| 0 <= j < d.len() implies !expired_at(#[trigger] d[j].1.timestamp, ttl, now) by {
            assert(d[j] == list[j]);
        }
        lemma_none_expired(d, ttl, now);
        assert(list.last() == list[list.len() - 1]);
    }
}

proof fn lemma_present_all(keys: Seq<Seq<char>>, m: Map<Seq<char>, DiskLocation>)
    requires
        forall|i: int| 0 <= i < keys.len() ==> m.contains_key(#[trigger] keys[i]),
    ensures
        present_pairs(keys, m) == Seq::new(keys.len(), |i: int| (keys[i], m[keys[i]])),
    decreases keys.len(),
{
    if keys.len() > 0 {
        let d = keys.drop_last();
        assert forall|i: int| 0 <= i < d.len() implies m.contains_key(#[trigger] d[i]) by {
            assert(d[i] == keys[i]);
        }
        lemma_present_all(d, m);
        assert(keys.last() == keys[keys.len() - 1]);
        assert(present_pairs(keys, m) =~= Seq::new(keys.len(), |i: int| (keys[i], m[keys[i]])));
    } else {
        assert(present_pairs(keys, m) =~= Seq::new(keys.len(), |i: int| (keys[i], m[keys[i]])));
    }
}

/// A time-to-live only adds expired entries in front: when no entry has
/// expired, the victims are exactly what the eviction strategy chooses,
/// whatever the time-to-live, so a collection still finds victims.
pub proof fn law_victims_without_expiry_follow_strategy(t: EvictionTracker, d: CacheDirectory, n: int, now: u64)
    requires
        n >= 0,
        forall|j: int|
            0 <= j < d.entry_list().len() ==> !expired_at(#[trigger] d.entry_list()[j].1.timestamp, t.spec_ttl(), now),
    ensures
        victims_spec(t, d, n, now) == strategy_victims(t.spec_strategy(), d, t.frequencies(), t.insertions(), n),
{
    lemma_none_expired(d.entry_list(), t.spec_ttl(), now);
    let e = Seq::<(Seq<char>, DiskLocation)>::empty();
    assert(e.take(at_most(n, 0)) =~= e);
    if n == 0 {
        match t.spec_strategy() {
            EvictionStrategy::LRU => {
                let lru = d.lru_order().take(
                    at_most(d.entry_list().len() as int, d.lru_order().len() as int),
                );
                assert(lru.take(at_most(0, lru.len() as int)) =~= Seq::<Seq<char>>::empty());
            },
            EvictionStrategy::LFU => {
                assert(by_frequency(with_freq(d.entry_list(), t.frequencies())).take(0) =~= e);
            },
            EvictionStrategy::FIFO => {
                assert(t.insertions().take(at_most(0, t.insertions().len() as int)) =~= Seq::<Seq<char>>::empty());
            },
        }
    } else {
        assert(victims_spec(t, d, n, now) =~= e + strategy_victims(
            t.spec_strategy(),
            d,
            t.frequencies(),
            t.insertions(),
            n,
        ));
    }
    assert(victims_spec(t, d, n, now) =~= strategy_victims(t.spec_strategy(), d, t.frequencies(), t.insertions(), n));
}

/// Least-recently-used eviction with nothing expired takes the `n` least
/// recently used entries (all of them when there are fewer): as many
/// victims as asked for, or as there are entries, each the next key of the
/// LRU order with its location, whatever the time-to-live.
pub proof fn law_lru_victims_are_least_recent(t: EvictionTracker, d: CacheDirectory, n: int, now: u64)
    requires
        n >= 0,
        t.spec_strategy() is LRU,
        d.wf(),
        d.lru_consistent(),
        d.lru_order().no_duplicates(),
        forall|j: int|
            0 <= j < d.entry_list().len() ==> !expired_at(#[trigger] d.entry_list()[j].1.timestamp, t.spec_ttl(), now),
    ensures
        victims_spec(t, d, n, now).len() == at_most(n, d.entries().len() as int),
        forall|i: int|
            0 <= i < victims_spec(t, d, n, now).len() ==> #[trigger] victims_spec(t, d, n, now)[i] == (
            d.lru_order()[i],
            d.entries()[d.lru_order()[i]],
        ),
{
    law_victims_without_expiry_follow_strategy(t, d, n, now);
    let lru = d.lru_order();
    super::directory::law_iter_lists_each_entry_once(d);
    assert(lru.to_set() =~= d.entries().dom()) by {
        assert forall|k: Seq<char>| lru.to_set().contains(k) <==> d.entries().dom().contains(k) by {
            assert(d.entries().dom().contains(k) <==> lru.contains(k));
        }
    }
    lru.unique_seq_to_set();
    assert(lru.len() == d.entry_list().len());
    let whole = lru.take(at_most(d.entry_list().len() as int, lru.len() as int));
    assert(whole =~= lru);
    let k = at_most(n, lru.len() as int);
    let keys = whole.take(k);
    assert forall|i: int| 0 <= i < keys.len() implies d.entries().contains_key(#[trigger] keys[i]) by {
        assert(keys[i] == lru[i]);
        assert(lru.contains(lru[i]));
    }
    lemma_present_all(keys, d.entries());
}

} // verus!
