//! Read-ahead: a record of recent accesses, the keys it predicts, and a
//! small cache of data read ahead.

use vstd::prelude::*;
use std::collections::VecDeque;
use std::time::Instant;
use super::types::DiskLocation;
use super::directory::{deque_without, lemma_assoc_len, lemma_push_contains, lemma_without_contains, str_seq, without};
use crate::assoc::{assoc_find, assoc_map, assoc_remove, has_key, keys_unique, lemma_assoc_map_dom, lemma_assoc_map_index, lemma_assoc_map_update, lemma_push_unique, str_eq};
use crate::clock::instant_now;
use crate::text::string_push_str;

verus! {

/// The kind of access pattern seen.
#[derive(Debug, Clone, Copy, PartialEq, Eq, Structural)]
pub enum AccessPattern {
    /// No clear pattern.
    Random,
    /// Offsets growing by small steps.
    Sequential,
    /// The same keys again and again.
    Temporal,
}

/// A read recorded for pattern detection.
#[derive(Debug)]
struct AccessRecord {
    key: String,
    timestamp: Instant,
    offset: u64,
}

/// Largest step between offsets that still counts as sequential (10 MiB,
/// exclusive).
pub const SEQUENTIAL_STEP_LIMIT: u64 = 10485760;

/// Keeps the most recent accesses and predicts what is read next.
#[derive(Debug)]
pub struct PatternDetector {
    history: VecDeque<AccessRecord>,
    max_history: usize,
    max_prefetch_entries: usize,
}

/// How many times `k` occurs in `keys`.
pub open spec fn occurrences(keys: Seq<Seq<char>>, k: Seq<char>) -> nat
    decreases keys.len(),
{
    if keys.len() == 0 {
        0
    } else {
        occurrences(keys.drop_last(), k) + if keys.last() == k {
            1nat
        } else {
            0
        }
    }
}

/// How many different keys occur in `keys`.
pub open spec fn distinct_count(keys: Seq<Seq<char>>) -> nat
    decreases keys.len(),
{
    if keys.len() == 0 {
        0
    } else {
        distinct_count(keys.drop_last()) + if keys.drop_last().contains(keys.last()) {
            0nat
        } else {
            1
        }
    }
}

/// How many neighbouring pairs of accesses step forward by less than
/// 10 MiB.
pub open spec fn sequential_steps(offsets: Seq<u64>) -> nat
    decreases offsets.len(),
{
    if offsets.len() < 2 {
        0
    } else {
        let d = offsets.drop_last();
        sequential_steps(d) + if offsets.last() > d.last() && offsets.last() - d.last() < SEQUENTIAL_STEP_LIMIT {
            1nat
        } else {
            0
        }
    }
}

/// The keys of the recorded accesses.
pub open spec fn history_keys(h: Seq<(Seq<char>, u64)>) -> Seq<Seq<char>> {
    Seq::new(h.len(), |i: int| h[i].0)
}

/// The offsets of the recorded accesses.
pub open spec fn history_offsets(h: Seq<(Seq<char>, u64)>) -> Seq<u64> {
    Seq::new(h.len(), |i: int| h[i].1)
}

/// The last `n` items of `s`, or all of them.
pub open spec fn keep_last<A>(s: Seq<A>, n: nat) -> Seq<A> {
    if s.len() > n {
        s.skip(s.len() - n)
    } else {
        s
    }
}

/// Whether `r` is a choice of the most frequent keys of `keys`: distinct
/// keys that occur there, `n` of them or all, from the most frequent down,
/// and none left out more frequent than one chosen.
pub open spec fn most_frequent(keys: Seq<Seq<char>>, n: nat, r: Seq<Seq<char>>) -> bool {
    &&& r.no_duplicates()
    &&& forall|i: int| 0 <= i < r.len() ==> keys.contains(#[trigger] r[i])
    &&& r.len() == if n < distinct_count(keys) {
        n
    } else {
        distinct_count(keys)
    }
    &&& forall|i: int, j: int| 0 <= i < j < r.len() ==> occurrences(keys, r[i]) >= occurrences(keys, r[j])
    &&& forall|k: Seq<char>, i: int|
        keys.contains(k) && !r.contains(k) && 0 <= i < r.len() ==> occurrences(keys, #[trigger] r[i])
            >= #[trigger] occurrences(keys, k)
}

impl PatternDetector {
    /// The recorded accesses, oldest first: key and offset.
    pub closed spec fn history(&self) -> Seq<(Seq<char>, u64)> {
        Seq::new(self.history@.len(), |i: int| (self.history@[i].key@, self.history@[i].offset))
    }

    /// Most accesses kept.
    pub closed spec fn spec_max_history(&self) -> nat {
        self.max_history as nat
    }

    /// Most keys predicted at once.
    pub closed spec fn spec_max_prefetch(&self) -> nat {
        self.max_prefetch_entries as nat
    }

    /// A detector keeping `max_history` accesses and predicting up to
    /// `max_prefetch_entries` keys.
    pub fn new(max_history: usize, max_prefetch_entries: usize) -> (d: PatternDetector)
        ensures
            d.history() == Seq::<(Seq<char>, u64)>::empty(),
            d.spec_max_history() == max_history,
            d.spec_max_prefetch() == max_prefetch_entries,
    {
        let d = PatternDetector { history: VecDeque::new(), max_history, max_prefetch_entries };
        assert(d.history() =~= Seq::<(Seq<char>, u64)>::empty());
        d
    }

    /// Records a read of `key` at `offset`; only the last `max_history`
    /// accesses are kept.
    pub fn record_access(&mut self, key: String, offset: u64)
        ensures
            final(self).history() == keep_last(old(self).history().push((key@, offset)), old(self).spec_max_history()),
            final(self).spec_max_history() == old(self).spec_max_history(),
            final(self).spec_max_prefetch() == old(self).spec_max_prefetch(),
    {
        let ghost k = key@;
        self.history.push_back(AccessRecord { key, timestamp: instant_now(), offset });
        let ghost all = old(self).history().push((k, offset));
        assert(self.history() =~= all);
        let ghost mut dropped: int = 0;
        while self.history.len() > self.max_history
            invariant
                self.max_history == old(self).max_history,
                self.max_prefetch_entries == old(self).max_prefetch_entries,
                0 <= dropped <= all.len(),
                self.history() == all.skip(dropped),
                dropped > 0 ==> all.len() - dropped >= self.max_history,
            decreases self.history@.len(),
        {
            let ghost before = self.history();
            let ghost before_raw = self.history@;
            assert(before.len() > 0);
            self.history.pop_front();
            assert(self.history@ =~= before_raw.subrange(1, before_raw.len() as int));
            assert(self.history() =~= before.drop_first());
            assert(all.skip(dropped).drop_first() =~= all.skip(dropped + 1));
            proof {
                dropped = dropped + 1;
            }
        }
        proof {
            if all.len() <= self.max_history {
                assert(dropped == 0);
                assert(all.skip(0) =~= all);
            } else {
                assert(dropped == all.len() - self.max_history);
            }
        }
    }

    /// The neighbouring pairs of accesses that step forward by less than
    /// 10 MiB, and the number of pairs.
    pub fn sequential_pairs(&self) -> (r: (usize, usize))
        ensures
            r.0 == sequential_steps(history_offsets(self.history())),
            r.1 == if self.history().len() < 2 {
                0
            } else {
                self.history().len() - 1
            },
    {
        let n = self.history.len();
        if n < 2 {
            return (0, 0);
        }
        let ghost offs = history_offsets(self.history());
        let mut count: usize = 0;
        let mut i: usize = 1;
        while i < n
            invariant
                1 <= i <= n,
                n == self.history@.len(),
                offs == history_offsets(self.history()),
                count == sequential_steps(offs.take(i as int)),
                count <= i,
            decreases n - i,
        {
            let prev = self.history[i - 1].offset;
            let curr = self.history[i].offset;
            proof {
                let t = offs.take(i + 1);
                assert(t.drop_last() =~= offs.take(i as int));
                assert(t.last() == curr);
                assert(t.drop_last().last() == prev);
            }
            if curr > prev && curr - prev < SEQUENTIAL_STEP_LIMIT {
                count = count + 1;
            }
            i = i + 1;
        }
        assert(offs.take(n as int) =~= offs);
        (count, n - 1)
    }

    /// How many accesses repeat a key seen before in the record, and how
    /// many accesses there are.
    pub fn repeat_accesses(&self) -> (r: (usize, usize))
        ensures
            r.1 == self.history().len(),
            r.0 == self.history().len() - distinct_count(history_keys(self.history())),
    {
        let n = self.history.len();
        let ghost keys = history_keys(self.history());
        let mut repeats: usize = 0;
        let mut i: usize = 0;
        while i < n
            invariant
                i <= n,
                n == self.history@.len(),
                keys == history_keys(self.history()),
                repeats + distinct_count(keys.take(i as int)) == i,
            decreases n - i,
        {
            let mut j: usize = 0;
            let mut seen = false;
            while j < i
                invariant
                    j <= i < n,
                    n == self.history@.len(),
                    keys == history_keys(self.history()),
                    seen == exists|m: int| 0 <= m < j && keys[m] == keys[i as int],
                decreases i - j,
            {
                assert(keys[j as int] == self.history@[j as int].key@);
                assert(keys[i as int] == self.history@[i as int].key@);
                if str_eq(self.history[j].key.as_str(), self.history[i].key.as_str()) {
                    seen = true;
                }
                j = j + 1;
            }
            proof {
                let t = keys.take(i + 1);
                assert(t.drop_last() =~= keys.take(i as int));
                assert(t.last() == keys[i as int]);
                if seen {
                    let m = choose|m: int| 0 <= m < i && keys[m] == keys[i as int];
                    assert(keys.take(i as int)[m] == keys[i as int]);
                } else {
                    assert(!keys.take(i as int).contains(keys[i as int]));
                }
            }
            if seen {
                repeats = repeats + 1;
            }
            i = i + 1;
        }
        assert(keys.take(n as int) =~= keys);
        proof {
            lemma_distinct_le(keys);
        }
        (repeats, n)
    }

    /// The most frequent keys of the record, the most frequent first, up to
    /// the detector's limit; among keys seen equally often the choice is
    /// free.
    pub fn predict_temporal(&self) -> (r: Vec<String>)
        ensures
            most_frequent(history_keys(self.history()), self.spec_max_prefetch(), str_seq(r@)),
    {
        let ghost keys = history_keys(self.history());
        assert(keys =~= Seq::new(self.history@.len(), |i: int| self.history@[i].key@));
        let mut remaining = count_keys(&self.history, Ghost(keys));
        let n = self.max_prefetch_entries;
        let mut chosen: Vec<String> = Vec::new();
        while chosen.len() < n && remaining.len() > 0
            invariant
                chosen@.len() <= n,
                n == self.spec_max_prefetch(),
                keys == history_keys(self.history()),
                keys_unique(remaining@),
                forall|j: int|
                    0 <= j < remaining@.len() ==> keys.contains(#[trigger] remaining@[j].0@) && remaining@[j].1
                        == occurrences(keys, remaining@[j].0@),
                forall|k: Seq<char>| keys.contains(k) ==> #[trigger] has_key(remaining@, k) || str_seq(
                    chosen@,
                ).contains(k),
                forall|j: int, m: int|
                    0 <= j < remaining@.len() && 0 <= m < chosen@.len() ==> (#[trigger] remaining@[j]).0@ != (
                    #[trigger] chosen@[m])@,
                str_seq(chosen@).no_duplicates(),
                forall|m: int| 0 <= m < chosen@.len() ==> keys.contains(#[trigger] chosen@[m]@),
                forall|a: int, b: int|
                    0 <= a < b < chosen@.len() ==> occurrences(keys, (#[trigger] chosen@[a])@) >= occurrences(
                        keys,
                        (#[trigger] chosen@[b])@,
                    ),
                forall|m: int, j: int|
                    0 <= m < chosen@.len() && 0 <= j < remaining@.len() ==> occurrences(keys, (#[trigger] chosen@[m])@)
                        >= (#[trigger] remaining@[j]).1,
                chosen@.len() + remaining@.len() == distinct_count(keys),
            decreases remaining@.len(),
        {
            let mut best: usize = 0;
            let mut j: usize = 1;
            while j < remaining.len()
                invariant
                    best < j <= remaining@.len(),
                    forall|m: int| 0 <= m < j ==> remaining@[best as int].1 >= (#[trigger] remaining@[m]).1,
                decreases remaining@.len() - j,
            {
                if remaining[j].1 > remaining[best].1 {
                    best = j;
                }
                j = j + 1;
            }
            let ghost old_rem = remaining@;
            let ghost old_chosen = chosen@;
            let picked = remaining.remove(best);
            let ghost pk = picked.0@;
            proof {
                assert(picked == old_rem[best as int]);
                assert forall|a: int, b: int| 0 <= a < b < remaining@.len() implies (#[trigger] remaining@[a]).0@
                    != (#[trigger] remaining@[b]).0@ by {
                    let a2 = if a < best { a } else { a + 1 };
                    let b2 = if b < best { b } else { b + 1 };
                    assert(remaining@[a] == old_rem[a2]);
                    assert(remaining@[b] == old_rem[b2]);
                }
            }
            chosen.push(picked.0);
            proof {
                super::directory::lemma_str_seq_push(old_chosen, chosen@[old_chosen.len() as int]);
                assert(chosen@[old_chosen.len() as int]@ == pk);
                assert(!str_seq(old_chosen).contains(pk)) by {
                    if str_seq(old_chosen).contains(pk) {
                        let m = choose|m: int| 0 <= m < str_seq(old_chosen).len() && str_seq(old_chosen)[m] == pk;
                        assert(old_rem[best as int].0@ != old_chosen[m]@);
                    }
                }
                assert forall|j2: int| 0 <= j2 < remaining@.len() implies keys.contains(#[trigger] remaining@[j2].0@)
                    && remaining@[j2].1 == occurrences(keys, remaining@[j2].0@) by {
                    let j3 = if j2 < best { j2 } else { j2 + 1 };
                    assert(remaining@[j2] == old_rem[j3]);
                }
                assert forall|k: Seq<char>| keys.contains(k) implies #[trigger] has_key(remaining@, k) || str_seq(
                    chosen@,
                ).contains(k) by {
                    lemma_push_contains(str_seq(old_chosen), pk, k);
                    if has_key(old_rem, k) && k != pk {
                        let m = choose|m: int| 0 <= m < old_rem.len() && (#[trigger] old_rem[m]).0@ == k;
                        assert(m != best);
                        let m2 = if m < best { m } else { m - 1 };
                        assert(remaining@[m2] == old_rem[m]);
                    }
                }
                assert forall|j2: int, m: int|
                    0 <= j2 < remaining@.len() && 0 <= m < chosen@.len() implies (#[trigger] remaining@[j2]).0@ != (
                    #[trigger] chosen@[m])@ by {
                    let j3 = if j2 < best { j2 } else { j2 + 1 };
                    assert(remaining@[j2] == old_rem[j3]);
                    if m < old_chosen.len() {
                        assert(chosen@[m] == old_chosen[m]);
                    } else {
                        assert(j3 != best);
                    }
                }
                assert(str_seq(chosen@) =~= str_seq(old_chosen).push(pk));
                assert forall|a: int, b: int| 0 <= a < b < str_seq(chosen@).len() implies str_seq(chosen@)[a]
                    != str_seq(chosen@)[b] by {
                    if b == old_chosen.len() {
                        assert(str_seq(old_chosen)[a] == str_seq(chosen@)[a]);
                        assert(str_seq(old_chosen).contains(str_seq(chosen@)[a]));
                    } else {
                        assert(str_seq(old_chosen)[a] == str_seq(chosen@)[a]);
                        assert(str_seq(old_chosen)[b] == str_seq(chosen@)[b]);
                    }
                }
                assert forall|m: int| 0 <= m < chosen@.len() implies keys.contains(#[trigger] chosen@[m]@) by {
                    if m < old_chosen.len() {
                        assert(chosen@[m] == old_chosen[m]);
                    }
                }
                assert forall|a: int, b: int|
                    0 <= a < b < chosen@.len() implies occurrences(keys, (#[trigger] chosen@[a])@) >= occurrences(
                        keys,
                        (#[trigger] chosen@[b])@,
                    ) by {
                    assert(chosen@[a] == old_chosen[a]);
                    if b < old_chosen.len() {
                        assert(chosen@[b] == old_chosen[b]);
                    } else {
                        assert(old_rem[best as int].1 == occurrences(keys, pk));
                    }
                }
                assert forall|m: int, j2: int|
                    0 <= m < chosen@.len() && 0 <= j2 < remaining@.len() implies occurrences(
                        keys,
                        (#[trigger] chosen@[m])@,
                    ) >= (#[trigger] remaining@[j2]).1 by {
                    let j3 = if j2 < best { j2 } else { j2 + 1 };
                    assert(remaining@[j2] == old_rem[j3]);
                    if m < old_chosen.len() {
                        assert(chosen@[m] == old_chosen[m]);
                    } else {
                        assert(old_rem[best as int].1 >= old_rem[j3].1);
                    }
                }
            }
        }
        proof {
            let r = str_seq(chosen@);
            assert forall|i: int| 0 <= i < r.len() implies keys.contains(#[trigger] r[i]) by {
                assert(r[i] == chosen@[i]@);
            }
            assert forall|i: int, j2: int| 0 <= i < j2 < r.len() implies occurrences(keys, r[i]) >= occurrences(
                keys,
                r[j2],
            ) by {
                assert(r[i] == chosen@[i]@ && r[j2] == chosen@[j2]@);
            }
            assert forall|k: Seq<char>, i: int|
                keys.contains(k) && !r.contains(k) && 0 <= i < r.len() implies occurrences(keys, #[trigger] r[i])
                >= #[trigger] occurrences(keys, k) by {
                assert(has_key(remaining@, k));
                let m = choose|m: int| 0 <= m < remaining@.len() && (#[trigger] remaining@[m]).0@ == k;
                assert(r[i] == chosen@[i]@);
            }
        }
        chosen
    }

    /// After `current_key`, the keys that follow it in `all_keys`, up to the
    /// detector's limit; nothing when `current_key` is not there.
    pub fn predict_sequential(&self, current_key: &str, all_keys: &[String]) -> (r: Vec<String>)
        requires
            all_keys@.len() + self.spec_max_prefetch() + 1 <= usize::MAX,
        ensures
            str_seq(r@) == match str_seq(all_keys@).index_of_first(current_key@) {
                Some(p) => str_seq(all_keys@).subrange(
                    p + 1,
                    if p + 1 + self.spec_max_prefetch() < all_keys@.len() {
                        p + 1 + self.spec_max_prefetch()
                    } else {
                        all_keys@.len() as int
                    },
                ),
                None => Seq::empty(),
            },
    {
        let ghost names = str_seq(all_keys@);
        let mut pos: usize = 0;
        while pos < all_keys.len() && !str_eq(all_keys[pos].as_str(), current_key)
            invariant
                pos <= all_keys@.len(),
                names == str_seq(all_keys@),
                forall|m: int| 0 <= m < pos ==> names[m] != current_key@,
            decreases all_keys@.len() - pos,
        {
            pos = pos + 1;
        }
        if pos >= all_keys.len() {
            proof {
                names.index_of_first_ensures(current_key@);
                if names.contains(current_key@) {
                    let m = choose|m: int| 0 <= m < names.len() && names[m] == current_key@;
                    assert(names[m] != current_key@);
                }
            }
            let r: Vec<String> = Vec::new();
            assert(str_seq(r@) =~= Seq::<Seq<char>>::empty());
            return r;
        }
        proof {
            names.index_of_first_ensures(current_key@);
            assert(names[pos as int] == current_key@);
            assert(names.contains(current_key@));
            let p = names.index_of_first(current_key@)->Some_0;
            if p < pos {
                assert(names[p] == current_key@);
            }
            assert(p == pos);
        }
        let end = if pos + 1 + self.max_prefetch_entries < all_keys.len() {
            pos + 1 + self.max_prefetch_entries
        } else {
            all_keys.len()
        };
        let mut r: Vec<String> = Vec::new();
        let mut i: usize = pos + 1;
        while i < end
            invariant
                pos + 1 <= end <= all_keys@.len(),
                pos + 1 <= i,
                i <= end || i == pos + 1,
                names == str_seq(all_keys@),
                str_seq(r@) == names.subrange(pos + 1, if i <= end { i as int } else { end as int }),
            decreases end - i,
        {
            let ghost before = r@;
            r.push(all_keys[i].clone());
            proof {
                super::directory::lemma_str_seq_push(before, all_keys@[i as int]);
            }
            assert(str_seq(r@) =~= names.subrange(pos + 1, i + 1));
            i = i + 1;
        }
        proof {
            if pos + 1 > end {
            }
            if i > end {
                assert(i == pos + 1);
            }
        }
        assert(str_seq(r@) =~= names.subrange(pos + 1, end as int));
        r
    }
}

/// Pairs of each key of `t` with how often it occurs there, each key once.
pub open spec fn counts_of(pairs: Seq<(String, usize)>, t: Seq<Seq<char>>) -> bool {
    &&& keys_unique(pairs)
    &&& forall|j: int|
        0 <= j < pairs.len() ==> t.contains(#[trigger] pairs[j].0@) && pairs[j].1 == occurrences(t, pairs[j].0@)
    &&& forall|k: Seq<char>| t.contains(k) ==> #[trigger] has_key(pairs, k)
    &&& pairs.len() == distinct_count(t)
}

proof fn lemma_occurrences_absent(t: Seq<Seq<char>>, k: Seq<char>)
    requires
        !t.contains(k),
    ensures
        occurrences(t, k) == 0,
    decreases t.len(),
{
    if t.len() > 0 {
        assert(!t.drop_last().contains(k)) by {
            if t.drop_last().contains(k) {
                let i = choose|i: int| 0 <= i < t.drop_last().len() && t.drop_last()[i] == k;
                assert(t[i] == k);
            }
        }
        assert(t.last() != k) by {
            if t.last() == k {
                assert(t[t.len() - 1] == k);
            }
        }
        lemma_occurrences_absent(t.drop_last(), k);
    }
}

proof fn lemma_occurrences_le(t: Seq<Seq<char>>, k: Seq<char>)
    ensures
        occurrences(t, k) <= t.len(),
    decreases t.len(),
{
    if t.len() > 0 {
        lemma_occurrences_le(t.drop_last(), k);
    }
}

fn count_keys(h: &VecDeque<AccessRecord>, keys: Ghost<Seq<Seq<char>>>) -> (pairs: Vec<(String, usize)>)
    requires
        keys@ == Seq::new(h@.len(), |i: int| h@[i].key@),
    ensures
        counts_of(pairs@, keys@),
{
    let ghost keys = keys@;
    let mut pairs: Vec<(String, usize)> = Vec::new();
    let mut i: usize = 0;
    proof {
        assert(keys.take(0) =~= Seq::<Seq<char>>::empty());
    }
    while i < h.len()
        invariant
            i <= h@.len(),
            keys == Seq::new(h@.len(), |m: int| h@[m].key@),
            counts_of(pairs@, keys.take(i as int)),
        decreases h@.len() - i,
    {
        let ghost t = keys.take(i as int);
        let ghost t2 = keys.take(i + 1);
        let ghost x = keys[i as int];
        proof {
            assert(t2 =~= t.push(x));
            assert(t2.drop_last() =~= t);
            assert(h@[i as int].key@ == x);
        }
        let key = &h[i].key;
        match assoc_find(&pairs, key.as_str()) {
            Some(j) => {
                let c = pairs[j].1;
                proof {
                    lemma_occurrences_le(t, x);
                    assert(c == occurrences(t, x));
                    assert(t.len() == i);
                }
                let mut k = String::new();
                string_push_str(&mut k, key.as_str());
                let ghost old_pairs = pairs@;
                proof {
                    lemma_assoc_map_update(old_pairs, j as int, (k, (c + 1) as usize));
                }
                pairs.set(j, (k, c + 1));
                proof {
                    assert forall|m: int| 0 <= m < pairs@.len() implies t2.contains(#[trigger] pairs@[m].0@)
                        && pairs@[m].1 == occurrences(t2, pairs@[m].0@) by {
                        lemma_push_contains(t, x, pairs@[m].0@);
                        if m != j {
                            assert(pairs@[m] == old_pairs[m]);
                            assert(old_pairs[m].0@ != old_pairs[j as int].0@);
                        }
                    }
                    assert forall|k2: Seq<char>| t2.contains(k2) implies #[trigger] has_key(pairs@, k2) by {
                        lemma_push_contains(t, x, k2);
                        if t.contains(k2) {
                            assert(has_key(old_pairs, k2));
                            let m = choose|m: int| 0 <= m < old_pairs.len() && (#[trigger] old_pairs[m]).0@ == k2;
                            assert(pairs@[m].0@ == k2);
                        } else {
                            assert(pairs@[j as int].0@ == k2);
                        }
                    }
                    assert(t.contains(x));
                }
            },
            None => {
                let mut k = String::new();
                string_push_str(&mut k, key.as_str());
                let ghost old_pairs = pairs@;
                proof {
                    assert(!t.contains(x)) by {
                        if t.contains(x) {
                            assert(has_key(old_pairs, x));
                        }
                    }
                    lemma_occurrences_absent(t, x);
                    lemma_push_unique(old_pairs, (k, 1usize));
                }
                pairs.push((k, 1));
                proof {
                    assert forall|m: int| 0 <= m < pairs@.len() implies t2.contains(#[trigger] pairs@[m].0@)
                        && pairs@[m].1 == occurrences(t2, pairs@[m].0@) by {
                        lemma_push_contains(t, x, pairs@[m].0@);
                        if m < old_pairs.len() {
                            assert(pairs@[m] == old_pairs[m]);
                            if old_pairs[m].0@ == x {
                                assert(t.contains(x));
                            }
                        }
                    }
                    assert forall|k2: Seq<char>| t2.contains(k2) implies #[trigger] has_key(pairs@, k2) by {
                        lemma_push_contains(t, x, k2);
                        if t.contains(k2) {
                            assert(has_key(old_pairs, k2));
                            let m = choose|m: int| 0 <= m < old_pairs.len() && (#[trigger] old_pairs[m]).0@ == k2;
                            assert(pairs@[m].0@ == k2);
                        } else {
                            assert(pairs@[old_pairs.len() as int].0@ == k2);
                        }
                    }
                }
            },
        }
        i = i + 1;
    }
    assert(keys.take(h@.len() as int) =~= keys);
    pairs
}

proof fn lemma_distinct_le(keys: Seq<Seq<char>>)
    ensures
        distinct_count(keys) <= keys.len(),
    decreases keys.len(),
{
    if keys.len() > 0 {
        lemma_distinct_le(keys.drop_last());
    }
}

/// Data read ahead of time.
#[derive(Debug)]
pub struct PrefetchEntry {
    /// The key.
    pub key: String,
    /// The data.
    pub data: Vec<u8>,
    /// Where the data lies on the device.
    pub location: DiskLocation,
    /// When it was read.
    pub timestamp: Instant,
}

/// A small cache of data read ahead, evicting the oldest entries first.
#[derive(Debug)]
pub struct PrefetchCache {
    cache: Vec<(String, PrefetchEntry)>,
    lru: VecDeque<String>,
    max_size: usize,
    hits: u64,
    misses: u64,
}

impl PrefetchCache {
    /// The entries by key.
    pub closed spec fn entries(&self) -> Map<Seq<char>, PrefetchEntry> {
        assoc_map(self.cache@)
    }

    /// Keys from oldest to newest use (a key may occur more than once).
    pub closed spec fn lru_order(&self) -> Seq<Seq<char>> {
        str_seq(self.lru@)
    }

    /// Most entries held.
    pub closed spec fn spec_max_size(&self) -> nat {
        self.max_size as nat
    }

    /// Reads served.
    pub closed spec fn spec_hits(&self) -> u64 {
        self.hits
    }

    /// Reads not served.
    pub closed spec fn spec_misses(&self) -> u64 {
        self.misses
    }

    /// Each key once, and each entry's key in the use order.
    pub closed spec fn wf(&self) -> bool {
        &&& keys_unique(self.cache@)
        &&& forall|k: Seq<char>| #[trigger] self.entries().contains_key(k) ==> self.lru_order().contains(k)
    }

    /// An empty cache of at most `max_size` entries.
    pub fn new(max_size: usize) -> (c: PrefetchCache)
        ensures
            c.wf(),
            c.entries() == Map::<Seq<char>, PrefetchEntry>::empty(),
            c.lru_order() == Seq::<Seq<char>>::empty(),
            c.spec_max_size() == max_size,
            c.spec_hits() == 0,
            c.spec_misses() == 0,
    {
        let c = PrefetchCache { cache: Vec::new(), lru: VecDeque::new(), max_size, hits: 0, misses: 0 };
        assert(c.entries() =~= Map::<Seq<char>, PrefetchEntry>::empty());
        assert(c.lru_order() =~= Seq::<Seq<char>>::empty());
        c
    }

    /// Number of entries.
    pub fn len(&self) -> (n: usize)
        requires
            self.wf(),
        ensures
            n == self.entries().len(),
    {
        proof {
            lemma_assoc_len(self.cache@);
        }
        self.cache.len()
    }

    /// Most entries held.
    pub fn max_size(&self) -> (n: usize)
        ensures
            n == self.spec_max_size(),
    {
        self.max_size
    }

    /// Reads served.
    pub fn hits(&self) -> (n: u64)
        ensures
            n == self.spec_hits(),
    {
        self.hits
    }

    /// Reads not served.
    pub fn misses(&self) -> (n: u64)
        ensures
            n == self.spec_misses(),
    {
        self.misses
    }

    /// Adds data read ahead for `key`. While the cache is full, the key at
    /// the old end of the use order is dropped (with its entry, if it still
    /// has one); then the entry is stored and the key goes to the new end.
    pub fn insert(&mut self, key: String, data: Vec<u8>, location: DiskLocation)
        requires
            old(self).wf(),
            old(self).spec_max_size() > 0,
        ensures
            final(self).wf(),
            final(self).spec_max_size() == old(self).spec_max_size(),
            final(self).spec_hits() == old(self).spec_hits(),
            final(self).spec_misses() == old(self).spec_misses(),
            final(self).entries().contains_key(key@),
            final(self).entries()[key@].key@ == key@,
            final(self).entries()[key@].data@ == data@,
            final(self).entries()[key@].location == location,
            exists|p: int|
                {
                    &&& 0 <= p <= old(self).lru_order().len()
                    &&& final(self).lru_order() == old(self).lru_order().skip(p).push(key@)
                    &&& final(self).entries().remove(key@) == old(self).entries().remove_keys(
                        old(self).lru_order().take(p).to_set(),
                    ).remove(key@)
                    &&& old(self).entries().remove_keys(old(self).lru_order().take(p).to_set()).len()
                        < old(self).spec_max_size()
                    &&& p > 0 ==> old(self).entries().remove_keys(old(self).lru_order().take(p - 1).to_set()).len()
                        >= old(self).spec_max_size()
                },
    {
        let ghost lru0 = self.lru_order();
        let ghost map0 = self.entries();
        let ghost mut p: int = 0;
        proof {
            lemma_assoc_len(self.cache@);
            assert(lru0.take(0).to_set() =~= Set::<Seq<char>>::empty());
            assert(map0.remove_keys(Set::<Seq<char>>::empty()) =~= map0);
            assert(lru0.skip(0) =~= lru0);
        }
        while self.cache.len() >= self.max_size
            invariant
                self.wf(),
                self.max_size == old(self).max_size,
                self.max_size > 0,
                self.hits == old(self).hits,
                self.misses == old(self).misses,
                0 <= p <= lru0.len(),
                self.lru_order() == lru0.skip(p),
                self.entries() == map0.remove_keys(lru0.take(p).to_set()),
                p > 0 ==> map0.remove_keys(lru0.take(p - 1).to_set()).len() >= self.max_size,
            decreases self.lru@.len(),
        {
            proof {
                lemma_assoc_len(self.cache@);
                assert(self.cache@.len() > 0);
                let k0 = self.cache@[0].0@;
                lemma_assoc_map_dom(self.cache@, k0);
                assert(self.entries().contains_key(k0));
                assert(self.lru_order().contains(k0));
            }
            let ghost before_raw = self.lru@;
            let front = self.lru.pop_front();
            match front {
                Some(old_key) => {
                    proof {
                        assert(str_seq(before_raw) == lru0.skip(p));
                        assert(str_seq(before_raw)[0] == old_key@);
                        assert(lru0.skip(p)[0] == lru0[p]);
                        assert(self.lru@ =~= before_raw.subrange(1, before_raw.len() as int));
                        assert(str_seq(self.lru@) =~= lru0.skip(p).drop_first());
                    }
                    assoc_remove(&mut self.cache, old_key.as_str());
                    proof {
                        assert(lru0.take(p + 1) =~= lru0.take(p).push(old_key@));
                        assert(lru0.take(p + 1).to_set() =~= lru0.take(p).to_set().insert(old_key@)) by {
                            assert forall|x: Seq<char>| #[trigger] lru0.take(p + 1).to_set().contains(x)
                                <==> lru0.take(p).to_set().insert(old_key@).contains(x) by {
                                lemma_push_contains(lru0.take(p), old_key@, x);
                            }
                        }
                        assert(self.entries() =~= map0.remove_keys(lru0.take(p + 1).to_set()));
                        assert(str_seq(self.lru@) =~= lru0.skip(p + 1));
                        assert forall|k: Seq<char>| #[trigger] self.entries().contains_key(k) implies self.lru_order().contains(
                            k,
                        ) by {
                            assert(map0.remove_keys(lru0.take(p).to_set()).contains_key(k));
                            let i = choose|i: int| 0 <= i < lru0.skip(p).len() && lru0.skip(p)[i] == k;
                            assert(i != 0);
                            assert(self.lru_order()[i - 1] == k);
                        }
                        p = p + 1;
                    }
                },
                None => {
                    assert(false);
                },
            }
        }
        proof {
            lemma_assoc_len(self.cache@);
        }
        let ghost mid = self.entries();
        let ghost mid_lru = self.lru_order();
        let k2 = key.clone();
        let entry = PrefetchEntry { key: k2, data, location, timestamp: instant_now() };
        assoc_remove(&mut self.cache, key.as_str());
        proof {
            lemma_assoc_map_dom(self.cache@, key@);
        }
        let ghost stored_key = key@;
        proof {
            lemma_push_unique(self.cache@, (key, entry));
        }
        let k3 = key.clone();
        self.cache.push((key, entry));
        let ghost lru_before = self.lru@;
        self.lru.push_back(k3);
        proof {
            assert(str_seq(self.lru@) =~= str_seq(lru_before).push(stored_key));
            assert forall|k: Seq<char>| #[trigger] self.entries().contains_key(k) implies self.lru_order().contains(k) by {
                lemma_push_contains(mid_lru, stored_key, k);
            }
            assert(self.entries().remove(stored_key) =~= mid.remove(stored_key));
            assert(self.lru_order() == lru0.skip(p).push(stored_key));
        }
    }

    /// The data read ahead for `key`, which then becomes the newest use; a
    /// hit or a miss is counted.
    pub fn get(&mut self, key: &str) -> (r: Option<Vec<u8>>)
        requires
            old(self).wf(),
            old(self).spec_hits() < u64::MAX,
            old(self).spec_misses() < u64::MAX,
        ensures
            final(self).wf(),
            final(self).entries() == old(self).entries(),
            final(self).spec_max_size() == old(self).spec_max_size(),
            old(self).entries().contains_key(key@) ==> {
                &&& r matches Some(d) && d@ == old(self).entries()[key@].data@
                &&& final(self).spec_hits() == old(self).spec_hits() + 1
                &&& final(self).spec_misses() == old(self).spec_misses()
                &&& final(self).lru_order() == without(old(self).lru_order(), key@).push(key@)
            },
            !old(self).entries().contains_key(key@) ==> {
                &&& r is None
                &&& final(self).spec_hits() == old(self).spec_hits()
                &&& final(self).spec_misses() == old(self).spec_misses() + 1
                &&& final(self).lru_order() == old(self).lru_order()
            },
    {
        proof {
            lemma_assoc_map_dom(self.cache@, key@);
        }
        match assoc_find(&self.cache, key) {
            Some(i) => {
                proof {
                    lemma_assoc_map_index(self.cache@, i as int);
                }
                self.hits = self.hits + 1;
                let data = self.cache[i].1.data.clone();
                assert(data@ =~= self.cache@[i as int].1.data@);
                let mut rest = deque_without(&self.lru, key);
                let mut k = String::new();
                string_push_str(&mut k, key);
                let ghost before = rest@;
                rest.push_back(k);
                self.lru = rest;
                proof {
                    assert(str_seq(self.lru@) =~= str_seq(before).push(key@));
                    assert forall|x: Seq<char>| #[trigger] self.entries().contains_key(x) implies self.lru_order().contains(x) by {
                        assert(old(self).entries().contains_key(x));
                        lemma_push_contains(str_seq(before), key@, x);
                        lemma_without_contains(old(self).lru_order(), key@, x);
                    }
                }
                Some(data)
            },
            None => {
                self.misses = self.misses + 1;
                assert forall|x: Seq<char>| #[trigger] self.entries().contains_key(x) implies self.lru_order().contains(x) by {
                    assert(old(self).entries().contains_key(x));
                }
                None
            },
        }
    }

    /// Drops the entry of `key`, and the key from the use order.
    pub fn remove(&mut self, key: &str)
        requires
            old(self).wf(),
        ensures
            final(self).wf(),
            final(self).entries() == old(self).entries().remove(key@),
            old(self).entries().contains_key(key@) ==> final(self).lru_order() == without(old(self).lru_order(), key@),
            !old(self).entries().contains_key(key@) ==> final(self).lru_order() == old(self).lru_order(),
            final(self).spec_max_size() == old(self).spec_max_size(),
            final(self).spec_hits() == old(self).spec_hits(),
            final(self).spec_misses() == old(self).spec_misses(),
    {
        if assoc_remove(&mut self.cache, key).is_some() {
            self.lru = deque_without(&self.lru, key);
            proof {
                assert forall|x: Seq<char>| #[trigger] self.entries().contains_key(x) implies self.lru_order().contains(x) by {
                    assert(old(self).entries().contains_key(x));
                    lemma_without_contains(old(self).lru_order(), key@, x);
                }
            }
        } else {
            assert forall|x: Seq<char>| #[trigger] self.entries().contains_key(x) implies self.lru_order().contains(x) by {
                assert(old(self).entries().contains_key(x));
            }
        }
    }

    /// Drops every entry.
    pub fn clear(&mut self)
        requires
            old(self).wf(),
        ensures
            final(self).wf(),
            final(self).entries() == Map::<Seq<char>, PrefetchEntry>::empty(),
            final(self).lru_order() == Seq::<Seq<char>>::empty(),
            final(self).spec_max_size() == old(self).spec_max_size(),
            final(self).spec_hits() == old(self).spec_hits(),
            final(self).spec_misses() == old(self).spec_misses(),
    {
        self.cache = Vec::new();
        self.lru = VecDeque::new();
        assert(self.entries() =~= Map::<Seq<char>, PrefetchEntry>::empty());
        assert(self.lru_order() =~= Seq::<Seq<char>>::empty());
    }
}

} // verus!
