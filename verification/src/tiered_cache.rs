//! The memory tier of the two-tier slice cache, its keys, and the record
//! format of the disk tier.

use vstd::prelude::*;
use vstd::bytes::{spec_u64_from_le_bytes, spec_u64_to_le_bytes, u64_from_le_bytes, u64_to_le_bytes};
use crate::assoc::{assoc_find, assoc_map, has_key, keys_unique, lemma_assoc_map_dom, lemma_assoc_map_index, lemma_assoc_map_remove, lemma_assoc_map_update, lemma_push_unique};
use crate::models::ByteRange;
use crate::text::{dec_digits, is_digit, lemma_dec_digits_are_digits, lemma_parse_dec_digits, push_decimal, starts_with, str_chars, string_push_str, chars_start_with};

verus! {

/// Counters of the two-tier cache.
#[derive(Debug, Clone)]
pub struct TieredCacheStats {
    /// Entries in the memory tier.
    pub l1_entries: usize,
    /// Bytes held by the memory tier.
    pub l1_bytes: usize,
    /// Lookups answered by the memory tier.
    pub l1_hits: u64,
    /// Lookups answered by the disk tier.
    pub l2_hits: u64,
    /// Lookups answered by neither tier.
    pub misses: u64,
    /// Records written to the disk tier.
    pub disk_writes: u64,
    /// Failed writes to the disk tier.
    pub disk_errors: u64,
}

impl Default for TieredCacheStats {
    fn default() -> (s: TieredCacheStats)
        ensures
            s.l1_entries == 0 && s.l1_bytes == 0 && s.l1_hits == 0 && s.l2_hits == 0 && s.misses == 0
                && s.disk_writes == 0 && s.disk_errors == 0,
    {
        TieredCacheStats { l1_entries: 0, l1_bytes: 0, l1_hits: 0, l2_hits: 0, misses: 0, disk_writes: 0, disk_errors: 0 }
    }
}

/// The key of a cached slice: `URL:START:END`.
pub open spec fn cache_key_text(url: Seq<char>, range: ByteRange) -> Seq<char> {
    url + seq![':'] + dec_digits(range.start as nat) + seq![':'] + dec_digits(range.end as nat)
}

/// The key under which a slice of `url` is cached.
pub fn generate_cache_key(url: &str, range: &ByteRange) -> (k: String)
    ensures
        k@ == cache_key_text(url@, *range),
{
    let mut k = String::new();
    string_push_str(&mut k, url);
    string_push_str(&mut k, ":");
    push_decimal(&mut k, range.start);
    string_push_str(&mut k, ":");
    push_decimal(&mut k, range.end);
    proof {
        reveal_strlit(":");
    }
    assert(k@ =~= cache_key_text(url@, *range));
    k
}

/// Splitting `a:d` at its last colon, where `d` holds only digits.
proof fn lemma_split_last_colon(a1: Seq<char>, d1: Seq<char>, a2: Seq<char>, d2: Seq<char>)
    requires
        a1 + seq![':'] + d1 == a2 + seq![':'] + d2,
        forall|i: int| 0 <= i < d1.len() ==> is_digit(#[trigger] d1[i]),
        forall|i: int| 0 <= i < d2.len() ==> is_digit(#[trigger] d2[i]),
    ensures
        a1 == a2,
        d1 == d2,
{
    let k = a1 + seq![':'] + d1;
    let k2 = a2 + seq![':'] + d2;
    if d1.len() < d2.len() {
        let p = k.len() - 1 - d1.len();
        assert(k[p] == ':');
        assert(k2[p] == d2[p - a2.len() - 1]);
        assert(is_digit(d2[p - a2.len() - 1]));
    } else if d2.len() < d1.len() {
        let p = k.len() - 1 - d2.len();
        assert(k2[p] == ':');
        assert(k[p] == d1[p - a1.len() - 1]);
        assert(is_digit(d1[p - a1.len() - 1]));
    }
    assert(a1 =~= k.take(a1.len() as int));
    assert(a2 =~= k2.take(a2.len() as int));
    assert(d1 =~= k.skip(a1.len() + 1int));
    assert(d2 =~= k2.skip(a2.len() + 1int));
}

/// Cache keys are unique: two slices share a key only when they belong to
/// the same URL and cover the same bytes.
pub proof fn law_cache_keys_unique(url1: Seq<char>, r1: ByteRange, url2: Seq<char>, r2: ByteRange)
    requires
        cache_key_text(url1, r1) == cache_key_text(url2, r2),
    ensures
        url1 == url2,
        r1 == r2,
{
    lemma_dec_digits_are_digits(r1.start as nat);
    lemma_dec_digits_are_digits(r1.end as nat);
    lemma_dec_digits_are_digits(r2.start as nat);
    lemma_dec_digits_are_digits(r2.end as nat);
    lemma_split_last_colon(
        url1 + seq![':'] + dec_digits(r1.start as nat),
        dec_digits(r1.end as nat),
        url2 + seq![':'] + dec_digits(r2.start as nat),
        dec_digits(r2.end as nat),
    );
    lemma_split_last_colon(url1, dec_digits(r1.start as nat), url2, dec_digits(r2.start as nat));
    lemma_parse_dec_digits(r1.start);
    lemma_parse_dec_digits(r2.start);
    lemma_parse_dec_digits(r1.end);
    lemma_parse_dec_digits(r2.end);
}

/// A slice held in memory.
#[derive(Debug, Clone)]
pub struct L1Entry {
    /// The slice's bytes.
    pub data: Vec<u8>,
    /// When the entry stops being served (nanoseconds since the epoch).
    pub expires_at: u64,
    /// When the entry was stored or last served (nanoseconds since the epoch).
    pub last_accessed: u64,
    /// How often the entry was served.
    pub access_count: u64,
}

/// The bytes that a list of entries holds.
pub open spec fn total_bytes(v: Seq<(String, L1Entry)>) -> nat
    decreases v.len(),
{
    if v.len() == 0 {
        0
    } else {
        total_bytes(v.drop_last()) + v.last().1.data@.len()
    }
}

proof fn lemma_total_bytes_remove(v: Seq<(String, L1Entry)>, i: int)
    requires
        0 <= i < v.len(),
    ensures
        total_bytes(v.remove(i)) + v[i].1.data@.len() == total_bytes(v),
    decreases v.len(),
{
    if i == v.len() - 1 {
        assert(v.remove(i) =~= v.drop_last());
    } else {
        lemma_total_bytes_remove(v.drop_last(), i);
        assert(v.remove(i).drop_last() =~= v.drop_last().remove(i));
        assert(v.remove(i).last() == v.last());
    }
}

proof fn lemma_total_bytes_update(v: Seq<(String, L1Entry)>, i: int, x: (String, L1Entry))
    requires
        0 <= i < v.len(),
        x.1.data@.len() == v[i].1.data@.len(),
    ensures
        total_bytes(v.update(i, x)) == total_bytes(v),
    decreases v.len(),
{
    if i == v.len() - 1 {
        assert(v.update(i, x).drop_last() =~= v.drop_last());
    } else {
        lemma_total_bytes_update(v.drop_last(), i, x);
        assert(v.update(i, x).drop_last() =~= v.drop_last().update(i, x));
    }
}

/// What a lookup of `key` at time `now` serves from the entries `m`: the
/// data of an entry that has not expired.
pub open spec fn l1_serves(m: Map<Seq<char>, L1Entry>, key: Seq<char>, now: u64) -> Option<Seq<u8>> {
    if m.contains_key(key) && m[key].expires_at > now {
        Some(m[key].data@)
    } else {
        None
    }
}

/// The memory tier: slices by key, at most `max_size_bytes` bytes in all
/// (unless one slice alone is larger), the least recently used evicted
/// first.
#[derive(Debug)]
pub struct L1Cache {
    entries: Vec<(String, L1Entry)>,
    max_size_bytes: usize,
    current_size: usize,
}

/// Whether `e` was evicted from `before` by a store of `key` that left
/// `after`.
pub open spec fn evicted_by_store(
    before: Map<Seq<char>, L1Entry>,
    after: Map<Seq<char>, L1Entry>,
    key: Seq<char>,
    e: Seq<char>,
) -> bool {
    e != key && before.contains_key(e) && !after.contains_key(e)
}

impl L1Cache {
    /// The entries by key.
    pub closed spec fn entries(&self) -> Map<Seq<char>, L1Entry> {
        assoc_map(self.entries@)
    }

    /// The bytes held.
    pub closed spec fn spec_size(&self) -> nat {
        self.current_size as nat
    }

    /// The size limit.
    pub closed spec fn spec_capacity(&self) -> nat {
        self.max_size_bytes as nat
    }

    /// Each key once, and the byte count equal to the bytes of the entries.
    pub closed spec fn wf(&self) -> bool {
        &&& keys_unique(self.entries@)
        &&& self.current_size == total_bytes(self.entries@)
    }

    /// An empty memory tier with the given size limit.
    pub fn new(max_size_bytes: usize) -> (c: L1Cache)
        ensures
            c.wf(),
            c.entries() == Map::<Seq<char>, L1Entry>::empty(),
            c.spec_size() == 0,
            c.spec_capacity() == max_size_bytes,
    {
        let c = L1Cache { entries: Vec::new(), max_size_bytes, current_size: 0 };
        assert(c.entries() =~= Map::<Seq<char>, L1Entry>::empty());
        c
    }

    /// Number of entries.
    pub fn len(&self) -> (n: usize)
        requires
            self.wf(),
        ensures
            n == self.entries().len(),
    {
        proof {
            self.lemma_len();
        }
        self.entries.len()
    }

    /// Bytes held.
    pub fn size_bytes(&self) -> (n: usize)
        ensures
            n == self.spec_size(),
    {
        self.current_size
    }

    proof fn lemma_len(&self)
        requires
            self.wf(),
        ensures
            self.entries().len() == self.entries@.len(),
            self.entries().dom().finite(),
        decreases self.entries@.len(),
    {
        lemma_unique_len(self.entries@);
    }

    fn remove_at(&mut self, i: usize) -> (e: (String, L1Entry))
        requires
            old(self).wf(),
            i < old(self).entries@.len(),
        ensures
            final(self).wf(),
            e == old(self).entries@[i as int],
            final(self).entries@.len() == old(self).entries@.len() - 1,
            final(self).entries() == old(self).entries().remove(e.0@),
            final(self).spec_size() + e.1.data@.len() == old(self).spec_size(),
            final(self).spec_capacity() == old(self).spec_capacity(),
            old(self).entries().contains_key(e.0@) && old(self).entries()[e.0@] == e.1,
    {
        proof {
            lemma_assoc_map_remove(self.entries@, i as int);
            lemma_total_bytes_remove(self.entries@, i as int);
            lemma_assoc_map_index(self.entries@, i as int);
        }
        let e = self.entries.remove(i);
        self.current_size = self.current_size - e.1.data.len();
        e
    }

    /// Removes the entry of `key`; whether there was one.
    pub fn remove(&mut self, key: &str) -> (found: bool)
        requires
            old(self).wf(),
        ensures
            final(self).wf(),
            found == old(self).entries().contains_key(key@),
            final(self).entries() == old(self).entries().remove(key@),
            found ==> final(self).spec_size() + old(self).entries()[key@].data@.len() == old(self).spec_size(),
            !found ==> final(self).spec_size() == old(self).spec_size(),
            final(self).spec_capacity() == old(self).spec_capacity(),
    {
        proof {
            lemma_assoc_map_dom(self.entries@, key@);
        }
        match assoc_find(&self.entries, key) {
            Some(i) => {
                self.remove_at(i);
                true
            },
            None => {
                assert(old(self).entries().remove(key@) =~= old(self).entries());
                false
            },
        }
    }

    /// Serves `key` at time `now`: the data of a live entry, whose access
    /// time becomes `now`; an expired entry is dropped and gives `None`.
    pub fn lookup(&mut self, key: &str, now: u64) -> (r: Option<Vec<u8>>)
        requires
            old(self).wf(),
        ensures
            final(self).wf(),
            final(self).spec_capacity() == old(self).spec_capacity(),
            match r {
                Some(d) => l1_serves(old(self).entries(), key@, now) == Some(d@),
                None => l1_serves(old(self).entries(), key@, now) is None,
            },
            !old(self).entries().contains_key(key@) ==> r is None && final(self).entries() == old(self).entries()
                && final(self).spec_size() == old(self).spec_size(),
            old(self).entries().contains_key(key@) && old(self).entries()[key@].expires_at > now ==> {
                let e = old(self).entries()[key@];
                &&& r matches Some(d) && d@ == e.data@
                &&& final(self).entries() == old(self).entries().insert(
                    key@,
                    L1Entry {
                        data: e.data,
                        expires_at: e.expires_at,
                        last_accessed: now,
                        access_count: e.access_count.wrapping_add(1),
                    },
                )
                &&& final(self).spec_size() == old(self).spec_size()
            },
            old(self).entries().contains_key(key@) && old(self).entries()[key@].expires_at <= now ==> {
                &&& r is None
                &&& final(self).entries() == old(self).entries().remove(key@)
                &&& final(self).spec_size() + old(self).entries()[key@].data@.len() == old(self).spec_size()
            },
    {
        proof {
            lemma_assoc_map_dom(self.entries@, key@);
        }
        match assoc_find(&self.entries, key) {
            None => None,
            Some(i) => {
                proof {
                    lemma_assoc_map_index(self.entries@, i as int);
                }
                if self.entries[i].1.expires_at > now {
                    let (k, e) = self.remove_at(i);
                    let copy = e.data.clone();
                    assert(copy@ =~= e.data@);
                    let updated = L1Entry {
                        data: e.data,
                        expires_at: e.expires_at,
                        last_accessed: now,
                        access_count: e.access_count.wrapping_add(1),
                    };
                    self.put(k, updated);
                    Some(copy)
                } else {
                    self.remove_at(i);
                    None
                }
            },
        }
    }

    fn put(&mut self, key: String, e: L1Entry)
        requires
            old(self).wf(),
            !old(self).entries().contains_key(key@),
            old(self).spec_size() + e.data@.len() <= usize::MAX,
        ensures
            final(self).wf(),
            final(self).entries() == old(self).entries().insert(key@, e),
            final(self).spec_size() == old(self).spec_size() + e.data@.len(),
            final(self).spec_capacity() == old(self).spec_capacity(),
    {
        proof {
            lemma_assoc_map_dom(self.entries@, key@);
            lemma_push_unique(self.entries@, (key, e));
            assert(self.entries@.push((key, e)).drop_last() =~= self.entries@);
        }
        let n = e.data.len();
        self.entries.push((key, e));
        self.current_size = self.current_size + n;
    }

    fn lru_index(&self) -> (i: usize)
        requires
            self.wf(),
            self.entries@.len() > 0,
        ensures
            i < self.entries@.len(),
            forall|k: Seq<char>| #[trigger] self.entries().contains_key(k) ==> self.entries@[i as int].1.last_accessed
                <= self.entries()[k].last_accessed,
    {
        let mut best: usize = 0;
        let mut j: usize = 1;
        while j < self.entries.len()
            invariant
                best < j <= self.entries@.len(),
                forall|m: int| 0 <= m < j ==> self.entries@[best as int].1.last_accessed <= (
                #[trigger] self.entries@[m]).1.last_accessed,
            decreases self.entries@.len() - j,
        {
            if self.entries[j].1.last_accessed < self.entries[best].1.last_accessed {
                best = j;
            }
            j = j + 1;
        }
        proof {
            assert forall|k: Seq<char>| #[trigger] self.entries().contains_key(k) implies self.entries@[best as int].1.last_accessed
                <= self.entries()[k].last_accessed by {
                lemma_assoc_map_dom(self.entries@, k);
                let m = choose|m: int| 0 <= m < self.entries@.len() && (#[trigger] self.entries@[m]).0@ == k;
                lemma_assoc_map_index(self.entries@, m);
            }
        }
        best
    }

    /// Stores `data` under `key` at time `now`, replacing an entry of that
    /// key, and evicts the least recently used entries, one at a time, while
    /// the new total would pass the size limit and any are left.
    pub fn store(&mut self, key: &str, data: Vec<u8>, expires_at: u64, now: u64)
        requires
            old(self).wf(),
        ensures
            final(self).wf(),
            final(self).spec_capacity() == old(self).spec_capacity(),
            final(self).entries().contains_key(key@),
            final(self).entries()[key@] == (L1Entry { data, expires_at, last_accessed: now, access_count: 0 }),
            forall|k: Seq<char>| k != key@ && #[trigger] final(self).entries().contains_key(k) ==> old(
                self,
            ).entries().contains_key(k) && final(self).entries()[k] == old(self).entries()[k],
            final(self).spec_size() <= final(self).spec_capacity() || final(self).entries().dom() == set![key@],
            forall|e: Seq<char>, k: Seq<char>|
                #[trigger] evicted_by_store(old(self).entries(), final(self).entries(), key@, e) && k != key@
                    && #[trigger] final(self).entries().contains_key(k) ==> old(self).entries()[e].last_accessed
                    <= old(self).entries()[k].last_accessed,
            (exists|e: Seq<char>| evicted_by_store(old(self).entries(), final(self).entries(), key@, e)) ==> exists|
                e: Seq<char>,
            |
                {
                    &&& evicted_by_store(old(self).entries(), final(self).entries(), key@, e)
                    &&& forall|e2: Seq<char>|
                        evicted_by_store(old(self).entries(), final(self).entries(), key@, e2)
                            ==> #[trigger] old(self).entries()[e2].last_accessed <= old(
                            self,
                        ).entries()[e].last_accessed
                    &&& final(self).spec_size() + old(self).entries()[e].data@.len() > final(self).spec_capacity()
                },
    {
        let data_size = data.len();
        self.remove(key);
        let ghost base = self.entries();
        let ghost mut any_evicted = false;
        let ghost mut last_key: Seq<char> = Seq::empty();
        proof {
            self.lemma_len();
        }
        while self.entries.len() > 0 && (self.current_size > self.max_size_bytes || data_size
            > self.max_size_bytes - self.current_size)
            invariant
                self.wf(),
                self.spec_capacity() == old(self).spec_capacity(),
                base == old(self).entries().remove(key@),
                !self.entries().contains_key(key@),
                forall|k: Seq<char>| #[trigger] self.entries().contains_key(k) ==> base.contains_key(k)
                    && self.entries()[k] == base[k],
                forall|e: Seq<char>|
                    base.contains_key(e) && !(#[trigger] self.entries().contains_key(e)) ==> any_evicted
                        && base[e].last_accessed <= base[last_key].last_accessed,
                any_evicted ==> base.contains_key(last_key) && !self.entries().contains_key(last_key),
                any_evicted ==> forall|k: Seq<char>| #[trigger] self.entries().contains_key(k)
                    ==> base[last_key].last_accessed <= self.entries()[k].last_accessed,
                any_evicted ==> self.spec_size() + base[last_key].data@.len() + data_size > self.spec_capacity(),
                data_size == data@.len(),
            decreases self.entries@.len(),
        {
            let i = self.lru_index();
            let ghost before = self.entries();
            let ghost size_before = self.spec_size();
            let (k, e) = self.remove_at(i);
            proof {
                any_evicted = true;
                last_key = k@;
            }
        }
        proof {
            if self.entries@.len() == 0 {
                assert(self.current_size == 0);
            }
        }
        let ghost kept = self.entries();
        let ghost none_kept = self.entries@.len() == 0;
        let mut owned_key = String::new();
        string_push_str(&mut owned_key, key);
        self.put(owned_key, L1Entry { data, expires_at, last_accessed: now, access_count: 0 });
        proof {
            self.lemma_len();
            if none_kept {
                assert(kept =~= Map::<Seq<char>, L1Entry>::empty());
                assert(self.entries().dom() =~= set![key@]);
            }
            assert forall|e: Seq<char>|
                evicted_by_store(old(self).entries(), self.entries(), key@, e) implies base.contains_key(e)
                && !kept.contains_key(e) by {}
            if exists|e: Seq<char>| evicted_by_store(old(self).entries(), self.entries(), key@, e) {
                assert(evicted_by_store(old(self).entries(), self.entries(), key@, last_key));
            }
        }
    }

    /// Removes every entry whose key starts with `prefix`; gives back their
    /// keys.
    pub fn purge_prefix(&mut self, prefix: &str) -> (removed: Vec<String>)
        requires
            old(self).wf(),
        ensures
            final(self).wf(),
            final(self).spec_capacity() == old(self).spec_capacity(),
            final(self).entries() == old(self).entries().restrict(
                old(self).entries().dom().filter(|k: Seq<char>| !starts_with(k, prefix@)),
            ),
            forall|k: Seq<char>| removed@.map_values(|s: String| s@).contains(k) <==> old(
                self,
            ).entries().contains_key(k) && starts_with(k, prefix@),
            removed@.map_values(|s: String| s@).no_duplicates(),
    {
        let p = str_chars(prefix);
        let mut doomed: Vec<String> = Vec::new();
        let mut i: usize = 0;
        while i < self.entries.len()
            invariant
                i <= self.entries@.len(),
                self.wf(),
                p@ == prefix@,
                doomed@.len() <= i,
                forall|m: int| 0 <= m < doomed@.len() ==> exists|j: int|
                    0 <= j < i && (#[trigger] doomed@[m])@ == self.entries@[j].0@,
                forall|j: int|
                    0 <= j < i && starts_with(#[trigger] self.entries@[j].0@, prefix@) ==> exists|m: int|
                        0 <= m < doomed@.len() && doomed@[m]@ == self.entries@[j].0@,
                forall|m: int| 0 <= m < doomed@.len() ==> starts_with(#[trigger] doomed@[m]@, prefix@),
                forall|a: int, b: int| 0 <= a < b < doomed@.len() ==> (#[trigger] doomed@[a])@ != (
                #[trigger] doomed@[b])@,
            decreases self.entries@.len() - i,
        {
            let kc = str_chars(self.entries[i].0.as_str());
            if chars_start_with(kc.as_slice(), p.as_slice()) {
                let mut copy = String::new();
                string_push_str(&mut copy, self.entries[i].0.as_str());
                proof {
                    assert forall|m: int| 0 <= m < doomed@.len() implies (#[trigger] doomed@[m])@ != copy@ by {
                        let j = choose|j: int| 0 <= j < i && (#[trigger] doomed@[m])@ == self.entries@[j].0@;
                        assert(self.entries@[j].0@ != self.entries@[i as int].0@);
                    }
                }
                let ghost before = doomed@;
                doomed.push(copy);
                proof {
                    assert(doomed@[before.len() as int]@ == self.entries@[i as int].0@);
                    assert forall|j: int|
                        0 <= j < i + 1 && starts_with(#[trigger] self.entries@[j].0@, prefix@) implies exists|m: int|
                            0 <= m < doomed@.len() && doomed@[m]@ == self.entries@[j].0@ by {
                        if j < i {
                            let m = choose|m: int| 0 <= m < before.len() && before[m]@ == self.entries@[j].0@;
                            assert(doomed@[m] == before[m]);
                        } else {
                            assert(doomed@[before.len() as int]@ == self.entries@[j].0@);
                        }
                    }
                    assert forall|m: int| 0 <= m < doomed@.len() implies exists|j: int|
                        0 <= j < i + 1 && (#[trigger] doomed@[m])@ == self.entries@[j].0@ by {
                        if m < before.len() {
                            assert(doomed@[m] == before[m]);
                        }
                    }
                }
            }
            i = i + 1;
        }
        let ghost start = self.entries();
        let mut n: usize = 0;
        while n < doomed.len()
            invariant
                n <= doomed@.len(),
                self.wf(),
                self.spec_capacity() == old(self).spec_capacity(),
                start == old(self).entries(),
                self.entries() == start.remove_keys(Set::new(|k: Seq<char>| exists|m: int| 0 <= m < n && (#[trigger] doomed@[m])@ == k)),
            decreases doomed@.len() - n,
        {
            self.remove(doomed[n].as_str());
            assert(self.entries() =~= start.remove_keys(Set::new(|k: Seq<char>| exists|m: int| 0 <= m < n + 1 && (#[trigger] doomed@[m])@ == k)));
            n = n + 1;
        }
        proof {
            assert forall|k: Seq<char>| start.contains_key(k) && starts_with(k, prefix@) implies exists|m: int|
                0 <= m < doomed@.len() && (#[trigger] doomed@[m])@ == k by {
                lemma_assoc_map_dom(old(self).entries@, k);
                let j = choose|j: int| 0 <= j < old(self).entries@.len() && (#[trigger] old(self).entries@[j]).0@ == k;
                assert(starts_with(old(self).entries@[j].0@, prefix@));
            }
            assert(self.entries() =~= start.restrict(start.dom().filter(|k: Seq<char>| !starts_with(k, prefix@))));
            let names = doomed@.map_values(|s: String| s@);
            assert forall|k: Seq<char>| names.contains(k) <==> start.contains_key(k) && starts_with(k, prefix@) by {
                if names.contains(k) {
                    let m = choose|m: int| 0 <= m < names.len() && names[m] == k;
                    let j = choose|j: int| 0 <= j < old(self).entries@.len() && (#[trigger] doomed@[m])@ == old(self).entries@[j].0@;
                    lemma_assoc_map_dom(old(self).entries@, k);
                }
                if start.contains_key(k) && starts_with(k, prefix@) {
                    let m = choose|m: int| 0 <= m < doomed@.len() && (#[trigger] doomed@[m])@ == k;
                    assert(names[m] == k);
                }
            }
            assert forall|a: int, b: int| 0 <= a < b < names.len() implies names[a] != names[b] by {
                assert(names[a] == doomed@[a]@);
                assert(names[b] == doomed@[b]@);
            }
        }
        doomed
    }

    /// Removes every entry; gives back their keys.
    pub fn clear(&mut self) -> (removed: Vec<String>)
        requires
            old(self).wf(),
        ensures
            final(self).wf(),
            final(self).spec_capacity() == old(self).spec_capacity(),
            final(self).entries() == Map::<Seq<char>, L1Entry>::empty(),
            final(self).spec_size() == 0,
            removed@.map_values(|s: String| s@).to_set() == old(self).entries().dom(),
            removed@.map_values(|s: String| s@).no_duplicates(),
    {
        let mut keys: Vec<String> = Vec::new();
        let mut i: usize = 0;
        while i < self.entries.len()
            invariant
                i <= self.entries@.len(),
                keys@.len() == i,
                forall|j: int| 0 <= j < i ==> (#[trigger] keys@[j])@ == self.entries@[j].0@,
            decreases self.entries@.len() - i,
        {
            let mut copy = String::new();
            string_push_str(&mut copy, self.entries[i].0.as_str());
            keys.push(copy);
            i = i + 1;
        }
        proof {
            let names = keys@.map_values(|s: String| s@);
            assert forall|k: Seq<char>| names.to_set().contains(k) <==> old(self).entries().dom().contains(k) by {
                lemma_assoc_map_dom(self.entries@, k);
                if names.to_set().contains(k) {
                    let m = choose|m: int| 0 <= m < names.len() && names[m] == k;
                    assert(self.entries@[m].0@ == k);
                }
                if has_key(self.entries@, k) {
                    let j = choose|j: int| 0 <= j < self.entries@.len() && (#[trigger] self.entries@[j]).0@ == k;
                    assert(names[j] == k);
                }
            }
            assert(names.to_set() =~= old(self).entries().dom());
        }
        self.entries = Vec::new();
        self.current_size = 0;
        assert(self.entries() =~= Map::<Seq<char>, L1Entry>::empty());
        keys
    }
}

proof fn lemma_unique_len(v: Seq<(String, L1Entry)>)
    requires
        keys_unique(v),
    ensures
        assoc_map(v).dom().finite(),
        assoc_map(v).len() == v.len(),
    decreases v.len(),
{
    if v.len() > 0 {
        let d = v.drop_last();
        assert forall|a: int, b: int| 0 <= a < b < d.len() implies (#[trigger] d[a]).0@ != (#[trigger] d[b]).0@ by {
            assert(d[a] == v[a] && d[b] == v[b]);
        }
        lemma_unique_len(d);
        lemma_assoc_map_dom(d, v.last().0@);
        if has_key(d, v.last().0@) {
            let j = choose|j: int| 0 <= j < d.len() && (#[trigger] d[j]).0@ == v.last().0@;
            assert(v[j].0@ == v[v.len() - 1].0@);
        }
    } else {
        assert(assoc_map(v) =~= Map::<Seq<char>, L1Entry>::empty());
    }
}

/// A slice that a store left in the memory tier is served, unchanged, by
/// every lookup made before it expires.
pub proof fn law_l1_read_after_write(
    c: L1Cache,
    key: Seq<char>,
    data: Vec<u8>,
    expires_at: u64,
    stored_at: u64,
    t: u64,
)
    requires
        c.entries().contains_key(key),
        c.entries()[key] == (L1Entry { data, expires_at, last_accessed: stored_at, access_count: 0 }),
        t < expires_at,
    ensures
        l1_serves(c.entries(), key, t) == Some(data@),
{
}

/// The disk-tier record of a slice: the expiry in seconds since the epoch
/// as 8 little-endian bytes, then the data.
pub open spec fn l2_record(expires_at_secs: u64, data: Seq<u8>) -> Seq<u8> {
    spec_u64_to_le_bytes(expires_at_secs) + data
}

/// The disk-tier record of a slice.
pub fn encode_l2_record(expires_at_secs: u64, data: &[u8]) -> (r: Vec<u8>)
    ensures
        r@ == l2_record(expires_at_secs, data@),
{
    let mut r = u64_to_le_bytes(expires_at_secs);
    let mut i: usize = 0;
    let ghost head = r@;
    while i < data.len()
        invariant
            i <= data@.len(),
            r@ == head + data@.take(i as int),
        decreases data@.len() - i,
    {
        r.push(data[i]);
        assert(data@.take(i as int).push(data@[i as int]) =~= data@.take(i + 1));
        i = i + 1;
    }
    assert(data@.take(data@.len() as int) =~= data@);
    r
}

/// A disk-tier record reads back what was written: its first 8 bytes give
/// the expiry, and the data follows them unchanged.
pub proof fn law_l2_record_roundtrip(expires_at_secs: u64, data: Seq<u8>)
    ensures
        l2_record(expires_at_secs, data).len() >= 8,
        spec_u64_from_le_bytes(l2_record(expires_at_secs, data).subrange(0, 8)) == expires_at_secs,
        l2_record(expires_at_secs, data).skip(8) == data,
{
    vstd::bytes::lemma_auto_spec_u64_to_from_le_bytes();
    let r = l2_record(expires_at_secs, data);
    let h = spec_u64_to_le_bytes(expires_at_secs);
    assert(h.len() == 8);
    assert(r.subrange(0, 8) =~= h);
    assert(r.skip(8) =~= data);
}

/// What a disk-tier record holds at a given time.
#[derive(Debug)]
pub enum L2Record {
    /// Fewer than 8 bytes: no expiry to read.
    TooShort,
    /// The expiry has passed.
    Expired,
    /// The slice's data.
    Live(Vec<u8>),
}

/// Reads a disk-tier record at time `now_nanos` (nanoseconds since the
/// epoch): a record expires once its expiry is not after now.
pub fn decode_l2_record(bytes: &[u8], now_nanos: u128) -> (r: L2Record)
    requires
        bytes@.len() >= 8 ==> spec_u64_from_le_bytes(bytes@.subrange(0, 8)) <= i64::MAX,
    ensures
        bytes@.len() < 8 <==> r is TooShort,
        bytes@.len() >= 8 ==> (r is Expired <==> spec_u64_from_le_bytes(bytes@.subrange(0, 8))
            * 1_000_000_000 <= now_nanos),
        r matches L2Record::Live(d) ==> d@ == bytes@.skip(8),
{
    if bytes.len() < 8 {
        return L2Record::TooShort;
    }
    let secs = u64_from_le_bytes(vstd::slice::slice_subrange(bytes, 0, 8));
    if (secs as u128) * 1_000_000_000 <= now_nanos {
        return L2Record::Expired;
    }
    let mut d: Vec<u8> = Vec::new();
    let mut i: usize = 8;
    while i < bytes.len()
        invariant
            8 <= i <= bytes@.len(),
            d@ == bytes@.subrange(8, i as int),
        decreases bytes@.len() - i,
    {
        d.push(bytes[i]);
        assert(bytes@.subrange(8, i as int).push(bytes@[i as int]) =~= bytes@.subrange(8, i + 1));
        i = i + 1;
    }
    L2Record::Live(d)
}

/// `key` with `/`, `:`, `?` and `&` each turned into `_`: the name of its
/// disk-tier file.
pub open spec fn l2_file_name(key: Seq<char>) -> Seq<char> {
    Seq::new(key.len(), |i: int| if key[i] == '/' || key[i] == ':' || key[i] == '?' || key[i] == '&' {
        '_'
    } else {
        key[i]
    })
}

/// The name of the disk-tier file of `key`.
pub fn sanitize_key(key: &str) -> (name: String)
    ensures
        name@ == l2_file_name(key@),
{
    let c = str_chars(key);
    let mut out: Vec<char> = Vec::new();
    let mut i: usize = 0;
    while i < c.len()
        invariant
            i <= c@.len(),
            c@ == key@,
            out@ == l2_file_name(key@).take(i as int),
        decreases c@.len() - i,
    {
        let ch = c[i];
        let mapped = if ch == '/' || ch == ':' || ch == '?' || ch == '&' {
            '_'
        } else {
            ch
        };
        out.push(mapped);
        assert(out@ =~= l2_file_name(key@).take(i + 1));
        i = i + 1;
    }
    assert(l2_file_name(key@).take(c@.len() as int) =~= l2_file_name(key@));
    crate::text::chars_to_string(out.as_slice())
}

} // verus!
