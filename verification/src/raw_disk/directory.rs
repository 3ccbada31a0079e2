//! The cache directory: which key is stored where, in least-recently-used
//! order, with hit and miss counts.

use vstd::prelude::*;
use std::collections::VecDeque;
use super::types::DiskLocation;
use super::RawDiskError;
use super::checksum::{crc32, crc32_of};
use crate::text::{dec_digits, push_decimal, string_push_str};
use crate::assoc::{assoc_find, assoc_insert, assoc_map, assoc_remove, has_key, keys_of, keys_unique, lemma_assoc_map_dom, lemma_assoc_map_index, str_eq};

verus! {

/// The cache directory.
pub struct CacheDirectory {
    index: Vec<(String, DiskLocation)>,
    lru: VecDeque<String>,
    hits: u64,
    misses: u64,
}

/// The characters of each string, in order.
pub open spec fn str_seq(s: Seq<String>) -> Seq<Seq<char>> {
    Seq::new(s.len(), |i: int| s[i]@)
}

/// `s` without any occurrence of `k`.
pub open spec fn without(s: Seq<Seq<char>>, k: Seq<char>) -> Seq<Seq<char>>
    decreases s.len(),
{
    if s.len() == 0 {
        s
    } else if s.last() == k {
        without(s.drop_last(), k)
    } else {
        without(s.drop_last(), k).push(s.last())
    }
}

pub proof fn lemma_push_contains<A>(a: Seq<A>, y: A, x: A)
    ensures
        a.push(y).contains(x) <==> a.contains(x) || x == y,
{
    if a.contains(x) {
        let i = choose|i: int| 0 <= i < a.len() && a[i] == x;
        assert(a.push(y)[i] == x);
    }
    if x == y {
        assert(a.push(y)[a.len() as int] == x);
    }
    if a.push(y).contains(x) && x != y {
        let i = choose|i: int| 0 <= i < a.push(y).len() && a.push(y)[i] == x;
        assert(a[i] == x);
    }
}

pub proof fn lemma_str_seq_push(s: Seq<String>, x: String)
    ensures
        str_seq(s.push(x)) == str_seq(s).push(x@),
{
    assert(str_seq(s.push(x)) =~= str_seq(s).push(x@));
}

pub proof fn lemma_str_seq_take(s: Seq<String>, i: int)
    requires
        0 <= i < s.len(),
    ensures
        str_seq(s.take(i + 1)) == str_seq(s.take(i)).push(s[i]@),
        str_seq(s).take(i + 1) == str_seq(s).take(i).push(s[i]@),
        str_seq(s.take(i)) == str_seq(s).take(i),
{
    assert(str_seq(s.take(i + 1)) =~= str_seq(s.take(i)).push(s[i]@));
    assert(str_seq(s).take(i + 1) =~= str_seq(s).take(i).push(s[i]@));
    assert(str_seq(s.take(i)) =~= str_seq(s).take(i));
}

pub proof fn lemma_without_contains(s: Seq<Seq<char>>, k: Seq<char>, x: Seq<char>)
    ensures
        without(s, k).contains(x) <==> s.contains(x) && x != k,
    decreases s.len(),
{
    if s.len() > 0 {
        let d = s.drop_last();
        lemma_without_contains(d, k, x);
        assert(s =~= d.push(s.last()));
        lemma_push_contains(d, s.last(), x);
        if s.last() != k {
            lemma_push_contains(without(d, k), s.last(), x);
        }
    }
}

/// Copies of the strings of `q` other than `key`, in order.
pub(crate) fn deque_without(q: &VecDeque<String>, key: &str) -> (r: VecDeque<String>)
    ensures
        str_seq(r@) == without(str_seq(q@), key@),
{
    let mut r: VecDeque<String> = VecDeque::new();
    let mut i: usize = 0;
    while i < q.len()
        invariant
            i <= q@.len(),
            str_seq(r@) == without(str_seq(q@.take(i as int)), key@),
        decreases q@.len() - i,
    {
        let ghost before = r@;
        assert(str_seq(q@.take(i + 1)).drop_last() =~= str_seq(q@.take(i as int)));
        assert(str_seq(q@.take(i + 1)).last() == q@[i as int]@);
        if !str_eq(q[i].as_str(), key) {
            r.push_back(q[i].clone());
            assert(str_seq(r@) =~= str_seq(before).push(q@[i as int]@));
        }
        i = i + 1;
    }
    assert(q@.take(q@.len() as int) =~= q@);
    r
}

impl CacheDirectory {
    /// The entries: key to location.
    pub closed spec fn entries(&self) -> Map<Seq<char>, DiskLocation> {
        assoc_map(self.index@)
    }

    /// Keys from least to most recently used (a key may occur more than once
    /// after it was inserted again).
    pub closed spec fn lru_order(&self) -> Seq<Seq<char>> {
        str_seq(self.lru@)
    }

    /// The entries in the order that `iter` gives them.
    pub closed spec fn entry_list(&self) -> Seq<(String, DiskLocation)> {
        self.index@
    }

    /// Number of touches of a present key.
    pub closed spec fn spec_hits(&self) -> u64 {
        self.hits
    }

    /// Number of touches of an absent key.
    pub closed spec fn spec_misses(&self) -> u64 {
        self.misses
    }

    /// No key occurs twice in the index.
    pub closed spec fn wf(&self) -> bool {
        keys_unique(self.index@)
    }

    /// The keys in the LRU order are exactly the keys of the entries.
    pub open spec fn lru_consistent(&self) -> bool {
        forall|k: Seq<char>| #[trigger] self.entries().dom().contains(k) <==> self.lru_order().contains(k)
    }

    /// An empty directory.
    pub fn new() -> (d: CacheDirectory)
        ensures
            d.wf(),
            d.entries() == Map::<Seq<char>, DiskLocation>::empty(),
            d.entry_list().len() == 0,
            d.lru_order().len() == 0,
            d.spec_hits() == 0,
            d.spec_misses() == 0,
            d.lru_consistent(),
    {
        let d = CacheDirectory { index: Vec::new(), lru: VecDeque::new(), hits: 0, misses: 0 };
        assert(d.lru_order() =~= Seq::<Seq<char>>::empty());
        assert(d.entries() =~= Map::<Seq<char>, DiskLocation>::empty());
        d
    }

    /// Records `location` for `key` and puts the key at the most recently
    /// used end.
    pub fn insert(&mut self, key: String, location: DiskLocation)
        requires
            old(self).wf(),
        ensures
            final(self).wf(),
            final(self).entries() == old(self).entries().insert(key@, location),
            final(self).lru_order() == old(self).lru_order().push(key@),
            final(self).spec_hits() == old(self).spec_hits(),
            final(self).spec_misses() == old(self).spec_misses(),
            final(self).entry_list().len() == old(self).entry_list().len() + if old(self).entries().contains_key(key@) {
                0int
            } else {
                1int
            },
            old(self).lru_consistent() ==> final(self).lru_consistent(),
    {
        let k2 = key.clone();
        proof {
            lemma_assoc_map_dom(self.index@, key@);
        }
        let ghost before_index = self.index@;
        assoc_insert(&mut self.index, key, location);
        assert(keys_of(self.index@).len() == self.index@.len());
        assert(keys_of(before_index).len() == before_index.len());
        let ghost before = self.lru@;
        self.lru.push_back(k2);
        assert(str_seq(self.lru@) =~= str_seq(before).push(k2@));
        proof {
            if old(self).lru_consistent() {
                lemma_lru_insert(*old(self), *self, key@, location);
            }
        }
    }

    /// The location of `key`.
    pub fn get(&self, key: &str) -> (r: Option<&DiskLocation>)
        requires
            self.wf(),
        ensures
            r is Some <==> self.entries().dom().contains(key@),
            r is Some ==> *r->Some_0 == self.entries()[key@],
    {
        proof {
            lemma_assoc_map_dom(self.index@, key@);
        }
        match assoc_find(&self.index, key) {
            Some(i) => {
                proof {
                    lemma_assoc_map_index(self.index@, i as int);
                }
                Some(&self.index[i].1)
            },
            None => None,
        }
    }

    /// Removes `key`, giving back its location; the key leaves the LRU order.
    pub fn remove(&mut self, key: &str) -> (r: Option<DiskLocation>)
        requires
            old(self).wf(),
        ensures
            final(self).wf(),
            r is Some <==> old(self).entries().dom().contains(key@),
            r is Some ==> r->Some_0 == old(self).entries()[key@],
            final(self).entries() == old(self).entries().remove(key@),
            r is Some ==> final(self).lru_order() == without(old(self).lru_order(), key@),
            r is None ==> final(self).lru_order() == old(self).lru_order(),
            final(self).spec_hits() == old(self).spec_hits(),
            final(self).spec_misses() == old(self).spec_misses(),
            final(self).entry_list().len() == old(self).entry_list().len() - if r is Some {
                1int
            } else {
                0int
            },
            final(self).entries().dom().finite(),
            old(self).lru_consistent() ==> final(self).lru_consistent(),
    {
        proof {
            lemma_assoc_len(self.index@);
        }
        let r = match assoc_remove(&mut self.index, key) {
            Some(loc) => {
                self.lru = deque_without(&self.lru, key);
                Some(loc)
            },
            None => None,
        };
        proof {
            lemma_assoc_len(self.index@);
            if old(self).lru_consistent() {
                lemma_lru_remove(*old(self), *self, key@);
            }
        }
        r
    }

    /// Marks `key` as just used: a present key moves to the most recently
    /// used end and counts as a hit; an absent key counts as a miss.
    pub fn touch(&mut self, key: &str)
        requires
            old(self).wf(),
            old(self).spec_hits() < u64::MAX,
            old(self).spec_misses() < u64::MAX,
        ensures
            final(self).wf(),
            final(self).entries() == old(self).entries(),
            old(self).entries().dom().contains(key@) ==> {
                &&& final(self).spec_hits() == old(self).spec_hits() + 1
                &&& final(self).spec_misses() == old(self).spec_misses()
                &&& final(self).lru_order() == without(old(self).lru_order(), key@).push(key@)
            },
            !old(self).entries().dom().contains(key@) ==> {
                &&& final(self).spec_hits() == old(self).spec_hits()
                &&& final(self).spec_misses() == old(self).spec_misses() + 1
                &&& final(self).lru_order() == old(self).lru_order()
            },
            old(self).lru_consistent() ==> final(self).lru_consistent(),
    {
        proof {
            lemma_assoc_map_dom(self.index@, key@);
        }
        match assoc_find(&self.index, key) {
            Some(_) => {
                self.hits = self.hits + 1;
                let mut q = deque_without(&self.lru, key);
                let ghost before = q@;
                q.push_back(key.to_owned());
                assert(str_seq(q@) =~= str_seq(before).push(key@));
                self.lru = q;
            },
            None => {
                self.misses = self.misses + 1;
            },
        }
        proof {
            if old(self).lru_consistent() {
                lemma_lru_touch(*old(self), *self, key@);
            }
        }
    }

    /// The first `count` keys in LRU order (least recently used first).
    pub fn select_lru_victims_count(&self, count: usize) -> (r: Vec<String>)
        ensures
            str_seq(r@) == self.lru_order().take(
                if count <= self.lru_order().len() {
                    count as int
                } else {
                    self.lru_order().len() as int
                },
            ),
    {
        let n = if count <= self.lru.len() {
            count
        } else {
            self.lru.len()
        };
        let mut r: Vec<String> = Vec::new();
        let mut i: usize = 0;
        while i < n
            invariant
                i <= n <= self.lru@.len(),
                str_seq(r@) == str_seq(self.lru@).take(i as int),
            decreases n - i,
        {
            let ghost before = r@;
            r.push(self.lru[i].clone());
            proof {
                lemma_str_seq_push(before, self.lru@[i as int]);
                lemma_str_seq_take(self.lru@, i as int);
            }
            i = i + 1;
        }
        r
    }

    /// Number of entries.
    pub fn len(&self) -> (n: usize)
        requires
            self.wf(),
        ensures
            n == self.entries().len(),
            n == self.entry_list().len(),
    {
        proof {
            lemma_assoc_len(self.index@);
        }
        self.index.len()
    }

    /// Number of hits.
    pub fn hits(&self) -> (n: u64)
        ensures
            n == self.spec_hits(),
    {
        self.hits
    }

    /// Number of misses.
    pub fn misses(&self) -> (n: u64)
        ensures
            n == self.spec_misses(),
    {
        self.misses
    }

    /// Whether there are no entries.
    pub fn is_empty(&self) -> (b: bool)
        requires
            self.wf(),
        ensures
            b == (self.entries().len() == 0),
            b == (self.entry_list().len() == 0),
    {
        proof {
            lemma_assoc_len(self.index@);
        }
        self.index.len() == 0
    }

    /// The entries, each key once.
    pub fn iter(&self) -> (r: &[(String, DiskLocation)])
        ensures
            r@ == self.entry_list(),
            self.wf() ==> keys_unique(r@),
    {
        self.index.as_slice()
    }

    /// A rough size of the encoded metadata: 100 bytes per entry plus 1 KiB.
    pub fn metadata_size_estimate(&self) -> (n: usize)
        requires
            self.entry_list().len() * 100 + 1024 <= usize::MAX,
        ensures
            n == self.entry_list().len() * 100 + 1024,
    {
        self.index.len() * 100 + 1024
    }

    /// The keys in LRU order.
    pub fn lru_keys(&self) -> (r: Vec<String>)
        ensures
            str_seq(r@) == self.lru_order(),
    {
        let mut r: Vec<String> = Vec::new();
        let mut i: usize = 0;
        while i < self.lru.len()
            invariant
                i <= self.lru@.len(),
                str_seq(r@) == str_seq(self.lru@).take(i as int),
            decreases self.lru@.len() - i,
        {
            let ghost before = r@;
            r.push(self.lru[i].clone());
            proof {
                lemma_str_seq_push(before, self.lru@[i as int]);
                lemma_str_seq_take(self.lru@, i as int);
            }
            i = i + 1;
        }
        assert(str_seq(self.lru@).take(self.lru@.len() as int) =~= str_seq(self.lru@));
        r
    }

    /// A directory rebuilt from saved parts: the entries, the LRU order and
    /// the counts. `None` when a key occurs twice among the entries.
    pub fn from_parts(entries: Vec<(String, DiskLocation)>, lru: Vec<String>, hits: u64, misses: u64) -> (r:
        Option<CacheDirectory>)
        ensures
            r is Some <==> keys_unique(entries@),
            r is Some ==> {
                let d = r->Some_0;
                &&& d.wf()
                &&& d.entry_list() == entries@
                &&& d.lru_order() == str_seq(lru@)
                &&& d.spec_hits() == hits
                &&& d.spec_misses() == misses
            },
    {
        let mut i: usize = 0;
        while i < entries.len()
            invariant
                i <= entries@.len(),
                keys_unique(entries@.take(i as int)),
            decreases entries@.len() - i,
        {
            let mut j: usize = 0;
            while j < i
                invariant
                    j <= i < entries@.len(),
                    forall|a: int| 0 <= a < j ==> (#[trigger] entries@[a]).0@ != entries@[i as int].0@,
                decreases i - j,
            {
                if str_eq(entries[j].0.as_str(), entries[i].0.as_str()) {
                    proof {
                        assert(!keys_unique(entries@)) by {
                            assert(entries@[j as int].0@ == entries@[i as int].0@);
                        }
                    }
                    return None;
                }
                j = j + 1;
            }
            proof {
                assert forall|a: int, b: int| 0 <= a < b < i + 1 implies (#[trigger] entries@.take(
                    i + 1,
                )[a]).0@ != (#[trigger] entries@.take(i + 1)[b]).0@ by {
                    if b < i {
                        assert(entries@.take(i as int)[a] == entries@[a]);
                        assert(entries@.take(i as int)[b] == entries@[b]);
                    }
                }
            }
            i = i + 1;
        }
        assert(entries@.take(entries@.len() as int) =~= entries@);
        let mut q: VecDeque<String> = VecDeque::new();
        let mut k: usize = 0;
        while k < lru.len()
            invariant
                k <= lru@.len(),
                str_seq(q@) == str_seq(lru@).take(k as int),
            decreases lru@.len() - k,
        {
            let ghost before = q@;
            q.push_back(lru[k].clone());
            proof {
                lemma_str_seq_push(before, lru@[k as int]);
                lemma_str_seq_take(lru@, k as int);
            }
            k = k + 1;
        }
        assert(str_seq(lru@).take(lru@.len() as int) =~= str_seq(lru@));
        Some(CacheDirectory { index: entries, lru: q, hits, misses })
    }
}

/// Version of the metadata format.
pub const METADATA_VERSION: u32 = 1;

/// Key and location pairs as plain values.
pub open spec fn entry_pairs(s: Seq<(String, DiskLocation)>) -> Seq<(Seq<char>, DiskLocation)> {
    Seq::new(s.len(), |i: int| (s[i].0@, s[i].1))
}

/// The directory as it is written to the metadata area.
#[derive(Debug, Clone)]
pub struct CacheMetadata {
    /// Version of the metadata format.
    pub version: u32,
    /// The entries.
    pub entries: Vec<(String, DiskLocation)>,
    /// Keys from least to most recently used.
    pub lru_order: Vec<String>,
    /// Lookups that hit.
    pub hits: u64,
    /// Lookups that missed.
    pub misses: u64,
    /// CRC32 of the metadata encoded with this field at zero.
    pub checksum: u32,
}

impl CacheMetadata {
    /// The metadata of `directory`, in the current format and with a zero
    /// checksum.
    pub fn of_directory(directory: &CacheDirectory) -> (m: CacheMetadata)
        ensures
            m.version == METADATA_VERSION,
            entry_pairs(m.entries@) == entry_pairs(directory.entry_list()),
            str_seq(m.lru_order@) == directory.lru_order(),
            m.hits == directory.spec_hits(),
            m.misses == directory.spec_misses(),
            m.checksum == 0,
    {
        let list = directory.iter();
        let mut entries: Vec<(String, DiskLocation)> = Vec::new();
        let mut i: usize = 0;
        while i < list.len()
            invariant
                i <= list@.len(),
                list@ == directory.entry_list(),
                entry_pairs(entries@) == entry_pairs(list@).take(i as int),
            decreases list@.len() - i,
        {
            let ghost before = entries@;
            let k = list[i].0.clone();
            entries.push((k, list[i].1));
            assert(entry_pairs(entries@) =~= entry_pairs(before).push((list@[i as int].0@, list@[i as int].1)));
            assert(entry_pairs(list@).take(i + 1) =~= entry_pairs(list@).take(i as int).push(entry_pairs(list@)[i as int]));
            assert(entry_pairs(entries@) =~= entry_pairs(list@).take(i + 1));
            i = i + 1;
        }
        assert(entry_pairs(list@).take(list@.len() as int) =~= entry_pairs(list@));
        CacheMetadata {
            version: METADATA_VERSION,
            entries,
            lru_order: directory.lru_keys(),
            hits: directory.hits(),
            misses: directory.misses(),
            checksum: 0,
        }
    }

    /// The directory that the metadata describes; `None` when a key occurs
    /// twice.
    pub fn into_directory(self) -> (r: Option<CacheDirectory>)
        ensures
            r is Some <==> keys_unique(self.entries@),
            r is Some ==> {
                let d = r->Some_0;
                &&& d.wf()
                &&& d.entry_list() == self.entries@
                &&& d.lru_order() == str_seq(self.lru_order@)
                &&& d.spec_hits() == self.hits
                &&& d.spec_misses() == self.misses
            },
    {
        CacheDirectory::from_parts(self.entries, self.lru_order, self.hits, self.misses)
    }
}


/// Checks metadata read back from the device: the version must be the one
/// written, and the CRC32 of the metadata encoded with a zero checksum
/// (`encoded_for_check`) must equal the stored checksum.
pub fn check_metadata(version: u32, checksum: u32, encoded_for_check: &[u8]) -> (r: Result<(), RawDiskError>)
    ensures
        r is Ok <==> version == METADATA_VERSION && crc32_of(encoded_for_check@) == checksum,
        version != METADATA_VERSION ==> (r matches Err(RawDiskError::InvalidMetadata(m)) && m@
            == "Unsupported metadata version: "@ + dec_digits(version as nat)),
        version == METADATA_VERSION && crc32_of(encoded_for_check@) != checksum ==> (r matches Err(e)
            && e is ChecksumMismatch),
{
    if version != METADATA_VERSION {
        let mut msg = String::new();
        string_push_str(&mut msg, "Unsupported metadata version: ");
        push_decimal(&mut msg, version as u64);
        assert(msg@ =~= "Unsupported metadata version: "@ + dec_digits(version as nat));
        return Err(RawDiskError::InvalidMetadata(msg));
    }
    if crc32(encoded_for_check) != checksum {
        return Err(RawDiskError::ChecksumMismatch);
    }
    Ok(())
}

/// The entry list and the entries agree: each listed pair is an entry, and
/// each entry is listed.
pub proof fn lemma_entry_list(d: CacheDirectory)
    requires
        d.wf(),
    ensures
        forall|j: int| 0 <= j < d.entry_list().len() ==> d.entries().contains_key(#[trigger] d.entry_list()[j].0@)
            && d.entries()[d.entry_list()[j].0@] == d.entry_list()[j].1,
        forall|k: Seq<char>| #[trigger] d.entries().contains_key(k) ==> exists|j: int|
            0 <= j < d.entry_list().len() && (#[trigger] d.entry_list()[j]).0@ == k,
        keys_unique(d.entry_list()),
{
    assert forall|j: int| 0 <= j < d.entry_list().len() implies d.entries().contains_key(#[trigger] d.entry_list()[j].0@)
        && d.entries()[d.entry_list()[j].0@] == d.entry_list()[j].1 by {
        lemma_assoc_map_index(d.index@, j);
    }
    assert forall|k: Seq<char>| #[trigger] d.entries().contains_key(k) implies exists|j: int|
        0 <= j < d.entry_list().len() && (#[trigger] d.entry_list()[j]).0@ == k by {
        lemma_assoc_map_dom(d.index@, k);
        let j = choose|j: int| 0 <= j < d.index@.len() && (#[trigger] d.index@[j]).0@ == k;
        assert(d.entry_list()[j].0@ == k);
    }
}

pub proof fn lemma_assoc_len<V>(v: Seq<(String, V)>)
    requires
        keys_unique(v),
    ensures
        assoc_map(v).len() == v.len(),
        assoc_map(v).dom().finite(),
    decreases v.len(),
{
    if v.len() > 0 {
        let d = v.drop_last();
        assert(keys_unique(d)) by {
            assert forall|i: int, j: int| 0 <= i < j < d.len() implies (#[trigger] d[i]).0@ != (
            #[trigger] d[j]).0@ by {
                assert(d[i] == v[i]);
                assert(d[j] == v[j]);
            }
        }
        lemma_assoc_len(d);
        lemma_assoc_map_dom(d, v.last().0@);
        assert(!has_key(d, v.last().0@)) by {
            if has_key(d, v.last().0@) {
                let i = choose|i: int| 0 <= i < d.len() && (#[trigger] d[i]).0@ == v.last().0@;
                assert(v[i].0@ == v[v.len() - 1].0@);
            }
        }
    } else {
        assert(assoc_map(v) =~= Map::empty());
    }
}

/// Iterating a directory gives each entry exactly once: every listed pair
/// is an entry, every entry is listed, no key is listed twice, and as many
/// pairs are listed as there are entries.
pub proof fn law_iter_lists_each_entry_once(d: CacheDirectory)
    requires
        d.wf(),
    ensures
        d.entry_list().len() == d.entries().len(),
        forall|j: int| 0 <= j < d.entry_list().len() ==> d.entries().contains_key(#[trigger] d.entry_list()[j].0@)
            && d.entries()[d.entry_list()[j].0@] == d.entry_list()[j].1,
        forall|k: Seq<char>| #[trigger] d.entries().contains_key(k) ==> exists|j: int|
            0 <= j < d.entry_list().len() && (#[trigger] d.entry_list()[j]).0@ == k,
        forall|i: int, j: int| 0 <= i < j < d.entry_list().len() ==> (#[trigger] d.entry_list()[i]).0@ != (
        #[trigger] d.entry_list()[j]).0@,
{
    lemma_entry_list(d);
    lemma_assoc_len(d.index@);
}

proof fn lemma_lru_insert(before: CacheDirectory, after: CacheDirectory, key: Seq<char>, loc: DiskLocation)
    requires
        before.lru_consistent(),
        after.entries() == before.entries().insert(key, loc),
        after.lru_order() == before.lru_order().push(key),
    ensures
        after.lru_consistent(),
{
    assert forall|k: Seq<char>| #[trigger] after.entries().dom().contains(k) <==> after.lru_order().contains(k) by {
        if k == key {
            assert(after.lru_order()[before.lru_order().len() as int] == key);
        } else {
            assert(before.entries().dom().contains(k) == before.lru_order().contains(k));
            if before.lru_order().contains(k) {
                let i = choose|i: int| 0 <= i < before.lru_order().len() && before.lru_order()[i] == k;
                assert(after.lru_order()[i] == k);
            }
            if after.lru_order().contains(k) {
                let i = choose|i: int| 0 <= i < after.lru_order().len() && after.lru_order()[i] == k;
                assert(before.lru_order()[i] == k);
            }
        }
    }
}

proof fn lemma_lru_remove(before: CacheDirectory, after: CacheDirectory, key: Seq<char>)
    requires
        before.lru_consistent(),
        after.entries() == before.entries().remove(key),
        after.lru_order() == (if before.entries().dom().contains(key) {
            without(before.lru_order(), key)
        } else {
            before.lru_order()
        }),
    ensures
        after.lru_consistent(),
{
    assert forall|k: Seq<char>| #[trigger] after.entries().dom().contains(k) <==> after.lru_order().contains(k) by {
        lemma_without_contains(before.lru_order(), key, k);
        assert(before.entries().dom().contains(k) == before.lru_order().contains(k));
    }
}

proof fn lemma_lru_touch(before: CacheDirectory, after: CacheDirectory, key: Seq<char>)
    requires
        before.lru_consistent(),
        after.entries() == before.entries(),
        after.lru_order() == (if before.entries().dom().contains(key) {
            without(before.lru_order(), key).push(key)
        } else {
            before.lru_order()
        }),
    ensures
        after.lru_consistent(),
{
    assert forall|k: Seq<char>| #[trigger] after.entries().dom().contains(k) <==> after.lru_order().contains(k) by {
        lemma_without_contains(before.lru_order(), key, k);
        assert(before.entries().dom().contains(k) == before.lru_order().contains(k));
        if before.entries().dom().contains(key) {
            let w = without(before.lru_order(), key);
            if k == key {
                assert(w.push(key)[w.len() as int] == key);
            } else {
                if w.contains(k) {
                    let i = choose|i: int| 0 <= i < w.len() && w[i] == k;
                    assert(w.push(key)[i] == k);
                }
                if w.push(key).contains(k) {
                    let i = choose|i: int| 0 <= i < w.push(key).len() && w.push(key)[i] == k;
                    assert(w[i] == k);
                }
            }
        }
    }
}

/// Inserting, removing and touching keep the LRU order in step with the
/// entries: its keys are exactly the keys that have a location.
pub proof fn law_lru_tracks_entries(
    before: CacheDirectory,
    after_insert: CacheDirectory,
    after_remove: CacheDirectory,
    after_touch: CacheDirectory,
    key: Seq<char>,
    loc: DiskLocation,
)
    requires
        before.lru_consistent(),
        after_insert.entries() == before.entries().insert(key, loc),
        after_insert.lru_order() == before.lru_order().push(key),
        after_remove.entries() == before.entries().remove(key),
        after_remove.lru_order() == (if before.entries().dom().contains(key) {
            without(before.lru_order(), key)
        } else {
            before.lru_order()
        }),
        after_touch.entries() == before.entries(),
        after_touch.lru_order() == (if before.entries().dom().contains(key) {
            without(before.lru_order(), key).push(key)
        } else {
            before.lru_order()
        }),
    ensures
        after_insert.lru_consistent(),
        after_remove.lru_consistent(),
        after_touch.lru_consistent(),
{
    lemma_lru_insert(before, after_insert, key, loc);
    lemma_lru_remove(before, after_remove, key);
    lemma_lru_touch(before, after_touch, key);
}

/// A directory can be saved as its parts and rebuilt from them: its entry
/// list holds each key once (all that `from_parts` asks), and a directory
/// with the same entry list has the same entries.
pub proof fn law_directory_parts_rebuild(d: CacheDirectory, e: CacheDirectory)
    requires
        d.wf(),
        e.entry_list() == d.entry_list(),
    ensures
        keys_unique(d.entry_list()),
        e.entries() == d.entries(),
{
}

} // verus!
