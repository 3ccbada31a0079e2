//! Association lists keyed by strings: a vector of `(key, value)` pairs with
//! distinct keys, read as a map from the keys' characters to the values.

use vstd::prelude::*;

verus! {

/// Whether two string slices hold the same characters (`str == str`).
#[verifier::external_body]
pub(crate) fn str_eq(a: &str, b: &str) -> (r: bool)
    ensures
        r == (a@ == b@),
{
    a == b
}

/// Whether no key occurs twice.
pub open spec fn keys_unique<V>(v: Seq<(String, V)>) -> bool {
    forall|i: int, j: int| 0 <= i < j < v.len() ==> (#[trigger] v[i]).0@ != (#[trigger] v[j]).0@
}

/// The map that the pairs describe; a later pair wins over an earlier one.
pub open spec fn assoc_map<V>(v: Seq<(String, V)>) -> Map<Seq<char>, V>
    decreases v.len(),
{
    if v.len() == 0 {
        Map::empty()
    } else {
        assoc_map(v.drop_last()).insert(v.last().0@, v.last().1)
    }
}

/// Whether some pair has key `k`.
pub open spec fn has_key<V>(v: Seq<(String, V)>, k: Seq<char>) -> bool {
    exists|i: int| 0 <= i < v.len() && (#[trigger] v[i]).0@ == k
}

/// The keys of the pairs, in order.
pub open spec fn keys_of<V>(v: Seq<(String, V)>) -> Seq<Seq<char>> {
    Seq::new(v.len(), |i: int| v[i].0@)
}

pub proof fn lemma_assoc_map_dom<V>(v: Seq<(String, V)>, k: Seq<char>)
    ensures
        assoc_map(v).dom().contains(k) <==> has_key(v, k),
    decreases v.len(),
{
    if v.len() > 0 {
        lemma_assoc_map_dom(v.drop_last(), k);
        if has_key(v.drop_last(), k) {
            let i = choose|i: int| 0 <= i < v.drop_last().len() && (#[trigger] v.drop_last()[i]).0@ == k;
            assert(v[i].0@ == k);
        }
        if has_key(v, k) && k != v.last().0@ {
            let i = choose|i: int| 0 <= i < v.len() && (#[trigger] v[i]).0@ == k;
            assert(v.drop_last()[i].0@ == k);
        }
        if k == v.last().0@ {
            assert(v[v.len() - 1].0@ == k);
        }
    }
}

pub proof fn lemma_assoc_map_index<V>(v: Seq<(String, V)>, i: int)
    requires
        keys_unique(v),
        0 <= i < v.len(),
    ensures
        assoc_map(v).dom().contains(v[i].0@),
        assoc_map(v)[v[i].0@] == v[i].1,
    decreases v.len(),
{
    if i < v.len() - 1 {
        assert(v.drop_last()[i] == v[i]);
        lemma_assoc_map_index(v.drop_last(), i);
        assert(v[i].0@ != v[v.len() - 1].0@);
    }
}

pub proof fn lemma_assoc_map_remove<V>(v: Seq<(String, V)>, i: int)
    requires
        keys_unique(v),
        0 <= i < v.len(),
    ensures
        assoc_map(v.remove(i)) =~= assoc_map(v).remove(v[i].0@),
        keys_unique(v.remove(i)),
    decreases v.len(),
{
    let k = v[i].0@;
    if i == v.len() - 1 {
        assert(v.remove(i) =~= v.drop_last());
        lemma_assoc_map_dom(v.drop_last(), k);
        assert(!has_key(v.drop_last(), k)) by {
            if has_key(v.drop_last(), k) {
                let j = choose|j: int| 0 <= j < v.drop_last().len() && (#[trigger] v.drop_last()[j]).0@ == k;
                assert(v[j].0@ == k);
            }
        }
        assert(assoc_map(v) == assoc_map(v.drop_last()).insert(k, v[i].1));
        assert(assoc_map(v.drop_last()) =~= assoc_map(v).remove(k));
    } else {
        let d = v.drop_last();
        assert(d[i] == v[i]);
        lemma_assoc_map_remove(d, i);
        let w = v.remove(i);
        assert(w =~= d.remove(i).push(v.last()));
        assert(w.drop_last() =~= d.remove(i));
        assert(w.last() == v.last());
        assert(v[v.len() - 1].0@ != k);
        assert(assoc_map(w) == assoc_map(d.remove(i)).insert(v.last().0@, v.last().1));
        assert(assoc_map(v) == assoc_map(d).insert(v.last().0@, v.last().1));
        assert(assoc_map(w) =~= assoc_map(v).remove(k));
        assert forall|a: int, b: int| 0 <= a < b < w.len() implies (#[trigger] w[a]).0@ != (
        #[trigger] w[b]).0@ by {
            if b == w.len() - 1 {
                let a2 = if a < i { a } else { a + 1 };
                assert(w[a] == v[a2]);
                assert(w[b] == v[v.len() - 1]);
            } else {
                assert(w[a] == d.remove(i)[a]);
                assert(w[b] == d.remove(i)[b]);
            }
        }
    }
}

pub proof fn lemma_assoc_map_update<V>(v: Seq<(String, V)>, i: int, x: (String, V))
    requires
        keys_unique(v),
        0 <= i < v.len(),
        x.0@ == v[i].0@,
    ensures
        assoc_map(v.update(i, x)) =~= assoc_map(v).insert(x.0@, x.1),
        keys_unique(v.update(i, x)),
    decreases v.len(),
{
    let k = v[i].0@;
    if i == v.len() - 1 {
        let w = v.update(i, x);
        assert(w.drop_last() =~= v.drop_last());
        lemma_assoc_map_dom(v.drop_last(), k);
        assert(assoc_map(w) == assoc_map(v.drop_last()).insert(k, x.1));
        assert(assoc_map(v) == assoc_map(v.drop_last()).insert(k, v[i].1));
        assert(assoc_map(w) =~= assoc_map(v).insert(x.0@, x.1));
        assert forall|a: int, b: int| 0 <= a < b < w.len() implies (#[trigger] w[a]).0@ != (
        #[trigger] w[b]).0@ by {
            assert(w[a].0@ == v[a].0@);
            assert(w[b].0@ == v[b].0@);
        }
    } else {
        let d = v.drop_last();
        assert(d[i] == v[i]);
        lemma_assoc_map_update(d, i, x);
        let w = v.update(i, x);
        assert(w =~= d.update(i, x).push(v.last()));
        assert(w.drop_last() =~= d.update(i, x));
        assert(w.last() == v.last());
        assert(v[v.len() - 1].0@ != k);
        assert(assoc_map(w) == assoc_map(d.update(i, x)).insert(v.last().0@, v.last().1));
        assert(assoc_map(v) == assoc_map(d).insert(v.last().0@, v.last().1));
        assert(assoc_map(w) =~= assoc_map(v).insert(x.0@, x.1));
        assert forall|a: int, b: int| 0 <= a < b < w.len() implies (#[trigger] w[a]).0@ != (
        #[trigger] w[b]).0@ by {
            assert(w[a].0@ == v[a].0@);
            assert(w[b].0@ == v[b].0@);
        }
    }
}

pub proof fn lemma_push_unique<V>(v: Seq<(String, V)>, x: (String, V))
    requires
        keys_unique(v),
        !has_key(v, x.0@),
    ensures
        keys_unique(v.push(x)),
        assoc_map(v.push(x)) == assoc_map(v).insert(x.0@, x.1),
{
    assert(v.push(x).drop_last() =~= v);
    assert forall|i: int, j: int| 0 <= i < j < v.push(x).len() implies (#[trigger] v.push(x)[i]).0@
        != (#[trigger] v.push(x)[j]).0@ by {
        if j == v.len() {
            assert(v[i].0@ != x.0@);
        } else {
            assert(v[i] == v.push(x)[i]);
        }
    }
}

/// Position of the pair with key `key`, if any.
pub fn assoc_find<V>(v: &Vec<(String, V)>, key: &str) -> (r: Option<usize>)
    ensures
        r is Some ==> r->Some_0 < v@.len() && v@[r->Some_0 as int].0@ == key@,
        r is None ==> !has_key(v@, key@),
{
    let mut i: usize = 0;
    while i < v.len()
        invariant
            i <= v.len(),
            forall|j: int| 0 <= j < i ==> (#[trigger] v@[j]).0@ != key@,
        decreases v.len() - i,
    {
        if str_eq(v[i].0.as_str(), key) {
            return Some(i);
        }
        i = i + 1;
    }
    None
}

/// Sets the value of `key` to `value`: replaces the pair with that key, or
/// adds one at the end.
pub fn assoc_insert<V>(v: &mut Vec<(String, V)>, key: String, value: V)
    requires
        keys_unique(old(v)@),
    ensures
        keys_unique(final(v)@),
        assoc_map(final(v)@) == assoc_map(old(v)@).insert(key@, value),
        has_key(old(v)@, key@) ==> keys_of(final(v)@) == keys_of(old(v)@),
        !has_key(old(v)@, key@) ==> keys_of(final(v)@) == keys_of(old(v)@).push(key@),
{
    match assoc_find(v, key.as_str()) {
        Some(i) => {
            proof {
                lemma_assoc_map_update(v@, i as int, (key, value));
            }
            let ghost old_v = v@;
            v.set(i, (key, value));
            assert(keys_of(v@) =~= keys_of(old_v));
        },
        None => {
            proof {
                lemma_push_unique(v@, (key, value));
            }
            let ghost old_v = v@;
            v.push((key, value));
            assert(keys_of(v@) =~= keys_of(old_v).push(key@));
        },
    }
}

/// Removes the pair with key `key`, giving back its value.
pub fn assoc_remove<V>(v: &mut Vec<(String, V)>, key: &str) -> (r: Option<V>)
    requires
        keys_unique(old(v)@),
    ensures
        keys_unique(final(v)@),
        assoc_map(final(v)@) == assoc_map(old(v)@).remove(key@),
        r is Some <==> assoc_map(old(v)@).dom().contains(key@),
        r is Some ==> r->Some_0 == assoc_map(old(v)@)[key@],
        forall|k: Seq<char>|
            #![trigger has_key(final(v)@, k)]
            has_key(final(v)@, k) <==> has_key(old(v)@, k) && k != key@,
{
    proof {
        lemma_assoc_map_dom(v@, key@);
    }
    match assoc_find(v, key) {
        Some(i) => {
            proof {
                lemma_assoc_map_remove(v@, i as int);
                lemma_assoc_map_index(v@, i as int);
            }
            let ghost old_v = v@;
            let (_, val) = v.remove(i);
            proof {
                assert forall|k: Seq<char>| #![trigger has_key(v@, k)]
                    has_key(v@, k) <==> has_key(old_v, k) && k != key@ by {
                    lemma_assoc_map_dom(v@, k);
                    lemma_assoc_map_dom(old_v, k);
                }
            }
            Some(val)
        },
        None => {
            assert(assoc_map(v@).remove(key@) =~= assoc_map(v@));
            None
        },
    }
}

} // verus!
