//! Association lists used as string-keyed maps.
//!
//! The configuration model keeps its maps as vectors of `(String, value)`
//! pairs with pairwise-distinct keys. At the specification level such a list
//! denotes a `Map<Seq<char>, _>`, built by [`amap`]; the executable helpers
//! here look keys up and insert-or-replace while preserving that denotation.

use vstd::prelude::*;

verus! {

/// The viewed pairs of an association list: each `String` key and each value
/// replaced by its view.
pub open spec fn pview<V: View>(s: Seq<(String, V)>) -> Seq<(Seq<char>, V::V)> {
    s.map_values(|p: (String, V)| (p.0@, p.1@))
}

/// The map denoted by a sequence of key/value pairs; a later pair with the
/// same key overrides an earlier one.
pub open spec fn amap<X>(s: Seq<(Seq<char>, X)>) -> Map<Seq<char>, X>
    decreases s.len(),
{
    if s.len() == 0 {
        Map::empty()
    } else {
        amap(s.drop_last()).insert(s.last().0, s.last().1)
    }
}

/// All keys of the pair sequence are pairwise distinct.
pub open spec fn keys_unique<X>(s: Seq<(Seq<char>, X)>) -> bool {
    forall|i: int, j: int|
        0 <= i < j < s.len() ==> #[trigger] s[i].0 !== #[trigger] s[j].0
}

/// A key is in the denoted map exactly when some pair carries it.
pub proof fn lemma_amap_dom<X>(s: Seq<(Seq<char>, X)>)
    ensures
        forall|k: Seq<char>|
            amap(s).contains_key(k) <==> (exists|i: int| 0 <= i < s.len() && #[trigger] s[i].0 == k),
    decreases s.len(),
{
    if s.len() > 0 {
        lemma_amap_dom(s.drop_last());
        assert forall|k: Seq<char>|
            amap(s).contains_key(k) <==> (exists|i: int|
                0 <= i < s.len() && #[trigger] s[i].0 == k) by {
            if amap(s).contains_key(k) {
                if k == s.last().0 {
                    assert(s[s.len() - 1].0 == k);
                } else {
                    assert(amap(s.drop_last()).contains_key(k));
                    let i = choose|i: int| 0 <= i < s.drop_last().len() && #[trigger] s.drop_last()[i].0 == k;
                    assert(s.drop_last()[i] == s[i]);
                    assert(s[i].0 == k);
                }
            }
            if exists|i: int| 0 <= i < s.len() && #[trigger] s[i].0 == k {
                let i = choose|i: int| 0 <= i < s.len() && #[trigger] s[i].0 == k;
                if i < s.len() - 1 {
                    assert(s.drop_last()[i].0 == k);
                    assert(exists|j: int|
                        0 <= j < s.drop_last().len() && #[trigger] s.drop_last()[j].0 == k);
                    assert(amap(s.drop_last()).contains_key(k));
                    assert(amap(s).contains_key(k));
                } else {
                    assert(k == s.last().0);
                    assert(amap(s).contains_key(k));
                }
            }
        }
    }
}

/// With distinct keys, the denoted map sends each pair's key to its value.
pub proof fn lemma_amap_index<X>(s: Seq<(Seq<char>, X)>, i: int)
    requires
        keys_unique(s),
        0 <= i < s.len(),
    ensures
        amap(s).contains_key(s[i].0),
        amap(s)[s[i].0] == s[i].1,
    decreases s.len(),
{
    if i < s.len() - 1 {
        assert(keys_unique(s.drop_last()));
        lemma_amap_index(s.drop_last(), i);
        assert(s[i].0 !== s.last().0);
    }
}

/// Replacing the pair at `i` by one with the same key denotes an insert.
pub proof fn lemma_amap_update<X>(s: Seq<(Seq<char>, X)>, i: int, p: (Seq<char>, X))
    requires
        keys_unique(s),
        0 <= i < s.len(),
        p.0 == s[i].0,
    ensures
        amap(s.update(i, p)) == amap(s).insert(p.0, p.1),
        keys_unique(s.update(i, p)),
    decreases s.len(),
{
    let u = s.update(i, p);
    if i == s.len() - 1 {
        assert(u.drop_last() =~= s.drop_last());
        assert(amap(u) == amap(s.drop_last()).insert(p.0, p.1));
        assert(amap(s.drop_last()).insert(s.last().0, s.last().1).insert(p.0, p.1)
            =~= amap(s.drop_last()).insert(p.0, p.1));
    } else {
        assert(keys_unique(s.drop_last()));
        assert(u.drop_last() =~= s.drop_last().update(i, p));
        lemma_amap_update(s.drop_last(), i, p);
        assert(u.last() == s.last());
        assert(p.0 !== s.last().0);
        assert(amap(s.drop_last()).insert(p.0, p.1).insert(s.last().0, s.last().1)
            =~= amap(s.drop_last()).insert(s.last().0, s.last().1).insert(p.0, p.1));
    }
}

/// The empty pair list denotes the empty map.
pub proof fn lemma_amap_empty<X>()
    ensures
        amap(Seq::<(Seq<char>, X)>::empty()) == Map::<Seq<char>, X>::empty(),
{
    assert(amap(Seq::<(Seq<char>, X)>::empty()) == Map::<Seq<char>, X>::empty());
}

/// Appending a pair denotes an insert (immediate from the definition).
pub proof fn lemma_amap_push<X>(s: Seq<(Seq<char>, X)>, p: (Seq<char>, X))
    ensures
        amap(s.push(p)) == amap(s).insert(p.0, p.1),
{
    assert(s.push(p).drop_last() =~= s);
    assert(s.push(p).last() == p);
}

/// Finds the index of the pair carrying key `k`, if any.
pub fn amap_find<V: View>(v: &Vec<(String, V)>, k: &String) -> (r: Option<usize>)
    ensures
        match r {
            Some(i) => i < v@.len() && v@[i as int].0@ == k@,
            None => forall|i: int| 0 <= i < v@.len() ==> #[trigger] v@[i].0@ !== k@,
        },
{
    let mut i: usize = 0;
    while i < v.len()
        invariant
            i <= v@.len(),
            forall|j: int| 0 <= j < i ==> #[trigger] v@[j].0@ !== k@,
        decreases v@.len() - i,
    {
        if v[i].0.eq(k) {
            return Some(i);
        }
        i = i + 1;
    }
    None
}

/// Inserts `k -> val`, replacing the pair with key `k` if one is present.
pub fn amap_insert<V: View>(v: &mut Vec<(String, V)>, k: String, val: V)
    requires
        keys_unique(pview(old(v)@)),
    ensures
        keys_unique(pview(final(v)@)),
        amap(pview(final(v)@)) == amap(pview(old(v)@)).insert(k@, val@),
{
    let found = amap_find(v, &k);
    let ghost s = pview(v@);
    match found {
        Some(i) => {
            v.set(i, (k, val));
            proof {
                assert(pview(v@) =~= s.update(i as int, (k@, val@)));
                lemma_amap_update(s, i as int, (k@, val@));
            }
        },
        None => {
            v.push((k, val));
            proof {
                assert(pview(v@) =~= s.push((k@, val@)));
                lemma_amap_push(s, (k@, val@));
                lemma_amap_dom(s);
                assert forall|i: int, j: int|
                    0 <= i < j < pview(v@).len() implies #[trigger] pview(v@)[i].0 !== #[trigger] pview(
                    v@,
                )[j].0 by {
                    if j == s.len() {
                        assert(s[i].0 !== k@);
                    }
                }
            }
        },
    }
}

} // verus!
