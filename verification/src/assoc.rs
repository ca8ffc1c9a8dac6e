//! Association lists viewed as finite maps.
//!
//! The substitution, the typing context and the type cache all store
//! their entries in a vector of key-value pairs whose keys are pairwise
//! distinct (compared on their views).  `assoc_map` gives the finite
//! `Map` that such a sequence denotes; the lemmas here relate the
//! sequence operations (index, push, remove) to the map they
//! produce.

use vstd::prelude::*;

verus! {

/// The finite map denoted by a sequence of key-value pairs.  A later
/// entry wins over an earlier one with the same key.
pub open spec fn assoc_map<K: View, V: View>(s: Seq<(K, V)>) -> Map<K::V, V::V>
    decreases s.len(),
{
    if s.len() == 0 {
        Map::empty()
    } else {
        assoc_map(s.drop_last()).insert(s.last().0@, s.last().1@)
    }
}

/// The keys of the sequence are pairwise distinct, compared on views.
pub open spec fn keys_unique<K: View, V: View>(s: Seq<(K, V)>) -> bool {
    forall|i: int, j: int| 0 <= i < j < s.len() ==> s[i].0@ != s[j].0@
}

/// The domain of `assoc_map(s)` is finite, no larger than `s`, and
/// holds exactly the key views occurring in `s`.
pub proof fn lemma_assoc_map_dom<K: View, V: View>(s: Seq<(K, V)>)
    ensures
        assoc_map(s).dom().finite(),
        assoc_map(s).dom().len() <= s.len(),
        forall|k: K::V|
            assoc_map(s).dom().contains(k) <==> exists|i: int| 0 <= i < s.len() && s[i].0@ == k,
    decreases s.len(),
{
    if s.len() == 0 {
    } else {
        lemma_assoc_map_dom(s.drop_last());
        assert forall|k: K::V| assoc_map(s).dom().contains(k) implies exists|i: int|
            0 <= i < s.len() && s[i].0@ == k by {
            if k == s.last().0@ {
                assert(s[s.len() - 1].0@ == k);
            } else {
                let i = choose|i: int| 0 <= i < s.drop_last().len() && s.drop_last()[i].0@ == k;
                assert(s[i].0@ == k);
            }
        }
        assert forall|k: K::V|
            (exists|i: int| 0 <= i < s.len() && s[i].0@ == k) implies assoc_map(
            s,
        ).dom().contains(k) by {
            let i = choose|i: int| 0 <= i < s.len() && s[i].0@ == k;
            if i < s.len() - 1 {
                assert(s.drop_last()[i].0@ == k);
            }
        }
    }
}

/// With distinct keys, entry `i` of the sequence gives the value the
/// map holds at its key.
pub proof fn lemma_assoc_map_index<K: View, V: View>(s: Seq<(K, V)>, i: int)
    requires
        keys_unique(s),
        0 <= i < s.len(),
    ensures
        assoc_map(s).dom().contains(s[i].0@),
        assoc_map(s)[s[i].0@] == s[i].1@,
    decreases s.len(),
{
    if i == s.len() - 1 {
    } else {
        lemma_assoc_map_index(s.drop_last(), i);
        assert(s.drop_last()[i] == s[i]);
    }
}

/// With distinct keys, the map is exactly as large as the sequence.
pub proof fn lemma_assoc_map_len<K: View, V: View>(s: Seq<(K, V)>)
    requires
        keys_unique(s),
    ensures
        assoc_map(s).dom().finite(),
        assoc_map(s).dom().len() == s.len(),
    decreases s.len(),
{
    if s.len() == 0 {
    } else {
        lemma_assoc_map_len(s.drop_last());
        lemma_assoc_map_dom(s.drop_last());
        assert(!assoc_map(s.drop_last()).dom().contains(s.last().0@));
    }
}

/// Appending a pair is an insert on the map.
pub proof fn lemma_assoc_map_push<K: View, V: View>(s: Seq<(K, V)>, p: (K, V))
    ensures
        assoc_map(s.push(p)) == assoc_map(s).insert(p.0@, p.1@),
{
    assert(s.push(p).drop_last() =~= s);
}

/// Sequences whose entries agree on their views denote the same map.
pub proof fn lemma_assoc_map_congruence<K: View, V: View>(s1: Seq<(K, V)>, s2: Seq<(K, V)>)
    requires
        s1.len() == s2.len(),
        forall|i: int| 0 <= i < s1.len() ==> s1[i].0@ == s2[i].0@ && s1[i].1@ == s2[i].1@,
    ensures
        assoc_map(s1) == assoc_map(s2),
    decreases s1.len(),
{
    if s1.len() > 0 {
        lemma_assoc_map_congruence(s1.drop_last(), s2.drop_last());
        assert(s1[s1.len() - 1].0@ == s2[s2.len() - 1].0@);
        assert(s1[s1.len() - 1].1@ == s2[s2.len() - 1].1@);
    }
}

/// Removing entry `i` removes its key from the map.
pub proof fn lemma_assoc_map_remove<K: View, V: View>(s: Seq<(K, V)>, i: int)
    requires
        keys_unique(s),
        0 <= i < s.len(),
    ensures
        assoc_map(s.remove(i)) == assoc_map(s).remove(s[i].0@),
    decreases s.len(),
{
    let t = s.remove(i);
    if i == s.len() - 1 {
        assert(t =~= s.drop_last());
        lemma_assoc_map_dom::<K, V>(s.drop_last());
        assert(!assoc_map(s.drop_last()).dom().contains(s.last().0@));
        assert(assoc_map(s.drop_last()) =~= assoc_map(s.drop_last()).insert(
            s.last().0@,
            s.last().1@,
        ).remove(s.last().0@));
    } else {
        assert(t.drop_last() =~= s.drop_last().remove(i));
        assert(t.last() == s.last());
        lemma_assoc_map_remove(s.drop_last(), i);
        assert(s[i].0@ != s.last().0@);
        assert(assoc_map(s.drop_last()).remove(s[i].0@).insert(s.last().0@, s.last().1@)
            =~= assoc_map(s.drop_last()).insert(s.last().0@, s.last().1@).remove(s[i].0@));
    }
}

} // verus!
