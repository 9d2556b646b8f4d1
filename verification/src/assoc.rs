//! Association sequences: a sequence of key-value pairs read as a map.
//!
//! The budget's category limits and the conversion table's directed rates
//! are both stored as vectors of pairs with pairwise-distinct keys; their
//! contracts speak of the `Map` that such a sequence denotes.

use vstd::prelude::*;

verus! {

/// The map denoted by a sequence of key-value pairs; a later entry for the
/// same key overrides an earlier one.
pub open spec fn map_of<K, V>(s: Seq<(K, V)>) -> Map<K, V>
    decreases s.len(),
{
    if s.len() == 0 {
        Map::empty()
    } else {
        map_of(s.drop_last()).insert(s.last().0, s.last().1)
    }
}

/// No two entries share a key.
pub open spec fn keys_distinct<K, V>(s: Seq<(K, V)>) -> bool {
    forall|i: int, j: int| 0 <= i < j < s.len() ==> s[i].0 != s[j].0
}

/// Every key of the denoted map comes from some entry, and with distinct
/// keys every entry is reflected in the map unchanged.
pub proof fn lemma_map_of_entries<K, V>(s: Seq<(K, V)>)
    ensures
        forall|k: K|
            map_of(s).contains_key(k) <==> exists|i: int| 0 <= i < s.len() && s[i].0 == k,
        keys_distinct(s) ==> forall|i: int|
            0 <= i < s.len() ==> #[trigger] map_of(s).contains_pair(s[i].0, s[i].1),
    decreases s.len(),
{
    if s.len() > 0 {
        lemma_map_of_entries(s.drop_last());
        assert forall|k: K|
            map_of(s).contains_key(k) implies exists|i: int|
            0 <= i < s.len() && s[i].0 == k by {
            if k == s.last().0 {
                assert(s[s.len() - 1].0 == k);
            } else {
                assert(map_of(s.drop_last()).contains_key(k));
                let i = choose|i: int|
                    0 <= i < s.drop_last().len() && s.drop_last()[i].0 == k;
                assert(s.drop_last()[i] == s[i]);
                assert(s[i].0 == k);
            }
        };
        assert forall|k: K|
            exists|i: int| 0 <= i < s.len() && s[i].0 == k implies map_of(s).contains_key(
            k,
        ) by {
            let i = choose|i: int| 0 <= i < s.len() && s[i].0 == k;
            if i == s.len() - 1 {
            } else if k != s.last().0 {
                assert(s.drop_last()[i] == s[i]);
                assert(exists|j: int|
                    0 <= j < s.drop_last().len() && s.drop_last()[j].0 == k);
                assert(map_of(s.drop_last()).contains_key(k));
            }
        };
        if keys_distinct(s) {
            assert forall|i: int|
                0 <= i < s.len() implies #[trigger] map_of(s).contains_pair(s[i].0, s[i].1) by {
                if i == s.len() - 1 {
                } else {
                    assert(s.drop_last()[i] == s[i]);
                    assert(map_of(s.drop_last()).contains_pair(s[i].0, s[i].1));
                    assert(s[i].0 != s.last().0);
                }
            };
        }
    }
}

/// Appending an entry inserts its pair into the denoted map.
pub proof fn lemma_map_of_push<K, V>(s: Seq<(K, V)>, k: K, v: V)
    ensures
        map_of(s.push((k, v))) =~= map_of(s).insert(k, v),
{
    assert(s.push((k, v)).drop_last() =~= s);
    assert(s.push((k, v)).last() == (k, v));
}

/// Overwriting the entry that holds a key inserts the new pair into the
/// denoted map, provided keys are distinct.
pub proof fn lemma_map_of_update<K, V>(s: Seq<(K, V)>, i: int, k: K, v: V)
    requires
        keys_distinct(s),
        0 <= i < s.len(),
        s[i].0 == k,
    ensures
        map_of(s.update(i, (k, v))) =~= map_of(s).insert(k, v),
    decreases s.len(),
{
    let t = s.update(i, (k, v));
    if i == s.len() - 1 {
        assert(t.drop_last() =~= s.drop_last());
        assert(t.last() == (k, v));
        assert(map_of(t) =~= map_of(s.drop_last()).insert(k, v));
        assert(map_of(s) =~= map_of(s.drop_last()).insert(s.last().0, s.last().1));
        assert(map_of(s).insert(k, v) =~= map_of(s.drop_last()).insert(k, v));
    } else {
        assert(t.drop_last() =~= s.drop_last().update(i, (k, v)));
        assert(s.drop_last()[i] == s[i]);
        lemma_map_of_update(s.drop_last(), i, k, v);
        assert(t.last() == s.last());
        // the overwritten key differs from the last entry's key
        assert(s[i].0 != s.last().0);
        assert(map_of(t) =~= map_of(s.drop_last()).insert(k, v).insert(s.last().0, s.last().1));
        assert(map_of(s).insert(k, v) =~= map_of(s.drop_last()).insert(
            s.last().0,
            s.last().1,
        ).insert(k, v));
    }
}

} // verus!
