//! Lists of pairs read as maps from byte strings: a later pair overrides an
//! earlier one with the same key.

use vstd::prelude::*;

verus! {

/// The map that a list of pairs stands for.
pub open spec fn assoc_map<V>(pairs: Seq<(Seq<u8>, V)>) -> Map<Seq<u8>, V>
    decreases pairs.len(),
{
    if pairs.len() == 0 {
        Map::empty()
    } else {
        assoc_map(pairs.drop_last()).insert(pairs.last().0, pairs.last().1)
    }
}

/// No key occurs twice in the list.
pub open spec fn keys_distinct<V>(pairs: Seq<(Seq<u8>, V)>) -> bool {
    forall|i: int, j: int| 0 <= i < j < pairs.len() ==> (#[trigger] pairs[i]).0 != (#[trigger] pairs[j]).0
}

/// Whether some pair of the list has the key `key`.
pub open spec fn has_key<V>(pairs: Seq<(Seq<u8>, V)>, key: Seq<u8>) -> bool {
    exists|i: int| 0 <= i < pairs.len() && (#[trigger] pairs[i]).0 == key
}

/// The keys of the map are the keys of the pairs.
pub proof fn lemma_assoc_dom<V>(pairs: Seq<(Seq<u8>, V)>, key: Seq<u8>)
    ensures
        assoc_map(pairs).contains_key(key) <==> has_key(pairs, key),
    decreases pairs.len(),
{
    if pairs.len() > 0 {
        let front = pairs.drop_last();
        lemma_assoc_dom(front, key);
        if has_key(pairs, key) {
            let i = choose|i: int| 0 <= i < pairs.len() && (#[trigger] pairs[i]).0 == key;
            if i < pairs.len() - 1 {
                assert(front[i].0 == key);
            }
        }
        if has_key(front, key) {
            let i = choose|i: int| 0 <= i < front.len() && (#[trigger] front[i]).0 == key;
            assert(pairs[i].0 == key);
        }
        if pairs.last().0 == key {
            assert(pairs[pairs.len() - 1].0 == key);
        }
    }
}

/// A key maps to the value of its last pair: the pair at `i`, when no later
/// pair has the same key.
pub proof fn lemma_assoc_last<V>(pairs: Seq<(Seq<u8>, V)>, i: int)
    requires
        0 <= i < pairs.len(),
        forall|j: int| i < j < pairs.len() ==> (#[trigger] pairs[j]).0 != pairs[i].0,
    ensures
        assoc_map(pairs).contains_key(pairs[i].0),
        assoc_map(pairs)[pairs[i].0] == pairs[i].1,
    decreases pairs.len(),
{
    if i < pairs.len() - 1 {
        let front = pairs.drop_last();
        assert(front[i] == pairs[i]);
        assert forall|j: int| i < j < front.len() implies (#[trigger] front[j]).0 != front[i].0 by {
            assert(front[j] == pairs[j]);
        }
        lemma_assoc_last(front, i);
        assert(pairs[pairs.len() - 1].0 != pairs[i].0);
    }
}

/// With distinct keys, every pair is the one that its key maps to.
pub proof fn lemma_assoc_at<V>(pairs: Seq<(Seq<u8>, V)>, i: int)
    requires
        keys_distinct(pairs),
        0 <= i < pairs.len(),
    ensures
        assoc_map(pairs).contains_key(pairs[i].0),
        assoc_map(pairs)[pairs[i].0] == pairs[i].1,
{
    lemma_assoc_last(pairs, i);
}

/// With distinct keys, giving the pair at `i` a new value is the map's `insert`.
pub proof fn lemma_assoc_update<V>(pairs: Seq<(Seq<u8>, V)>, i: int, value: V)
    requires
        keys_distinct(pairs),
        0 <= i < pairs.len(),
    ensures
        keys_distinct(pairs.update(i, (pairs[i].0, value))),
        assoc_map(pairs.update(i, (pairs[i].0, value))) == assoc_map(pairs).insert(
            pairs[i].0,
            value,
        ),
    decreases pairs.len(),
{
    let updated = pairs.update(i, (pairs[i].0, value));
    assert forall|a: int, b: int| 0 <= a < b < updated.len() implies (#[trigger] updated[a]).0 != (
    #[trigger] updated[b]).0 by {
        assert(pairs[a].0 != pairs[b].0);
    }
    let front = pairs.drop_last();
    if i == pairs.len() - 1 {
        assert(updated.drop_last() =~= front);
        assert(assoc_map(updated) =~= assoc_map(pairs).insert(pairs[i].0, value));
    } else {
        assert(front[i] == pairs[i]);
        assert forall|a: int, b: int| 0 <= a < b < front.len() implies (#[trigger] front[a]).0 != (
        #[trigger] front[b]).0 by {
            assert(pairs[a].0 != pairs[b].0);
        }
        lemma_assoc_update(front, i, value);
        assert(updated.drop_last() =~= front.update(i, (pairs[i].0, value)));
        assert(updated.last() == pairs.last());
        assert(pairs[i].0 != pairs[pairs.len() - 1].0);
        assert(assoc_map(updated) =~= assoc_map(pairs).insert(pairs[i].0, value));
    }
}

/// Adding a pair with a new key keeps the keys distinct.
pub proof fn lemma_assoc_push<V>(pairs: Seq<(Seq<u8>, V)>, key: Seq<u8>, value: V)
    requires
        keys_distinct(pairs),
        !has_key(pairs, key),
    ensures
        keys_distinct(pairs.push((key, value))),
        assoc_map(pairs.push((key, value))) == assoc_map(pairs).insert(key, value),
{
    let pushed = pairs.push((key, value));
    assert forall|a: int, b: int| 0 <= a < b < pushed.len() implies (#[trigger] pushed[a]).0 != (
    #[trigger] pushed[b]).0 by {
        if b == pairs.len() {
            assert(pairs[a].0 != key);
        } else {
            assert(pairs[a].0 != pairs[b].0);
        }
    }
    assert(pushed.drop_last() =~= pairs);
}

} // verus!
