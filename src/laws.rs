//! Laws relating sequences of `insert` and `delete` to `find` and `is_empty`,
//! stated over the map that a tree's view holds.
use vstd::prelude::*;

verus! {

/// One mutation of a tree: `insert(key, value)` or `delete(key)`.
pub enum Step<K, V> {
    Insert(K, V),
    Delete(K),
}

/// The view after running `steps` in order on a tree whose view is `m`:
/// an insert overwrites the entry of its key and a delete removes it (a
/// delete of an absent key changes nothing, as `delete` ensures).
pub open spec fn run<K, V>(m: Map<K, V>, steps: Seq<Step<K, V>>) -> Map<K, V>
    decreases steps.len(),
{
    if steps.len() == 0 {
        m
    } else {
        let prev = run(m, steps.drop_last());
        match steps.last() {
            Step::Insert(k, v) => prev.insert(k, v),
            Step::Delete(k) => prev.remove(k),
        }
    }
}

/// Whether `step` inserts or deletes `key`.
pub open spec fn touches<K, V>(step: Step<K, V>, key: K) -> bool {
    match step {
        Step::Insert(k, _) => k == key,
        Step::Delete(k) => k == key,
    }
}

/// A key inserted by step `i` and touched by no later step holds the value
/// that step `i` gave it after all of `steps`.
pub proof fn lemma_round_trip<K, V>(m: Map<K, V>, steps: Seq<Step<K, V>>, i: int, k: K, v: V)
    requires
        0 <= i < steps.len(),
        steps[i] == Step::Insert(k, v),
        forall|j: int| i < j < steps.len() ==> !touches(#[trigger] steps[j], k),
    ensures
        run(m, steps).contains_key(k),
        run(m, steps)[k] == v,
    decreases steps.len(),
{
    if i < steps.len() - 1 {
        let prev = steps.drop_last();
        assert forall|j: int| i < j < prev.len() implies !touches(#[trigger] prev[j], k) by {
            assert(prev[j] == steps[j]);
        }
        lemma_round_trip(m, prev, i, k, v);
        assert(!touches(steps[steps.len() - 1], k));
    }
}

/// After a delete of `k`, `k` is absent and every other key keeps exactly
/// the entry it had.
pub proof fn lemma_delete_keeps_others<K, V>(m: Map<K, V>, k: K, other: K)
    ensures
        !run(m, seq![Step::Delete(k)]).contains_key(k),
        other != k ==> run(m, seq![Step::Delete(k)]).contains_key(other) == m.contains_key(other),
        other != k && m.contains_key(other) ==> run(m, seq![Step::Delete(k)])[other] == m[other],
{
    lemma_run_one_delete(m, k);
}

proof fn lemma_run_one_delete<K, V>(m: Map<K, V>, k: K)
    ensures
        run(m, seq![Step::Delete(k)]) == m.remove(k),
{
    let steps = seq![Step::<K, V>::Delete(k)];
    assert(steps.drop_last() =~= Seq::<Step<K, V>>::empty());
    assert(run(m, steps.drop_last()) == m);
    assert(steps.last() == Step::<K, V>::Delete(k));
}

/// A delete of a key that is absent changes nothing.
pub proof fn lemma_delete_absent<K, V>(m: Map<K, V>, k: K)
    requires
        !m.contains_key(k),
    ensures
        run(m, seq![Step::Delete(k)]) == m,
{
    lemma_run_one_delete(m, k);
    assert(m.remove(k) =~= m);
}

/// The deletes of `keys`, in their order.
pub open spec fn deletes<K, V>(keys: Seq<K>) -> Seq<Step<K, V>> {
    keys.map_values(|k: K| Step::Delete(k))
}

/// Every step that inserts names a key of `keys`.
pub open spec fn inserts_within<K, V>(steps: Seq<Step<K, V>>, keys: Seq<K>) -> bool {
    forall|i: int|
        0 <= i < steps.len() && (#[trigger] steps[i]) is Insert ==> keys.contains(
            steps[i]->Insert_0,
        )
}

proof fn lemma_keys_come_from_inserts<K, V>(steps: Seq<Step<K, V>>, keys: Seq<K>)
    requires
        inserts_within(steps, keys),
    ensures
        forall|x: K| #[trigger] run(Map::empty(), steps).contains_key(x) ==> keys.contains(x),
    decreases steps.len(),
{
    if steps.len() > 0 {
        let prev = steps.drop_last();
        assert forall|i: int| 0 <= i < prev.len() && (#[trigger] prev[i]) is Insert implies keys.contains(
            prev[i]->Insert_0,
        ) by {
            assert(prev[i] == steps[i]);
        }
        lemma_keys_come_from_inserts(prev, keys);
        let last = steps[steps.len() - 1];
        assert(last is Insert ==> keys.contains(last->Insert_0));
        assert(steps.last() == last);
        assert forall|x: K| #[trigger] run(Map::empty(), steps).contains_key(x) implies keys.contains(x) by {
            match last {
                Step::Insert(k, v) => {
                    if x != k {
                        assert(run(Map::empty(), prev).contains_key(x));
                    }
                },
                Step::Delete(k) => {
                    assert(run(Map::empty(), prev).contains_key(x));
                },
            }
        }
    }
}

proof fn lemma_deletes_remove<K, V>(m: Map<K, V>, keys: Seq<K>)
    ensures
        forall|x: K| #[trigger] run(m, deletes::<K, V>(keys)).contains_key(x) ==> !keys.contains(x),
    decreases keys.len(),
{
    if keys.len() > 0 {
        let prev = keys.drop_last();
        assert(deletes::<K, V>(keys).drop_last() =~= deletes::<K, V>(prev));
        lemma_deletes_remove(m, prev);
        let last = keys[keys.len() - 1];
        assert(deletes::<K, V>(keys).last() == Step::<K, V>::Delete(last));
        assert(run(m, deletes::<K, V>(keys)) == run(m, deletes::<K, V>(prev)).remove(last));
        assert forall|x: K| #[trigger] run(m, deletes::<K, V>(keys)).contains_key(x) implies !keys.contains(x) by {
            if keys.contains(x) {
                let j = choose|j: int| 0 <= j < keys.len() && keys[j] == x;
                assert(x != last);
                assert(j < prev.len());
                assert(prev[j] == x);
                assert(prev.contains(x));
            }
        }
    }
}

/// A tree that starts empty and runs `steps` is empty again once every key
/// that `steps` inserted has been deleted, in whatever order.
pub proof fn lemma_delete_every_key<K, V>(steps: Seq<Step<K, V>>, keys: Seq<K>)
    requires
        inserts_within(steps, keys),
    ensures
        run(run(Map::<K, V>::empty(), steps), deletes::<K, V>(keys)) == Map::<K, V>::empty(),
{
    let filled = run(Map::<K, V>::empty(), steps);
    lemma_keys_come_from_inserts(steps, keys);
    lemma_deletes_remove(filled, keys);
    let emptied = run(filled, deletes::<K, V>(keys));
    assert forall|x: K| !emptied.contains_key(x) by {
        if emptied.contains_key(x) {
            lemma_deletes_into(filled, keys, x);
        }
    }
    assert(emptied =~= Map::<K, V>::empty());
}

proof fn lemma_deletes_into<K, V>(m: Map<K, V>, keys: Seq<K>, x: K)
    ensures
        run(m, deletes::<K, V>(keys)).contains_key(x) ==> m.contains_key(x),
    decreases keys.len(),
{
    if keys.len() > 0 {
        let prev = keys.drop_last();
        assert(deletes::<K, V>(keys).drop_last() =~= deletes::<K, V>(prev));
        lemma_deletes_into(m, prev, x);
        assert(deletes::<K, V>(keys).last() == Step::<K, V>::Delete(keys[keys.len() - 1]));
    }
}

} // verus!
