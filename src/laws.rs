//! Properties of the mapping that hold across operations.
use vstd::prelude::*;
use crate::dictdatatype::{
    distinct_keys, insert_all, insert_spec, key_index, keys_of, lemma_insert_distinct,
    lemma_key_index_absent, lemma_key_index_found, lemma_key_index_range, lookup, Pair,
};
use crate::objdict::{dict_eq, lemma_insert_len, size_changed, PyDict};
use crate::dictdatatype::DictSize;
use crate::value::Val;

verus! {

/// Entries left after popping the oldest entry `n` times.
pub open spec fn after_pops(e: Seq<Pair>, n: nat) -> Seq<Pair>
    decreases n,
{
    if n == 0 { e } else { after_pops(e, (n - 1) as nat).drop_first() }
}

/// Two entry sequences with the same keys in the same order find a key at the same place.
pub proof fn lemma_key_index_keys(a: Seq<Pair>, b: Seq<Pair>, k: Val)
    requires
        keys_of(a) == keys_of(b),
    ensures
        key_index(a, k) == key_index(b, k),
    decreases a.len(),
{
    assert(a.len() == keys_of(a).len() && b.len() == keys_of(b).len());
    if a.len() > 0 {
        assert(keys_of(a)[a.len() - 1] == keys_of(b)[b.len() - 1]);
        assert(keys_of(a.drop_last()) =~= keys_of(a).drop_last());
        assert(keys_of(b.drop_last()) =~= keys_of(b).drop_last());
        lemma_key_index_keys(a.drop_last(), b.drop_last(), k);
    }
}

/// Inserting keys that are all distinct yields them in the order they were
/// inserted.
pub proof fn lemma_insertion_order(ps: Seq<Pair>)
    requires
        distinct_keys(ps),
    ensures
        insert_all(Seq::empty(), ps) == ps,
        keys_of(insert_all(Seq::empty(), ps)) == keys_of(ps),
    decreases ps.len(),
{
    if ps.len() > 0 {
        let init = ps.drop_last();
        assert(distinct_keys(init));
        lemma_insertion_order(init);
        assert forall|i: int| 0 <= i < init.len() implies init[i].0 != ps.last().0 by {
            assert(init[i] == ps[i]);
        }
        lemma_key_index_absent(init, ps.last().0);
        assert(init.push(ps.last()) =~= ps);
    }
}

/// Storing a new value under a present key changes that entry's value in
/// place: every key keeps its position, and the other entries are untouched.
pub proof fn lemma_update_in_place(e: Seq<Pair>, k: Val, v: Val)
    requires
        distinct_keys(e),
        key_index(e, k) >= 0,
    ensures
        keys_of(insert_spec(e, k, v)) == keys_of(e),
        insert_spec(e, k, v)[key_index(e, k)] == (k, v),
        forall|j: int| 0 <= j < e.len() && j != key_index(e, k) ==> #[trigger] insert_spec(e, k, v)[j] == e[j],
{
    lemma_key_index_range(e, k);
    assert(keys_of(insert_spec(e, k, v)) =~= keys_of(e));
}

/// Any run of stores under keys that are already present leaves the order
/// of keys as it was.
pub proof fn lemma_updates_keep_order(e: Seq<Pair>, ps: Seq<Pair>)
    requires
        distinct_keys(e),
        forall|i: int| 0 <= i < ps.len() ==> key_index(e, #[trigger] ps[i].0) >= 0,
    ensures
        keys_of(insert_all(e, ps)) == keys_of(e),
        distinct_keys(insert_all(e, ps)),
    decreases ps.len(),
{
    if ps.len() > 0 {
        let init = ps.drop_last();
        assert forall|i: int| 0 <= i < init.len() implies key_index(e, #[trigger] init[i].0) >= 0 by {
            assert(init[i] == ps[i]);
        }
        lemma_updates_keep_order(e, init);
        let prev = insert_all(e, init);
        let last = ps.last();
        assert(key_index(e, ps[ps.len() - 1].0) >= 0);
        lemma_key_index_keys(prev, e, last.0);
        lemma_update_in_place(prev, last.0, last.1);
        lemma_insert_distinct(prev, last.0, last.1);
    }
}

/// Popping the oldest entry repeatedly hands the entries out in insertion
/// order: after `n` pops the next one is the `n`-th entry.
pub proof fn lemma_fifo_removal(e: Seq<Pair>, n: nat)
    requires
        n <= e.len(),
    ensures
        after_pops(e, n) == e.skip(n as int),
        n < e.len() ==> after_pops(e, n)[0] == e[n as int],
    decreases n,
{
    if n == 0 {
        assert(e.skip(0) =~= e);
    } else {
        lemma_fifo_removal(e, (n - 1) as nat);
        assert(e.skip(n - 1).drop_first() =~= e.skip(n as int));
    }
}

/// Lookups after a store: the stored key finds the new value, every other
/// key what it found before.
pub proof fn lemma_lookup_insert(e: Seq<Pair>, k: Val, v: Val, x: Val)
    requires
        distinct_keys(e),
    ensures
        lookup(insert_spec(e, k, v), x) == if x == k { Some(v) } else { lookup(e, x) },
{
    lemma_key_index_range(e, k);
    lemma_key_index_range(e, x);
    lemma_insert_distinct(e, k, v);
    let r = insert_spec(e, k, v);
    if x != k {
        if key_index(e, k) >= 0 {
            assert(keys_of(r) =~= keys_of(e));
            lemma_key_index_keys(r, e, x);
        } else {
            assert(r.drop_last() =~= e);
        }
    }
}

/// Equality does not depend on the order in which distinct keys were stored.
pub proof fn lemma_eq_order_independent(e: Seq<Pair>, k1: Val, v1: Val, k2: Val, v2: Val)
    requires
        distinct_keys(e),
        k1 != k2,
    ensures
        dict_eq(
            insert_spec(insert_spec(e, k1, v1), k2, v2),
            insert_spec(insert_spec(e, k2, v2), k1, v1),
        ),
{
    let a1 = insert_spec(e, k1, v1);
    let b1 = insert_spec(e, k2, v2);
    let a = insert_spec(a1, k2, v2);
    let b = insert_spec(b1, k1, v1);
    lemma_insert_distinct(e, k1, v1);
    lemma_insert_distinct(e, k2, v2);
    lemma_insert_distinct(a1, k2, v2);
    lemma_insert_distinct(b1, k1, v1);
    lemma_insert_len(e, k1, v1);
    lemma_insert_len(e, k2, v2);
    lemma_insert_len(a1, k2, v2);
    lemma_insert_len(b1, k1, v1);
    lemma_lookup_insert(e, k1, v1, k2);
    lemma_lookup_insert(e, k2, v2, k1);
    lemma_key_index_range(e, k1);
    lemma_key_index_range(e, k2);
    lemma_key_index_range(a1, k2);
    lemma_key_index_range(b1, k1);
    assert(a.len() == b.len());
    assert forall|i: int| 0 <= i < a.len() implies lookup(b, #[trigger] a[i].0) == Some(a[i].1) by {
        let x = a[i].0;
        lemma_key_index_found(a, i);
        lemma_lookup_insert(a1, k2, v2, x);
        lemma_lookup_insert(e, k1, v1, x);
        lemma_lookup_insert(b1, k1, v1, x);
        lemma_lookup_insert(e, k2, v2, x);
    }
}

/// Storing a key that was absent changes the size counters, so an iterator
/// whose snapshot matched before the store fails at its next step.
pub proof fn lemma_new_key_changes_size(before: &PyDict, after: &PyDict, snapshot: DictSize, k: Val, v: Val)
    requires
        !size_changed(before, snapshot),
        key_index(before.pairs(), k) < 0,
        after.pairs() == insert_spec(before.pairs(), k, v),
    ensures
        size_changed(after, snapshot),
{
    lemma_insert_len(before.pairs(), k, v);
}

} // verus!
