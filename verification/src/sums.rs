//! Sums of sequences of numbers, and sums over the names that a table lists.

use vstd::prelude::*;

verus! {

/// The sum of a sequence of numbers.
pub open spec fn seq_sum(values: Seq<nat>) -> nat
    decreases values.len(),
{
    if values.len() == 0 {
        0
    } else {
        seq_sum(values.drop_last()) + values.last()
    }
}

/// No number exceeds the sum that it is part of.
pub(crate) proof fn lemma_seq_sum_bound(values: Seq<nat>, i: int)
    requires
        0 <= i < values.len(),
    ensures
        values[i] <= seq_sum(values),
    decreases values.len(),
{
    if i < values.len() - 1 {
        lemma_seq_sum_bound(values.drop_last(), i);
    }
}

/// The sum of the first numbers does not exceed the sum of all.
pub(crate) proof fn lemma_seq_sum_prefix(values: Seq<nat>, k: int)
    requires
        0 <= k <= values.len(),
    ensures
        seq_sum(values.subrange(0, k)) <= seq_sum(values),
    decreases values.len() - k,
{
    if k < values.len() {
        lemma_seq_sum_prefix(values, k + 1);
        assert(values.subrange(0, k + 1).drop_last() =~= values.subrange(0, k));
    } else {
        assert(values.subrange(0, k) =~= values);
    }
}

/// The table that gives each of `keys` the number at its position in
/// `weights`.
pub open spec fn table_of(keys: Seq<Seq<u8>>, weights: Seq<nat>) -> Map<Seq<u8>, nat> {
    Map::new(|k: Seq<u8>| keys.contains(k), |k: Seq<u8>| weights[keys.index_of(k)])
}

/// The numbers that a table gives to those of `names` that it lists,
/// summed.
pub open spec fn listed_sum(names: Seq<Seq<u8>>, budget: Map<Seq<u8>, nat>) -> nat
    decreases names.len(),
{
    if names.len() == 0 {
        0
    } else {
        listed_sum(names.drop_last(), budget) + if budget.dom().contains(names.last()) {
            budget[names.last()]
        } else {
            0
        }
    }
}

/// A number appended adds itself to the sum.
pub(crate) proof fn lemma_seq_sum_push(values: Seq<nat>, x: nat)
    ensures
        seq_sum(values.push(x)) == seq_sum(values) + x,
{
    assert(values.push(x).drop_last() =~= values);
}

/// A number removed takes itself from the sum.
pub(crate) proof fn lemma_seq_sum_remove(values: Seq<nat>, i: int)
    requires
        0 <= i < values.len(),
    ensures
        seq_sum(values.remove(i)) + values[i] == seq_sum(values),
    decreases values.len(),
{
    if i == values.len() - 1 {
        assert(values.remove(i) =~= values.drop_last());
    } else {
        lemma_seq_sum_remove(values.drop_last(), i);
        assert(values.remove(i).drop_last() =~= values.drop_last().remove(i));
        assert(values.remove(i).last() == values.last());
    }
}

/// A number replaced changes the sum by the difference.
pub(crate) proof fn lemma_seq_sum_update(values: Seq<nat>, i: int, x: nat)
    requires
        0 <= i < values.len(),
    ensures
        seq_sum(values.update(i, x)) + values[i] == seq_sum(values) + x,
    decreases values.len(),
{
    if i == values.len() - 1 {
        assert(values.update(i, x).drop_last() =~= values.drop_last());
    } else {
        lemma_seq_sum_update(values.drop_last(), i, x);
        assert(values.update(i, x).drop_last() =~= values.drop_last().update(i, x));
    }
}

/// Two tables that agree on every one of `names` give them the same sum.
pub(crate) proof fn lemma_listed_sum_agree(
    names: Seq<Seq<u8>>,
    a: Map<Seq<u8>, nat>,
    b: Map<Seq<u8>, nat>,
)
    requires
        forall|i: int|
            0 <= i < names.len() ==> a.dom().contains(#[trigger] names[i]) == b.dom().contains(
                names[i],
            ) && (a.dom().contains(names[i]) ==> a[names[i]] == b[names[i]]),
    ensures
        listed_sum(names, a) == listed_sum(names, b),
    decreases names.len(),
{
    if names.len() > 0 {
        assert forall|i: int| 0 <= i < names.drop_last().len() implies a.dom().contains(
            #[trigger] names.drop_last()[i],
        ) == b.dom().contains(names.drop_last()[i]) && (a.dom().contains(names.drop_last()[i])
            ==> a[names.drop_last()[i]] == b[names.drop_last()[i]]) by {
            assert(names.drop_last()[i] == names[i]);
        }
        lemma_listed_sum_agree(names.drop_last(), a, b);
        assert(names.last() == names[names.len() - 1]);
    }
}

/// Distinct names cannot be given more than the table holds.
pub(crate) proof fn lemma_listed_sum_bound(
    names: Seq<Seq<u8>>,
    keys: Seq<Seq<u8>>,
    weights: Seq<nat>,
)
    requires
        names.no_duplicates(),
        keys.no_duplicates(),
        keys.len() == weights.len(),
    ensures
        listed_sum(names, table_of(keys, weights)) <= seq_sum(weights),
    decreases names.len(),
{
    let budget = table_of(keys, weights);
    if names.len() > 0 {
        let rest = names.drop_last();
        let last = names.last();
        assert(rest.no_duplicates()) by {
            assert forall|a: int, b: int|
                0 <= a < rest.len() && 0 <= b < rest.len() && a != b implies rest[a]
                != rest[b] by {
                assert(rest[a] == names[a] && rest[b] == names[b]);
            }
        }
        if keys.contains(last) {
            let at = keys.index_of(last);
            let keys2 = keys.remove(at);
            let weights2 = weights.remove(at);
            let budget2 = table_of(keys2, weights2);
            assert(keys2.no_duplicates()) by {
                assert forall|a: int, b: int|
                    0 <= a < keys2.len() && 0 <= b < keys2.len() && a != b implies keys2[a]
                    != keys2[b] by {
                    let a0 = if a < at {
                        a
                    } else {
                        a + 1
                    };
                    let b0 = if b < at {
                        b
                    } else {
                        b + 1
                    };
                    assert(keys2[a] == keys[a0] && keys2[b] == keys[b0]);
                }
            }
            assert forall|i: int| 0 <= i < rest.len() implies budget.dom().contains(
                #[trigger] rest[i],
            ) == budget2.dom().contains(rest[i]) && (budget.dom().contains(rest[i])
                ==> budget[rest[i]] == budget2[rest[i]]) by {
                let k = rest[i];
                assert(k == names[i]);
                assert(k != last);
                if keys.contains(k) {
                    let p = keys.index_of(k);
                    assert(p != at);
                    let shifted = if p < at {
                        p
                    } else {
                        p - 1
                    };
                    assert(keys2[shifted] == k);
                    lemma_index_of(keys2, shifted);
                    assert(weights2[shifted] == weights[p]);
                }
                if keys2.contains(k) {
                    let shifted = keys2.index_of(k);
                    let p = if shifted < at {
                        shifted
                    } else {
                        shifted + 1
                    };
                    assert(keys[p] == k);
                    lemma_index_of(keys, p);
                }
            }
            lemma_listed_sum_agree(rest, budget, budget2);
            lemma_listed_sum_bound(rest, keys2, weights2);
            lemma_seq_sum_remove(weights, at);
        } else {
            lemma_listed_sum_bound(rest, keys, weights);
        }
    }
}

/// Among distinct names, a name is found where it stands.
pub(crate) proof fn lemma_index_of(keys: Seq<Seq<u8>>, i: int)
    requires
        keys.no_duplicates(),
        0 <= i < keys.len(),
    ensures
        keys.contains(keys[i]),
        keys.index_of(keys[i]) == i,
{
    assert(keys.contains(keys[i]));
    let k = keys.index_of(keys[i]);
    assert(0 <= k < keys.len() && keys[k] == keys[i]);
}

} // verus!
