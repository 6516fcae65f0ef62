//! The scoring model: how well the time of a window meets the budget.
//!
//! Each category that the tree and the budget share is credited with its
//! actual percentage of the tracked time or with its ideal percentage of the
//! budget, whichever is smaller; the weight of `slop` is added as it stands.
//! The score is kept as an exact fraction.

use crate::ideals::Ideals;
use crate::sums::lemma_seq_sum_bound;
use crate::sums::lemma_seq_sum_prefix;
use crate::sums::seq_sum;
use crate::text::bytes_eq;
use crate::tree_node::child_sum;
use crate::tree_node::TreeNode;
use vstd::arithmetic::mul::lemma_mul_inequality;
use vstd::prelude::*;

verus! {

/// The category `slop`, whose weight is a bonus and not a share.
pub open spec fn slop_key() -> Seq<u8> {
    seq![115u8, 108u8, 111u8, 112u8]
}

/// The values of a sequence of nodes.
pub open spec fn values_of(children: Seq<TreeNode>) -> Seq<nat> {
    Seq::new(children.len(), |i: int| children[i].value as nat)
}

/// The weights of a budget as numbers.
pub open spec fn weights_of(weights: Seq<u64>) -> Seq<nat> {
    Seq::new(weights.len(), |i: int| weights[i] as nat)
}

/// What a category is credited with, as a multiple of
/// `1 / (time_total * ideal_total)` of a hundredth of the score: the smaller
/// of its share of the time and its share of the budget. A category that
/// the budget does not list, and `slop`, are credited with nothing.
pub open spec fn share(
    name: Seq<u8>,
    value: nat,
    time_total: nat,
    ideals: Map<Seq<u8>, u64>,
    ideal_total: nat,
) -> nat {
    if name != slop_key() && ideals.dom().contains(name) {
        let weight = ideals[name] as nat;
        if value * ideal_total <= weight * time_total {
            value * ideal_total
        } else {
            weight * time_total
        }
    } else {
        0
    }
}

/// The shares of the categories `names`, whose times are `values`, summed.
pub open spec fn shares(
    names: Seq<Seq<u8>>,
    values: Seq<nat>,
    time_total: nat,
    ideals: Map<Seq<u8>, u64>,
    ideal_total: nat,
) -> nat
    decreases names.len(),
{
    if names.len() == 0 || values.len() != names.len() {
        0
    } else {
        shares(names.drop_last(), values.drop_last(), time_total, ideals, ideal_total) + share(
            names.last(),
            values.last(),
            time_total,
            ideals,
            ideal_total,
        )
    }
}

/// The numerator of the score of the categories `names` with the times
/// `values` against the budget `ideals`, whose weights sum to `ideal_total`.
///
/// With `T` the sum of the times, `I` the sum of the weights and `S` the
/// scale of the weights, the score is
/// `sum(min(100 * v / T, 100 * w / I)) + slop / S`, which is brought over
/// the denominator `S * T * I`. Where no time was tracked or the budget
/// sums to nothing, no category is credited and the score is `slop / S`.
pub open spec fn points_numerator(
    names: Seq<Seq<u8>>,
    values: Seq<nat>,
    ideals: Map<Seq<u8>, u64>,
    ideal_total: nat,
) -> nat {
    let time_total = seq_sum(values);
    let slop = ideals[slop_key()] as nat;
    if time_total == 0 || ideal_total == 0 {
        slop
    } else {
        100_000_000 * shares(names, values, time_total, ideals, ideal_total) + slop * (time_total
            * ideal_total)
    }
}

/// The denominator that belongs to `points_numerator`.
pub open spec fn points_denominator(values: Seq<nat>, ideal_total: nat) -> nat {
    let time_total = seq_sum(values);
    if time_total == 0 || ideal_total == 0 {
        1_000_000
    } else {
        1_000_000 * (time_total * ideal_total)
    }
}

/// The bound that the numerator of a score never exceeds:
/// `(100 * S + slop) * T * I`. A score is computed where this fits 128 bits.
pub open spec fn points_bound(
    values: Seq<nat>,
    ideals: Map<Seq<u8>, u64>,
    ideal_total: nat,
) -> nat {
    (100_000_000 + ideals[slop_key()] as nat) * (seq_sum(values) * ideal_total)
}

/// A score as an exact fraction: `numerator / denominator` points.
#[derive(PartialEq, Eq, Structural, Clone, Copy, Debug)]
pub struct Score {
    pub numerator: u128,
    pub denominator: u128,
}

/// Why a window could not be scored.
#[derive(PartialEq, Eq, Structural, Clone, Copy, Debug)]
pub enum ScoreError {
    /// The budget has no entry `slop`.
    MissingSlop,
    /// The bound of the numerator, `(100 * S + slop) * T * I`, does not fit
    /// 128 bits.
    TooLarge,
}

/// The values of some nodes sum to their `child_sum`.
pub(crate) proof fn lemma_values_sum(children: Seq<TreeNode>)
    ensures
        seq_sum(values_of(children)) == child_sum(children),
    decreases children.len(),
{
    if children.len() > 0 {
        lemma_values_sum(children.drop_last());
        assert(values_of(children).drop_last() =~= values_of(children.drop_last()));
    }
}

/// Whether `name` is `slop`.
pub fn is_slop(name: &[u8]) -> (r: bool)
    ensures
        r == (name@ == slop_key()),
{
    let slop: Vec<u8> = vec![115u8, 108u8, 111u8, 112u8];
    assert(slop@ =~= slop_key());
    bytes_eq(name, slop.as_slice())
}

/// The sum of the weights of a budget.
pub fn weight_total(ideals: &Ideals) -> (total: u128)
    ensures
        total == seq_sum(weights_of(ideals.weights@)),
{
    let mut total: u128 = 0;
    let mut i: usize = 0;
    let ghost weights = weights_of(ideals.weights@);
    assert(weights.subrange(0, 0) =~= Seq::<nat>::empty());
    while i < ideals.weights.len()
        invariant
            0 <= i <= ideals.weights@.len(),
            weights == weights_of(ideals.weights@),
            total == seq_sum(weights.subrange(0, i as int)),
            total <= i * 0xffff_ffff_ffff_ffff,
        decreases ideals.weights@.len() - i,
    {
        assert(weights.subrange(0, i + 1).drop_last() =~= weights.subrange(0, i as int));
        assert(i * 0xffff_ffff_ffff_ffff + 0xffff_ffff_ffff_ffff <= u128::MAX) by (nonlinear_arith)
            requires
                i <= 0xffff_ffff_ffff_ffff,
        ;
        total = total + ideals.weights[i] as u128;
        i = i + 1;
    }
    assert(weights.subrange(0, i as int) =~= weights);
    total
}

/// The shares of the first categories never exceed their part of the
/// product of the two totals.
pub(crate) proof fn lemma_shares_bound(
    names: Seq<Seq<u8>>,
    values: Seq<nat>,
    time_total: nat,
    ideals: Map<Seq<u8>, u64>,
    ideal_total: nat,
)
    requires
        names.len() == values.len(),
    ensures
        shares(names, values, time_total, ideals, ideal_total) <= seq_sum(values) * ideal_total,
    decreases names.len(),
{
    if names.len() > 0 {
        lemma_shares_bound(
            names.drop_last(),
            values.drop_last(),
            time_total,
            ideals,
            ideal_total,
        );
        let before = seq_sum(values.drop_last());
        let last = values.last();
        assert((before + last) * ideal_total == before * ideal_total + last * ideal_total)
            by (nonlinear_arith);
    } else {
        assert(0 * ideal_total == 0) by (nonlinear_arith);
    }
}

/// The numerator of the score of a tree against a budget.
pub open spec fn tree_numerator(tree: TreeNode, budget: Ideals) -> nat {
    points_numerator(
        tree.names(),
        values_of(tree.children@),
        budget@,
        seq_sum(weights_of(budget.weights@)),
    )
}

/// The denominator of the score of a tree against a budget.
pub open spec fn tree_denominator(tree: TreeNode, budget: Ideals) -> nat {
    points_denominator(values_of(tree.children@), seq_sum(weights_of(budget.weights@)))
}

/// What scoring a tree against a budget gives: the score as a fraction,
/// or why there is none.
pub open spec fn score_of(tree: TreeNode, budget: Ideals) -> Result<Score, ScoreError> {
    if !budget@.dom().contains(slop_key()) {
        Err(ScoreError::MissingSlop)
    } else if points_bound(
        values_of(tree.children@),
        budget@,
        seq_sum(weights_of(budget.weights@)),
    ) > u128::MAX {
        Err(ScoreError::TooLarge)
    } else {
        Ok(
            Score {
                numerator: tree_numerator(tree, budget) as u128,
                denominator: tree_denominator(tree, budget) as u128,
            },
        )
    }
}

/// Scores the time of a tree against a budget.
pub fn get_points(tree: &TreeNode, ideal_proportions: &Ideals) -> (r: Result<Score, ScoreError>)
    requires
        tree.wf(3),
        ideal_proportions.wf(),
    ensures
        r == score_of(*tree, *ideal_proportions),
{
    let slop_name: Vec<u8> = vec![115u8, 108u8, 111u8, 112u8];
    assert(slop_name@ =~= slop_key());
    let slop: u64 = match ideal_proportions.get(slop_name.as_slice()) {
        Some(weight) => weight,
        None => {
            return Err(ScoreError::MissingSlop);
        },
    };
    let ghost names = tree.names();
    let ghost values = values_of(tree.children@);
    let ghost ideals = ideal_proportions@;
    let ghost weights = weights_of(ideal_proportions.weights@);
    let time_total: u128 = tree.value;
    let ideal_total: u128 = weight_total(ideal_proportions);
    proof {
        lemma_values_sum(tree.children@);
    }
    if time_total == 0 || ideal_total == 0 {
        assert((100_000_000 + slop as nat) * (time_total as nat * ideal_total as nat) == 0)
            by (nonlinear_arith)
            requires
                time_total == 0 || ideal_total == 0,
        ;
        return Ok(Score { numerator: slop as u128, denominator: 1_000_000 });
    }
    let factor: u128 = 100_000_000 + slop as u128;
    let product: u128 = match time_total.checked_mul(ideal_total) {
        Some(product) => product,
        None => {
            assert(factor * (time_total * ideal_total) > u128::MAX) by (nonlinear_arith)
                requires
                    time_total * ideal_total > u128::MAX,
                    factor >= 1,
            ;
            return Err(ScoreError::TooLarge);
        },
    };
    let cap: u128 = match factor.checked_mul(product) {
        Some(cap) => cap,
        None => {
            return Err(ScoreError::TooLarge);
        },
    };
    let mut credits: u128 = 0;
    let mut i: usize = 0;
    proof {
        assert(names.subrange(0, 0) =~= Seq::<Seq<u8>>::empty());
    }
    while i < tree.keys.len()
        invariant
            0 <= i <= tree.keys@.len(),
            tree.wf(3),
            ideal_proportions.wf(),
            names == tree.names(),
            values == values_of(tree.children@),
            ideals == ideal_proportions@,
            weights == weights_of(ideal_proportions.weights@),
            time_total == seq_sum(values),
            ideal_total == seq_sum(weights),
            product == time_total * ideal_total,
            credits == shares(
                names.subrange(0, i as int),
                values.subrange(0, i as int),
                time_total as nat,
                ideals,
                ideal_total as nat,
            ),
        decreases tree.keys@.len() - i,
    {
        let ghost done_names = names.subrange(0, i as int);
        let ghost done_values = values.subrange(0, i as int);
        let ghost next_names = names.subrange(0, i + 1);
        let ghost next_values = values.subrange(0, i + 1);
        proof {
            assert(next_names.drop_last() =~= done_names);
            assert(next_values.drop_last() =~= done_values);
            assert(next_names.last() == tree.keys@[i as int]@);
            assert(next_values.last() == tree.children@[i as int].value);
            lemma_shares_bound(
                next_names,
                next_values,
                time_total as nat,
                ideals,
                ideal_total as nat,
            );
            lemma_seq_sum_prefix(values, i + 1);
            lemma_mul_inequality(
                seq_sum(next_values) as int,
                time_total as int,
                ideal_total as int,
            );
            lemma_seq_sum_bound(values, i as int);
        }
        let name = tree.keys[i].as_slice();
        let value: u128 = tree.children[i].value;
        if !is_slop(name) {
            match ideal_proportions.get(name) {
                Some(weight) => {
                    proof {
                        let at = ideal_proportions.keys().index_of(name@);
                        assert(weights[at] == weight);
                        lemma_seq_sum_bound(weights, at);
                        lemma_mul_inequality(value as int, time_total as int, ideal_total as int);
                        lemma_mul_inequality(weight as int, ideal_total as int, time_total as int);
                        assert(ideal_total * time_total == time_total * ideal_total)
                            by (nonlinear_arith);
                    }
                    let by_time: u128 = value * ideal_total;
                    let by_budget: u128 = weight as u128 * time_total;
                    if by_time <= by_budget {
                        credits = credits + by_time;
                    } else {
                        credits = credits + by_budget;
                    }
                },
                None => {},
            }
        }
        i = i + 1;
    }
    proof {
        assert(names.subrange(0, i as int) =~= names);
        assert(values.subrange(0, i as int) =~= values);
        lemma_shares_bound(names, values, time_total as nat, ideals, ideal_total as nat);
        assert(factor * product == 100_000_000 * product + slop * product) by (nonlinear_arith)
            requires
                factor == 100_000_000 + slop,
        ;
    }
    Ok(
        Score {
            numerator: 100_000_000 * credits + slop as u128 * product,
            denominator: 1_000_000 * product,
        },
    )
}

} // verus!