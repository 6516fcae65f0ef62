//! What holds of the score when time is added to one category.

use crate::ideals::Ideals;
use crate::score::points_denominator;
use crate::score::points_numerator;
use crate::sums::lemma_listed_sum_bound;
use crate::sums::lemma_seq_sum_bound;
use crate::sums::lemma_seq_sum_push;
use crate::sums::lemma_seq_sum_update;
use crate::sums::listed_sum;
use crate::sums::seq_sum;
use crate::sums::table_of;
use crate::score::share;
use crate::score::shares;
use crate::score::slop_key;
use crate::score::weights_of;
use vstd::prelude::*;

verus! {

/// Whether the budget gives `name` an ideal share: it lists the category,
/// and the category is not `slop`.
pub open spec fn credited(name: Seq<u8>, ideals: Map<Seq<u8>, u64>) -> bool {
    name != slop_key() && ideals.dom().contains(name)
}

/// The shares of some categories are at most the weights that the budget
/// gives them, times the tracked time; and where the category at `j` is
/// below its ideal, they fall short of it by at least as much as that
/// category does.
proof fn lemma_shares_below_budget(
    names: Seq<Seq<u8>>,
    values: Seq<nat>,
    time_total: nat,
    ideals: Map<Seq<u8>, u64>,
    ideal_total: nat,
    budget: Map<Seq<u8>, nat>,
    j: int,
    gap: nat,
)
    requires
        names.len() == values.len(),
        budget.dom() == ideals.dom(),
        forall|k: Seq<u8>| ideals.dom().contains(k) ==> budget[k] == ideals[k] as nat,
        0 <= j,
        j < names.len() ==> credited(names[j], ideals) && values[j] * ideal_total + gap
            == ideals[names[j]] * time_total,
    ensures
        shares(names, values, time_total, ideals, ideal_total) + (if j < names.len() {
            gap
        } else {
            0
        }) <= listed_sum(names, budget) * time_total,
    decreases names.len(),
{
    if names.len() > 0 {
        let rest = names.drop_last();
        let last = names.last();
        lemma_shares_below_budget(
            rest,
            values.drop_last(),
            time_total,
            ideals,
            ideal_total,
            budget,
            j,
            gap,
        );
        let before = listed_sum(rest, budget);
        let w: nat = if budget.dom().contains(last) {
            budget[last]
        } else {
            0
        };
        assert((before + w) * time_total == before * time_total + w * time_total)
            by (nonlinear_arith);
        assert(0 <= w * time_total) by (nonlinear_arith);
    } else {
        assert(0 * time_total == 0) by (nonlinear_arith);
    }
}

/// A share does not shrink when the tracked time grows.
proof fn lemma_share_grows(
    name: Seq<u8>,
    value: nat,
    t1: nat,
    t2: nat,
    ideals: Map<Seq<u8>, u64>,
    ideal_total: nat,
)
    requires
        t1 <= t2,
    ensures
        share(name, value, t1, ideals, ideal_total) <= share(name, value, t2, ideals, ideal_total),
{
    if credited(name, ideals) {
        let w = ideals[name] as nat;
        assert(w * t1 <= w * t2) by (nonlinear_arith)
            requires
                t1 <= t2,
        ;
    }
}

/// With the time of the other categories unchanged, their shares of the
/// grown total, taken over the old total, are at most their old shares
/// over the grown total.
proof fn lemma_share_crosses(
    name: Seq<u8>,
    value: nat,
    t1: nat,
    t2: nat,
    ideals: Map<Seq<u8>, u64>,
    ideal_total: nat,
)
    requires
        t1 <= t2,
    ensures
        share(name, value, t2, ideals, ideal_total) * t1 <= share(
            name,
            value,
            t1,
            ideals,
            ideal_total,
        ) * t2,
{
    if credited(name, ideals) {
        let w = ideals[name] as nat;
        let by_time = value * ideal_total;
        let s1 = share(name, value, t1, ideals, ideal_total);
        let s2 = share(name, value, t2, ideals, ideal_total);
        assert(s2 <= by_time);
        assert(s2 <= w * t2);
        assert(s2 * t1 <= by_time * t2) by (nonlinear_arith)
            requires
                s2 <= by_time,
                t1 <= t2,
        ;
        assert(s2 * t1 <= (w * t1) * t2) by (nonlinear_arith)
            requires
                s2 <= w * t2,
        ;
    } else {
        assert(0 * t1 == 0 && 0 * t2 == 0) by (nonlinear_arith);
    }
}

/// The shares before and after `delta` seconds were added to the category
/// at `j`, which was below its ideal and is not above it afterwards.
proof fn lemma_shares_after_gain(
    names: Seq<Seq<u8>>,
    values: Seq<nat>,
    ideals: Map<Seq<u8>, u64>,
    ideal_total: nat,
    t1: nat,
    j: int,
    delta: nat,
)
    requires
        names.len() == values.len(),
        0 <= j,
        j < names.len() ==> {
            &&& credited(names[j], ideals)
            &&& values[j] * ideal_total <= ideals[names[j]] * t1
            &&& (values[j] + delta) * ideal_total <= ideals[names[j]] * (t1 + delta)
        },
    ensures
        ({
            let after = if j < values.len() {
                values.update(j, values[j] + delta)
            } else {
                values
            };
            let old_shares = shares(names, values, t1, ideals, ideal_total);
            let new_shares = shares(names, after, t1 + delta, ideals, ideal_total);
            new_shares * t1 + delta * old_shares >= old_shares * (t1 + delta) + if j
                < names.len() {
                delta * (ideal_total * t1)
            } else {
                0
            }
        }),
    decreases names.len(),
{
    let t2 = t1 + delta;
    let after = if j < values.len() {
        values.update(j, values[j] + delta)
    } else {
        values
    };
    if names.len() > 0 {
        let n = names.len() - 1;
        let rest = names.drop_last();
        let old_rest = shares(rest, values.drop_last(), t1, ideals, ideal_total);
        let new_rest = shares(rest, after.drop_last(), t2, ideals, ideal_total);
        let s1 = share(names.last(), values.last(), t1, ideals, ideal_total);
        let s2 = share(names.last(), after.last(), t2, ideals, ideal_total);
        if j < n {
            assert(after.drop_last() =~= values.drop_last().update(j, values[j] + delta));
            lemma_shares_after_gain(rest, values.drop_last(), ideals, ideal_total, t1, j, delta);
        } else {
            assert(after.drop_last() =~= values.drop_last());
            lemma_shares_after_gain(rest, values.drop_last(), ideals, ideal_total, t1, j, delta);
        }
        if j == n {
            let v = values[j];
            assert(s1 == v * ideal_total);
            assert(s2 == (v + delta) * ideal_total);
            assert(s2 * t1 + delta * s1 == s1 * t2 + delta * (ideal_total * t1))
                by (nonlinear_arith)
                requires
                    s1 == v * ideal_total,
                    s2 == (v + delta) * ideal_total,
                    t2 == t1 + delta,
            ;
        } else {
            assert(after.last() == values.last());
            lemma_share_grows(names.last(), values.last(), t1, t2, ideals, ideal_total);
            assert(s2 * t1 + delta * s1 >= s1 * t2) by (nonlinear_arith)
                requires
                    s1 <= s2,
                    t2 == t1 + delta,
            ;
        }
        assert((new_rest + s2) * t1 + delta * (old_rest + s1) == (new_rest * t1 + delta
            * old_rest) + (s2 * t1 + delta * s1)) by (nonlinear_arith);
        assert((old_rest + s1) * t2 == old_rest * t2 + s1 * t2) by (nonlinear_arith);
    } else {
        assert(0 * t1 + delta * 0 >= 0 * t2) by (nonlinear_arith);
    }
}

/// The shares before and after `delta` seconds were added to the category
/// at `j`, which the budget does not credit or which is at or above its
/// ideal.
proof fn lemma_shares_after_excess(
    names: Seq<Seq<u8>>,
    values: Seq<nat>,
    ideals: Map<Seq<u8>, u64>,
    ideal_total: nat,
    t1: nat,
    j: int,
    delta: nat,
)
    requires
        names.len() == values.len(),
        0 <= j,
        j < names.len() && credited(names[j], ideals) ==> {
            &&& values[j] * ideal_total >= ideals[names[j]] * t1
            &&& ideals[names[j]] <= ideal_total
        },
    ensures
        ({
            let after = if j < values.len() {
                values.update(j, values[j] + delta)
            } else {
                values
            };
            shares(names, after, t1 + delta, ideals, ideal_total) * t1 <= shares(
                names,
                values,
                t1,
                ideals,
                ideal_total,
            ) * (t1 + delta)
        }),
    decreases names.len(),
{
    let t2 = t1 + delta;
    let after = if j < values.len() {
        values.update(j, values[j] + delta)
    } else {
        values
    };
    if names.len() > 0 {
        let n = names.len() - 1;
        let rest = names.drop_last();
        let old_rest = shares(rest, values.drop_last(), t1, ideals, ideal_total);
        let new_rest = shares(rest, after.drop_last(), t2, ideals, ideal_total);
        let s1 = share(names.last(), values.last(), t1, ideals, ideal_total);
        let s2 = share(names.last(), after.last(), t2, ideals, ideal_total);
        if j < n {
            assert(after.drop_last() =~= values.drop_last().update(j, values[j] + delta));
        } else {
            assert(after.drop_last() =~= values.drop_last());
        }
        lemma_shares_after_excess(rest, values.drop_last(), ideals, ideal_total, t1, j, delta);
        if j == n {
            if credited(names[j], ideals) {
                let v = values[j];
                let w = ideals[names[j]] as nat;
                assert((v + delta) * ideal_total >= w * t2) by (nonlinear_arith)
                    requires
                        v * ideal_total >= w * t1,
                        w <= ideal_total,
                        t2 == t1 + delta,
                ;
                assert(s1 == w * t1);
                assert(s2 == w * t2);
                assert((w * t2) * t1 == (w * t1) * t2) by (nonlinear_arith);
            } else {
                assert(0 * t1 == 0 && 0 * t2 == 0) by (nonlinear_arith);
            }
        } else {
            assert(after.last() == values.last());
            lemma_share_crosses(names.last(), values.last(), t1, t2, ideals, ideal_total);
        }
        assert((new_rest + s2) * t1 == new_rest * t1 + s2 * t1) by (nonlinear_arith);
        assert((old_rest + s1) * t2 == old_rest * t2 + s1 * t2) by (nonlinear_arith);
    } else {
        assert(0 * t1 == 0 && 0 * t2 == 0) by (nonlinear_arith);
    }
}

/// How two scores compare when the sums of their shares, each taken over
/// the other's total time, compare as `shares_b * time_a` and
/// `shares_a * time_b` do.
proof fn lemma_cross_products(
    shares_a: nat,
    time_a: nat,
    shares_b: nat,
    time_b: nat,
    ideal_total: nat,
    slop: nat,
)
    ensures
        ({
            let num_a = 100_000_000 * shares_a + slop * (time_a * ideal_total);
            let den_a = 1_000_000 * (time_a * ideal_total);
            let num_b = 100_000_000 * shares_b + slop * (time_b * ideal_total);
            let den_b = 1_000_000 * (time_b * ideal_total);
            num_b * den_a - num_a * den_b == 100_000_000_000_000 * (ideal_total * (shares_b
                * time_a - shares_a * time_b))
        }),
{
    let pa = time_a * ideal_total;
    let pb = time_b * ideal_total;
    let num_a = 100_000_000 * shares_a + slop * pa;
    let den_a = 1_000_000 * pa;
    let num_b = 100_000_000 * shares_b + slop * pb;
    let den_b = 1_000_000 * pb;
    assert(num_b * den_a == 100_000_000_000_000 * (shares_b * pa) + 1_000_000 * (slop * (pb
        * pa))) by (nonlinear_arith)
        requires
            num_b == 100_000_000 * shares_b + slop * pb,
            den_a == 1_000_000 * pa,
    ;
    assert(num_a * den_b == 100_000_000_000_000 * (shares_a * pb) + 1_000_000 * (slop * (pa
        * pb))) by (nonlinear_arith)
        requires
            num_a == 100_000_000 * shares_a + slop * pa,
            den_b == 1_000_000 * pb,
    ;
    assert(pb * pa == pa * pb) by (nonlinear_arith);
    assert(shares_b * pa == ideal_total * (shares_b * time_a)) by (nonlinear_arith)
        requires
            pa == time_a * ideal_total,
    ;
    assert(shares_a * pb == ideal_total * (shares_a * time_b)) by (nonlinear_arith)
        requires
            pb == time_b * ideal_total,
    ;
    assert(ideal_total * (shares_b * time_a - shares_a * time_b) == ideal_total * (shares_b
        * time_a) - ideal_total * (shares_a * time_b)) by (nonlinear_arith);
}

/// The budget of a snapshot, with its weights as numbers.
proof fn lemma_budget_of(ideals: Ideals)
    requires
        ideals.wf(),
    ensures
        table_of(ideals.keys(), weights_of(ideals.weights@)).dom() == ideals@.dom(),
        forall|k: Seq<u8>|
            ideals@.dom().contains(k) ==> table_of(
                ideals.keys(),
                weights_of(ideals.weights@),
            )[k] == ideals@[k] as nat && ideals@[k] <= seq_sum(weights_of(ideals.weights@)),
{
    let budget = table_of(ideals.keys(), weights_of(ideals.weights@));
    assert(budget.dom() =~= ideals@.dom());
    assert forall|k: Seq<u8>| ideals@.dom().contains(k) implies budget[k] == ideals@[k] as nat
        && ideals@[k] <= seq_sum(weights_of(ideals.weights@)) by {
        let at = ideals.keys().index_of(k);
        lemma_seq_sum_bound(weights_of(ideals.weights@), at);
    }
}

/// Scorer monotonicity, below the ideal: adding time to a category whose
/// share of the time is below its share of the budget, and does not rise
/// above it by the addition, strictly increases the score.
///
/// The two scores are compared as fractions, by cross-multiplication.
pub proof fn law_more_time_below_ideal_scores_higher(
    names: Seq<Seq<u8>>,
    values: Seq<nat>,
    ideals: Ideals,
    j: int,
    delta: nat,
)
    requires
        names.len() == values.len(),
        names.no_duplicates(),
        ideals.wf(),
        0 <= j < names.len(),
        delta > 0,
        credited(names[j], ideals@),
        values[j] * seq_sum(weights_of(ideals.weights@)) < ideals@[names[j]] * seq_sum(values),
        (values[j] + delta) * seq_sum(weights_of(ideals.weights@)) <= ideals@[names[j]] * (
        seq_sum(values) + delta),
    ensures
        ({
            let after = values.update(j, values[j] + delta);
            let ideal_total = seq_sum(weights_of(ideals.weights@));
            points_numerator(names, after, ideals@, ideal_total) * points_denominator(
                values,
                ideal_total,
            ) > points_numerator(names, values, ideals@, ideal_total) * points_denominator(
                after,
                ideal_total,
            )
        }),
{
    let after = values.update(j, values[j] + delta);
    let ideal_total = seq_sum(weights_of(ideals.weights@));
    let t1 = seq_sum(values);
    let t2 = t1 + delta;
    let w = ideals@[names[j]] as nat;
    let c1 = shares(names, values, t1, ideals@, ideal_total);
    let c2 = shares(names, after, t2, ideals@, ideal_total);
    let slop = ideals@[slop_key()] as nat;
    let budget = table_of(ideals.keys(), weights_of(ideals.weights@));
    lemma_seq_sum_update(values, j, values[j] + delta);
    assert(seq_sum(after) == t2);
    lemma_budget_of(ideals);
    let v = values[j];
    assert(t1 > 0 && w > 0) by (nonlinear_arith)
        requires
            v * ideal_total < w * t1,
            0 <= v,
            0 <= ideal_total,
            0 <= w,
            0 <= t1,
    ;
    assert(ideal_total > 0);
    let gap = (w * t1 - values[j] * ideal_total) as nat;
    lemma_shares_below_budget(names, values, t1, ideals@, ideal_total, budget, j, gap);
    lemma_listed_sum_bound(names, ideals.keys(), weights_of(ideals.weights@));
    assert(listed_sum(names, budget) * t1 <= ideal_total * t1) by (nonlinear_arith)
        requires
            listed_sum(names, budget) <= ideal_total,
    ;
    assert(c1 < ideal_total * t1);
    lemma_shares_after_gain(names, values, ideals@, ideal_total, t1, j, delta);
    assert(c1 * t2 == c1 * t1 + c1 * delta) by (nonlinear_arith)
        requires
            t2 == t1 + delta,
    ;
    assert(delta * c1 < delta * (ideal_total * t1)) by (nonlinear_arith)
        requires
            c1 < ideal_total * t1,
            delta > 0,
    ;
    assert(c2 * t1 > c1 * t2);
    lemma_cross_products(c1, t1, c2, t2, ideal_total, slop);
    assert(ideal_total * (c2 * t1 - c1 * t2) > 0) by (nonlinear_arith)
        requires
            ideal_total > 0,
            c2 * t1 - c1 * t2 > 0,
    ;
}

/// Scorer monotonicity, at or above the ideal: adding time to a category
/// whose share of the time is not below its share of the budget, or which
/// the budget does not credit, does not increase the score.
///
/// The two scores are compared as fractions, by cross-multiplication.
pub proof fn law_more_time_above_ideal_scores_no_higher(
    names: Seq<Seq<u8>>,
    values: Seq<nat>,
    ideals: Ideals,
    j: int,
    delta: nat,
)
    requires
        names.len() == values.len(),
        ideals.wf(),
        0 <= j < names.len(),
        seq_sum(values) > 0,
        credited(names[j], ideals@) ==> values[j] * seq_sum(weights_of(ideals.weights@))
            >= ideals@[names[j]] * seq_sum(values),
    ensures
        ({
            let after = values.update(j, values[j] + delta);
            let ideal_total = seq_sum(weights_of(ideals.weights@));
            points_numerator(names, after, ideals@, ideal_total) * points_denominator(
                values,
                ideal_total,
            ) <= points_numerator(names, values, ideals@, ideal_total) * points_denominator(
                after,
                ideal_total,
            )
        }),
{
    let after = values.update(j, values[j] + delta);
    let ideal_total = seq_sum(weights_of(ideals.weights@));
    let t1 = seq_sum(values);
    let t2 = t1 + delta;
    let c1 = shares(names, values, t1, ideals@, ideal_total);
    let c2 = shares(names, after, t2, ideals@, ideal_total);
    let slop = ideals@[slop_key()] as nat;
    lemma_seq_sum_update(values, j, values[j] + delta);
    assert(seq_sum(after) == t2);
    if ideal_total > 0 {
        lemma_budget_of(ideals);
        lemma_shares_after_excess(names, values, ideals@, ideal_total, t1, j, delta);
        lemma_cross_products(c1, t1, c2, t2, ideal_total, slop);
        assert(ideal_total * (c2 * t1 - c1 * t2) <= 0) by (nonlinear_arith)
            requires
                ideal_total > 0,
                c2 * t1 - c1 * t2 <= 0,
        ;
    }
}

/// A category without time does not change the score.
pub proof fn law_category_without_time_is_neutral(
    names: Seq<Seq<u8>>,
    values: Seq<nat>,
    ideals: Ideals,
    name: Seq<u8>,
)
    requires
        names.len() == values.len(),
    ensures
        ({
            let ideal_total = seq_sum(weights_of(ideals.weights@));
            &&& points_numerator(names.push(name), values.push(0), ideals@, ideal_total)
                == points_numerator(names, values, ideals@, ideal_total)
            &&& points_denominator(values.push(0), ideal_total) == points_denominator(
                values,
                ideal_total,
            )
        }),
{
    let ideal_total = seq_sum(weights_of(ideals.weights@));
    lemma_seq_sum_push(values, 0);
    assert(names.push(name).drop_last() =~= names);
    assert(values.push(0).drop_last() =~= values);
    assert(0 * ideal_total == 0) by (nonlinear_arith);
}

} // verus!