//! What adding time to a tree does to its score.

use crate::ideals::Ideals;
use crate::order::lemma_ascending_distinct;
use crate::order::lemma_ascending_unique;
use crate::order::lex_le;
use crate::order::strictly_ascending;
use crate::score::lemma_values_sum;
use crate::score::shares;
use crate::score::tree_denominator;
use crate::score::tree_numerator;
use crate::score::values_of;
use crate::score::weights_of;
use crate::score_laws::credited;
use crate::score_laws::law_more_time_above_ideal_scores_no_higher;
use crate::score_laws::law_more_time_below_ideal_scores_higher;
use crate::sums::lemma_index_of;
use crate::sums::seq_sum;
use crate::tree_node::add_path;
use crate::tree_node::lemma_absent_is_zero;
use crate::tree_node::TreeNode;
use vstd::prelude::*;

verus! {

/// The children of a tree are the paths of one name that its view holds.
pub(crate) proof fn lemma_names_from_view(tree: TreeNode, x: Seq<u8>)
    requires
        tree.keys@.len() == tree.children@.len(),
    ensures
        tree.names().contains(x) <==> tree@.dom().contains(seq![x]),
{
    reveal_with_fuel(TreeNode::contains, 2);
    assert(seq![x][0] == x);
    assert(seq![x].drop_first() =~= Seq::<Seq<u8>>::empty());
}

/// The seconds at the path of a child's name are the child's value.
pub(crate) proof fn lemma_child_value(tree: TreeNode, i: int)
    requires
        tree.keys@.len() == tree.children@.len(),
        strictly_ascending(tree.names()),
        0 <= i < tree.children@.len(),
    ensures
        tree.seconds(seq![tree.names()[i]]) == tree.children@[i].value,
        tree@.dom().contains(seq![tree.names()[i]]),
{
    let x = tree.names()[i];
    reveal_with_fuel(TreeNode::seconds, 2);
    lemma_ascending_distinct(tree.names());
    lemma_index_of(tree.names(), i);
    lemma_names_from_view(tree, x);
    assert(seq![x][0] == x);
    assert(seq![x].drop_first() =~= Seq::<Seq<u8>>::empty());
}

/// A path of one name begins a path of three where it is the first of them.
pub(crate) proof fn lemma_single_prefix(x: Seq<u8>, path: Seq<Seq<u8>>)
    requires
        path.len() == 3,
    ensures
        seq![x].is_prefix_of(path) <==> x == path[0],
{
    if x == path[0] {
        assert(seq![x] =~= path.subrange(0, 1));
    }
    if seq![x].is_prefix_of(path) {
        assert(path.subrange(0, 1)[0] == seq![x][0]);
    }
}

/// What adding time along a path does to the children of the root: the
/// child that the path begins with gains the time, and comes to stand in
/// its place among the names if it was not there.
pub(crate) proof fn lemma_insert_effect(o: TreeNode, n: TreeNode, path: Seq<Seq<u8>>, delta: nat)
    requires
        o.wf(3),
        n.wf(3),
        path.len() == 3,
        n@ == add_path(o@, path, delta),
    ensures
        n.names().contains(path[0]),
        o.names().contains(path[0]) ==> n.names() == o.names() && values_of(n.children@)
            == values_of(o.children@).update(
            o.names().index_of(path[0]),
            values_of(o.children@)[o.names().index_of(path[0])] + delta,
        ),
        !o.names().contains(path[0]) ==> n.names() == o.names().insert(
            n.names().index_of(path[0]),
            path[0],
        ) && values_of(n.children@) == values_of(o.children@).insert(
            n.names().index_of(path[0]),
            delta,
        ) && n.names().index_of(path[0]) <= o.names().len(),
{
    let major = path[0];
    assert forall|x: Seq<u8>| n.names().contains(x) <==> (o.names().contains(x) || x == major) by {
        lemma_names_from_view(o, x);
        lemma_names_from_view(n, x);
        lemma_single_prefix(x, path);
    }
    assert(n.names().contains(major));
    lemma_ascending_distinct(o.names());
    lemma_ascending_distinct(n.names());
    let old_values = values_of(o.children@);
    let new_values = values_of(n.children@);
    if o.names().contains(major) {
        lemma_ascending_unique(o.names(), n.names());
        let j = o.names().index_of(major);
        assert forall|i: int| 0 <= i < new_values.len() implies new_values[i] == old_values.update(
            j,
            old_values[j] + delta,
        )[i] by {
            lemma_child_value(o, i);
            lemma_child_value(n, i);
            lemma_single_prefix(o.names()[i], path);
            lemma_index_of(o.names(), i);
            assert(n@[seq![n.names()[i]]] == n.seconds(seq![n.names()[i]]));
            assert(o@[seq![o.names()[i]]] == o.seconds(seq![o.names()[i]]));
        }
        assert(new_values =~= old_values.update(j, old_values[j] + delta));
    } else {
        let at = n.names().index_of(major);
        let rest = n.names().remove(at);
        assert(strictly_ascending(rest)) by {
            assert forall|i: int, j: int| 0 <= i < j < rest.len() implies lex_le(
                #[trigger] rest[i],
                #[trigger] rest[j],
            ) && rest[i] != rest[j] by {
                let i0 = if i < at {
                    i
                } else {
                    i + 1
                };
                let j0 = if j < at {
                    j
                } else {
                    j + 1
                };
                assert(rest[i] == n.names()[i0] && rest[j] == n.names()[j0]);
            }
        }
        assert forall|x: Seq<u8>| rest.contains(x) <==> o.names().contains(x) by {
            if rest.contains(x) {
                let i = rest.index_of(x);
                let i0 = if i < at {
                    i
                } else {
                    i + 1
                };
                assert(n.names()[i0] == x);
                assert(n.names().contains(x));
                assert(x != major);
            }
            if o.names().contains(x) {
                assert(n.names().contains(x));
                let i0 = n.names().index_of(x);
                assert(i0 != at);
                let i = if i0 < at {
                    i0
                } else {
                    i0 - 1
                };
                assert(rest[i] == x);
            }
        }
        lemma_ascending_unique(rest, o.names());
        assert(n.names() =~= o.names().insert(at, major));
        assert forall|i: int| 0 <= i < new_values.len() implies new_values[i] == old_values.insert(
            at,
            delta,
        )[i] by {
            lemma_child_value(n, i);
            lemma_single_prefix(n.names()[i], path);
            assert(n@[seq![n.names()[i]]] == n.seconds(seq![n.names()[i]]));
            if i != at {
                let i0 = if i < at {
                    i
                } else {
                    i - 1
                };
                lemma_child_value(o, i0);
                assert(o@[seq![o.names()[i0]]] == o.seconds(seq![o.names()[i0]]));
            } else {
                lemma_names_from_view(o, major);
            }
        }
        assert(new_values =~= old_values.insert(at, delta));
    }
}

/// A category without time in any place among the others does not change
/// the shares nor the total.
pub(crate) proof fn lemma_insert_without_time(
    names: Seq<Seq<u8>>,
    values: Seq<nat>,
    at: int,
    name: Seq<u8>,
    time_total: nat,
    budget: Map<Seq<u8>, u64>,
    ideal_total: nat,
)
    requires
        names.len() == values.len(),
        0 <= at <= names.len(),
    ensures
        shares(names.insert(at, name), values.insert(at, 0), time_total, budget, ideal_total)
            == shares(names, values, time_total, budget, ideal_total),
        seq_sum(values.insert(at, 0)) == seq_sum(values),
    decreases names.len() - at,
{
    let more_names = names.insert(at, name);
    let more_values = values.insert(at, 0);
    if at == names.len() {
        assert(more_names.drop_last() =~= names);
        assert(more_values.drop_last() =~= values);
        assert(0 * ideal_total == 0) by (nonlinear_arith);
    } else {
        lemma_insert_without_time(
            names.drop_last(),
            values.drop_last(),
            at,
            name,
            time_total,
            budget,
            ideal_total,
        );
        assert(more_names.drop_last() =~= names.drop_last().insert(at, name));
        assert(more_values.drop_last() =~= values.drop_last().insert(at, 0));
        assert(more_names.last() == names.last());
        assert(more_values.last() == values.last());
    }
}

/// Scorer monotonicity of `insert`, below the ideal: where time is added
/// to a tree along a path whose category is credited by the budget, has a
/// share of the time below its share of the budget and is not lifted above
/// it by the addition, the score of the tree after the addition is greater
/// than before.
///
/// The two scores are compared as fractions, by cross-multiplication.
pub proof fn law_insert_below_ideal_scores_higher(
    before: TreeNode,
    after: TreeNode,
    budget: Ideals,
    path: Seq<Seq<u8>>,
    delta: nat,
)
    requires
        before.wf(3),
        after.wf(3),
        budget.wf(),
        path.len() == 3,
        after@ == add_path(before@, path, delta),
        delta > 0,
        credited(path[0], budget@),
        before.seconds(seq![path[0]]) * seq_sum(weights_of(budget.weights@)) < budget@[path[0]]
            * before.value,
        (before.seconds(seq![path[0]]) + delta) * seq_sum(weights_of(budget.weights@))
            <= budget@[path[0]] * (before.value + delta),
    ensures
        tree_numerator(after, budget) * tree_denominator(before, budget) > tree_numerator(
            before,
            budget,
        ) * tree_denominator(after, budget),
{
    let major = path[0];
    let names = before.names();
    let values = values_of(before.children@);
    let ideal_total = seq_sum(weights_of(budget.weights@));
    lemma_insert_effect(before, after, path, delta);
    lemma_values_sum(before.children@);
    lemma_ascending_distinct(before.names());
    lemma_ascending_distinct(after.names());
    if names.contains(major) {
        let j = names.index_of(major);
        lemma_child_value(before, j);
        law_more_time_below_ideal_scores_higher(names, values, budget, j, delta);
    } else {
        let at = after.names().index_of(major);
        let more_names = names.insert(at, major);
        let more_values = values.insert(at, 0);
        lemma_names_from_view(before, major);
        lemma_absent_is_zero(before, seq![major]);
        lemma_insert_without_time(
            names,
            values,
            at,
            major,
            seq_sum(values),
            budget@,
            ideal_total,
        );
        assert(more_values.update(at, more_values[at] + delta) =~= values.insert(at, delta));
        law_more_time_below_ideal_scores_higher(more_names, more_values, budget, at, delta);
    }
}

/// Scorer monotonicity of `insert`, at or above the ideal: where time is
/// added to a tree that holds time already, along a path whose category
/// the budget does not credit or whose share of the time is not below its
/// share of the budget, the score of the tree after the addition is not
/// greater than before.
///
/// The two scores are compared as fractions, by cross-multiplication.
pub proof fn law_insert_above_ideal_scores_no_higher(
    before: TreeNode,
    after: TreeNode,
    budget: Ideals,
    path: Seq<Seq<u8>>,
    delta: nat,
)
    requires
        before.wf(3),
        after.wf(3),
        budget.wf(),
        path.len() == 3,
        after@ == add_path(before@, path, delta),
        before.value > 0,
        credited(path[0], budget@) ==> before.seconds(seq![path[0]]) * seq_sum(
            weights_of(budget.weights@),
        ) >= budget@[path[0]] * before.value,
    ensures
        tree_numerator(after, budget) * tree_denominator(before, budget) <= tree_numerator(
            before,
            budget,
        ) * tree_denominator(after, budget),
{
    let major = path[0];
    let names = before.names();
    let values = values_of(before.children@);
    let ideal_total = seq_sum(weights_of(budget.weights@));
    lemma_insert_effect(before, after, path, delta);
    lemma_values_sum(before.children@);
    if names.contains(major) {
        let j = names.index_of(major);
        lemma_child_value(before, j);
        law_more_time_above_ideal_scores_no_higher(names, values, budget, j, delta);
    } else {
        let at = after.names().index_of(major);
        let more_names = names.insert(at, major);
        let more_values = values.insert(at, 0);
        lemma_names_from_view(before, major);
        lemma_absent_is_zero(before, seq![major]);
        lemma_insert_without_time(
            names,
            values,
            at,
            major,
            seq_sum(values),
            budget@,
            ideal_total,
        );
        assert(more_values.update(at, more_values[at] + delta) =~= values.insert(at, delta));
        assert(0 * ideal_total == 0) by (nonlinear_arith);
        law_more_time_above_ideal_scores_no_higher(more_names, more_values, budget, at, delta);
    }
}

} // verus!
