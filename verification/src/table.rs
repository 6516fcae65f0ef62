//! The comparative table: for each category of the budget, the time spent
//! on it against the time that the budget asks for.

use crate::ideals::Ideals;
use crate::order::ascending;
use crate::order::bytes_le;
use crate::order::is_arrangement;
use crate::order::lemma_lex_total;
use crate::order::lemma_lex_transitive;
use crate::order::lex_le;
use crate::order::sort_positions;
use crate::order::Ranking;
use crate::score::is_slop;
use crate::score::lemma_values_sum;
use crate::score::slop_key;
use crate::score::values_of;
use crate::score::weight_total;
use crate::score::weights_of;
use crate::score::ScoreError;
use crate::sums::lemma_index_of;
use crate::sums::lemma_listed_sum_bound;
use crate::sums::lemma_seq_sum_bound;
use crate::sums::listed_sum;
use crate::sums::seq_sum;
use crate::sums::table_of;
use crate::text::bytes_eq;
use crate::text::to_vec;
use crate::text::views;
use crate::tree_node::TreeNode;
use crate::util::format_time;
use crate::util::time_text;
use vstd::arithmetic::mul::lemma_mul_inequality;
use vstd::prelude::*;

verus! {

/// Whether the ratio of `actual_a` to `weight_a` is at most that of
/// `actual_b` to `weight_b`. A category without weight has no ratio and
/// counts as greater than any that has one.
pub open spec fn ratio_le(actual_a: nat, weight_a: nat, actual_b: nat, weight_b: nat) -> bool {
    if weight_b == 0 {
        true
    } else if weight_a == 0 {
        false
    } else {
        actual_a * weight_b <= actual_b * weight_a
    }
}

/// Whether a row may stand before another: its ratio is smaller, or the
/// ratios are equal and its name is not the later one.
pub open spec fn row_before(
    name_a: Seq<u8>,
    actual_a: nat,
    weight_a: nat,
    name_b: Seq<u8>,
    actual_b: nat,
    weight_b: nat,
) -> bool {
    if !ratio_le(actual_b, weight_b, actual_a, weight_a) {
        true
    } else if !ratio_le(actual_a, weight_a, actual_b, weight_b) {
        false
    } else {
        lex_le(name_a, name_b)
    }
}

/// The order of ratios is transitive.
pub(crate) proof fn lemma_ratio_transitive(
    actual_a: nat,
    weight_a: nat,
    actual_b: nat,
    weight_b: nat,
    actual_c: nat,
    weight_c: nat,
)
    requires
        ratio_le(actual_a, weight_a, actual_b, weight_b),
        ratio_le(actual_b, weight_b, actual_c, weight_c),
    ensures
        ratio_le(actual_a, weight_a, actual_c, weight_c),
{
    if weight_c != 0 {
        assert(weight_b != 0 && weight_a != 0);
        assert((actual_a * weight_c) * weight_b <= (actual_c * weight_a) * weight_b)
            by (nonlinear_arith)
            requires
                actual_a * weight_b <= actual_b * weight_a,
                actual_b * weight_c <= actual_c * weight_b,
                weight_a > 0,
                weight_b > 0,
                weight_c > 0,
        ;
        assert(actual_a * weight_c <= actual_c * weight_a) by (nonlinear_arith)
            requires
                (actual_a * weight_c) * weight_b <= (actual_c * weight_a) * weight_b,
                weight_b > 0,
        ;
    }
}

/// The categories of a table ranked by ratio, and by name where the ratios
/// are equal.
pub struct ByRatio<'a> {
    pub names: &'a Vec<Vec<u8>>,
    pub actual: &'a Vec<u128>,
    pub weights: &'a Vec<u64>,
}

impl<'a> Ranking for ByRatio<'a> {
    open spec fn wf(&self) -> bool {
        &&& self.names@.len() == self.actual@.len()
        &&& self.names@.len() == self.weights@.len()
        &&& forall|i: int, j: int|
            0 <= i < self.actual@.len() && 0 <= j < self.weights@.len() ==> #[trigger] (
            self.actual@[i] * self.weights@[j]) <= u128::MAX
    }

    open spec fn count(&self) -> nat {
        self.names@.len()
    }

    open spec fn before(&self, i: int, j: int) -> bool {
        row_before(
            self.names@[i]@,
            self.actual@[i] as nat,
            self.weights@[i] as nat,
            self.names@[j]@,
            self.actual@[j] as nat,
            self.weights@[j] as nat,
        )
    }

    fn size(&self) -> (n: usize) {
        self.names.len()
    }

    fn is_before(&self, i: usize, j: usize) -> (r: bool) {
        let weight_i: u64 = self.weights[i];
        let weight_j: u64 = self.weights[j];
        assert(self.actual@[i as int] * self.weights@[j as int] <= u128::MAX);
        assert(self.actual@[j as int] * self.weights@[i as int] <= u128::MAX);
        let left: u128 = self.actual[i] * (weight_j as u128);
        let right: u128 = self.actual[j] * (weight_i as u128);
        let i_le_j: bool = weight_j == 0 || (weight_i != 0 && left <= right);
        let j_le_i: bool = weight_i == 0 || (weight_j != 0 && right <= left);
        if !j_le_i {
            true
        } else if !i_le_j {
            false
        } else {
            bytes_le(self.names[i].as_slice(), self.names[j].as_slice())
        }
    }

    proof fn total(&self, i: int, j: int) {
        lemma_lex_total(self.names@[i]@, self.names@[j]@);
    }

    proof fn transitive(&self, i: int, j: int, k: int) {
        let (ai, wi) = (self.actual@[i] as nat, self.weights@[i] as nat);
        let (aj, wj) = (self.actual@[j] as nat, self.weights@[j] as nat);
        let (ak, wk) = (self.actual@[k] as nat, self.weights@[k] as nat);
        if ratio_le(ai, wi, aj, wj) && ratio_le(aj, wj, ak, wk) {
            lemma_ratio_transitive(ai, wi, aj, wj, ak, wk);
        }
        if ratio_le(ak, wk, ai, wi) && ratio_le(ai, wi, aj, wj) {
            lemma_ratio_transitive(ak, wk, ai, wi, aj, wj);
        }
        if ratio_le(aj, wj, ak, wk) && ratio_le(ak, wk, ai, wi) {
            lemma_ratio_transitive(aj, wj, ak, wk, ai, wi);
        }
        if lex_le(self.names@[i]@, self.names@[j]@) && lex_le(self.names@[j]@, self.names@[k]@) {
            lemma_lex_transitive(self.names@[i]@, self.names@[j]@, self.names@[k]@);
        }
    }
}

/// One row of the table, in the abstract.
pub ghost struct RowModel {
    pub name: Seq<u8>,
    pub label: Seq<u8>,
    pub actual_seconds: nat,
    pub weight: nat,
    pub completed: Seq<char>,
    pub predicted: Seq<char>,
    pub on_target: bool,
    pub highlighted: bool,
}

/// One row of the table: a category of the budget.
#[derive(Debug)]
pub struct Row {
    /// The category.
    pub name: Vec<u8>,
    /// The category with its first letter in upper case.
    pub label: Vec<u8>,
    /// The seconds spent on the category in the window.
    pub actual_seconds: u128,
    /// The weight of the category, in millionths.
    pub weight: u64,
    /// The time spent, as text.
    pub completed: String,
    /// The time that the budget asks for in a day of twelve hours, as text.
    pub predicted: String,
    /// Whether the share of the time is at least the weight taken as a
    /// percentage.
    pub on_target: bool,
    /// Whether the category is the current one.
    pub highlighted: bool,
}

impl View for Row {
    type V = RowModel;

    open spec fn view(&self) -> RowModel {
        RowModel {
            name: self.name@,
            label: self.label@,
            actual_seconds: self.actual_seconds as nat,
            weight: self.weight as nat,
            completed: self.completed@,
            predicted: self.predicted@,
            on_target: self.on_target,
            highlighted: self.highlighted,
        }
    }
}

/// The views of a vector of rows.
pub open spec fn rows_view(rows: Seq<Row>) -> Seq<RowModel> {
    Seq::new(rows.len(), |i: int| rows[i]@)
}

/// A name with its first byte in upper case, where that is a lower-case
/// ASCII letter.
pub open spec fn capitalized(name: Seq<u8>) -> Seq<u8> {
    if name.len() > 0 && 97 <= name[0] <= 122 {
        name.update(0, (name[0] - 32) as u8)
    } else {
        name
    }
}

/// The seconds that the tree holds for the category `name`.
pub open spec fn time_of(tree: TreeNode, name: Seq<u8>) -> nat {
    tree.seconds(seq![name])
}

/// The seconds that the tree holds for the categories `names`, summed.
pub open spec fn listed_time(names: Seq<Seq<u8>>, tree: TreeNode) -> nat
    decreases names.len(),
{
    if names.len() == 0 {
        0
    } else {
        listed_time(names.drop_last(), tree) + time_of(tree, names.last())
    }
}

/// The seconds of a day of twelve hours that a weight asks for, the weight
/// being a percentage in millionths.
pub open spec fn predicted_seconds(weight: nat) -> nat {
    weight * 432 / 1_000_000
}

/// The row of the category `name`, on which `actual` seconds were spent and
/// which has the weight `weight`, in a table whose categories took
/// `time_domain` seconds together. The ratio of a row is its percentage of
/// `time_domain` over its weight; the row is on target where that is at
/// least 1.
pub open spec fn row_of(
    name: Seq<u8>,
    actual: nat,
    weight: nat,
    time_domain: nat,
    current_major: Seq<u8>,
) -> RowModel {
    RowModel {
        name,
        label: capitalized(name),
        actual_seconds: actual,
        weight,
        completed: time_text(
            if actual > u64::MAX {
                u64::MAX as nat
            } else {
                actual
            },
        ),
        predicted: time_text(predicted_seconds(weight)),
        on_target: 100_000_000 * actual >= time_domain * weight,
        highlighted: current_major == name,
    }
}

/// Whether `rows` is the table of `tree` against `ideals`: one row for
/// each category of the budget but `slop`, each as `row_of` says, in
/// ascending order of ratio and, among equal ratios, of name.
pub open spec fn is_table(
    rows: Seq<RowModel>,
    tree: TreeNode,
    ideals: Map<Seq<u8>, u64>,
    time_domain: nat,
    current_major: Seq<u8>,
) -> bool {
    &&& forall|i: int, j: int|
        0 <= i < j < rows.len() ==> (#[trigger] rows[i]).name != (#[trigger] rows[j]).name
    &&& forall|k: Seq<u8>|
        (ideals.dom().contains(k) && k != slop_key()) <==> exists|i: int|
            0 <= i < rows.len() && (#[trigger] rows[i]).name == k
    &&& forall|i: int|
        0 <= i < rows.len() ==> #[trigger] rows[i] == row_of(
            rows[i].name,
            time_of(tree, rows[i].name),
            ideals[rows[i].name] as nat,
            time_domain,
            current_major,
        )
    &&& forall|i: int, j: int|
        0 <= i < j < rows.len() ==> row_before(
            (#[trigger] rows[i]).name,
            rows[i].actual_seconds,
            rows[i].weight,
            (#[trigger] rows[j]).name,
            rows[j].actual_seconds,
            rows[j].weight,
        )
}

/// The time of a category as the table of the tree's children gives it.
pub(crate) proof fn lemma_time_of(tree: TreeNode, name: Seq<u8>)
    requires
        tree.keys@.len() == tree.children@.len(),
        tree.names().no_duplicates(),
    ensures
        time_of(tree, name) == if tree.names().contains(name) {
            table_of(tree.names(), values_of(tree.children@))[name]
        } else {
            0
        },
{
    reveal_with_fuel(TreeNode::seconds, 2);
    assert(seq![name].drop_first() =~= Seq::<Seq<u8>>::empty());
    assert(seq![name][0] == name);
}

/// The time of some categories is what the table of the children gives them.
pub(crate) proof fn lemma_listed_time(names: Seq<Seq<u8>>, tree: TreeNode)
    requires
        tree.keys@.len() == tree.children@.len(),
        tree.names().no_duplicates(),
    ensures
        listed_time(names, tree) == listed_sum(
            names,
            table_of(tree.names(), values_of(tree.children@)),
        ),
    decreases names.len(),
{
    if names.len() > 0 {
        lemma_listed_time(names.drop_last(), tree);
        lemma_time_of(tree, names.last());
    }
}

/// The categories of a tree that are listed once each hold no more time
/// than the tree.
pub(crate) proof fn lemma_listed_time_bound(names: Seq<Seq<u8>>, tree: TreeNode)
    requires
        tree.wf(3),
        names.no_duplicates(),
    ensures
        listed_time(names, tree) <= tree.value,
{
    lemma_listed_time(names, tree);
    lemma_listed_sum_bound(names, tree.names(), values_of(tree.children@));
    lemma_values_sum(tree.children@);
}

/// A name with its first letter in upper case.
pub fn capitalize(name: &[u8]) -> (label: Vec<u8>)
    ensures
        label@ == capitalized(name@),
{
    let mut label = to_vec(name);
    if label.len() > 0 && label[0] >= 97u8 && label[0] <= 122u8 {
        let upper: u8 = label[0] - 32u8;
        label.set(0, upper);
    }
    label
}

/// Builds the row of one category.
pub fn make_row(
    name: &[u8],
    actual: u128,
    weight: u64,
    time_domain: u128,
    current_major: &[u8],
) -> (row: Row)
    requires
        time_domain * weight <= u128::MAX,
    ensures
        row@ == row_of(name@, actual as nat, weight as nat, time_domain as nat, current_major@),
{
    let shown: u64 = if actual > 0xffff_ffff_ffff_ffff {
        0xffff_ffff_ffff_ffff
    } else {
        actual as u64
    };
    let predicted: u64 = ((weight as u128) * 432 / 1_000_000) as u64;
    let wanted: u128 = time_domain * (weight as u128);
    let on_target: bool = match 100_000_000u128.checked_mul(actual) {
        Some(scaled) => scaled >= wanted,
        None => true,
    };
    Row {
        name: to_vec(name),
        label: capitalize(name),
        actual_seconds: actual,
        weight,
        completed: format_time(shown),
        predicted: format_time(predicted),
        on_target,
        highlighted: bytes_eq(current_major, name),
    }
}

/// The rows of the table of `tree` against `ideal_proportions`, and the
/// seconds that the categories of the budget took together.
pub fn table_rows(tree: &TreeNode, ideal_proportions: &Ideals, current_major: &[u8]) -> (r: Result<
    (Vec<Row>, u128),
    ScoreError,
>)
    requires
        tree.wf(3),
        ideal_proportions.wf(),
    ensures
        ({
            let ideal_total = seq_sum(weights_of(ideal_proportions.weights@));
            if tree.value * ideal_total > u128::MAX {
                r.is_err() && r.unwrap_err() == ScoreError::TooLarge
            } else {
                &&& r.is_ok()
                &&& r.unwrap().1 == listed_time(ideal_proportions.keys(), *tree)
                &&& is_table(
                    rows_view(r.unwrap().0@),
                    *tree,
                    ideal_proportions@,
                    r.unwrap().1 as nat,
                    current_major@,
                )
            }
        }),
{
    let ideal_total: u128 = weight_total(ideal_proportions);
    let product: u128 = match tree.value.checked_mul(ideal_total) {
        Some(product) => product,
        None => {
            return Err(ScoreError::TooLarge);
        },
    };
    let ghost keys = ideal_proportions.keys();
    let ghost ideals = ideal_proportions@;
    let ghost weights = weights_of(ideal_proportions.weights@);
    let n: usize = ideal_proportions.names.len();
    let mut names: Vec<Vec<u8>> = Vec::new();
    let mut actual: Vec<u128> = Vec::new();
    let mut listed: Vec<u64> = Vec::new();
    let mut time_domain: u128 = 0;
    let mut i: usize = 0;
    proof {
        assert(keys.subrange(0, 0) =~= Seq::<Seq<u8>>::empty());
    }
    while i < n
        invariant
            0 <= i <= n,
            n == ideal_proportions.names@.len(),
            tree.wf(3),
            ideal_proportions.wf(),
            keys == ideal_proportions.keys(),
            ideals == ideal_proportions@,
            weights == weights_of(ideal_proportions.weights@),
            ideal_total == seq_sum(weights),
            product == tree.value * ideal_total,
            time_domain == listed_time(keys.subrange(0, i as int), *tree),
            names@.len() == actual@.len(),
            names@.len() == listed@.len(),
            forall|f: int|
                0 <= f < names@.len() ==> {
                    &&& keys.subrange(0, i as int).contains(#[trigger] names@[f]@)
                    &&& names@[f]@ != slop_key()
                    &&& actual@[f] == time_of(*tree, names@[f]@)
                    &&& listed@[f] == ideals[names@[f]@]
                },
            forall|f: int, g: int|
                0 <= f < g < names@.len() ==> (#[trigger] names@[f])@ != (#[trigger] names@[g])@,
            forall|k: int|
                0 <= k < i && keys[k] != slop_key() ==> views(names@).contains(#[trigger] keys[k]),
        decreases n - i,
    {
        let ghost done = keys.subrange(0, i as int);
        let ghost next = keys.subrange(0, i + 1);
        let name = ideal_proportions.names[i].as_slice();
        let weight: u64 = ideal_proportions.weights[i];
        let seconds: u128 = tree.child_seconds(name);
        proof {
            assert(next.drop_last() =~= done);
            assert(next.last() == name@);
            assert(keys[i as int] == name@);
            assert(next.no_duplicates()) by {
                assert forall|a: int, b: int|
                    0 <= a < next.len() && 0 <= b < next.len() && a != b implies next[a]
                    != next[b] by {
                    assert(next[a] == keys[a] && next[b] == keys[b]);
                }
            }
            lemma_listed_time_bound(next, *tree);
            lemma_index_of(keys, i as int);
        }
        time_domain = time_domain + seconds;
        if !is_slop(name) {
            let ghost old_names = views(names@);
            assert(!done.contains(name@)) by {
                if done.contains(name@) {
                    let a = done.index_of(name@);
                    assert(keys[a] == keys[i as int]);
                }
            }
            names.push(to_vec(name));
            actual.push(seconds);
            listed.push(weight);
            proof {
                assert forall|f: int| 0 <= f < names@.len() implies next.contains(
                    #[trigger] names@[f]@,
                ) by {
                    if f < names@.len() - 1 {
                        let a = done.index_of(names@[f]@);
                        assert(next[a] == names@[f]@);
                    } else {
                        assert(next[i as int] == names@[f]@);
                    }
                }
                assert forall|k: int| 0 <= k < i + 1 && keys[k] != slop_key() implies views(
                    names@,
                ).contains(#[trigger] keys[k]) by {
                    if k < i {
                        let f = old_names.index_of(keys[k]);
                        assert(views(names@)[f] == keys[k]);
                    } else {
                        assert(views(names@)[names@.len() - 1] == keys[k]);
                    }
                }
            }
        } else {
            proof {
                assert forall|f: int| 0 <= f < names@.len() implies next.contains(
                    #[trigger] names@[f]@,
                ) by {
                    let a = done.index_of(names@[f]@);
                    assert(next[a] == names@[f]@);
                }
            }
        }
        i = i + 1;
    }
    proof {
        assert(keys.subrange(0, n as int) =~= keys);
        lemma_listed_time_bound(keys, *tree);
        assert forall|f: int, g: int|
            0 <= f < actual@.len() && 0 <= g < listed@.len() implies #[trigger] (actual@[f]
            * listed@[g]) <= u128::MAX by {
            lemma_row_product(*tree, *ideal_proportions, names@[f]@, names@[g]@);
        }
        assert forall|g: int| 0 <= g < listed@.len() implies time_domain * #[trigger] listed@[g]
            <= u128::MAX by {
            lemma_domain_product(
                *tree,
                *ideal_proportions,
                time_domain as nat,
                names@[g]@,
            );
        }
    }
    let ranking = ByRatio { names: &names, actual: &actual, weights: &listed };
    let order = sort_positions(&ranking);
    let mut rows: Vec<Row> = Vec::new();
    let mut r: usize = 0;
    while r < order.len()
        invariant
            0 <= r <= order@.len(),
            is_arrangement(order@, names@.len() as nat),
            names@.len() == actual@.len(),
            names@.len() == listed@.len(),
            forall|g: int|
                0 <= g < listed@.len() ==> time_domain * #[trigger] listed@[g] <= u128::MAX,
            rows@.len() == r,
            forall|a: int|
                0 <= a < r ==> #[trigger] rows@[a]@ == row_of(
                    names@[order@[a] as int]@,
                    actual@[order@[a] as int] as nat,
                    listed@[order@[a] as int] as nat,
                    time_domain as nat,
                    current_major@,
                ),
        decreases order@.len() - r,
    {
        let f: usize = order[r];
        let row = make_row(names[f].as_slice(), actual[f], listed[f], time_domain, current_major);
        rows.push(row);
        r = r + 1;
    }
    proof {
        let table = rows_view(rows@);
        assert forall|a: int, b: int| 0 <= a < b < table.len() implies (#[trigger] table[a]).name
            != (#[trigger] table[b]).name by {
            assert(order@[a] != order@[b]);
        }
        assert forall|k: Seq<u8>|
            (ideals.dom().contains(k) && k != slop_key()) <==> exists|a: int|
                0 <= a < table.len() && (#[trigger] table[a]).name == k by {
            if ideals.dom().contains(k) && k != slop_key() {
                let at = keys.index_of(k);
                assert(views(names@).contains(keys[at]));
                let f = views(names@).index_of(k);
                assert(order@.contains(f as usize));
                let a = order@.index_of(f as usize);
                assert(table[a].name == k);
            }
            if exists|a: int| 0 <= a < table.len() && (#[trigger] table[a]).name == k {
                let a = choose|a: int| 0 <= a < table.len() && (#[trigger] table[a]).name == k;
                assert(keys.contains(names@[order@[a] as int]@));
            }
        }
        assert forall|a: int, b: int| 0 <= a < b < table.len() implies row_before(
            (#[trigger] table[a]).name,
            table[a].actual_seconds,
            table[a].weight,
            (#[trigger] table[b]).name,
            table[b].actual_seconds,
            table[b].weight,
        ) by {
            assert(ranking.before(order@[a] as int, order@[b] as int));
        }
    }
    Ok((rows, time_domain))
}

/// The time of a category times the weight of a category is at most the
/// time of the tree times the weight of the budget.
pub(crate) proof fn lemma_row_product(
    tree: TreeNode,
    ideals: Ideals,
    timed: Seq<u8>,
    weighted: Seq<u8>,
)
    requires
        tree.wf(3),
        ideals.wf(),
        ideals@.dom().contains(weighted),
    ensures
        time_of(tree, timed) * ideals@[weighted] <= tree.value * seq_sum(
            weights_of(ideals.weights@),
        ),
{
    let total = seq_sum(weights_of(ideals.weights@));
    lemma_listed_time_bound(seq![timed], tree);
    assert(seq![timed].drop_last() =~= Seq::<Seq<u8>>::empty());
    assert(listed_time(seq![timed], tree) == time_of(tree, timed)) by {
        reveal_with_fuel(listed_time, 2);
    }
    lemma_seq_sum_bound(weights_of(ideals.weights@), ideals.keys().index_of(weighted));
    lemma_mul_inequality(time_of(tree, timed) as int, tree.value as int, ideals@[weighted] as int);
    lemma_mul_inequality(ideals@[weighted] as int, total as int, tree.value as int);
    assert(tree.value * ideals@[weighted] == ideals@[weighted] * tree.value) by (nonlinear_arith);
    assert(total * tree.value == tree.value * total) by (nonlinear_arith);
}

/// The time of the table times the weight of a category is at most the
/// time of the tree times the weight of the budget.
pub(crate) proof fn lemma_domain_product(
    tree: TreeNode,
    ideals: Ideals,
    time_domain: nat,
    weighted: Seq<u8>,
)
    requires
        tree.wf(3),
        ideals.wf(),
        ideals@.dom().contains(weighted),
        time_domain <= tree.value,
    ensures
        time_domain * ideals@[weighted] <= tree.value * seq_sum(weights_of(ideals.weights@)),
{
    let total = seq_sum(weights_of(ideals.weights@));
    lemma_seq_sum_bound(weights_of(ideals.weights@), ideals.keys().index_of(weighted));
    lemma_mul_inequality(time_domain as int, tree.value as int, ideals@[weighted] as int);
    lemma_mul_inequality(ideals@[weighted] as int, total as int, tree.value as int);
    assert(tree.value * ideals@[weighted] == ideals@[weighted] * tree.value) by (nonlinear_arith);
    assert(total * tree.value == tree.value * total) by (nonlinear_arith);
}

} // verus!