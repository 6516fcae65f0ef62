//! The sankey view: the nodes of the aggregation tree in the order in which
//! they are drawn, each with what the drawing needs to place it.

use crate::color::hue;
use crate::color::hue_of;
use crate::ideals::Ideals;
use crate::parse::Tag;
use crate::score::weights_of;
use crate::sums::seq_sum;
use crate::text::bytes_eq;
use crate::text::to_vec;
use crate::tree_node::child_sum;
use crate::tree_node::TreeNode;
use crate::util::format_time;
use crate::util::time_text;
use vstd::prelude::*;

verus! {

/// Where the drawing stands before a node is drawn.
pub ghost struct Cursor {
    /// The seconds of the activities drawn so far.
    pub offset: nat,
    /// The number of major nodes completed so far.
    pub majors: nat,
    /// The number of minor nodes completed so far.
    pub minors: nat,
    /// The number of activity nodes completed so far.
    pub activities: nat,
}

/// One node of the sankey view, in the abstract.
pub ghost struct NodeModel {
    pub level: nat,
    pub label: Seq<u8>,
    pub value: nat,
    pub hue: u16,
    pub highlighted: bool,
    pub time: Seq<char>,
    pub at: Cursor,
}

/// One node of the sankey view.
#[derive(Debug)]
pub struct SankeyNode {
    /// 1 for a major node, 2 for a minor node, 3 for an activity.
    pub level: u8,
    /// The names on the path to the node, joined by dots.
    pub label: Vec<u8>,
    /// The seconds of the node.
    pub value: u128,
    /// The hue of the label, in degrees.
    pub hue: u16,
    /// Whether the node lies on the path of the current tag.
    pub highlighted: bool,
    /// The seconds of the node as text.
    pub time: String,
    /// The seconds of the activities drawn before the node.
    pub offset: u128,
    /// The number of major nodes completed before the node.
    pub majors_before: usize,
    /// The number of minor nodes completed before the node.
    pub minors_before: usize,
    /// The number of activity nodes completed before the node.
    pub activities_before: usize,
}

impl View for SankeyNode {
    type V = NodeModel;

    open spec fn view(&self) -> NodeModel {
        NodeModel {
            level: self.level as nat,
            label: self.label@,
            value: self.value as nat,
            hue: self.hue,
            highlighted: self.highlighted,
            time: self.time@,
            at: Cursor {
                offset: self.offset as nat,
                majors: self.majors_before as nat,
                minors: self.minors_before as nat,
                activities: self.activities_before as nat,
            },
        }
    }
}

/// The views of a vector of nodes.
pub open spec fn nodes_view(nodes: Seq<SankeyNode>) -> Seq<NodeModel> {
    Seq::new(nodes.len(), |i: int| nodes[i]@)
}

/// One bar of the budget beside the sankey view, in the abstract.
pub ghost struct BudgetBarModel {
    pub name: Seq<u8>,
    pub weight: nat,
    pub hue: u16,
    pub offset: nat,
}

/// One bar of the budget beside the sankey view.
#[derive(Debug)]
pub struct BudgetBar {
    /// The category.
    pub name: Vec<u8>,
    /// The weight of the category, in millionths.
    pub weight: u64,
    /// The hue of the category, in degrees.
    pub hue: u16,
    /// The weights of the categories before this one, summed.
    pub offset: u128,
}

impl View for BudgetBar {
    type V = BudgetBarModel;

    open spec fn view(&self) -> BudgetBarModel {
        BudgetBarModel {
            name: self.name@,
            weight: self.weight as nat,
            hue: self.hue,
            offset: self.offset as nat,
        }
    }
}

/// The sankey view of a tree.
#[derive(Debug)]
pub struct SankeyView {
    /// The nodes in the order in which they are drawn: each major node is
    /// followed by its minor nodes, each minor node by its activities, and
    /// siblings stand in lexicographic order.
    pub nodes: Vec<SankeyNode>,
    /// The seconds of the tree: what values and offsets are scaled by.
    pub total: u128,
    /// The categories of the budget in lexicographic order.
    pub budget: Vec<BudgetBar>,
    /// The sum of the weights of the budget.
    pub budget_total: u128,
}

/// Two labels joined by a dot.
pub open spec fn dotted(a: Seq<u8>, b: Seq<u8>) -> Seq<u8> {
    a + seq![46u8] + b
}

/// The seconds of a node as they are written: at most what 64 bits hold.
pub open spec fn shown_seconds(value: nat) -> nat {
    if value > u64::MAX {
        u64::MAX as nat
    } else {
        value
    }
}

/// The number of children that the nodes `children` have together.
pub open spec fn grandchildren(children: Seq<TreeNode>) -> nat
    decreases children.len(),
{
    if children.len() == 0 {
        0
    } else {
        grandchildren(children.drop_last()) + children.last().children@.len()
    }
}

/// The number of grandchildren that the nodes `children` have together.
pub open spec fn great_grandchildren(children: Seq<TreeNode>) -> nat
    decreases children.len(),
{
    if children.len() == 0 {
        0
    } else {
        great_grandchildren(children.drop_last()) + grandchildren(children.last().children@)
    }
}

/// The node that is drawn for `node`, which is labelled `label`.
pub open spec fn node_model(
    level: nat,
    label: Seq<u8>,
    node: TreeNode,
    highlighted: bool,
    at: Cursor,
) -> NodeModel {
    NodeModel {
        level,
        label,
        value: node.value as nat,
        hue: hue_of(label),
        highlighted,
        time: time_text(shown_seconds(node.value as nat)),
        at,
    }
}

/// The activity nodes of the minor node `minor`: the first `count` of them,
/// drawn from `at` on.
pub open spec fn activity_nodes(
    minor: TreeNode,
    label: Seq<u8>,
    lit: bool,
    highlight: Seq<Seq<u8>>,
    at: Cursor,
    count: nat,
) -> Seq<NodeModel>
    decreases count,
{
    if count == 0 {
        Seq::empty()
    } else {
        let c = (count - 1) as int;
        activity_nodes(minor, label, lit, highlight, at, c as nat).push(
            node_model(
                3,
                dotted(label, minor.names()[c]),
                minor.children@[c],
                lit && minor.names()[c] == highlight[2],
                Cursor {
                    offset: at.offset + child_sum(minor.children@.subrange(0, c)),
                    majors: at.majors,
                    minors: at.minors,
                    activities: at.activities + c as nat,
                },
            ),
        )
    }
}

/// The nodes of the first `count` minor nodes of the major node `major`,
/// each followed by its activities, drawn from `at` on.
pub open spec fn minor_nodes(
    major: TreeNode,
    label: Seq<u8>,
    lit: bool,
    highlight: Seq<Seq<u8>>,
    at: Cursor,
    count: nat,
) -> Seq<NodeModel>
    decreases count,
{
    if count == 0 {
        Seq::empty()
    } else {
        let b = (count - 1) as int;
        let minor = major.children@[b];
        let here = Cursor {
            offset: at.offset + child_sum(major.children@.subrange(0, b)),
            majors: at.majors,
            minors: at.minors + b as nat,
            activities: at.activities + grandchildren(major.children@.subrange(0, b)),
        };
        let minor_label = dotted(label, major.names()[b]);
        let minor_lit = lit && major.names()[b] == highlight[1];
        minor_nodes(major, label, lit, highlight, at, b as nat).push(
            node_model(2, minor_label, minor, minor_lit, here),
        ) + activity_nodes(
            minor,
            minor_label,
            minor_lit,
            highlight,
            here,
            minor.children@.len(),
        )
    }
}

/// The nodes of the first `count` major nodes of `tree`, each followed by
/// its minor nodes and their activities.
pub open spec fn major_nodes(tree: TreeNode, highlight: Seq<Seq<u8>>, count: nat) -> Seq<NodeModel>
    decreases count,
{
    if count == 0 {
        Seq::empty()
    } else {
        let a = (count - 1) as int;
        let major = tree.children@[a];
        let here = Cursor {
            offset: child_sum(tree.children@.subrange(0, a)),
            majors: a as nat,
            minors: grandchildren(tree.children@.subrange(0, a)),
            activities: great_grandchildren(tree.children@.subrange(0, a)),
        };
        let label = tree.names()[a];
        let lit = label == highlight[0];
        major_nodes(tree, highlight, a as nat).push(node_model(1, label, major, lit, here))
            + minor_nodes(major, label, lit, highlight, here, major.children@.len())
    }
}

/// The nodes of the sankey view of `tree` with the path `highlight`
/// highlighted.
pub open spec fn sankey_nodes(tree: TreeNode, highlight: Seq<Seq<u8>>) -> Seq<NodeModel> {
    major_nodes(tree, highlight, tree.children@.len())
}

/// The bar of the category at position `i` of a budget.
pub open spec fn budget_bar(budget: Ideals, i: int) -> BudgetBarModel {
    BudgetBarModel {
        name: budget.keys()[i],
        weight: budget.weights@[i] as nat,
        hue: hue_of(budget.keys()[i]),
        offset: seq_sum(weights_of(budget.weights@).subrange(0, i)),
    }
}

/// Whether `bars` are the bars of `budget`: one for each category, in
/// stored order.
pub open spec fn are_budget_bars(bars: Seq<BudgetBar>, budget: Ideals) -> bool {
    &&& bars.len() == budget.names@.len()
    &&& forall|i: int| 0 <= i < bars.len() ==> (#[trigger] bars[i])@ == budget_bar(budget, i)
}

/// Joins two labels by a dot.
pub fn join_dotted(a: &[u8], b: &[u8]) -> (label: Vec<u8>)
    ensures
        label@ == dotted(a@, b@),
{
    let mut label = to_vec(a);
    label.push(46u8);
    let mut i: usize = 0;
    while i < b.len()
        invariant
            0 <= i <= b@.len(),
            label@ == a@ + seq![46u8] + b@.subrange(0, i as int),
        decreases b@.len() - i,
    {
        label.push(b[i]);
        assert(label@ =~= a@ + seq![46u8] + b@.subrange(0, i + 1));
        i = i + 1;
    }
    assert(b@.subrange(0, b@.len() as int) =~= b@);
    label
}

/// Builds the node that is drawn for `node`.
pub fn make_node(
    level: u8,
    label: Vec<u8>,
    node: &TreeNode,
    highlighted: bool,
    offset: u128,
    majors_before: usize,
    minors_before: usize,
    activities_before: usize,
) -> (made: SankeyNode)
    ensures
        made@ == node_model(
            level as nat,
            label@,
            *node,
            highlighted,
            Cursor {
                offset: offset as nat,
                majors: majors_before as nat,
                minors: minors_before as nat,
                activities: activities_before as nat,
            },
        ),
{
    let shown: u64 = if node.value > 0xffff_ffff_ffff_ffff {
        0xffff_ffff_ffff_ffff
    } else {
        node.value as u64
    };
    let degrees = hue(label.as_slice());
    SankeyNode {
        level,
        label,
        value: node.value,
        hue: degrees,
        highlighted,
        time: format_time(shown),
        offset,
        majors_before,
        minors_before,
        activities_before,
    }
}

/// The values of the first children do not exceed the values of all, and grow
/// by the next child.
pub(crate) proof fn lemma_child_sum_prefix(children: Seq<TreeNode>, k: int)
    requires
        0 <= k <= children.len(),
    ensures
        child_sum(children.subrange(0, k)) <= child_sum(children),
        k < children.len() ==> child_sum(children.subrange(0, k + 1)) == child_sum(
            children.subrange(0, k),
        ) + children[k].value,
    decreases children.len() - k,
{
    if k < children.len() {
        lemma_child_sum_prefix(children, k + 1);
        assert(children.subrange(0, k + 1).drop_last() =~= children.subrange(0, k));
    } else {
        assert(children.subrange(0, k) =~= children);
    }
}

/// The counts of descendants grow by those of the next child.
pub(crate) proof fn lemma_grandchildren_step(children: Seq<TreeNode>, k: int)
    requires
        0 <= k < children.len(),
    ensures
        grandchildren(children.subrange(0, k + 1)) == grandchildren(children.subrange(0, k))
            + children[k].children@.len(),
        great_grandchildren(children.subrange(0, k + 1)) == great_grandchildren(
            children.subrange(0, k),
        ) + grandchildren(children[k].children@),
{
    assert(children.subrange(0, k + 1).drop_last() =~= children.subrange(0, k));
}

/// Appends the activity nodes of the minor node `minor` to `nodes`.
fn push_activities(
    nodes: &mut Vec<SankeyNode>,
    minor: &TreeNode,
    label: &[u8],
    lit: bool,
    highlight: &Tag,
    offset: u128,
    majors: usize,
    minors: usize,
    activities: usize,
)
    requires
        minor.wf(1),
        offset + minor.value <= u128::MAX,
        activities <= old(nodes)@.len(),
    ensures
        nodes_view(final(nodes)@) == nodes_view(old(nodes)@) + activity_nodes(
            *minor,
            label@,
            lit,
            highlight@,
            Cursor {
                offset: offset as nat,
                majors: majors as nat,
                minors: minors as nat,
                activities: activities as nat,
            },
            minor.children@.len(),
        ),
        final(nodes)@.len() == old(nodes)@.len() + minor.children@.len(),
{
    let ghost before = nodes_view(nodes@);
    let ghost at = Cursor {
        offset: offset as nat,
        majors: majors as nat,
        minors: minors as nat,
        activities: activities as nat,
    };
    let mut c: usize = 0;
    let mut drawn: u128 = offset;
    proof {
        assert(minor.children@.subrange(0, 0) =~= Seq::<TreeNode>::empty());
        assert(nodes_view(nodes@) =~= before + activity_nodes(
            *minor,
            label@,
            lit,
            highlight@,
            at,
            0,
        ));
    }
    while c < minor.keys.len()
        invariant
            0 <= c <= minor.keys@.len(),
            minor.wf(1),
            offset + minor.value <= u128::MAX,
            activities <= old(nodes)@.len(),
            nodes@.len() == old(nodes)@.len() + c,
            drawn == offset + child_sum(minor.children@.subrange(0, c as int)),
            before == nodes_view(old(nodes)@),
            at == (Cursor {
                offset: offset as nat,
                majors: majors as nat,
                minors: minors as nat,
                activities: activities as nat,
            }),
            nodes_view(nodes@) == before + activity_nodes(
                *minor,
                label@,
                lit,
                highlight@,
                at,
                c as nat,
            ),
        decreases minor.keys@.len() - c,
    {
        let ghost earlier = nodes_view(nodes@);
        proof {
            lemma_child_sum_prefix(minor.children@, c as int);
            lemma_child_sum_prefix(minor.children@, c + 1);
        }
        let held: usize = nodes.len();
        let name = minor.keys[c].as_slice();
        let on_path = lit && bytes_eq(name, highlight.activity.as_slice());
        let node = make_node(
            3,
            join_dotted(label, name),
            &minor.children[c],
            on_path,
            drawn,
            majors,
            minors,
            activities + c,
        );
        nodes.push(node);
        proof {
            assert(highlight@[2] == highlight.activity@);
            assert(nodes_view(nodes@) =~= earlier.push(node@));
            assert(earlier.push(node@) =~= before + activity_nodes(
                *minor,
                label@,
                lit,
                highlight@,
                at,
                (c + 1) as nat,
            ));
        }
        drawn = drawn + minor.children[c].value;
        c = c + 1;
    }
}

/// Appends the minor nodes of the major node `major`, each followed by its
/// activities, to `nodes`.
fn push_minors(
    nodes: &mut Vec<SankeyNode>,
    major: &TreeNode,
    label: &[u8],
    lit: bool,
    highlight: &Tag,
    offset: u128,
    majors: usize,
    minors: usize,
    activities: usize,
)
    requires
        major.wf(2),
        offset + major.value <= u128::MAX,
        minors + activities <= old(nodes)@.len(),
    ensures
        nodes_view(final(nodes)@) == nodes_view(old(nodes)@) + minor_nodes(
            *major,
            label@,
            lit,
            highlight@,
            Cursor {
                offset: offset as nat,
                majors: majors as nat,
                minors: minors as nat,
                activities: activities as nat,
            },
            major.children@.len(),
        ),
        final(nodes)@.len() == old(nodes)@.len() + major.children@.len() + grandchildren(
            major.children@,
        ),
{
    let ghost before = nodes_view(nodes@);
    let ghost at = Cursor {
        offset: offset as nat,
        majors: majors as nat,
        minors: minors as nat,
        activities: activities as nat,
    };
    let mut b: usize = 0;
    let mut drawn: u128 = offset;
    let mut leaves: usize = activities;
    proof {
        assert(major.children@.subrange(0, 0) =~= Seq::<TreeNode>::empty());
        assert(nodes_view(nodes@) =~= before + minor_nodes(*major, label@, lit, highlight@, at, 0));
    }
    while b < major.keys.len()
        invariant
            0 <= b <= major.keys@.len(),
            major.wf(2),
            offset + major.value <= u128::MAX,
            minors + activities <= old(nodes)@.len(),
            nodes@.len() == old(nodes)@.len() + b + grandchildren(
                major.children@.subrange(0, b as int),
            ),
            drawn == offset + child_sum(major.children@.subrange(0, b as int)),
            leaves == activities + grandchildren(major.children@.subrange(0, b as int)),
            before == nodes_view(old(nodes)@),
            at == (Cursor {
                offset: offset as nat,
                majors: majors as nat,
                minors: minors as nat,
                activities: activities as nat,
            }),
            nodes_view(nodes@) == before + minor_nodes(
                *major,
                label@,
                lit,
                highlight@,
                at,
                b as nat,
            ),
        decreases major.keys@.len() - b,
    {
        let ghost earlier = nodes_view(nodes@);
        let minor = &major.children[b];
        proof {
            lemma_child_sum_prefix(major.children@, b as int);
            lemma_child_sum_prefix(major.children@, b + 1);
            lemma_grandchildren_step(major.children@, b as int);
            assert(minor.wf(1));
        }
        let held: usize = nodes.len();
        let name = major.keys[b].as_slice();
        let on_path = lit && bytes_eq(name, highlight.minor.as_slice());
        let minor_label = join_dotted(label, name);
        let node = make_node(
            2,
            to_vec(minor_label.as_slice()),
            minor,
            on_path,
            drawn,
            majors,
            minors + b,
            leaves,
        );
        nodes.push(node);
        let ghost with_node = nodes_view(nodes@);
        push_activities(
            nodes,
            minor,
            minor_label.as_slice(),
            on_path,
            highlight,
            drawn,
            majors,
            minors + b,
            leaves,
        );
        proof {
            assert(highlight@[1] == highlight.minor@);
            assert(with_node =~= earlier.push(node@));
            let here = Cursor {
                offset: drawn as nat,
                majors: majors as nat,
                minors: (minors + b) as nat,
                activities: leaves as nat,
            };
            let tail = activity_nodes(
                *minor,
                minor_label@,
                on_path,
                highlight@,
                here,
                minor.children@.len(),
            );
            assert(nodes_view(nodes@) == with_node + tail);
            assert((before + minor_nodes(*major, label@, lit, highlight@, at, b as nat)).push(
                node@,
            ) + tail =~= before + (minor_nodes(*major, label@, lit, highlight@, at, b as nat).push(
                node@,
            ) + tail));
        }
        let held: usize = nodes.len();
        drawn = drawn + minor.value;
        leaves = leaves + minor.keys.len();
        b = b + 1;
    }
    proof {
        assert(major.children@.subrange(0, b as int) =~= major.children@);
    }
}

/// Lays out the sankey view of `tree`, with the path of `highlight`
/// highlighted and the budget beside it.
pub fn render_tree(tree: &TreeNode, highlight: &Tag, ideal_proportions: &Ideals) -> (view:
    SankeyView)
    requires
        tree.wf(3),
        ideal_proportions.wf(),
    ensures
        nodes_view(view.nodes@) == sankey_nodes(*tree, highlight@),
        view.total == tree.value,
        are_budget_bars(view.budget@, *ideal_proportions),
        view.budget_total == seq_sum(weights_of(ideal_proportions.weights@)),
{
    let mut nodes: Vec<SankeyNode> = Vec::new();
    let mut a: usize = 0;
    let mut drawn: u128 = 0;
    let mut minors: usize = 0;
    let mut leaves: usize = 0;
    proof {
        assert(tree.children@.subrange(0, 0) =~= Seq::<TreeNode>::empty());
        assert(nodes_view(nodes@) =~= major_nodes(*tree, highlight@, 0));
    }
    while a < tree.keys.len()
        invariant
            0 <= a <= tree.keys@.len(),
            tree.wf(3),
            nodes@.len() == a + grandchildren(tree.children@.subrange(0, a as int))
                + great_grandchildren(tree.children@.subrange(0, a as int)),
            drawn == child_sum(tree.children@.subrange(0, a as int)),
            minors == grandchildren(tree.children@.subrange(0, a as int)),
            leaves == great_grandchildren(tree.children@.subrange(0, a as int)),
            nodes_view(nodes@) == major_nodes(*tree, highlight@, a as nat),
        decreases tree.keys@.len() - a,
    {
        let ghost earlier = nodes_view(nodes@);
        let major = &tree.children[a];
        proof {
            lemma_child_sum_prefix(tree.children@, a as int);
            lemma_child_sum_prefix(tree.children@, a + 1);
            lemma_grandchildren_step(tree.children@, a as int);
            assert(major.wf(2));
        }
        let name = tree.keys[a].as_slice();
        let on_path = bytes_eq(name, highlight.major.as_slice());
        let node = make_node(1, to_vec(name), major, on_path, drawn, a, minors, leaves);
        nodes.push(node);
        let ghost with_node = nodes_view(nodes@);
        push_minors(&mut nodes, major, name, on_path, highlight, drawn, a, minors, leaves);
        proof {
            assert(highlight@[0] == highlight.major@);
            assert(with_node =~= earlier.push(node@));
        }
        let held: usize = nodes.len();
        drawn = drawn + major.value;
        minors = minors + major.keys.len();
        leaves = (held - (a + 1)) - minors;
        a = a + 1;
    }
    proof {
        assert(tree.children@.subrange(0, a as int) =~= tree.children@);
    }
    let mut budget: Vec<BudgetBar> = Vec::new();
    let mut used: u128 = 0;
    let mut i: usize = 0;
    let ghost weights = weights_of(ideal_proportions.weights@);
    proof {
        assert(weights.subrange(0, 0) =~= Seq::<nat>::empty());
    }
    while i < ideal_proportions.names.len()
        invariant
            0 <= i <= ideal_proportions.names@.len(),
            ideal_proportions.wf(),
            weights == weights_of(ideal_proportions.weights@),
            used == seq_sum(weights.subrange(0, i as int)),
            used <= i * 0xffff_ffff_ffff_ffff,
            budget@.len() == i,
            forall|k: int|
                0 <= k < i ==> (#[trigger] budget@[k])@ == budget_bar(*ideal_proportions, k),
        decreases ideal_proportions.names@.len() - i,
    {
        proof {
            assert(weights.subrange(0, i + 1).drop_last() =~= weights.subrange(0, i as int));
            assert(i * 0xffff_ffff_ffff_ffff + 0xffff_ffff_ffff_ffff <= u128::MAX)
                by (nonlinear_arith)
                requires
                    i <= 0xffff_ffff_ffff_ffff,
            ;
        }
        let name = ideal_proportions.names[i].as_slice();
        let weight: u64 = ideal_proportions.weights[i];
        budget.push(BudgetBar { name: to_vec(name), weight, hue: hue(name), offset: used });
        used = used + weight as u128;
        i = i + 1;
    }
    proof {
        assert(weights.subrange(0, i as int) =~= weights);
    }
    SankeyView { nodes, total: tree.value, budget, budget_total: used }
}

} // verus!