//! Sort stability of the sankey view: among the nodes that have the same
//! parent, labels appear in lexicographic order.

use crate::ideals::Ideals;
use crate::order::lex_le;
use crate::order::strictly_ascending;
use crate::tree::activity_nodes;
use crate::tree::are_budget_bars;
use crate::tree::budget_bar;
use crate::tree::dotted;
use crate::tree::grandchildren;
use crate::tree::great_grandchildren;
use crate::tree::lemma_grandchildren_step;
use crate::tree::major_nodes;
use crate::tree::minor_nodes;
use crate::tree::node_model;
use crate::tree::sankey_nodes;
use crate::tree::BudgetBar;
use crate::tree::Cursor;
use crate::tree::NodeModel;
use crate::tree_node::child_sum;
use crate::tree_node::TreeNode;
use vstd::prelude::*;

verus! {

/// Whether two nodes of the sankey view are siblings: both are major nodes,
/// or minor nodes of one major node, or activities of one minor node. Each
/// node knows its parent by the number of major or minor nodes completed
/// before it.
pub open spec fn siblings(m: NodeModel, n: NodeModel) -> bool {
    &&& m.level == n.level
    &&& m.level == 1 || (m.level == 2 && m.at.majors == n.at.majors) || (m.level == 3
        && m.at.minors == n.at.minors)
}

/// Whether in `nodes` every node stands before its later siblings in
/// lexicographic order of the labels.
pub open spec fn siblings_in_order(nodes: Seq<NodeModel>) -> bool {
    forall|i: int, j: int|
        0 <= i < j < nodes.len() && siblings(#[trigger] nodes[i], #[trigger] nodes[j]) ==> lex_le(
            nodes[i].label,
            nodes[j].label,
        ) && nodes[i].label != nodes[j].label
}

/// A common beginning makes no difference to the order of two byte strings.
pub(crate) proof fn lemma_lex_common_prefix(p: Seq<u8>, a: Seq<u8>, b: Seq<u8>)
    ensures
        lex_le(p + a, p + b) == lex_le(a, b),
        (p + a == p + b) == (a == b),
    decreases p.len(),
{
    if p.len() == 0 {
        assert(p + a =~= a);
        assert(p + b =~= b);
    } else {
        lemma_lex_common_prefix(p.drop_first(), a, b);
        assert((p + a).drop_first() =~= p.drop_first() + a);
        assert((p + b).drop_first() =~= p.drop_first() + b);
        assert((p + a)[0] == p[0] && (p + b)[0] == p[0]);
        if p + a == p + b {
            assert((p + a).drop_first() == (p + b).drop_first());
        }
        if a == b {
            assert(p + a =~= p + b);
        }
    }
}

/// Labels under one parent are ordered as the names that end them.
pub(crate) proof fn lemma_dotted_order(parent: Seq<u8>, a: Seq<u8>, b: Seq<u8>)
    requires
        lex_le(a, b),
        a != b,
    ensures
        lex_le(dotted(parent, a), dotted(parent, b)),
        dotted(parent, a) != dotted(parent, b),
{
    lemma_lex_common_prefix(parent + seq![46u8], a, b);
}

/// What holds of the activity nodes of a minor node.
pub(crate) proof fn lemma_activity_nodes(
    minor: TreeNode,
    label: Seq<u8>,
    lit: bool,
    highlight: Seq<Seq<u8>>,
    at: Cursor,
    count: nat,
)
    requires
        count <= minor.children@.len(),
        minor.keys@.len() == minor.children@.len(),
        strictly_ascending(minor.names()),
    ensures
        activity_nodes(minor, label, lit, highlight, at, count).len() == count,
        forall|c: int|
            0 <= c < count ==> {
                let n = #[trigger] activity_nodes(minor, label, lit, highlight, at, count)[c];
                &&& n.level == 3
                &&& n.at.majors == at.majors
                &&& n.at.minors == at.minors
                &&& n.label == dotted(label, minor.names()[c])
            },
        siblings_in_order(activity_nodes(minor, label, lit, highlight, at, count)),
    decreases count,
{
    let nodes = activity_nodes(minor, label, lit, highlight, at, count);
    if count > 0 {
        let before = activity_nodes(minor, label, lit, highlight, at, (count - 1) as nat);
        lemma_activity_nodes(minor, label, lit, highlight, at, (count - 1) as nat);
        assert forall|c: int| 0 <= c < count implies {
            let n = #[trigger] nodes[c];
            &&& n.level == 3
            &&& n.at.majors == at.majors
            &&& n.at.minors == at.minors
            &&& n.label == dotted(label, minor.names()[c])
        } by {
            if c < count - 1 {
                assert(nodes[c] == before[c]);
            }
        }
        assert forall|i: int, j: int|
            0 <= i < j < nodes.len() && siblings(#[trigger] nodes[i], #[trigger] nodes[j]) implies lex_le(
            nodes[i].label,
            nodes[j].label,
        ) && nodes[i].label != nodes[j].label by {
            lemma_dotted_order(label, minor.names()[i], minor.names()[j]);
        }
    }
}

/// What holds of the nodes of the minor nodes of a major node.
pub open spec fn minor_block_ok(
    nodes: Seq<NodeModel>,
    major: TreeNode,
    label: Seq<u8>,
    at: Cursor,
    count: nat,
) -> bool {
    &&& forall|k: int|
        0 <= k < nodes.len() ==> {
            let n = #[trigger] nodes[k];
            &&& (n.level == 2 || n.level == 3)
            &&& n.at.majors == at.majors
            &&& at.minors <= n.at.minors < at.minors + count
            &&& n.level == 2 ==> n.label == dotted(label, major.names()[n.at.minors - at.minors])
        }
    &&& forall|i: int, j: int|
        0 <= i < j < nodes.len() && (#[trigger] nodes[j]).level == 2 ==> (#[trigger] nodes[i]).at.minors
            < nodes[j].at.minors
    &&& siblings_in_order(nodes)
}

/// The nodes of the minor nodes of a major node are as `minor_block_ok` says.
pub(crate) proof fn lemma_minor_nodes(
    major: TreeNode,
    label: Seq<u8>,
    lit: bool,
    highlight: Seq<Seq<u8>>,
    at: Cursor,
    count: nat,
)
    requires
        count <= major.children@.len(),
        major.wf(2),
    ensures
        minor_block_ok(
            minor_nodes(major, label, lit, highlight, at, count),
            major,
            label,
            at,
            count,
        ),
    decreases count,
{
    let nodes = minor_nodes(major, label, lit, highlight, at, count);
    if count > 0 {
        let b = (count - 1) as int;
        let minor = major.children@[b];
        assert(minor.wf(1));
        let here = Cursor {
            offset: at.offset + child_sum(major.children@.subrange(0, b)),
            majors: at.majors,
            minors: at.minors + b as nat,
            activities: at.activities + grandchildren(major.children@.subrange(0, b)),
        };
        let minor_label = dotted(label, major.names()[b]);
        let minor_lit = lit && major.names()[b] == highlight[1];
        let before = minor_nodes(major, label, lit, highlight, at, b as nat);
        let head = node_model(2, minor_label, minor, minor_lit, here);
        let tail = activity_nodes(
            minor,
            minor_label,
            minor_lit,
            highlight,
            here,
            minor.children@.len(),
        );
        lemma_minor_nodes(major, label, lit, highlight, at, b as nat);
        lemma_activity_nodes(minor, minor_label, minor_lit, highlight, here, minor.children@.len());
        assert(nodes == before.push(head) + tail);
        let old = before.len() as int;
        assert forall|k: int| 0 <= k < nodes.len() implies {
            let n = #[trigger] nodes[k];
            &&& (n.level == 2 || n.level == 3)
            &&& n.at.majors == at.majors
            &&& at.minors <= n.at.minors < at.minors + count
            &&& n.level == 2 ==> n.label == dotted(label, major.names()[n.at.minors - at.minors])
        } by {
            if k < old {
                assert(nodes[k] == before[k]);
            } else if k == old {
                assert(nodes[k] == head);
            } else {
                assert(nodes[k] == tail[k - old - 1]);
            }
        }
        assert forall|i: int, j: int|
            0 <= i < j < nodes.len() && (#[trigger] nodes[j]).level == 2 implies (
        #[trigger] nodes[i]).at.minors < nodes[j].at.minors by {
            if j < old {
                assert(nodes[i] == before[i] && nodes[j] == before[j]);
            } else if j == old {
                assert(nodes[i] == before[i] && nodes[j] == head);
            } else {
                assert(nodes[j] == tail[j - old - 1]);
            }
        }
        assert forall|i: int, j: int|
            0 <= i < j < nodes.len() && siblings(#[trigger] nodes[i], #[trigger] nodes[j]) implies lex_le(
            nodes[i].label,
            nodes[j].label,
        ) && nodes[i].label != nodes[j].label by {
            if j < old {
                assert(nodes[i] == before[i] && nodes[j] == before[j]);
            } else if j == old {
                assert(nodes[i] == before[i] && nodes[j] == head);
                let k = nodes[i].at.minors - at.minors;
                assert(0 <= k < b);
                lemma_dotted_order(label, major.names()[k], major.names()[b]);
            } else if i < old {
                assert(nodes[i] == before[i] && nodes[j] == tail[j - old - 1]);
            } else if i == old {
                assert(nodes[i] == head && nodes[j] == tail[j - old - 1]);
            } else {
                assert(nodes[i] == tail[i - old - 1] && nodes[j] == tail[j - old - 1]);
            }
        }
    }
}

/// What holds of the nodes of the first `count` major nodes of a tree.
pub open spec fn major_block_ok(nodes: Seq<NodeModel>, tree: TreeNode, count: nat) -> bool {
    &&& forall|k: int|
        0 <= k < nodes.len() ==> {
            let n = #[trigger] nodes[k];
            &&& n.at.majors < count
            &&& n.level == 1 ==> n.label == tree.names()[n.at.majors as int]
            &&& n.level != 1 ==> n.at.minors < grandchildren(
                tree.children@.subrange(0, count as int),
            )
        }
    &&& forall|i: int, j: int|
        0 <= i < j < nodes.len() && (#[trigger] nodes[j]).level == 1 ==> (#[trigger] nodes[i]).at.majors
            < nodes[j].at.majors
    &&& siblings_in_order(nodes)
}

/// The nodes of the major nodes of a tree are as `major_block_ok` says.
pub(crate) proof fn lemma_major_nodes(tree: TreeNode, highlight: Seq<Seq<u8>>, count: nat)
    requires
        count <= tree.children@.len(),
        tree.wf(3),
    ensures
        major_block_ok(major_nodes(tree, highlight, count), tree, count),
    decreases count,
{
    let nodes = major_nodes(tree, highlight, count);
    if count > 0 {
        let a = (count - 1) as int;
        let major = tree.children@[a];
        assert(major.wf(2));
        let here = Cursor {
            offset: child_sum(tree.children@.subrange(0, a)),
            majors: a as nat,
            minors: grandchildren(tree.children@.subrange(0, a)),
            activities: great_grandchildren(tree.children@.subrange(0, a)),
        };
        let label = tree.names()[a];
        let lit = label == highlight[0];
        let before = major_nodes(tree, highlight, a as nat);
        let head = node_model(1, label, major, lit, here);
        let tail = minor_nodes(major, label, lit, highlight, here, major.children@.len());
        lemma_major_nodes(tree, highlight, a as nat);
        lemma_minor_nodes(major, label, lit, highlight, here, major.children@.len());
        lemma_grandchildren_step(tree.children@, a);
        assert(nodes == before.push(head) + tail);
        let old = before.len() as int;
        assert forall|k: int| 0 <= k < nodes.len() implies {
            let n = #[trigger] nodes[k];
            &&& n.at.majors < count
            &&& n.level == 1 ==> n.label == tree.names()[n.at.majors as int]
            &&& n.level != 1 ==> n.at.minors < grandchildren(
                tree.children@.subrange(0, count as int),
            )
        } by {
            if k < old {
                assert(nodes[k] == before[k]);
            } else if k == old {
                assert(nodes[k] == head);
            } else {
                assert(nodes[k] == tail[k - old - 1]);
            }
        }
        assert forall|i: int, j: int|
            0 <= i < j < nodes.len() && (#[trigger] nodes[j]).level == 1 implies (
        #[trigger] nodes[i]).at.majors < nodes[j].at.majors by {
            if j < old {
                assert(nodes[i] == before[i] && nodes[j] == before[j]);
            } else if j == old {
                assert(nodes[i] == before[i] && nodes[j] == head);
            } else {
                assert(nodes[j] == tail[j - old - 1]);
            }
        }
        assert forall|i: int, j: int|
            0 <= i < j < nodes.len() && siblings(#[trigger] nodes[i], #[trigger] nodes[j]) implies lex_le(
            nodes[i].label,
            nodes[j].label,
        ) && nodes[i].label != nodes[j].label by {
            if j < old {
                assert(nodes[i] == before[i] && nodes[j] == before[j]);
            } else if j == old {
                assert(nodes[i] == before[i] && nodes[j] == head);
            } else if i < old {
                assert(nodes[i] == before[i] && nodes[j] == tail[j - old - 1]);
            } else if i == old {
                assert(nodes[i] == head && nodes[j] == tail[j - old - 1]);
            } else {
                assert(nodes[i] == tail[i - old - 1] && nodes[j] == tail[j - old - 1]);
            }
        }
    }
}

/// Sort stability: in the sankey view of a well-formed tree, every node
/// stands before its later siblings in lexicographic order of the labels.
pub proof fn law_sankey_siblings_in_order(tree: TreeNode, highlight: Seq<Seq<u8>>)
    requires
        tree.wf(3),
    ensures
        siblings_in_order(sankey_nodes(tree, highlight)),
{
    lemma_major_nodes(tree, highlight, tree.children@.len());
}

/// Sort stability: the bars of the budget stand in strictly ascending
/// lexicographic order of their names.
pub proof fn law_budget_bars_in_order(bars: Seq<BudgetBar>, budget: Ideals)
    requires
        budget.wf(),
        are_budget_bars(bars, budget),
    ensures
        forall|i: int, j: int|
            0 <= i < j < bars.len() ==> lex_le(
                (#[trigger] bars[i])@.name,
                (#[trigger] bars[j])@.name,
            ) && bars[i]@.name != bars[j]@.name,
{
    assert forall|i: int, j: int| 0 <= i < j < bars.len() implies lex_le(
        (#[trigger] bars[i])@.name,
        (#[trigger] bars[j])@.name,
    ) && bars[i]@.name != bars[j]@.name by {
        assert(bars[i]@ == budget_bar(budget, i));
        assert(bars[j]@ == budget_bar(budget, j));
        assert(lex_le(budget.keys()[i], budget.keys()[j]) && budget.keys()[i] != budget.keys()[j]);
    }
}

} // verus!