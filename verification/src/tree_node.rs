//! The aggregation tree: durations rolled up along dotted tag paths.

use crate::order::lemma_ascending_distinct;
use crate::order::lemma_ascending_insert;
use crate::order::lex_le;
use crate::order::locate;
use crate::order::strictly_ascending;
use crate::sums::lemma_index_of;
use crate::text::bytes_eq;
use crate::text::to_vec;
use crate::text::views;
use vstd::prelude::*;

verus! {

/// A node of the aggregation tree.
///
/// The root stands for the whole window; below it come the major, minor and
/// activity levels. `keys[i]` names `children[i]`; children are kept in
/// lexicographic order of their names, so that reading them in stored order
/// is reading them sorted.
#[derive(Debug)]
pub struct TreeNode {
    pub value: u128,
    pub keys: Vec<Vec<u8>>,
    pub children: Vec<TreeNode>,
}

/// The sum of the values of a sequence of nodes.
pub open spec fn child_sum(children: Seq<TreeNode>) -> nat
    decreases children.len(),
{
    if children.len() == 0 {
        0
    } else {
        child_sum(children.drop_last()) + children.last().value as nat
    }
}

/// The abstract tree after `t` seconds were added along `path`: every prefix
/// of the path, the empty one included, is present and has gained `t`.
pub open spec fn add_path(m: Map<Seq<Seq<u8>>, nat>, path: Seq<Seq<u8>>, t: nat) -> Map<
    Seq<Seq<u8>>,
    nat,
> {
    Map::new(
        |p: Seq<Seq<u8>>| m.dom().contains(p) || p.is_prefix_of(path),
        |p: Seq<Seq<u8>>|
            (if m.dom().contains(p) {
                m[p]
            } else {
                0
            }) + (if p.is_prefix_of(path) {
                t
            } else {
                0
            }),
    )
}

/// A node put among others adds its value to their sum.
pub(crate) proof fn lemma_child_sum_insert(children: Seq<TreeNode>, at: int, node: TreeNode)
    requires
        0 <= at <= children.len(),
    ensures
        child_sum(children.insert(at, node)) == child_sum(children) + node.value,
    decreases children.len(),
{
    let after = children.insert(at, node);
    if at == children.len() {
        assert(after.drop_last() =~= children);
    } else {
        lemma_child_sum_insert(children.drop_last(), at, node);
        assert(after.drop_last() =~= children.drop_last().insert(at, node));
        assert(after.last() == children.last());
    }
}

/// No child holds more than all children together.
pub(crate) proof fn lemma_child_sum_bound(children: Seq<TreeNode>, i: int)
    requires
        0 <= i < children.len(),
    ensures
        children[i].value <= child_sum(children),
    decreases children.len(),
{
    if i < children.len() - 1 {
        lemma_child_sum_bound(children.drop_last(), i);
    }
}

/// A child replaced changes the sum by the difference of the values.
pub(crate) proof fn lemma_child_sum_update(children: Seq<TreeNode>, i: int, node: TreeNode)
    requires
        0 <= i < children.len(),
    ensures
        child_sum(children.update(i, node)) == child_sum(children) - children[i].value
            + node.value,
    decreases children.len(),
{
    let updated = children.update(i, node);
    if i < children.len() - 1 {
        lemma_child_sum_update(children.drop_last(), i, node);
        assert(updated.drop_last() =~= children.drop_last().update(i, node));
    } else {
        assert(updated.drop_last() =~= children.drop_last());
    }
}

/// A path begins another where the first names agree and the rest begins the
/// rest.
pub(crate) proof fn lemma_prefix_step(p: Seq<Seq<u8>>, k: Seq<u8>, rest: Seq<Seq<u8>>)
    requires
        p.len() > 0,
    ensures
        p.is_prefix_of(seq![k] + rest) <==> (p[0] == k && p.drop_first().is_prefix_of(rest)),
{
    let path = seq![k] + rest;
    if p.is_prefix_of(path) {
        assert(path.subrange(0, p.len() as int)[0] == p[0]);
        assert(p.drop_first() =~= rest.subrange(0, p.len() - 1)) by {
            assert forall|i: int| 0 <= i < p.len() - 1 implies p.drop_first()[i] == rest[i] by {
                assert(path.subrange(0, p.len() as int)[i + 1] == p[i + 1]);
            }
        }
    }
    if p[0] == k && p.drop_first().is_prefix_of(rest) {
        assert(p =~= path.subrange(0, p.len() as int)) by {
            assert forall|i: int| 0 <= i < p.len() implies p[i] == path[i] by {
                if i > 0 {
                    assert(p.drop_first()[i - 1] == rest.subrange(0, p.len() - 1)[i - 1]);
                }
            }
        }
    }
}

/// Adding along a path below an existing child: the child gains the rest of
/// the path, the parent the whole of it.
pub(crate) proof fn lemma_view_after_update(
    o: TreeNode,
    n: TreeNode,
    i: int,
    rest: Seq<Seq<u8>>,
    t: nat,
)
    requires
        o.keys@.len() == o.children@.len(),
        o.names().no_duplicates(),
        0 <= i < o.children@.len(),
        n.keys@ == o.keys@,
        n.children@.len() == o.children@.len(),
        n.children@ == o.children@.update(i, n.children@[i]),
        n.value == o.value + t,
        n.children@[i]@ == add_path(o.children@[i]@, rest, t),
    ensures
        n@ == add_path(o@, seq![o.names()[i]] + rest, t),
{
    let k = o.names()[i];
    let path = seq![k] + rest;
    assert(n.names() =~= o.names());
    assert forall|p: Seq<Seq<u8>>|
        n.contains(p) == (o.contains(p) || p.is_prefix_of(path)) && n.seconds(p) == o.seconds(p)
            + (if p.is_prefix_of(path) {
            t
        } else {
            0
        }) && (!o.contains(p) ==> o.seconds(p) == 0) by {
        lemma_absent_is_zero(o, p);
        if p.len() == 0 {
            assert(p =~= path.subrange(0, 0));
        } else {
            lemma_prefix_step(p, k, rest);
            let q = p.drop_first();
            if o.names().contains(p[0]) {
                let j = o.names().index_of(p[0]);
                if j == i {
                    assert(n.children@[i]@.dom().contains(q) == n.children@[i].contains(q));
                    assert(o.children@[i]@.dom().contains(q) == o.children@[i].contains(q));
                    if n.children@[i].contains(q) {
                        assert(n.children@[i]@[q] == n.children@[i].seconds(q));
                    }
                    if o.children@[i].contains(q) {
                        assert(o.children@[i]@[q] == o.children@[i].seconds(q));
                    }
                    lemma_absent_is_zero(o.children@[i], q);
                    lemma_absent_is_zero(n.children@[i], q);
                } else {
                    lemma_index_of(o.names(), i);
                }
            }
        }
    }
    assert(n@ =~= add_path(o@, path, t));
}

/// Adding along a path below a child that did not exist before.
pub(crate) proof fn lemma_view_after_insert(
    o: TreeNode,
    n: TreeNode,
    at: int,
    k: Seq<u8>,
    rest: Seq<Seq<u8>>,
    t: nat,
)
    requires
        o.keys@.len() == o.children@.len(),
        o.names().no_duplicates(),
        !o.names().contains(k),
        0 <= at <= o.keys@.len(),
        n.keys@.len() == o.keys@.len() + 1,
        n.names() == o.names().insert(at, k),
        n.names().no_duplicates(),
        n.children@ == o.children@.insert(at, n.children@[at]),
        n.value == o.value + t,
        n.children@[at]@ == add_path(
            Map::<Seq<Seq<u8>>, nat>::empty().insert(Seq::empty(), 0nat),
            rest,
            t,
        ),
    ensures
        n@ == add_path(o@, seq![k] + rest, t),
{
    let path = seq![k] + rest;
    let c = n.children@[at];
    let fresh = Map::<Seq<Seq<u8>>, nat>::empty().insert(Seq::empty(), 0nat);
    assert forall|p: Seq<Seq<u8>>|
        n.contains(p) == (o.contains(p) || p.is_prefix_of(path)) && n.seconds(p) == o.seconds(p)
            + (if p.is_prefix_of(path) {
            t
        } else {
            0
        }) && (!o.contains(p) ==> o.seconds(p) == 0) by {
        lemma_absent_is_zero(o, p);
        if p.len() == 0 {
            assert(p =~= path.subrange(0, 0));
        } else {
            lemma_prefix_step(p, k, rest);
            let q = p.drop_first();
            if p[0] == k {
                assert(n.names()[at] == k);
                lemma_index_of(n.names(), at);
                assert(c@.dom().contains(q) == c.contains(q));
                if c.contains(q) {
                    assert(c@[q] == c.seconds(q));
                }
                lemma_absent_is_zero(c, q);
                assert(fresh.dom().contains(q) <==> q == Seq::<Seq<u8>>::empty());
                if q.len() == 0 {
                    assert(q =~= Seq::<Seq<u8>>::empty());
                    assert(q =~= rest.subrange(0, 0));
                }
            } else if o.names().contains(p[0]) {
                let j = o.names().index_of(p[0]);
                let j1 = if j < at {
                    j
                } else {
                    j + 1
                };
                assert(n.names()[j1] == p[0]);
                lemma_index_of(n.names(), j1);
                assert(n.children@[j1] == o.children@[j]);
            } else {
                if n.names().contains(p[0]) {
                    let j1 = n.names().index_of(p[0]);
                    let j = if j1 < at {
                        j1
                    } else {
                        j1 - 1
                    };
                    assert(o.names()[j] == p[0]);
                }
            }
        }
    }
    assert(n@ =~= add_path(o@, path, t));
}

/// A path that is not present has no seconds.
pub(crate) proof fn lemma_absent_is_zero(node: TreeNode, p: Seq<Seq<u8>>)
    ensures
        !node.contains(p) ==> node.seconds(p) == 0,
    decreases p.len(),
{
    if p.len() > 0 && node.keys@.len() == node.children@.len() && node.names().contains(p[0]) {
        lemma_absent_is_zero(node.children@[node.names().index_of(p[0])], p.drop_first());
    }
}

impl TreeNode {
    /// The names of the children, in stored order.
    pub open spec fn names(&self) -> Seq<Seq<u8>> {
        views(self.keys@)
    }

    /// Well-formedness of a node that has `depth` levels below it: the names
    /// of the children stand in strictly ascending order, every interior
    /// node's value is the sum of its children's values, and the leaves sit
    /// exactly `depth` levels down.
    pub open spec fn wf(&self, depth: nat) -> bool
        decreases depth,
    {
        &&& self.keys@.len() == self.children@.len()
        &&& strictly_ascending(self.names())
        &&& if depth == 0 {
            self.children@.len() == 0
        } else {
            &&& self.value == child_sum(self.children@)
            &&& forall|i: int|
                0 <= i < self.children@.len() ==> (#[trigger] self.children@[i]).wf(
                    (depth - 1) as nat,
                )
        }
    }

    /// Whether the node reached by following `path` from here exists.
    pub open spec fn contains(&self, path: Seq<Seq<u8>>) -> bool
        decreases path.len(),
    {
        if path.len() == 0 {
            true
        } else if self.keys@.len() == self.children@.len() && self.names().contains(path[0]) {
            self.children@[self.names().index_of(path[0])].contains(path.drop_first())
        } else {
            false
        }
    }

    /// The seconds accumulated at the node reached by `path`, 0 where there
    /// is no such node.
    pub open spec fn seconds(&self, path: Seq<Seq<u8>>) -> nat
        decreases path.len(),
    {
        if path.len() == 0 {
            self.value as nat
        } else if self.keys@.len() == self.children@.len() && self.names().contains(path[0]) {
            self.children@[self.names().index_of(path[0])].seconds(path.drop_first())
        } else {
            0
        }
    }

    /// The tree as a map from each path that is present to its seconds.
    pub open spec fn view(&self) -> Map<Seq<Seq<u8>>, nat> {
        Map::new(|p: Seq<Seq<u8>>| self.contains(p), |p: Seq<Seq<u8>>| self.seconds(p))
    }

    /// A node without children and without time.
    pub fn new() -> (node: TreeNode)
        ensures
            node.value == 0,
            node.names() == Seq::<Seq<u8>>::empty(),
            forall|depth: nat| node.wf(depth),
            node@ == Map::<Seq<Seq<u8>>, nat>::empty().insert(Seq::empty(), 0nat),
    {
        let node = TreeNode { value: 0, keys: Vec::new(), children: Vec::new() };
        proof {
            assert(node.names() =~= Seq::<Seq<u8>>::empty());
            assert forall|depth: nat| node.wf(depth) by {
                reveal_with_fuel(TreeNode::wf, 2);
                reveal_with_fuel(child_sum, 2);
            }
            assert forall|p: Seq<Seq<u8>>| node.contains(p) == (p == Seq::<Seq<u8>>::empty()) by {
                if p.len() == 0 {
                    assert(p =~= Seq::<Seq<u8>>::empty());
                }
            }
            assert(node@ =~= Map::<Seq<Seq<u8>>, nat>::empty().insert(Seq::empty(), 0nat));
        }
        node
    }

    /// The position of the child called `name`, if there is one: the first
    /// at which it stands.
    pub fn position(&self, name: &[u8]) -> (r: Option<usize>)
        requires
            self.keys@.len() == self.children@.len(),
        ensures
            match r {
                Some(i) => {
                    &&& i < self.names().len()
                    &&& self.names()[i as int] == name@
                    &&& forall|j: int| 0 <= j < i ==> self.names()[j] != name@
                },
                None => !self.names().contains(name@),
            },
    {
        let mut i: usize = 0;
        while i < self.keys.len()
            invariant
                0 <= i <= self.keys@.len(),
                forall|j: int| 0 <= j < i ==> self.names()[j] != name@,
            decreases self.keys@.len() - i,
        {
            if bytes_eq(self.keys[i].as_slice(), name) {
                return Some(i);
            }
            i = i + 1;
        }
        None
    }

    /// Adds `time` seconds to a leaf.
    fn add_leaf(&mut self, time: u64)
        requires
            old(self).wf(0),
            old(self).value + time <= u128::MAX,
        ensures
            final(self).wf(0),
            final(self).value == old(self).value + time,
            final(self)@ == add_path(old(self)@, Seq::empty(), time as nat),
    {
        let ghost o = *self;
        self.value = self.value + time as u128;
        proof {
            lemma_leaf_view(o);
            lemma_leaf_view(*self);
            assert forall|p: Seq<Seq<u8>>|
                p.is_prefix_of(Seq::<Seq<u8>>::empty()) <==> p == Seq::<Seq<u8>>::empty() by {
                if p.len() == 0 {
                    assert(p =~= Seq::<Seq<u8>>::empty());
                    assert(p =~= Seq::<Seq<u8>>::empty().subrange(0, 0));
                }
            }
            assert(self@ =~= add_path(o@, Seq::<Seq<u8>>::empty(), time as nat));
        }
    }

    /// Adds `time` seconds to this node and to its child `activity`, which is
    /// created if absent. The node is one whose children are leaves.
    pub fn insert1(&mut self, activity: &[u8], time: u64)
        requires
            old(self).wf(1),
            old(self).value + time <= u128::MAX,
        ensures
            final(self).wf(1),
            final(self).value == old(self).value + time,
            final(self)@ == add_path(old(self)@, seq![activity@], time as nat),
    {
        let ghost o = *self;
        let ghost rest: Seq<Seq<u8>> = Seq::empty();
        proof {
            assert(seq![activity@] + rest =~= seq![activity@]);
            lemma_ascending_distinct(o.names());
        }
        let (found, at) = locate(&self.keys, activity);
        self.value = self.value + time as u128;
        if found {
            proof {
                lemma_child_sum_bound(o.children@, at as int);
                assert(o.children@[at as int].wf(0));
            }
            let child = &mut self.children[at];
            child.add_leaf(time);
            proof {
                let n = *self;
                lemma_child_sum_update(o.children@, at as int, n.children@[at as int]);
                assert(n.names() =~= o.names());
                lemma_view_after_update(o, n, at as int, rest, time as nat);
                assert(n.wf(1)) by {
                    assert forall|j: int| 0 <= j < n.children@.len() implies (
                    #[trigger] n.children@[j]).wf(0) by {
                        if j != at {
                            assert(o.children@[j].wf(0));
                        }
                    }
                }
            }
        } else {
            let mut node = TreeNode::new();
            node.add_leaf(time);
            self.keys.insert(at, to_vec(activity));
            self.children.insert(at, node);
            proof {
                let n = *self;
                lemma_child_sum_insert(o.children@, at as int, node);
                assert(n.names() =~= o.names().insert(at as int, activity@));
                lemma_ascending_insert(o.names(), at as int, activity@);
                lemma_ascending_distinct(n.names());
                lemma_view_after_insert(o, n, at as int, activity@, rest, time as nat);
                assert(n.wf(1)) by {
                    assert forall|j: int| 0 <= j < n.children@.len() implies (
                    #[trigger] n.children@[j]).wf(0) by {
                        if j < at {
                            assert(o.children@[j].wf(0));
                        } else if j > at {
                            assert(o.children@[j - 1].wf(0));
                        }
                    }
                }
            }
        }
    }

    /// Adds `time` seconds to this node, to its child `minor` and to that
    /// child's child `activity`, creating either if absent.
    pub fn insert2(&mut self, minor: &[u8], activity: &[u8], time: u64)
        requires
            old(self).wf(2),
            old(self).value + time <= u128::MAX,
        ensures
            final(self).wf(2),
            final(self).value == old(self).value + time,
            final(self)@ == add_path(old(self)@, seq![minor@, activity@], time as nat),
    {
        let ghost o = *self;
        let ghost rest: Seq<Seq<u8>> = seq![activity@];
        proof {
            assert(seq![minor@] + rest =~= seq![minor@, activity@]);
            lemma_ascending_distinct(o.names());
        }
        let (found, at) = locate(&self.keys, minor);
        self.value = self.value + time as u128;
        if found {
            proof {
                lemma_child_sum_bound(o.children@, at as int);
                assert(o.children@[at as int].wf(1));
            }
            let child = &mut self.children[at];
            child.insert1(activity, time);
            proof {
                let n = *self;
                lemma_child_sum_update(o.children@, at as int, n.children@[at as int]);
                assert(n.names() =~= o.names());
                lemma_view_after_update(o, n, at as int, rest, time as nat);
                assert(n.wf(2)) by {
                    assert forall|j: int| 0 <= j < n.children@.len() implies (
                    #[trigger] n.children@[j]).wf(1) by {
                        if j != at {
                            assert(o.children@[j].wf(1));
                        }
                    }
                }
            }
        } else {
            let mut node = TreeNode::new();
            node.insert1(activity, time);
            self.keys.insert(at, to_vec(minor));
            self.children.insert(at, node);
            proof {
                let n = *self;
                lemma_child_sum_insert(o.children@, at as int, node);
                assert(n.names() =~= o.names().insert(at as int, minor@));
                lemma_ascending_insert(o.names(), at as int, minor@);
                lemma_ascending_distinct(n.names());
                lemma_view_after_insert(o, n, at as int, minor@, rest, time as nat);
                assert(n.wf(2)) by {
                    assert forall|j: int| 0 <= j < n.children@.len() implies (
                    #[trigger] n.children@[j]).wf(1) by {
                        if j < at {
                            assert(o.children@[j].wf(1));
                        } else if j > at {
                            assert(o.children@[j - 1].wf(1));
                        }
                    }
                }
            }
        }
    }

    /// Adds `time` seconds along `major.minor.activity`: to the root, which
    /// this node is, and to the three nodes on the path, creating those that
    /// are absent.
    pub fn insert(&mut self, major: &[u8], minor: &[u8], activity: &[u8], time: u64)
        requires
            old(self).wf(3),
            old(self).value + time <= u128::MAX,
        ensures
            final(self).wf(3),
            final(self).value == old(self).value + time,
            final(self)@ == add_path(old(self)@, seq![major@, minor@, activity@], time as nat),
    {
        let ghost o = *self;
        let ghost rest: Seq<Seq<u8>> = seq![minor@, activity@];
        proof {
            assert(seq![major@] + rest =~= seq![major@, minor@, activity@]);
            lemma_ascending_distinct(o.names());
        }
        let (found, at) = locate(&self.keys, major);
        self.value = self.value + time as u128;
        if found {
            proof {
                lemma_child_sum_bound(o.children@, at as int);
                assert(o.children@[at as int].wf(2));
            }
            let child = &mut self.children[at];
            child.insert2(minor, activity, time);
            proof {
                let n = *self;
                lemma_child_sum_update(o.children@, at as int, n.children@[at as int]);
                assert(n.names() =~= o.names());
                lemma_view_after_update(o, n, at as int, rest, time as nat);
                assert(n.wf(3)) by {
                    assert forall|j: int| 0 <= j < n.children@.len() implies (
                    #[trigger] n.children@[j]).wf(2) by {
                        if j != at {
                            assert(o.children@[j].wf(2));
                        }
                    }
                }
            }
        } else {
            let mut node = TreeNode::new();
            node.insert2(minor, activity, time);
            self.keys.insert(at, to_vec(major));
            self.children.insert(at, node);
            proof {
                let n = *self;
                lemma_child_sum_insert(o.children@, at as int, node);
                assert(n.names() =~= o.names().insert(at as int, major@));
                lemma_ascending_insert(o.names(), at as int, major@);
                lemma_ascending_distinct(n.names());
                lemma_view_after_insert(o, n, at as int, major@, rest, time as nat);
                assert(n.wf(3)) by {
                    assert forall|j: int| 0 <= j < n.children@.len() implies (
                    #[trigger] n.children@[j]).wf(2) by {
                        if j < at {
                            assert(o.children@[j].wf(2));
                        } else if j > at {
                            assert(o.children@[j - 1].wf(2));
                        }
                    }
                }
            }
        }
    }

    /// The seconds accumulated by the child called `name`, 0 if there is no
    /// such child.
    pub fn child_seconds(&self, name: &[u8]) -> (seconds: u128)
        requires
            self.keys@.len() == self.children@.len(),
            self.names().no_duplicates(),
        ensures
            seconds == self.seconds(seq![name@]),
    {
        proof {
            reveal_with_fuel(TreeNode::seconds, 2);
            assert(seq![name@].drop_first() =~= Seq::<Seq<u8>>::empty());
            assert(seq![name@][0] == name@);
        }
        match self.position(name) {
            Some(i) => {
                proof {
                    lemma_index_of(self.names(), i as int);
                }
                self.children[i].value
            },
            None => 0,
        }
    }

    /// The names of the children, which stand in lexicographic order.
    pub fn sorted_keys(&self) -> (keys: Vec<Vec<u8>>)
        requires
            self.keys@.len() == self.children@.len(),
            strictly_ascending(self.names()),
        ensures
            keys@.len() == self.names().len(),
            forall|i: int| 0 <= i < keys@.len() ==> (#[trigger] keys@[i])@ == self.names()[i],
            forall|i: int, j: int|
                0 <= i < j < keys@.len() ==> lex_le(#[trigger] keys@[i]@, #[trigger] keys@[j]@),
    {
        let mut keys: Vec<Vec<u8>> = Vec::new();
        let mut i: usize = 0;
        while i < self.keys.len()
            invariant
                0 <= i <= self.keys@.len(),
                keys@.len() == i,
                forall|a: int| 0 <= a < i ==> (#[trigger] keys@[a])@ == self.names()[a],
            decreases self.keys@.len() - i,
        {
            keys.push(to_vec(self.keys[i].as_slice()));
            i = i + 1;
        }
        proof {
            assert forall|a: int, b: int| 0 <= a < b < keys@.len() implies lex_le(
                #[trigger] keys@[a]@,
                #[trigger] keys@[b]@,
            ) by {
                assert(lex_le(self.names()[a], self.names()[b]));
            }
        }
        keys
    }
}

/// A leaf holds its own value at the empty path and nothing else.
pub(crate) proof fn lemma_leaf_view(node: TreeNode)
    requires
        node.wf(0),
    ensures
        node@ == Map::<Seq<Seq<u8>>, nat>::empty().insert(Seq::empty(), node.value as nat),
{
    assert(node.names() =~= Seq::<Seq<u8>>::empty());
    assert forall|p: Seq<Seq<u8>>| node.contains(p) == (p == Seq::<Seq<u8>>::empty()) by {
        if p.len() == 0 {
            assert(p =~= Seq::<Seq<u8>>::empty());
        }
    }
    assert(node@ =~= Map::<Seq<Seq<u8>>, nat>::empty().insert(Seq::empty(), node.value as nat));
}

} // verus!