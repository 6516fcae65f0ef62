//! What holds of every well-formed tree and of the tree of every window.

use crate::band::law_sleep_excluded;
use crate::order::strictly_ascending;
use crate::parse::band_of;
use crate::parse::path_of;
use crate::parse::sleep_tag;
use crate::parse::tree_of;
use crate::parse::well_tagged;
use crate::parse::Event;
use crate::parse::Span;
use crate::text::join;
use crate::text::lemma_split_join;
use crate::text::split;
use crate::tree_node::child_sum;
use crate::tree_node::TreeNode;
use vstd::prelude::*;

verus! {

/// The path `health`, `rest`, `sleep`.
pub open spec fn sleep_path() -> Seq<Seq<u8>> {
    seq![
        seq![104u8, 101u8, 97u8, 108u8, 116u8, 104u8],
        seq![114u8, 101u8, 115u8, 116u8],
        seq![115u8, 108u8, 101u8, 101u8, 112u8],
    ]
}

/// Whether every interval of a band has a tag of exactly three components.
pub open spec fn three_part_tags(band: Seq<Span>) -> bool {
    forall|i: int| 0 <= i < band.len() ==> split((#[trigger] band[i]).tag, 46u8).len() == 3
}

/// The tree sum invariant: in a well-formed tree the value of the root and
/// of every major and minor node is the sum of the values of its children.
pub proof fn law_tree_sums(tree: TreeNode)
    requires
        tree.wf(3),
    ensures
        tree.value == child_sum(tree.children@),
        forall|a: int|
            0 <= a < tree.children@.len() ==> (#[trigger] tree.children@[a]).value == child_sum(
                tree.children@[a].children@,
            ),
        forall|a: int, b: int|
            0 <= a < tree.children@.len() && 0 <= b < tree.children@[a].children@.len() ==> (
            #[trigger] tree.children@[a].children@[b]).value == child_sum(
                tree.children@[a].children@[b].children@,
            ),
{
    assert forall|a: int| 0 <= a < tree.children@.len() implies (
    #[trigger] tree.children@[a]).value == child_sum(tree.children@[a].children@) by {
        assert(tree.children@[a].wf(2));
    }
    assert forall|a: int, b: int|
        0 <= a < tree.children@.len() && 0 <= b < tree.children@[a].children@.len() implies (
    #[trigger] tree.children@[a].children@[b]).value == child_sum(
        tree.children@[a].children@[b].children@,
    ) by {
        assert(tree.children@[a].wf(2));
        assert(tree.children@[a].children@[b].wf(1));
    }
}

/// Sort stability: in a well-formed tree the names of the children of the
/// root and of every major and minor node stand in strictly ascending
/// lexicographic order, which is the order in which the views list them.
pub proof fn law_siblings_in_order(tree: TreeNode)
    requires
        tree.wf(3),
    ensures
        strictly_ascending(tree.names()),
        forall|a: int|
            0 <= a < tree.children@.len() ==> strictly_ascending(
                (#[trigger] tree.children@[a]).names(),
            ),
        forall|a: int, b: int|
            0 <= a < tree.children@.len() && 0 <= b < tree.children@[a].children@.len()
                ==> strictly_ascending((#[trigger] tree.children@[a].children@[b]).names()),
{
    assert forall|a: int| 0 <= a < tree.children@.len() implies strictly_ascending(
        (#[trigger] tree.children@[a]).names(),
    ) by {
        assert(tree.children@[a].wf(2));
    }
    assert forall|a: int, b: int|
        0 <= a < tree.children@.len() && 0 <= b < tree.children@[a].children@.len() implies strictly_ascending(
        (#[trigger] tree.children@[a].children@[b]).names(),
    ) by {
        assert(tree.children@[a].wf(2));
        assert(tree.children@[a].children@[b].wf(1));
    }
}

/// Every activity of the tree of a band is the path of one of its
/// intervals.
pub(crate) proof fn lemma_tree_paths(band: Seq<Span>, path: Seq<Seq<u8>>)
    requires
        well_tagged(band),
        path.len() == 3,
        tree_of(band).dom().contains(path),
    ensures
        exists|i: int| 0 <= i < band.len() && path_of(#[trigger] band[i].tag) == Some(path),
    decreases band.len(),
{
    if band.len() == 0 {
        assert(path != Seq::<Seq<u8>>::empty());
    } else {
        let last = path_of(band.last().tag).unwrap();
        if tree_of(band.drop_last()).dom().contains(path) {
            assert(well_tagged(band.drop_last())) by {
                assert forall|i: int| 0 <= i < band.drop_last().len() implies path_of(
                    (#[trigger] band.drop_last()[i]).tag,
                ).is_some() by {
                    assert(band.drop_last()[i] == band[i]);
                }
            }
            lemma_tree_paths(band.drop_last(), path);
            let i = choose|i: int|
                0 <= i < band.drop_last().len() && path_of(#[trigger] band.drop_last()[i].tag)
                    == Some(path);
            assert(band[i] == band.drop_last()[i]);
        } else {
            assert(path.is_prefix_of(last));
            assert(path =~= last);
            assert(path_of(band[band.len() - 1].tag) == Some(path));
        }
    }
}

/// Sleep exclusion in the tree: where every tag of the band of a window
/// has exactly three components, the tree of the window has no node
/// `health.rest.sleep`.
pub proof fn law_sleep_not_in_tree(events: Seq<Event>, begin: u64, end: u64)
    requires
        three_part_tags(band_of(events, begin, end)),
    ensures
        !tree_of(band_of(events, begin, end)).dom().contains(sleep_path()),
{
    let band = band_of(events, begin, end);
    assert(well_tagged(band)) by {
        assert forall|i: int| 0 <= i < band.len() implies path_of(
            (#[trigger] band[i]).tag,
        ).is_some() by {
            assert(split(band[i].tag, 46u8).len() == 3);
        }
    }
    if tree_of(band).dom().contains(sleep_path()) {
        lemma_tree_paths(band, sleep_path());
        let i = choose|i: int|
            0 <= i < band.len() && path_of(#[trigger] band[i].tag) == Some(sleep_path());
        let parts = split(band[i].tag, 46u8);
        assert(parts.len() == 3);
        assert(parts =~= sleep_path());
        lemma_split_join(band[i].tag, 46u8);
        reveal_with_fuel(join, 4);
        assert(sleep_path().drop_last().drop_last() =~= seq![sleep_path()[0]]);
        assert(join(sleep_path(), 46u8) =~= sleep_tag());
        law_sleep_excluded(events, begin, end);
    }
}

} // verus!
