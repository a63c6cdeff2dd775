//! The spatial index: an r-tree of points tagged with their identifiers,
//! answering nearest-point queries.

use vstd::multiset::Multiset;
use vstd::prelude::*;

verus! {

/// Holds an `rstar::RTree` of points, each tagged with an identifier.
/// Verus sees it only through `tree_entries` and the three functions below.
#[verifier::external_body]
pub struct TaggedTree {
    tree: rstar::RTree<rstar::primitives::GeomWithData<[i128; 3], usize>>,
}

/// The elements of an r-tree of tagged points: coordinates, then the tag.
pub uninterp spec fn tree_entries(t: TaggedTree) -> Multiset<(i128, i128, i128, usize)>;

/// Largest coordinate magnitude the index holds or is queried with; areas
/// of the tree's boxes then stay far inside `i128`.
pub const INDEX_LIMIT: i128 = 137_438_953_472;

pub open spec fn entry_bounded(e: (i128, i128, i128, usize)) -> bool {
    -INDEX_LIMIT <= e.0 <= INDEX_LIMIT && -INDEX_LIMIT <= e.1 <= INDEX_LIMIT && -INDEX_LIMIT
        <= e.2 <= INDEX_LIMIT
}

pub open spec fn all_bounded(m: Multiset<(i128, i128, i128, usize)>) -> bool {
    forall|e| #[trigger] m.contains(e) ==> entry_bounded(e)
}

/// Squared distance from an entry to the query point `(x, y, z)`.
pub open spec fn entry_dist2(e: (i128, i128, i128, usize), x: int, y: int, z: int) -> int {
    (e.0 - x) * (e.0 - x) + (e.1 - y) * (e.1 - y) + (e.2 - z) * (e.2 - z)
}

/// Relies on rstar::RTree::new: a new tree holds no element.
#[verifier::external_body]
pub(crate) fn tree_new() -> (t: TaggedTree)
    ensures
        tree_entries(t) =~= Multiset::empty(),
{
    TaggedTree { tree: rstar::RTree::new() }
}

/// Relies on rstar::RTree::insert: the element is added and every other
/// element stays. With every coordinate within `INDEX_LIMIT`, the box
/// areas and squared distances that insertion computes stay inside `i128`.
#[verifier::external_body]
pub(crate) fn tree_insert(
    t: &mut TaggedTree,
    x: i128,
    y: i128,
    z: i128,
    id: usize,
)
    requires
        all_bounded(tree_entries(*old(t))),
        entry_bounded((x, y, z, id)),
    ensures
        tree_entries(*final(t)) =~= tree_entries(*old(t)).insert((x, y, z, id)),
{
    t.tree.insert(rstar::primitives::GeomWithData::new([x, y, z], id))
}

/// Relies on rstar::RTree::nearest_neighbor: for a tree that is not empty,
/// an element at the least squared distance from the query; `None` for an
/// empty tree.
#[verifier::external_body]
pub(crate) fn tree_nearest(
    t: &TaggedTree,
    x: i128,
    y: i128,
    z: i128,
) -> (r: Option<(i128, i128, i128, usize)>)
    requires
        all_bounded(tree_entries(*t)),
        -INDEX_LIMIT <= x <= INDEX_LIMIT,
        -INDEX_LIMIT <= y <= INDEX_LIMIT,
        -INDEX_LIMIT <= z <= INDEX_LIMIT,
    ensures
        r is None <==> tree_entries(*t).len() == 0,
        r matches Some(e) ==> {
            &&& tree_entries(*t).contains(e)
            &&& forall|f| #[trigger]
                tree_entries(*t).contains(f) ==> entry_dist2(e, x as int, y as int, z as int)
                    <= entry_dist2(f, x as int, y as int, z as int)
        },
{
    t.tree.nearest_neighbor([x, y, z]).map(|e| (e.geom()[0], e.geom()[1], e.geom()[2], e.data))
}

} // verus!
