//! The mathematical model of category rows and of the forest they describe.

use vstd::prelude::*;

verus! {

/// One category record: its identifier, the identifier of its parent, and
/// its name.
pub struct Row {
    pub id: u64,
    pub parent_id: u64,
    pub name: Seq<char>,
}

/// A node of the category tree together with everything below it.
pub struct Tree {
    pub id: u64,
    pub name: Seq<char>,
    pub children: Seq<Tree>,
}

/// The rows whose parent is `parent`, in input order.
pub open spec fn children_of(rows: Seq<Row>, parent: u64) -> Seq<Row> {
    rows.filter(|r: Row| r.parent_id == parent)
}

/// Every chain of rows that starts below `parent`, each row the parent of
/// the next, has at most `depth` members.
pub open spec fn depth_within(rows: Seq<Row>, parent: u64, depth: nat) -> bool
    decreases depth,
{
    forall|i: int|
        0 <= i < rows.len() && (#[trigger] rows[i]).parent_id == parent ==> depth > 0
            && depth_within(rows, rows[i].id, (depth - 1) as nat)
}

/// The hierarchy below `parent` has no cycle: no chain of rows below
/// `parent` is longer than the row list itself. That is the case exactly
/// when no such chain comes to the same row twice.
pub open spec fn acyclic_below(rows: Seq<Row>, parent: u64) -> bool {
    depth_within(rows, parent, rows.len())
}

/// The forest below `parent`, cut off after `depth` levels: one tree for
/// each row whose parent is `parent`, in input order.
pub open spec fn forest_to_depth(rows: Seq<Row>, parent: u64, depth: nat) -> Seq<Tree>
    decreases depth, 0nat,
{
    if depth == 0 {
        Seq::empty()
    } else {
        children_of(rows, parent).map_values(
            |r: Row| node_to_depth(rows, r, (depth - 1) as nat),
        )
    }
}

/// The tree that stands for row `r`: it carries the identifier and the name
/// of `r`, and as children the forest below `r`, cut off after `depth`
/// levels.
pub open spec fn node_to_depth(rows: Seq<Row>, r: Row, depth: nat) -> Tree
    decreases depth, 1nat,
{
    Tree { id: r.id, name: r.name, children: forest_to_depth(rows, r.id, depth) }
}

/// The forest below `parent`. It is the whole hierarchy below `parent`
/// whenever `acyclic_below(rows, parent)` holds.
pub open spec fn forest_of(rows: Seq<Row>, parent: u64) -> Seq<Tree> {
    forest_to_depth(rows, parent, rows.len())
}

/// The identifiers of the nodes of `tree`: its own first, then those of
/// the nodes below it.
pub open spec fn tree_ids(tree: Tree) -> Seq<u64>
    decreases tree,
{
    seq![tree.id] + forest_ids(tree.children)
}

/// The identifiers of the nodes of `forest`, tree after tree, a node
/// before the nodes below it.
pub open spec fn forest_ids(forest: Seq<Tree>) -> Seq<u64>
    decreases forest,
{
    if forest.len() == 0 {
        Seq::empty()
    } else {
        forest_ids(forest.drop_last()) + tree_ids(forest.last())
    }
}

/// `path` lists the positions of rows that lead down from `parent`: the
/// first row has `parent` as its parent, and each later row has the row
/// before it as its parent.
pub open spec fn is_chain(rows: Seq<Row>, parent: u64, path: Seq<int>) -> bool {
    &&& path.len() > 0
    &&& forall|k: int| 0 <= k < path.len() ==> 0 <= #[trigger] path[k] < rows.len()
    &&& rows[path[0]].parent_id == parent
    &&& forall|k: int|
        0 < k < path.len() ==> rows[#[trigger] path[k]].parent_id == rows[path[k - 1]].id
}

/// The row at position `i` is found by following parent pointers forward
/// from `parent`.
pub open spec fn reaches_row(rows: Seq<Row>, parent: u64, i: int) -> bool {
    exists|path: Seq<int>| #[trigger] is_chain(rows, parent, path) && path.last() == i
}

/// Some row with identifier `id` is found by following parent pointers
/// forward from `parent`.
pub open spec fn reachable(rows: Seq<Row>, parent: u64, id: u64) -> bool {
    exists|i: int| #[trigger] reaches_row(rows, parent, i) && rows[i].id == id
}

/// No two rows that are found from `parent` carry the same identifier.
pub open spec fn distinct_ids_below(rows: Seq<Row>, parent: u64) -> bool {
    forall|i: int, j: int|
        #![trigger reaches_row(rows, parent, i), reaches_row(rows, parent, j)]
        reaches_row(rows, parent, i) && reaches_row(rows, parent, j) && i != j ==> rows[i].id
            != rows[j].id
}

/// `depth` bounds every chain below `parent`, and no smaller depth does.
pub open spec fn is_height(rows: Seq<Row>, parent: u64, depth: nat) -> bool {
    &&& depth_within(rows, parent, depth)
    &&& forall|e: nat| e < depth ==> !depth_within(rows, parent, e)
}

/// The number of levels below `parent`: the length of the longest chain of
/// rows below it. Meaningful when some depth bounds those chains.
pub open spec fn height(rows: Seq<Row>, parent: u64) -> nat {
    choose|depth: nat| is_height(rows, parent, depth)
}

} // verus!
