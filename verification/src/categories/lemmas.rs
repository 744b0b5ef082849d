//! Facts about depth bounds and about the forest cut off at a depth.

use vstd::prelude::*;
use crate::categories::model::{
    children_of, depth_within, forest_to_depth, height, is_height, Row, Tree,
};

verus! {

/// A depth bound stays a bound when it grows.
pub proof fn lemma_depth_within_monotone(rows: Seq<Row>, parent: u64, depth: nat, more: nat)
    requires
        depth_within(rows, parent, depth),
        depth <= more,
    ensures
        depth_within(rows, parent, more),
    decreases depth,
{
    assert forall|i: int|
        0 <= i < rows.len() && (#[trigger] rows[i]).parent_id == parent implies more > 0
        && depth_within(rows, rows[i].id, (more - 1) as nat) by {
        lemma_depth_within_monotone(rows, rows[i].id, (depth - 1) as nat, (more - 1) as nat);
    }
}

/// Where some depth bounds the chains below `parent`, `height` is the least
/// such depth.
pub proof fn lemma_height_is_least(rows: Seq<Row>, parent: u64, depth: nat)
    requires
        depth_within(rows, parent, depth),
    ensures
        is_height(rows, parent, height(rows, parent)),
        height(rows, parent) <= depth,
    decreases depth,
{
    if exists|e: nat| e < depth && depth_within(rows, parent, e) {
        let e = choose|e: nat| e < depth && depth_within(rows, parent, e);
        lemma_height_is_least(rows, parent, e);
    } else {
        assert(is_height(rows, parent, depth));
    }
}

/// A row below `parent` has fewer levels below it than `parent` has.
pub proof fn lemma_child_height(rows: Seq<Row>, parent: u64, depth: nat, i: int)
    requires
        depth_within(rows, parent, depth),
        0 <= i < rows.len(),
        rows[i].parent_id == parent,
    ensures
        height(rows, rows[i].id) < height(rows, parent),
        depth > 0,
        depth_within(rows, rows[i].id, (depth - 1) as nat),
{
    lemma_height_is_least(rows, parent, depth);
    let h = height(rows, parent);
    lemma_height_is_least(rows, rows[i].id, (h - 1) as nat);
}

/// No row has `parent` as its parent exactly when `children_of` is empty.
pub proof fn lemma_children_of_empty(rows: Seq<Row>, parent: u64)
    ensures
        children_of(rows, parent).len() == 0 <==> forall|i: int|
            0 <= i < rows.len() ==> (#[trigger] rows[i]).parent_id != parent,
{
    let pred = |r: Row| r.parent_id == parent;
    let kids = rows.filter(pred);
    if kids.len() > 0 {
        rows.lemma_filter_pred(pred, 0);
        rows.lemma_filter_contains_rev(pred, kids[0]);
    }
    if exists|i: int| 0 <= i < rows.len() && (#[trigger] rows[i]).parent_id == parent {
        let i = choose|i: int| 0 <= i < rows.len() && (#[trigger] rows[i]).parent_id == parent;
        rows.lemma_filter_contains(pred, i);
    }
}

/// Past a depth that bounds the chains below `parent`, cutting the forest
/// deeper changes nothing.
pub proof fn lemma_forest_stable(rows: Seq<Row>, parent: u64, depth: nat, more: nat)
    requires
        depth_within(rows, parent, depth),
        depth <= more,
    ensures
        forest_to_depth(rows, parent, depth) == forest_to_depth(rows, parent, more),
    decreases depth,
{
    let kids = children_of(rows, parent);
    let low = forest_to_depth(rows, parent, depth);
    let high = forest_to_depth(rows, parent, more);
    if depth == 0 {
        lemma_children_of_empty(rows, parent);
    } else {
        assert forall|j: int| 0 <= j < low.len() implies low[j] == high[j] by {
            let r = kids[j];
            let pred = |r: Row| r.parent_id == parent;
            rows.lemma_filter_pred(pred, j);
            rows.lemma_filter_contains_rev(pred, r);
            lemma_forest_stable(rows, r.id, (depth - 1) as nat, (more - 1) as nat);
        }
    }
}

} // verus!
