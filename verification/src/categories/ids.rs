//! The identifiers in a forest, traced back to the rows and chains that
//! they come from.

use vstd::prelude::*;
use vstd::seq_lib::lemma_no_dup_in_concat;
use crate::categories::chains::{
    child_positions, lemma_chain_depth, lemma_chain_never_returns, lemma_chain_prepend,
    lemma_chain_single, lemma_chain_tail, lemma_chain_unique, lemma_child_positions,
    lemma_distinct_ids_below_child,
};
use crate::categories::model::{
    depth_within, distinct_ids_below, forest_ids, forest_to_depth, is_chain, node_to_depth,
    reaches_row, tree_ids, Row, Tree,
};

verus! {

/// An identifier stands in a forest exactly when it stands in one of its
/// trees.
pub proof fn lemma_forest_ids_contains(forest: Seq<Tree>, id: u64)
    ensures
        forest_ids(forest).contains(id) <==> exists|j: int|
            0 <= j < forest.len() && tree_ids(#[trigger] forest[j]).contains(id),
    decreases forest.len(),
{
    if forest.len() > 0 {
        let front = forest.drop_last();
        let front_ids = forest_ids(front);
        let last_ids = tree_ids(forest.last());
        let all = forest_ids(forest);
        lemma_forest_ids_contains(front, id);
        if exists|j: int| 0 <= j < forest.len() && tree_ids(#[trigger] forest[j]).contains(id) {
            let j = choose|j: int|
                0 <= j < forest.len() && tree_ids(#[trigger] forest[j]).contains(id);
            if j < front.len() {
                assert(front[j] == forest[j]);
                let k = choose|k: int| 0 <= k < front_ids.len() && front_ids[k] == id;
                assert(all[k] == id);
            } else {
                let k = choose|k: int| 0 <= k < last_ids.len() && last_ids[k] == id;
                assert(all[front_ids.len() + k] == id);
            }
        }
    }
}

/// The trees of the forest below `parent` stand for the rows at
/// `child_positions`, one for one.
pub proof fn lemma_forest_trees(rows: Seq<Row>, parent: u64, depth: nat)
    requires
        depth > 0,
    ensures
        forest_to_depth(rows, parent, depth).len() == child_positions(rows, parent).len(),
        forall|j: int|
            0 <= j < child_positions(rows, parent).len() ==> #[trigger] forest_to_depth(
                rows,
                parent,
                depth,
            )[j] == node_to_depth(
                rows,
                rows[child_positions(rows, parent)[j]],
                (depth - 1) as nat,
            ),
{
    lemma_child_positions(rows, parent);
}

/// An identifier in the tree of the `j`-th row below `parent` belongs to a
/// row at the end of a chain that starts with that row.
pub proof fn lemma_tree_id_has_chain(
    rows: Seq<Row>,
    parent: u64,
    depth: nat,
    j: int,
    id: u64,
) -> (path: Seq<int>)
    requires
        depth_within(rows, parent, depth),
        depth > 0,
        0 <= j < child_positions(rows, parent).len(),
        tree_ids(forest_to_depth(rows, parent, depth)[j]).contains(id),
    ensures
        is_chain(rows, parent, path),
        path[0] == child_positions(rows, parent)[j],
        rows[path.last()].id == id,
    decreases depth, 0nat,
{
    lemma_child_positions(rows, parent);
    lemma_forest_trees(rows, parent, depth);
    let i = child_positions(rows, parent)[j];
    let tree = forest_to_depth(rows, parent, depth)[j];
    let ids = tree_ids(tree);
    let k = choose|k: int| 0 <= k < ids.len() && ids[k] == id;
    if k == 0 {
        lemma_chain_single(rows, parent, i);
        seq![i]
    } else {
        let rest = lemma_forest_id_has_chain(rows, rows[i].id, (depth - 1) as nat, id);
        lemma_chain_prepend(rows, parent, i, rest);
        seq![i] + rest
    }
}

/// An identifier in the forest below `parent` belongs to a row at the end
/// of a chain below `parent`.
pub proof fn lemma_forest_id_has_chain(rows: Seq<Row>, parent: u64, depth: nat, id: u64) -> (path:
    Seq<int>)
    requires
        depth_within(rows, parent, depth),
        forest_ids(forest_to_depth(rows, parent, depth)).contains(id),
    ensures
        is_chain(rows, parent, path),
        rows[path.last()].id == id,
    decreases depth, 1nat,
{
    let forest = forest_to_depth(rows, parent, depth);
    lemma_forest_ids_contains(forest, id);
    let j = choose|j: int| 0 <= j < forest.len() && tree_ids(#[trigger] forest[j]).contains(id);
    lemma_forest_trees(rows, parent, depth);
    lemma_tree_id_has_chain(rows, parent, depth, j, id)
}

/// The row at the end of a chain below `parent` has its identifier in the
/// forest below `parent`.
pub proof fn lemma_chain_end_in_forest(rows: Seq<Row>, parent: u64, depth: nat, path: Seq<int>)
    requires
        depth_within(rows, parent, depth),
        is_chain(rows, parent, path),
    ensures
        forest_ids(forest_to_depth(rows, parent, depth)).contains(rows[path.last()].id),
    decreases path.len(),
{
    let id = rows[path.last()].id;
    let i = path[0];
    lemma_chain_depth(rows, parent, depth, path);
    lemma_child_positions(rows, parent);
    lemma_forest_trees(rows, parent, depth);
    let forest = forest_to_depth(rows, parent, depth);
    let j = choose|j: int|
        0 <= j < child_positions(rows, parent).len() && #[trigger] child_positions(rows, parent)[j]
            == i;
    let tree = forest[j];
    let ids = tree_ids(tree);
    if path.len() == 1 {
        assert(ids[0] == id);
    } else {
        lemma_chain_tail(rows, parent, path);
        lemma_chain_end_in_forest(rows, rows[i].id, (depth - 1) as nat, path.drop_first());
        let below = forest_ids(tree.children);
        let k = choose|k: int| 0 <= k < below.len() && below[k] == id;
        assert(ids[k + 1] == id);
    }
    lemma_forest_ids_contains(forest, id);
}

/// Where a depth bound holds and the rows found from `parent` carry distinct
/// identifiers, no identifier stands twice in the first `count` trees of
/// the forest below `parent`.
pub proof fn lemma_prefix_ids_distinct(rows: Seq<Row>, parent: u64, depth: nat, count: int)
    requires
        depth_within(rows, parent, depth),
        distinct_ids_below(rows, parent),
        0 <= count <= forest_to_depth(rows, parent, depth).len(),
    ensures
        forest_ids(forest_to_depth(rows, parent, depth).take(count)).no_duplicates(),
    decreases depth, count,
{
    let forest = forest_to_depth(rows, parent, depth);
    let prefix = forest.take(count);
    if count > 0 {
        lemma_child_positions(rows, parent);
        lemma_forest_trees(rows, parent, depth);
        let positions = child_positions(rows, parent);
        let i = positions[count - 1];
        let child = rows[i].id;
        let tree = forest[count - 1];
        assert(prefix.drop_last() =~= forest.take(count - 1));
        let front_ids = forest_ids(forest.take(count - 1));
        let below = forest_ids(tree.children);
        let last_ids = tree_ids(tree);
        lemma_prefix_ids_distinct(rows, parent, depth, count - 1);

        lemma_distinct_ids_below_child(rows, parent, i);
        let lower = forest_to_depth(rows, child, (depth - 1) as nat);
        lemma_prefix_ids_distinct(rows, child, (depth - 1) as nat, lower.len() as int);
        assert(lower.take(lower.len() as int) =~= lower);
        if below.contains(child) {
            let back = lemma_forest_id_has_chain(rows, child, (depth - 1) as nat, child);
            lemma_chain_never_returns(rows, child, (depth - 1) as nat, back);
        }
        assert(last_ids.no_duplicates());
        assert forall|a: int, b: int|
            0 <= a < front_ids.len() && 0 <= b < last_ids.len() implies front_ids[a]
            != last_ids[b] by {
            let id = front_ids[a];
            if id == last_ids[b] {
                lemma_forest_ids_contains(forest.take(count - 1), id);
                let j = choose|j: int|
                    0 <= j < forest.take(count - 1).len() && tree_ids(
                        #[trigger] forest.take(count - 1)[j],
                    ).contains(id);
                let one = lemma_tree_id_has_chain(rows, parent, depth, j, id);
                let other = lemma_tree_id_has_chain(rows, parent, depth, count - 1, id);
                assert(reaches_row(rows, parent, one.last()));
                assert(reaches_row(rows, parent, other.last()));
                lemma_chain_unique(rows, parent, depth, one, other);
            }
        }
        lemma_no_dup_in_concat(front_ids, last_ids);
    }
}

/// The positions of the rows that the nodes of the first `count` trees of
/// the forest below `parent` stand for, in the order of `forest_ids`.
pub open spec fn forest_rows(rows: Seq<Row>, parent: u64, depth: nat, count: nat) -> Seq<int>
    decreases depth, count,
{
    if depth == 0 || count == 0 {
        Seq::empty()
    } else {
        let i = child_positions(rows, parent)[count - 1];
        forest_rows(rows, parent, depth, (count - 1) as nat) + seq![i] + forest_rows(
            rows,
            rows[i].id,
            (depth - 1) as nat,
            child_positions(rows, rows[i].id).len(),
        )
    }
}

/// The identifiers in the first `count` trees of the forest below `parent`
/// are those of the rows at `forest_rows`, place for place.
pub proof fn lemma_forest_rows_ids(rows: Seq<Row>, parent: u64, depth: nat, count: nat)
    requires
        depth == 0 ==> count == 0,
        count <= child_positions(rows, parent).len(),
    ensures
        forest_ids(forest_to_depth(rows, parent, depth).take(count as int)) == forest_rows(
            rows,
            parent,
            depth,
            count,
        ).map_values(|i: int| rows[i].id),
    decreases depth, count,
{
    let id_of = |i: int| rows[i].id;
    let forest = forest_to_depth(rows, parent, depth);
    let prefix = forest.take(count as int);
    if count > 0 {
        lemma_child_positions(rows, parent);
        lemma_forest_trees(rows, parent, depth);
        let i = child_positions(rows, parent)[count - 1];
        let child = rows[i].id;
        let tree = forest[count - 1];
        let lower = forest_to_depth(rows, child, (depth - 1) as nat);
        let lower_count = child_positions(rows, child).len();
        assert(prefix.drop_last() =~= forest.take(count - 1));
        lemma_forest_rows_ids(rows, parent, depth, (count - 1) as nat);
        if depth > 1 {
            lemma_child_positions(rows, child);
            lemma_forest_trees(rows, child, (depth - 1) as nat);
            lemma_forest_rows_ids(rows, child, (depth - 1) as nat, lower_count);
            assert(lower.take(lower_count as int) =~= lower);
        }
        let front_rows = forest_rows(rows, parent, depth, (count - 1) as nat);
        let lower_rows = forest_rows(rows, child, (depth - 1) as nat, lower_count);
        assert((front_rows + seq![i] + lower_rows).map_values(id_of) =~= front_rows.map_values(
            id_of,
        ) + seq![child] + lower_rows.map_values(id_of));
        assert(forest_ids(prefix) == forest_ids(forest.take(count - 1)) + tree_ids(tree));
    }
}

/// `forest_rows` only grows with the number of trees.
pub proof fn lemma_forest_rows_grow(
    rows: Seq<Row>,
    parent: u64,
    depth: nat,
    count: nat,
    more: nat,
    i: int,
)
    requires
        count <= more,
        forest_rows(rows, parent, depth, count).contains(i),
    ensures
        forest_rows(rows, parent, depth, more).contains(i),
    decreases more,
{
    if count < more {
        lemma_forest_rows_grow(rows, parent, depth, count, (more - 1) as nat, i);
        let front = forest_rows(rows, parent, depth, (more - 1) as nat);
        let k = choose|k: int| 0 <= k < front.len() && front[k] == i;
        assert(forest_rows(rows, parent, depth, more)[k] == i);
    }
}

/// Every row at the end of a chain below `parent` stands in `forest_rows`.
pub proof fn lemma_chain_end_in_forest_rows(rows: Seq<Row>, parent: u64, depth: nat, path: Seq<int>)
    requires
        depth_within(rows, parent, depth),
        is_chain(rows, parent, path),
    ensures
        forest_rows(rows, parent, depth, child_positions(rows, parent).len()).contains(
            path.last(),
        ),
    decreases path.len(),
{
    let i = path[0];
    let positions = child_positions(rows, parent);
    lemma_chain_depth(rows, parent, depth, path);
    lemma_child_positions(rows, parent);
    let j = choose|j: int| 0 <= j < positions.len() && #[trigger] positions[j] == i;
    let front = forest_rows(rows, parent, depth, j as nat);
    let lower = forest_rows(
        rows,
        rows[i].id,
        (depth - 1) as nat,
        child_positions(rows, rows[i].id).len(),
    );
    let upto = forest_rows(rows, parent, depth, (j + 1) as nat);
    if path.len() == 1 {
        assert(upto[front.len() as int] == i);
    } else {
        lemma_chain_tail(rows, parent, path);
        lemma_chain_end_in_forest_rows(rows, rows[i].id, (depth - 1) as nat, path.drop_first());
        let k = choose|k: int| 0 <= k < lower.len() && lower[k] == path.last();
        assert(upto[front.len() + 1 + k] == path.last());
    }
    lemma_forest_rows_grow(rows, parent, depth, (j + 1) as nat, positions.len(), path.last());
}

} // verus!
