//! What holds of every forest that is built from rows.

use vstd::prelude::*;
use crate::categories::chains::{
    child_positions, lemma_chain_depth, lemma_chain_fits, lemma_chain_no_duplicates,
    lemma_child_positions, lemma_long_chain,
};
use crate::categories::ids::{
    forest_rows, lemma_chain_end_in_forest, lemma_chain_end_in_forest_rows,
    lemma_forest_id_has_chain, lemma_forest_rows_ids, lemma_forest_trees,
    lemma_prefix_ids_distinct,
};
use crate::categories::lemmas::{
    lemma_children_of_empty, lemma_depth_within_monotone, lemma_forest_stable,
};
use crate::categories::model::{
    acyclic_below, children_of, depth_within, distinct_ids_below, forest_ids, forest_of, is_chain,
    reachable, reaches_row, Row, Tree,
};

verus! {

/// The hierarchy below `parent` is acyclic exactly when no chain of rows
/// that leads down from `parent` comes to the same row twice.
pub proof fn lemma_acyclic_iff_no_chain_repeats(rows: Seq<Row>, parent: u64)
    ensures
        acyclic_below(rows, parent) <==> forall|path: Seq<int>| #[trigger]
            is_chain(rows, parent, path) ==> path.no_duplicates(),
{
    if acyclic_below(rows, parent) {
        assert forall|path: Seq<int>| #[trigger]
            is_chain(rows, parent, path) implies path.no_duplicates() by {
            lemma_chain_no_duplicates(rows, parent, rows.len(), path);
        }
    }
    if !acyclic_below(rows, parent) {
        let path = lemma_long_chain(rows, parent, rows.len());
        if path.no_duplicates() {
            lemma_chain_fits(rows, parent, path);
        }
    }
}

/// The hierarchy below `parent` is acyclic as soon as any depth bounds the
/// chains below `parent`.
pub proof fn lemma_bounded_is_acyclic(rows: Seq<Row>, parent: u64, depth: nat)
    requires
        depth_within(rows, parent, depth),
    ensures
        acyclic_below(rows, parent),
{
    if !acyclic_below(rows, parent) {
        let path = lemma_long_chain(rows, parent, rows.len());
        lemma_chain_no_duplicates(rows, parent, depth, path);
        lemma_chain_fits(rows, parent, path);
    }
}

/// With no rows the hierarchy below any parent is acyclic, and the forest
/// below it is empty.
pub proof fn lemma_no_rows_no_forest(parent: u64)
    ensures
        acyclic_below(Seq::<Row>::empty(), parent),
        forest_of(Seq::<Row>::empty(), parent) == Seq::<Tree>::empty(),
{
}

/// The forest below `parent` holds one tree for each row whose parent is
/// `parent`, in input order; each tree carries the identifier and the name
/// of its row, and as children the whole forest below that row, which is
/// acyclic in its turn.
pub proof fn lemma_forest_shape(rows: Seq<Row>, parent: u64)
    requires
        acyclic_below(rows, parent),
    ensures
        forest_of(rows, parent) == children_of(rows, parent).map_values(
            |r: Row| (Tree { id: r.id, name: r.name, children: forest_of(rows, r.id) }),
        ),
        forall|j: int|
            0 <= j < children_of(rows, parent).len() ==> acyclic_below(
                rows,
                (#[trigger] children_of(rows, parent)[j]).id,
            ),
{
    let kids = children_of(rows, parent);
    let shaped = kids.map_values(
        |r: Row| Tree { id: r.id, name: r.name, children: forest_of(rows, r.id) },
    );
    lemma_children_of_empty(rows, parent);
    lemma_child_positions(rows, parent);
    assert forall|j: int| 0 <= j < kids.len() implies acyclic_below(rows, (#[trigger] kids[j]).id)
        && forest_of(rows, parent)[j] == shaped[j] by {
        assert(rows[child_positions(rows, parent)[j]] == kids[j]);
        let below = (rows.len() - 1) as nat;
        lemma_depth_within_monotone(rows, kids[j].id, below, rows.len());
        lemma_forest_stable(rows, kids[j].id, below, rows.len());
    }
}

/// The identifiers that stand in the forest below `parent` are those of the
/// rows found by following parent pointers forward from `parent`.
pub proof fn lemma_forest_ids_are_reachable(rows: Seq<Row>, parent: u64)
    requires
        acyclic_below(rows, parent),
    ensures
        forall|id: u64| #[trigger]
            forest_ids(forest_of(rows, parent)).contains(id) <==> reachable(rows, parent, id),
        forest_ids(forest_of(rows, parent)).to_set() == Set::new(
            |id: u64| reachable(rows, parent, id),
        ),
{
    let ids = forest_ids(forest_of(rows, parent));
    assert forall|id: u64| #[trigger] ids.contains(id) <==> reachable(rows, parent, id) by {
        if ids.contains(id) {
            let path = lemma_forest_id_has_chain(rows, parent, rows.len(), id);
            assert(reaches_row(rows, parent, path.last()));
        }
        if reachable(rows, parent, id) {
            let i = choose|i: int| #[trigger] reaches_row(rows, parent, i) && rows[i].id == id;
            let path = choose|path: Seq<int>| #[trigger]
                is_chain(rows, parent, path) && path.last() == i;
            lemma_chain_end_in_forest(rows, parent, rows.len(), path);
        }
    }
}

/// No identifier stands twice in the forest below `parent` exactly when the
/// rows found from `parent` carry distinct identifiers.
pub proof fn lemma_forest_ids_distinct(rows: Seq<Row>, parent: u64)
    requires
        acyclic_below(rows, parent),
    ensures
        forest_ids(forest_of(rows, parent)).no_duplicates() <==> distinct_ids_below(rows, parent),
{
    let forest = forest_of(rows, parent);
    let ids = forest_ids(forest);
    if distinct_ids_below(rows, parent) {
        lemma_prefix_ids_distinct(rows, parent, rows.len(), forest.len() as int);
        assert(forest.take(forest.len() as int) =~= forest);
    } else {
        let (a, b) = choose|a: int, b: int|
            #![trigger reaches_row(rows, parent, a), reaches_row(rows, parent, b)]
            reaches_row(rows, parent, a) && reaches_row(rows, parent, b) && a != b && rows[a].id
                == rows[b].id;
        let to_a = choose|path: Seq<int>| #[trigger]
            is_chain(rows, parent, path) && path.last() == a;
        let to_b = choose|path: Seq<int>| #[trigger]
            is_chain(rows, parent, path) && path.last() == b;
        let count = child_positions(rows, parent).len();
        let places = forest_rows(rows, parent, rows.len(), count);
        lemma_chain_depth(rows, parent, rows.len(), to_a);
        lemma_child_positions(rows, parent);
        lemma_forest_trees(rows, parent, rows.len());
        lemma_forest_rows_ids(rows, parent, rows.len(), count);
        assert(forest.take(count as int) =~= forest);
        lemma_chain_end_in_forest_rows(rows, parent, rows.len(), to_a);
        lemma_chain_end_in_forest_rows(rows, parent, rows.len(), to_b);
        let ka = choose|k: int| 0 <= k < places.len() && places[k] == a;
        let kb = choose|k: int| 0 <= k < places.len() && places[k] == b;
        assert(ids[ka] == rows[a].id);
        assert(ids[kb] == rows[b].id);
    }
}

} // verus!
