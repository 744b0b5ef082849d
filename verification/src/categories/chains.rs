//! Chains of rows: how they are put together and taken apart, and what a
//! depth bound says of them.

use vstd::prelude::*;
use vstd::set_lib::{lemma_int_range, lemma_len_subset, set_int_range};
use crate::categories::model::{
    children_of, depth_within, distinct_ids_below, is_chain, reaches_row, Row,
};

verus! {

/// A row whose parent is `parent` is a chain by itself.
pub proof fn lemma_chain_single(rows: Seq<Row>, parent: u64, i: int)
    requires
        0 <= i < rows.len(),
        rows[i].parent_id == parent,
    ensures
        is_chain(rows, parent, seq![i]),
        reaches_row(rows, parent, i),
{
    let path = seq![i];
    assert(path.last() == i);
}

/// A chain below row `i` becomes a chain below the parent of row `i` when
/// `i` is put in front of it.
pub proof fn lemma_chain_prepend(rows: Seq<Row>, parent: u64, i: int, path: Seq<int>)
    requires
        0 <= i < rows.len(),
        rows[i].parent_id == parent,
        is_chain(rows, rows[i].id, path),
    ensures
        is_chain(rows, parent, seq![i] + path),
        (seq![i] + path)[0] == i,
        (seq![i] + path).last() == path.last(),
        reaches_row(rows, parent, path.last()),
{
    let whole = seq![i] + path;
    assert(is_chain(rows, parent, whole));
}

/// A chain of two or more rows, without its first row, is a chain below
/// that first row.
pub proof fn lemma_chain_tail(rows: Seq<Row>, parent: u64, path: Seq<int>)
    requires
        is_chain(rows, parent, path),
        path.len() >= 2,
    ensures
        is_chain(rows, rows[path[0]].id, path.drop_first()),
        path.drop_first().last() == path.last(),
{
}

/// A chain of two or more rows, without its last row, is a chain, and it
/// ends in the parent of that last row.
pub proof fn lemma_chain_drop_last(rows: Seq<Row>, parent: u64, path: Seq<int>)
    requires
        is_chain(rows, parent, path),
        path.len() >= 2,
    ensures
        is_chain(rows, parent, path.drop_last()),
        reaches_row(rows, parent, path.drop_last().last()),
        rows[path.last()].parent_id == rows[path.drop_last().last()].id,
{
    assert(path.last() == path[path.len() - 1]);
}

/// Under a depth bound no chain is longer than the bound, and what is left
/// of the bound holds below the last row of the chain.
pub proof fn lemma_chain_depth(rows: Seq<Row>, parent: u64, depth: nat, path: Seq<int>)
    requires
        depth_within(rows, parent, depth),
        is_chain(rows, parent, path),
    ensures
        path.len() <= depth,
        depth_within(rows, rows[path.last()].id, (depth - path.len()) as nat),
    decreases path.len(),
{
    let i = path[0];
    if path.len() >= 2 {
        lemma_chain_tail(rows, parent, path);
        lemma_chain_depth(rows, rows[i].id, (depth - 1) as nat, path.drop_first());
    }
}

/// Under a depth bound no chain below `parent` comes back to `parent`.
pub proof fn lemma_chain_never_returns(rows: Seq<Row>, parent: u64, depth: nat, path: Seq<int>)
    requires
        depth_within(rows, parent, depth),
        is_chain(rows, parent, path),
    ensures
        rows[path.last()].id != parent,
    decreases depth,
{
    if rows[path.last()].id == parent {
        lemma_chain_depth(rows, parent, depth, path);
        lemma_chain_never_returns(rows, parent, (depth - path.len()) as nat, path);
    }
}

/// The part of a chain after position `from`, up to and with position
/// `to`, is a chain below the row at position `from`. The part up to and
/// with position `from` is a chain too.
pub proof fn lemma_chain_split(rows: Seq<Row>, parent: u64, path: Seq<int>, from: int, to: int)
    requires
        is_chain(rows, parent, path),
        0 <= from < to < path.len(),
    ensures
        is_chain(rows, parent, path.take(from + 1)),
        path.take(from + 1).last() == path[from],
        is_chain(rows, rows[path[from]].id, path.subrange(from + 1, to + 1)),
        path.subrange(from + 1, to + 1).last() == path[to],
{
    let part = path.subrange(from + 1, to + 1);
    assert forall|k: int| 0 < k < part.len() implies rows[#[trigger] part[k]].parent_id
        == rows[part[k - 1]].id by {}
}

/// Under a depth bound no chain holds a row twice.
pub proof fn lemma_chain_no_duplicates(rows: Seq<Row>, parent: u64, depth: nat, path: Seq<int>)
    requires
        depth_within(rows, parent, depth),
        is_chain(rows, parent, path),
    ensures
        path.no_duplicates(),
{
    assert forall|a: int, b: int|
        0 <= a < path.len() && 0 <= b < path.len() && a != b implies path[a] != path[b] by {
        if path[a] == path[b] {
            let from = if a < b {
                a
            } else {
                b
            };
            let to = if a < b {
                b
            } else {
                a
            };
            lemma_chain_split(rows, parent, path, from, to);
            lemma_chain_depth(rows, parent, depth, path.take(from + 1));
            lemma_chain_never_returns(
                rows,
                rows[path[from]].id,
                (depth - (from + 1)) as nat,
                path.subrange(from + 1, to + 1),
            );
        }
    }
}

/// Where `depth` does not bound the chains below `parent`, a chain of
/// `depth + 1` rows leads down from `parent`.
pub proof fn lemma_long_chain(rows: Seq<Row>, parent: u64, depth: nat) -> (path: Seq<int>)
    requires
        !depth_within(rows, parent, depth),
    ensures
        is_chain(rows, parent, path),
        path.len() == depth + 1,
    decreases depth,
{
    let i = choose|i: int|
        0 <= i < rows.len() && (#[trigger] rows[i]).parent_id == parent && !(depth > 0
            && depth_within(rows, rows[i].id, (depth - 1) as nat));
    if depth == 0 {
        lemma_chain_single(rows, parent, i);
        seq![i]
    } else {
        let rest = lemma_long_chain(rows, rows[i].id, (depth - 1) as nat);
        lemma_chain_prepend(rows, parent, i, rest);
        seq![i] + rest
    }
}

/// A chain that holds no row twice has no more rows than there are.
pub proof fn lemma_chain_fits(rows: Seq<Row>, parent: u64, path: Seq<int>)
    requires
        is_chain(rows, parent, path),
        path.no_duplicates(),
    ensures
        path.len() <= rows.len(),
{
    let all = set_int_range(0, rows.len() as int);
    lemma_int_range(0, rows.len() as int);
    path.unique_seq_to_set();
    assert forall|i: int| path.to_set().contains(i) implies all.contains(i) by {
    }
    lemma_len_subset(path.to_set(), all);
}

/// Rows found from a row below `parent` are found from `parent`, so
/// identifiers that are distinct below `parent` are distinct below that row.
pub proof fn lemma_distinct_ids_below_child(rows: Seq<Row>, parent: u64, i: int)
    requires
        0 <= i < rows.len(),
        rows[i].parent_id == parent,
        distinct_ids_below(rows, parent),
    ensures
        distinct_ids_below(rows, rows[i].id),
{
    let child = rows[i].id;
    assert forall|a: int, b: int|
        #![trigger reaches_row(rows, child, a), reaches_row(rows, child, b)]
        reaches_row(rows, child, a) && reaches_row(rows, child, b) && a != b implies rows[a].id
        != rows[b].id by {
        let pa = choose|path: Seq<int>| #[trigger] is_chain(rows, child, path) && path.last() == a;
        let pb = choose|path: Seq<int>| #[trigger] is_chain(rows, child, path) && path.last() == b;
        lemma_chain_prepend(rows, parent, i, pa);
        lemma_chain_prepend(rows, parent, i, pb);
    }
}

/// Where the rows found from `parent` carry distinct identifiers and a depth
/// bound holds, only one chain leads from `parent` to a given row.
pub proof fn lemma_chain_unique(
    rows: Seq<Row>,
    parent: u64,
    depth: nat,
    one: Seq<int>,
    other: Seq<int>,
)
    requires
        depth_within(rows, parent, depth),
        distinct_ids_below(rows, parent),
        is_chain(rows, parent, one),
        is_chain(rows, parent, other),
        one.last() == other.last(),
    ensures
        one == other,
    decreases one.len(),
{
    let end = one.last();
    if one.len() == 1 && other.len() == 1 {
    } else if one.len() == 1 {
        lemma_chain_drop_last(rows, parent, other);
        lemma_chain_never_returns(rows, parent, depth, other.drop_last());
    } else if other.len() == 1 {
        lemma_chain_drop_last(rows, parent, one);
        lemma_chain_never_returns(rows, parent, depth, one.drop_last());
    } else {
        lemma_chain_drop_last(rows, parent, one);
        lemma_chain_drop_last(rows, parent, other);
        lemma_chain_unique(rows, parent, depth, one.drop_last(), other.drop_last());
        assert(other =~= other.drop_last().push(end));
    }
}

/// The positions of the rows whose parent is `parent`, in rising order.
pub open spec fn child_positions(rows: Seq<Row>, parent: u64) -> Seq<int>
    decreases rows.len(),
{
    if rows.len() == 0 {
        Seq::empty()
    } else {
        let rest = child_positions(rows.drop_last(), parent);
        if rows.last().parent_id == parent {
            rest.push(rows.len() - 1)
        } else {
            rest
        }
    }
}

/// `child_positions` lists, in rising order and without a gap, where the
/// rows of `children_of` stand in `rows`.
pub proof fn lemma_child_positions(rows: Seq<Row>, parent: u64)
    ensures
        child_positions(rows, parent).len() == children_of(rows, parent).len(),
        forall|j: int|
            0 <= j < child_positions(rows, parent).len() ==> {
                &&& 0 <= #[trigger] child_positions(rows, parent)[j] < rows.len()
                &&& rows[child_positions(rows, parent)[j]] == children_of(rows, parent)[j]
                &&& rows[child_positions(rows, parent)[j]].parent_id == parent
            },
        forall|j: int, k: int|
            0 <= j < k < child_positions(rows, parent).len() ==> #[trigger] child_positions(
                rows,
                parent,
            )[j] < #[trigger] child_positions(rows, parent)[k],
        forall|i: int|
            0 <= i < rows.len() && (#[trigger] rows[i]).parent_id == parent ==> exists|j: int|
                0 <= j < child_positions(rows, parent).len() && #[trigger] child_positions(
                    rows,
                    parent,
                )[j] == i,
    decreases rows.len(),
{
    reveal(Seq::filter);
    let positions = child_positions(rows, parent);
    let kids = children_of(rows, parent);
    if rows.len() > 0 {
        let front = rows.drop_last();
        let last = rows.len() - 1;
        lemma_child_positions(front, parent);
        let front_positions = child_positions(front, parent);
        let front_kids = children_of(front, parent);
        assert(kids == if rows.last().parent_id == parent {
            front_kids.push(rows.last())
        } else {
            front_kids
        });
        assert forall|j: int| 0 <= j < positions.len() implies {
            &&& 0 <= #[trigger] positions[j] < rows.len()
            &&& rows[positions[j]] == kids[j]
            &&& rows[positions[j]].parent_id == parent
        } by {}
        assert forall|i: int|
            0 <= i < rows.len() && (#[trigger] rows[i]).parent_id == parent implies exists|j: int|
            0 <= j < positions.len() && #[trigger] positions[j] == i by {
            if i < last {
                assert(front[i] == rows[i]);
                let j = choose|j: int|
                    0 <= j < front_positions.len() && #[trigger] front_positions[j] == i;
                assert(positions[j] == i);
            } else {
                assert(positions[positions.len() - 1] == i);
            }
        }
    }
}

} // verus!
