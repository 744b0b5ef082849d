//! Building the category tree from flat rows.

use vstd::prelude::*;
use crate::categories::lemmas::{
    lemma_child_height, lemma_depth_within_monotone, lemma_forest_stable,
};
use crate::categories::model::{
    acyclic_below, children_of, depth_within, forest_of, height, node_to_depth, Row, Tree,
};

verus! {

/// A category as stored: a flat record that points at its parent.
#[derive(Debug, PartialEq, Eq)]
pub struct CategoryRow {
    pub id: u64,
    pub parent_id: u64,
    pub name: String,
}

impl View for CategoryRow {
    type V = Row;

    open spec fn view(&self) -> Row {
        Row { id: self.id, parent_id: self.parent_id, name: self.name@ }
    }
}

impl DeepView for CategoryRow {
    type V = Row;

    open spec fn deep_view(&self) -> Row {
        self@
    }
}

/// A category with the categories below it.
#[derive(Debug, PartialEq, Eq)]
pub struct TreeNode {
    pub id: u64,
    pub name: String,
    pub children: Vec<TreeNode>,
}

impl DeepView for TreeNode {
    type V = Tree;

    open spec fn deep_view(&self) -> Tree
        decreases self,
    {
        Tree {
            id: self.id,
            name: self.name@,
            children: Seq::new(
                self.children@.len(),
                |i: int|
                    if 0 <= i < self.children@.len() {
                        self.children@[i].deep_view()
                    } else {
                        arbitrary()
                    },
            ),
        }
    }
}

impl View for TreeNode {
    type V = Tree;

    open spec fn view(&self) -> Tree {
        self.deep_view()
    }
}

/// The children of a node, seen as trees, are the deep view of its `Vec`.
pub proof fn lemma_node_view(node: TreeNode)
    ensures
        node.deep_view().id == node.id,
        node.deep_view().name == node.name@,
        node.deep_view().children == node.children.deep_view(),
{
    reveal_with_fuel(<TreeNode as DeepView>::deep_view, 2);
}

/// Whether every chain of rows below `parent_id` has at most `depth`
/// members.
fn depth_is_within(categories: &Vec<CategoryRow>, parent_id: u64, depth: usize) -> (b: bool)
    ensures
        b == depth_within(categories.deep_view(), parent_id, depth as nat),
    decreases depth,
{
    let ghost rows = categories.deep_view();
    let n = categories.len();
    let mut i: usize = 0;
    while i < n
        invariant
            i <= n,
            n == categories.len(),
            rows == categories.deep_view(),
            forall|j: int|
                0 <= j < i && (#[trigger] rows[j]).parent_id == parent_id ==> depth > 0
                    && depth_within(rows, rows[j].id, (depth - 1) as nat),
        decreases n - i,
    {
        let category = &categories[i];
        assert(rows[i as int] == category@);
        if category.parent_id == parent_id {
            if depth == 0 {
                return false;
            }
            if !depth_is_within(categories, category.id, depth - 1) {
                return false;
            }
        }
        i += 1;
    }
    true
}

/// Whether the hierarchy below `parent_id` has no cycle, so that
/// `build_tree` can be called on it.
pub fn is_acyclic(categories: &Vec<CategoryRow>, parent_id: u64) -> (b: bool)
    ensures
        b == acyclic_below(categories.deep_view(), parent_id),
{
    depth_is_within(categories, parent_id, categories.len())
}

/// Builds the forest below `parent_id`: one node for each row whose parent is
/// `parent_id`, in input order, each with the forest below its own
/// identifier as children.
pub fn build_tree(categories: &Vec<CategoryRow>, parent_id: u64) -> (result: Vec<TreeNode>)
    requires
        acyclic_below(categories.deep_view(), parent_id),
    ensures
        result.deep_view() == forest_of(categories.deep_view(), parent_id),
        categories.len() == 0 ==> result.len() == 0,
    decreases height(categories.deep_view(), parent_id),
{
    let ghost rows = categories.deep_view();
    let ghost top = rows.len();
    let ghost below = (top - 1) as nat;
    let ghost node_of = |r: Row| node_to_depth(rows, r, below);
    let n = categories.len();
    let mut result: Vec<TreeNode> = Vec::with_capacity(8);
    let mut i: usize = 0;
    proof {
        reveal(Seq::filter);
    }
    while i < n
        invariant
            i <= n,
            n == categories.len(),
            rows == categories.deep_view(),
            top == rows.len(),
            below == (top - 1) as nat,
            node_of == |r: Row| node_to_depth(rows, r, below),
            depth_within(rows, parent_id, top),
            result.deep_view() == children_of(rows.take(i as int), parent_id).map_values(node_of),
        decreases n - i,
    {
        let category = &categories[i];
        let ghost kids = children_of(rows.take(i as int), parent_id);
        proof {
            assert(rows.take(i + 1) =~= rows.take(i as int).push(rows[i as int]));
            rows.take(i as int).lemma_filter_push(
                rows[i as int],
                |r: Row| r.parent_id == parent_id,
            );
        }
        if category.parent_id == parent_id {
            proof {
                lemma_child_height(rows, parent_id, top, i as int);
                lemma_depth_within_monotone(rows, category.id, below, top);
            }
            let children = build_tree(categories, category.id);
            let node = TreeNode { id: category.id, name: category.name.clone(), children };
            proof {
                lemma_node_view(node);
                lemma_forest_stable(rows, category.id, below, top);
            }
            result.push(node);
            proof {
                assert(kids.push(rows[i as int]).map_values(node_of) =~= kids.map_values(
                    node_of,
                ).push(node_of(rows[i as int])));
            }
        }
        i += 1;
    }
    proof {
        assert(rows.take(n as int) =~= rows);
    }
    result
}

} // verus!
