use hjkl1_rsful::categories::request::{CreateCategory, ListParams, ROOT_ID};
use hjkl1_rsful::categories::tree::{build_tree, CategoryRow};

#[test]
fn root_is_zero() {
    assert_eq!(ROOT_ID, 0);
}

#[test]
fn list_without_parent_lists_the_top() {
    assert_eq!(ListParams { parent_id: None }.parent_id(), 0);
}

#[test]
fn list_keeps_a_named_parent() {
    assert_eq!(ListParams { parent_id: Some(7) }.parent_id(), 7);
    assert_eq!(ListParams { parent_id: Some(0) }.parent_id(), 0);
    assert_eq!(ListParams { parent_id: Some(-3) }.parent_id(), -3);
    assert_eq!(ListParams { parent_id: Some(i64::MAX) }.parent_id(), i64::MAX);
    assert_eq!(ListParams { parent_id: Some(i64::MIN) }.parent_id(), i64::MIN);
}

#[test]
fn create_without_parent_goes_to_the_top() {
    let req = CreateCategory { parent_id: None, name: "News".to_string() };
    assert_eq!(req.parent_id(), 0);
    assert_eq!(req.name, "News");
}

#[test]
fn create_keeps_a_named_parent() {
    let req = CreateCategory { parent_id: Some(12), name: "Sport".to_string() };
    assert_eq!(req.parent_id(), 12);
    let req = CreateCategory { parent_id: Some(-1), name: String::new() };
    assert_eq!(req.parent_id(), -1);
}

#[test]
fn tree_below_the_root_holds_the_top_categories() {
    let rows = vec![
        CategoryRow { id: 1, parent_id: ROOT_ID, name: "A".to_string() },
        CategoryRow { id: 2, parent_id: 1, name: "B".to_string() },
    ];
    let forest = build_tree(&rows, ROOT_ID);
    assert_eq!(forest.len(), 1);
    assert_eq!(forest[0].id, 1);
    assert_eq!(forest[0].name, "A");
    assert_eq!(forest[0].children.len(), 1);
    assert_eq!(forest[0].children[0].id, 2);
    assert_eq!(forest[0].children[0].name, "B");
    assert!(forest[0].children[0].children.is_empty());
}
