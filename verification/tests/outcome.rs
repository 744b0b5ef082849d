use hjkl1_rsful::outcome::Outcome;

#[test]
fn post_change_is_done_when_any_row_changed() {
    assert_eq!(Outcome::of_post_change(0), Outcome::NotFound);
    assert_eq!(Outcome::of_post_change(1), Outcome::Done);
    assert_eq!(Outcome::of_post_change(2), Outcome::Done);
    assert_eq!(Outcome::of_post_change(u64::MAX), Outcome::Done);
}

#[test]
fn category_delete_is_done_when_one_row_went() {
    assert_eq!(Outcome::of_category_delete(0), Outcome::NotFound);
    assert_eq!(Outcome::of_category_delete(1), Outcome::Done);
    assert_eq!(Outcome::of_category_delete(2), Outcome::NotFound);
    assert_eq!(Outcome::of_category_delete(u64::MAX), Outcome::NotFound);
}
