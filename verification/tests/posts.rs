use hjkl1_rsful::posts::{ListParams, PageSummary, PostCount, DEFAULT_PAGE, DEFAULT_PAGE_SIZE};

fn params(page: Option<u64>, page_size: Option<u64>) -> ListParams {
    ListParams { category_id: None, page, page_size }
}

#[test]
fn defaults_are_page_one_of_twenty_five() {
    assert_eq!(DEFAULT_PAGE, 1);
    assert_eq!(DEFAULT_PAGE_SIZE, 25);
    let p = params(None, None);
    assert_eq!(p.page(), 1);
    assert_eq!(p.page_size(), 25);
    assert_eq!(p.window(), (0, 25));
}

#[test]
fn named_values_replace_the_defaults() {
    let p = params(Some(3), Some(15));
    assert_eq!(p.page(), 3);
    assert_eq!(p.page_size(), 15);
    assert_eq!(p.window(), (30, 15));
    assert_eq!(params(Some(4), None).window(), (75, 25));
    assert_eq!(params(None, Some(10)).window(), (0, 10));
    assert_eq!(params(Some(0), Some(10)).window(), (0, 10));
}

#[test]
fn window_keeps_the_low_half_of_wide_values() {
    let wide = 1u64 << 32;
    assert_eq!(params(Some(wide + 3), Some(15)).window(), (30, 15));
    assert_eq!(params(Some(wide), Some(15)).window(), (0, 15));
    assert_eq!(params(Some(2), Some(wide + 7)).window(), (7, 7));
    assert_eq!(params(Some(2), Some(wide)).window(), (0, 0));
    assert_eq!(params(Some(u64::MAX), Some(1)).window(), (u32::MAX - 1, 1));
}

#[test]
fn summary_of_a_middle_page() {
    let s = params(Some(2), Some(10)).summary(35);
    assert_eq!(
        s,
        Some(PageSummary { total: 35, page_size: 10, has_prev: true, has_next: true })
    );
}

#[test]
fn summary_of_the_first_and_last_page() {
    assert_eq!(
        params(Some(1), Some(10)).summary(35),
        Some(PageSummary { total: 35, page_size: 10, has_prev: false, has_next: true })
    );
    assert_eq!(
        params(Some(4), Some(10)).summary(35),
        Some(PageSummary { total: 35, page_size: 10, has_prev: true, has_next: false })
    );
    assert_eq!(
        params(Some(3), Some(10)).summary(30),
        Some(PageSummary { total: 30, page_size: 10, has_prev: true, has_next: false })
    );
    assert_eq!(
        params(Some(3), Some(10)).summary(31),
        Some(PageSummary { total: 31, page_size: 10, has_prev: true, has_next: true })
    );
}

#[test]
fn summary_with_defaults() {
    assert_eq!(
        params(None, None).summary(26),
        Some(PageSummary { total: 26, page_size: 25, has_prev: false, has_next: true })
    );
    assert_eq!(
        params(None, None).summary(25),
        Some(PageSummary { total: 25, page_size: 25, has_prev: false, has_next: false })
    );
    assert_eq!(
        params(None, None).summary(0),
        Some(PageSummary { total: 0, page_size: 25, has_prev: false, has_next: false })
    );
}

#[test]
fn page_zero_counts_as_having_a_previous_page() {
    assert_eq!(
        params(Some(0), Some(10)).summary(5),
        Some(PageSummary { total: 5, page_size: 10, has_prev: true, has_next: true })
    );
}

#[test]
fn summary_of_zero_page_size_is_none() {
    assert_eq!(params(Some(1), Some(0)).summary(10), None);
    assert_eq!(params(None, Some(0)).summary(0), None);
}

#[test]
fn summary_at_the_limits() {
    assert_eq!(
        params(Some(u64::MAX), Some(1)).summary(u64::MAX),
        Some(PageSummary { total: u64::MAX, page_size: 1, has_prev: true, has_next: false })
    );
    assert_eq!(
        params(Some(u64::MAX - 1), Some(1)).summary(u64::MAX),
        Some(PageSummary { total: u64::MAX, page_size: 1, has_prev: true, has_next: true })
    );
    assert_eq!(
        params(Some(1), Some(u64::MAX)).summary(u64::MAX),
        Some(PageSummary { total: u64::MAX, page_size: u64::MAX, has_prev: false, has_next: false })
    );
}

#[test]
fn count_becomes_the_total() {
    assert_eq!(PostCount { count: 0 }.total(), 0);
    assert_eq!(PostCount { count: 42 }.total(), 42);
    assert_eq!(PostCount { count: i32::MAX }.total(), 2147483647);
}

#[test]
fn negative_count_wraps_around() {
    assert_eq!(PostCount { count: -1 }.total(), u64::MAX);
    assert_eq!(PostCount { count: -2 }.total(), u64::MAX - 1);
    assert_eq!(PostCount { count: i32::MIN }.total(), 18446744071562067968);
    assert_eq!(PostCount { count: -7 }.total(), (-7i32) as u64);
}
