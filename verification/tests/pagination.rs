use hjkl1_rsful::pagination::{compute, total_pages};

#[test]
fn first_page_starts_at_zero() {
    assert_eq!(compute(1, 15), (0, 15));
}

#[test]
fn third_page_skips_two_pages() {
    assert_eq!(compute(3, 15), (30, 15));
}

#[test]
fn page_zero_is_the_first_page() {
    assert_eq!(compute(0, 15), (0, 15));
    assert_eq!(compute(0, 0), (0, 0));
    assert_eq!(compute(0, u32::MAX), (0, u32::MAX));
    assert_eq!(compute(0, 15), compute(1, 15));
}

#[test]
fn offset_is_pages_before_times_page_size() {
    assert_eq!(compute(2, 25), (25, 25));
    assert_eq!(compute(7, 10), (60, 10));
    assert_eq!(compute(101, 1), (100, 1));
    assert_eq!(compute(65536, 65537), (4294967295, 65537));
    assert_eq!(compute(u32::MAX, 1), (u32::MAX - 1, 1));
}

#[test]
fn zero_page_size_passes_through() {
    assert_eq!(compute(1, 0), (0, 0));
    assert_eq!(compute(9, 0), (0, 0));
    assert_eq!(compute(u32::MAX, 0), (0, 0));
}

#[test]
fn offset_stops_at_the_largest_value() {
    assert_eq!(compute(65537, 65536), (u32::MAX, 65536));
    assert_eq!(compute(65537, 65537), (u32::MAX, 65537));
    assert_eq!(compute(u32::MAX, u32::MAX), (u32::MAX, u32::MAX));
    assert_eq!(compute(3, u32::MAX), (u32::MAX, u32::MAX));
    assert_eq!(compute(2, u32::MAX), (u32::MAX, u32::MAX));
}

#[test]
fn total_pages_rounds_up() {
    assert_eq!(total_pages(0, 25), Some(0));
    assert_eq!(total_pages(1, 25), Some(1));
    assert_eq!(total_pages(25, 25), Some(1));
    assert_eq!(total_pages(26, 25), Some(2));
    assert_eq!(total_pages(50, 25), Some(2));
    assert_eq!(total_pages(51, 25), Some(3));
    assert_eq!(total_pages(7, 1), Some(7));
    assert_eq!(total_pages(7, 100), Some(1));
}

#[test]
fn total_pages_at_the_limits() {
    assert_eq!(total_pages(u64::MAX, 1), Some(u64::MAX));
    assert_eq!(total_pages(u64::MAX, u64::MAX), Some(1));
    assert_eq!(total_pages(u64::MAX, 2), Some(1u64 << 63));
    assert_eq!(total_pages(u64::MAX - 1, u64::MAX), Some(1));
    assert_eq!(total_pages(1, u64::MAX), Some(1));
}

#[test]
fn total_pages_of_zero_page_size_is_none() {
    assert_eq!(total_pages(0, 0), None);
    assert_eq!(total_pages(10, 0), None);
    assert_eq!(total_pages(u64::MAX, 0), None);
}
