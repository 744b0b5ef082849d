//! Page windows for paged listings.

use vstd::arithmetic::div_mod::{lemma_div_plus_one, lemma_fundamental_div_mod, lemma_mod_bound};
use vstd::arithmetic::mul::lemma_mul_is_commutative;
use vstd::prelude::*;

verus! {

/// The row offset of a 1-based `page` of `page_size` rows, as a mathematical
/// integer. Page 0 is an alias of page 1.
pub open spec fn offset_of(page: int, page_size: int) -> int {
    if page <= 0 {
        0
    } else {
        (page - 1) * page_size
    }
}

/// The `(offset, limit)` pair for `page` and `page_size`. The limit is the
/// page size, unchanged. The offset is `offset_of`, held at `u32::MAX` when
/// the product does not fit.
pub open spec fn window(page: u32, page_size: u32) -> (u32, u32) {
    let offset = offset_of(page as int, page_size as int);
    if offset > u32::MAX {
        (u32::MAX, page_size)
    } else {
        (offset as u32, page_size)
    }
}

/// Maps a 1-based page number and a page size to `(offset, limit)`.
pub fn compute(page: u32, page_size: u32) -> (r: (u32, u32))
    ensures
        r == window(page, page_size),
        r.1 == page_size,
        page == 0 ==> r.0 == 0,
        page >= 1 && (page - 1) * page_size <= u32::MAX ==> r.0 == (page - 1) * page_size,
        page >= 1 && (page - 1) * page_size > u32::MAX ==> r.0 == u32::MAX,
{
    if page == 0 {
        return (0, page_size);
    }
    match (page - 1).checked_mul(page_size) {
        Some(offset) => (offset, page_size),
        None => (u32::MAX, page_size),
    }
}

/// The number of pages of `page_size` rows that hold `total` rows: `total`
/// divided by `page_size`, rounded up. Meaningful for a positive page size.
pub open spec fn pages_for(total: int, page_size: int) -> int
    recommends
        page_size > 0,
{
    (total + page_size - 1) / page_size
}

/// `pages_for` is the ceiling of the quotient: that many pages hold all the
/// rows, and one page fewer does not.
pub proof fn lemma_pages_for_is_ceiling(total: int, page_size: int)
    requires
        total >= 0,
        page_size > 0,
    ensures
        pages_for(total, page_size) >= 0,
        pages_for(total, page_size) * page_size >= total,
        (pages_for(total, page_size) - 1) * page_size < total,
{
    let x = total + page_size - 1;
    let k = x / page_size;
    lemma_fundamental_div_mod(x, page_size);
    lemma_mod_bound(x, page_size);
    lemma_mul_is_commutative(page_size, k);
    assert((k - 1) * page_size == k * page_size - page_size) by (nonlinear_arith);
    assert(k >= 0) by (nonlinear_arith)
        requires
            k * page_size >= 0,
            page_size > 0,
    ;
}

/// The number of pages that hold `total_count` rows, or `None` for a page
/// size of zero, for which no page count exists.
pub fn total_pages(total_count: u64, page_size: u64) -> (r: Option<u64>)
    ensures
        page_size == 0 ==> r is None,
        page_size > 0 ==> r is Some && r->0 == pages_for(total_count as int, page_size as int),
{
    if page_size == 0 {
        return None;
    }
    if total_count == 0 {
        proof {
            let pages = pages_for(0, page_size as int);
            lemma_pages_for_is_ceiling(0, page_size as int);
            assert(pages <= 0) by (nonlinear_arith)
                requires
                    (pages - 1) * page_size < 0,
                    page_size > 0,
            ;
        }
        return Some(0);
    }
    let pages = (total_count - 1) / page_size + 1;
    proof {
        lemma_div_plus_one(total_count - 1, page_size as int);
        lemma_pages_for_is_ceiling(total_count as int, page_size as int);
        assert(pages <= total_count) by (nonlinear_arith)
            requires
                (pages - 1) * page_size < total_count,
                page_size >= 1,
                pages >= 0,
        ;
    }
    Some(pages)
}

} // verus!
