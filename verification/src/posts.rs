//! Paged listing of posts: the request parameters with their defaults, the
//! window of rows to fetch, and the summary that goes with one page.

use vstd::prelude::*;
use crate::pagination::{compute, pages_for, total_pages, window};

verus! {

/// The page that a listing shows when the request names none.
pub const DEFAULT_PAGE: u64 = 1;

/// The page size that a listing uses when the request names none.
pub const DEFAULT_PAGE_SIZE: u64 = 25;

/// The low 32 bits of `value`: what is left of a 64-bit request parameter
/// when it is handed to the 32-bit page calculator.
pub open spec fn low_u32(value: u64) -> u32 {
    (value % 0x1_0000_0000) as u32
}

/// The parameters of a request for a page of posts.
#[derive(Debug, Clone, Copy, PartialEq, Eq)]
pub struct ListParams {
    /// Only posts of this category are listed, where it is given.
    pub category_id: Option<u64>,
    /// The 1-based page number.
    pub page: Option<u64>,
    /// The number of posts on a page.
    pub page_size: Option<u64>,
}

impl ListParams {
    /// The requested page, `DEFAULT_PAGE` where none is named.
    pub open spec fn page_or_default(&self) -> u64 {
        match self.page {
            Some(page) => page,
            None => DEFAULT_PAGE,
        }
    }

    /// The requested page size, `DEFAULT_PAGE_SIZE` where none is named.
    pub open spec fn page_size_or_default(&self) -> u64 {
        match self.page_size {
            Some(page_size) => page_size,
            None => DEFAULT_PAGE_SIZE,
        }
    }

    /// The requested page, `DEFAULT_PAGE` where none is named.
    pub fn page(&self) -> (r: u64)
        ensures
            r == self.page_or_default(),
    {
        match self.page {
            Some(page) => page,
            None => DEFAULT_PAGE,
        }
    }

    /// The requested page size, `DEFAULT_PAGE_SIZE` where none is named.
    pub fn page_size(&self) -> (r: u64)
        ensures
            r == self.page_size_or_default(),
    {
        match self.page_size {
            Some(page_size) => page_size,
            None => DEFAULT_PAGE_SIZE,
        }
    }

    /// The `(offset, limit)` pair of the rows to fetch: the window of the
    /// requested page and page size, each cut to its low 32 bits.
    pub fn window(&self) -> (r: (u32, u32))
        ensures
            r == window(low_u32(self.page_or_default()), low_u32(self.page_size_or_default())),
    {
        let page = (self.page() % 0x1_0000_0000) as u32;
        let page_size = (self.page_size() % 0x1_0000_0000) as u32;
        compute(page, page_size)
    }

    /// The summary of the requested page when `total` posts match, or `None`
    /// for a page size of zero.
    pub fn summary(&self, total: u64) -> (r: Option<PageSummary>)
        ensures
            self.page_size_or_default() == 0 ==> r is None,
            self.page_size_or_default() > 0 ==> r == Some(
                page_summary(self.page_or_default(), self.page_size_or_default(), total),
            ),
    {
        let page = self.page();
        let page_size = self.page_size();
        match total_pages(total, page_size) {
            None => None,
            Some(pages) => Some(
                PageSummary { total, page_size, has_prev: page != 1, has_next: page < pages },
            ),
        }
    }
}

/// What a listing reports beside the posts of one page.
#[derive(Debug, Clone, Copy, PartialEq, Eq, Structural)]
pub struct PageSummary {
    /// The number of posts that match the request, over all pages.
    pub total: u64,
    /// The number of posts on a page.
    pub page_size: u64,
    /// Whether the page is any other than page 1.
    pub has_prev: bool,
    /// Whether a later page holds posts.
    pub has_next: bool,
}

/// The summary of `page` when `total` posts are listed `page_size` to a
/// page. Meaningful for a positive page size.
pub open spec fn page_summary(page: u64, page_size: u64, total: u64) -> PageSummary
    recommends
        page_size > 0,
{
    PageSummary {
        total,
        page_size,
        has_prev: page != 1,
        has_next: page < pages_for(total as int, page_size as int),
    }
}

/// The result row of the query that counts the matching posts.
#[derive(Debug, Clone, Copy, PartialEq, Eq)]
pub struct PostCount {
    pub count: i32,
}

impl PostCount {
    /// The count as an unsigned 64-bit number; a negative count wraps
    /// around, as a two's complement conversion does.
    pub open spec fn total_of(&self) -> int {
        if self.count >= 0 {
            self.count as int
        } else {
            self.count + 0x1_0000_0000_0000_0000
        }
    }

    /// The count as the total that the listing reports.
    pub fn total(&self) -> (r: u64)
        ensures
            r == self.total_of(),
    {
        if self.count >= 0 {
            self.count as u64
        } else {
            u64::MAX - ((-(self.count + 1)) as u64)
        }
    }
}

} // verus!
