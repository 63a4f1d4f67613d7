//! Supported page granularities, their byte sizes, and the number of extra
//! table frames a granularity needs to index a given number of leaf pages.

use vstd::prelude::*;

verus! {

/// One of the three mapping granularities the architecture offers.
#[derive(Clone, Copy, PartialEq, Eq, Structural, Debug)]
pub enum PageSize {
    /// 1 GiB pages, installed at level-3 entries.
    Huge,
    /// 2 MiB pages, installed at level-2 entries.
    Large,
    /// 4 KiB pages, installed at level-1 entries.
    Normal,
}

/// Bytes covered by one page of granularity `g`.
pub open spec fn spec_size(g: PageSize) -> int {
    match g {
        PageSize::Huge => 0x4000_0000,
        PageSize::Large => 0x20_0000,
        PageSize::Normal => 0x1000,
    }
}

/// Table level at which a leaf of granularity `g` is written.
pub open spec fn leaf_level(g: PageSize) -> int {
    match g {
        PageSize::Huge => 3,
        PageSize::Large => 2,
        PageSize::Normal => 1,
    }
}

impl PageSize {
    /// Bytes covered by one page of this granularity.
    pub fn size(&self) -> (r: u64)
        ensures
            r == spec_size(*self),
    {
        match self {
            PageSize::Huge => 0x4000_0000,
            PageSize::Large => 0x20_0000,
            PageSize::Normal => 0x1000,
        }
    }
}

/// `ceil(n / 512)`: tables needed at one level to hold `n` entries.
pub open spec fn tables_for(n: int) -> int {
    (n + 511) / 512
}

/// Extra table frames needed to index `pages` leaf pages at granularity `g`,
/// excluding the single shared root table: Normal pages need three chained
/// levels of `ceil(n/512)` tables, Large two, Huge one.
pub open spec fn spec_page_table_usage(g: PageSize, pages: int) -> int {
    let l1 = tables_for(pages);
    let l2 = tables_for(l1);
    let l3 = tables_for(l2);
    match g {
        PageSize::Normal => l1 + l2 + l3,
        PageSize::Large => l1 + l2,
        PageSize::Huge => l1,
    }
}

/// Calculate the table-frame overhead of indexing `pages` leaf pages at the
/// given granularity. The single level-4 root table is not counted.
pub fn page_table_usage(page_size: PageSize, pages: u64) -> (r: u64)
    requires
        pages <= 0x0010_0000_0000_0000,
    ensures
        r == spec_page_table_usage(page_size, pages as int),
{
    let level1_tables = (pages + 511) / 512;
    let level2_tables = (level1_tables + 511) / 512;
    let level3_tables = (level2_tables + 511) / 512;
    match page_size {
        PageSize::Normal => level1_tables + level2_tables + level3_tables,
        PageSize::Large => level1_tables + level2_tables,
        PageSize::Huge => level1_tables,
    }
}

} // verus!
