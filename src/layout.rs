//! On-disk layout of a partition file and the global page address scheme.
use vstd::prelude::*;

verus! {

/// Size in bytes of every page of a partition file.
pub const PAGE_SIZE: usize = 4096;

/// Number of header (bitmap) pages of a partition.
pub const MAX_HEADER_PAGES: usize = 2048;

/// Number of data pages tracked by one header page: one bit per page.
pub const DATA_PAGES_PER_HEADER: usize = 32768;

/// Number of data pages a partition can hold.
pub const PARTITION_CAPACITY: usize = 67108864;

/// Radix that combines a partition number and a page number into one address.
pub const GLOBAL_ADDRESS_RADIX: u64 = 10000000000;

/// Index, counted in pages from the start of the file, of header page `h`.
pub open spec fn header_block(h: int) -> int {
    h * (DATA_PAGES_PER_HEADER + 1) + 1
}

/// Index, counted in pages from the start of the file, of data page `p`.
pub open spec fn data_block(p: int) -> int {
    2 + p / (DATA_PAGES_PER_HEADER as int) + p
}

/// Byte offset of header page `header_index` in the partition file.
pub fn header_page_offset(header_index: usize) -> (r: u64)
    requires
        header_index < MAX_HEADER_PAGES,
    ensures
        r == PAGE_SIZE * header_block(header_index as int),
{
    assert(header_index * (DATA_PAGES_PER_HEADER + 1) < 2048 * 32769) by (nonlinear_arith)
        requires header_index < 2048;
    let block: u64 = header_index as u64 * (DATA_PAGES_PER_HEADER as u64 + 1) + 1;
    assert(block * 4096 <= 2048 * 32769 * 4096) by (nonlinear_arith)
        requires block <= 2048 * 32769;
    block * PAGE_SIZE as u64
}

/// Byte offset of data page `page_num` in the partition file.
pub fn data_page_offset(page_num: usize) -> (r: u64)
    requires
        page_num < PARTITION_CAPACITY,
    ensures
        r == PAGE_SIZE * data_block(page_num as int),
{
    let other_headers: u64 = page_num as u64 / DATA_PAGES_PER_HEADER as u64;
    let block: u64 = 2 + other_headers + page_num as u64;
    assert(block * 4096 <= 67110914 * 4096) by (nonlinear_arith)
        requires block <= 67110914;
    block * PAGE_SIZE as u64
}

/// Address of page `page_num` of partition `part_num` in the space shared by
/// all partitions: `part_num * 10_000_000_000 + page_num`.
pub fn global_page_address(part_num: u64, page_num: u64) -> (r: u64)
    requires
        part_num * GLOBAL_ADDRESS_RADIX + page_num <= u64::MAX,
    ensures
        r == part_num * GLOBAL_ADDRESS_RADIX + page_num,
{
    part_num * GLOBAL_ADDRESS_RADIX + page_num
}

/// Data page `p` sits right after its header page, at the position its bit
/// has in that header: a header page and its data pages form one group.
pub proof fn lemma_data_block_in_group(p: int)
    requires
        0 <= p,
    ensures
        data_block(p) == header_block(p / (DATA_PAGES_PER_HEADER as int)) + 1 + p
            % (DATA_PAGES_PER_HEADER as int),
{
    let d = DATA_PAGES_PER_HEADER as int;
    assert(p == (p / d) * d + p % d) by (nonlinear_arith)
        requires d == 32768;
    assert((p / d) * (d + 1) == (p / d) * d + p / d) by (nonlinear_arith);
}

/// No two regions of a partition file overlap: data pages are laid out in
/// strictly increasing order, none of them shares a page with a header page,
/// and the master page (page 0 of the file) is neither.
pub proof fn lemma_layout_disjoint(p: int, q: int, h: int)
    requires
        0 <= p < q < PARTITION_CAPACITY,
        0 <= h < MAX_HEADER_PAGES,
    ensures
        data_block(p) < data_block(q),
        data_block(p) != header_block(h),
        data_block(q) != header_block(h),
        0 < header_block(h),
        0 < data_block(p),
{
    let d = DATA_PAGES_PER_HEADER as int;
    assert(p / d <= q / d) by (nonlinear_arith)
        requires p < q, d == 32768, 0 <= p;
    lemma_data_block_in_group(p);
    lemma_data_block_in_group(q);
    lemma_header_not_data(p, h);
    lemma_header_not_data(q, h);
}

proof fn lemma_header_not_data(p: int, h: int)
    requires
        0 <= p,
        0 <= h,
        data_block(p) == header_block(p / (DATA_PAGES_PER_HEADER as int)) + 1 + p
            % (DATA_PAGES_PER_HEADER as int),
    ensures
        data_block(p) != header_block(h),
{
    let d = DATA_PAGES_PER_HEADER as int;
    let g = p / d;
    let b = p % d;
    assert(0 <= b < d) by (nonlinear_arith)
        requires d == 32768, b == p % d;
    assert(0 <= g) by (nonlinear_arith)
        requires d == 32768, g == p / d, 0 <= p;
    if h <= g {
        assert(h * (d + 1) <= g * (d + 1)) by (nonlinear_arith)
            requires h <= g, d == 32768;
        if h < g {
            assert(h * (d + 1) + d + 1 <= g * (d + 1)) by (nonlinear_arith)
                requires h < g, d == 32768;
        }
    } else {
        assert(g * (d + 1) + d + 1 <= h * (d + 1)) by (nonlinear_arith)
            requires g < h, d == 32768;
    }
}

} // verus!
