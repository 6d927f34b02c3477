//! The bookkeeping of one partition: its header bitmaps and master page.
//! The partition file itself is read and written by the caller, at the
//! offsets and with the images that this module hands out.
use crate::bitmap::{
    bit_set, clear_bit, count_set, first_clear_bit, lemma_count_full, lemma_count_le,
    lemma_count_one_more, lemma_count_same, popcount, set_bit, test_bit,
};
use crate::error::StorageError;
use crate::layout::{
    data_block, data_page_offset, DATA_PAGES_PER_HEADER, MAX_HEADER_PAGES, PAGE_SIZE, PARTITION_CAPACITY,
};
use crate::master_page::{decode_counters, encode_counters, lemma_decode_encode, MasterPage};
use vstd::arithmetic::div_mod::lemma_fundamental_div_mod_converse;
use vstd::prelude::*;

verus! {

/// Whether data page `p` is marked allocated in the header bitmaps `headers`.
pub open spec fn page_allocated(headers: Seq<Seq<u8>>, p: int) -> bool {
    0 <= p < PARTITION_CAPACITY && bit_set(
        headers[p / (DATA_PAGES_PER_HEADER as int)],
        p % (DATA_PAGES_PER_HEADER as int),
    )
}

/// Header bitmaps of the right shape: one page per header, each a full page.
pub open spec fn headers_shaped(headers: Seq<Seq<u8>>) -> bool {
    &&& headers.len() == MAX_HEADER_PAGES
    &&& forall|h: int| 0 <= h < MAX_HEADER_PAGES ==> (#[trigger] headers[h]).len() == PAGE_SIZE
}

/// Whether a master page and header bitmaps form a consistent partition
/// state: each counter is the number of set bits of its header page.
pub open spec fn consistent(counters: Seq<u16>, headers: Seq<Seq<u8>>) -> bool {
    &&& headers_shaped(headers)
    &&& counters.len() == MAX_HEADER_PAGES
    &&& forall|h: int|
        0 <= h < MAX_HEADER_PAGES ==> counters[h] as nat == popcount(#[trigger] headers[h])
}

/// Whether `q` is the page that first-fit allocation takes from the state
/// `before`, and `after` is `before` with `q` allocated.
pub open spec fn allocates_first_fit(before: Seq<Seq<u8>>, after: Seq<Seq<u8>>, q: int) -> bool {
    &&& 0 <= q < PARTITION_CAPACITY
    &&& !page_allocated(before, q)
    &&& forall|r: int| 0 <= r < q ==> page_allocated(before, r)
    &&& forall|r: int| page_allocated(after, r) == (page_allocated(before, r) || r == q)
}

/// Whether `after` is `before` with page `p` freed.
pub open spec fn frees(before: Seq<Seq<u8>>, after: Seq<Seq<u8>>, p: int) -> bool {
    forall|r: int| page_allocated(after, r) == (page_allocated(before, r) && r != p)
}

pub struct PartitionHandle {
    master_page: MasterPage,
    header_pages: Vec<Vec<u8>>,
    part_num: usize,
}

impl PartitionHandle {
    /// The header bitmaps.
    pub closed spec fn headers(&self) -> Seq<Seq<u8>> {
        self.header_pages@.map_values(|v: Vec<u8>| v@)
    }

    /// The master page's counters.
    pub closed spec fn counters(&self) -> Seq<u16> {
        self.master_page@
    }

    /// The number of the partition.
    pub closed spec fn spec_part_num(&self) -> usize {
        self.part_num
    }

    /// Every counter of the master page equals the number of set bits of
    /// its header page.
    pub open spec fn wf(&self) -> bool {
        consistent(self.counters(), self.headers())
    }

    /// A handle for partition `part_num` with no page allocated.
    pub fn new(part_num: usize) -> (r: PartitionHandle)
        ensures
            r.wf(),
            r.spec_part_num() == part_num,
            forall|p: int| !page_allocated(r.headers(), p),
            r.counters() == Seq::new(MAX_HEADER_PAGES as nat, |i: int| 0u16),
    {
        let master_page = MasterPage::new();
        let mut header_pages: Vec<Vec<u8>> = Vec::new();
        let mut h: usize = 0;
        while h < MAX_HEADER_PAGES
            invariant
                h <= MAX_HEADER_PAGES,
                header_pages@.len() == h,
                forall|g: int| 0 <= g < h ==> (#[trigger] header_pages@[g])@ == Seq::new(PAGE_SIZE as nat, |i: int| 0u8),
            decreases MAX_HEADER_PAGES - h,
        {
            header_pages.push(zero_page());
            h = h + 1;
        }
        let r = PartitionHandle { master_page, header_pages, part_num };
        proof {
            assert forall|g: int| 0 <= g < MAX_HEADER_PAGES implies r.counters()[g] as nat
                == popcount(#[trigger] r.headers()[g]) by {
                lemma_zero_page_empty(r.headers()[g], 8 * PAGE_SIZE as nat);
            }
            assert forall|p: int| !page_allocated(r.headers(), p) by {
                if 0 <= p < PARTITION_CAPACITY {
                    lemma_page_in_range(p);
                    lemma_zero_page_empty(r.headers()[p / 32768], 8 * PAGE_SIZE as nat);
                }
            }
        }
        r
    }

    /// The number of the partition.
    pub fn part_num(&self) -> (r: usize)
        ensures
            r == self.spec_part_num(),
    {
        self.part_num
    }

    /// Whether data page `page_num` is allocated.
    pub fn is_page_allocated(&self, page_num: usize) -> (r: bool)
        requires
            self.wf(),
        ensures
            r == page_allocated(self.headers(), page_num as int),
    {
        if page_num >= PARTITION_CAPACITY {
            return false;
        }
        proof {
            lemma_page_in_range(page_num as int);
            let h = (page_num / DATA_PAGES_PER_HEADER) as int;
            assert(self.headers()[h] == self.header_pages@[h]@);
        }
        test_bit(&self.header_pages[page_num / DATA_PAGES_PER_HEADER], page_num % DATA_PAGES_PER_HEADER)
    }
}

impl PartitionHandle {
    /// Allocates the lowest-numbered free page: the first header page whose
    /// counter shows room, then the first clear bit of that header page.
    /// Fails with `OutOfSpace`, changing nothing, when every page is taken.
    pub fn alloc_page(&mut self) -> (r: Result<usize, StorageError>)
        requires
            old(self).wf(),
        ensures
            final(self).wf(),
            final(self).spec_part_num() == old(self).spec_part_num(),
            match r {
                Ok(p) => allocates_first_fit(old(self).headers(), final(self).headers(), p as int),
                Err(e) => {
                    &&& e == StorageError::OutOfSpace { part_num: old(self).spec_part_num() }
                    &&& final(self).headers() == old(self).headers()
                    &&& final(self).counters() == old(self).counters()
                    &&& forall|q: int| 0 <= q < PARTITION_CAPACITY ==> page_allocated(old(self).headers(), q)
                },
            },
    {
        let ghost before = *self;
        let mut header_index: usize = 0;
        while header_index < MAX_HEADER_PAGES
            && self.master_page.metadata[header_index] >= DATA_PAGES_PER_HEADER as u16
            invariant
                *self == before,
                self.wf(),
                header_index <= MAX_HEADER_PAGES,
                forall|g: int|
                    0 <= g < header_index ==> self.counters()[g] >= DATA_PAGES_PER_HEADER,
            decreases MAX_HEADER_PAGES - header_index,
        {
            header_index = header_index + 1;
        }
        if header_index == MAX_HEADER_PAGES {
            proof {
                assert forall|q: int| 0 <= q < PARTITION_CAPACITY implies page_allocated(self.headers(), q) by {
                    self.lemma_full_header_allocated(q);
                }
            }
            return Err(StorageError::OutOfSpace { part_num: self.part_num });
        }
        let h = header_index;
        proof {
            assert(self.headers()[h as int] == self.header_pages@[h as int]@);
        }
        let found = first_clear_bit(&self.header_pages[h]);
        let b = match found {
            Some(b) => b,
            None => {
                proof {
                    lemma_count_all(self.headers()[h as int], 8 * PAGE_SIZE as nat);
                }
                return Err(StorageError::OutOfSpace { part_num: self.part_num });
            },
        };
        let mut page = self.header_pages[h].clone();
        proof {
            assert(page@ =~= before.headers()[h as int]);
        }
        set_bit(&mut page, b);
        let ghost new_page = page@;
        self.header_pages.set(h, page);
        proof {
            lemma_count_one_more(before.headers()[h as int], new_page, 8 * PAGE_SIZE as nat, b as int);
            lemma_count_le(new_page, 8 * PAGE_SIZE as nat);
            assert(self.headers() =~= before.headers().update(h as int, new_page));
        }
        self.master_page.up(h);
        proof {
            assert(h * 32768 + b < PARTITION_CAPACITY) by (nonlinear_arith)
                requires
                    h < 2048,
                    b < 32768,
            ;
        }
        let page_num = h * DATA_PAGES_PER_HEADER + b;
        proof {
            lemma_split(page_num as int, h as int, b as int);
            assert(!page_allocated(before.headers(), page_num as int));
            assert forall|r: int| 0 <= r < page_num implies page_allocated(before.headers(), r) by {
                lemma_before(r, page_num as int);
                if r / 32768 < h {
                    before.lemma_full_header_allocated(r);
                }
            }
            assert forall|r: int|
                page_allocated(self.headers(), r) == (page_allocated(before.headers(), r) || r == page_num) by {
                if 0 <= r < PARTITION_CAPACITY {
                    lemma_page_in_range(r);
                    if r / 32768 != h {
                        assert(self.headers()[r / 32768] == before.headers()[r / 32768]);
                    } else if r % 32768 != b {
                        assert(bit_set(new_page, r % 32768) == bit_set(before.headers()[h as int], r % 32768));
                    }
                    if r / 32768 == h && r % 32768 == b {
                        lemma_split(r, h as int, b as int);
                        assert(r == page_num) by (nonlinear_arith)
                            requires
                                r == 32768 * (r / 32768) + r % 32768,
                                r / 32768 == h,
                                r % 32768 == b,
                                page_num == h * 32768 + b,
                        ;
                    }
                }
            }
        }
        Ok(page_num)
    }
}

/// Whether a master-page image and header bitmaps read from a partition
/// file form a consistent partition state.
pub open spec fn load_accepts(master_bytes: Seq<u8>, headers: Seq<Seq<u8>>) -> bool {
    master_bytes.len() == PAGE_SIZE && consistent(decode_counters(master_bytes), headers)
}

impl PartitionHandle {
    /// Frees an allocated page. Fails, changing nothing, with `DoubleFree`
    /// when the page is free and with `PageNotAllocated` when it lies beyond
    /// the partition's capacity.
    pub fn free_page(&mut self, page_num: usize) -> (r: Result<(), StorageError>)
        requires
            old(self).wf(),
        ensures
            final(self).wf(),
            final(self).spec_part_num() == old(self).spec_part_num(),
            r is Ok <==> page_allocated(old(self).headers(), page_num as int),
            match r {
                Ok(_) => frees(old(self).headers(), final(self).headers(), page_num as int),
                Err(e) => {
                    &&& final(self).headers() == old(self).headers()
                    &&& final(self).counters() == old(self).counters()
                    &&& page_num < PARTITION_CAPACITY ==> e == StorageError::DoubleFree {
                        part_num: old(self).spec_part_num(),
                        page_num,
                    }
                    &&& page_num >= PARTITION_CAPACITY ==> e == StorageError::PageNotAllocated {
                        part_num: old(self).spec_part_num(),
                        page_num,
                    }
                },
            },
    {
        if page_num >= PARTITION_CAPACITY {
            return Err(StorageError::PageNotAllocated { part_num: self.part_num, page_num });
        }
        let ghost before = *self;
        let h = page_num / DATA_PAGES_PER_HEADER;
        let b = page_num % DATA_PAGES_PER_HEADER;
        proof {
            lemma_page_in_range(page_num as int);
            assert(self.headers()[h as int] == self.header_pages@[h as int]@);
        }
        if !test_bit(&self.header_pages[h], b) {
            return Err(StorageError::DoubleFree { part_num: self.part_num, page_num });
        }
        let mut page = self.header_pages[h].clone();
        proof {
            assert(page@ =~= before.headers()[h as int]);
        }
        clear_bit(&mut page, b);
        let ghost new_page = page@;
        self.header_pages.set(h, page);
        proof {
            lemma_count_one_more(new_page, before.headers()[h as int], 8 * PAGE_SIZE as nat, b as int);
            assert(self.headers() =~= before.headers().update(h as int, new_page));
        }
        self.master_page.down(h);
        proof {
            assert forall|r: int|
                page_allocated(self.headers(), r) == (page_allocated(before.headers(), r) && r
                    != page_num) by {
                if 0 <= r < PARTITION_CAPACITY {
                    lemma_page_in_range(r);
                    if r / 32768 == h && r % 32768 == b {
                        assert(r == page_num) by (nonlinear_arith)
                            requires
                                r == 32768 * (r / 32768) + r % 32768,
                                page_num == 32768 * (page_num / 32768) + page_num % 32768,
                                r / 32768 == page_num / 32768,
                                r % 32768 == page_num % 32768,
                        ;
                    }
                }
            }
        }
        Ok(())
    }

    /// Frees every page: all header bitmaps and all counters become zero.
    /// The data pages themselves are left as they are.
    pub fn free_all(&mut self)
        requires
            old(self).wf(),
        ensures
            final(self).wf(),
            final(self).spec_part_num() == old(self).spec_part_num(),
            forall|p: int| !page_allocated(final(self).headers(), p),
            final(self).counters() == Seq::new(MAX_HEADER_PAGES as nat, |i: int| 0u16),
    {
        self.master_page = MasterPage::new();
        let mut h: usize = 0;
        while h < MAX_HEADER_PAGES
            invariant
                h <= MAX_HEADER_PAGES,
                self.header_pages@.len() == MAX_HEADER_PAGES,
                self.master_page@ == Seq::new(MAX_HEADER_PAGES as nat, |i: int| 0u16),
                forall|g: int| 0 <= g < h ==> (#[trigger] self.header_pages@[g])@ == Seq::new(PAGE_SIZE as nat, |i: int| 0u8),
                self.part_num == old(self).part_num,
            decreases MAX_HEADER_PAGES - h,
        {
            self.header_pages.set(h, zero_page());
            h = h + 1;
        }
        proof {
            assert forall|g: int| 0 <= g < MAX_HEADER_PAGES implies self.counters()[g] as nat
                == popcount(#[trigger] self.headers()[g]) by {
                lemma_zero_page_empty(self.headers()[g], 8 * PAGE_SIZE as nat);
            }
            assert forall|p: int| !page_allocated(self.headers(), p) by {
                if 0 <= p < PARTITION_CAPACITY {
                    lemma_page_in_range(p);
                    lemma_zero_page_empty(self.headers()[p / 32768], 8 * PAGE_SIZE as nat);
                }
            }
        }
    }

    /// File offset of data page `page_num`, from which its bytes are read.
    /// Fails with `PageNotAllocated` when the page is not allocated.
    pub fn read_page(&self, page_num: usize) -> (r: Result<u64, StorageError>)
        requires
            self.wf(),
        ensures
            r is Ok <==> page_allocated(self.headers(), page_num as int),
            match r {
                Ok(off) => off == PAGE_SIZE * data_block(page_num as int),
                Err(e) => e == StorageError::PageNotAllocated {
                    part_num: self.spec_part_num(),
                    page_num,
                },
            },
    {
        if !self.is_page_allocated(page_num) {
            return Err(StorageError::PageNotAllocated { part_num: self.part_num, page_num });
        }
        Ok(data_page_offset(page_num))
    }

    /// File offset of data page `page_num`, at which its bytes are written.
    /// Fails with `PageNotAllocated` when the page is not allocated.
    pub fn write_page(&self, page_num: usize) -> (r: Result<u64, StorageError>)
        requires
            self.wf(),
        ensures
            r is Ok <==> page_allocated(self.headers(), page_num as int),
            match r {
                Ok(off) => off == PAGE_SIZE * data_block(page_num as int),
                Err(e) => e == StorageError::PageNotAllocated {
                    part_num: self.spec_part_num(),
                    page_num,
                },
            },
    {
        if !self.is_page_allocated(page_num) {
            return Err(StorageError::PageNotAllocated { part_num: self.part_num, page_num });
        }
        Ok(data_page_offset(page_num))
    }

    /// The on-disk image of the master page.
    pub fn master_page_bytes(&self) -> (r: Vec<u8>)
        requires
            self.wf(),
        ensures
            r@ == encode_counters(self.counters()),
            r@.len() == PAGE_SIZE,
    {
        self.master_page.to_bytes()
    }

    /// The on-disk image of header page `header_index`.
    pub fn header_page(&self, header_index: usize) -> (r: &Vec<u8>)
        requires
            self.wf(),
            header_index < MAX_HEADER_PAGES,
        ensures
            r@ == self.headers()[header_index as int],
    {
        &self.header_pages[header_index]
    }

    /// Rebuilds the handle of partition `part_num` from the master-page
    /// image and the header pages read from its file. Fails with `IOError`
    /// when the image is not a full page, when the header pages do not have
    /// the partition's shape, or when a counter differs from the number of
    /// pages its header page marks allocated.
    pub fn load(part_num: usize, master_bytes: &[u8], header_pages: Vec<Vec<u8>>) -> (r: Result<
        PartitionHandle,
        StorageError,
    >)
        ensures
            r is Ok <==> load_accepts(master_bytes@, header_pages@.map_values(|v: Vec<u8>| v@)),
            match r {
                Ok(h) => {
                    &&& h.wf()
                    &&& h.spec_part_num() == part_num
                    &&& h.counters() == decode_counters(master_bytes@)
                    &&& h.headers() == header_pages@.map_values(|v: Vec<u8>| v@)
                },
                Err(e) => e == StorageError::IOError { part_num },
            },
    {
        let ghost pages = header_pages@.map_values(|v: Vec<u8>| v@);
        if master_bytes.len() != PAGE_SIZE || header_pages.len() != MAX_HEADER_PAGES {
            return Err(StorageError::IOError { part_num });
        }
        let master_page = MasterPage::from_bytes(master_bytes);
        let mut h: usize = 0;
        while h < MAX_HEADER_PAGES
            invariant
                h <= MAX_HEADER_PAGES,
                header_pages@.len() == MAX_HEADER_PAGES,
                pages == header_pages@.map_values(|v: Vec<u8>| v@),
                master_page@ == decode_counters(master_bytes@),
                forall|g: int| 0 <= g < h ==> (#[trigger] pages[g]).len() == PAGE_SIZE,
                forall|g: int|
                    0 <= g < h ==> master_page@[g] as nat == popcount(#[trigger] pages[g]),
            decreases MAX_HEADER_PAGES - h,
        {
            proof {
                assert(pages[h as int] == header_pages@[h as int]@);
            }
            if header_pages[h].len() != PAGE_SIZE {
                return Err(StorageError::IOError { part_num });
            }
            if count_bits(&header_pages[h]) != master_page.metadata[h] as u32 {
                return Err(StorageError::IOError { part_num });
            }
            h = h + 1;
        }
        let r = PartitionHandle { master_page, header_pages, part_num };
        proof {
            assert(r.headers() == pages);
        }
        Ok(r)
    }
}

/// Number of set bits of a page.
fn count_bits(bytes: &Vec<u8>) -> (r: u32)
    requires
        bytes@.len() == PAGE_SIZE,
    ensures
        r as nat == popcount(bytes@),
{
    let mut count: u32 = 0;
    let mut i: usize = 0;
    while i < 8 * PAGE_SIZE
        invariant
            bytes@.len() == PAGE_SIZE,
            i <= 8 * PAGE_SIZE,
            count as nat == count_set(bytes@, i as nat),
        decreases 8 * PAGE_SIZE - i,
    {
        proof {
            lemma_count_le(bytes@, i as nat);
        }
        if test_bit(bytes, i) {
            count = count + 1;
        }
        i = i + 1;
    }
    count
}

/// Reopening a partition gives back its state: the master-page image and the
/// header pages of a consistent handle are accepted by `load`, and decode to
/// the same counters.
pub proof fn lemma_reopen(h: PartitionHandle)
    requires
        h.wf(),
    ensures
        load_accepts(encode_counters(h.counters()), h.headers()),
        decode_counters(encode_counters(h.counters())) == h.counters(),
{
    lemma_decode_encode(h.counters());
}

impl PartitionHandle {
    /// In a consistent state, a header page whose counter is full has every
    /// one of its pages allocated.
    proof fn lemma_full_header_allocated(&self, q: int)
        requires
            self.wf(),
            0 <= q < PARTITION_CAPACITY,
            self.counters()[q / 32768] >= DATA_PAGES_PER_HEADER,
        ensures
            page_allocated(self.headers(), q),
    {
        lemma_page_in_range(q);
        let page = self.headers()[q / 32768];
        lemma_count_le(page, 8 * PAGE_SIZE as nat);
        lemma_count_full(page, 8 * PAGE_SIZE as nat, q % 32768);
    }
}

/// When every one of the first `n` bits is set, all `n` are counted.
proof fn lemma_count_all(bytes: Seq<u8>, n: nat)
    requires
        forall|i: int| 0 <= i < n ==> bit_set(bytes, i),
    ensures
        count_set(bytes, n) == n,
    decreases n,
{
    if n > 0 {
        lemma_count_all(bytes, (n - 1) as nat);
    }
}

/// Page `h * 32768 + b` is bit `b` of header page `h`.
proof fn lemma_split(p: int, h: int, b: int)
    requires
        0 <= h,
        0 <= b < 32768,
        p == h * 32768 + b,
    ensures
        p / 32768 == h,
        p % 32768 == b,
{
    lemma_fundamental_div_mod_converse(p, 32768, h, b);
}

/// A lower page number is in the same or an earlier header page, and in the
/// same header page at a lower bit.
proof fn lemma_before(r: int, p: int)
    requires
        0 <= r < p,
    ensures
        r / 32768 <= p / 32768,
        r / 32768 == p / 32768 ==> r % 32768 < p % 32768,
{
}

/// A page of zero bytes.
fn zero_page() -> (r: Vec<u8>)
    ensures
        r@ == Seq::new(PAGE_SIZE as nat, |i: int| 0u8),
{
    let mut page: Vec<u8> = Vec::new();
    let mut i: usize = 0;
    while i < PAGE_SIZE
        invariant
            i <= PAGE_SIZE,
            page@ == Seq::new(i as nat, |k: int| 0u8),
        decreases PAGE_SIZE - i,
    {
        page.push(0);
        i = i + 1;
    }
    page
}

proof fn lemma_zero_page_empty(page: Seq<u8>, n: nat)
    requires
        page == Seq::new(PAGE_SIZE as nat, |i: int| 0u8),
        n <= 8 * PAGE_SIZE,
    ensures
        count_set(page, n) == 0,
        forall|i: int| 0 <= i < n ==> !bit_set(page, i),
    decreases n,
{
    if n > 0 {
        lemma_zero_page_empty(page, (n - 1) as nat);
        let k = ((n - 1) % 8) as u8;
        assert(((0u8 >> k) & 1u8) == 0u8) by (bit_vector);
        assert(page[(n - 1) / 8] == 0u8);
    }
}

/// Header index and bit index of an in-range page number are in range.
proof fn lemma_page_in_range(p: int)
    requires
        0 <= p < PARTITION_CAPACITY,
    ensures
        0 <= p / 32768 < MAX_HEADER_PAGES,
        0 <= p % 32768 < 8 * PAGE_SIZE,
{
}


/// From a partition whose allocated pages are exactly `0..n`, allocation
/// takes page `n` and leaves exactly `0..n + 1` allocated: from an empty
/// partition, pages come out as 0, 1, 2, and so on.
pub proof fn lemma_alloc_ascending(before: Seq<Seq<u8>>, after: Seq<Seq<u8>>, n: int, q: int)
    requires
        0 <= n,
        forall|r: int| page_allocated(before, r) == (0 <= r < n),
        allocates_first_fit(before, after, q),
    ensures
        q == n,
        forall|r: int| page_allocated(after, r) == (0 <= r < n + 1),
{
    if q > n {
        assert(page_allocated(before, n));
    }
}

/// After page `p` is freed, the next allocation takes `p` again exactly
/// when every page below `p` is allocated, that is when `p` is the lowest
/// free page.
pub proof fn lemma_free_then_alloc(
    s0: Seq<Seq<u8>>,
    s1: Seq<Seq<u8>>,
    s2: Seq<Seq<u8>>,
    p: int,
    q: int,
)
    requires
        page_allocated(s0, p),
        frees(s0, s1, p),
        allocates_first_fit(s1, s2, q),
    ensures
        (q == p) <==> (forall|r: int| 0 <= r < p ==> page_allocated(s1, r)),
{
    assert(!page_allocated(s1, p));
    if forall|r: int| 0 <= r < p ==> page_allocated(s1, r) {
        if q < p {
            assert(page_allocated(s1, q));
        }
        if q > p {
            assert(page_allocated(s1, p));
        }
    }
}

/// Once every page of the partition is allocated, no allocation succeeds.
pub proof fn lemma_exhausted(before: Seq<Seq<u8>>, after: Seq<Seq<u8>>, q: int)
    requires
        forall|r: int| 0 <= r < PARTITION_CAPACITY ==> page_allocated(before, r),
    ensures
        !allocates_first_fit(before, after, q),
{
}

} // verus!
