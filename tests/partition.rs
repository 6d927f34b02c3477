use disk_space::error::StorageError;
use disk_space::layout::{DATA_PAGES_PER_HEADER, MAX_HEADER_PAGES, PAGE_SIZE, PARTITION_CAPACITY};
use disk_space::master_page::MasterPage;
use disk_space::partition_handle::PartitionHandle;

fn header_images(h: &PartitionHandle) -> Vec<Vec<u8>> {
    (0..MAX_HEADER_PAGES).map(|i| h.header_page(i).clone()).collect()
}

#[test]
fn new_partition_scenario() {
    let mut h = PartitionHandle::new(7);
    assert_eq!(h.alloc_page(), Ok(0));
    assert_eq!(h.alloc_page(), Ok(1));
    assert_eq!(h.free_page(0), Ok(()));
    assert_eq!(h.alloc_page(), Ok(0));
    h.free_all();
    assert_eq!(h.alloc_page(), Ok(0));
}

#[test]
fn allocation_is_ascending_from_empty() {
    let mut h = PartitionHandle::new(0);
    for expected in 0..20usize {
        assert_eq!(h.alloc_page(), Ok(expected));
    }
    for p in 0..20usize {
        assert!(h.is_page_allocated(p));
    }
    assert!(!h.is_page_allocated(20));
}

#[test]
fn freed_page_is_reused_only_when_lowest_free() {
    let mut h = PartitionHandle::new(0);
    for _ in 0..5 {
        h.alloc_page().unwrap();
    }
    assert_eq!(h.free_page(3), Ok(()));
    assert_eq!(h.alloc_page(), Ok(3));
    assert_eq!(h.free_page(1), Ok(()));
    assert_eq!(h.free_page(4), Ok(()));
    assert_eq!(h.alloc_page(), Ok(1));
    assert_eq!(h.alloc_page(), Ok(4));
    assert_eq!(h.alloc_page(), Ok(5));
}

#[test]
fn allocation_crosses_byte_boundary() {
    let mut h = PartitionHandle::new(0);
    for _ in 0..9 {
        h.alloc_page().unwrap();
    }
    assert_eq!(h.header_page(0)[0], 0xff);
    assert_eq!(h.header_page(0)[1], 0x01);
}

#[test]
fn double_free_is_refused() {
    let mut h = PartitionHandle::new(2);
    assert_eq!(h.alloc_page(), Ok(0));
    assert_eq!(h.free_page(0), Ok(()));
    assert_eq!(h.free_page(0), Err(StorageError::DoubleFree { part_num: 2, page_num: 0 }));
    assert_eq!(h.free_page(5), Err(StorageError::DoubleFree { part_num: 2, page_num: 5 }));
    assert_eq!(h.alloc_page(), Ok(0));
}

#[test]
fn free_beyond_capacity_is_refused() {
    let mut h = PartitionHandle::new(2);
    assert_eq!(
        h.free_page(PARTITION_CAPACITY),
        Err(StorageError::PageNotAllocated { part_num: 2, page_num: PARTITION_CAPACITY })
    );
}

#[test]
fn unallocated_page_access_is_refused() {
    let mut h = PartitionHandle::new(4);
    assert_eq!(h.read_page(0), Err(StorageError::PageNotAllocated { part_num: 4, page_num: 0 }));
    assert_eq!(h.write_page(0), Err(StorageError::PageNotAllocated { part_num: 4, page_num: 0 }));
    h.alloc_page().unwrap();
    assert_eq!(h.read_page(0), Ok(2 * PAGE_SIZE as u64));
    assert_eq!(h.write_page(0), Ok(2 * PAGE_SIZE as u64));
    assert_eq!(
        h.read_page(PARTITION_CAPACITY + 1),
        Err(StorageError::PageNotAllocated { part_num: 4, page_num: PARTITION_CAPACITY + 1 })
    );
}

#[test]
fn read_and_write_use_the_same_offset() {
    let mut h = PartitionHandle::new(0);
    for _ in 0..3 {
        h.alloc_page().unwrap();
    }
    assert_eq!(h.read_page(2), h.write_page(2));
    assert_eq!(h.read_page(2), Ok(4 * PAGE_SIZE as u64));
}

#[test]
fn master_page_counts_allocations() {
    let mut h = PartitionHandle::new(0);
    for _ in 0..3 {
        h.alloc_page().unwrap();
    }
    let bytes = h.master_page_bytes();
    assert_eq!(bytes.len(), PAGE_SIZE);
    assert_eq!(bytes[0], 3);
    assert_eq!(bytes[1], 0);
    h.free_page(1).unwrap();
    assert_eq!(h.master_page_bytes()[0], 2);
    h.free_all();
    assert!(h.master_page_bytes().iter().all(|b| *b == 0));
    assert!(h.header_page(0).iter().all(|b| *b == 0));
}

#[test]
fn reopening_reproduces_state() {
    let mut h = PartitionHandle::new(9);
    for _ in 0..10 {
        h.alloc_page().unwrap();
    }
    h.free_page(4).unwrap();
    let master = h.master_page_bytes();
    let headers = header_images(&h);
    let mut again = PartitionHandle::load(9, &master, headers.clone()).unwrap();
    assert_eq!(again.part_num(), 9);
    assert_eq!(again.master_page_bytes(), master);
    assert_eq!(header_images(&again), headers);
    assert_eq!(again.alloc_page(), Ok(4));
    assert_eq!(again.alloc_page(), Ok(10));
}

#[test]
fn load_refuses_inconsistent_images() {
    let h = PartitionHandle::new(1);
    let master = h.master_page_bytes();
    let headers = header_images(&h);
    let short = master[..PAGE_SIZE - 1].to_vec();
    assert!(matches!(
        PartitionHandle::load(1, &short, headers.clone()),
        Err(StorageError::IOError { part_num: 1 })
    ));
    let mut wrong_count = master.clone();
    wrong_count[2] = 1;
    assert!(matches!(
        PartitionHandle::load(1, &wrong_count, headers.clone()),
        Err(StorageError::IOError { part_num: 1 })
    ));
    let mut short_header = headers.clone();
    short_header[5].pop();
    assert!(matches!(
        PartitionHandle::load(1, &master, short_header),
        Err(StorageError::IOError { part_num: 1 })
    ));
    assert!(matches!(
        PartitionHandle::load(1, &master, headers[1..].to_vec()),
        Err(StorageError::IOError { part_num: 1 })
    ));
}

#[test]
fn full_partition_is_out_of_space() {
    let mut master = Vec::new();
    for _ in 0..MAX_HEADER_PAGES {
        master.extend_from_slice(&(DATA_PAGES_PER_HEADER as u16).to_le_bytes());
    }
    let headers = vec![vec![0xffu8; PAGE_SIZE]; MAX_HEADER_PAGES];
    let mut h = PartitionHandle::load(3, &master, headers).unwrap();
    assert_eq!(h.alloc_page(), Err(StorageError::OutOfSpace { part_num: 3 }));
    assert_eq!(h.free_page(PARTITION_CAPACITY - 1), Ok(()));
    assert_eq!(h.alloc_page(), Ok(PARTITION_CAPACITY - 1));
    assert_eq!(h.alloc_page(), Err(StorageError::OutOfSpace { part_num: 3 }));
}

#[test]
fn allocation_moves_to_next_header_when_one_is_full() {
    let mut master = vec![0u8; PAGE_SIZE];
    master[0] = 0x00;
    master[1] = 0x80;
    let mut headers = vec![vec![0u8; PAGE_SIZE]; MAX_HEADER_PAGES];
    headers[0] = vec![0xffu8; PAGE_SIZE];
    let mut h = PartitionHandle::load(0, &master, headers).unwrap();
    assert_eq!(h.alloc_page(), Ok(DATA_PAGES_PER_HEADER));
    assert_eq!(h.read_page(DATA_PAGES_PER_HEADER), Ok((2 + 1 + DATA_PAGES_PER_HEADER as u64) * 4096));
}

#[test]
fn master_page_counters_encode_little_endian() {
    let mut m = MasterPage::new();
    assert_eq!(m.metadata.len(), MAX_HEADER_PAGES);
    for _ in 0..300 {
        m.up(1);
    }
    m.up(0);
    m.down(0);
    m.up(0);
    let bytes = m.to_bytes();
    assert_eq!(bytes.len(), PAGE_SIZE);
    assert_eq!(&bytes[0..4], &[1, 0, 44, 1]);
    let back = MasterPage::from_bytes(&bytes);
    assert_eq!(back.metadata, m.metadata);
}
