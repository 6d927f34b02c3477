use disk_space::layout::{data_page_offset, global_page_address, header_page_offset, PAGE_SIZE};

#[test]
fn header_offsets_follow_the_file_layout() {
    assert_eq!(header_page_offset(0), 4096);
    assert_eq!(header_page_offset(1), 4096 * 32770);
    assert_eq!(header_page_offset(2047), 4096 * (2047 * 32769 + 1));
}

#[test]
fn data_offsets_follow_the_file_layout() {
    assert_eq!(data_page_offset(0), 2 * 4096);
    assert_eq!(data_page_offset(32767), (2 + 32767) * 4096);
    assert_eq!(data_page_offset(32768), (2 + 1 + 32768) * 4096);
    assert_eq!(data_page_offset(32768), header_page_offset(1) + PAGE_SIZE as u64);
    assert_eq!(data_page_offset(67108863), (2 + 2047 + 67108863) * 4096);
}

#[test]
fn global_address_uses_fixed_radix() {
    assert_eq!(global_page_address(0, 17), 17);
    assert_eq!(global_page_address(3, 5), 30_000_000_005);
}
