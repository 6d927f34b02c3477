use disk_space::disk_space_manager::{parse_partition_number, DiskSpaceManager};
use disk_space::error::StorageError;

#[test]
fn test_disk_space_manager() {
    let db_dir = "./db";
    let mut disk_space_manager = DiskSpaceManager::new(db_dir.to_string(), &Vec::new()).unwrap();
    let part_num = disk_space_manager.alloc_partition();
    assert_eq!(part_num, 0);
    let part_num = disk_space_manager.alloc_partition();
    assert_eq!(part_num, 1);
}

#[test]
fn test_disk_space_manager_with_num() {
    let db_dir = "./db";
    let mut disk_space_manager = DiskSpaceManager::new(db_dir.to_string(), &Vec::new()).unwrap();
    let part_num = disk_space_manager.alloc_partition_with_num(3);
    assert_eq!(part_num, 3);
}

#[test]
fn numbering_resumes_after_largest_partition() {
    let names = vec!["0".to_string(), "3".to_string()];
    let mut m = DiskSpaceManager::new("./db".to_string(), &names).unwrap();
    assert!(m.is_registered(0));
    assert!(m.is_registered(3));
    assert!(!m.is_registered(1));
    assert_eq!(m.alloc_partition(), 4);
    assert_eq!(m.alloc_partition(), 5);
    assert!(m.is_registered(5));
    assert_eq!(m.db_dir(), "./db");
}

#[test]
fn manual_number_leaves_counter_alone() {
    let mut m = DiskSpaceManager::new("db".to_string(), &Vec::new()).unwrap();
    assert_eq!(m.alloc_partition_with_num(7), 7);
    assert!(m.is_registered(7));
    assert_eq!(m.alloc_partition(), 0);
    assert_eq!(m.alloc_partition_with_num(7), 7);
    assert_eq!(m.alloc_partition(), 1);
}

#[test]
fn unparsable_entry_is_a_corrupt_directory() {
    let names = vec!["2".to_string(), "notes.txt".to_string(), "x".to_string()];
    let r = DiskSpaceManager::new("db".to_string(), &names);
    assert!(matches!(r, Err(StorageError::CorruptDirectory { name }) if name == "notes.txt"));
}

#[test]
fn partition_names_parse_as_decimal() {
    assert_eq!(parse_partition_number("0"), Some(0));
    assert_eq!(parse_partition_number("0042"), Some(42));
    assert_eq!(parse_partition_number("9223372036854775807"), Some(9223372036854775807));
    assert_eq!(parse_partition_number("9223372036854775808"), None);
    assert_eq!(parse_partition_number(""), None);
    assert_eq!(parse_partition_number("-1"), None);
    assert_eq!(parse_partition_number("1a"), None);
}
