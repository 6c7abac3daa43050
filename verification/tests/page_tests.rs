use wackdb::page::{SlottedPage, INVALID_TXN_ID};

const TEST_PAGE_SIZE: usize = 8192;

#[test]
fn insert_should_return_slot_index() {
    let mut page = SlottedPage::<TEST_PAGE_SIZE>::new();
    let slot = page.insert_record(b"data", 100).unwrap();
    assert_eq!(slot, 0);
}

#[test]
fn get_record_should_return_inserted_data() {
    let mut page = SlottedPage::<TEST_PAGE_SIZE>::new();
    let record = b"Hello, World!";
    let slot = page.insert_record(record, 100).unwrap();

    let (header, retrieved) = page.get_record(slot).unwrap();
    assert_eq!(retrieved, record);
    assert_eq!(header.xmin, 100);
    assert_eq!(header.xmax, INVALID_TXN_ID);
}

#[test]
fn insert_should_update_header_slots() {
    let mut page = SlottedPage::<TEST_PAGE_SIZE>::new();
    page.insert_record(b"A", 100).unwrap();
    page.insert_record(b"B", 100).unwrap();

    assert_eq!(page.header().total_slots, 2);
}

#[test]
fn test_slot_directory_insert_and_read() {
    let mut page = SlottedPage::<TEST_PAGE_SIZE>::new();
    let payload1 = b"variable_length_record_1";
    let payload2 = b"more_data_here";

    let slot1 = page
        .insert_record(payload1, 100)
        .expect("failed to insert variable-length record 1");
    let slot2 = page
        .insert_record(payload2, 101)
        .expect("failed to insert variable-length record 2");

    assert_eq!(slot1, 0);
    assert_eq!(slot2, 1);

    let (_, rec1) = page.get_record(slot1).expect("failed to read record 1");
    assert_eq!(rec1, payload1);
    let (_, rec2) = page.get_record(slot2).expect("failed to read record 2");
    assert_eq!(rec2, payload2);

    let header = page.header();
    assert_eq!(header.total_slots, 2);
    assert!(header.free_space_upper < TEST_PAGE_SIZE as u16);
}

#[test]
fn test_page_lsn_storage() {
    let mut page = SlottedPage::<TEST_PAGE_SIZE>::new();
    page.set_lsn(42);

    let lsn = page.get_lsn();
    assert_eq!(lsn, 42, "the LSN must be preserved in the page structure");
}

#[test]
fn page_mark_deleted_keeps_payload_and_sets_xmax() {
    let mut page = SlottedPage::<TEST_PAGE_SIZE>::new();
    let a = page.insert_record(b"first", 7).unwrap();
    let b = page.insert_record(b"second", 8).unwrap();
    assert!(page.mark_deleted(a, 99));
    let (h, data) = page.get_record(a).unwrap();
    assert_eq!(h.xmin, 7);
    assert_eq!(h.xmax, 99);
    assert_eq!(data, b"first");
    let (h2, data2) = page.get_record(b).unwrap();
    assert_eq!(h2.xmax, 0);
    assert_eq!(data2, b"second");
    assert!(!page.mark_deleted(5, 1));
}

#[test]
fn page_insert_fails_when_full() {
    let mut page = SlottedPage::<64>::new();
    // 64 - 16 header = 48 free; a record needs 16 + len + 4.
    assert_eq!(page.insert_record(&[1u8; 28], 1), Some(0));
    assert_eq!(page.insert_record(&[], 1), None);
    let h = page.header();
    assert_eq!(h.free_space_lower, 20);
    assert_eq!(h.free_space_upper, 20);
}

#[test]
fn slot_length_counts_data_without_header() {
    let mut page = SlottedPage::<TEST_PAGE_SIZE>::new();
    let slot = page.insert_record(b"hello", 7).unwrap();
    let slots = page.slots();
    assert_eq!(slots[slot].length, 5);
    assert_eq!(slots[slot].offset as usize, TEST_PAGE_SIZE - 16 - 5);
    let (h, data) = page.get_record(slot).unwrap();
    assert_eq!(h.xmin, 7);
    assert_eq!(data, b"hello");
}

#[test]
fn new_page_is_zero_after_header() {
    let page = SlottedPage::<TEST_PAGE_SIZE>::new();
    assert!(page.data[16..].iter().all(|b| *b == 0));
}

#[test]
fn mark_deleted_changes_only_the_xmax_bytes() {
    let mut page = SlottedPage::<TEST_PAGE_SIZE>::new();
    let slot = page.insert_record(b"abc", 3).unwrap();
    let before = page.data.clone();
    assert!(page.mark_deleted(slot, 42));
    let off = page.slots()[slot].offset as usize;
    for k in 0..TEST_PAGE_SIZE {
        if k < off + 8 || k >= off + 16 {
            assert_eq!(page.data[k], before[k]);
        }
    }
    assert_eq!(&page.data[off + 8..off + 16], &42u64.to_le_bytes());
    assert!(!page.mark_deleted(5, 1));
}

#[test]
fn empty_record_reads_back_and_can_be_deleted() {
    let mut page = SlottedPage::<TEST_PAGE_SIZE>::new();
    let slot = page.insert_record(&[], 4).unwrap();
    assert_eq!(page.slots()[slot].length, 0);
    let (h, data) = page.get_record(slot).unwrap();
    assert_eq!(h.xmin, 4);
    assert_eq!(h.xmax, 0);
    assert!(data.is_empty());
    assert!(page.mark_deleted(slot, 9));
    assert_eq!(page.get_record(slot).unwrap().0.xmax, 9);
}
