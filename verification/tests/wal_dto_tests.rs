use wackdb::dtos::{
    btree_page_dto, decimal_string, frame_dump, frames_dto, page_dto, pages_in_file, tables_by_name, BTreeNodeDataDto,
    CatalogDataDto, PageIdDto, TableMetadataDto,
};
use wackdb::page::SlottedPage;
use wackdb::storage::PageId;
use wackdb::buffer::{BufferPoolManager, LogManager};
use wackdb::storage::MemoryDiskManager;
use wackdb::wal::{decode_change, encode_change, parse_log, push_frame, MemoryLogManager, WalBuffer};

const TEST_PAGE_SIZE: usize = 8192;

#[test]
fn wal_buffer_flushes_records_up_to_a_sequence_number() {
    let mut w = WalBuffer::new();
    assert_eq!(w.append_record(b"first"), 1);
    assert_eq!(w.append_record(b"second"), 2);
    assert_eq!(w.append_record(b"third"), 3);
    let (bytes, flushed) = w.take_up_to(2);
    assert_eq!(flushed, 2);
    assert_eq!(parse_log(&bytes), vec![b"first".to_vec(), b"second".to_vec()]);
    assert_eq!(w.log_size(bytes.len() as u64), bytes.len() as u64 + 5 + 12);
    w.flushed_lsn = flushed;
    let (none, same) = w.take_up_to(1);
    assert!(none.is_empty());
    assert_eq!(same, 2);
    let (rest, flushed) = w.take_up_to(u64::MAX);
    assert_eq!(flushed, 3);
    assert_eq!(parse_log(&rest), vec![b"third".to_vec()]);
}

#[test]
fn log_frames_round_trip_and_ignore_a_torn_tail() {
    let mut bytes = Vec::new();
    push_frame(&mut bytes, 7, b"abc");
    push_frame(&mut bytes, 8, b"");
    assert_eq!(bytes.len(), 12 + 3 + 12);
    let mut torn = bytes.clone();
    torn.extend_from_slice(&[1, 2, 3]);
    assert_eq!(parse_log(&torn), vec![b"abc".to_vec(), Vec::new()]);
}

#[test]
fn change_payloads_round_trip() {
    let p = encode_change(1, b"users", &[9, 8, 7]);
    assert_eq!(p[0], 1);
    assert_eq!(&p[1..3], &[5, 0]);
    assert_eq!(decode_change(&p), Some((1, b"users".to_vec(), vec![9, 8, 7])));
    assert_eq!(decode_change(&vec![0, 0, 0]), None);
    assert_eq!(decode_change(&vec![0, 0, 0, 1]), None);
    assert_eq!(decode_change(&vec![0, 9, 0, 1]), None);
}

#[test]
fn decimal_and_page_counts() {
    assert_eq!(decimal_string(0), "0");
    assert_eq!(decimal_string(9_876_543_210), "9876543210");
    assert_eq!(pages_in_file(3 * 8192 + 17, 8192), 3);
    assert_eq!(pages_in_file(100, 8192), 0);
}

#[test]
fn frames_and_dumps() {
    let meta = vec![(0usize, Some(PageId { file_id: 2, page_num: 5 }), 1usize, true), (1usize, None, 0usize, false)];
    let frames = frames_dto(&meta);
    assert_eq!(frames.len(), 2);
    assert_eq!(frames[0].page_id, Some(PageIdDto { file_id: 2, page_num: 5 }));
    assert_eq!(frames[0].pin_count, 1);
    assert!(frames[0].is_dirty);
    assert_eq!(frames[1].page_id, None);
    let dump = frame_dump(3, &vec![0x0f, 0xa0, 0xff]);
    assert_eq!(dump.frame_id, 3);
    assert_eq!(dump.hex_dump, "0fa0ff");
}

#[test]
fn page_view_lists_slots_and_live_records() {
    let mut page = SlottedPage::<TEST_PAGE_SIZE>::new();
    page.insert_record(&[0xab, 0xcd], 4).unwrap();
    page.insert_record(&[0x01], 4).unwrap();
    assert!(page.mark_deleted(1, 6));
    let dto = page_dto(&page);
    assert_eq!(dto.header.total_slots, 2);
    assert_eq!(dto.slots.len(), 2);
    assert_eq!(dto.records.len(), 2);
    assert_eq!(dto.records[0].data_hex, "abcd");
    assert_eq!(dto.records[1].xmax, 6);
}

#[test]
fn btree_view_of_an_empty_page_is_an_internal_node() {
    let data = vec![0u8; TEST_PAGE_SIZE];
    let dto = btree_page_dto(&data);
    assert_eq!(dto.header.node_type, "Internal");
    assert!(matches!(dto.node_data, BTreeNodeDataDto::Internal(ref d) if d.keys.is_empty() && d.children == vec![0]));
}

fn table(name: &str, heap: u32) -> (String, TableMetadataDto) {
    (name.to_string(), TableMetadataDto { name: name.to_string(), heap_relation_id: heap, index_relation_id: heap + 1, root_page_num: None })
}

#[test]
fn tables_are_listed_by_name() {
    let data = CatalogDataDto { next_relation_id: 9, tables: vec![table("pets", 4), table("apples", 2), table("Zoo", 6)] };
    let names: Vec<String> = tables_by_name(data).into_iter().map(|t| t.name).collect();
    assert_eq!(names, vec!["Zoo".to_string(), "apples".to_string(), "pets".to_string()]);
}

#[test]
fn memory_log_keeps_unflushed_records_out_of_the_durable_log() {
    let mut log = MemoryLogManager::new();
    let a = log.append_record(b"one").unwrap();
    let b = log.append_record(b"two").unwrap();
    assert_eq!((a, b), (1, 2));
    log.flush_up_to(1).unwrap();
    assert_eq!(parse_log(&log.durable_log()), vec![b"one".to_vec()]);
    log.flush_up_to(1).unwrap();
    assert_eq!(parse_log(&log.durable_log()), vec![b"one".to_vec()]);
    log.flush_up_to(5).unwrap();
    assert_eq!(parse_log(&log.durable_log()), vec![b"one".to_vec(), b"two".to_vec()]);
    assert_eq!(log.log_size(), 2 * 12 + 6);
    log.checkpoint().unwrap();
    assert!(log.durable_log().is_empty());
    assert_eq!(log.log_size(), 0);
}

#[test]
fn a_logged_change_waits_in_the_log_until_a_checkpoint_makes_it_durable_and_truncates() {
    let mut bpm: BufferPoolManager<TEST_PAGE_SIZE, MemoryDiskManager<TEST_PAGE_SIZE>, MemoryLogManager> =
        BufferPoolManager::new_with_log_manager(4, MemoryDiskManager::new(), Some(MemoryLogManager::new()));
    let tuple = wackdb::tuple::Tuple { data: vec![7, 8, 9] };
    let lsn = wackdb::commands::log_change(0, "kv", &tuple, &mut bpm);
    assert_eq!(lsn, Some(1));
    let payload = encode_change(0, b"kv", &[7, 8, 9]);
    assert_eq!(payload, vec![0, 2, 0, b'k', b'v', 7, 8, 9]);
    assert_eq!(bpm.log_size(), Some(payload.len() as u64 + 12));
    wackdb::commands::execute_checkpoint(&mut bpm);
    assert_eq!(bpm.log_size(), Some(0));
}
