use wackdb::btree::{BTreeIndex, Index};
use wackdb::buffer::{BufferError, BufferPoolManager, LogManager};
use wackdb::storage::{MemoryDiskManager, PageId, CTID};

const TEST_PAGE_SIZE: usize = 8192;

struct NoLog;

impl LogManager for NoLog {
    fn flush_up_to(&mut self, _lsn: u64) -> Result<(), BufferError> {
        Ok(())
    }
    fn append_record(&mut self, _payload: &[u8]) -> Result<u64, BufferError> {
        Ok(0)
    }
    fn checkpoint(&mut self) -> Result<(), BufferError> {
        Ok(())
    }
    fn log_size(&self) -> u64 {
        0
    }
}

type Pool = BufferPoolManager<TEST_PAGE_SIZE, MemoryDiskManager<TEST_PAGE_SIZE>, NoLog>;

fn pool(size: usize) -> Pool {
    BufferPoolManager::new(size, MemoryDiskManager::new())
}

fn ctid(file_id: u32, page_num: u32, slot_idx: u16) -> CTID {
    CTID { page_id: PageId { file_id, page_num }, slot_idx }
}

#[test]
fn test_btree_insert_and_search() {
    let mut buffer = pool(10);
    let mut btree = BTreeIndex::new(None, 1);

    let ctid1 = ctid(1, 1, 1);
    let ctid2 = ctid(2, 2, 2);

    Index::insert(&mut btree, &mut buffer, 10, ctid1).unwrap();
    Index::insert(&mut btree, &mut buffer, 20, ctid2).unwrap();

    assert_eq!(Index::search(&btree, &mut buffer, 10).unwrap(), ctid1);
    assert_eq!(Index::search(&btree, &mut buffer, 20).unwrap(), ctid2);
}

#[test]
fn test_btree_split() {
    let mut buffer = pool(50);
    let mut btree = BTreeIndex::new(None, 1);

    for i in 0u16..800 {
        let c = ctid(i as u32, i as u32, i);
        Index::insert(&mut btree, &mut buffer, i as i32, c).unwrap();
    }

    let val_0 = Index::search(&btree, &mut buffer, 0).unwrap();
    assert_eq!(val_0.page_id.file_id, 0);

    let val_799 = Index::search(&btree, &mut buffer, 799).unwrap();
    assert_eq!(val_799.page_id.file_id, 799);
}

#[test]
fn test_btree_internal_split() {
    let mut buffer = pool(2000);
    let mut btree = BTreeIndex::new(None, 1);

    let total_elements = 60_000;
    for i in 0..total_elements {
        let c = ctid(i as u32, i as u32, (i % 100) as u16);
        Index::insert(&mut btree, &mut buffer, i, c).unwrap();
    }

    let val_0 = Index::search(&btree, &mut buffer, 0).unwrap();
    assert_eq!(val_0.page_id.file_id, 0);

    let val_half = Index::search(&btree, &mut buffer, 30_000).unwrap();
    assert_eq!(val_half.page_id.file_id, 30_000);

    let val_last = Index::search(&btree, &mut buffer, 59_999).unwrap();
    assert_eq!(val_last.page_id.file_id, 59_999);
}

#[test]
fn test_btree_delete() {
    let mut buffer = pool(10);
    let mut btree = BTreeIndex::new(None, 1);

    let ctid1 = ctid(1, 1, 1);
    let ctid2 = ctid(2, 2, 2);

    Index::insert(&mut btree, &mut buffer, 10, ctid1).unwrap();
    Index::insert(&mut btree, &mut buffer, 20, ctid2).unwrap();

    assert_eq!(Index::search(&btree, &mut buffer, 10).unwrap(), ctid1);
    Index::delete(&mut btree, &mut buffer, 10).unwrap();
    assert!(Index::search(&btree, &mut buffer, 10).is_err());
    assert_eq!(Index::search(&btree, &mut buffer, 20).unwrap(), ctid2);
}

#[test]
fn test_btree_persistence() {
    let ctid1 = ctid(1, 1, 1);

    let root_id;
    let disk;

    {
        let mut buffer = pool(10);
        let mut btree = BTreeIndex::new(None, 1);

        Index::insert(&mut btree, &mut buffer, 10, ctid1).unwrap();
        root_id = btree.get_root_page_id();
        buffer.flush_all_pages().unwrap();
        disk = buffer.into_disk_manager();
    }

    {
        let mut buffer: Pool = BufferPoolManager::new(10, disk);
        let btree = BTreeIndex::new(root_id, 1);

        let result = Index::search(&btree, &mut buffer, 10).unwrap();
        assert_eq!(result, ctid1);
    }
}

#[test]
fn btree_range_search_returns_keys_in_order() {
    let mut buffer = pool(20);
    let mut btree = BTreeIndex::new(None, 3);
    for i in (0..100).rev() {
        Index::insert(&mut btree, &mut buffer, i, ctid(3, i as u32, 0)).unwrap();
    }
    let found = Index::range_search(&btree, &mut buffer, 10, 14).unwrap();
    let pages: Vec<u32> = found.iter().map(|c| c.page_id.page_num).collect();
    assert_eq!(pages, vec![10, 11, 12, 13, 14]);
}

#[test]
fn btree_duplicate_key_is_refused() {
    let mut buffer = pool(10);
    let mut btree = BTreeIndex::new(None, 1);
    btree.insert(&mut buffer, 5, ctid(1, 0, 0)).unwrap();
    assert!(matches!(
        btree.insert(&mut buffer, 5, ctid(1, 0, 1)),
        Err(wackdb::btree::BTreeError::DuplicateKey)
    ));
}

#[test]
fn btree_search_in_empty_tree_is_key_not_found() {
    let mut buffer = pool(4);
    let btree = BTreeIndex::new(None, 1);
    assert!(matches!(btree.search(&mut buffer, 1), Err(wackdb::btree::BTreeError::KeyNotFound)));
}

#[test]
fn btree_delete_missing_key_is_key_not_found() {
    let mut buffer = pool(10);
    let mut btree = BTreeIndex::new(None, 1);
    btree.insert(&mut buffer, 1, ctid(1, 0, 0)).unwrap();
    assert!(matches!(
        btree.delete(&mut buffer, 2),
        Err(wackdb::btree_node::BTreeError::KeyNotFound)
    ));
}

#[test]
fn btree_many_deletes_keep_remaining_keys() {
    let mut buffer = pool(50);
    let mut btree = BTreeIndex::new(None, 1);
    for i in 0..2000 {
        btree.insert(&mut buffer, i, ctid(1, i as u32, 0)).unwrap();
    }
    for i in (0..2000).step_by(2) {
        btree.delete(&mut buffer, i).unwrap();
    }
    for i in 0..2000 {
        let r = btree.search(&mut buffer, i);
        if i % 2 == 0 {
            assert!(r.is_err());
        } else {
            assert_eq!(r.unwrap().page_id.page_num, i as u32);
        }
    }
}
