use std::sync::atomic::{AtomicBool, AtomicU64, Ordering};
use std::sync::Arc;
use wackdb::buffer::{BufferError, BufferPoolManager, LogManager};
use wackdb::page::SlottedPage;
use wackdb::storage::{DiskManager, MemoryDiskManager, PageId, StorageError};

const TEST_PAGE_SIZE: usize = 8192;

struct NoLog;

impl LogManager for NoLog {
    fn flush_up_to(&mut self, _lsn: u64) -> Result<(), BufferError> {
        Ok(())
    }
    fn append_record(&mut self, _payload: &[u8]) -> Result<u64, BufferError> {
        Ok(0)
    }
    fn checkpoint(&mut self) -> Result<(), BufferError> {
        Ok(())
    }
    fn log_size(&self) -> u64 {
        0
    }
}

type Pool = BufferPoolManager<TEST_PAGE_SIZE, MemoryDiskManager<TEST_PAGE_SIZE>, NoLog>;

#[test]
fn test_buffer_pool_evicts_lru() {
    let mut pool: Pool = BufferPoolManager::new(3, MemoryDiskManager::new());

    let page0 = pool.new_page(1).unwrap().1;
    let page1 = pool.new_page(1).unwrap().1;
    let page2 = pool.new_page(1).unwrap().1;

    pool.unpin_page(page0, false).unwrap();
    pool.unpin_page(page1, false).unwrap();
    pool.unpin_page(page2, false).unwrap();

    let page3 = pool.new_page(1).unwrap().1;

    pool.unpin_page(page3, false).unwrap();

    let page0_new = pool.fetch_page(page0).unwrap();
    pool.unpin_page(page0, false).unwrap();

    assert_eq!(page0_new, 1);
}

#[test]
fn test_buffer_pool_respects_pins() {
    let mut pool: Pool = BufferPoolManager::new(2, MemoryDiskManager::new());

    let _page0 = pool.new_page(1).unwrap().1;
    let _page1 = pool.new_page(1).unwrap().1;

    let res = pool.new_page(1);
    assert!(matches!(res, Err(BufferError::NoFreeFrames)));
}

struct Shared {
    highest_flushed_lsn: AtomicU64,
    flush_called: AtomicBool,
    write_called_after_flush: AtomicBool,
}

struct MockLogManager {
    shared: Arc<Shared>,
}

impl LogManager for MockLogManager {
    fn flush_up_to(&mut self, lsn: u64) -> Result<(), BufferError> {
        self.shared.highest_flushed_lsn.fetch_max(lsn, Ordering::SeqCst);
        self.shared.flush_called.store(true, Ordering::SeqCst);
        Ok(())
    }
    fn append_record(&mut self, _payload: &[u8]) -> Result<u64, BufferError> {
        Ok(1)
    }
    fn checkpoint(&mut self) -> Result<(), BufferError> {
        Ok(())
    }
    fn log_size(&self) -> u64 {
        0
    }
}

struct MockDiskManager {
    shared: Arc<Shared>,
}

impl DiskManager<TEST_PAGE_SIZE> for MockDiskManager {
    fn read_page(&mut self, _page_id: PageId, _data: &mut Vec<u8>) -> Result<(), StorageError> {
        Ok(())
    }
    fn write_page(&mut self, _page_id: PageId, _data: &Vec<u8>) -> Result<(), StorageError> {
        let flushed = self.shared.flush_called.load(Ordering::SeqCst);
        self.shared.write_called_after_flush.store(flushed, Ordering::SeqCst);
        Ok(())
    }
    fn allocate_page(&mut self, _file_id: u32) -> Result<PageId, StorageError> {
        Ok(PageId { file_id: 1, page_num: 1 })
    }
    fn deallocate_page(&mut self, _page_id: PageId) {}
    fn get_total_pages(&self, _file_id: u32) -> Result<u32, StorageError> {
        Ok(0)
    }
}

#[test]
fn test_buffer_pool_wal_before_data_enforcement() {
    let shared = Arc::new(Shared {
        highest_flushed_lsn: AtomicU64::new(0),
        flush_called: AtomicBool::new(false),
        write_called_after_flush: AtomicBool::new(false),
    });
    let log_manager = MockLogManager { shared: shared.clone() };
    let disk_manager = MockDiskManager { shared: shared.clone() };

    let mut pool: BufferPoolManager<TEST_PAGE_SIZE, MockDiskManager, MockLogManager> =
        BufferPoolManager::new_with_log_manager(2, disk_manager, Some(log_manager));
    let frame_id = pool.new_page(1).unwrap().0;

    {
        let mut page = SlottedPage::<TEST_PAGE_SIZE> { data: pool.read_page(frame_id).data.clone() };
        page.set_lsn(100);
        pool.write_page(frame_id, page);
    }

    pool.unpin_page(PageId { file_id: 1, page_num: 1 }, true).unwrap();
    pool.flush_page(PageId { file_id: 1, page_num: 1 }).unwrap();

    assert_eq!(
        shared.highest_flushed_lsn.load(Ordering::SeqCst),
        100,
        "log manager must be flushed up to page LSN"
    );
    assert!(
        shared.write_called_after_flush.load(Ordering::SeqCst),
        "disk write occurred before WAL flush"
    );
}

#[test]
fn test_buffer_pool_metrics_atomic_tracking() {
    let mut pool: Pool = BufferPoolManager::new(2, MemoryDiskManager::new());

    let page0 = pool.new_page(1).unwrap().1;
    pool.unpin_page(page0, false).unwrap();

    pool.fetch_page(page0).unwrap();
    pool.unpin_page(page0, false).unwrap();

    let hits = pool.get_hits();
    let misses = pool.get_misses();

    assert_eq!(hits, 1, "expected exactly 1 cache hit");
    assert!(misses >= 1, "expected at least 1 cache miss");
    let rate = hits as f64 / (hits + misses) as f64;
    assert!(rate > 0.0 && rate < 1.0, "hit rate must be tracked");
}

#[test]
fn unpin_of_absent_page_is_page_not_found() {
    let mut pool: Pool = BufferPoolManager::new(2, MemoryDiskManager::new());
    assert!(matches!(
        pool.unpin_page(PageId { file_id: 9, page_num: 9 }, false),
        Err(BufferError::PageNotFound)
    ));
    assert!(matches!(
        pool.flush_page(PageId { file_id: 9, page_num: 9 }),
        Err(BufferError::PageNotFound)
    ));
}

#[test]
fn evicted_dirty_page_reads_back() {
    let mut pool: Pool = BufferPoolManager::new(1, MemoryDiskManager::new());
    let (frame, page0) = pool.new_page(7).unwrap();
    let mut page = SlottedPage::<TEST_PAGE_SIZE> { data: pool.read_page(frame).data.clone() };
    page.data[100] = 42;
    pool.write_page(frame, page);
    pool.unpin_page(page0, true).unwrap();

    let page1 = pool.new_page(7).unwrap().1;
    pool.unpin_page(page1, false).unwrap();

    let f = pool.fetch_page(page0).unwrap();
    assert_eq!(pool.read_page(f).data[100], 42);
    let meta = pool.get_frames_metadata();
    assert_eq!(meta.len(), 1);
    assert_eq!(meta[0], (0, Some(page0), 1, false));
}

#[test]
fn drop_relation_forgets_the_file() {
    let mut pool: Pool = BufferPoolManager::new(3, MemoryDiskManager::new());
    let a = pool.new_page(1).unwrap().1;
    let b = pool.new_page(2).unwrap().1;
    pool.drop_relation(1);
    assert!(matches!(pool.unpin_page(a, false), Err(BufferError::PageNotFound)));
    assert!(pool.unpin_page(b, false).is_ok());
}

#[test]
fn memory_disk_reads_back_what_was_written() {
    let mut disk = MemoryDiskManager::<16>::new();
    let p = disk.allocate_page(4).unwrap();
    assert_eq!(p, PageId { file_id: 4, page_num: 0 });
    assert_eq!(disk.get_total_pages(4).unwrap(), 1);
    let data: Vec<u8> = (0u8..16).collect();
    disk.write_page(p, &data).unwrap();
    let mut out = vec![0u8; 16];
    disk.read_page(p, &mut out).unwrap();
    assert_eq!(out, data);
    let mut other = vec![1u8; 16];
    disk.read_page(PageId { file_id: 4, page_num: 5 }, &mut other).unwrap();
    assert_eq!(other, vec![0u8; 16]);
}

#[test]
fn write_unpinned_clean_is_lost_on_eviction() {
    let mut pool: Pool = BufferPoolManager::new(1, MemoryDiskManager::new());
    let (frame, page0) = pool.new_page(3).unwrap();
    let mut page = SlottedPage::<TEST_PAGE_SIZE> { data: pool.read_page(frame).data.clone() };
    page.data[10] = 9;
    pool.write_page(frame, page);
    pool.unpin_page(page0, false).unwrap();

    let page1 = pool.new_page(3).unwrap().1;
    pool.unpin_page(page1, false).unwrap();

    let f = pool.fetch_page(page0).unwrap();
    assert_eq!(pool.read_page(f).data[10], 0);
}

#[test]
fn dropped_file_reads_what_the_disk_holds() {
    let mut pool: Pool = BufferPoolManager::new(2, MemoryDiskManager::new());
    let (frame, p) = pool.new_page(5).unwrap();
    let mut page = SlottedPage::<TEST_PAGE_SIZE> { data: pool.read_page(frame).data.clone() };
    page.data[0] = 1;
    pool.write_page(frame, page);
    pool.unpin_page(p, true).unwrap();
    pool.drop_relation(5);
    let f = pool.fetch_page(p).unwrap();
    assert_eq!(pool.read_page(f).data[0], 0);
}
