//! Engine configuration and its validation.
use vstd::prelude::*;
use vstd::string::*;

verus! {

/// Default page size in bytes.
pub const DEFAULT_PAGE_SIZE: usize = 8192;

/// Smallest disk sector size a page size may be a multiple of.
pub const MIN_DISK_SECTOR_SIZE: usize = 512;

/// Standard memory page size a page size may be a multiple of.
pub const STANDARD_MEMORY_PAGE_SIZE: usize = 4096;

/// Engine configuration.
#[derive(Debug, Clone)]
pub struct Config {
    pub data_dir: String,
    pub page_size: usize,
}

/// A page size is valid when it is positive and a multiple of the sector size or of the
/// memory page size.
pub open spec fn valid_page_size(page_size: usize) -> bool {
    page_size != 0 && (page_size % 512 == 0 || page_size % 4096 == 0)
}

/// The message validation reports for an invalid page size.
pub open spec fn page_size_error(page_size: usize) -> Seq<char> {
    if page_size == 0 {
        "page_size must be greater than 0"@
    } else {
        "page_size must be a multiple of 512 or 4096"@
    }
}

impl Default for Config {
    fn default() -> (r: Self)
        ensures
            r.data_dir@ == "data"@,
            r.page_size == 8192,
    {
        Config { data_dir: String::from_str("data"), page_size: DEFAULT_PAGE_SIZE }
    }
}

impl Config {
    /// Checks the configuration.
    pub fn validate(&self) -> (r: Result<(), String>)
        ensures
            r is Ok <==> valid_page_size(self.page_size),
            r matches Err(m) ==> m@ == page_size_error(self.page_size),
    {
        self.validate_page_size()
    }

    fn validate_page_size(&self) -> (r: Result<(), String>)
        ensures
            r is Ok <==> valid_page_size(self.page_size),
            r matches Err(m) ==> m@ == page_size_error(self.page_size),
    {
        if self.page_size == 0 {
            return Err(String::from_str("page_size must be greater than 0"));
        }
        let is_valid_size = self.page_size % MIN_DISK_SECTOR_SIZE == 0 || self.page_size
            % STANDARD_MEMORY_PAGE_SIZE == 0;
        if !is_valid_size {
            return Err(String::from_str("page_size must be a multiple of 512 or 4096"));
        }
        Ok(())
    }
}

/// Errors of the storage engine.
#[derive(Debug)]
pub enum DatabaseError {
    Io(String),
    Serialization(String),
    PageCorrupted { page_id: u32 },
    Storage(String),
}

/// Query execution settings.
#[derive(Debug)]
pub struct QueryConfig {
    /// Number of tuples sorted together in one run.
    pub sort_chunk_size: usize,
}

impl Default for QueryConfig {
    fn default() -> (r: Self)
        ensures
            r.sort_chunk_size == 1000,
    {
        QueryConfig { sort_chunk_size: 1000 }
    }
}

/// Web server settings.
#[derive(Debug)]
pub struct WebConfig {
    /// Port of the visualizer.
    pub port: u16,
}

impl Default for WebConfig {
    fn default() -> (r: Self)
        ensures
            r.port == 3000,
    {
        WebConfig { port: 3000 }
    }
}

/// Checkpointer settings.
#[derive(Debug)]
pub struct CheckpointConfig {
    /// Seconds between forced checkpoints.
    pub interval_secs: u64,
    /// Log size in KB that forces a checkpoint.
    pub max_wal_size_kb: u64,
}

impl Default for CheckpointConfig {
    fn default() -> (r: Self)
        ensures
            r.interval_secs == 30,
            r.max_wal_size_kb == 1024,
    {
        CheckpointConfig { interval_secs: 30, max_wal_size_kb: 1024 }
    }
}

/// Settings of a node.
#[derive(Debug)]
pub struct WackDbConfig {
    /// Checkpointer settings.
    pub checkpoint: CheckpointConfig,
    /// Buffer pool size in pages, when set.
    pub buffer_pool_size: Option<usize>,
    /// Web server settings.
    pub web: WebConfig,
    /// Query execution settings.
    pub query: QueryConfig,
}

impl Default for WackDbConfig {
    fn default() -> (r: Self)
        ensures
            r.checkpoint.interval_secs == 30,
            r.checkpoint.max_wal_size_kb == 1024,
            r.buffer_pool_size is None,
            r.web.port == 3000,
            r.query.sort_chunk_size == 1000,
    {
        WackDbConfig {
            checkpoint: CheckpointConfig::default(),
            buffer_pool_size: None,
            web: WebConfig::default(),
            query: QueryConfig::default(),
        }
    }
}

/// A checkpoint is due when the interval has passed since the last one, or when the log has
/// reached its size limit (`max_wal_size_kb` KB).
pub open spec fn checkpoint_due(elapsed_millis: u128, interval_secs: u64, log_size: Option<u64>, max_wal_size_kb: u64) -> bool {
    elapsed_millis >= interval_secs * 1000 || (log_size matches Some(n) && n >= max_wal_size_kb * 1024)
}

/// Whether the checkpointer should checkpoint now.
pub fn should_checkpoint(elapsed_millis: u128, config: &CheckpointConfig, log_size: Option<u64>) -> (r: bool)
    ensures
        r == checkpoint_due(elapsed_millis, config.interval_secs, log_size, config.max_wal_size_kb),
{
    if elapsed_millis >= (config.interval_secs as u128) * 1000 {
        return true;
    }
    match log_size {
        Some(n) => (n as u128) >= (config.max_wal_size_kb as u128) * 1024,
        None => false,
    }
}

} // verus!
