use wackdb::buffer::{BufferError, BufferPoolManager, LogManager};
use wackdb::catalog::Catalog;
use wackdb::console::{process_command, process_search_delete, process_select, run_demo, AppState, ConsoleOutcome};
use wackdb::storage::MemoryDiskManager;

const TEST_PAGE_SIZE: usize = 8192;

struct NoLog;

impl LogManager for NoLog {
    fn flush_up_to(&mut self, _lsn: u64) -> Result<(), BufferError> {
        Ok(())
    }
    fn append_record(&mut self, _payload: &[u8]) -> Result<u64, BufferError> {
        Ok(0)
    }
    fn checkpoint(&mut self) -> Result<(), BufferError> {
        Ok(())
    }
    fn log_size(&self) -> u64 {
        0
    }
}

type Pool = BufferPoolManager<TEST_PAGE_SIZE, MemoryDiskManager<TEST_PAGE_SIZE>, NoLog>;

fn setup_test_env() -> (tempfile::TempDir, AppState, Catalog, Pool) {
    let dir = tempfile::tempdir().unwrap();
    let data_dir = dir.path().join("test_data").to_str().unwrap().to_string();
    let bpm: Pool = BufferPoolManager::new(50, MemoryDiskManager::new());
    let catalog = Catalog::new();
    let state = AppState::new(&data_dir);
    (dir, state, catalog, bpm)
}

#[test]
fn test_process_command_invalid() {
    let (_dir, mut state, mut catalog, mut bpm) = setup_test_env();

    process_command("invalid_cmd", &mut state, &mut catalog, &mut bpm).unwrap();
    assert!(state.logs.iter().any(|l| l.contains("Unknown command")));
}

#[test]
fn console_echoes_and_reports_unknown_words() {
    let (_dir, mut state, mut catalog, mut bpm) = setup_test_env();
    let out = process_command("  frobnicate now ", &mut state, &mut catalog, &mut bpm).unwrap();
    assert_eq!(out, ConsoleOutcome::Done);
    assert_eq!(
        state.logs,
        vec![
            ">   frobnicate now ".to_string(),
            "Error: Unknown command 'frobnicate'".to_string(),
            "Type \\help for a list of commands.".to_string(),
        ]
    );
    assert_eq!(state.vertical_scroll, usize::MAX);
}

#[test]
fn console_blank_line_is_only_echoed() {
    let (_dir, mut state, mut catalog, mut bpm) = setup_test_env();
    assert_eq!(process_command("   ", &mut state, &mut catalog, &mut bpm).unwrap(), ConsoleOutcome::Done);
    assert_eq!(state.logs, vec![">    ".to_string()]);
}

#[test]
fn console_log_splits_lines() {
    let mut state = AppState::new("data");
    state.log("one\r\ntwo\n\nthree\n");
    state.log("");
    state.log("last\r");
    assert_eq!(state.logs, vec!["one", "two", "", "three", "last\r"]);
}

#[test]
fn console_help_and_table_listing() {
    let (_dir, mut state, mut catalog, mut bpm) = setup_test_env();
    process_command("\\help", &mut state, &mut catalog, &mut bpm).unwrap();
    assert_eq!(state.logs.len(), 10);
    assert_eq!(state.logs[1], "Available Commands:");
    assert_eq!(state.logs[9], "  \\quit                - Exits the application.");

    state.logs.clear();
    process_command("\\list-tables", &mut state, &mut catalog, &mut bpm).unwrap();
    assert_eq!(state.logs[1], "No tables exist in the catalog.");

    catalog.create_table("a").unwrap();
    catalog.create_table("b").unwrap();
    state.logs.clear();
    process_command("\\list-tables", &mut state, &mut catalog, &mut bpm).unwrap();
    assert_eq!(
        state.logs[1..].to_vec(),
        vec!["Tables in Catalog:", "  - a (Heap: 0, Index: 1)", "  - b (Heap: 2, Index: 3)"]
    );
}

#[test]
fn console_flush_and_stats_are_handed_back() {
    let (_dir, mut state, mut catalog, mut bpm) = setup_test_env();
    assert_eq!(process_command("\\flush", &mut state, &mut catalog, &mut bpm).unwrap(), ConsoleOutcome::FlushCatalog);
    assert_eq!(process_command("\\stats", &mut state, &mut catalog, &mut bpm).unwrap(), ConsoleOutcome::ShowStats);
    assert_eq!(state.logs, vec!["> \\flush", "> \\stats"]);
}

#[test]
fn console_usage_and_key_errors() {
    let (_dir, mut state, mut catalog, mut bpm) = setup_test_env();
    process_command("\\select", &mut state, &mut catalog, &mut bpm).unwrap();
    process_command("\\search", &mut state, &mut catalog, &mut bpm).unwrap();
    process_command("\\delete", &mut state, &mut catalog, &mut bpm).unwrap();
    process_command("\\search x1", &mut state, &mut catalog, &mut bpm).unwrap();
    process_command("\\search 7", &mut state, &mut catalog, &mut bpm).unwrap();
    assert_eq!(
        state.logs,
        vec![
            "> \\select",
            "Usage: \\select <table_name>",
            "> \\search",
            "Usage: \\search <key>",
            "> \\delete",
            "Usage: \\delete <key>",
            "> \\search x1",
            "Error: Key must be an integer.",
            "> \\search 7",
            "No active table. Use \\demo or \\select to activate one.",
        ]
    );
}

#[test]
fn console_demo_select_search_delete() {
    let (_dir, mut state, mut catalog, mut bpm) = setup_test_env();
    process_command("\\demo 30", &mut state, &mut catalog, &mut bpm).unwrap();
    assert_eq!(state.logs[0], "> \\demo 30");
    assert_eq!(state.logs[1], "Starting automated WackDB demonstration (30 records)...");
    assert_eq!(state.logs[2], "Table 'demo_users' active (Heap: 0, Index: 1).");
    assert_eq!(state.logs[3], "Generating 30 representative records...");
    assert_eq!(state.logs[4], "--- Demo Summary ---");
    assert_eq!(state.logs[5], "Records inserted: 30");
    assert_eq!(state.logs[6], "Data pages allocated: 1");
    assert_eq!(state.logs[7], "B+Tree Root Splits: 0");
    assert_eq!(state.logs[8], "Current Root Page: Some(PageId { file_id: 1, page_num: 0 })");
    assert_eq!(state.logs[9], "Buffer pool active. Type \\flush to persist.");
    assert_eq!(state.active_table.as_deref(), Some("demo_users"));
    assert_eq!(catalog.get_table("demo_users").unwrap().root_page_num, Some(0));

    state.logs.clear();
    process_select(&mut state, &mut catalog, &mut bpm, "demo_users").unwrap();
    assert_eq!(state.logs[0], "--- Data for table 'demo_users' ---");
    assert_eq!(state.logs[1], "Row 0: 0 | true | user_0 | NULL");
    assert_eq!(state.logs[2], "Row 1: 1 | false | user_1 | active");
    assert_eq!(state.logs[25], "Row 24: 24 | false | user_24 | NULL");
    assert_eq!(state.logs[26], "... (output truncated at 50 rows) ...");
    assert_eq!(state.logs[27], "--- End of Scan (25 rows) ---");
    assert_eq!(state.logs.len(), 28);

    state.logs.clear();
    process_search_delete(&mut state, &mut catalog, &mut bpm, 7, false).unwrap();
    assert_eq!(
        state.logs,
        vec!["Key 7 found at CTID: CTID { page_id: PageId { file_id: 0, page_num: 0 }, slot_idx: 7 }"]
    );
    state.logs.clear();
    process_search_delete(&mut state, &mut catalog, &mut bpm, 0, true).unwrap();
    process_search_delete(&mut state, &mut catalog, &mut bpm, 0, false).unwrap();
    process_search_delete(&mut state, &mut catalog, &mut bpm, 0, true).unwrap();
    assert_eq!(
        state.logs,
        vec![
            "Successfully deleted key 0 from index.",
            "Key 0 not found.",
            "Failed to delete key 0: KeyNotFound",
        ]
    );

    state.logs.clear();
    process_select(&mut state, &mut catalog, &mut bpm, "demo_users").unwrap();
    assert_eq!(state.logs[1], "Row 0: 1 | false | user_1 | active");
}

#[test]
fn console_select_reports_missing_and_other_tables() {
    let (_dir, mut state, mut catalog, mut bpm) = setup_test_env();
    process_select(&mut state, &mut catalog, &mut bpm, "ghost").unwrap();
    catalog.create_table("other").unwrap();
    process_select(&mut state, &mut catalog, &mut bpm, "other").unwrap();
    assert_eq!(
        state.logs,
        vec![
            "Table 'ghost' not found.",
            "Note: Only 'demo_users' schema is currently fully supported for binary deserialization.",
        ]
    );
    assert_eq!(state.active_table, None);
}

#[test]
fn console_demo_default_count_and_empty_select() {
    let (_dir, mut state, mut catalog, mut bpm) = setup_test_env();
    run_demo(0, &mut state, &mut catalog, &mut bpm).unwrap();
    assert_eq!(state.logs[0], "Starting automated WackDB demonstration (0 records)...");
    assert_eq!(state.logs[7], "Current Root Page: None");
    state.logs.clear();
    process_select(&mut state, &mut catalog, &mut bpm, "demo_users").unwrap();
    assert_eq!(state.logs, vec!["--- Data for table 'demo_users' ---", "0 rows returned."]);
    state.logs.clear();
    process_command("\\demo many", &mut state, &mut catalog, &mut bpm).unwrap();
    assert_eq!(state.logs[1], "Starting automated WackDB demonstration (500 records)...");
}
