use wackdb::buffer::{BufferError, BufferPoolManager, LogManager};
use wackdb::catalog::Catalog;
use wackdb::cli::{
    build_demo_tuple, build_projection_schema, column_type, columns_match, index_lookup_key, parse_values, plan_query,
    row_matches, CommandError, ValueParseError,
};
use wackdb::commands::{
    classify_meta, demo_count, execute_ddl, execute_delete, execute_dml, execute_insert, generate_demo_data, inspect_target,
    rebuild_index_if_corrupt, recover_from_log, replay_record, DdlOutcome, DmlOutcome, InsertOutcome, MetaCommand,
    TableCursor,
};
use wackdb::config::{should_checkpoint, CheckpointConfig, QueryConfig, WackDbConfig, WebConfig};
use wackdb::query::Executor;
use wackdb::schema::{Column, Schema};
use wackdb::sql::{parse_sql, Operator, WhereCondition};
use wackdb::storage::MemoryDiskManager;
use wackdb::tuple::Tuple;
use wackdb::value::{DataType, Value};
use wackdb::wal::{decode_change, parse_log, WalBuffer};

const TEST_PAGE_SIZE: usize = 8192;

/// A log kept in memory: records are buffered and, once flushed, kept as framed bytes.
struct MemLog {
    buffer: WalBuffer,
    durable: Vec<u8>,
}

impl MemLog {
    fn new() -> Self {
        MemLog { buffer: WalBuffer::new(), durable: Vec::new() }
    }
}

impl LogManager for MemLog {
    fn flush_up_to(&mut self, lsn: u64) -> Result<(), BufferError> {
        let (bytes, flushed) = self.buffer.take_up_to(lsn);
        if !bytes.is_empty() {
            self.durable.extend_from_slice(&bytes);
            self.buffer.flushed_lsn = flushed;
        }
        Ok(())
    }
    fn append_record(&mut self, payload: &[u8]) -> Result<u64, BufferError> {
        Ok(self.buffer.append_record(payload))
    }
    fn checkpoint(&mut self) -> Result<(), BufferError> {
        self.durable.clear();
        Ok(())
    }
    fn log_size(&self) -> u64 {
        self.buffer.log_size(self.durable.len() as u64)
    }
}

type Pool = BufferPoolManager<TEST_PAGE_SIZE, MemoryDiskManager<TEST_PAGE_SIZE>, MemLog>;

fn pool() -> Pool {
    BufferPoolManager::new_with_log_manager(64, MemoryDiskManager::new(), Some(MemLog::new()))
}

fn strings(v: &[&str]) -> Vec<String> {
    v.iter().map(|s| s.to_string()).collect()
}

fn users_schema() -> Schema {
    Schema::new(vec![
        Column::new("id", DataType::Integer, false),
        Column::new("name", DataType::Varchar, false),
        Column::new("admin", DataType::Boolean, false),
    ])
}

fn setup() -> (Catalog, Pool) {
    let mut catalog = Catalog::new();
    let mut bpm = pool();
    let ast = parse_sql("CREATE TABLE users (id INT, name TEXT, admin BOOL);").unwrap();
    assert_eq!(execute_ddl(ast, &mut catalog).unwrap(), DdlOutcome::Created);
    for (id, name, admin) in [("1", "ann", "true"), ("2", "bob", "false"), ("3", "cy", "false")] {
        let out = execute_insert("users", &strings(&[id, name, admin]), &mut catalog, &mut bpm, false).unwrap();
        assert_eq!(out, InsertOutcome::Inserted);
    }
    (catalog, bpm)
}

fn select(sql: &str, catalog: &Catalog, bpm: &mut Pool) -> (Vec<Vec<Value>>, String) {
    let (mut pipeline, schema, plan) = plan_query(parse_sql(sql).unwrap(), catalog, bpm, 1000).unwrap();
    let mut rows = Vec::new();
    while let Some(t) = pipeline.next(bpm).unwrap() {
        rows.push(t.to_values(&schema).unwrap());
    }
    (rows, plan)
}

#[test]
fn parse_values_follows_column_types() {
    let schema = users_schema();
    let vals = parse_values(&strings(&["7", "zed", "true"]), &schema).unwrap();
    assert_eq!(vals, vec![Value::Integer(7), Value::Varchar("zed".into()), Value::Boolean(true)]);
    let short = parse_values(&strings(&["8"]), &schema).unwrap();
    assert_eq!(short, vec![Value::Integer(8)]);
    assert!(matches!(parse_values(&strings(&["x", "a", "true"]), &schema), Err(ValueParseError::InvalidInteger(t)) if t == "x"));
    assert!(matches!(parse_values(&strings(&["1", "a", "yes"]), &schema), Err(ValueParseError::InvalidBoolean(t)) if t == "yes"));
}

#[test]
fn demo_tuples_hold_the_demo_row() {
    let schema = Schema::new(vec![
        Column::new("id", DataType::Integer, false),
        Column::new("is_admin", DataType::Boolean, false),
        Column::new("username", DataType::Varchar, false),
        Column::new("status", DataType::Varchar, true),
    ]);
    let t = build_demo_tuple(10, &schema).unwrap();
    assert_eq!(
        t.to_values(&schema).unwrap(),
        vec![Value::Integer(10), Value::Boolean(true), Value::Varchar("user_10".into()), Value::Varchar("active".into())]
    );
    let n = build_demo_tuple(-3, &schema).unwrap();
    assert_eq!(n.to_values(&schema).unwrap()[1], Value::Boolean(false));
    assert_eq!(n.to_values(&schema).unwrap()[2], Value::Varchar("user_-3".into()));
}

#[test]
fn column_type_names_ignore_case_and_default_to_text() {
    assert_eq!(column_type("int"), DataType::Integer);
    assert_eq!(column_type("Integer"), DataType::Integer);
    assert_eq!(column_type("bool"), DataType::Boolean);
    assert_eq!(column_type("BOOLEAN"), DataType::Boolean);
    assert_eq!(column_type("varchar"), DataType::Varchar);
    assert_eq!(column_type("blob"), DataType::Varchar);
}

#[test]
fn projection_schema_keeps_requested_columns_in_order() {
    let schema = users_schema();
    assert_eq!(build_projection_schema(&strings(&["*"]), &schema), schema);
    let p = build_projection_schema(&strings(&["admin", "nope", "id"]), &schema);
    let names: Vec<String> = p.columns.iter().map(|c| c.name.clone()).collect();
    assert_eq!(names, strings(&["admin", "id"]));
}

#[test]
fn meta_commands_are_classified() {
    assert_eq!(classify_meta(".help"), MetaCommand::Help);
    assert_eq!(classify_meta(".tables"), MetaCommand::Tables);
    assert_eq!(classify_meta(".inspect users"), MetaCommand::Inspect);
    assert_eq!(classify_meta(".inspect"), MetaCommand::Unknown);
    assert_eq!(classify_meta(".source file.sql"), MetaCommand::Source);
    assert_eq!(classify_meta(".reset"), MetaCommand::Reset);
    assert_eq!(classify_meta(".checkpoint"), MetaCommand::Checkpoint);
    assert_eq!(classify_meta(".demo 10"), MetaCommand::Demo);
    assert_eq!(classify_meta(".helpme"), MetaCommand::Unknown);
    assert_eq!(inspect_target(".inspect   users"), Some("users".to_string()));
    assert_eq!(inspect_target(".inspect"), None);
}

#[test]
fn demo_count_defaults_and_clamps() {
    assert_eq!(demo_count(".demo 7"), 7);
    assert_eq!(demo_count(".demo"), 50);
    assert_eq!(demo_count(".demo abc"), 50);
    assert_eq!(demo_count(".demo -4"), 1);
    assert_eq!(demo_count(".demo  12  "), 12);
}

#[test]
fn index_lookup_needs_a_single_id_equality() {
    let c = |l: &str, op: Operator, r: &str| WhereCondition { left_col: l.into(), operator: op, right_val: r.into(), next_logic: None };
    assert_eq!(index_lookup_key(&[c("id", Operator::Eq, "5")]), Some(5));
    assert_eq!(index_lookup_key(&[c("id", Operator::Gt, "5")]), None);
    assert_eq!(index_lookup_key(&[c("name", Operator::Eq, "5")]), None);
    assert_eq!(index_lookup_key(&[c("id", Operator::Eq, "x")]), None);
    assert_eq!(index_lookup_key(&[c("id", Operator::Eq, "1"), c("id", Operator::Eq, "2")]), None);
}

#[test]
fn row_and_join_predicates() {
    let schema = users_schema();
    let t = Tuple::from_values(&schema, &[Value::Integer(4), Value::Varchar("dee".into()), Value::Boolean(false)]).unwrap();
    let cond = WhereCondition { left_col: "name".into(), operator: Operator::Eq, right_val: "dee".into(), next_logic: None };
    assert!(row_matches(&[cond.clone()], &t, &schema));
    let other = WhereCondition { right_val: "x".into(), ..cond };
    assert!(!row_matches(&[other], &t, &schema));
    assert!(columns_match(&"id".to_string(), &"id".to_string(), &t, &schema, &t, &schema));
    assert!(!columns_match(&"id".to_string(), &"missing".to_string(), &t, &schema, &t, &schema));
}

#[test]
fn ddl_reports_existing_and_missing_tables() {
    let mut catalog = Catalog::new();
    let create = || parse_sql("CREATE TABLE t (a INT);").unwrap();
    assert_eq!(execute_ddl(create(), &mut catalog).unwrap(), DdlOutcome::Created);
    assert_eq!(execute_ddl(create(), &mut catalog).unwrap(), DdlOutcome::AlreadyExists);
    assert_eq!(execute_ddl(parse_sql("DROP TABLE t;").unwrap(), &mut catalog).unwrap(), DdlOutcome::Dropped);
    assert_eq!(execute_ddl(parse_sql("DROP TABLE t;").unwrap(), &mut catalog).unwrap(), DdlOutcome::Missing);
    assert!(matches!(execute_ddl(parse_sql("DELETE FROM t;").unwrap(), &mut catalog), Err(CommandError::Message(_))));
}

#[test]
fn insert_refuses_a_duplicate_key_and_select_finds_rows() {
    let (mut catalog, mut bpm) = setup();
    let dup = execute_insert("users", &strings(&["2", "again", "true"]), &mut catalog, &mut bpm, false).unwrap();
    assert_eq!(dup, InsertOutcome::DuplicateKey(2));
    assert!(matches!(
        execute_insert("nobody", &strings(&["1"]), &mut catalog, &mut bpm, false),
        Err(CommandError::Catalog(_))
    ));
    let (rows, plan) = select("SELECT name FROM users WHERE id = 2;", &catalog, &mut bpm);
    assert_eq!(rows, vec![vec![Value::Varchar("bob".into())]]);
    assert_eq!(plan, "IndexScan(users) -> Filter -> Project");
    let (all, plan) = select("SELECT * FROM users ORDER BY name;", &catalog, &mut bpm);
    assert_eq!(all.len(), 3);
    assert_eq!(all[0][1], Value::Varchar("ann".into()));
    assert_eq!(plan, "SeqScan(users) -> ExternalMergeSort(col: name)");
}

#[test]
fn select_errors_name_the_problem() {
    let (catalog, mut bpm) = setup();
    let r = plan_query(parse_sql("SELECT id FROM users ORDER BY nope;").unwrap(), &catalog, &mut bpm, 10);
    assert!(matches!(r, Err(CommandError::Message(m)) if m == "ORDER BY column 'nope' not found in output schema"));
    let r = plan_query(parse_sql("SELECT id FROM ghosts;").unwrap(), &catalog, &mut bpm, 10);
    assert!(matches!(r, Err(CommandError::Catalog(_))));
}

#[test]
fn join_pairs_rows_on_named_columns() {
    let (mut catalog, mut bpm) = setup();
    execute_ddl(parse_sql("CREATE TABLE orders (oid INT, uid INT);").unwrap(), &mut catalog).unwrap();
    for (o, u) in [("10", "2"), ("11", "1"), ("12", "2")] {
        execute_insert("orders", &strings(&[o, u]), &mut catalog, &mut bpm, false).unwrap();
    }
    let (rows, plan) = select("SELECT name, oid FROM users u JOIN orders o ON u.id = o.uid;", &catalog, &mut bpm);
    assert_eq!(plan, "SeqScan(users) -> NestedLoopJoin(orders) -> Project");
    assert_eq!(rows.len(), 3);
    assert!(rows.contains(&vec![Value::Varchar("bob".into()), Value::Integer(10)]));
    assert!(rows.contains(&vec![Value::Varchar("ann".into()), Value::Integer(11)]));
}

#[test]
fn delete_removes_matching_rows_from_heap_and_index() {
    let (mut catalog, mut bpm) = setup();
    let n = execute_delete("users", &parse_where("DELETE FROM users WHERE admin = false;"), &mut catalog, &mut bpm, false).unwrap();
    assert_eq!(n, 2);
    let (rows, _) = select("SELECT id FROM users;", &catalog, &mut bpm);
    assert_eq!(rows, vec![vec![Value::Integer(1)]]);
    let (rows, _) = select("SELECT id FROM users WHERE id = 2;", &catalog, &mut bpm);
    assert!(rows.is_empty());
    assert_eq!(catalog.get_table("users").unwrap().num_records, 1);
}

fn parse_where(sql: &str) -> Vec<WhereCondition> {
    match parse_sql(sql).unwrap() {
        wackdb::sql::Ast::Delete { where_clause, .. } => where_clause,
        _ => panic!("not a delete"),
    }
}

#[test]
fn dml_dispatch_and_log_contents() {
    let mut catalog = Catalog::new();
    let mut bpm = pool();
    execute_ddl(parse_sql("CREATE TABLE kv (k INT, v TEXT);").unwrap(), &mut catalog).unwrap();
    let r = execute_dml(parse_sql("INSERT INTO kv VALUES (1, 'one');").unwrap(), &mut catalog, &mut bpm, false).unwrap();
    assert_eq!(r, DmlOutcome::Insert(InsertOutcome::Inserted));
    let r = execute_dml(parse_sql("DELETE FROM kv WHERE k = 1;").unwrap(), &mut catalog, &mut bpm, false).unwrap();
    assert_eq!(r, DmlOutcome::Delete(1));
    assert!(matches!(
        execute_dml(parse_sql("DROP TABLE kv;").unwrap(), &mut catalog, &mut bpm, false),
        Err(CommandError::Message(m)) if m == "Not a DML statement."
    ));
    let records = parse_log(&bpm.get_log_manager().unwrap().durable);
    assert_eq!(records.len(), 2);
    let (op, name, _) = decode_change(&records[0]).unwrap();
    assert_eq!((op, name), (0, b"kv".to_vec()));
    let (op, _, _) = decode_change(&records[1]).unwrap();
    assert_eq!(op, 1);
}

#[test]
fn demo_data_fills_the_demo_table() {
    let mut catalog = Catalog::new();
    let mut bpm = pool();
    generate_demo_data(5, &mut catalog, &mut bpm).unwrap();
    generate_demo_data(6, &mut catalog, &mut bpm).unwrap();
    let (rows, _) = select("SELECT id, username FROM demo_users ORDER BY id;", &catalog, &mut bpm);
    assert_eq!(rows.len(), 6);
    assert_eq!(rows[5], vec![Value::Integer(6), Value::Varchar("user_6".into())]);
    assert!(!rebuild_index_if_corrupt("demo_users", &mut catalog, &mut bpm));
}

#[test]
fn log_replay_restores_inserts_and_deletes() {
    let mut catalog = Catalog::new();
    let mut bpm = pool();
    execute_ddl(parse_sql("CREATE TABLE kv (k INT, v TEXT);").unwrap(), &mut catalog).unwrap();
    let schema = catalog.get_schema("kv").unwrap();
    let t1 = Tuple::from_values(&schema, &[Value::Integer(1), Value::Varchar("a".into())]).unwrap();
    let t2 = Tuple::from_values(&schema, &[Value::Integer(2), Value::Varchar("b".into())]).unwrap();
    let records = vec![
        wackdb::wal::encode_change(0, b"kv", &t1.data),
        wackdb::wal::encode_change(0, b"kv", &t2.data),
        wackdb::wal::encode_change(0, b"kv", &t1.data),
        wackdb::wal::encode_change(1, b"kv", &t1.data),
        vec![9, 9],
    ];
    let replayed = recover_from_log(&records, &mut catalog, &mut bpm).unwrap();
    assert_eq!(replayed, 3);
    let (rows, _) = select("SELECT k FROM kv;", &catalog, &mut bpm);
    assert_eq!(rows, vec![vec![Value::Integer(2)]]);
}

#[test]
fn config_defaults_and_checkpoint_decisions() {
    let c = WackDbConfig::default();
    assert_eq!(c.query.sort_chunk_size, 1000);
    assert_eq!(c.web.port, 3000);
    assert_eq!(c.buffer_pool_size, None);
    assert_eq!(QueryConfig::default().sort_chunk_size, 1000);
    assert_eq!(WebConfig::default().port, 3000);
    let cp = CheckpointConfig::default();
    assert_eq!((cp.interval_secs, cp.max_wal_size_kb), (30, 1024));
    assert!(should_checkpoint(30_000, &cp, None));
    assert!(!should_checkpoint(29_999, &cp, Some(1024 * 1024 - 1)));
    assert!(should_checkpoint(0, &cp, Some(1024 * 1024)));
}

#[test]
fn replaying_an_insert_into_an_empty_index_applies_it() {
    let mut catalog = Catalog::new();
    let mut bpm = pool();
    execute_ddl(parse_sql("CREATE TABLE kv (k INT, v TEXT);").unwrap(), &mut catalog).unwrap();
    let schema = catalog.get_schema("kv").unwrap();
    let t1 = Tuple::from_values(&schema, &[Value::Integer(4), Value::Varchar("d".into())]).unwrap();
    let rec = wackdb::wal::encode_change(0, b"kv", &t1.data);
    let mut cursors: Vec<TableCursor<TEST_PAGE_SIZE>> = Vec::new();
    assert_eq!(replay_record(&rec, &mut catalog, &mut bpm, &mut cursors).unwrap(), true);
    assert_eq!(replay_record(&rec, &mut catalog, &mut bpm, &mut cursors).unwrap(), false);
    assert_eq!(replay_record(&vec![9, 9], &mut catalog, &mut bpm, &mut cursors).unwrap(), false);
    let unknown = wackdb::wal::encode_change(0, b"nope", &t1.data);
    assert_eq!(replay_record(&unknown, &mut catalog, &mut bpm, &mut cursors).unwrap(), false);
    assert!(catalog.get_table("kv").unwrap().root_page_num.is_some());
}

#[test]
fn replayed_changes_follow_what_the_index_holds() {
    let mut catalog = Catalog::new();
    let mut bpm = pool();
    execute_ddl(parse_sql("CREATE TABLE kv (k INT, v TEXT);").unwrap(), &mut catalog).unwrap();
    let schema = catalog.get_schema("kv").unwrap();
    let t4 = Tuple::from_values(&schema, &[Value::Integer(4), Value::Varchar("d".into())]).unwrap();
    let t5 = Tuple::from_values(&schema, &[Value::Integer(5), Value::Varchar("e".into())]).unwrap();
    let mut cursors: Vec<TableCursor<TEST_PAGE_SIZE>> = Vec::new();
    let insert4 = wackdb::wal::encode_change(0, b"kv", &t4.data);
    assert_eq!(replay_record(&insert4, &mut catalog, &mut bpm, &mut cursors).unwrap(), true);
    assert_eq!(cursors.len(), 1);
    assert_eq!(cursors[0].name, "kv");
    let open = cursors[0].open.as_ref().unwrap();
    let (header, payload) = open.page.get_record(0).unwrap();
    assert_eq!((header.xmin, header.xmax), (1, 0));
    assert_eq!(payload, &t4.data[..]);
    let delete5 = wackdb::wal::encode_change(1, b"kv", &t5.data);
    assert_eq!(replay_record(&delete5, &mut catalog, &mut bpm, &mut cursors).unwrap(), false);
    let delete4 = wackdb::wal::encode_change(1, b"kv", &t4.data);
    assert_eq!(replay_record(&delete4, &mut catalog, &mut bpm, &mut cursors).unwrap(), true);
    assert_eq!(replay_record(&delete4, &mut catalog, &mut bpm, &mut cursors).unwrap(), false);
    let (rows, _) = select("SELECT k FROM kv;", &catalog, &mut bpm);
    assert!(rows.is_empty());
}

#[test]
fn checkpoint_leaves_every_frame_clean_and_the_log_empty() {
    let (_catalog, mut bpm) = setup();
    let before: Vec<_> = bpm.get_frames_metadata().iter().map(|m| (m.0, m.1)).collect();
    assert!(bpm.get_frames_metadata().iter().any(|m| m.3));
    wackdb::commands::execute_checkpoint(&mut bpm);
    let after = bpm.get_frames_metadata();
    assert!(after.iter().all(|m| !m.3));
    let kept: Vec<_> = after.iter().map(|m| (m.0, m.1)).collect();
    assert_eq!(kept, before);
    assert_eq!(bpm.log_size(), Some(0));
}
