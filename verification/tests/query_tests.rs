use wackdb::buffer::{BufferError, BufferPoolManager, LogManager};
use wackdb::page::SlottedPage;
use wackdb::query::{get_record_from_bytes, get_total_slots_from_bytes, tuple_fields, Executor, HashJoin, NestedLoopJoin, Project, Select};
use wackdb::scan::{Optimizer, ScanPlan, SeqScan};
use wackdb::schema::{Column, Schema};
use wackdb::sort::{sort_tuples, ExternalMergeSort};
use wackdb::storage::MemoryDiskManager;
use wackdb::tuple::Tuple;
use wackdb::value::{DataType, Value};

const TEST_PAGE_SIZE: usize = 8192;

struct NoLog;

impl LogManager for NoLog {
    fn flush_up_to(&mut self, _lsn: u64) -> Result<(), BufferError> {
        Ok(())
    }
    fn append_record(&mut self, _payload: &[u8]) -> Result<u64, BufferError> {
        Ok(0)
    }
    fn checkpoint(&mut self) -> Result<(), BufferError> {
        Ok(())
    }
    fn log_size(&self) -> u64 {
        0
    }
}

type Disk = MemoryDiskManager<TEST_PAGE_SIZE>;
type Pool = BufferPoolManager<TEST_PAGE_SIZE, Disk, NoLog>;

fn pool(size: usize) -> Pool {
    BufferPoolManager::new(size, MemoryDiskManager::new())
}

fn id_val_schema() -> Schema {
    Schema::new(vec![Column::new("id", DataType::Integer, false), Column::new("val", DataType::Varchar, false)])
}

fn row(schema: &Schema, id: i32, val: &str) -> Tuple {
    Tuple::from_values(schema, &[Value::Integer(id), Value::Varchar(val.into())]).unwrap()
}

/// Writes one heap page of `file_id` holding the tuples, in order.
fn heap_page(buffer: &mut Pool, file_id: u32, tuples: &[Tuple]) {
    let (frame_id, page_id) = buffer.new_page(file_id).unwrap();
    let mut page = SlottedPage::<TEST_PAGE_SIZE>::new();
    for t in tuples {
        page.insert_record(&t.data, 1).unwrap();
    }
    buffer.write_page(frame_id, page);
    buffer.unpin_page(page_id, true).unwrap();
}

fn drain<E: Executor<Pool>>(e: &mut E, buffer: &mut Pool) -> Vec<Tuple> {
    let mut out = Vec::new();
    while let Some(t) = e.next(buffer).unwrap() {
        out.push(t);
    }
    out
}

fn ids(schema: &Schema, tuples: &[Tuple]) -> Vec<i32> {
    tuples
        .iter()
        .map(|t| match t.to_values(schema).unwrap()[0] {
            Value::Integer(v) => v,
            _ => panic!("not an integer"),
        })
        .collect()
}

#[test]
fn test_query_engine_iterators() {
    let mut buffer = pool(10);
    let schema = id_val_schema();
    let file_id = 1;
    let t1 = row(&schema, 1, "one");
    let t2 = row(&schema, 2, "two");
    let t3 = row(&schema, 3, "three");
    heap_page(&mut buffer, file_id, &[t2, t3, t1]);

    let scan = SeqScan::<TEST_PAGE_SIZE, Disk, NoLog>::new(file_id, schema, 1);
    let sort = ExternalMergeSort::new(scan, 0, 1000);
    let select = Select::new(sort, |t: &Tuple, s: &Schema| {
        let vals = t.to_values(s).unwrap();
        matches!(vals[0], Value::Integer(v) if v > 1)
    });
    let out_schema = Schema::new(vec![Column::new("val", DataType::Varchar, false)]);
    let mut project = Project::new(select, out_schema, vec![1]);

    let mut results = Vec::new();
    while let Some(t) = project.next(&mut buffer).unwrap() {
        results.push(t);
    }
    assert_eq!(results.len(), 2);
}

#[test]
fn sort_pipeline_orders_rows_and_projects_values() {
    let mut buffer = pool(10);
    let schema = id_val_schema();
    heap_page(&mut buffer, 1, &[row(&schema, 2, "two"), row(&schema, 3, "three"), row(&schema, 1, "one")]);
    let scan = SeqScan::<TEST_PAGE_SIZE, Disk, NoLog>::new(1, schema.clone(), 0);
    let sort = ExternalMergeSort::new(scan, 0, 1000);
    let out_schema = Schema::new(vec![Column::new("val", DataType::Varchar, false)]);
    let mut project = Project::new(sort, out_schema.clone(), vec![1]);
    let rows = drain(&mut project, &mut buffer);
    let texts: Vec<Value> = rows.iter().map(|t| t.to_values(&out_schema).unwrap().remove(0)).collect();
    assert_eq!(texts, vec![Value::Varchar("one".into()), Value::Varchar("two".into()), Value::Varchar("three".into())]);
}

#[test]
fn external_sort_merges_small_runs_in_order() {
    let mut buffer = pool(10);
    let schema = id_val_schema();
    let input: Vec<Tuple> = [5, 3, 9, 1, 7, 3, 8].iter().map(|i| row(&schema, *i, "x")).collect();
    heap_page(&mut buffer, 4, &input);
    let scan = SeqScan::<TEST_PAGE_SIZE, Disk, NoLog>::new(4, schema.clone(), 0);
    let mut sort = ExternalMergeSort::new(scan, 0, 2);
    let rows = drain(&mut sort, &mut buffer);
    assert_eq!(ids(&schema, &rows), vec![1, 3, 3, 5, 7, 8, 9]);
}

#[test]
fn sort_tuples_orders_text_keys_and_keeps_every_tuple() {
    let schema = id_val_schema();
    let mut v = vec![row(&schema, 1, "pear"), row(&schema, 2, "apple"), row(&schema, 3, "fig"), row(&schema, 4, "apple")];
    sort_tuples(&mut v, &schema, 1);
    assert_eq!(ids(&schema, &v), vec![2, 4, 3, 1]);
}

#[test]
fn sort_tuples_on_missing_column_keeps_order() {
    let schema = id_val_schema();
    let mut v = vec![row(&schema, 3, "c"), row(&schema, 1, "a"), row(&schema, 2, "b")];
    sort_tuples(&mut v, &schema, 7);
    assert_eq!(ids(&schema, &v), vec![3, 1, 2]);
}

#[test]
fn seq_scan_reads_every_page_and_skips_deleted_records() {
    let mut buffer = pool(4);
    let schema = id_val_schema();
    heap_page(&mut buffer, 2, &[row(&schema, 1, "a"), row(&schema, 2, "b")]);
    heap_page(&mut buffer, 2, &[row(&schema, 3, "c")]);
    let (frame, page_id) = (buffer.fetch_page(wackdb::storage::PageId { file_id: 2, page_num: 0 }).unwrap(), wackdb::storage::PageId { file_id: 2, page_num: 0 });
    let mut page = SlottedPage::<TEST_PAGE_SIZE> { data: buffer.read_page(frame).data.clone() };
    assert!(page.mark_deleted(0, 9));
    buffer.write_page(frame, page);
    buffer.unpin_page(page_id, true).unwrap();
    let mut scan = SeqScan::<TEST_PAGE_SIZE, Disk, NoLog>::new(2, schema.clone(), 1);
    let rows = drain(&mut scan, &mut buffer);
    assert_eq!(ids(&schema, &rows), vec![2, 3]);
}

#[test]
fn optimizer_without_index_scans_sequentially() {
    let mut buffer = pool(4);
    let schema = id_val_schema();
    heap_page(&mut buffer, 3, &[row(&schema, 10, "ten")]);
    let mut plan = Optimizer::optimize(&mut buffer, 3, schema.clone(), 0, None).unwrap();
    assert!(matches!(plan, ScanPlan::Sequential(_)));
    let rows = drain(&mut plan, &mut buffer);
    assert_eq!(ids(&schema, &rows), vec![10]);
}

fn people_and_pets(buffer: &mut Pool) -> (Schema, Schema) {
    let people = Schema::new(vec![Column::new("id", DataType::Integer, false), Column::new("name", DataType::Varchar, false)]);
    let pets = Schema::new(vec![Column::new("owner", DataType::Integer, false), Column::new("pet", DataType::Varchar, false)]);
    heap_page(
        buffer,
        10,
        &[
            Tuple::from_values(&people, &[Value::Integer(1), Value::Varchar("ann".into())]).unwrap(),
            Tuple::from_values(&people, &[Value::Integer(2), Value::Varchar("bob".into())]).unwrap(),
        ],
    );
    heap_page(
        buffer,
        11,
        &[
            Tuple::from_values(&pets, &[Value::Integer(2), Value::Varchar("cat".into())]).unwrap(),
            Tuple::from_values(&pets, &[Value::Integer(1), Value::Varchar("dog".into())]).unwrap(),
            Tuple::from_values(&pets, &[Value::Integer(2), Value::Varchar("eel".into())]).unwrap(),
        ],
    );
    (people, pets)
}

fn joined_names(schema: &Schema, rows: &[Tuple]) -> Vec<(String, String)> {
    rows.iter()
        .map(|t| {
            let v = t.to_values(schema).unwrap();
            match (&v[1], &v[3]) {
                (Value::Varchar(a), Value::Varchar(b)) => (a.clone(), b.clone()),
                _ => panic!("unexpected values"),
            }
        })
        .collect()
}

#[test]
fn hash_join_pairs_rows_in_left_then_right_order() {
    let mut buffer = pool(8);
    let (people, pets) = people_and_pets(&mut buffer);
    let left = SeqScan::<TEST_PAGE_SIZE, Disk, NoLog>::new(10, people, 0);
    let right = SeqScan::<TEST_PAGE_SIZE, Disk, NoLog>::new(11, pets, 0);
    let mut join = HashJoin::new(left, right, "id".to_string(), "owner".to_string());
    let schema = join.schema().clone();
    assert_eq!(schema.columns.len(), 4);
    let rows = drain(&mut join, &mut buffer);
    assert_eq!(
        joined_names(&schema, &rows),
        vec![("ann".to_string(), "dog".to_string()), ("bob".to_string(), "cat".to_string()), ("bob".to_string(), "eel".to_string())]
    );
}

#[test]
fn hash_join_on_missing_column_is_an_error() {
    let mut buffer = pool(8);
    let (people, pets) = people_and_pets(&mut buffer);
    let left = SeqScan::<TEST_PAGE_SIZE, Disk, NoLog>::new(10, people, 0);
    let right = SeqScan::<TEST_PAGE_SIZE, Disk, NoLog>::new(11, pets, 0);
    let mut join = HashJoin::new(left, right, "id".to_string(), "nope".to_string());
    assert!(join.next(&mut buffer).is_err());
}

#[test]
fn nested_loop_join_applies_the_predicate() {
    let mut buffer = pool(8);
    let (people, pets) = people_and_pets(&mut buffer);
    let left = SeqScan::<TEST_PAGE_SIZE, Disk, NoLog>::new(10, people, 0);
    let right = SeqScan::<TEST_PAGE_SIZE, Disk, NoLog>::new(11, pets, 0);
    let mut join = NestedLoopJoin::new(left, right, |lt: &Tuple, ls: &Schema, rt: &Tuple, rs: &Schema| {
        lt.to_values(ls).unwrap()[0] == rt.to_values(rs).unwrap()[0]
    });
    let schema = join.schema().clone();
    let rows = drain(&mut join, &mut buffer);
    assert_eq!(
        joined_names(&schema, &rows),
        vec![("ann".to_string(), "dog".to_string()), ("bob".to_string(), "cat".to_string()), ("bob".to_string(), "eel".to_string())]
    );
}

#[test]
fn records_are_read_from_raw_page_bytes() {
    let mut page = SlottedPage::<TEST_PAGE_SIZE>::new();
    page.insert_record(b"abc", 7).unwrap();
    page.insert_record(b"de", 7).unwrap();
    assert!(page.mark_deleted(1, 9));
    assert_eq!(get_total_slots_from_bytes(&page.data), 2);
    let (h, bytes) = get_record_from_bytes(&page.data, 0).unwrap();
    assert_eq!(h.xmin, 7);
    assert_eq!(bytes, b"abc".to_vec());
    assert!(get_record_from_bytes(&page.data, 1).is_none());
    assert!(get_record_from_bytes(&page.data, 2).is_none());
}

#[test]
fn tuple_fields_name_each_value() {
    let schema = id_val_schema();
    let t = row(&schema, 42, "answer");
    let fields = tuple_fields(&t, &schema).unwrap();
    assert_eq!(fields, vec![("id".to_string(), Value::Integer(42)), ("val".to_string(), Value::Varchar("answer".into()))]);
    assert!(tuple_fields(&Tuple { data: vec![] }, &schema).is_err());
}

#[test]
fn exhausted_scan_keeps_answering_none() {
    let mut buffer = pool(4);
    let schema = id_val_schema();
    heap_page(&mut buffer, 5, &[row(&schema, 7, "seven")]);
    let mut scan = SeqScan::<TEST_PAGE_SIZE, Disk, NoLog>::new(5, schema.clone(), 0);
    let first = scan.next(&mut buffer).unwrap();
    assert!(first.is_some());
    assert!(scan.next(&mut buffer).unwrap().is_none());
    assert!(scan.next(&mut buffer).unwrap().is_none());
    let mut plan = Optimizer::optimize(&mut buffer, 5, schema.clone(), 0, None).unwrap();
    assert!(plan.next(&mut buffer).unwrap().is_some());
    assert!(plan.next(&mut buffer).unwrap().is_none());
    assert!(plan.next(&mut buffer).unwrap().is_none());
}
