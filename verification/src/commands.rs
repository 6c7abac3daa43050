//! What the command layer does to the database: table definitions, inserts and deletes with
//! their index and log upkeep, demo data, checkpoints, index rebuilding and log replay.
use crate::btree::{BTreeIndex, Index};
use crate::btree_node::BTreeError;
use crate::buffer::{BufferPoolManager, LogManager};
use crate::catalog::{table_index, Catalog, CatalogError, TableMetadata, TableView};
use crate::cli::{build_demo_tuple, column_type, parse_values, row_matches, row_satisfies, type_for_name, CommandError};
use crate::page::{free_space, record_of, SlottedPage, TupleHeader, INVALID_TXN_ID};
use crate::query::{encode_values, get_record_from_bytes, get_total_slots_from_bytes, live_record};
use crate::schema::{columns_view, Column, ColumnView, Schema};
use crate::sql::{Ast, ColumnDef, WhereCondition};
use crate::storage::{DiskManager, PageId, CTID};
use crate::text::{chars_of, upper_seq};
use crate::tuple::Tuple;
use crate::value::{DataType, Value};
use crate::wal::{decode_change, encode_change};
use vstd::prelude::*;
use vstd::string::*;
use vstd::utf8::*;

verus! {

broadcast use vstd::seq_lib::group_seq_properties;

// ---------------------------------------------------------------------------
// Table definitions
// ---------------------------------------------------------------------------

/// What a CREATE TABLE or DROP TABLE did.
#[derive(Debug, PartialEq, Eq, Structural)]
pub enum DdlOutcome {
    /// The table was created.
    Created,
    /// The table already existed; nothing changed.
    AlreadyExists,
    /// The table was dropped.
    Dropped,
    /// The table did not exist; nothing changed.
    Missing,
}

/// The columns a CREATE TABLE declares: each name with the type its type name stands for,
/// none nullable.
pub open spec fn declared_columns(cols: Seq<ColumnDef>) -> Seq<ColumnView> {
    Seq::new(
        cols.len(),
        |i: int| ColumnView { name: cols[i].name@, data_type: type_for_name(upper_seq(cols[i].data_type@)), is_nullable: false },
    )
}

/// Runs a CREATE TABLE or DROP TABLE against the catalog.
pub fn execute_ddl(ast: Ast, catalog: &mut Catalog) -> (r: Result<DdlOutcome, CommandError>)
    requires
        old(catalog).wf(),
        old(catalog).next_id() <= u32::MAX - 2,
    ensures
        final(catalog).wf(),
        match ast {
            Ast::CreateTable { table, columns, .. } => match table_index(old(catalog).tables(), table@) {
                Some(_) => r == Ok::<DdlOutcome, CommandError>(DdlOutcome::AlreadyExists) && final(catalog).tables()
                    == old(catalog).tables(),
                None => r == Ok::<DdlOutcome, CommandError>(DdlOutcome::Created) && final(catalog).tables()
                    == old(catalog).tables().push(
                    TableView {
                        name: table@,
                        heap_relation_id: old(catalog).next_id(),
                        index_relation_id: (old(catalog).next_id() + 1) as u32,
                        root_page_num: None,
                        columns: declared_columns(columns@),
                        num_records: 0,
                    },
                ),
            },
            Ast::DropTable { table, .. } => match table_index(old(catalog).tables(), table@) {
                Some(i) => r == Ok::<DdlOutcome, CommandError>(DdlOutcome::Dropped) && final(catalog).tables()
                    == old(catalog).tables().remove(i),
                None => r == Ok::<DdlOutcome, CommandError>(DdlOutcome::Missing) && final(catalog).tables()
                    == old(catalog).tables(),
            },
            _ => (r matches Err(CommandError::Message(m)) && m@ == "Not a DDL statement."@) && final(catalog).tables()
                == old(catalog).tables(),
        },
{
    match ast {
        Ast::CreateTable { table, columns, .. } => {
            if catalog.get_table(table.as_str()).is_ok() {
                return Ok(DdlOutcome::AlreadyExists);
            }
            let mut schema_cols: Vec<Column> = Vec::new();
            let mut i: usize = 0;
            while i < columns.len()
                invariant
                    i <= columns@.len(),
                    columns_view(schema_cols@) == declared_columns(columns@).take(i as int),
                decreases columns@.len() - i,
            {
                let dt = column_type(columns[i].data_type.as_str());
                let col = Column::new(columns[i].name.as_str(), dt, false);
                let ghost prev = schema_cols@;
                schema_cols.push(col);
                proof {
                    assert(col@ == declared_columns(columns@)[i as int]);
                    assert(columns_view(schema_cols@) =~= columns_view(prev).push(col@));
                    assert(columns_view(schema_cols@) =~= declared_columns(columns@).take(i + 1));
                }
                i += 1;
            }
            proof {
                assert(declared_columns(columns@).take(i as int) =~= declared_columns(columns@));
            }
            match catalog.create_table_with_schema(table.as_str(), Schema::new(schema_cols)) {
                Ok(_) => Ok(DdlOutcome::Created),
                Err(e) => Err(CommandError::Catalog(e)),
            }
        },
        Ast::DropTable { table, .. } => {
            if catalog.get_table(table.as_str()).is_err() {
                return Ok(DdlOutcome::Missing);
            }
            match catalog.drop_table(table.as_str()) {
                Ok(_) => Ok(DdlOutcome::Dropped),
                Err(e) => Err(CommandError::Catalog(e)),
            }
        },
        _ => Err(CommandError::Message(String::from_str("Not a DDL statement."))),
    }
}

// ---------------------------------------------------------------------------
// Inserts and deletes
// ---------------------------------------------------------------------------

/// The log operation code of an insert.
pub const OP_INSERT: u8 = 0;

/// The log operation code of a delete.
pub const OP_DELETE: u8 = 1;

/// The transaction id recorded in the records this layer writes and deletes.
pub const RECORD_XMIN: u64 = 1;

/// The transaction id recorded when this layer deletes a record.
pub const RECORD_XMAX: u64 = 999;

fn index_of(meta: &TableMetadata) -> (r: BTreeIndex)
    ensures
        r.file() == meta.index_relation_id,
        r.root() == match meta.root_page_num {
            Some(n) => Some(PageId { file_id: meta.index_relation_id, page_num: n }),
            None => None::<PageId>,
        },
{
    let root = match meta.root_page_num {
        Some(n) => Some(PageId { file_id: meta.index_relation_id, page_num: n }),
        None => None,
    };
    BTreeIndex::new(root, meta.index_relation_id)
}

/// A record of `len` payload bytes, with its header and slot, fits in an empty page.
pub open spec fn stored_tuple_fits(len: nat, page_size: nat) -> bool {
    len + 36 <= page_size
}

/// Writes a tuple into a fresh page of a heap file and returns where it landed.
pub fn write_tuple_to_heap<const PAGE_SIZE: usize, D: DiskManager<PAGE_SIZE>, L: LogManager>(
    tuple: &Tuple,
    heap_file_id: u32,
    bpm: &mut BufferPoolManager<PAGE_SIZE, D, L>,
) -> (r: Result<CTID, CommandError>)
    requires
        old(bpm).wf(),
    ensures
        final(bpm).wf(),
        r matches Ok(c) ==> c.page_id.file_id == heap_file_id,
        r matches Ok(c) ==> (stored_tuple_fits(tuple.data@.len(), PAGE_SIZE as nat) ==> c.slot_idx == 0 && record_of(
            final(bpm).content(c.page_id),
            PAGE_SIZE as nat,
            0,
        ) == Some((TupleHeader { xmin: RECORD_XMIN, xmax: INVALID_TXN_ID }, tuple.data@))),
        r matches Err(e) ==> e is Buffer,
{
    let (frame_id, page_id) = match bpm.new_page(heap_file_id) {
        Ok(x) => x,
        Err(e) => {
            return Err(CommandError::Buffer(e));
        },
    };
    proof {
        bpm.lemma_page_size();
    }
    let mut page = SlottedPage::<PAGE_SIZE>::new();
    let slot_idx = match page.insert_record(tuple.data.as_slice(), RECORD_XMIN) {
        Some(i) => i,
        None => 0,
    };
    bpm.write_page(frame_id, page);
    match bpm.unpin_page(page_id, true) {
        Ok(()) => {},
        Err(e) => {
            return Err(CommandError::Buffer(e));
        },
    }
    Ok(CTID { page_id, slot_idx: slot_idx as u16 })
}

/// Appends a change record (operation, table name, tuple) to the log, when the pool has a log
/// manager and the name's length fits the record's 16-bit field; returns the record's sequence
/// number when it was appended.
pub fn log_change<const PAGE_SIZE: usize, D: DiskManager<PAGE_SIZE>, L: LogManager>(
    op: u8,
    table: &str,
    tuple: &Tuple,
    bpm: &mut BufferPoolManager<PAGE_SIZE, D, L>,
) -> (r: Option<u64>)
    ensures
        final(bpm).same_but_log(old(bpm)),
        r is Some ==> old(bpm).has_log(),
        old(bpm).log_modeled() ==> match r {
            Some(n) => final(bpm).log_waiting() == old(bpm).log_waiting().push(
                (n, crate::wal::change_payload(op, table.spec_bytes(), tuple.data@)),
            ),
            None => final(bpm).log_waiting() == old(bpm).log_waiting(),
        },
{
    let name = table.as_bytes();
    if name.len() > 0xffff {
        return None;
    }
    let payload = encode_change(op, name, tuple.data.as_slice());
    match bpm.append_log_record(payload.as_slice()) {
        Some(Ok(lsn)) => Some(lsn),
        _ => None,
    }
}

/// What an INSERT did.
#[derive(Debug, PartialEq, Eq, Structural)]
pub enum InsertOutcome {
    /// The row was written, indexed and counted.
    Inserted,
    /// A row with this primary key exists; nothing was written.
    DuplicateKey(i32),
    /// The first value is not an integer key; nothing was written.
    NoKey,
}

/// Inserts a row given as statement values: parses and encodes it, refuses a primary key the
/// index already holds, writes it to a fresh heap page, logs it (outside recovery), indexes it
/// and counts it.
pub fn execute_insert<const PAGE_SIZE: usize, D: DiskManager<PAGE_SIZE>, L: LogManager>(
    table: &str,
    values: &[String],
    catalog: &mut Catalog,
    bpm: &mut BufferPoolManager<PAGE_SIZE, D, L>,
    is_recovery: bool,
) -> (r: Result<InsertOutcome, CommandError>)
    requires
        old(catalog).wf(),
        old(bpm).wf(),
        44 <= PAGE_SIZE,
    ensures
        final(catalog).wf(),
        final(bpm).wf(),
        final(catalog).next_id() == old(catalog).next_id(),
        table_index(old(catalog).tables(), table@) is None ==> (r matches Err(CommandError::Catalog(CatalogError::TableNotFound(n))) && n@ == table@),
        final(catalog).tables().len() == old(catalog).tables().len(),
        (r matches Ok(InsertOutcome::DuplicateKey(_))) || (r matches Ok(InsertOutcome::NoKey)) ==> final(catalog).tables()
            == old(catalog).tables(),
{
    let meta = match catalog.get_table(table) {
        Ok(m) => m,
        Err(e) => {
            return Err(CommandError::Catalog(e));
        },
    };
    let schema = match catalog.get_schema(table) {
        Ok(s) => s,
        Err(_) => {
            return Err(CommandError::Message(String::from_str("Schema not found")));
        },
    };
    let parsed_vals = match parse_values(values, &schema) {
        Ok(v) => v,
        Err(e) => {
            return Err(CommandError::Value(e));
        },
    };
    let tuple = match encode_values(&schema, &parsed_vals) {
        Ok(t) => t,
        Err(e) => {
            return Err(CommandError::Query(e));
        },
    };
    let mut btree = index_of(&meta);
    let pk = if parsed_vals.len() > 0 {
        match &parsed_vals[0] {
            Value::Integer(k) => *k,
            _ => {
                return Ok(InsertOutcome::NoKey);
            },
        }
    } else {
        return Ok(InsertOutcome::NoKey);
    };
    if Index::search(&btree, bpm, pk).is_ok() {
        return Ok(InsertOutcome::DuplicateKey(pk));
    }
    let ctid = match write_tuple_to_heap(&tuple, meta.heap_relation_id, bpm) {
        Ok(c) => c,
        Err(e) => {
            return Err(e);
        },
    };
    if !is_recovery {
        let _ = log_change(OP_INSERT, table, &tuple, bpm);
    }
    match Index::insert(&mut btree, bpm, pk, ctid) {
        Ok(()) => {},
        Err(e) => {
            return Err(CommandError::Index(e));
        },
    }
    match btree.get_root_page_id() {
        Some(root) => {
            match catalog.update_root_page(table, Some(root.page_num)) {
                Ok(()) => {},
                Err(e) => {
                    return Err(CommandError::Catalog(e));
                },
            }
        },
        None => {},
    }
    match catalog.update_num_records(table, 1) {
        Ok(()) => Ok(InsertOutcome::Inserted),
        Err(e) => Err(CommandError::Catalog(e)),
    }
}

/// The slot holds a live record whose row satisfies the conditions.
pub open spec fn slot_matches(d: Seq<u8>, conds: Seq<WhereCondition>, cols: Seq<Column>, slot: int) -> bool {
    live_record(d, slot) matches Some((_, b)) && row_satisfies(conds, b, cols)
}

/// The slots of a page, in increasing order, whose live records satisfy the conditions.
pub fn find_slots_to_delete(data: &Vec<u8>, where_clause: &[WhereCondition], schema: &Schema) -> (r: Vec<u16>)
    requires
        16 <= data@.len() <= 0xffff,
    ensures
        forall|a: int, b: int| 0 <= a < b < r@.len() ==> r@[a] < r@[b],
        forall|k: int| 0 <= k < r@.len() ==> #[trigger] slot_matches(data@, where_clause@, schema.columns@, r@[k] as int),
        forall|s: int| 0 <= s < crate::page::header_of(data@).total_slots && #[trigger] slot_matches(data@, where_clause@, schema.columns@, s)
            ==> r@.contains(s as u16),
{
    let total = get_total_slots_from_bytes(data) as u16;
    let mut to_delete: Vec<u16> = Vec::new();
    let mut slot: u16 = 0;
    while slot < total
        invariant
            16 <= data@.len() <= 0xffff,
            total == crate::page::header_of(data@).total_slots,
            slot <= total,
            forall|a: int, b: int| 0 <= a < b < to_delete@.len() ==> to_delete@[a] < to_delete@[b],
            forall|k: int| 0 <= k < to_delete@.len() ==> to_delete@[k] < slot,
            forall|k: int| 0 <= k < to_delete@.len() ==> #[trigger] slot_matches(data@, where_clause@, schema.columns@, to_delete@[k] as int),
            forall|s: int| 0 <= s < slot && #[trigger] slot_matches(data@, where_clause@, schema.columns@, s) ==> to_delete@.contains(s as u16),
        decreases total - slot,
    {
        match get_record_from_bytes(data, slot as usize) {
            Some((_, bytes)) => {
                let tuple = Tuple { data: bytes };
                if row_matches(where_clause, &tuple, schema) {
                    let ghost prev = to_delete@;
                    to_delete.push(slot);
                    proof {
                        assert forall|s: int| 0 <= s < slot + 1 && #[trigger] slot_matches(data@, where_clause@, schema.columns@, s) implies to_delete@.contains(s as u16) by {
                            if s < slot {
                                assert(prev.contains(s as u16));
                                let j = choose|j: int| 0 <= j < prev.len() && prev[j] == s as u16;
                                assert(to_delete@[j] == s as u16);
                            } else {
                                assert(to_delete@[prev.len() as int] == slot);
                            }
                        }
                    }
                } else {
                    proof {
                        assert forall|s: int| 0 <= s < slot + 1 && #[trigger] slot_matches(data@, where_clause@, schema.columns@, s) implies to_delete@.contains(s as u16) by {
                            if s == slot {
                                assert(!slot_matches(data@, where_clause@, schema.columns@, s));
                            }
                        }
                    }
                }
            },
            None => {},
        }
        slot = slot + 1;
    }
    to_delete
}

/// The bytes of the record in a slot, whether or not it is marked deleted.
fn slot_payload<const PAGE_SIZE: usize>(page: &SlottedPage<PAGE_SIZE>, slot_idx: u16) -> (r: Tuple)
    requires
        page.wf(),
    ensures
        r.data@ == match page.record_view(slot_idx as int) {
            Some((_, b)) => b,
            None => Seq::<u8>::empty(),
        },
{
    let slots = page.slots();
    if (slot_idx as usize) >= slots.len() {
        return Tuple { data: Vec::new() };
    }
    let offset = slots[slot_idx as usize].offset as usize;
    let length = slots[slot_idx as usize].length as usize;
    proof {
        let sl = crate::page::slot_of(page.data@, slot_idx as int);
        assert(slots@[slot_idx as int] == sl);
        assert(crate::page::slot_end(sl) <= PAGE_SIZE);
    }
    let end = offset + 16 + length;
    let mut data: Vec<u8> = Vec::new();
    let mut k = offset + 16;
    while k < end
        invariant
            end <= page.data@.len(),
            offset + 16 <= k <= end,
            data@ == page.data@.subrange(offset + 16, k as int),
        decreases end - k,
    {
        data.push(page.data[k]);
        proof {
            assert(page.data@.subrange(offset + 16, k + 1) =~= page.data@.subrange(offset + 16, k as int).push(page.data@[k as int]));
        }
        k += 1;
    }
    Tuple { data }
}

/// Deletes the rows of one heap page that satisfy the conditions: marks them deleted, removes
/// their keys from the index and logs them (outside recovery), then writes the page back.
/// Returns how many rows it deleted; a page that cannot be brought in, or whose layout is not
/// well formed, deletes none.
pub fn process_page_for_delete<const PAGE_SIZE: usize, D: DiskManager<PAGE_SIZE>, L: LogManager>(
    page_num: u32,
    table: &str,
    where_clause: &[WhereCondition],
    meta: &TableMetadata,
    schema: &Schema,
    bpm: &mut BufferPoolManager<PAGE_SIZE, D, L>,
    is_recovery: bool,
) -> (r: u32)
    requires
        old(bpm).wf(),
        44 <= PAGE_SIZE,
    ensures
        final(bpm).wf(),
        ({
            let pid = PageId { file_id: meta.heap_relation_id, page_num };
            let d = old(bpm).content(pid);
            (old(bpm).disk_modeled() || old(bpm).frame_of(pid) is Some) && r > 0 ==> crate::page::page_wf(d, PAGE_SIZE as nat) && exists|s: int|
                0 <= s < crate::page::header_of(d).total_slots && #[trigger] slot_matches(d, where_clause@, schema.columns@, s)
        }),
        ({
            let pid = PageId { file_id: meta.heap_relation_id, page_num };
            let d = old(bpm).content(pid);
            old(bpm).frame_of(pid) is Some && crate::page::page_wf(d, PAGE_SIZE as nat) && (exists|s: int|
                0 <= s < crate::page::header_of(d).total_slots && #[trigger] slot_matches(d, where_clause@, schema.columns@, s))
                ==> r > 0
        }),
{
    let page_id = PageId { file_id: meta.heap_relation_id, page_num };
    proof {
        bpm.lemma_content_in_pool(page_id);
    }
    let frame_id = match bpm.fetch_page(page_id) {
        Ok(f) => f,
        Err(_) => {
            return 0;
        },
    };
    proof {
        bpm.lemma_page_size();
    }
    let mut page = SlottedPage::<PAGE_SIZE> { data: bpm.read_page(frame_id).data.clone() };
    let ghost d = page.data@;
    let to_delete = find_slots_to_delete(&page.data, where_clause, schema);
    let mut deleted: u32 = 0;
    if page.check_wf() {
        proof {
            if to_delete@.len() > 0 {
                let s = to_delete@[0] as int;
                assert(slot_matches(d, where_clause@, schema.columns@, s));
                assert(live_record(d, s) is Some);
            }
        }
        let mut btree = index_of(meta);
        let mut i: usize = 0;
        while i < to_delete.len()
            invariant
                page.wf(),
                bpm.wf(),
                44 <= PAGE_SIZE,
                i <= to_delete@.len(),
                deleted <= i,
                deleted <= u32::MAX,
                i > 0 ==> to_delete@.len() > 0 && deleted > 0,
            decreases to_delete@.len() - i,
        {
            let slot_idx = to_delete[i];
            page.mark_deleted(slot_idx as usize, RECORD_XMAX);
            if deleted < u32::MAX {
                deleted = deleted + 1;
            }
            let tuple = slot_payload(&page, slot_idx);
            match tuple.to_values(schema) {
                Ok(vals) => {
                    if vals.len() > 0 {
                        match &vals[0] {
                            Value::Integer(pk) => {
                                let _ = Index::delete(&mut btree, bpm, *pk);
                            },
                            _ => {},
                        }
                    }
                },
                Err(_) => {},
            }
            if !is_recovery {
                match log_change(OP_DELETE, table, &tuple, bpm) {
                    Some(lsn) => {
                        page.set_lsn(lsn);
                    },
                    None => {},
                }
            }
            i += 1;
        }
    }
    if frame_id < bpm.pool_size() && page.data.len() == PAGE_SIZE {
        bpm.write_page(frame_id, page);
    }
    let _ = bpm.unpin_page(page_id, true);
    deleted
}

/// Deletes the rows of a table that satisfy the conditions, page by page, and lowers its
/// record count by the number deleted. Returns that number.
pub fn execute_delete<const PAGE_SIZE: usize, D: DiskManager<PAGE_SIZE>, L: LogManager>(
    table: &str,
    where_clause: &[WhereCondition],
    catalog: &mut Catalog,
    bpm: &mut BufferPoolManager<PAGE_SIZE, D, L>,
    is_recovery: bool,
) -> (r: Result<u32, CommandError>)
    requires
        old(catalog).wf(),
        old(bpm).wf(),
        44 <= PAGE_SIZE,
    ensures
        final(catalog).wf(),
        final(bpm).wf(),
        final(catalog).next_id() == old(catalog).next_id(),
        table_index(old(catalog).tables(), table@) is None ==> (r matches Err(CommandError::Catalog(CatalogError::TableNotFound(n))) && n@ == table@),
        r == Ok::<u32, CommandError>(0) ==> final(catalog).tables() == old(catalog).tables(),
{
    let meta = match catalog.get_table(table) {
        Ok(m) => m,
        Err(e) => {
            return Err(CommandError::Catalog(e));
        },
    };
    let schema = match catalog.get_schema(table) {
        Ok(s) => s,
        Err(_) => {
            return Err(CommandError::Message(String::from_str("Schema not found")));
        },
    };
    let total_pages = match bpm.get_total_pages(meta.heap_relation_id) {
        Ok(n) => n,
        Err(e) => {
            return Err(CommandError::Buffer(e));
        },
    };
    let mut deleted_count: u32 = 0;
    let mut current_page: u32 = 0;
    while current_page < total_pages
        invariant
            bpm.wf(),
            44 <= PAGE_SIZE,
        decreases total_pages - current_page,
    {
        let n = process_page_for_delete(current_page, table, where_clause, &meta, &schema, bpm, is_recovery);
        deleted_count = deleted_count.saturating_add(n);
        current_page = current_page + 1;
    }
    if deleted_count > 0 {
        match catalog.update_num_records(table, -(deleted_count as i64)) {
            Ok(()) => {},
            Err(e) => {
                return Err(CommandError::Catalog(e));
            },
        }
    }
    Ok(deleted_count)
}

/// What a DML statement did.
#[derive(Debug, PartialEq, Eq, Structural)]
pub enum DmlOutcome {
    /// An INSERT ran.
    Insert(InsertOutcome),
    /// A DELETE ran and deleted this many rows.
    Delete(u32),
}

/// Runs an INSERT or DELETE; after one that succeeds outside recovery the log is made durable.
pub fn execute_dml<const PAGE_SIZE: usize, D: DiskManager<PAGE_SIZE>, L: LogManager>(
    ast: Ast,
    catalog: &mut Catalog,
    bpm: &mut BufferPoolManager<PAGE_SIZE, D, L>,
    is_recovery: bool,
) -> (r: Result<DmlOutcome, CommandError>)
    requires
        old(catalog).wf(),
        old(bpm).wf(),
        44 <= PAGE_SIZE,
    ensures
        final(catalog).wf(),
        final(bpm).wf(),
        final(catalog).next_id() == old(catalog).next_id(),
        !(ast is Insert || ast is Delete) ==> (r matches Err(CommandError::Message(m)) && m@ == "Not a DML statement."@),
{
    let result = match ast {
        Ast::Insert { table, values } => match execute_insert(table.as_str(), values.as_slice(), catalog, bpm, is_recovery) {
            Ok(o) => Ok(DmlOutcome::Insert(o)),
            Err(e) => Err(e),
        },
        Ast::Delete { table, where_clause } => match execute_delete(
            table.as_str(),
            where_clause.as_slice(),
            catalog,
            bpm,
            is_recovery,
        ) {
            Ok(n) => Ok(DmlOutcome::Delete(n)),
            Err(e) => Err(e),
        },
        _ => Err(CommandError::Message(String::from_str("Not a DML statement."))),
    };
    if !is_recovery && result.is_ok() {
        let _ = bpm.flush_log(u64::MAX);
    }
    result
}

// ---------------------------------------------------------------------------
// Meta commands
// ---------------------------------------------------------------------------

/// The dot commands.
#[derive(Debug, PartialEq, Eq, Structural)]
pub enum MetaCommand {
    Help,
    Tables,
    Inspect,
    Source,
    Reset,
    Checkpoint,
    Demo,
    Unknown,
}

/// Which dot command a line is: `.help` and `.tables` exactly; `.inspect ` and `.source `
/// (with the space) as prefixes; `.reset`, `.checkpoint` and `.demo` as prefixes; else none.
pub open spec fn meta_kind(cmd: Seq<char>) -> MetaCommand {
    if cmd == ".help"@ {
        MetaCommand::Help
    } else if cmd == ".tables"@ {
        MetaCommand::Tables
    } else if crate::text::starts_with(cmd, ".inspect "@) {
        MetaCommand::Inspect
    } else if crate::text::starts_with(cmd, ".source "@) {
        MetaCommand::Source
    } else if crate::text::starts_with(cmd, ".reset"@) {
        MetaCommand::Reset
    } else if crate::text::starts_with(cmd, ".checkpoint"@) {
        MetaCommand::Checkpoint
    } else if crate::text::starts_with(cmd, ".demo"@) {
        MetaCommand::Demo
    } else {
        MetaCommand::Unknown
    }
}

/// Classifies a dot command.
pub fn classify_meta(cmd: &str) -> (r: MetaCommand)
    ensures
        r == meta_kind(cmd@),
{
    let c = chars_of(cmd);
    proof {
        reveal_strlit(".help");
        reveal_strlit(".tables");
        reveal_strlit(".inspect ");
        reveal_strlit(".source ");
        reveal_strlit(".reset");
        reveal_strlit(".checkpoint");
        reveal_strlit(".demo");
    }
    if crate::text::chars_eq(c.as_slice(), chars_of(".help").as_slice()) {
        MetaCommand::Help
    } else if crate::text::chars_eq(c.as_slice(), chars_of(".tables").as_slice()) {
        MetaCommand::Tables
    } else if crate::text::starts_with_chars(c.as_slice(), chars_of(".inspect ").as_slice()) {
        MetaCommand::Inspect
    } else if crate::text::starts_with_chars(c.as_slice(), chars_of(".source ").as_slice()) {
        MetaCommand::Source
    } else if crate::text::starts_with_chars(c.as_slice(), chars_of(".reset").as_slice()) {
        MetaCommand::Reset
    } else if crate::text::starts_with_chars(c.as_slice(), chars_of(".checkpoint").as_slice()) {
        MetaCommand::Checkpoint
    } else if crate::text::starts_with_chars(c.as_slice(), chars_of(".demo").as_slice()) {
        MetaCommand::Demo
    } else {
        MetaCommand::Unknown
    }
}

/// The table an `.inspect` line names: its second whitespace-separated word.
pub fn inspect_target(cmd: &str) -> (r: Option<String>)
    ensures
        crate::text::words(cmd@).len() < 2 ==> r is None,
        crate::text::words(cmd@).len() >= 2 ==> (r matches Some(t) && t@ == crate::text::words(cmd@)[1]),
{
    let parts = crate::text::words_chars(chars_of(cmd).as_slice());
    if parts.len() < 2 {
        None
    } else {
        Some(crate::text::string_of(parts[1].as_slice()))
    }
}

/// The row count a `.demo` line asks for: the number after `.demo`, 50 when there is none
/// or it does not parse, and at least 1.
pub open spec fn demo_count_of(cmd: Seq<char>) -> i32 {
    let rest = if crate::text::starts_with(cmd, ".demo"@) { cmd.skip(5) } else { Seq::empty() };
    let n = match crate::text::parse_i32(crate::text::trim(rest)) {
        Some(v) => v,
        None => 50,
    };
    if n < 1 {
        1
    } else {
        n
    }
}

/// The row count of a `.demo` line.
pub fn demo_count(cmd: &str) -> (r: i32)
    ensures
        r == demo_count_of(cmd@),
{
    proof {
        reveal_strlit(".demo");
    }
    let c = chars_of(cmd);
    let prefix = chars_of(".demo");
    let rest = if crate::text::starts_with_chars(c.as_slice(), prefix.as_slice()) {
        crate::text::copy_range(c.as_slice(), 5, c.len())
    } else {
        Vec::new()
    };
    proof {
        if crate::text::starts_with(cmd@, ".demo"@) {
            assert(rest@ =~= cmd@.skip(5));
        } else {
            assert(rest@ =~= Seq::<char>::empty());
        }
    }
    let t = crate::text::trim_chars(rest.as_slice());
    let n = match crate::text::parse_i32_chars(t.as_slice()) {
        Some(v) => v,
        None => 50,
    };
    if n < 1 {
        1
    } else {
        n
    }
}

/// Writes dirty pages back and truncates the log (after making it durable). The frames keep
/// their bytes, pages and pins; the pages are written in frame order, up to the first write
/// that fails: every frame before it is clean and every frame after it as it was. With no
/// failed write every frame is clean, and with no dirty page none can fail.
pub fn execute_checkpoint<const PAGE_SIZE: usize, D: DiskManager<PAGE_SIZE>, L: LogManager>(
    bpm: &mut BufferPoolManager<PAGE_SIZE, D, L>,
)
    requires
        old(bpm).wf(),
    ensures
        final(bpm).wf(),
        old(bpm).disk_modeled() ==> forall|q: PageId| #[trigger] final(bpm).content(q) == old(bpm).content(q),
        final(bpm).unchanged_but_flags(old(bpm)),
        forall|g: int| #[trigger] final(bpm).unsaved(g) ==> old(bpm).unsaved(g),
        (forall|f: int| 0 <= f < final(bpm).size() ==> !(#[trigger] final(bpm).desc(f)).is_dirty) || exists|k: int|
            0 <= k < final(bpm).size() && (forall|f: int| 0 <= f < k ==> !(#[trigger] final(bpm).desc(f)).is_dirty)
                && (forall|f: int| k < f < final(bpm).size() ==> #[trigger] final(bpm).desc(f) == old(bpm).desc(f))
                && old(bpm).desc(k).is_dirty && old(bpm).occupied(k),
        old(bpm).log_modeled() && old(bpm).io_reliable() ==> final(bpm).log_saved() == Seq::<u8>::empty()
            && final(bpm).log_durable_through(u64::MAX),
{
    let _ = bpm.flush_all_pages();
    let _ = bpm.flush_log(u64::MAX);
    let _ = bpm.checkpoint_log();
}

// ---------------------------------------------------------------------------
// Bulk appends: demo data and log replay
// ---------------------------------------------------------------------------

/// A heap page kept pinned while rows are appended to it: its frame, its id and its bytes as
/// last written to the frame.
pub struct OpenPage<const PAGE_SIZE: usize> {
    pub frame_id: usize,
    pub page_id: PageId,
    pub page: SlottedPage<PAGE_SIZE>,
}

/// The open page is well formed.
pub open spec fn open_page_ok<const PAGE_SIZE: usize>(p: Option<OpenPage<PAGE_SIZE>>) -> bool {
    p matches Some(o) ==> o.page.wf()
}

/// Allocates a fresh, empty heap page, pinned, and writes its empty layout to the frame.
fn open_new_page<const PAGE_SIZE: usize, D: DiskManager<PAGE_SIZE>, L: LogManager>(
    heap_file_id: u32,
    bpm: &mut BufferPoolManager<PAGE_SIZE, D, L>,
) -> (r: Result<OpenPage<PAGE_SIZE>, CommandError>)
    requires
        old(bpm).wf(),
    ensures
        final(bpm).wf(),
        r matches Ok(o) ==> o.page.wf() && o.page_id.file_id == heap_file_id,
        r matches Ok(o) ==> {
            &&& o.frame_id < final(bpm).size()
            &&& final(bpm).frame_of(o.page_id) == Some(o.frame_id as int)
            &&& final(bpm).content(o.page_id) == o.page.data@
            &&& o.page.header_view().total_slots == 0
            &&& free_space(o.page.data@) == PAGE_SIZE - 16
        },
        r matches Err(e) ==> e is Buffer,
{
    let (frame_id, page_id) = match bpm.new_page(heap_file_id) {
        Ok(x) => x,
        Err(e) => {
            return Err(CommandError::Buffer(e));
        },
    };
    proof {
        bpm.lemma_page_size();
    }
    let page = SlottedPage::<PAGE_SIZE>::new();
    let copy = SlottedPage::<PAGE_SIZE> { data: page.data.clone() };
    assert(copy.data@ == page.data@);
    bpm.write_page(frame_id, copy);
    Ok(OpenPage { frame_id, page_id, page })
}

/// Pins the last page of a heap file as the page to append to, when the file has pages, the
/// page comes in and its layout is well formed.
fn open_last_page<const PAGE_SIZE: usize, D: DiskManager<PAGE_SIZE>, L: LogManager>(
    heap_file_id: u32,
    bpm: &mut BufferPoolManager<PAGE_SIZE, D, L>,
) -> (r: Option<OpenPage<PAGE_SIZE>>)
    requires
        old(bpm).wf(),
    ensures
        final(bpm).wf(),
        open_page_ok(r),
        old(bpm).disk_modeled() && old(bpm).disk().total_pages(heap_file_id) == 0 ==> r is None,
        old(bpm).disk_modeled() ==> (r matches Some(o) ==> {
            &&& o.page_id == (PageId { file_id: heap_file_id, page_num: (old(bpm).disk().total_pages(heap_file_id) - 1) as u32 })
            &&& o.page.data@ == old(bpm).content(o.page_id)
            &&& o.frame_id < final(bpm).size()
            &&& final(bpm).frame_of(o.page_id) == Some(o.frame_id as int)
        }),
        r matches Some(o) ==> o.page_id.file_id == heap_file_id && o.frame_id < final(bpm).size() && final(bpm).frame_of(
            o.page_id,
        ) == Some(o.frame_id as int),
{
    let total_pages = match bpm.get_total_pages(heap_file_id) {
        Ok(n) => n,
        Err(_) => 0,
    };
    if total_pages == 0 {
        return None;
    }
    let last = PageId { file_id: heap_file_id, page_num: total_pages - 1 };
    match bpm.fetch_page(last) {
        Ok(frame_id) => {
            let page = SlottedPage::<PAGE_SIZE> { data: bpm.read_page(frame_id).data.clone() };
            if page.check_wf() {
                Some(OpenPage { frame_id, page_id: last, page })
            } else {
                let _ = bpm.unpin_page(last, false);
                None
            }
        },
        Err(_) => None,
    }
}

/// Appends a tuple to the open page of a heap file, opening a page first when there is none
/// and moving to a fresh page when the open one is full. Returns where the tuple landed.
pub fn append_to_heap<const PAGE_SIZE: usize, D: DiskManager<PAGE_SIZE>, L: LogManager>(
    tuple: &Tuple,
    heap_file_id: u32,
    bpm: &mut BufferPoolManager<PAGE_SIZE, D, L>,
    current: &mut Option<OpenPage<PAGE_SIZE>>,
    reuse_last_page: bool,
) -> (r: Result<CTID, CommandError>)
    requires
        old(bpm).wf(),
        open_page_ok(*old(current)),
    ensures
        final(bpm).wf(),
        open_page_ok(*final(current)),
        r matches Ok(c) ==> *final(current) matches Some(o) && o.page_id == c.page_id && (stored_tuple_fits(
            tuple.data@.len(),
            PAGE_SIZE as nat,
        ) ==> o.page.record_view(c.slot_idx as int) == Some(
            (TupleHeader { xmin: RECORD_XMIN, xmax: INVALID_TXN_ID }, tuple.data@),
        )),
        r matches Err(e) ==> e is Buffer || e is Message,
        match *old(current) {
            Some(o) => free_space(o.page.data@) >= crate::page::TUPLE_HEADER_SIZE + tuple.data@.len() + crate::page::SLOT_SIZE
                ==> (r == Ok::<CTID, CommandError>(CTID { page_id: o.page_id, slot_idx: o.page.header_view().total_slots })
                && (*final(current) matches Some(n) && n.page_id == o.page_id && n.frame_id == o.frame_id)),
            None => true,
        },
{
    if current.is_none() {
        if reuse_last_page {
            *current = open_last_page(heap_file_id, bpm);
        }
        if current.is_none() {
            match open_new_page(heap_file_id, bpm) {
                Ok(o) => {
                    *current = Some(o);
                },
                Err(e) => {
                    return Err(e);
                },
            }
        }
    }
    let mut open = match current.take() {
        Some(o) => o,
        None => {
            return Err(CommandError::Message(String::from_str("no page to append to")));
        },
    };
    proof {
        bpm.lemma_page_size();
    }
    match open.page.insert_record(tuple.data.as_slice(), RECORD_XMIN) {
        Some(idx) => {
            if open.frame_id < bpm.pool_size() {
                let copy = SlottedPage::<PAGE_SIZE> { data: open.page.data.clone() };
                bpm.write_page(open.frame_id, copy);
            }
            let ctid = CTID { page_id: open.page_id, slot_idx: idx as u16 };
            *current = Some(open);
            Ok(ctid)
        },
        None => {
            match bpm.unpin_page(open.page_id, true) {
                Ok(()) => {},
                Err(e) => {
                    return Err(CommandError::Buffer(e));
                },
            }
            let mut fresh = match open_new_page(heap_file_id, bpm) {
                Ok(o) => o,
                Err(e) => {
                    return Err(e);
                },
            };
            proof {
                bpm.lemma_page_size();
            }
            let idx = match fresh.page.insert_record(tuple.data.as_slice(), RECORD_XMIN) {
                Some(i) => i,
                None => 0,
            };
            if fresh.frame_id < bpm.pool_size() {
                let copy = SlottedPage::<PAGE_SIZE> { data: fresh.page.data.clone() };
                bpm.write_page(fresh.frame_id, copy);
            }
            let ctid = CTID { page_id: fresh.page_id, slot_idx: idx as u16 };
            *current = Some(fresh);
            Ok(ctid)
        },
    }
}

/// The demo table's name.
pub open spec fn demo_table() -> Seq<char> {
    "demo_users"@
}

/// The demo table's columns: id, is_admin, username, and a nullable status.
pub open spec fn demo_columns() -> Seq<ColumnView> {
    seq![
        ColumnView { name: "id"@, data_type: DataType::Integer, is_nullable: false },
        ColumnView { name: "is_admin"@, data_type: DataType::Boolean, is_nullable: false },
        ColumnView { name: "username"@, data_type: DataType::Varchar, is_nullable: false },
        ColumnView { name: "status"@, data_type: DataType::Varchar, is_nullable: true },
    ]
}

pub(crate) fn demo_schema() -> (r: Schema)
    ensures
        columns_view(r.columns@) == demo_columns(),
{
    let mut cols: Vec<Column> = Vec::new();
    cols.push(Column::new("id", DataType::Integer, false));
    cols.push(Column::new("is_admin", DataType::Boolean, false));
    cols.push(Column::new("username", DataType::Varchar, false));
    cols.push(Column::new("status", DataType::Varchar, true));
    proof {
        assert(columns_view(cols@) =~= demo_columns());
    }
    Schema::new(cols)
}

/// Fills the demo table with rows `1..=count` (creating the table when it does not exist):
/// rows whose id the index already holds are skipped; each new row is appended to the heap,
/// logged and indexed; then the index root is recorded and the log made durable.
pub fn generate_demo_data<const PAGE_SIZE: usize, D: DiskManager<PAGE_SIZE>, L: LogManager>(
    count: i32,
    catalog: &mut Catalog,
    bpm: &mut BufferPoolManager<PAGE_SIZE, D, L>,
) -> (r: Result<(), CommandError>)
    requires
        old(catalog).wf(),
        old(catalog).next_id() <= u32::MAX - 2,
        old(bpm).wf(),
        44 <= PAGE_SIZE,
    ensures
        final(catalog).wf(),
        final(bpm).wf(),
        table_index(old(catalog).tables(), demo_table()) is None ==> table_index(final(catalog).tables(), demo_table()) is Some,
        r is Ok ==> (table_index(final(catalog).tables(), demo_table()) matches Some(k) && {
            let c0 = old(catalog).tables();
            let c1 = final(catalog).tables();
            ||| table_index(c0, demo_table()) matches Some(k0) && k0 == k && (c1 == c0 || c1 == c0.update(
                k,
                TableView { root_page_num: c1[k].root_page_num, ..c0[k] },
            ))
            ||| table_index(c0, demo_table()) is None && k == c0.len() && c1.len() == c0.len() + 1 && c1[k].columns
                == demo_columns() && c1[k].num_records == 0 && forall|j: int| 0 <= j < c0.len() ==> #[trigger] c1[j] == c0[j]
        }),
{
    proof {
        reveal_strlit("demo_users");
    }
    let table_name = "demo_users";
    if catalog.get_table(table_name).is_err() {
        let ghost before = catalog.tables();
        let ghost next = catalog.next_id();
        match catalog.create_table_with_schema(table_name, demo_schema()) {
            Ok(_) => {},
            Err(e) => {
                return Err(CommandError::Catalog(e));
            },
        }
        proof {
            crate::catalog::lemma_created_table_found(before, catalog.tables().last());
            assert(catalog.tables() == before.push(catalog.tables().last()));
        }
    }
    let ghost created = catalog.tables();
    assert(table_index(created, demo_table()) is Some);
    let meta = match catalog.get_table(table_name) {
        Ok(m) => m,
        Err(e) => {
            return Err(CommandError::Catalog(e));
        },
    };
    let schema = match catalog.get_schema(table_name) {
        Ok(s) => s,
        Err(e) => {
            return Err(CommandError::Catalog(e));
        },
    };
    let mut btree = index_of(&meta);
    let mut current: Option<OpenPage<PAGE_SIZE>> = None;
    let mut i: i32 = 1;
    while i <= count
        invariant
            bpm.wf(),
            44 <= PAGE_SIZE,
            open_page_ok(current),
            catalog.wf(),
            catalog.tables() == created,
            table_index(created, demo_table()) is Some,
            1 <= i,
            i <= count + 1 || count < 1,
        decreases count + 1 - i,
    {
        if Index::search(&btree, bpm, i).is_ok() {
            if i == i32::MAX {
                break;
            }
            i = i + 1;
            continue;
        }
        let tuple = match build_demo_tuple(i, &schema) {
            Ok(t) => t,
            Err(e) => {
                return Err(CommandError::Query(e));
            },
        };
        let ctid = match append_to_heap(&tuple, meta.heap_relation_id, bpm, &mut current, true) {
            Ok(c) => c,
            Err(e) => {
                return Err(e);
            },
        };
        let _ = log_change(OP_INSERT, table_name, &tuple, bpm);
        match Index::insert(&mut btree, bpm, i, ctid) {
            Ok(()) => {},
            Err(e) => {
                return Err(CommandError::Index(e));
            },
        }
        if i == i32::MAX {
            break;
        }
        i = i + 1;
    }
    match current {
        Some(o) => {
            let _ = bpm.unpin_page(o.page_id, true);
        },
        None => {},
    }
    match btree.get_root_page_id() {
        Some(root) => {
            match catalog.update_root_page(table_name, Some(root.page_num)) {
                Ok(()) => {},
                Err(e) => {
                    return Err(CommandError::Catalog(e));
                },
            }
            proof {
                let k = table_index(created, demo_table())->0;
                assert(catalog.tables()[k].name == created[k].name);
            }
        },
        None => {},
    }
    let _ = bpm.flush_log(u64::MAX);
    Ok(())
}

// ---------------------------------------------------------------------------
// Startup repairs: index rebuilding and log replay
// ---------------------------------------------------------------------------

/// `String::from_utf8_lossy`, owned: the text of well-formed UTF-8 bytes. Ill-formed
/// sequences become U+FFFD replacement characters; what text they give is not stated here.
#[verifier::external_body]
fn utf8_lossy(bytes: &[u8]) -> (r: String)
    ensures
        valid_utf8(bytes@) ==> r@ == decode_utf8(bytes@),
{
    String::from_utf8_lossy(bytes).to_string()
}

/// Rebuilds a table's index from its heap file when the index root does not hold a valid
/// node: every live record whose first value is an integer is inserted into a fresh tree, and
/// the new root is recorded. Returns whether it rebuilt.
pub fn rebuild_index_if_corrupt<const PAGE_SIZE: usize, D: DiskManager<PAGE_SIZE>, L: LogManager>(
    table: &str,
    catalog: &mut Catalog,
    bpm: &mut BufferPoolManager<PAGE_SIZE, D, L>,
) -> (r: bool)
    requires
        old(catalog).wf(),
        old(bpm).wf(),
        44 <= PAGE_SIZE,
    ensures
        final(catalog).wf(),
        final(bpm).wf(),
        final(catalog).next_id() == old(catalog).next_id(),
        final(catalog).tables().len() == old(catalog).tables().len(),
        !r ==> final(catalog).tables() == old(catalog).tables(),
        match table_index(old(catalog).tables(), table@) {
            None => !r,
            Some(k) => {
                let t = old(catalog).tables()[k];
                &&& r ==> final(catalog).tables() == old(catalog).tables() || final(catalog).tables()
                    == old(catalog).tables().update(k, TableView { root_page_num: final(catalog).tables()[k].root_page_num, ..t })
                &&& t.root_page_num is None ==> !r
                &&& (t.root_page_num matches Some(n) && crate::btree::unreadable_node(
                    old(bpm),
                    PageId { file_id: t.index_relation_id, page_num: n },
                ) ==> r)
                &&& old(bpm).no_lost_writes() ==> (t.root_page_num matches Some(n) ==> (crate::btree::route(
                    old(bpm),
                    PageId { file_id: t.index_relation_id, page_num: n },
                    0,
                    crate::btree::route_fuel(),
                ) matches Some(l) ==> (crate::btree::sorted(crate::btree::leaf_keys(old(bpm).content(l))) ==> !r)))
            },
        },
{
    let meta = match catalog.get_table(table) {
        Ok(m) => m,
        Err(_) => {
            return false;
        },
    };
    let schema = match catalog.get_schema(table) {
        Ok(s) => s,
        Err(_) => {
            return false;
        },
    };
    let btree = index_of(&meta);
    let corrupted = match btree.search(bpm, 0) {
        Err(crate::btree::BTreeError::InvalidNode) => true,
        _ => false,
    };
    if !corrupted {
        return false;
    }
    let mut fresh = BTreeIndex::new(None, meta.index_relation_id);
    let max_pages = match bpm.get_total_pages(meta.heap_relation_id) {
        Ok(n) => n,
        Err(_) => 0,
    };
    let mut current_page: u64 = 0;
    while current_page <= max_pages as u64
        invariant
            bpm.wf(),
            44 <= PAGE_SIZE,
            current_page <= max_pages as u64 + 1,
        decreases max_pages as u64 + 1 - current_page,
    {
        let page_id = PageId { file_id: meta.heap_relation_id, page_num: current_page as u32 };
        match bpm.fetch_page(page_id) {
            Ok(frame_id) => {
                proof {
                    bpm.lemma_page_size();
                }
                let data = bpm.read_page(frame_id).data.clone();
                let max_slots = get_total_slots_from_bytes(&data);
                let mut slot: usize = 0;
                while slot < max_slots
                    invariant
                        bpm.wf(),
                        44 <= PAGE_SIZE,
                        16 <= data@.len() <= 0xffff,
                    decreases max_slots - slot,
                {
                    match get_record_from_bytes(&data, slot) {
                        Some((_, bytes)) => {
                            let tuple = Tuple { data: bytes };
                            match tuple.to_values(&schema) {
                                Ok(vals) => {
                                    if vals.len() > 0 {
                                        match &vals[0] {
                                            Value::Integer(pk) => {
                                                let ctid = CTID { page_id, slot_idx: slot as u16 };
                                                let _ = fresh.insert(bpm, *pk, ctid);
                                            },
                                            _ => {},
                                        }
                                    }
                                },
                                Err(_) => {},
                            }
                        },
                        None => {},
                    }
                    slot += 1;
                }
                let _ = bpm.unpin_page(page_id, false);
            },
            Err(_) => {},
        }
        current_page = current_page + 1;
    }
    match fresh.get_root_page_id() {
        Some(root) => {
            let _ = catalog.update_root_page(table, Some(root.page_num));
        },
        None => {},
    }
    true
}

/// The page a table's replayed inserts go to.
pub struct TableCursor<const PAGE_SIZE: usize> {
    pub name: String,
    pub open: Option<OpenPage<PAGE_SIZE>>,
}

/// Cursor `k` is the first one kept for the table `name`.
pub open spec fn first_cursor<const PAGE_SIZE: usize>(cs: Seq<TableCursor<PAGE_SIZE>>, name: Seq<char>, k: int) -> bool {
    &&& 0 <= k < cs.len()
    &&& cs[k].name@ == name
    &&& forall|j: int| 0 <= j < k ==> (#[trigger] cs[j]).name@ != name
}

/// What slot `s` of cursor `k`'s open page holds; nothing when it has no open page.
pub open spec fn cursor_record<const PAGE_SIZE: usize>(cs: Seq<TableCursor<PAGE_SIZE>>, k: int, s: int) -> Option<
    (TupleHeader, Seq<u8>),
> {
    match cs[k].open {
        Some(o) => o.page.record_view(s),
        None => None,
    }
}

/// The heap page that the table's cursor has open holds `tup` as a live record.
pub open spec fn appended_for<const PAGE_SIZE: usize>(cs: Seq<TableCursor<PAGE_SIZE>>, name: Seq<char>, tup: Seq<u8>) -> bool {
    exists|k: int, s: int|
        first_cursor(cs, name, k) && #[trigger] cursor_record(cs, k, s) == Some(
            (TupleHeader { xmin: RECORD_XMIN, xmax: INVALID_TXN_ID }, tup),
        )
}

/// Slot `c` of the heap page that the table's cursor has open holds `tup` as a live record.
pub open spec fn held_at<const PAGE_SIZE: usize>(cs: Seq<TableCursor<PAGE_SIZE>>, name: Seq<char>, c: CTID, tup: Seq<u8>) -> bool {
    exists|j: int|
        #[trigger] first_cursor(cs, name, j) && (cs[j].open matches Some(o) && o.page_id == c.page_id) && cursor_record(
            cs,
            j,
            c.slot_idx as int,
        ) == Some((TupleHeader { xmin: RECORD_XMIN, xmax: INVALID_TXN_ID }, tup))
}

/// Every cursor's open page is well formed.
pub open spec fn cursors_ok<const PAGE_SIZE: usize>(cs: Seq<TableCursor<PAGE_SIZE>>) -> bool {
    forall|k: int| 0 <= k < cs.len() ==> open_page_ok(#[trigger] cs[k].open)
}

fn cursor_index<const PAGE_SIZE: usize>(cursors: &Vec<TableCursor<PAGE_SIZE>>, name: &String) -> (r: Option<usize>)
    ensures
        match r {
            Some(k) => k < cursors@.len() && cursors@[k as int].name@ == name@ && forall|j: int|
                0 <= j < k ==> (#[trigger] cursors@[j]).name@ != name@,
            None => forall|j: int| 0 <= j < cursors@.len() ==> (#[trigger] cursors@[j]).name@ != name@,
        },
{
    let nm = chars_of(name.as_str());
    let mut k: usize = 0;
    while k < cursors.len()
        invariant
            k <= cursors@.len(),
            nm@ == name@,
            forall|j: int| 0 <= j < k ==> (#[trigger] cursors@[j]).name@ != name@,
        decreases cursors@.len() - k,
    {
        if crate::text::chars_eq(chars_of(cursors[k].name.as_str()).as_slice(), nm.as_slice()) {
            return Some(k);
        }
        k += 1;
    }
    None
}

/// Opens, for each table with heap pages, its last page as the page replayed inserts go to.
pub fn open_table_cursors<const PAGE_SIZE: usize, D: DiskManager<PAGE_SIZE>, L: LogManager>(
    catalog: &Catalog,
    bpm: &mut BufferPoolManager<PAGE_SIZE, D, L>,
) -> (r: Vec<TableCursor<PAGE_SIZE>>)
    requires
        old(bpm).wf(),
    ensures
        final(bpm).wf(),
        cursors_ok(r@),
        r@.len() <= catalog.tables().len(),
        forall|k: int|
            0 <= k < r@.len() ==> exists|j: int|
                0 <= j < catalog.tables().len() && (#[trigger] r@[k]).name@ == catalog.tables()[j].name && (r@[k].open matches Some(
                    o,
                ) && o.page_id.file_id == catalog.tables()[j].heap_relation_id),
{
    let tables = catalog.list_tables();
    let mut cursors: Vec<TableCursor<PAGE_SIZE>> = Vec::new();
    let mut i: usize = 0;
    while i < tables.len()
        invariant
            i <= tables@.len(),
            bpm.wf(),
            cursors_ok(cursors@),
            cursors@.len() <= i,
            tables@.map_values(|t: TableMetadata| t@) == catalog.tables(),
            forall|k: int|
                0 <= k < cursors@.len() ==> exists|j: int|
                    0 <= j < catalog.tables().len() && (#[trigger] cursors@[k]).name@ == catalog.tables()[j].name && (
                    cursors@[k].open matches Some(o) && o.page_id.file_id == catalog.tables()[j].heap_relation_id),
        decreases tables@.len() - i,
    {
        let open = open_last_page(tables[i].heap_relation_id, bpm);
        if open.is_some() {
            let nm = String::from_str(tables[i].name.as_str());
            proof {
                assert(catalog.tables()[i as int] == tables@[i as int]@);
            }
            cursors.push(TableCursor { name: nm, open });
        }
        i += 1;
    }
    cursors
}

/// How many of the first `k` records are inserts or deletes: the records a replay can apply.
pub open spec fn change_count(records: Seq<Vec<u8>>, k: int) -> nat
    decreases k,
{
    if k <= 0 {
        0
    } else {
        change_count(records, k - 1) + if crate::wal::read_change(records[k - 1]@) matches Some((op, _, _)) && (op == OP_INSERT
            || op == OP_DELETE) {
            1nat
        } else {
            0nat
        }
    }
}

/// The first decoded value is an integer: the key a replayed tuple is indexed by.
pub open spec fn keyed(vals: Result<Seq<crate::value::ValueView>, crate::tuple::DecodeFault>) -> bool {
    vals matches Ok(vs) && vs.len() > 0 && vs[0] is Integer
}

/// The record is a well-formed insert of a keyed tuple into an existing table whose index is
/// still empty: nothing in the index can be found, so replaying it must apply it (or fail).
pub open spec fn replays_into_empty_index(rec: Seq<u8>, tables: Seq<TableView>) -> bool {
    &&& crate::wal::read_change(rec) matches Some((op, name, tup))
    &&& op == OP_INSERT
    &&& valid_utf8(name)
    &&& table_index(tables, decode_utf8(name)) matches Some(i)
    &&& tables[i].root_page_num is None
    &&& forall|cols: Seq<Column>| columns_view(cols) == tables[i].columns ==> #[trigger] keyed(crate::tuple::decode(tup, cols))
}

/// The record is a change of a named table that the catalog lacks.
pub open spec fn names_unknown_table(rec: Seq<u8>, tables: Seq<TableView>) -> bool {
    &&& crate::wal::read_change(rec) matches Some((op, name, tup))
    &&& valid_utf8(name)
    &&& table_index(tables, decode_utf8(name)) is None
}

/// The record is a change of a table the catalog holds, but its tuple does not decode to
/// values whose first one is an integer key.
pub open spec fn lacks_key(rec: Seq<u8>, tables: Seq<TableView>) -> bool {
    &&& crate::wal::read_change(rec) matches Some((op, name, tup))
    &&& valid_utf8(name)
    &&& table_index(tables, decode_utf8(name)) matches Some(i)
    &&& forall|cols: Seq<Column>| columns_view(cols) == tables[i].columns ==> !#[trigger] keyed(crate::tuple::decode(tup, cols))
}

/// The record is a change `op` of the table at position `i` of the catalog, and its tuple
/// decodes to values whose first one is the integer `key`.
pub open spec fn change_keyed(rec: Seq<u8>, tables: Seq<TableView>, op: u8, i: int, key: i32) -> bool {
    &&& crate::wal::read_change(rec) matches Some((o, name, tup))
    &&& o == op
    &&& valid_utf8(name)
    &&& table_index(tables, decode_utf8(name)) == Some(i)
    &&& forall|cols: Seq<Column>|
        columns_view(cols) == tables[i].columns ==> (#[trigger] crate::tuple::decode(tup, cols) matches Ok(vs) && vs.len()
            > 0 && vs[0] == crate::value::ValueView::Integer(key))
}

/// What the table's index maps `key` to in the pool; nothing while the index has no root.
pub open spec fn index_finds<const PAGE_SIZE: usize, D: DiskManager<PAGE_SIZE>, L: LogManager>(
    pool: BufferPoolManager<PAGE_SIZE, D, L>,
    t: TableView,
    key: i32,
) -> Option<CTID> {
    match t.root_page_num {
        Some(n) => crate::btree::tree_lookup(pool, PageId { file_id: t.index_relation_id, page_num: n }, key),
        None => None,
    }
}

/// A search of the table's index for `key` is answered from what the pool's pages hold: no
/// written page is lost, the disk and log do not fail, a frame can be had, and the leaf the
/// search reaches holds its keys in order.
pub open spec fn index_readable<const PAGE_SIZE: usize, D: DiskManager<PAGE_SIZE>, L: LogManager>(
    pool: BufferPoolManager<PAGE_SIZE, D, L>,
    t: TableView,
    key: i32,
) -> bool {
    &&& pool.no_lost_writes()
    &&& pool.io_reliable()
    &&& !pool.all_pinned()
    &&& t.root_page_num matches Some(n) ==> crate::btree::route(
        &pool,
        PageId { file_id: t.index_relation_id, page_num: n },
        key,
        crate::btree::route_fuel(),
    ) matches Some(l) && crate::btree::sorted(crate::btree::leaf_keys(pool.content(l)))
}

/// The heap page of `c`, where the pool holds it written to and well formed, has the record
/// at `c` (if the slot holds one) marked deleted.
pub open spec fn marked_in_pool<const PAGE_SIZE: usize, D: DiskManager<PAGE_SIZE>, L: LogManager>(
    pool: BufferPoolManager<PAGE_SIZE, D, L>,
    c: CTID,
) -> bool {
    pool.frame_of(c.page_id) matches Some(f) && pool.desc(f).is_dirty && crate::page::page_wf(
        pool.content(c.page_id),
        PAGE_SIZE as nat,
    ) ==> (record_of(pool.content(c.page_id), PAGE_SIZE as nat, c.slot_idx as int) matches Some((h, _)) ==> h.xmax
        == RECORD_XMAX)
}

/// Replays one log record: an insert whose key the index lacks is appended to the table's
/// heap and indexed; a delete whose key the index holds is removed from the index and marked
/// deleted in its heap page. Records that do not parse, name an unknown table, or whose tuple
/// has no integer key are skipped. Returns whether the record was applied.
pub fn replay_record<const PAGE_SIZE: usize, D: DiskManager<PAGE_SIZE>, L: LogManager>(
    rec: &Vec<u8>,
    catalog: &mut Catalog,
    bpm: &mut BufferPoolManager<PAGE_SIZE, D, L>,
    cursors: &mut Vec<TableCursor<PAGE_SIZE>>,
) -> (r: Result<bool, CommandError>)
    requires
        old(catalog).wf(),
        old(bpm).wf(),
        44 <= PAGE_SIZE,
        cursors_ok(old(cursors)@),
    ensures
        final(catalog).wf(),
        final(bpm).wf(),
        cursors_ok(final(cursors)@),
        final(catalog).next_id() == old(catalog).next_id(),
        crate::wal::read_change(rec@) is None ==> r == Ok::<bool, CommandError>(false),
        crate::wal::read_change(rec@) is None || names_unknown_table(rec@, old(catalog).tables()) || lacks_key(
            rec@,
            old(catalog).tables(),
        ) ==> r == Ok::<bool, CommandError>(false) && *final(catalog) == *old(catalog) && *final(bpm) == *old(bpm)
            && final(cursors)@ == old(cursors)@,
        r == Ok::<bool, CommandError>(true) ==> (crate::wal::read_change(rec@) matches Some((op, _, _)) && (op == OP_INSERT
            || op == OP_DELETE)),
        crate::wal::read_change(rec@) matches Some((op, _, _)) ==> (op != OP_INSERT && op != OP_DELETE ==> r
            == Ok::<bool, CommandError>(false)),
        !(r == Ok::<bool, CommandError>(true)) ==> final(catalog).tables() == old(catalog).tables() || r is Err,
        replays_into_empty_index(rec@, old(catalog).tables()) ==> r == Ok::<bool, CommandError>(true) || r is Err,
        r == Ok::<bool, CommandError>(true) ==> match crate::wal::read_change(rec@) {
            Some((op, name, tup)) => op == OP_INSERT && valid_utf8(name) && stored_tuple_fits(tup.len(), PAGE_SIZE as nat)
                ==> appended_for(final(cursors)@, decode_utf8(name), tup),
            None => true,
        },
        replays_into_empty_index(rec@, old(catalog).tables()) && r == Ok::<bool, CommandError>(true) ==> match crate::wal::read_change(
            rec@,
        ) {
            Some((op, name, tup)) => forall|i: int, k: i32|
                #[trigger] change_keyed(rec@, old(catalog).tables(), OP_INSERT, i, k) && stored_tuple_fits(
                    tup.len(),
                    PAGE_SIZE as nat,
                ) ==> (index_finds(*final(bpm), final(catalog).tables()[i], k) matches Some(c) && held_at(
                    final(cursors)@,
                    decode_utf8(name),
                    c,
                    tup,
                )),
            None => true,
        },
        forall|i: int, k: i32|
            #[trigger] change_keyed(rec@, old(catalog).tables(), OP_DELETE, i, k) && index_readable(
                *old(bpm),
                old(catalog).tables()[i],
                k,
            ) ==> match index_finds(*old(bpm), old(catalog).tables()[i], k) {
                None => r == Ok::<bool, CommandError>(false) && *final(catalog) == *old(catalog) && final(cursors)@
                    == old(cursors)@,
                Some(c) => (r == Ok::<bool, CommandError>(true) || r matches Err(CommandError::Catalog(_))) && (r
                    == Ok::<bool, CommandError>(true) ==> marked_in_pool(*final(bpm), c)),
            },
        forall|i: int, k: i32|
            #[trigger] change_keyed(rec@, old(catalog).tables(), OP_INSERT, i, k) && index_readable(
                *old(bpm),
                old(catalog).tables()[i],
                k,
            ) ==> match index_finds(*old(bpm), old(catalog).tables()[i], k) {
                Some(_) => r == Ok::<bool, CommandError>(false) && *final(catalog) == *old(catalog) && final(cursors)@
                    == old(cursors)@,
                None => r == Ok::<bool, CommandError>(true) || r is Err,
            },
{
    let (op, name_bytes, tuple_bytes) = match decode_change(rec) {
        Some(x) => x,
        None => {
            return Ok(false);
        },
    };
    let table = utf8_lossy(name_bytes.as_slice());
    let schema = match catalog.get_schema(table.as_str()) {
        Ok(s) => s,
        Err(_) => {
            return Ok(false);
        },
    };
    let meta = match catalog.get_table(table.as_str()) {
        Ok(m) => m,
        Err(_) => {
            return Ok(false);
        },
    };
    let tuple = Tuple { data: tuple_bytes };
    proof {
        if replays_into_empty_index(rec@, catalog.tables()) {
            assert(keyed(crate::tuple::decode(tuple.data@, schema.columns@)));
        }
    }
    let pk = match tuple.to_values(&schema) {
        Ok(vals) => {
            if vals.len() > 0 {
                match &vals[0] {
                    Value::Integer(k) => {
                        proof {
                            assert(crate::value::values_view(vals@)[0] is Integer);
                            assert(keyed(crate::tuple::decode(tuple.data@, schema.columns@)));
                            if lacks_key(rec@, old(catalog).tables()) {
                                assert(!keyed(crate::tuple::decode(tuple.data@, schema.columns@)));
                            }
                        }
                        *k
                    },
                    _ => {
                        return Ok(false);
                    },
                }
            } else {
                return Ok(false);
            }
        },
        Err(_) => {
            return Ok(false);
        },
    };
    assert(!lacks_key(rec@, old(catalog).tables()) && !names_unknown_table(rec@, old(catalog).tables()));
    let mut btree = index_of(&meta);
    if op == OP_INSERT {
        if btree.search(bpm, pk).is_ok() {
            return Ok(false);
        }
        let k = match cursor_index(cursors, &table) {
            Some(k) => k,
            None => {
                cursors.push(TableCursor { name: table.clone(), open: None });
                cursors.len() - 1
            },
        };
        let mut cursor = cursors.remove(k);
        let ghost rest = cursors@;
        assert(open_page_ok(cursor.open));
        let landed = append_to_heap(&tuple, meta.heap_relation_id, bpm, &mut cursor.open, false);
        let ghost placed = cursor;
        cursors.insert(k, cursor);
        let ctid = match landed {
            Ok(c) => c,
            Err(e) => {
                return Err(e);
            },
        };
        proof {
            assert(cursors@[k as int] == placed);
            assert(first_cursor(cursors@, table@, k as int));
            if stored_tuple_fits(tuple.data@.len(), PAGE_SIZE as nat) {
                assert(cursor_record(cursors@, k as int, ctid.slot_idx as int) == Some(
                    (TupleHeader { xmin: RECORD_XMIN, xmax: INVALID_TXN_ID }, tuple.data@),
                ));
                assert(appended_for(cursors@, table@, tuple.data@));
            }
        }
        match btree.insert(bpm, pk, ctid) {
            Ok(()) => {},
            Err(_) => {
                return Err(CommandError::Index(BTreeError::NodeFull));
            },
        }
        match btree.get_root_page_id() {
            Some(root) => match catalog.update_root_page(table.as_str(), Some(root.page_num)) {
                Ok(()) => {},
                Err(e) => {
                    return Err(CommandError::Catalog(e));
                },
            },
            None => {},
        }
        proof {
            if replays_into_empty_index(rec@, old(catalog).tables()) && stored_tuple_fits(tuple.data@.len(), PAGE_SIZE as nat) {
                let root = btree.root()->0;
                assert forall|i: int, kk: i32| #[trigger]
                    change_keyed(rec@, old(catalog).tables(), OP_INSERT, i, kk) implies (index_finds(
                    *bpm,
                    catalog.tables()[i],
                    kk,
                ) matches Some(c) && held_at(cursors@, table@, c, tuple.data@)) by {
                    assert(crate::tuple::decode(tuple.data@, schema.columns@) matches Ok(vs) && vs.len() > 0 && vs[0]
                        == crate::value::ValueView::Integer(kk));
                    assert(kk == pk);
                    assert(catalog.tables()[i].root_page_num == Some(root.page_num));
                    assert(catalog.tables()[i].index_relation_id == meta.index_relation_id);
                    assert(index_finds(*bpm, catalog.tables()[i], kk) == Some(ctid));
                    assert(first_cursor(cursors@, table@, k as int));
                }
            }
        }
        Ok(true)
    } else if op == OP_DELETE {
        let ctid = match btree.search(bpm, pk) {
            Ok(c) => c,
            Err(_) => {
                return Ok(false);
            },
        };
        let _ = Index::delete(&mut btree, bpm, pk);
        match btree.get_root_page_id() {
            Some(root) => match catalog.update_root_page(table.as_str(), Some(root.page_num)) {
                Ok(()) => {},
                Err(e) => {
                    return Err(CommandError::Catalog(e));
                },
            },
            None => {},
        }
        match bpm.fetch_page(ctid.page_id) {
            Ok(fid) => {
                proof {
                    bpm.lemma_page_size();
                }
                let mut page = SlottedPage::<PAGE_SIZE> { data: bpm.read_page(fid).data.clone() };
                let ghost fetched = *bpm;
                if page.check_wf() {
                    let ghost before = page;
                    let marked = page.mark_deleted(ctid.slot_idx as usize, RECORD_XMAX);
                    proof {
                        if !marked {
                            assert(record_of(page.data@, PAGE_SIZE as nat, ctid.slot_idx as int) is None);
                        }
                    }
                    if fid < bpm.pool_size() {
                        bpm.write_page(fid, page);
                    }
                    assert(bpm.content(ctid.page_id) == page.data@);
                } else {
                    proof {
                        bpm.lemma_content_in_pool(ctid.page_id);
                    }
                    assert(bpm.content(ctid.page_id) == page.data@);
                }
                let ghost written = *bpm;
                let _ = bpm.unpin_page(ctid.page_id, true);
                proof {
                    assert(bpm.content(ctid.page_id) == written.content(ctid.page_id));
                    assert(bpm.frame_of(ctid.page_id) == Some(fid as int));
                }
            },
            Err(_) => {},
        }
        Ok(true)
    } else {
        Ok(false)
    }
}

/// Replays log records in order and then unpins the pages inserts went to. Returns how many
/// records were applied.
pub fn recover_from_log<const PAGE_SIZE: usize, D: DiskManager<PAGE_SIZE>, L: LogManager>(
    records: &Vec<Vec<u8>>,
    catalog: &mut Catalog,
    bpm: &mut BufferPoolManager<PAGE_SIZE, D, L>,
) -> (r: Result<u64, CommandError>)
    requires
        old(catalog).wf(),
        old(bpm).wf(),
        44 <= PAGE_SIZE,
    ensures
        final(catalog).wf(),
        final(bpm).wf(),
        final(catalog).next_id() == old(catalog).next_id(),
        r matches Ok(n) ==> n <= records@.len() && n <= change_count(records@, records@.len() as int),
        records@.len() > 0 && replays_into_empty_index(records@[0]@, old(catalog).tables()) ==> (r is Err || (r matches Ok(n)
            && n >= 1)),
        records@.len() == 0 ==> r == Ok::<u64, CommandError>(0),
        (forall|k: int| 0 <= k < records@.len() ==> (#[trigger] crate::wal::read_change(records@[k]@)) is None) ==> r
            == Ok::<u64, CommandError>(0),
{
    let mut cursors = open_table_cursors(catalog, bpm);
    let mut replayed: u64 = 0;
    let mut i: usize = 0;
    while i < records.len()
        invariant
            i <= records@.len(),
            replayed <= i,
            replayed <= change_count(records@, i as int),
            i > 0 && replays_into_empty_index(records@[0]@, old(catalog).tables()) ==> replayed >= 1,
            i == 0 ==> catalog.tables() == old(catalog).tables(),
            catalog.wf(),
            bpm.wf(),
            44 <= PAGE_SIZE,
            cursors_ok(cursors@),
            catalog.next_id() == old(catalog).next_id(),
            (forall|k: int| 0 <= k < records@.len() ==> (#[trigger] crate::wal::read_change(records@[k]@)) is None) ==> replayed
                == 0,
        decreases records@.len() - i,
    {
        match replay_record(&records[i], catalog, bpm, &mut cursors) {
            Ok(true) => {
                replayed = replayed + 1;
            },
            Ok(false) => {},
            Err(e) => {
                return Err(e);
            },
        }
        i += 1;
    }
    let mut k: usize = 0;
    while k < cursors.len()
        invariant
            k <= cursors@.len(),
            bpm.wf(),
        decreases cursors@.len() - k,
    {
        match &cursors[k].open {
            Some(o) => {
                let _ = bpm.unpin_page(o.page_id, true);
            },
            None => {},
        }
        k += 1;
    }
    Ok(replayed)
}

} // verus!
