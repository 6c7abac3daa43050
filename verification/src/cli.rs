//! The command layer's own logic: turning statement text into values and tuples, naming
//! column types, and assembling operator pipelines for a SELECT.
use crate::btree::BTreeIndex;
use crate::buffer::{BufferError, BufferPoolManager, LogManager};
use crate::catalog::{Catalog, CatalogError, TableView};
use crate::dtos::{decimal, push_decimal};
use crate::predicate::{col_position, evaluate_where_clause, find_column, values_cover, where_holds};
use crate::query::{column_position, encode_values, encoded, ExecutionContext, Executor, NestedLoopJoin, Project, QueryError, Select};
use crate::scan::{Optimizer, ScanPlan};
use crate::sort::ExternalMergeSort;
use crate::sql::{Ast, JoinClause, Operator, WhereCondition};
use crate::storage::{DiskManager, PageId};
use crate::tuple::{decode, lemma_decode_len};
use crate::schema::{columns_view, Column, ColumnView, Schema};
use crate::text::{chars_of, concat, parse_bool, parse_bool_chars, parse_i32, parse_i32_chars, string_of};
use crate::tuple::Tuple;
use crate::value::{values_view, DataType, Value, ValueView};
use vstd::prelude::*;
use vstd::string::*;

verus! {

broadcast use vstd::seq_lib::group_seq_properties;

/// A statement value that does not parse as its column's type.
#[derive(Debug)]
pub enum ValueParseError {
    /// The text is not a 32-bit integer.
    InvalidInteger(String),
    /// The text is not `true` or `false`.
    InvalidBoolean(String),
}

/// The value a text gives in a column of the given type, if it parses.
pub open spec fn parse_cell(text: Seq<char>, dt: DataType) -> Option<ValueView> {
    match dt {
        DataType::Integer => match parse_i32(text) {
            Some(v) => Some(ValueView::Integer(v)),
            None => None,
        },
        DataType::Boolean => match parse_bool(text) {
            Some(b) => Some(ValueView::Boolean(b)),
            None => None,
        },
        DataType::Varchar => Some(ValueView::Varchar(text)),
    }
}

/// The error for a text that does not parse in a column of the given type.
pub open spec fn cell_error(e: ValueParseError, text: Seq<char>, dt: DataType) -> bool {
    match dt {
        DataType::Integer => e matches ValueParseError::InvalidInteger(t) && t@ == text,
        DataType::Boolean => e matches ValueParseError::InvalidBoolean(t) && t@ == text,
        DataType::Varchar => false,
    }
}

/// Parses statement values against a schema, pairing them with the columns in order (the
/// shorter of the two decides how many values there are).
pub fn parse_values(values: &[String], schema: &Schema) -> (r: Result<Vec<Value>, ValueParseError>)
    ensures
        ({
            let n = if values@.len() < schema.columns@.len() { values@.len() } else { schema.columns@.len() };
            &&& (r is Ok <==> forall|k: int| 0 <= k < n ==> (#[trigger] parse_cell(values@[k]@, schema.columns@[k].data_type)) is Some)
            &&& (r matches Ok(vs) ==> values_view(vs@) == Seq::new(n, |k: int| parse_cell(values@[k]@, schema.columns@[k].data_type)->0))
            &&& (r matches Err(e) ==> exists|k: int| {
                &&& 0 <= k < n
                &&& (forall|j: int| 0 <= j < k ==> (#[trigger] parse_cell(values@[j]@, schema.columns@[j].data_type)) is Some)
                &&& parse_cell(values@[k]@, schema.columns@[k].data_type) is None
                &&& cell_error(e, values@[k]@, schema.columns@[k].data_type)
            })
        }),
{
    let n = if values.len() < schema.columns.len() { values.len() } else { schema.columns.len() };
    let ghost cols = schema.columns@;
    let mut out: Vec<Value> = Vec::new();
    let mut k: usize = 0;
    while k < n
        invariant
            k <= n,
            n <= values@.len(),
            n <= cols.len(),
            cols == schema.columns@,
            out@.len() == k,
            forall|j: int| 0 <= j < k ==> (#[trigger] parse_cell(values@[j]@, cols[j].data_type)) is Some,
            forall|j: int| 0 <= j < k ==> (#[trigger] out@[j])@ == parse_cell(values@[j]@, cols[j].data_type)->0,
        decreases n - k,
    {
        let text = &values[k];
        let cs = chars_of(text.as_str());
        let v = match schema.columns[k].data_type {
            DataType::Integer => match parse_i32_chars(cs.as_slice()) {
                Some(i) => Value::Integer(i),
                None => {
                    let e = ValueParseError::InvalidInteger(text.clone());
                    proof {
                        assert(parse_cell(values@[k as int]@, cols[k as int].data_type) is None);
                        assert(cell_error(e, values@[k as int]@, cols[k as int].data_type));
                    }
                    return Err(e);
                },
            },
            DataType::Boolean => match parse_bool_chars(cs.as_slice()) {
                Some(b) => Value::Boolean(b),
                None => {
                    let e = ValueParseError::InvalidBoolean(text.clone());
                    proof {
                        assert(parse_cell(values@[k as int]@, cols[k as int].data_type) is None);
                        assert(cell_error(e, values@[k as int]@, cols[k as int].data_type));
                    }
                    return Err(e);
                },
            },
            DataType::Varchar => Value::Varchar(text.clone()),
        };
        out.push(v);
        k += 1;
    }
    proof {
        assert(values_view(out@) =~= Seq::new(n as nat, |k: int| parse_cell(values@[k]@, cols[k].data_type)->0));
    }
    Ok(out)
}

/// An integer in decimal, with a leading `-` when negative.
pub open spec fn int_decimal(i: int) -> Seq<char> {
    if i < 0 {
        seq!['-'] + decimal((-i) as nat)
    } else {
        decimal(i as nat)
    }
}

pub(crate) fn int_text(i: i32) -> (r: Vec<char>)
    ensures
        r@ == int_decimal(i as int),
{
    let mut out: Vec<char> = Vec::new();
    if i < 0 {
        out.push('-');
        let a: i64 = -(i as i64);
        push_decimal(a as u64, &mut out);
    } else {
        push_decimal(i as u64, &mut out);
    }
    out
}

/// The values of demo row `i`: the id, whether it is a multiple of five (the admin flag), the
/// user name `user_<i>` and the status `active`.
pub open spec fn demo_values(i: i32) -> Seq<ValueView> {
    seq![
        ValueView::Integer(i),
        ValueView::Boolean((i as int) % 5 == 0),
        ValueView::Varchar("user_"@ + int_decimal(i as int)),
        ValueView::Varchar("active"@),
    ]
}

/// The tuple of demo row `i`, encoded against `schema`.
pub fn build_demo_tuple(i: i32, schema: &Schema) -> (r: Result<Tuple, QueryError>)
    ensures
        encoded(schema.columns@, demo_values(i), r),
{
    let a: u64 = if i < 0 { (-(i as i64)) as u64 } else { i as u64 };
    let admin = a % 5 == 0;
    assert(admin == ((i as int) % 5 == 0)) by (nonlinear_arith)
        requires
            a == (if i < 0 { -(i as int) } else { i as int }),
            admin == (a % 5 == 0),
    {
    }
    proof {
        reveal_strlit("user_");
        reveal_strlit("active");
    }
    let prefix = chars_of("user_");
    let digits = int_text(i);
    let username = string_of(concat(prefix.as_slice(), digits.as_slice()).as_slice());
    let mut vals: Vec<Value> = Vec::new();
    vals.push(Value::Integer(i));
    vals.push(Value::Boolean(admin));
    vals.push(Value::Varchar(username));
    vals.push(Value::Varchar(String::from_str("active")));
    proof {
        assert(values_view(vals@) =~= demo_values(i));
    }
    encode_values(schema, &vals)
}

/// The column type a type name in CREATE TABLE stands for, compared without regard to case:
/// INTEGER or INT, BOOLEAN or BOOL, and anything else (VARCHAR, TEXT, STRING included) is
/// text.
pub open spec fn type_for_name(upper_name: Seq<char>) -> DataType {
    if upper_name == "INTEGER"@ || upper_name == "INT"@ {
        DataType::Integer
    } else if upper_name == "BOOLEAN"@ || upper_name == "BOOL"@ {
        DataType::Boolean
    } else {
        DataType::Varchar
    }
}

/// The column type of a CREATE TABLE type name.
pub fn column_type(ty: &str) -> (r: DataType)
    ensures
        r == type_for_name(crate::text::upper_seq(ty@)),
{
    let up = crate::text::uppercase(chars_of(ty).as_slice());
    proof {
        reveal_strlit("INTEGER");
        reveal_strlit("INT");
        reveal_strlit("BOOLEAN");
        reveal_strlit("BOOL");
    }
    let int_long = chars_of("INTEGER");
    let int_short = chars_of("INT");
    let bool_long = chars_of("BOOLEAN");
    let bool_short = chars_of("BOOL");
    if crate::text::chars_eq(up.as_slice(), int_long.as_slice()) || crate::text::chars_eq(up.as_slice(), int_short.as_slice()) {
        DataType::Integer
    } else if crate::text::chars_eq(up.as_slice(), bool_long.as_slice()) || crate::text::chars_eq(
        up.as_slice(),
        bool_short.as_slice(),
    ) {
        DataType::Boolean
    } else {
        DataType::Varchar
    }
}

/// The columns of a projection: all input columns for `*` alone, else, for each requested
/// name that the input has, its first column of that name, in the order requested.
pub open spec fn projection_columns(names: Seq<Seq<char>>, cols: Seq<Column>) -> Seq<ColumnView>
    decreases names.len(),
{
    if names.len() == 0 {
        Seq::empty()
    } else {
        let prev = projection_columns(names.drop_last(), cols);
        match crate::predicate::col_position(cols, names.last()) {
            Some(k) => prev.push(cols[k]@),
            None => prev,
        }
    }
}

/// The names a statement lists, as text.
pub open spec fn names_of(columns: Seq<String>) -> Seq<Seq<char>> {
    columns.map_values(|c: String| c@)
}

/// The list is `*` alone.
pub open spec fn is_star(columns: Seq<String>) -> bool {
    columns.len() == 1 && columns[0]@ == "*"@
}

fn star(columns: &[String]) -> (r: bool)
    ensures
        r == is_star(columns@),
{
    proof {
        reveal_strlit("*");
    }
    if columns.len() != 1 {
        return false;
    }
    let star = chars_of("*");
    crate::text::chars_eq(chars_of(columns[0].as_str()).as_slice(), star.as_slice())
}

/// The schema a SELECT outputs for the listed columns.
pub fn build_projection_schema(columns: &[String], input_schema: &Schema) -> (r: Schema)
    ensures
        columns_view(r.columns@) == if is_star(columns@) {
            columns_view(input_schema.columns@)
        } else {
            projection_columns(names_of(columns@), input_schema.columns@)
        },
{
    if star(columns) {
        return input_schema.duplicate();
    }
    let ghost cols = input_schema.columns@;
    let mut out: Vec<Column> = Vec::new();
    let mut i: usize = 0;
    while i < columns.len()
        invariant
            i <= columns@.len(),
            cols == input_schema.columns@,
            columns_view(out@) == projection_columns(names_of(columns@).take(i as int), cols),
        decreases columns@.len() - i,
    {
        proof {
            assert(names_of(columns@).take(i + 1).drop_last() =~= names_of(columns@).take(i as int));
            assert(names_of(columns@).take(i + 1).last() == columns@[i as int]@);
            crate::predicate::lemma_col_position(cols, columns@[i as int]@);
        }
        match crate::predicate::find_column(input_schema, &columns[i]) {
            Some(k) => {
                out.push(input_schema.columns[k].duplicate());
                proof {
                    assert(columns_view(out@) =~= projection_columns(names_of(columns@).take(i + 1), cols));
                }
            },
            None => {
                proof {
                    assert(columns_view(out@) =~= projection_columns(names_of(columns@).take(i + 1), cols));
                }
            },
        }
        i += 1;
    }
    proof {
        assert(names_of(columns@).take(i as int) =~= names_of(columns@));
    }
    Schema::new(out)
}

/// Why a command failed.
#[derive(Debug)]
pub enum CommandError {
    /// A failure described by a message.
    Message(String),
    /// The catalog failed.
    Catalog(CatalogError),
    /// The buffer pool failed.
    Buffer(BufferError),
    /// Query execution failed.
    Query(QueryError),
    /// A statement value did not parse.
    Value(ValueParseError),
    /// The index failed.
    Index(crate::btree_node::BTreeError),
}

/// Appends text to a string.
pub fn push_text(out: &mut String, s: &str)
    ensures
        final(out)@ == old(out)@ + s@,
{
    let a = chars_of(out.as_str());
    let b = chars_of(s);
    *out = string_of(concat(a.as_slice(), b.as_slice()).as_slice());
}

fn message(parts: &[&str]) -> (r: CommandError)
    ensures
        r matches CommandError::Message(m) && m@ == parts@.fold_left(Seq::<char>::empty(), |acc: Seq<char>, p: &str| acc + p@),
{
    let mut out = String::new();
    let mut i: usize = 0;
    while i < parts.len()
        invariant
            i <= parts@.len(),
            out@ == parts@.take(i as int).fold_left(Seq::<char>::empty(), |acc: Seq<char>, p: &str| acc + p@),
        decreases parts@.len() - i,
    {
        push_text(&mut out, parts[i]);
        proof {
            assert(parts@.take(i + 1).drop_last() =~= parts@.take(i as int));
        }
        i += 1;
    }
    proof {
        assert(parts@.take(i as int) =~= parts@);
    }
    CommandError::Message(out)
}

/// The message for an ORDER BY column the output does not have.
pub open spec fn order_by_missing(col: Seq<char>) -> Seq<char> {
    "ORDER BY column '"@ + col + "' not found in output schema"@
}

/// What a sort adds to the plan description.
pub open spec fn sort_step(col: Seq<char>) -> Seq<char> {
    " -> ExternalMergeSort(col: "@ + col + ")"@
}

/// Sorts a pipeline's output on the named column.
pub fn build_sort_pipeline<C: ExecutionContext + 'static, E: Executor<C> + 'static>(
    pipeline: E,
    order_col: &str,
    sort_chunk_size: usize,
    plan: &mut String,
) -> (r: Result<Box<dyn Executor<C>>, CommandError>)
    ensures
        match col_position(pipeline.out_schema().columns@, order_col@) {
            None => (r matches Err(CommandError::Message(m)) && m@ == order_by_missing(order_col@))
                && final(plan)@ == old(plan)@,
            Some(_) => r matches Ok(p) && p.out_schema() == pipeline.out_schema() && (pipeline.inv() ==> p.inv())
                && final(plan)@ == old(plan)@ + sort_step(order_col@),
        },
{
    let name = String::from_str(order_col);
    let sort_idx = match column_position(pipeline.schema(), &name) {
        Some(i) => i,
        None => {
            proof {
                reveal_strlit("ORDER BY column '");
                reveal_strlit("' not found in output schema");
            }
            let e = message(&["ORDER BY column '", order_col, "' not found in output schema"]);
            proof {
                assert(seq!["ORDER BY column '", order_col, "' not found in output schema"].fold_left(Seq::<char>::empty(), |acc: Seq<char>, p: &str| acc + p@) =~= order_by_missing(order_col@)) by {
                    reveal_with_fuel(Seq::fold_left, 4);
                }
            }
            return Err(e);
        },
    };
    push_text(plan, " -> ExternalMergeSort(col: ");
    push_text(plan, order_col);
    push_text(plan, ")");
    proof {
        reveal_strlit(" -> ExternalMergeSort(col: ");
        reveal_strlit(")");
    }
    let exec = ExternalMergeSort::new(pipeline, sort_idx, sort_chunk_size);
    Ok(Box::new(exec))
}

/// A row's bytes decode under the columns and the values satisfy the conditions.
pub open spec fn row_satisfies(conds: Seq<WhereCondition>, data: Seq<u8>, cols: Seq<Column>) -> bool {
    match decode(data, cols) {
        Ok(vals) => where_holds(conds, cols, vals),
        Err(_) => false,
    }
}

/// Whether a tuple satisfies WHERE conditions under a schema; a tuple that does not decode
/// satisfies none.
pub fn row_matches(conds: &[WhereCondition], t: &Tuple, s: &Schema) -> (r: bool)
    ensures
        r == row_satisfies(conds@, t.data@, s.columns@),
{
    match t.to_values(s) {
        Ok(vals) => {
            proof {
                lemma_decode_len(t.data@, s.columns@);
                assert forall|i: int| 0 <= i < conds@.len() implies (#[trigger] col_position(s.columns@, conds@[i].left_col@)) matches Some(k) ==> k < vals@.len() by {
                    crate::predicate::lemma_col_position(s.columns@, conds@[i].left_col@);
                }
            }
            evaluate_where_clause(conds, s, vals.as_slice())
        },
        Err(_) => false,
    }
}

/// Filters a pipeline by WHERE conditions.
pub fn build_filter_pipeline<C: ExecutionContext + 'static, E: Executor<C> + 'static>(
    pipeline: E,
    where_clause: Vec<WhereCondition>,
    plan: &mut String,
) -> (r: Result<Box<dyn Executor<C>>, CommandError>)
    ensures
        r matches Ok(p) && p.out_schema() == pipeline.out_schema() && (pipeline.inv() ==> p.inv()),
        final(plan)@ == old(plan)@ + " -> Filter"@,
{
    push_text(plan, " -> Filter");
    let conds = where_clause;
    let pred = move |t: &Tuple, s: &Schema| -> (b: bool)
        ensures
            b == row_satisfies(conds@, t.data@, s.columns@),
        { row_matches(conds.as_slice(), t, s) };
    let exec = Select::new(pipeline, pred);
    Ok(Box::new(exec))
}

/// The positions, in the input columns, of the requested names the input has, in the order
/// requested.
pub open spec fn projection_positions(names: Seq<Seq<char>>, cols: Seq<Column>) -> Seq<usize>
    decreases names.len(),
{
    if names.len() == 0 {
        Seq::empty()
    } else {
        let prev = projection_positions(names.drop_last(), cols);
        match col_position(cols, names.last()) {
            Some(k) => prev.push(k as usize),
            None => prev,
        }
    }
}

/// Projects a pipeline onto the named columns.
pub fn build_projection_pipeline<C: ExecutionContext + 'static, E: Executor<C> + 'static>(
    pipeline: E,
    columns: &[String],
    output_schema: &Schema,
    plan: &mut String,
) -> (r: Result<Box<dyn Executor<C>>, CommandError>)
    ensures
        r matches Ok(p) && columns_view(p.out_schema().columns@) == columns_view(output_schema.columns@)
            && (pipeline.inv() ==> p.inv()),
        final(plan)@ == old(plan)@ + " -> Project"@,
{
    let ghost cols = pipeline.out_schema().columns@;
    let mut p_idx: Vec<usize> = Vec::new();
    let mut i: usize = 0;
    while i < columns.len()
        invariant
            i <= columns@.len(),
            cols == pipeline.out_schema().columns@,
            p_idx@ == projection_positions(names_of(columns@).take(i as int), cols),
        decreases columns@.len() - i,
    {
        proof {
            assert(names_of(columns@).take(i + 1).drop_last() =~= names_of(columns@).take(i as int));
            assert(names_of(columns@).take(i + 1).last() == columns@[i as int]@);
        }
        match column_position(pipeline.schema(), &columns[i]) {
            Some(idx) => {
                p_idx.push(idx);
            },
            None => {},
        }
        i += 1;
    }
    push_text(plan, " -> Project");
    let exec = Project::new(pipeline, output_schema.duplicate(), p_idx);
    Ok(Box::new(exec))
}

/// The key an index lookup can serve: a single condition `id = <integer>`.
pub open spec fn index_key(conds: Seq<WhereCondition>) -> Option<i32> {
    if conds.len() == 1 && conds[0].left_col@ == "id"@ && conds[0].operator == Operator::Eq {
        parse_i32(conds[0].right_val@)
    } else {
        None
    }
}

/// The key of an index lookup for the WHERE conditions, if they allow one.
pub fn index_lookup_key(where_clause: &[WhereCondition]) -> (r: Option<i32>)
    ensures
        r == index_key(where_clause@),
{
    proof {
        reveal_strlit("id");
    }
    if where_clause.len() != 1 {
        return None;
    }
    let cond = &where_clause[0];
    let id = chars_of("id");
    if !crate::text::chars_eq(chars_of(cond.left_col.as_str()).as_slice(), id.as_slice()) {
        return None;
    }
    match cond.operator {
        Operator::Eq => parse_i32_chars(chars_of(cond.right_val.as_str()).as_slice()),
        _ => None,
    }
}

/// The last page of a file with the given number of pages (page 0 for an empty file).
pub open spec fn last_page_of(total: u32) -> u32 {
    if total > 0 {
        (total - 1) as u32
    } else {
        0
    }
}

/// The scan a SELECT starts from: an index lookup when the table has an index and the WHERE
/// conditions are a single `id = <integer>`, else a sequential scan of the heap file.
pub fn build_base_pipeline<const PAGE_SIZE: usize, D: DiskManager<PAGE_SIZE> + 'static, L: LogManager + 'static>(
    table: &str,
    where_clause: &[WhereCondition],
    catalog: &Catalog,
    bpm: &mut BufferPoolManager<PAGE_SIZE, D, L>,
    plan: &mut String,
) -> (r: Result<Box<dyn Executor<BufferPoolManager<PAGE_SIZE, D, L>>>, CommandError>)
    requires
        catalog.wf(),
        old(bpm).wf(),
        44 <= PAGE_SIZE,
    ensures
        final(bpm).wf(),
        match r {
            Ok(p) => p.inv(),
            Err(_) => true,
        },
        crate::catalog::table_index(catalog.tables(), table@) is None ==> (r matches Err(CommandError::Catalog(CatalogError::TableNotFound(n))) && n@ == table@),
        r matches Ok(p) ==> crate::catalog::table_index(catalog.tables(), table@) matches Some(i)
            && columns_view(p.out_schema().columns@) == catalog.tables()[i].columns
            && final(plan)@ == old(plan)@ + (if catalog.tables()[i].root_page_num is Some && index_key(where_clause@) is Some {
                "IndexScan("@
            } else {
                "SeqScan("@
            }) + table@ + ")"@,
{
    let meta = match catalog.get_table(table) {
        Ok(m) => m,
        Err(e) => {
            return Err(CommandError::Catalog(e));
        },
    };
    let schema = match catalog.get_schema(table) {
        Ok(s) => s,
        Err(_) => {
            return Err(CommandError::Message(String::from_str("Schema not found")));
        },
    };
    let index_opt: Option<(BTreeIndex, i32)> = match meta.root_page_num {
        Some(rpn) => {
            let index = BTreeIndex::new(Some(PageId { file_id: meta.index_relation_id, page_num: rpn }), meta.index_relation_id);
            match index_lookup_key(where_clause) {
                Some(v) => Some((index, v)),
                None => None,
            }
        },
        None => None,
    };
    let total_pages = match bpm.get_total_pages(meta.heap_relation_id) {
        Ok(n) => n,
        Err(e) => {
            return Err(CommandError::Buffer(e));
        },
    };
    let max_pages = if total_pages > 0 { total_pages - 1 } else { 0 };
    proof {
        reveal_strlit("IndexScan(");
        reveal_strlit("SeqScan(");
        reveal_strlit(")");
    }
    let scan = match &index_opt {
        Some((index, key)) => {
            push_text(plan, "IndexScan(");
            push_text(plan, table);
            push_text(plan, ")");
            Optimizer::optimize(bpm, meta.heap_relation_id, schema, max_pages, Some((index, *key, *key)))
        },
        None => {
            push_text(plan, "SeqScan(");
            push_text(plan, table);
            push_text(plan, ")");
            Optimizer::optimize(bpm, meta.heap_relation_id, schema, max_pages, None)
        },
    };
    match scan {
        Ok(p) => Ok(Box::new(p)),
        Err(e) => Err(CommandError::Query(e)),
    }
}

/// Values that a join on equal columns pairs: both of one kind and equal; NULL pairs with
/// nothing.
pub open spec fn join_values_equal(a: ValueView, b: ValueView) -> bool {
    match (a, b) {
        (ValueView::Integer(x), ValueView::Integer(y)) => x == y,
        (ValueView::Varchar(x), ValueView::Varchar(y)) => x == y,
        (ValueView::Boolean(x), ValueView::Boolean(y)) => x == y,
        _ => false,
    }
}

/// Two rows agree on the named columns: both decode, both have the column, and the values
/// pair.
pub open spec fn columns_equal(
    left_col: Seq<char>,
    right_col: Seq<char>,
    ldata: Seq<u8>,
    lcols: Seq<Column>,
    rdata: Seq<u8>,
    rcols: Seq<Column>,
) -> bool {
    match (decode(ldata, lcols), decode(rdata, rcols), col_position(lcols, left_col), col_position(rcols, right_col)) {
        (Ok(lv), Ok(rv), Some(i), Some(j)) => join_values_equal(lv[i], rv[j]),
        _ => false,
    }
}

/// A join on equal columns pairs two decoded rows exactly when the two column values are the
/// same value and not NULL: equal text pairs only when every character (case included) is
/// the same, and values of different kinds never pair.
pub proof fn lemma_join_pairs_equal_values(
    left_col: Seq<char>,
    right_col: Seq<char>,
    ldata: Seq<u8>,
    lcols: Seq<Column>,
    rdata: Seq<u8>,
    rcols: Seq<Column>,
    lv: Seq<ValueView>,
    rv: Seq<ValueView>,
    i: int,
    j: int,
)
    requires
        decode(ldata, lcols) == Ok::<Seq<ValueView>, crate::tuple::DecodeFault>(lv),
        decode(rdata, rcols) == Ok::<Seq<ValueView>, crate::tuple::DecodeFault>(rv),
        col_position(lcols, left_col) == Some(i),
        col_position(rcols, right_col) == Some(j),
    ensures
        columns_equal(left_col, right_col, ldata, lcols, rdata, rcols) <==> (lv[i] == rv[j] && lv[i] != ValueView::Null),
        forall|x: Seq<char>, y: Seq<char>|
            lv[i] == ValueView::Varchar(x) && rv[j] == ValueView::Varchar(y) ==> (columns_equal(
                left_col,
                right_col,
                ldata,
                lcols,
                rdata,
                rcols,
            ) <==> x =~= y),
{
}

/// Whether a left and a right tuple agree on the named join columns.
pub fn columns_match(left_col: &String, right_col: &String, lt: &Tuple, ls: &Schema, rt: &Tuple, rs: &Schema) -> (r: bool)
    ensures
        r == columns_equal(left_col@, right_col@, lt.data@, ls.columns@, rt.data@, rs.columns@),
{
    let l_vals = match lt.to_values(ls) {
        Ok(v) => v,
        Err(_) => {
            return false;
        },
    };
    let r_vals = match rt.to_values(rs) {
        Ok(v) => v,
        Err(_) => {
            return false;
        },
    };
    let l_idx = match find_column(ls, left_col) {
        Some(i) => i,
        None => {
            return false;
        },
    };
    let r_idx = match find_column(rs, right_col) {
        Some(i) => i,
        None => {
            return false;
        },
    };
    proof {
        lemma_decode_len(lt.data@, ls.columns@);
        lemma_decode_len(rt.data@, rs.columns@);
        crate::predicate::lemma_col_position(ls.columns@, left_col@);
        crate::predicate::lemma_col_position(rs.columns@, right_col@);
    }
    match (&l_vals[l_idx], &r_vals[r_idx]) {
        (Value::Integer(a), Value::Integer(b)) => *a == *b,
        (Value::Varchar(a), Value::Varchar(b)) => crate::text::chars_eq(chars_of(a.as_str()).as_slice(), chars_of(b.as_str()).as_slice()),
        (Value::Boolean(a), Value::Boolean(b)) => *a == *b,
        _ => false,
    }
}

/// What the joins add to the plan description, one step per JOIN clause.
pub open spec fn join_steps(joins: Seq<JoinClause>) -> Seq<char>
    decreases joins.len(),
{
    if joins.len() == 0 {
        Seq::empty()
    } else {
        join_steps(joins.drop_last()) + " -> NestedLoopJoin("@ + joins.last().table@ + ")"@
    }
}

/// Every joined table is in the catalog.
pub open spec fn joins_known(tables: Seq<TableView>, joins: Seq<JoinClause>) -> bool {
    forall|k: int| 0 <= k < joins.len() ==> (#[trigger] crate::catalog::table_index(tables, joins[k].table@)) is Some
}

/// Joins a pipeline, one JOIN clause after another, with sequential scans of the joined
/// tables, pairing rows whose named columns agree.
pub fn build_join_pipeline<
    const PAGE_SIZE: usize,
    D: DiskManager<PAGE_SIZE> + 'static,
    L: LogManager + 'static,
    E: Executor<BufferPoolManager<PAGE_SIZE, D, L>> + 'static,
>(
    left_pipeline: E,
    joins: &[JoinClause],
    catalog: &Catalog,
    bpm: &mut BufferPoolManager<PAGE_SIZE, D, L>,
    plan: &mut String,
) -> (r: Result<Box<dyn Executor<BufferPoolManager<PAGE_SIZE, D, L>>>, CommandError>)
    requires
        catalog.wf(),
        old(bpm).wf(),
    ensures
        final(bpm).wf(),
        r is Ok ==> final(plan)@ == old(plan)@ + join_steps(joins@),
        !joins_known(catalog.tables(), joins@) ==> r is Err,
        joins@.len() == 0 ==> r is Ok && final(plan)@ == old(plan)@,
        joins_known(catalog.tables(), joins@) ==> r is Ok || r matches Err(CommandError::Buffer(BufferError::PageNotFound)),
        r matches Err(e) ==> e matches CommandError::Catalog(CatalogError::TableNotFound(_)) || e matches CommandError::Buffer(
            BufferError::PageNotFound,
        ),
{
    let mut pipeline: Box<dyn Executor<BufferPoolManager<PAGE_SIZE, D, L>>> = Box::new(left_pipeline);
    let mut i: usize = 0;
    proof {
        assert(joins@.take(0) =~= Seq::<JoinClause>::empty());
    }
    while i < joins.len()
        invariant
            i <= joins@.len(),
            catalog.wf(),
            bpm.wf(),
            plan@ == old(plan)@ + join_steps(joins@.take(i as int)),
            joins_known(catalog.tables(), joins@.take(i as int)),
        decreases joins@.len() - i,
    {
        proof {
            assert(joins@.take(i + 1).drop_last() =~= joins@.take(i as int));
            assert(joins@.take(i + 1).last() == joins@[i as int]);
            reveal_strlit(" -> NestedLoopJoin(");
            reveal_strlit(")");
        }
        let j = &joins[i];
        let meta2 = match catalog.get_table(j.table.as_str()) {
            Ok(m) => m,
            Err(e) => {
                return Err(CommandError::Catalog(e));
            },
        };
        let schema2 = match catalog.get_schema(j.table.as_str()) {
            Ok(s) => s,
            Err(_) => {
                proof {
                    assert(false);
                }
                return Err(CommandError::Message(String::from_str("Schema not found for join table")));
            },
        };
        let total_pages2 = match bpm.get_total_pages(meta2.heap_relation_id) {
            Ok(n) => n,
            Err(e) => {
                return Err(CommandError::Buffer(e));
            },
        };
        let max_pages2 = if total_pages2 > 0 { total_pages2 - 1 } else { 0 };
        push_text(plan, " -> NestedLoopJoin(");
        push_text(plan, j.table.as_str());
        push_text(plan, ")");
        let right_exec = match Optimizer::optimize(bpm, meta2.heap_relation_id, schema2, max_pages2, None) {
            Ok(p) => p,
            Err(e) => {
                return Err(CommandError::Query(e));
            },
        };
        let left_col_name = j.left_col.clone();
        let right_col_name = j.right_col.clone();
        let pred = move |lt: &Tuple, ls: &Schema, rt: &Tuple, rs: &Schema| -> (b: bool)
            ensures
                b == columns_equal(left_col_name@, right_col_name@, lt.data@, ls.columns@, rt.data@, rs.columns@),
            { columns_match(&left_col_name, &right_col_name, lt, ls, rt, rs) };
        let joined = NestedLoopJoin::new(pipeline, right_exec, pred);
        pipeline = Box::new(joined);
        proof {
            assert forall|k: int| 0 <= k < i + 1 implies (#[trigger] crate::catalog::table_index(catalog.tables(), joins@.take(i + 1)[k].table@)) is Some by {
                if k < i {
                    assert(joins@.take(i + 1)[k] == joins@.take(i as int)[k]);
                }
            }
        }
        i += 1;
    }
    proof {
        assert(joins@.take(i as int) =~= joins@);
    }
    Ok(pipeline)
}

/// The description of a SELECT's plan over the given tables: the base scan (an index scan when
/// the table has an index and the conditions are a single `id = <integer>`), the joins, the
/// filter when there are conditions, the projection unless the columns are `*`, and the sort
/// when there is an ORDER BY.
pub open spec fn select_plan(
    tables: Seq<TableView>,
    table: Seq<char>,
    where_clause: Seq<WhereCondition>,
    join: Seq<JoinClause>,
    columns: Seq<String>,
    order_by: Option<String>,
) -> Seq<char> {
    let i = crate::catalog::table_index(tables, table)->0;
    let scan = if tables[i].root_page_num is Some && index_key(where_clause) is Some {
        "IndexScan("@
    } else {
        "SeqScan("@
    };
    let filter = if where_clause.len() > 0 { " -> Filter"@ } else { Seq::empty() };
    let project = if !is_star(columns) { " -> Project"@ } else { Seq::empty() };
    let sort = match order_by {
        Some(c) => sort_step(c@),
        None => Seq::empty(),
    };
    scan + table + ")"@ + join_steps(join) + filter + project + sort
}

/// The pipeline of a SELECT, its output schema and the description of its plan: the base scan,
/// then the joins, the filter when there are WHERE conditions, the projection unless the
/// columns are `*`, and the sort when there is an ORDER BY.
pub fn plan_query<const PAGE_SIZE: usize, D: DiskManager<PAGE_SIZE> + 'static, L: LogManager + 'static>(
    ast: Ast,
    catalog: &Catalog,
    bpm: &mut BufferPoolManager<PAGE_SIZE, D, L>,
    sort_chunk_size: usize,
) -> (r: Result<(Box<dyn Executor<BufferPoolManager<PAGE_SIZE, D, L>>>, Schema, String), CommandError>)
    requires
        catalog.wf(),
        old(bpm).wf(),
        44 <= PAGE_SIZE,
    ensures
        final(bpm).wf(),
        match ast {
            Ast::Select { columns, table, where_clause, join, order_by, .. } => {
                &&& crate::catalog::table_index(catalog.tables(), table@) is None ==> (r matches Err(
                    CommandError::Catalog(CatalogError::TableNotFound(n)),
                ) && n@ == table@)
                &&& r matches Ok((_, _, p)) ==> p@ == select_plan(catalog.tables(), table@, where_clause@, join@, columns@, order_by)
            },
            _ => r matches Err(CommandError::Message(m)) && m@ == "Not a SELECT statement."@,
        },
{
    let (columns, table, where_clause, join, order_by) = match ast {
        Ast::Select { columns, table, where_clause, join, order_by, .. } => (columns, table, where_clause, join, order_by),
        _ => {
            return Err(CommandError::Message(String::from_str("Not a SELECT statement.")));
        },
    };
    let mut plan = String::new();
    let mut pipeline = match build_base_pipeline(table.as_str(), where_clause.as_slice(), catalog, bpm, &mut plan) {
        Ok(p) => p,
        Err(e) => {
            return Err(e);
        },
    };
    if join.len() > 0 {
        pipeline = match build_join_pipeline(pipeline, join.as_slice(), catalog, bpm, &mut plan) {
            Ok(p) => p,
            Err(e) => {
                return Err(e);
            },
        };
    }
    if where_clause.len() > 0 {
        pipeline = match build_filter_pipeline(pipeline, where_clause, &mut plan) {
            Ok(p) => p,
            Err(e) => {
                return Err(e);
            },
        };
    }
    let output_schema = build_projection_schema(columns.as_slice(), pipeline.schema());
    if !star(columns.as_slice()) {
        pipeline = match build_projection_pipeline(pipeline, columns.as_slice(), &output_schema, &mut plan) {
            Ok(p) => p,
            Err(e) => {
                return Err(e);
            },
        };
    }
    match order_by {
        Some(order_col) => {
            pipeline = match build_sort_pipeline(pipeline, order_col.as_str(), sort_chunk_size, &mut plan) {
                Ok(p) => p,
                Err(e) => {
                    return Err(e);
                },
            };
        },
        None => {},
    }
    Ok((pipeline, output_schema, plan))
}

} // verus!
