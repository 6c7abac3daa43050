//! The line-oriented console: a scroll-back log, and the backslash commands it runs against
//! the catalog, the buffer pool and the demo table's index.
use crate::btree::{BTreeIndex, Index};
use crate::buffer::{BufferError, BufferPoolManager, LogManager};
use crate::catalog::{table_index, Catalog, CatalogError, TableView};
use crate::cli::{int_decimal, int_text, CommandError};
use crate::commands::{append_to_heap, demo_schema, open_page_ok, OpenPage};
use crate::dtos::{decimal, push_decimal};
use crate::page::SlottedPage;
use crate::query::{encode_values, QueryError};
use crate::schema::{columns_view, ColumnView};
use crate::storage::{DiskManager, PageId, StorageError, CTID};
use crate::text::{
    chars_eq, chars_of, copy_range, lemma_split_nonempty, parse_i32, parse_i32_chars, parse_usize, parse_usize_chars,
    split, split_chars, string_of, words, words_chars,
};
use crate::tuple::{decode, DecodeFault, Tuple, TupleError};
use crate::value::{values_view, DataType, Value, ValueView};
use vstd::prelude::*;
use vstd::string::*;

verus! {

broadcast use vstd::seq_lib::group_seq_properties;

// ---------------------------------------------------------------------------
// The log
// ---------------------------------------------------------------------------

/// What the console shows: where its data lives, the lines logged so far, the index root of
/// the active table, how far the log is scrolled and which table is active.
pub struct AppState {
    pub data_dir: String,
    pub logs: Vec<String>,
    pub root_id: Option<PageId>,
    pub vertical_scroll: usize,
    pub active_table: Option<String>,
}

/// A line without a carriage return at its end.
pub open spec fn strip_cr(p: Seq<char>) -> Seq<char> {
    if p.len() > 0 && p.last() == '\r' {
        p.drop_last()
    } else {
        p
    }
}

/// `str::lines`: the pieces between line feeds, each line ended by a line feed losing a
/// carriage return before it; nothing follows a final line feed.
pub open spec fn text_lines(s: Seq<char>) -> Seq<Seq<char>> {
    let pieces = split(s, '\n');
    let ended = pieces.drop_last().map_values(|p: Seq<char>| strip_cr(p));
    if pieces.last().len() > 0 {
        ended.push(pieces.last())
    } else {
        ended
    }
}

/// The lines that logging the messages one after another adds.
pub open spec fn lines_of(msgs: Seq<Seq<char>>) -> Seq<Seq<char>>
    decreases msgs.len(),
{
    if msgs.len() == 0 {
        Seq::empty()
    } else {
        lines_of(msgs.drop_last()) + text_lines(msgs.last())
    }
}

/// Logging one more message adds its lines.
pub proof fn lemma_lines_of_push(msgs: Seq<Seq<char>>, m: Seq<char>)
    ensures
        lines_of(msgs.push(m)) == lines_of(msgs) + text_lines(m),
{
    assert(msgs.push(m).drop_last() =~= msgs);
}

/// Logging two runs of messages adds the lines of both.
pub proof fn lemma_lines_of_append(a: Seq<Seq<char>>, b: Seq<Seq<char>>)
    ensures
        lines_of(a + b) == lines_of(a) + lines_of(b),
    decreases b.len(),
{
    if b.len() == 0 {
        assert(a + b =~= a);
    } else {
        lemma_lines_of_append(a, b.drop_last());
        assert((a + b).drop_last() =~= a + b.drop_last());
        assert((a + b).last() == b.last());
    }
}

fn strip_cr_chars(p: &Vec<char>) -> (r: Vec<char>)
    ensures
        r@ == strip_cr(p@),
{
    let n = p.len();
    if n > 0 && p[n - 1] == '\r' {
        copy_range(p.as_slice(), 0, n - 1)
    } else {
        copy_range(p.as_slice(), 0, n)
    }
}

impl AppState {
    /// The logged lines.
    pub open spec fn lines(&self) -> Seq<Seq<char>> {
        self.logs@.map_values(|s: String| s@)
    }

    /// Everything but the log and the scroll position is as in `old`.
    pub open spec fn same_but_log(&self, old: &AppState) -> bool {
        &&& self.data_dir == old.data_dir
        &&& self.root_id == old.root_id
        &&& self.active_table == old.active_table
    }

    /// An empty log over the given data directory, nothing active.
    pub fn new(data_dir: &str) -> (r: Self)
        ensures
            r.data_dir@ == data_dir@,
            r.lines() == Seq::<Seq<char>>::empty(),
            r.root_id is None,
            r.vertical_scroll == 0,
            r.active_table is None,
    {
        let r = AppState {
            data_dir: String::from_str(data_dir),
            logs: Vec::new(),
            root_id: None,
            vertical_scroll: 0,
            active_table: None,
        };
        assert(r.lines() =~= Seq::<Seq<char>>::empty());
        r
    }

    /// Logs a message, one entry per line of it, and scrolls to the end.
    pub fn log(&mut self, msg: &str)
        ensures
            final(self).lines() == old(self).lines() + text_lines(msg@),
            final(self).same_but_log(old(self)),
            final(self).vertical_scroll == usize::MAX,
    {
        let cs = chars_of(msg);
        let pieces = split_chars(cs.as_slice(), '\n');
        let ghost ps = split(msg@, '\n');
        proof {
            lemma_split_nonempty(msg@, '\n');
        }
        let n = pieces.len();
        let mut i: usize = 0;
        while i + 1 < n
            invariant
                n == ps.len(),
                1 <= n,
                i + 1 <= n,
                pieces@.len() == n,
                forall|k: int| 0 <= k < n ==> #[trigger] pieces@[k]@ == ps[k],
                self.lines() == old(self).lines() + ps.take(i as int).map_values(|p: Seq<char>| strip_cr(p)),
                self.same_but_log(old(self)),
            decreases n - i,
        {
            let line = strip_cr_chars(&pieces[i]);
            let ghost before = self.lines();
            self.logs.push(string_of(line.as_slice()));
            proof {
                assert(self.lines() =~= before.push(line@));
                assert(ps.take(i + 1).map_values(|p: Seq<char>| strip_cr(p)) =~= ps.take(i as int).map_values(
                    |p: Seq<char>| strip_cr(p),
                ).push(strip_cr(ps[i as int])));
            }
            i += 1;
        }
        proof {
            assert(ps.take(i as int) =~= ps.drop_last());
        }
        let last = &pieces[n - 1];
        if last.len() > 0 {
            let ghost before = self.lines();
            self.logs.push(string_of(last.as_slice()));
            assert(self.lines() =~= before.push(ps.last()));
        }
        self.vertical_scroll = usize::MAX;
    }

    /// Logs a message held as characters.
    fn say(&mut self, msg: &Vec<char>)
        ensures
            final(self).lines() == old(self).lines() + text_lines(msg@),
            final(self).same_but_log(old(self)),
            final(self).vertical_scroll == usize::MAX,
    {
        let s = string_of(msg.as_slice());
        self.log(s.as_str());
    }
}

// ---------------------------------------------------------------------------
// Message texts
// ---------------------------------------------------------------------------

fn push_str(out: &mut Vec<char>, s: &str)
    ensures
        final(out)@ == old(out)@ + s@,
{
    let cs = chars_of(s);
    push_chars(out, &cs);
}

fn push_chars(out: &mut Vec<char>, s: &Vec<char>)
    ensures
        final(out)@ == old(out)@ + s@,
{
    let mut i: usize = 0;
    while i < s.len()
        invariant
            i <= s@.len(),
            out@ == old(out)@ + s@.take(i as int),
        decreases s@.len() - i,
    {
        out.push(s[i]);
        proof {
            assert(s@.take(i + 1) =~= s@.take(i as int).push(s@[i as int]));
        }
        i += 1;
    }
    assert(s@.take(i as int) =~= s@);
}

fn text(s: &str) -> (r: Vec<char>)
    ensures
        r@ == s@,
{
    chars_of(s)
}

/// A page id as `{:?}` prints it.
pub open spec fn page_id_text(p: PageId) -> Seq<char> {
    "PageId { file_id: "@ + decimal(p.file_id as nat) + ", page_num: "@ + decimal(p.page_num as nat) + " }"@
}

/// An optional page id as `{:?}` prints it.
pub open spec fn root_text(o: Option<PageId>) -> Seq<char> {
    match o {
        Some(p) => "Some("@ + page_id_text(p) + ")"@,
        None => "None"@,
    }
}

/// A tuple id as `{:?}` prints it.
pub open spec fn ctid_text(c: CTID) -> Seq<char> {
    "CTID { page_id: "@ + page_id_text(c.page_id) + ", slot_idx: "@ + decimal(c.slot_idx as nat) + " }"@
}

/// An index error as `{:?}` prints it.
pub open spec fn index_error_text(e: crate::btree_node::BTreeError) -> Seq<char> {
    match e {
        crate::btree_node::BTreeError::NodeFull => "NodeFull"@,
        crate::btree_node::BTreeError::DuplicateKey => "DuplicateKey"@,
        crate::btree_node::BTreeError::KeyNotFound => "KeyNotFound"@,
        crate::btree_node::BTreeError::InvalidNode => "InvalidNode"@,
    }
}

/// A storage error as `{:?}` prints it; an I/O error shows its own text.
pub open spec fn storage_error_text(e: StorageError) -> Seq<char> {
    match e {
        StorageError::IoError(m) => "IoError("@ + m@ + ")"@,
        StorageError::OutOfBounds { file_id, page_num } => "OutOfBounds { file_id: "@ + decimal(file_id as nat)
            + ", page_num: "@ + decimal(page_num as nat) + " }"@,
        StorageError::FileError(f) => "FileError("@ + decimal(f as nat) + ")"@,
    }
}

/// A buffer pool error as `{:?}` prints it.
pub open spec fn buffer_error_text(e: BufferError) -> Seq<char> {
    match e {
        BufferError::NoFreeFrames => "NoFreeFrames"@,
        BufferError::PageNotFound => "PageNotFound"@,
        BufferError::StorageError(s) => "StorageError("@ + storage_error_text(s) + ")"@,
    }
}

/// A serialization error as its message reads.
pub open spec fn tuple_error_text(e: TupleError) -> Seq<char> {
    match e {
        TupleError::ColumnCountMismatch { schema_count, value_count } => "Schema column count ("@ + decimal(
            schema_count as nat,
        ) + ") does not match value count ("@ + decimal(value_count as nat) + ")"@,
        TupleError::NullNotAllowed { column_name } => "Null value provided for non-nullable column '"@ + column_name@
            + "'"@,
        TupleError::TypeMismatch { column_name } => "Value of the wrong type for column '"@ + column_name@ + "'"@,
        TupleError::DeserializationError(m) => "Data deserialization error: "@ + m@,
    }
}

/// A value as a row of the table dump shows it.
pub open spec fn value_text(v: ValueView) -> Seq<char> {
    match v {
        ValueView::Null => "NULL"@,
        ValueView::Integer(i) => int_decimal(i as int),
        ValueView::Boolean(b) => if b {
            "true"@
        } else {
            "false"@
        },
        ValueView::Varchar(s) => s,
    }
}

/// The values of a row joined by ` | `.
pub open spec fn row_text(vals: Seq<ValueView>) -> Seq<char>
    decreases vals.len(),
{
    if vals.len() == 0 {
        Seq::empty()
    } else if vals.len() == 1 {
        value_text(vals[0])
    } else {
        row_text(vals.drop_last()) + " | "@ + value_text(vals.last())
    }
}

fn push_u64(out: &mut Vec<char>, x: u64)
    ensures
        final(out)@ == old(out)@ + decimal(x as nat),
{
    push_decimal(x, out);
}

fn push_page_id(out: &mut Vec<char>, p: PageId)
    ensures
        final(out)@ == old(out)@ + page_id_text(p),
{
    push_str(out, "PageId { file_id: ");
    push_u64(out, p.file_id as u64);
    push_str(out, ", page_num: ");
    push_u64(out, p.page_num as u64);
    push_str(out, " }");
}

fn push_root(out: &mut Vec<char>, o: Option<PageId>)
    ensures
        final(out)@ == old(out)@ + root_text(o),
{
    match o {
        Some(p) => {
            push_str(out, "Some(");
            push_page_id(out, p);
            push_str(out, ")");
        },
        None => push_str(out, "None"),
    }
}

fn push_ctid(out: &mut Vec<char>, c: CTID)
    ensures
        final(out)@ == old(out)@ + ctid_text(c),
{
    push_str(out, "CTID { page_id: ");
    push_page_id(out, c.page_id);
    push_str(out, ", slot_idx: ");
    push_u64(out, c.slot_idx as u64);
    push_str(out, " }");
}

fn push_index_error(out: &mut Vec<char>, e: &crate::btree_node::BTreeError)
    ensures
        final(out)@ == old(out)@ + index_error_text(*e),
{
    match e {
        crate::btree_node::BTreeError::NodeFull => push_str(out, "NodeFull"),
        crate::btree_node::BTreeError::DuplicateKey => push_str(out, "DuplicateKey"),
        crate::btree_node::BTreeError::KeyNotFound => push_str(out, "KeyNotFound"),
        crate::btree_node::BTreeError::InvalidNode => push_str(out, "InvalidNode"),
    }
}

fn push_buffer_error(out: &mut Vec<char>, e: &BufferError)
    ensures
        final(out)@ == old(out)@ + buffer_error_text(*e),
{
    match e {
        BufferError::NoFreeFrames => push_str(out, "NoFreeFrames"),
        BufferError::PageNotFound => push_str(out, "PageNotFound"),
        BufferError::StorageError(s) => {
            push_str(out, "StorageError(");
            match s {
                StorageError::IoError(m) => {
                    push_str(out, "IoError(");
                    push_str(out, m.as_str());
                    push_str(out, ")");
                },
                StorageError::OutOfBounds { file_id, page_num } => {
                    push_str(out, "OutOfBounds { file_id: ");
                    push_u64(out, *file_id as u64);
                    push_str(out, ", page_num: ");
                    push_u64(out, *page_num as u64);
                    push_str(out, " }");
                },
                StorageError::FileError(f) => {
                    push_str(out, "FileError(");
                    push_u64(out, *f as u64);
                    push_str(out, ")");
                },
            }
            push_str(out, ")");
        },
    }
}

fn push_tuple_error(out: &mut Vec<char>, e: &TupleError)
    ensures
        final(out)@ == old(out)@ + tuple_error_text(*e),
{
    match e {
        TupleError::ColumnCountMismatch { schema_count, value_count } => {
            push_str(out, "Schema column count (");
            push_u64(out, *schema_count as u64);
            push_str(out, ") does not match value count (");
            push_u64(out, *value_count as u64);
            push_str(out, ")");
        },
        TupleError::NullNotAllowed { column_name } => {
            push_str(out, "Null value provided for non-nullable column '");
            push_str(out, column_name.as_str());
            push_str(out, "'");
        },
        TupleError::TypeMismatch { column_name } => {
            push_str(out, "Value of the wrong type for column '");
            push_str(out, column_name.as_str());
            push_str(out, "'");
        },
        TupleError::DeserializationError(m) => {
            push_str(out, "Data deserialization error: ");
            push_str(out, m.as_str());
        },
    }
}

fn push_value(out: &mut Vec<char>, v: &Value)
    ensures
        final(out)@ == old(out)@ + value_text(v@),
{
    match v {
        Value::Null => push_str(out, "NULL"),
        Value::Integer(i) => {
            let t = int_text(*i);
            push_chars(out, &t);
        },
        Value::Boolean(b) => {
            if *b {
                push_str(out, "true");
            } else {
                push_str(out, "false");
            }
        },
        Value::Varchar(s) => push_str(out, s.as_str()),
    }
}

fn push_row(out: &mut Vec<char>, vals: &Vec<Value>)
    ensures
        final(out)@ == old(out)@ + row_text(values_view(vals@)),
{
    let ghost start = out@;
    let mut i: usize = 0;
    while i < vals.len()
        invariant
            i <= vals@.len(),
            out@ == start + row_text(values_view(vals@).take(i as int)),
        decreases vals@.len() - i,
    {
        let ghost vs = values_view(vals@);
        proof {
            assert(vs.take(i + 1).drop_last() =~= vs.take(i as int));
            assert(vs.take(i + 1).last() == vals@[i as int]@);
        }
        if i > 0 {
            push_str(out, " | ");
        } else {
            assert(vs.take(1) =~= seq![vals@[0]@]);
            assert(vs.take(0) =~= Seq::<ValueView>::empty());
        }
        push_value(out, &vals[i]);
        i += 1;
    }
    assert(values_view(vals@).take(i as int) =~= values_view(vals@));
}

// ---------------------------------------------------------------------------
// Fixed replies
// ---------------------------------------------------------------------------

/// The help text.
pub open spec fn help_lines() -> Seq<Seq<char>> {
    seq![
        "Available Commands:"@,
        "  \\list-tables         - Lists all tables in the catalog."@,
        "  \\demo <count>        - Creates 'demo_users' and generates realistic data."@,
        "  \\select <name>       - Prints data from a table."@,
        "  \\search <key>        - Searches for a specific key in the active table's B+Tree."@,
        "  \\delete <key>        - Deletes a key from the active table's B+Tree."@,
        "  \\stats               - Displays detailed system statistics."@,
        "  \\flush               - Flushes all pages to disk."@,
        "  \\quit                - Exits the application."@,
    ]
}

/// One table in the table listing.
pub open spec fn table_line(t: TableView) -> Seq<char> {
    "  - "@ + t.name + " (Heap: "@ + decimal(t.heap_relation_id as nat) + ", Index: "@ + decimal(
        t.index_relation_id as nat,
    ) + ")"@
}

/// The table listing.
pub open spec fn table_list(tables: Seq<TableView>) -> Seq<Seq<char>> {
    if tables.len() == 0 {
        seq!["No tables exist in the catalog."@]
    } else {
        seq!["Tables in Catalog:"@] + tables.map_values(|t: TableView| table_line(t))
    }
}

/// The reply to a command word no command has.
pub open spec fn unknown_reply(word: Seq<char>) -> Seq<Seq<char>> {
    seq!["Error: Unknown command '"@ + word + "'"@, "Type \\help for a list of commands."@]
}

/// The echo of a command line.
pub open spec fn echo(cmd: Seq<char>) -> Seq<char> {
    "> "@ + cmd
}

/// The command words the console knows.
pub open spec fn known_command(w: Seq<char>) -> bool {
    ||| w == "\\help"@
    ||| w == "\\list-tables"@
    ||| w == "\\demo"@
    ||| w == "\\flush"@
    ||| w == "\\select"@
    ||| w == "\\stats"@
    ||| w == "\\search"@
    ||| w == "\\delete"@
}

/// How many demo rows `\demo` asks for: its argument when it parses as a count, else 500.
pub open spec fn demo_count_arg(ws: Seq<Seq<char>>) -> usize {
    if ws.len() > 1 {
        match parse_usize(ws[1]) {
            Some(n) => n,
            None => 500,
        }
    } else {
        500
    }
}

/// What the console asks of its caller after a command.
#[derive(Debug, PartialEq, Eq, Structural)]
pub enum ConsoleOutcome {
    /// Nothing more.
    Done,
    /// The pool was flushed; the catalog is to be saved, then success logged.
    FlushCatalog,
    /// The statistics are to be logged (the hit rate is a fraction the caller formats).
    ShowStats,
}

// ---------------------------------------------------------------------------
// The demonstration
// ---------------------------------------------------------------------------

/// The demo table's name.
pub open spec fn demo_name() -> Seq<char> {
    "demo_users"@
}

/// The values of demonstration row `i`: its id, whether `i` is a multiple of ten (the admin
/// flag), the user name `user_<i>`, and a status that is NULL for multiples of three and
/// `active` otherwise.
pub open spec fn demo_row(i: usize) -> Seq<ValueView> {
    seq![
        ValueView::Integer(i as i32),
        ValueView::Boolean(i % 10 == 0),
        ValueView::Varchar("user_"@ + decimal(i as nat)),
        if i % 3 == 0 {
            ValueView::Null
        } else {
            ValueView::Varchar("active"@)
        },
    ]
}

/// The first line of a demonstration.
pub open spec fn demo_start(count: usize) -> Seq<char> {
    "Starting automated WackDB demonstration ("@ + decimal(count as nat) + " records)..."@
}

/// The lines naming the active table and announcing the rows.
pub open spec fn demo_intro(heap: u32, index: u32, count: usize) -> Seq<Seq<char>> {
    seq![
        "Table 'demo_users' active (Heap: "@ + decimal(heap as nat) + ", Index: "@ + decimal(index as nat) + ")."@,
        "Generating "@ + decimal(count as nat) + " representative records..."@,
    ]
}

/// The closing summary of a demonstration.
pub open spec fn demo_summary(count: usize, pages: nat, splits: nat, root: Option<PageId>) -> Seq<Seq<char>> {
    seq![
        "--- Demo Summary ---"@,
        "Records inserted: "@ + decimal(count as nat),
        "Data pages allocated: "@ + decimal(pages),
        "B+Tree Root Splits: "@ + decimal(splits),
        "Current Root Page: "@ + root_text(root),
        "Buffer pool active. Type \\flush to persist."@,
    ]
}

/// A line reporting a row that could not be serialized.
pub open spec fn serialize_error_line(m: Seq<char>) -> bool {
    exists|t: Seq<char>| m == "Error serializing tuple: "@ + t
}

/// The index root recorded for a table, as a page of its index file.
pub open spec fn recorded_root(t: TableView) -> Option<PageId> {
    match t.root_page_num {
        Some(n) => Some(PageId { file_id: t.index_relation_id, page_num: n }),
        None => None,
    }
}

/// What a finished demonstration did: the demo table exists (created if it did not), is the
/// active table, its recorded root is the console's root, and the log holds, after `base`,
/// the start line, the table line and the announcement, a line per row that could not be
/// serialized, and the summary with the row count and the root.
pub open spec fn demo_done(
    count: usize,
    base: Seq<Seq<char>>,
    s0: AppState,
    s1: AppState,
    c0: Seq<TableView>,
    c1: Seq<TableView>,
) -> bool {
    &&& table_index(c1, demo_name()) matches Some(k) && {
        let t = c1[k];
        &&& (table_index(c0, demo_name()) matches Some(k0) && c1 == c0.update(
            k0,
            TableView { root_page_num: t.root_page_num, ..c0[k0] },
        ) && k == k0)
            || (table_index(c0, demo_name()) is None && c1.drop_last() == c0 && k == c0.len()
            && t.columns.len() == 0)
        &&& s1.active_table matches Some(a) && a@ == demo_name()
        &&& match s1.root_id {
            Some(p) => t.root_page_num == Some(p.page_num),
            None => t.root_page_num is None,
        }
        &&& s1.data_dir == s0.data_dir
        &&& exists|errs: Seq<Seq<char>>, pages: nat, splits: nat|
            {
                &&& forall|j: int| 0 <= j < errs.len() ==> serialize_error_line(#[trigger] errs[j])
                &&& s1.lines() == base + lines_of(
                    seq![demo_start(count)] + demo_intro(t.heap_relation_id, t.index_relation_id, count) + errs
                        + demo_summary(count, pages, splits, s1.root_id),
                )
            }
    }
}

fn demo_values(i: usize) -> (r: Vec<Value>)
    ensures
        values_view(r@) == demo_row(i),
{
    let mut name: Vec<char> = Vec::new();
    push_str(&mut name, "user_");
    push_u64(&mut name, i as u64);
    let mut vals: Vec<Value> = Vec::new();
    vals.push(Value::Integer(i as i32));
    vals.push(Value::Boolean(i % 10 == 0));
    vals.push(Value::Varchar(string_of(name.as_slice())));
    if i % 3 == 0 {
        vals.push(Value::Null);
    } else {
        vals.push(Value::Varchar(String::from_str("active")));
    }
    assert(values_view(vals@) =~= demo_row(i));
    vals
}

fn page_changed(before: Option<PageId>, now: PageId) -> (r: bool)
    ensures
        r == (before != Some(now)),
{
    match before {
        Some(p) => p.file_id != now.file_id || p.page_num != now.page_num,
        None => true,
    }
}

fn root_moved(before: Option<PageId>, after: Option<PageId>) -> (r: bool)
    ensures
        r == (before is Some && before != after),
{
    match (before, after) {
        (Some(a), Some(b)) => a.file_id != b.file_id || a.page_num != b.page_num,
        (Some(_), None) => true,
        _ => false,
    }
}

/// The demo table's metadata, the table made (with no columns recorded) when it is missing.
fn demo_table_meta(catalog: &mut Catalog) -> (r: Option<crate::catalog::TableMetadata>)
    requires
        old(catalog).wf(),
        old(catalog).next_id() <= u32::MAX - 2,
    ensures
        final(catalog).wf(),
        r matches Some(m) && table_index(final(catalog).tables(), demo_name()) matches Some(k) && {
            let c0 = old(catalog).tables();
            let c1 = final(catalog).tables();
            &&& m@ == c1[k]
            &&& (table_index(c0, demo_name()) is Some && c1 == c0)
                || (table_index(c0, demo_name()) is None && c1.drop_last() == c0 && k == c0.len()
                && c1[k].columns.len() == 0)
        },
{
    proof {
        reveal_strlit("demo_users");
    }
    let ghost c0 = catalog.tables();
    let table_name = "demo_users";
    if catalog.get_table(table_name).is_err() {
        match catalog.create_table(table_name) {
            Ok(_) => {},
            Err(_) => {
                return None;
            },
        }
        proof {
            crate::catalog::lemma_created_table_found(c0, catalog.tables().last());
            assert(catalog.tables() == c0.push(catalog.tables().last()));
            assert(catalog.tables().drop_last() =~= c0);
        }
    }
    match catalog.get_table(table_name) {
        Ok(m) => Some(m),
        Err(_) => None,
    }
}

/// Appends demonstration rows `0..count` to a heap file and indexes each by its number;
/// returns how many heap pages were opened and how often the index root moved, and logs a
/// line per row that could not be serialized.
fn demo_rows<const PAGE_SIZE: usize, D: DiskManager<PAGE_SIZE>, L: LogManager>(
    count: usize,
    heap_id: u32,
    btree: &mut BTreeIndex,
    state: &mut AppState,
    bpm: &mut BufferPoolManager<PAGE_SIZE, D, L>,
) -> (r: Result<(usize, usize, Ghost<Seq<Seq<char>>>), CommandError>)
    requires
        old(bpm).wf(),
        44 <= PAGE_SIZE,
    ensures
        final(bpm).wf(),
        final(state).same_but_log(old(state)),
        scroll_kept(*old(state), *final(state)),
        final(btree).root() is None ==> old(btree).root() is None,
        r matches Ok((pages, splits, errs)) ==> {
            &&& forall|j: int| 0 <= j < errs@.len() ==> serialize_error_line(#[trigger] errs@[j])
            &&& final(state).lines() == old(state).lines() + lines_of(errs@)
            &&& pages <= count
            &&& splits <= count
            &&& errs@.len() <= count
        },
        count == 0 ==> (r matches Ok((pages, splits, errs)) && pages == 0 && splits == 0 && errs@.len() == 0),
        r matches Err(e) ==> e is Buffer || e is Message,
{
    let schema = demo_schema();
    let ghost base = state.lines();
    let ghost mut errs: Seq<Seq<char>> = Seq::empty();
    let mut splits: usize = 0;
    let mut pages: usize = 0;
    let mut current: Option<OpenPage<PAGE_SIZE>> = None;
    let mut i: usize = 0;
    assert(base == base + lines_of(errs));
    while i < count
        invariant
            bpm.wf(),
            44 <= PAGE_SIZE,
            open_page_ok(current),
            i <= count,
            splits <= i,
            pages <= i,
            state.lines() == base + lines_of(errs),
            forall|j: int| 0 <= j < errs.len() ==> serialize_error_line(#[trigger] errs[j]),
            errs.len() <= i,
            i == 0 ==> current is None && pages == 0 && splits == 0,
            state.same_but_log(old(state)),
            scroll_kept(*old(state), *state),
            btree.root() is None ==> old(btree).root() is None,
        decreases count - i,
    {
        let vals = demo_values(i);
        let tuple = match encode_values(&schema, &vals) {
            Ok(t) => t,
            Err(e) => {
                let mut em = text("Error serializing tuple: ");
                let ghost prefix = em@;
                match &e {
                    QueryError::Tuple(te) => push_tuple_error(&mut em, te),
                    QueryError::Execution(s) => push_str(&mut em, s.as_str()),
                    _ => {},
                }
                state.say(&em);
                proof {
                    let t = em@.subrange(prefix.len() as int, em@.len() as int);
                    assert(em@ =~= "Error serializing tuple: "@ + t);
                    lemma_lines_of_push(errs, em@);
                    errs = errs.push(em@);
                }
                i += 1;
                continue;
            },
        };
        let before = match &current {
            Some(o) => Some(o.page_id),
            None => None,
        };
        let ctid = match append_to_heap(&tuple, heap_id, bpm, &mut current, false) {
            Ok(c) => c,
            Err(e) => {
                return Err(e);
            },
        };
        if page_changed(before, ctid.page_id) {
            pages += 1;
        }
        let old_root = btree.get_root_page_id();
        let _ = btree.insert(bpm, i as i32, ctid);
        let new_root = btree.get_root_page_id();
        if root_moved(old_root, new_root) {
            splits += 1;
        }
        i += 1;
    }
    match current {
        Some(o) => {
            match bpm.unpin_page(o.page_id, true) {
                Ok(()) => {},
                Err(e) => {
                    return Err(CommandError::Buffer(e));
                },
            }
        },
        None => {},
    }
    Ok((pages, splits, Ghost(errs)))
}

/// The texts of messages held as character vectors.
pub open spec fn views(v: Seq<Vec<char>>) -> Seq<Seq<char>> {
    v.map_values(|m: Vec<char>| m@)
}

/// The scroll position is at the end, or where it was.
pub open spec fn scroll_kept(s0: AppState, s1: AppState) -> bool {
    s1.vertical_scroll == usize::MAX || s1.vertical_scroll == s0.vertical_scroll
}

fn say_all(state: &mut AppState, msgs: &Vec<Vec<char>>)
    ensures
        final(state).lines() == old(state).lines() + lines_of(views(msgs@)),
        final(state).same_but_log(old(state)),
        msgs@.len() > 0 ==> final(state).vertical_scroll == usize::MAX,
        msgs@.len() == 0 ==> final(state).vertical_scroll == old(state).vertical_scroll,
{
    let ghost base = state.lines();
    let mut i: usize = 0;
    while i < msgs.len()
        invariant
            i <= msgs@.len(),
            state.lines() == base + lines_of(views(msgs@.take(i as int))),
            state.same_but_log(old(state)),
            i > 0 ==> state.vertical_scroll == usize::MAX,
            i == 0 ==> state.vertical_scroll == old(state).vertical_scroll,
        decreases msgs@.len() - i,
    {
        state.say(&msgs[i]);
        proof {
            let done = views(msgs@.take(i as int));
            lemma_lines_of_push(done, msgs@[i as int]@);
            assert(views(msgs@.take(i + 1)) =~= done.push(msgs@[i as int]@));
        }
        i += 1;
    }
    assert(msgs@.take(i as int) =~= msgs@);
}

/// Runs a demonstration of `count` rows: makes the demo table (with no columns recorded) when
/// it is missing, makes it active, and appends rows `0..count` to its heap, indexing each by
/// its number; the index's root goes to the catalog, and a summary of rows, heap pages
/// opened and root changes is logged.
pub fn run_demo<const PAGE_SIZE: usize, D: DiskManager<PAGE_SIZE>, L: LogManager>(
    count: usize,
    state: &mut AppState,
    catalog: &mut Catalog,
    bpm: &mut BufferPoolManager<PAGE_SIZE, D, L>,
) -> (r: Result<(), CommandError>)
    requires
        old(catalog).wf(),
        old(catalog).next_id() <= u32::MAX - 2,
        old(bpm).wf(),
        44 <= PAGE_SIZE,
    ensures
        final(catalog).wf(),
        final(bpm).wf(),
        final(state).vertical_scroll == usize::MAX,
        r is Ok ==> demo_done(count, old(state).lines(), *old(state), *final(state), old(catalog).tables(), final(catalog).tables()),
{
    let ghost base = state.lines();
    let ghost c0 = catalog.tables();
    let mut m0 = text("Starting automated WackDB demonstration (");
    push_u64(&mut m0, count as u64);
    push_str(&mut m0, " records)...");
    state.say(&m0);
    let meta = match demo_table_meta(catalog) {
        Some(m) => m,
        None => {
            state.log("Error creating demo table");
            return Ok(());
        },
    };
    let ghost c_mid = catalog.tables();
    let ghost k = table_index(c_mid, demo_name())->0;
    let heap_id = meta.heap_relation_id;
    let index_id = meta.index_relation_id;
    state.active_table = Some(String::from_str("demo_users"));
    state.root_id = match meta.root_page_num {
        Some(n) => Some(PageId { file_id: index_id, page_num: n }),
        None => None,
    };
    let mut m1 = text("Table 'demo_users' active (Heap: ");
    push_u64(&mut m1, heap_id as u64);
    push_str(&mut m1, ", Index: ");
    push_u64(&mut m1, index_id as u64);
    push_str(&mut m1, ").");
    let mut m2 = text("Generating ");
    push_u64(&mut m2, count as u64);
    push_str(&mut m2, " representative records...");
    let mut intro: Vec<Vec<char>> = Vec::new();
    intro.push(m1);
    intro.push(m2);
    say_all(state, &intro);
    let ghost after_intro = state.lines();
    let mut btree = BTreeIndex::new(state.root_id, index_id);
    let (pages, splits, errs) = match demo_rows(count, heap_id, &mut btree, state, bpm) {
        Ok(x) => x,
        Err(e) => {
            return Err(e);
        },
    };
    state.root_id = btree.get_root_page_id();
    match state.root_id {
        Some(r) => {
            match catalog.update_root_page("demo_users", Some(r.page_num)) {
                Ok(()) => {},
                Err(e) => {
                    return Err(CommandError::Catalog(e));
                },
            }
        },
        None => {},
    }
    let mut s2 = text("Records inserted: ");
    push_u64(&mut s2, count as u64);
    let mut s3 = text("Data pages allocated: ");
    push_u64(&mut s3, pages as u64);
    let mut s4 = text("B+Tree Root Splits: ");
    push_u64(&mut s4, splits as u64);
    let mut s5 = text("Current Root Page: ");
    push_root(&mut s5, state.root_id);
    let mut summary: Vec<Vec<char>> = Vec::new();
    summary.push(text("--- Demo Summary ---"));
    summary.push(s2);
    summary.push(s3);
    summary.push(s4);
    summary.push(s5);
    summary.push(text("Buffer pool active. Type \\flush to persist."));
    say_all(state, &summary);
    proof {
        reveal_strlit("demo_users");
        let msgs = seq![demo_start(count)] + demo_intro(heap_id, index_id, count) + errs@ + demo_summary(
            count,
            pages as nat,
            splits as nat,
            state.root_id,
        );
        assert(views(intro@) =~= demo_intro(heap_id, index_id, count));
        assert(views(summary@) =~= demo_summary(count, pages as nat, splits as nat, state.root_id));
        lemma_lines_of_push(Seq::<Seq<char>>::empty(), m0@);
        assert(Seq::<Seq<char>>::empty().push(m0@) =~= seq![demo_start(count)]);
        lemma_lines_of_append(seq![demo_start(count)], demo_intro(heap_id, index_id, count));
        lemma_lines_of_append(seq![demo_start(count)] + demo_intro(heap_id, index_id, count), errs@);
        lemma_lines_of_append(seq![demo_start(count)] + demo_intro(heap_id, index_id, count) + errs@, demo_summary(
            count,
            pages as nat,
            splits as nat,
            state.root_id,
        ));
        assert(state.lines() =~= base + lines_of(msgs));
        let c1 = catalog.tables();
        assert(c1[k].name == c_mid[k].name);
        assert(table_index(c1, demo_name()) is Some);
        let k1 = table_index(c1, demo_name())->0;
        if k1 != k {
            assert(c1[k1].name == c_mid[k1].name);
        }
        assert(c1[k].heap_relation_id == heap_id);
        assert(c1[k].index_relation_id == index_id);
        if table_index(c0, demo_name()) is None {
            assert(c1.drop_last() =~= c0);
        } else {
            assert(c1 =~= c0.update(k, TableView { root_page_num: c1[k].root_page_num, ..c0[k] }));
        }
    }
    Ok(())
}

// ---------------------------------------------------------------------------
// The table dump
// ---------------------------------------------------------------------------

/// The line of the `k`-th row shown.
pub open spec fn row_line(k: nat, vals: Seq<ValueView>) -> Seq<char> {
    "Row "@ + decimal(k) + ": "@ + row_text(vals)
}

/// The marker logged once the dump has shown enough rows.
pub open spec fn truncated_line() -> Seq<char> {
    "... (output truncated at 50 rows) ..."@
}

/// The lines of the rows shown from one page, numbered from `before`.
pub open spec fn row_lines(rows: Seq<Seq<ValueView>>, before: nat) -> Seq<Seq<char>> {
    Seq::new(rows.len(), |j: int| row_line((before + j) as nat, rows[j]))
}

/// The lines one page adds: its rows, then the truncation marker when the count has reached
/// 25 with them.
pub open spec fn page_lines(rows: Seq<Seq<ValueView>>, before: nat) -> Seq<Seq<char>> {
    row_lines(rows, before) + if rows.len() > 0 && before + rows.len() >= 25 {
        seq![truncated_line()]
    } else {
        Seq::<Seq<char>>::empty()
    }
}

/// A page stops showing rows right after the row that brings the count to 25.
pub open spec fn page_stops(rows: Seq<Seq<ValueView>>, before: nat) -> bool {
    rows.len() >= 2 ==> before + rows.len() - 1 < 25
}

/// How many rows the pages showed.
pub open spec fn rows_total(pages: Seq<Seq<Seq<ValueView>>>) -> nat
    decreases pages.len(),
{
    if pages.len() == 0 {
        0
    } else {
        rows_total(pages.drop_last()) + pages.last().len()
    }
}

/// The lines of all pages shown.
pub open spec fn scan_lines(pages: Seq<Seq<Seq<ValueView>>>) -> Seq<Seq<char>>
    decreases pages.len(),
{
    if pages.len() == 0 {
        Seq::empty()
    } else {
        scan_lines(pages.drop_last()) + page_lines(pages.last(), rows_total(pages.drop_last()))
    }
}

/// The last line of the dump.
pub open spec fn scan_footer(total: nat) -> Seq<char> {
    if total == 0 {
        "0 rows returned."@
    } else {
        "--- End of Scan ("@ + decimal(total) + " rows) ---"@
    }
}

/// Values that decode from some record bytes against the demo table's columns.
pub open spec fn demo_decoded(vals: Seq<ValueView>) -> bool {
    exists|cols: Seq<crate::schema::Column>, d: Seq<u8>|
        columns_view(cols) == crate::commands::demo_columns() && #[trigger] decode(d, cols) == Ok::<_, DecodeFault>(vals)
}

/// The note for a table whose rows the dump does not decode.
pub open spec fn unsupported_note() -> Seq<char> {
    "Note: Only 'demo_users' schema is currently fully supported for binary deserialization."@
}

/// The log after `base` shows the scan of a heap file as `pages`, the rows of each page, read
/// with the demo columns `cols`; where the pool `b0` holds every write, these are the decoded
/// live records of each heap page, in slot and page order, and the scan went on past a page
/// only while it had slots and fewer than 50 rows had been shown.
pub open spec fn scan_shown<const PAGE_SIZE: usize, D: DiskManager<PAGE_SIZE>, L: LogManager>(
    name: Seq<char>,
    base: Seq<Seq<char>>,
    s1: AppState,
    heap_id: u32,
    b0: BufferPoolManager<PAGE_SIZE, D, L>,
    pages: Seq<Seq<Seq<ValueView>>>,
    cols: Seq<crate::schema::Column>,
) -> bool {
    &&& columns_view(cols) == crate::commands::demo_columns()
    &&& b0.no_lost_writes() ==> pages_shown(b0, heap_id, cols, pages) && pages_continue(
        b0,
        heap_id,
        pages,
        pages.len() - 1,
    )
    &&& pages.len() <= 10
    &&& forall|p: int| 0 <= p < pages.len() ==> page_stops(#[trigger] pages[p], rows_total(pages.take(p)))
    &&& forall|p: int, j: int| 0 <= p < pages.len() && 0 <= j < pages[p].len() ==> demo_decoded(#[trigger] pages[p][j])
    &&& s1.lines() == base + lines_of(
        seq!["--- Data for table '"@ + name + "' ---"@] + scan_lines(pages) + seq![scan_footer(rows_total(pages))],
    )
}

/// What dumping `name` did, after `base`: an unknown table is reported; a table other than
/// the demo table gets a note; the demo table becomes active with its recorded root, and the
/// log shows a header, the rows of up to ten heap pages, each numbered and decoded from a
/// live record, with the truncation markers, and the count. Where the pool `b0` holds every
/// write, the rows of each page are the decoded live records of that heap page, in slot and
/// page order, and the scan went on past a page only while it had slots and fewer than 50
/// rows had been shown.
pub open spec fn select_done<const PAGE_SIZE: usize, D: DiskManager<PAGE_SIZE>, L: LogManager>(
    name: Seq<char>,
    base: Seq<Seq<char>>,
    s0: AppState,
    s1: AppState,
    tables: Seq<TableView>,
    b0: BufferPoolManager<PAGE_SIZE, D, L>,
) -> bool {
    match table_index(tables, name) {
        None => s1.lines() == base + lines_of(seq!["Table '"@ + name + "' not found."@]) && s1.same_but_log(&s0),
        Some(k) => if name != demo_name() {
            s1.lines() == base + lines_of(seq![unsupported_note()]) && s1.same_but_log(&s0)
        } else {
            &&& s1.active_table matches Some(a) && a@ == name
            &&& s1.root_id == recorded_root(tables[k])
            &&& s1.data_dir == s0.data_dir
            &&& exists|pages: Seq<Seq<Seq<ValueView>>>, cols: Seq<crate::schema::Column>|
                #[trigger] scan_shown(name, base, s1, tables[k].heap_relation_id, b0, pages, cols)
        },
    }
}

proof fn lemma_scan_push(pages: Seq<Seq<Seq<ValueView>>>, rows: Seq<Seq<ValueView>>)
    ensures
        scan_lines(pages.push(rows)) == scan_lines(pages) + page_lines(rows, rows_total(pages)),
        rows_total(pages.push(rows)) == rows_total(pages) + rows.len(),
{
    assert(pages.push(rows).drop_last() =~= pages);
}

fn copy_bytes(b: &[u8]) -> (r: Vec<u8>)
    ensures
        r@ == b@,
{
    let mut out: Vec<u8> = Vec::new();
    let mut i: usize = 0;
    while i < b.len()
        invariant
            i <= b@.len(),
            out@ == b@.take(i as int),
        decreases b@.len() - i,
    {
        out.push(b[i]);
        proof {
            assert(b@.take(i + 1) =~= b@.take(i as int).push(b@[i as int]));
        }
        i += 1;
    }
    assert(b@.take(i as int) =~= b@);
    out
}

/// The row a slot of page bytes shows: the values its live record decodes to.
pub open spec fn page_row(d: Seq<u8>, page_size: nat, cols: Seq<crate::schema::Column>, s: int) -> Option<Seq<ValueView>> {
    match crate::page::record_of(d, page_size, s) {
        Some((h, b)) => if h.xmax == 0 {
            match decode(b, cols) {
                Ok(v) => Some(v),
                Err(_) => None,
            }
        } else {
            None
        },
        None => None,
    }
}

/// The rows that the live records of the first `n` slots of page bytes decode to, in slot order.
pub open spec fn live_rows(d: Seq<u8>, page_size: nat, cols: Seq<crate::schema::Column>, n: int) -> Seq<Seq<ValueView>>
    decreases n,
{
    if n <= 0 {
        Seq::empty()
    } else {
        let earlier = live_rows(d, page_size, cols, n - 1);
        match page_row(d, page_size, cols, n - 1) {
            Some(v) => earlier.push(v),
            None => earlier,
        }
    }
}

/// `rows` are what a page shows when numbering goes on after `before` rows: the decoded live
/// records of its slots in slot order, all of them unless the count reached 25 first.
pub open spec fn rows_of_page(
    d: Seq<u8>,
    page_size: nat,
    cols: Seq<crate::schema::Column>,
    before: nat,
    rows: Seq<Seq<ValueView>>,
) -> bool {
    exists|m: int|
        0 <= m <= crate::page::header_of(d).total_slots && #[trigger] live_rows(d, page_size, cols, m) == rows && (m
            < crate::page::header_of(d).total_slots ==> before + rows.len() >= 25)
}

/// The values of rows held as vectors.
pub open spec fn shown_rows(v: Seq<Vec<Value>>) -> Seq<Seq<ValueView>> {
    v.map_values(|x: Vec<Value>| values_view(x@))
}

/// The values a slot's live record decodes to, when it has one that decodes.
fn slot_row<const PAGE_SIZE: usize>(page: &SlottedPage<PAGE_SIZE>, schema: &crate::schema::Schema, slot: usize) -> (r: Option<
    Vec<Value>,
>)
    requires
        page.data@.len() == PAGE_SIZE,
        16 <= PAGE_SIZE,
    ensures
        match r {
            Some(v) => page_row(page.data@, PAGE_SIZE as nat, schema.columns@, slot as int) == Some(values_view(v@)),
            None => page_row(page.data@, PAGE_SIZE as nat, schema.columns@, slot as int) is None,
        },
{
    match page.get_record(slot) {
        Some((h, bytes)) => {
            if h.xmax == 0 {
                let tuple = Tuple { data: copy_bytes(bytes) };
                match tuple.to_values(schema) {
                    Ok(values) => Some(values),
                    Err(_) => None,
                }
            } else {
                None
            }
        },
        None => None,
    }
}

/// A row a slot shows decodes against the columns it was read with.
proof fn lemma_page_row_decoded(d: Seq<u8>, page_size: nat, cols: Seq<crate::schema::Column>, s: int)
    requires
        page_row(d, page_size, cols, s) is Some,
        columns_view(cols) == crate::commands::demo_columns(),
    ensures
        demo_decoded(page_row(d, page_size, cols, s)->0),
{
    let b = (crate::page::record_of(d, page_size, s)->0).1;
    assert(decode(b, cols) == Ok::<_, DecodeFault>(page_row(d, page_size, cols, s)->0));
}

/// Shows the live rows of one heap page that decode against the demo columns, numbered from
/// `before`, stopping after the row that brings the count to 25 (then logging the marker).
/// Returns the rows shown and whether the page has no slots at all.
fn dump_page<const PAGE_SIZE: usize>(
    page: &SlottedPage<PAGE_SIZE>,
    schema: &crate::schema::Schema,
    before: usize,
    state: &mut AppState,
) -> (r: (Vec<Vec<Value>>, bool))
    requires
        page.data@.len() == PAGE_SIZE,
        16 <= PAGE_SIZE,
        before <= 1000,
        columns_view(schema.columns@) == crate::commands::demo_columns(),
    ensures
        final(state).same_but_log(old(state)),
        scroll_kept(*old(state), *final(state)),
        before >= 25 ==> r.0@.len() <= 1,
        before < 25 ==> before + r.0@.len() <= 25,
        page_stops(shown_rows(r.0@), before as nat),
        r.0@.len() <= 25,
        forall|j: int| 0 <= j < r.0@.len() ==> demo_decoded(#[trigger] values_view(r.0@[j]@)),
        final(state).lines() == old(state).lines() + lines_of(
            page_lines(shown_rows(r.0@), before as nat),
        ),
        r.1 == (page.header_view().total_slots == 0),
        rows_of_page(page.data@, PAGE_SIZE as nat, schema.columns@, before as nat, shown_rows(r.0@)),
{
    let ghost base = state.lines();
    let ghost d = page.data@;
    let ghost cols = schema.columns@;
    let total = page.header().total_slots as usize;
    let mut shown: Vec<Vec<Value>> = Vec::new();
    let mut printed = before;
    let mut slot: usize = 0;
    proof {
        assert(shown_rows(shown@) =~= Seq::<Seq<ValueView>>::empty());
        assert(row_lines(Seq::<Seq<ValueView>>::empty(), before as nat) =~= Seq::<Seq<char>>::empty());
    }
    while slot < total
        invariant
            page.data@.len() == PAGE_SIZE,
            16 <= PAGE_SIZE,
            before <= 1000,
            columns_view(schema.columns@) == crate::commands::demo_columns(),
            printed == before + shown@.len(),
            base == old(state).lines(),
            shown@.len() == 0 || printed < 25,
            shown@.len() <= 25,
            forall|j: int| 0 <= j < shown@.len() ==> demo_decoded(#[trigger] values_view(shown@[j]@)),
            state.lines() == base + lines_of(row_lines(shown_rows(shown@), before as nat)),
            state.same_but_log(old(state)),
            scroll_kept(*old(state), *state),
            d == page.data@,
            cols == schema.columns@,
            total == page.header_view().total_slots,
            slot <= total,
            shown_rows(shown@) == live_rows(d, PAGE_SIZE as nat, cols, slot as int),
        decreases total - slot,
    {
        let ghost old_shown0 = shown@;
        match slot_row(page, schema, slot) {
            Some(values) => {
                let mut line = text("Row ");
                push_u64(&mut line, printed as u64);
                push_str(&mut line, ": ");
                push_row(&mut line, &values);
                state.say(&line);
                let ghost old_rows = shown_rows(shown@);
                let ghost old_shown = shown@;
                proof {
                    lemma_lines_of_push(row_lines(old_rows, before as nat), line@);
                    lemma_page_row_decoded(d, PAGE_SIZE as nat, cols, slot as int);
                }
                shown.push(values);
                proof {
                    let rows = shown_rows(shown@);
                    assert(rows =~= old_rows.push(values_view(values@)));
                    assert(rows == live_rows(d, PAGE_SIZE as nat, cols, slot + 1));
                    assert(row_lines(rows, before as nat) =~= row_lines(old_rows, before as nat).push(line@));
                    assert(state.lines() =~= base + lines_of(row_lines(rows, before as nat)));
                    assert forall|j: int| 0 <= j < shown@.len() implies demo_decoded(#[trigger] values_view(shown@[j]@)) by {
                        if j < old_shown.len() {
                            assert(shown@[j] == old_shown[j]);
                        }
                    }
                }
                printed = printed + 1;
                if printed >= 25 {
                    let marker = text("... (output truncated at 50 rows) ...");
                    let ghost mid = state.lines();
                    state.say(&marker);
                    proof {
                        let rows = shown_rows(shown@);
                        lemma_lines_of_push(row_lines(rows, before as nat), marker@);
                        assert(rows.len() == shown@.len());
                        assert(page_lines(rows, before as nat) =~= row_lines(rows, before as nat).push(marker@));
                        assert(mid == base + lines_of(row_lines(rows, before as nat)));
                        assert(state.lines() == mid + text_lines(marker@));
                        assert(lines_of(page_lines(rows, before as nat)) == lines_of(row_lines(rows, before as nat)) + text_lines(marker@));
                        assert(state.lines() =~= base + lines_of(page_lines(rows, before as nat)));
                        assert(rows_of_page(d, PAGE_SIZE as nat, cols, before as nat, rows)) by {
                            assert(live_rows(d, PAGE_SIZE as nat, cols, slot + 1) == rows);
                        }
                    }
                    return (shown, false);
                }
            },
            None => {
                assert(live_rows(d, PAGE_SIZE as nat, cols, slot + 1) == live_rows(d, PAGE_SIZE as nat, cols, slot as int));
            },
        }
        slot += 1;
    }
    proof {
        let rows = shown_rows(shown@);
        assert(page_lines(rows, before as nat) =~= row_lines(rows, before as nat));
        assert(live_rows(d, PAGE_SIZE as nat, cols, total as int) == rows);
    }
    (shown, total == 0)
}

proof fn lemma_select_found<const PAGE_SIZE: usize, D: DiskManager<PAGE_SIZE>, L: LogManager>(
    name: Seq<char>,
    base: Seq<Seq<char>>,
    s0: AppState,
    s1: AppState,
    tables: Seq<TableView>,
    b0: BufferPoolManager<PAGE_SIZE, D, L>,
    pages: Seq<Seq<Seq<ValueView>>>,
    cols: Seq<crate::schema::Column>,
)
    requires
        columns_view(cols) == crate::commands::demo_columns(),
        b0.no_lost_writes() ==> pages_shown(b0, tables[table_index(tables, name)->0].heap_relation_id, cols, pages)
            && pages_continue(b0, tables[table_index(tables, name)->0].heap_relation_id, pages, pages.len() - 1),
        table_index(tables, name) is Some,
        name == demo_name(),
        s1.active_table matches Some(a) && a@ == name,
        s1.root_id == recorded_root(tables[table_index(tables, name)->0]),
        s1.data_dir == s0.data_dir,
        pages.len() <= 10,
        forall|p: int| 0 <= p < pages.len() ==> page_stops(#[trigger] pages[p], rows_total(pages.take(p))),
        forall|p: int, j: int| 0 <= p < pages.len() && 0 <= j < pages[p].len() ==> demo_decoded(#[trigger] pages[p][j]),
        s1.lines() == base + lines_of(
            seq!["--- Data for table '"@ + name + "' ---"@] + scan_lines(pages) + seq![scan_footer(rows_total(pages))],
        ),
    ensures
        select_done(name, base, s0, s1, tables, b0),
{
    let h = tables[table_index(tables, name)->0].heap_relation_id;
    assert(scan_shown(name, base, s1, h, b0, pages, cols));
}

/// The bytes that page `p` of a heap file holds, as the pool sees them.
pub open spec fn heap_page<const PAGE_SIZE: usize, D: DiskManager<PAGE_SIZE>, L: LogManager>(
    b: BufferPoolManager<PAGE_SIZE, D, L>,
    heap_id: u32,
    p: int,
) -> Seq<u8> {
    b.content(PageId { file_id: heap_id, page_num: p as u32 })
}

/// Each entry of `pages` holds what the heap page of that number shows, in page order.
pub open spec fn pages_shown<const PAGE_SIZE: usize, D: DiskManager<PAGE_SIZE>, L: LogManager>(
    b: BufferPoolManager<PAGE_SIZE, D, L>,
    heap_id: u32,
    cols: Seq<crate::schema::Column>,
    pages: Seq<Seq<Seq<ValueView>>>,
) -> bool {
    forall|p: int|
        0 <= p < pages.len() ==> rows_of_page(
            heap_page(b, heap_id, p),
            PAGE_SIZE as nat,
            cols,
            rows_total(pages.take(p)),
            #[trigger] pages[p],
        )
}

/// Heap page `p` has at least one slot.
#[verifier::opaque]
pub open spec fn page_has_slots<const PAGE_SIZE: usize, D: DiskManager<PAGE_SIZE>, L: LogManager>(
    b: BufferPoolManager<PAGE_SIZE, D, L>,
    heap_id: u32,
    p: int,
) -> bool {
    crate::page::header_of(heap_page(b, heap_id, p)).total_slots != 0
}

/// The scan went on past each of the first `n` pages: each had slots, and fewer than 50 rows
/// had been shown after it.
pub open spec fn pages_continue<const PAGE_SIZE: usize, D: DiskManager<PAGE_SIZE>, L: LogManager>(
    b: BufferPoolManager<PAGE_SIZE, D, L>,
    heap_id: u32,
    pages: Seq<Seq<Seq<ValueView>>>,
    n: int,
) -> bool {
    forall|p: int|
        0 <= p < n ==> page_has_slots(b, heap_id, p) && rows_total(pages.take(p)) + (#[trigger] pages[p]).len() < 50
}

proof fn lemma_pages_shown_push<const PAGE_SIZE: usize, D: DiskManager<PAGE_SIZE>, L: LogManager>(
    b: BufferPoolManager<PAGE_SIZE, D, L>,
    heap_id: u32,
    cols: Seq<crate::schema::Column>,
    pages: Seq<Seq<Seq<ValueView>>>,
    rows: Seq<Seq<ValueView>>,
)
    requires
        pages_shown(b, heap_id, cols, pages),
        rows_of_page(heap_page(b, heap_id, pages.len() as int), PAGE_SIZE as nat, cols, rows_total(pages), rows),
    ensures
        pages_shown(b, heap_id, cols, pages.push(rows)),
{
    assert forall|p: int| 0 <= p < pages.len() + 1 implies rows_of_page(
        heap_page(b, heap_id, p),
        PAGE_SIZE as nat,
        cols,
        rows_total(pages.push(rows).take(p)),
        #[trigger] pages.push(rows)[p],
    ) by {
        if p < pages.len() {
            assert(pages.push(rows).take(p) =~= pages.take(p));
            assert(pages.push(rows)[p] == pages[p]);
        } else {
            assert(pages.push(rows).take(p) =~= pages);
        }
    }
}

#[verifier::rlimit(40)]
#[verifier::spinoff_prover]
proof fn lemma_pages_continue_push<const PAGE_SIZE: usize, D: DiskManager<PAGE_SIZE>, L: LogManager>(
    b: BufferPoolManager<PAGE_SIZE, D, L>,
    heap_id: u32,
    pages: Seq<Seq<Seq<ValueView>>>,
    rows: Seq<Seq<ValueView>>,
)
    requires
        pages_continue(b, heap_id, pages, pages.len() as int),
    ensures
        pages_continue(b, heap_id, pages.push(rows), pages.len() as int),
        page_has_slots(b, heap_id, pages.len() as int) && rows_total(pages) + rows.len() < 50 ==> pages_continue(
            b,
            heap_id,
            pages.push(rows),
            pages.len() + 1int,
        ),
{
    let q = pages.push(rows);
    assert forall|p: int| 0 <= p < pages.len() implies page_has_slots(b, heap_id, p) && rows_total(q.take(p))
        + (#[trigger] q[p]).len() < 50 by {
        assert(q.take(p) =~= pages.take(p));
        assert(q[p] == pages[p]);
        assert(page_has_slots(b, heap_id, p) && rows_total(pages.take(p)) + pages[p].len() < 50);
    }
    assert(q.take(pages.len() as int) =~= pages);
    assert(q[pages.len() as int] == rows);
}

/// Shows the demo rows of up to ten pages of a heap file, from its first page on, stopping
/// at the first page that cannot be brought in or has no slots. Returns how many rows were
/// shown, and the rows of each page.
#[verifier::rlimit(60)]
#[verifier::spinoff_prover]
fn dump_pages<const PAGE_SIZE: usize, D: DiskManager<PAGE_SIZE>, L: LogManager>(
    heap_id: u32,
    schema: &crate::schema::Schema,
    state: &mut AppState,
    bpm: &mut BufferPoolManager<PAGE_SIZE, D, L>,
) -> (r: (usize, Ghost<Seq<Seq<Seq<ValueView>>>>))
    requires
        old(bpm).wf(),
        44 <= PAGE_SIZE,
        columns_view(schema.columns@) == crate::commands::demo_columns(),
    ensures
        final(bpm).wf(),
        final(state).same_but_log(old(state)),
        scroll_kept(*old(state), *final(state)),
        r.0 == rows_total(r.1@),
        r.1@.len() <= 10,
        forall|p: int| 0 <= p < r.1@.len() ==> page_stops(#[trigger] r.1@[p], rows_total(r.1@.take(p))),
        forall|p: int, j: int| 0 <= p < r.1@.len() && 0 <= j < r.1@[p].len() ==> demo_decoded(#[trigger] r.1@[p][j]),
        final(state).lines() == old(state).lines() + lines_of(scan_lines(r.1@)),
        old(bpm).no_lost_writes() ==> pages_shown(*old(bpm), heap_id, schema.columns@, r.1@),
        old(bpm).no_lost_writes() ==> pages_continue(*old(bpm), heap_id, r.1@, r.1@.len() - 1),
{
    let ghost base = state.lines();
    let ghost mut pages: Seq<Seq<Seq<ValueView>>> = Seq::empty();
    let mut printed: usize = 0;
    let mut page_num: u32 = 0;
    assert(state.lines() =~= base + lines_of(scan_lines(pages)));
    while page_num < 10
        invariant_except_break
            old(bpm).no_lost_writes() ==> bpm.no_lost_writes() && forall|q: PageId|
                #[trigger] bpm.content(q) == old(bpm).content(q),
            old(bpm).no_lost_writes() ==> pages_continue(*old(bpm), heap_id, pages, pages.len() as int),
        invariant
            bpm.wf(),
            44 <= PAGE_SIZE,
            columns_view(schema.columns@) == crate::commands::demo_columns(),
            pages.len() == page_num,
            page_num <= 10,
            printed == rows_total(pages),
            printed <= 25 + page_num,
            forall|p: int| 0 <= p < pages.len() ==> page_stops(#[trigger] pages[p], rows_total(pages.take(p))),
            forall|p: int, j: int| 0 <= p < pages.len() && 0 <= j < pages[p].len() ==> demo_decoded(#[trigger] pages[p][j]),
            state.lines() == base + lines_of(scan_lines(pages)),
            state.same_but_log(old(state)),
            scroll_kept(*old(state), *state),
            old(bpm).no_lost_writes() ==> pages_shown(*old(bpm), heap_id, schema.columns@, pages),
            old(bpm).no_lost_writes() ==> pages_continue(*old(bpm), heap_id, pages, pages.len() - 1),
        decreases 10 - page_num,
    {
        let page_id = PageId { file_id: heap_id, page_num };
        let frame_id = match bpm.fetch_page(page_id) {
            Ok(f) => f,
            Err(_) => {
                break;
            },
        };
        proof {
            bpm.lemma_page_size();
        }
        let ghost frame_bytes = bpm.data(frame_id as int);
        let (shown, empty_page) = dump_page(bpm.read_page(frame_id), schema, printed, state);
        let ghost rows = shown_rows(shown@);
        let _ = bpm.unpin_page(page_id, false);
        proof {
            if old(bpm).no_lost_writes() {
                assert(frame_bytes == heap_page(*old(bpm), heap_id, pages.len() as int));
                lemma_pages_shown_push(*old(bpm), heap_id, schema.columns@, pages, rows);
                lemma_pages_continue_push(*old(bpm), heap_id, pages, rows);
            }
        }
        proof {
            lemma_scan_push(pages, rows);
            lemma_lines_of_append(scan_lines(pages), page_lines(rows, rows_total(pages)));
            assert forall|p: int| 0 <= p < pages.len() + 1 implies page_stops(
                #[trigger] pages.push(rows)[p],
                rows_total(pages.push(rows).take(p)),
            ) by {
                if p < pages.len() {
                    assert(pages.push(rows).take(p) =~= pages.take(p));
                } else {
                    assert(pages.push(rows).take(p) =~= pages);
                }
            }
            assert forall|p: int, j: int| 0 <= p < pages.len() + 1 && 0 <= j < pages.push(rows)[p].len() implies demo_decoded(
                #[trigger] pages.push(rows)[p][j],
            ) by {
                if p == pages.len() {
                    assert(rows[j] == values_view(shown@[j]@));
                }
            }
            pages = pages.push(rows);
        }
        printed = printed + shown.len();
        page_num += 1;
        if empty_page || printed >= 50 {
            break;
        }
        proof {
            if old(bpm).no_lost_writes() {
                assert(page_has_slots(*old(bpm), heap_id, pages.len() - 1)) by {
                    reveal(page_has_slots);
                }
            }
        }
    }
    (printed, Ghost(pages))
}

/// Dumps a table to the log. Only the demo table's rows are decoded: up to ten pages of its
/// heap are read in order, stopping at the first page that cannot be brought in or has no
/// slots; deleted records and records that do not decode are skipped.
pub fn process_select<const PAGE_SIZE: usize, D: DiskManager<PAGE_SIZE>, L: LogManager>(
    state: &mut AppState,
    catalog: &mut Catalog,
    bpm: &mut BufferPoolManager<PAGE_SIZE, D, L>,
    table_name: &str,
) -> (r: Result<(), CommandError>)
    requires
        old(catalog).wf(),
        old(bpm).wf(),
        44 <= PAGE_SIZE,
    ensures
        r is Ok,
        *final(catalog) == *old(catalog),
        final(bpm).wf(),
        final(state).vertical_scroll == usize::MAX,
        select_done(table_name@, old(state).lines(), *old(state), *final(state), old(catalog).tables(), *old(bpm)),
{
    let ghost base = state.lines();
    let meta = match catalog.get_table(table_name) {
        Ok(m) => m,
        Err(_) => {
            let mut m = text("Table '");
            push_str(&mut m, table_name);
            push_str(&mut m, "' not found.");
            state.say(&m);
            proof {
                lemma_lines_of_push(Seq::<Seq<char>>::empty(), m@);
                assert(Seq::<Seq<char>>::empty().push(m@) =~= seq!["Table '"@ + table_name@ + "' not found."@]);
            }
            return Ok(());
        },
    };
    let name_chars = chars_of(table_name);
    let demo = text("demo_users");
    if !chars_eq(name_chars.as_slice(), demo.as_slice()) {
        let m = text("Note: Only 'demo_users' schema is currently fully supported for binary deserialization.");
        state.say(&m);
        proof {
            lemma_lines_of_push(Seq::<Seq<char>>::empty(), m@);
            assert(Seq::<Seq<char>>::empty().push(m@) =~= seq![unsupported_note()]);
        }
        return Ok(());
    }
    let schema = demo_schema();
    state.active_table = Some(String::from_str(table_name));
    state.root_id = match meta.root_page_num {
        Some(n) => Some(PageId { file_id: meta.index_relation_id, page_num: n }),
        None => None,
    };
    let mut header = text("--- Data for table '");
    push_str(&mut header, table_name);
    push_str(&mut header, "' ---");
    state.say(&header);
    let ghost head = seq![header@];
    proof {
        lemma_lines_of_push(Seq::<Seq<char>>::empty(), header@);
        assert(Seq::<Seq<char>>::empty().push(header@) =~= head);
    }
    let ghost after_head = state.lines();
    assert(after_head == base + lines_of(head));
    let (printed, pages) = dump_pages(meta.heap_relation_id, &schema, state, bpm);
    let ghost after_rows = state.lines();
    let mut footer = text("0 rows returned.");
    if printed > 0 {
        footer = text("--- End of Scan (");
        push_u64(&mut footer, printed as u64);
        push_str(&mut footer, " rows) ---");
    }
    state.say(&footer);
    proof {
        lemma_lines_of_append(head, scan_lines(pages@));
        lemma_lines_of_push(head + scan_lines(pages@), footer@);
        assert(footer@ == scan_footer(rows_total(pages@)));
        assert((head + scan_lines(pages@)).push(footer@) =~= head + scan_lines(pages@) + seq![scan_footer(rows_total(pages@))]);
        assert(after_rows == after_head + lines_of(scan_lines(pages@)));
        assert(state.lines() == after_rows + text_lines(footer@));
        assert(state.lines() =~= base + lines_of(head + scan_lines(pages@) + seq![scan_footer(rows_total(pages@))]));
        lemma_select_found(table_name@, base, *old(state), *state, old(catalog).tables(), *old(bpm), pages@, schema.columns@);
    }
    Ok(())
}

// ---------------------------------------------------------------------------
// Key lookups and deletes
// ---------------------------------------------------------------------------

/// The reply when no table is active.
pub open spec fn no_active_table() -> Seq<char> {
    "No active table. Use \\demo or \\select to activate one."@
}

/// The reply to a key found in the index.
pub open spec fn key_found(key: i32, c: CTID) -> Seq<char> {
    "Key "@ + int_decimal(key as int) + " found at CTID: "@ + ctid_text(c)
}

/// The reply to a key the index does not hold.
pub open spec fn key_missing(key: i32) -> Seq<char> {
    "Key "@ + int_decimal(key as int) + " not found."@
}

/// The reply to a key deleted from the index.
pub open spec fn key_deleted(key: i32) -> Seq<char> {
    "Successfully deleted key "@ + int_decimal(key as int) + " from index."@
}

/// The reply to a delete the index refused.
pub open spec fn delete_failed(key: i32, e: crate::btree_node::BTreeError) -> Seq<char> {
    "Failed to delete key "@ + int_decimal(key as int) + ": "@ + index_error_text(e)
}

/// What a lookup or delete of `key` in the active table's index did, after `base`: without an
/// active table it says so; an active table the catalog lacks is an error; otherwise the
/// catalog and the active table are unchanged, a lookup reports the tuple id found (held by a
/// leaf in the pool) or that the key is missing, and a delete reports success or the index's
/// error, leaving the console on the table's recorded root.
pub open spec fn lookup_done<const PAGE_SIZE: usize, D: DiskManager<PAGE_SIZE>, L: LogManager>(
    key: i32,
    is_delete: bool,
    base: Seq<Seq<char>>,
    s0: AppState,
    s1: AppState,
    c0: Seq<TableView>,
    c1: Seq<TableView>,
    pool: BufferPoolManager<PAGE_SIZE, D, L>,
    r: Result<(), CommandError>,
) -> bool {
    &&& c1 == c0
    &&& s1.data_dir == s0.data_dir
    &&& s1.active_table == s0.active_table
    &&& match s0.active_table {
        None => r is Ok && s1.lines() == base + lines_of(seq![no_active_table()]) && s1.root_id == s0.root_id,
        Some(name) => match table_index(c0, name@) {
            None => r matches Err(CommandError::Catalog(CatalogError::TableNotFound(n))) && n@ == name@ && s1.lines()
                == base && s1.root_id == s0.root_id,
            Some(k) => {
                &&& r is Ok
                &&& if !is_delete {
                    &&& s1.root_id == s0.root_id
                    &&& s1.lines() == base + lines_of(seq![key_missing(key)]) || exists|c: CTID|
                        s1.lines() == base + lines_of(seq![#[trigger] key_found(key, c)])
                            && crate::btree::in_some_leaf(&pool, key, c)
                } else {
                    &&& s1.root_id == (if recorded_root(c0[k]) is Some {
                        recorded_root(c0[k])
                    } else {
                        s0.root_id
                    })
                    &&& s1.lines() == base + lines_of(seq![key_deleted(key)]) || exists|e: crate::btree_node::BTreeError|
                        s1.lines() == base + lines_of(seq![#[trigger] delete_failed(key, e)])
                }
            },
        },
    }
}

fn say_one(state: &mut AppState, m: &Vec<char>)
    ensures
        final(state).lines() == old(state).lines() + lines_of(seq![m@]),
        final(state).same_but_log(old(state)),
        final(state).vertical_scroll == usize::MAX,
{
    state.say(m);
    proof {
        lemma_lines_of_push(Seq::<Seq<char>>::empty(), m@);
        assert(Seq::<Seq<char>>::empty().push(m@) =~= seq![m@]);
    }
}

fn key_line(prefix: &str, key: i32, suffix: &str) -> (r: Vec<char>)
    ensures
        r@ == prefix@ + int_decimal(key as int) + suffix@,
{
    let mut m = text(prefix);
    let t = int_text(key);
    push_chars(&mut m, &t);
    push_str(&mut m, suffix);
    m
}

/// Marks the heap record a tuple id names as deleted, when its page comes in with a well-formed
/// layout.
fn mark_heap_record<const PAGE_SIZE: usize, D: DiskManager<PAGE_SIZE>, L: LogManager>(
    ctid: CTID,
    bpm: &mut BufferPoolManager<PAGE_SIZE, D, L>,
)
    requires
        old(bpm).wf(),
    ensures
        final(bpm).wf(),
        ({
            let d = old(bpm).content(ctid.page_id);
            old(bpm).frame_of(ctid.page_id) is Some && crate::page::page_wf(d, PAGE_SIZE as nat) ==> match crate::page::record_of(
                d,
                PAGE_SIZE as nat,
                ctid.slot_idx as int,
            ) {
                Some((h, b)) => crate::page::record_of(final(bpm).content(ctid.page_id), PAGE_SIZE as nat, ctid.slot_idx as int)
                    == Some((crate::page::TupleHeader { xmin: h.xmin, xmax: crate::commands::RECORD_XMAX }, b)),
                None => true,
            }
        }),
{
    proof {
        bpm.lemma_content_in_pool(ctid.page_id);
    }
    match bpm.fetch_page(ctid.page_id) {
        Ok(frame) => {
            proof {
                bpm.lemma_page_size();
            }
            let mut page = SlottedPage::<PAGE_SIZE> { data: bpm.read_page(frame).data.clone() };
            if page.check_wf() {
                let _ = page.mark_deleted(ctid.slot_idx as usize, crate::commands::RECORD_XMAX);
                bpm.write_page(frame, page);
            }
            let _ = bpm.unpin_page(ctid.page_id, true);
        },
        Err(_) => {},
    }
}

/// Looks up (or deletes) a key in the index of the active table. A delete also marks the
/// heap record the key pointed to as deleted, and leaves the console on the index's root.
pub fn process_search_delete<const PAGE_SIZE: usize, D: DiskManager<PAGE_SIZE>, L: LogManager>(
    state: &mut AppState,
    catalog: &mut Catalog,
    bpm: &mut BufferPoolManager<PAGE_SIZE, D, L>,
    key: i32,
    is_delete: bool,
) -> (r: Result<(), CommandError>)
    requires
        old(catalog).wf(),
        old(bpm).wf(),
        44 <= PAGE_SIZE,
    ensures
        final(catalog).wf(),
        final(bpm).wf(),
        scroll_kept(*old(state), *final(state)),
        lookup_done(
            key,
            is_delete,
            old(state).lines(),
            *old(state),
            *final(state),
            old(catalog).tables(),
            final(catalog).tables(),
            *final(bpm),
            r,
        ),
{
    let ghost c0 = catalog.tables();
    let ghost base = state.lines();
    let table_name = match &state.active_table {
        Some(n) => String::from_str(n.as_str()),
        None => {
            let m = text("No active table. Use \\demo or \\select to activate one.");
            say_one(state, &m);
            return Ok(());
        },
    };
    let meta = match catalog.get_table(table_name.as_str()) {
        Ok(m) => m,
        Err(e) => {
            return Err(CommandError::Catalog(e));
        },
    };
    let ghost k = table_index(c0, table_name@)->0;
    let index_id = meta.index_relation_id;
    let root_page_id = match meta.root_page_num {
        Some(n) => Some(PageId { file_id: index_id, page_num: n }),
        None => None,
    };
    let mut btree = BTreeIndex::new(root_page_id, index_id);
    if is_delete {
        let ctid_to_delete = match btree.search(bpm, key) {
            Ok(c) => Some(c),
            Err(_) => None,
        };
        match btree.delete(bpm, key) {
            Ok(()) => {
                let m = key_line("Successfully deleted key ", key, " from index.");
                say_one(state, &m);
                match ctid_to_delete {
                    Some(ctid) => mark_heap_record(ctid, bpm),
                    None => {},
                }
            },
            Err(e) => {
                let mut m = key_line("Failed to delete key ", key, ": ");
                push_index_error(&mut m, &e);
                say_one(state, &m);
                assert(m@ == delete_failed(key, e));
            },
        }
        match btree.get_root_page_id() {
            Some(rt) => {
                match catalog.update_root_page(table_name.as_str(), Some(rt.page_num)) {
                    Ok(()) => {},
                    Err(e) => {
                        return Err(CommandError::Catalog(e));
                    },
                }
                proof {
                    assert(catalog.tables() =~= c0);
                }
                state.root_id = Some(rt);
            },
            None => {},
        }
    } else {
        match btree.search(bpm, key) {
            Ok(ctid) => {
                let mut m = key_line("Key ", key, " found at CTID: ");
                push_ctid(&mut m, ctid);
                say_one(state, &m);
                assert(m@ == key_found(key, ctid));
            },
            Err(_) => {
                let m = key_line("Key ", key, " not found.");
                say_one(state, &m);
            },
        }
    }
    Ok(())
}

// ---------------------------------------------------------------------------
// Dispatch
// ---------------------------------------------------------------------------

/// The state after a reply: the log grew by the echo of `cmd` and the lines of `msgs`, and
/// nothing else changed.
pub open spec fn replied(s0: AppState, s1: AppState, cmd: Seq<char>, msgs: Seq<Seq<char>>) -> bool {
    &&& s1.lines() == s0.lines() + text_lines(echo(cmd)) + lines_of(msgs)
    &&& s1.same_but_log(&s0)
}

/// The reply to a flush the pool could not complete.
pub open spec fn flush_failed(e: BufferError) -> Seq<char> {
    "Error flushing: "@ + buffer_error_text(e)
}

/// The reply to a lookup or delete without a key.
pub open spec fn key_usage(is_delete: bool) -> Seq<char> {
    if is_delete {
        "Usage: \\delete <key>"@
    } else {
        "Usage: \\search <key>"@
    }
}

/// The reply to a key that is not a 32-bit integer.
pub open spec fn bad_key() -> Seq<char> {
    "Error: Key must be an integer."@
}

/// The reply to `\select` without a table.
pub open spec fn select_usage() -> Seq<char> {
    "Usage: \\select <table_name>"@
}

/// A lookup or delete result as a console result.
pub open spec fn as_unit(r: Result<ConsoleOutcome, CommandError>) -> Result<(), CommandError> {
    match r {
        Ok(_) => Ok(()),
        Err(e) => Err(e),
    }
}

fn is_word(w: &Vec<char>, s: &str) -> (r: bool)
    ensures
        r == (w@ == s@),
{
    let t = chars_of(s);
    chars_eq(w.as_slice(), t.as_slice())
}

fn help_text() -> (r: Vec<Vec<char>>)
    ensures
        views(r@) == help_lines(),
{
    let mut v: Vec<Vec<char>> = Vec::new();
    v.push(text("Available Commands:"));
    v.push(text("  \\list-tables         - Lists all tables in the catalog."));
    v.push(text("  \\demo <count>        - Creates 'demo_users' and generates realistic data."));
    v.push(text("  \\select <name>       - Prints data from a table."));
    v.push(text("  \\search <key>        - Searches for a specific key in the active table's B+Tree."));
    v.push(text("  \\delete <key>        - Deletes a key from the active table's B+Tree."));
    v.push(text("  \\stats               - Displays detailed system statistics."));
    v.push(text("  \\flush               - Flushes all pages to disk."));
    v.push(text("  \\quit                - Exits the application."));
    assert(views(v@) =~= help_lines());
    v
}

fn table_list_text(catalog: &Catalog) -> (r: Vec<Vec<char>>)
    ensures
        views(r@) == table_list(catalog.tables()),
{
    let tables = catalog.list_tables();
    let ghost ts = catalog.tables();
    let mut v: Vec<Vec<char>> = Vec::new();
    if tables.len() == 0 {
        v.push(text("No tables exist in the catalog."));
        assert(views(v@) =~= table_list(ts));
        return v;
    }
    v.push(text("Tables in Catalog:"));
    let mut i: usize = 0;
    while i < tables.len()
        invariant
            i <= tables@.len(),
            tables@.map_values(|t: crate::catalog::TableMetadata| t@) == ts,
            views(v@) == seq!["Tables in Catalog:"@] + ts.take(i as int).map_values(
                |t: TableView| table_line(t),
            ),
        decreases tables@.len() - i,
    {
        let t = &tables[i];
        let mut line = text("  - ");
        push_str(&mut line, t.name.as_str());
        push_str(&mut line, " (Heap: ");
        push_u64(&mut line, t.heap_relation_id as u64);
        push_str(&mut line, ", Index: ");
        push_u64(&mut line, t.index_relation_id as u64);
        push_str(&mut line, ")");
        let ghost before = views(v@);
        v.push(line);
        proof {
            assert(ts[i as int] == t@);
            assert(line@ == table_line(ts[i as int]));
            assert(ts.take(i + 1).map_values(|t: TableView| table_line(t)) =~= ts.take(i as int).map_values(
                |t: TableView| table_line(t),
            ).push(line@));
            assert(views(v@) =~= before.push(line@));
        }
        i += 1;
    }
    assert(ts.take(i as int) =~= ts);
    v
}

fn unknown_text(w: &Vec<char>) -> (r: Vec<Vec<char>>)
    ensures
        views(r@) == unknown_reply(w@),
{
    let mut first = text("Error: Unknown command '");
    push_chars(&mut first, w);
    push_str(&mut first, "'");
    let mut v: Vec<Vec<char>> = Vec::new();
    v.push(first);
    v.push(text("Type \\help for a list of commands."));
    assert(views(v@) =~= unknown_reply(w@));
    v
}

/// What a command line did: see `process_command`.
pub open spec fn command_done<const PAGE_SIZE: usize, D: DiskManager<PAGE_SIZE>, L: LogManager>(
    cmd: Seq<char>,
    s0: AppState,
    s1: AppState,
    c0t: Seq<TableView>,
    c1t: Seq<TableView>,
    b0: BufferPoolManager<PAGE_SIZE, D, L>,
    b1: BufferPoolManager<PAGE_SIZE, D, L>,
    r: Result<ConsoleOutcome, CommandError>,
) -> bool {
            let ws = words(cmd);
    let base = s0.lines() + text_lines(echo(cmd));
    let c0 = c0t;
    let c1 = c1t;
    let quiet = c1 == c0 && b1 == b0;
    let first = if ws.len() > 0 {
        ws[0]
    } else {
        Seq::empty()
    };
    &&& ws.len() == 0 ==> r == Ok::<_, CommandError>(ConsoleOutcome::Done) && replied(s0, s1, cmd, seq![])
        && quiet
    &&& ws.len() > 0 && !known_command(first) ==> r == Ok::<_, CommandError>(ConsoleOutcome::Done) && replied(
        s0,
        s1,
        cmd,
        unknown_reply(first),
    ) && quiet
    &&& ws.len() > 0 && first == "\\help"@ ==> r == Ok::<_, CommandError>(ConsoleOutcome::Done) && replied(
        s0,
        s1,
        cmd,
        help_lines(),
    ) && quiet
    &&& ws.len() > 0 && first == "\\list-tables"@ ==> r == Ok::<_, CommandError>(ConsoleOutcome::Done) && replied(
        s0,
        s1,
        cmd,
        table_list(c0),
    ) && quiet
    &&& ws.len() > 0 && first == "\\stats"@ ==> r == Ok::<_, CommandError>(ConsoleOutcome::ShowStats) && replied(
        s0,
        s1,
        cmd,
        seq![],
    ) && quiet
    &&& ws.len() > 0 && first == "\\flush"@ ==> {
        &&& c1 == c0
        &&& r is Ok
        &&& r == Ok::<_, CommandError>(ConsoleOutcome::FlushCatalog) ==> replied(s0, s1, cmd, seq![])
        &&& r == Ok::<_, CommandError>(ConsoleOutcome::Done) ==> exists|e: BufferError|
            replied(s0, s1, cmd, seq![#[trigger] flush_failed(e)])
    }
    &&& ws.len() > 0 && first == "\\demo"@ ==> (r is Ok ==> r == Ok::<_, CommandError>(ConsoleOutcome::Done)
        && demo_done(demo_count_arg(ws), base, s0, s1, c0, c1))
    &&& ws.len() > 0 && first == "\\select"@ ==> if ws.len() < 2 {
        r == Ok::<_, CommandError>(ConsoleOutcome::Done) && replied(s0, s1, cmd, seq![select_usage()])
            && quiet
    } else {
        r == Ok::<_, CommandError>(ConsoleOutcome::Done) && c1 == c0 && select_done(
            ws[1],
            base,
            s0,
            s1,
            c0,
            b0,
        )
    }
    &&& ws.len() > 0 && (first == "\\search"@ || first == "\\delete"@) ==> {
        let is_delete = first == "\\delete"@;
        if ws.len() < 2 {
            r == Ok::<_, CommandError>(ConsoleOutcome::Done) && replied(
                s0,
                s1,
                cmd,
                seq![key_usage(is_delete)],
            ) && quiet
        } else {
            match parse_i32(ws[1]) {
                None => r == Ok::<_, CommandError>(ConsoleOutcome::Done) && replied(
                    s0,
                    s1,
                    cmd,
                    seq![bad_key()],
                ) && quiet,
                Some(key) => (r is Ok ==> r == Ok::<_, CommandError>(ConsoleOutcome::Done)) && lookup_done(
                    key,
                    is_delete,
                    base,
                    s0,
                    s1,
                    c0,
                    c1,
                    b1,
                    as_unit(r),
                ),
            }
        }
    }
}

/// Runs one console command line: echoes it, then acts on its first word. `\help` and
/// `\list-tables` reply with text; `\demo [count]` runs the demonstration (500 rows when the
/// count is missing or not a count); `\flush` flushes the pool and asks the caller to save the
/// catalog; `\select <table>` dumps a table; `\stats` asks the caller to show statistics;
/// `\search <key>` and `\delete <key>` work on the active table's index; any other word is
/// reported as unknown.
pub fn process_command<const PAGE_SIZE: usize, D: DiskManager<PAGE_SIZE>, L: LogManager>(
    cmd: &str,
    state: &mut AppState,
    catalog: &mut Catalog,
    bpm: &mut BufferPoolManager<PAGE_SIZE, D, L>,
) -> (r: Result<ConsoleOutcome, CommandError>)
    requires
        old(catalog).wf(),
        old(catalog).next_id() <= u32::MAX - 2,
        old(bpm).wf(),
        44 <= PAGE_SIZE,
    ensures
        final(catalog).wf(),
        final(bpm).wf(),
        final(state).vertical_scroll == usize::MAX,
        command_done(cmd@, *old(state), *final(state), old(catalog).tables(), final(catalog).tables(), *old(bpm), *final(bpm), r),
{
    proof {
        reveal_strlit("\\help");
        reveal_strlit("\\list-tables");
        reveal_strlit("\\demo");
        reveal_strlit("\\flush");
        reveal_strlit("\\select");
        reveal_strlit("\\stats");
        reveal_strlit("\\search");
        reveal_strlit("\\delete");
        assert("\\help"@ != "\\demo"@) by {
            assert("\\help"@[1] != "\\demo"@[1]);
        }
        assert("\\flush"@ != "\\stats"@) by {
            assert("\\flush"@[1] != "\\stats"@[1]);
        }
        assert("\\select"@ != "\\delete"@) by {
            assert("\\select"@[1] != "\\delete"@[1]);
        }
        assert("\\search"@ != "\\delete"@) by {
            assert("\\search"@[1] != "\\delete"@[1]);
        }
        assert("\\select"@ != "\\search"@) by {
            assert("\\select"@[3] != "\\search"@[3]);
        }
    }
    let ghost s0 = *state;
    let mut e = text("> ");
    push_str(&mut e, cmd);
    state.say(&e);
    let ghost base = state.lines();
    let cs = chars_of(cmd);
    let parts = words_chars(cs.as_slice());
    let ghost ws = words(cmd@);
    proof {
        assert(lines_of(Seq::<Seq<char>>::empty()) =~= Seq::<Seq<char>>::empty());
        assert(base =~= s0.lines() + text_lines(echo(cmd@)) + lines_of(Seq::<Seq<char>>::empty()));
    }
    if parts.len() == 0 {
        return Ok(ConsoleOutcome::Done);
    }
    let w = &parts[0];
    assert(w@ == ws[0]);
    if is_word(w, "\\help") {
        let v = help_text();
        say_all(state, &v);
        return Ok(ConsoleOutcome::Done);
    }
    if is_word(w, "\\list-tables") {
        let v = table_list_text(catalog);
        say_all(state, &v);
        return Ok(ConsoleOutcome::Done);
    }
    if is_word(w, "\\demo") {
        let count: usize = if parts.len() > 1 {
            match parse_usize_chars(parts[1].as_slice()) {
                Some(n) => n,
                None => 500,
            }
        } else {
            500
        };
        return match run_demo(count, state, catalog, bpm) {
            Ok(()) => Ok(ConsoleOutcome::Done),
            Err(err) => Err(err),
        };
    }
    if is_word(w, "\\flush") {
        return match bpm.flush_all_pages() {
            Ok(()) => Ok(ConsoleOutcome::FlushCatalog),
            Err(err) => {
                let mut m = text("Error flushing: ");
                push_buffer_error(&mut m, &err);
                say_one(state, &m);
                assert(m@ == flush_failed(err));
                Ok(ConsoleOutcome::Done)
            },
        };
    }
    if is_word(w, "\\select") {
        if parts.len() < 2 {
            let m = text("Usage: \\select <table_name>");
            say_one(state, &m);
            return Ok(ConsoleOutcome::Done);
        }
        let name = string_of(parts[1].as_slice());
        let _ = process_select(state, catalog, bpm, name.as_str());
        return Ok(ConsoleOutcome::Done);
    }
    if is_word(w, "\\stats") {
        return Ok(ConsoleOutcome::ShowStats);
    }
    let is_search = is_word(w, "\\search");
    let is_delete = is_word(w, "\\delete");
    if is_search || is_delete {
        if parts.len() < 2 {
            let m = if is_delete {
                text("Usage: \\delete <key>")
            } else {
                text("Usage: \\search <key>")
            };
            say_one(state, &m);
            return Ok(ConsoleOutcome::Done);
        }
        return match parse_i32_chars(parts[1].as_slice()) {
            Some(key) => match process_search_delete(state, catalog, bpm, key, is_delete) {
                Ok(()) => Ok(ConsoleOutcome::Done),
                Err(err) => Err(err),
            },
            None => {
                let m = text("Error: Key must be an integer.");
                say_one(state, &m);
                Ok(ConsoleOutcome::Done)
            },
        };
    }
    let v = unknown_text(w);
    say_all(state, &v);
    Ok(ConsoleOutcome::Done)
}

} // verus!
