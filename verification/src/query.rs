//! Volcano-style query execution: operators pull tuples from their children one at a time.
use crate::btree_node::BTreeError;
use crate::buffer::BufferError;
use crate::page::{header_of, record_of, read_u16, read_u64, TupleHeader};
use crate::predicate::col_position;
use crate::schema::{Column, Schema};
use crate::text::{chars_eq, chars_of, string_of};
use crate::tuple::{decode, encode_outcome, fault_message, fits_encoding, first_violation, DecodeFault, Tuple, TupleError};
use crate::sort::tuple_datas;
use crate::value::{values_view, Value, ValueView};
use vstd::prelude::*;
use vstd::string::*;

verus! {

broadcast use vstd::seq_lib::group_seq_properties;

/// Errors of query execution.
#[derive(Debug)]
pub enum QueryError {
    /// The execution logic failed, with a message.
    Execution(String),
    /// A tuple could not be encoded or decoded.
    Tuple(TupleError),
    /// The buffer pool failed.
    Buffer(BufferError),
    /// The index failed.
    Index(BTreeError),
    /// An I/O operation failed, with its message.
    Io(String),
}

/// What operators share while they run (the buffer pool the scans read through), and the
/// state they need it in.
pub trait ExecutionContext {
    /// The context is in a state operators can run in.
    spec fn ready(&self) -> bool;
}

/// Operators over tuples held in memory need nothing.
impl ExecutionContext for () {
    open spec fn ready(&self) -> bool {
        true
    }
}

/// An operator of a query plan, run against a context of type `C`.
pub trait Executor<C: ExecutionContext> {
    /// The operator is in a state it can run from.
    spec fn inv(&self) -> bool;

    /// The operator has given all its tuples: from here on it answers `None`.
    spec fn finished(&self) -> bool;

    /// The tuples the operator has given so far, in order.
    spec fn produced(&self) -> Seq<Tuple>;

    /// The next tuple, or `None` once the operator is exhausted. `None` comes exactly when the
    /// operator is finished, and it stays finished.
    fn next(&mut self, ctx: &mut C) -> (r: Result<Option<Tuple>, QueryError>)
        requires
            old(self).inv(),
            old(ctx).ready(),
        ensures
            final(self).inv(),
            final(ctx).ready(),
            final(self).out_schema() == old(self).out_schema(),
            old(self).finished() ==> r == Ok::<Option<Tuple>, QueryError>(None) && final(self).finished(),
            r == Ok::<Option<Tuple>, QueryError>(None) ==> final(self).finished(),
            match r {
                Ok(Some(t)) => final(self).produced() == old(self).produced().push(t),
                _ => final(self).produced() == old(self).produced(),
            },
    ;

    /// The schema of the tuples the operator produces.
    spec fn out_schema(&self) -> Schema;

    /// The schema of the tuples the operator produces.
    fn schema(&self) -> (r: &Schema)
        ensures
            *r == self.out_schema(),
    ;
}

/// A boxed operator runs as the operator it holds.
impl<C: ExecutionContext> Executor<C> for Box<dyn Executor<C>> {
    open spec fn inv(&self) -> bool {
        (**self).inv()
    }

    open spec fn out_schema(&self) -> Schema {
        (**self).out_schema()
    }

    open spec fn finished(&self) -> bool {
        (**self).finished()
    }

    open spec fn produced(&self) -> Seq<Tuple> {
        (**self).produced()
    }

    fn next(&mut self, ctx: &mut C) -> (r: Result<Option<Tuple>, QueryError>) {
        (**self).next(ctx)
    }

    fn schema(&self) -> &Schema {
        (**self).schema()
    }
}

// ---------------------------------------------------------------------------
// Reading records straight from page bytes
// ---------------------------------------------------------------------------

/// The number of slots the page header lists.
pub fn get_total_slots_from_bytes(data: &Vec<u8>) -> (r: usize)
    requires
        data@.len() >= 16,
    ensures
        r == header_of(data@).total_slots,
{
    read_u16(data, 8) as usize
}

/// The live record in a slot: its header and payload, when the slot exists, holds a record,
/// and the record is not marked deleted.
pub open spec fn live_record(d: Seq<u8>, slot_idx: int) -> Option<(TupleHeader, Seq<u8>)> {
    match record_of(d, d.len(), slot_idx) {
        Some((h, bytes)) => if h.xmax == 0 {
            Some((h, bytes))
        } else {
            None
        },
        None => None,
    }
}

/// The live record in a slot of raw page bytes.
pub fn get_record_from_bytes(data: &Vec<u8>, slot_idx: usize) -> (r: Option<(TupleHeader, Vec<u8>)>)
    requires
        16 <= data@.len() <= 0xffff,
    ensures
        match r {
            Some((h, b)) => live_record(data@, slot_idx as int) == Some((h, b@)),
            None => live_record(data@, slot_idx as int) is None,
        },
{
    let size = data.len();
    let total = read_u16(data, 8) as usize;
    if slot_idx >= total || 16 + 4 * slot_idx + 4 > size {
        return None;
    }
    let pos = 16 + 4 * slot_idx;
    let offset = read_u16(data, pos) as usize;
    let length = read_u16(data, pos + 2) as usize;
    if offset == 0 {
        return None;
    }
    let start = offset;
    let end = start + 16 + length;
    if end > size {
        return None;
    }
    let th = TupleHeader { xmin: read_u64(data, start), xmax: read_u64(data, start + 8) };
    if th.xmax != 0 {
        return None;
    }
    let mut bytes: Vec<u8> = Vec::new();
    let mut k = start + 16;
    while k < end
        invariant
            start + 16 <= k <= end <= size,
            size == data@.len(),
            bytes@ == data@.subrange(start + 16, k as int),
        decreases end - k,
    {
        bytes.push(data[k]);
        k += 1;
        proof {
            assert(bytes@ =~= data@.subrange(start + 16, k as int));
        }
    }
    Some((th, bytes))
}

// ---------------------------------------------------------------------------
// Helpers with exact contracts
// ---------------------------------------------------------------------------

/// A copy of a tuple.
pub fn copy_tuple(t: &Tuple) -> (r: Tuple)
    ensures
        r.data@ == t.data@,
{
    let d = t.data.clone();
    proof {
        assert(d@ =~= t.data@);
    }
    Tuple { data: d }
}

/// The values at the given positions, when all positions exist.
pub open spec fn projected(vals: Seq<ValueView>, idx: Seq<usize>) -> Option<Seq<ValueView>> {
    if forall|k: int| 0 <= k < idx.len() ==> #[trigger] idx[k] < vals.len() {
        Some(Seq::new(idx.len(), |k: int| vals[idx[k] as int]))
    } else {
        None
    }
}

/// Picks the values at the given positions; `None` when a position is out of range.
pub fn project_values(values: &Vec<Value>, indices: &Vec<usize>) -> (r: Option<Vec<Value>>)
    ensures
        match r {
            Some(v) => projected(values_view(values@), indices@) == Some(values_view(v@)),
            None => projected(values_view(values@), indices@) is None,
        },
{
    let mut out: Vec<Value> = Vec::new();
    let mut k: usize = 0;
    while k < indices.len()
        invariant
            k <= indices@.len(),
            out@.len() == k,
            forall|j: int| 0 <= j < k ==> #[trigger] indices@[j] < values@.len(),
            forall|j: int| 0 <= j < k ==> (#[trigger] out@[j])@ == values@[indices@[j] as int]@,
        decreases indices@.len() - k,
    {
        let i = indices[k];
        if i >= values.len() {
            return None;
        }
        out.push(values[i].duplicate());
        k += 1;
    }
    proof {
        assert(values_view(out@) =~= Seq::new(indices@.len(), |j: int| values_view(values@)[indices@[j] as int]));
    }
    Some(out)
}

/// The two value lists joined.
pub fn concat_values(a: &Vec<Value>, b: &Vec<Value>) -> (r: Vec<Value>)
    ensures
        values_view(r@) == values_view(a@) + values_view(b@),
{
    let mut out: Vec<Value> = Vec::new();
    let mut i: usize = 0;
    while i < a.len()
        invariant
            i <= a@.len(),
            out@.len() == i,
            forall|k: int| 0 <= k < i ==> (#[trigger] out@[k])@ == a@[k]@,
        decreases a@.len() - i,
    {
        out.push(a[i].duplicate());
        i += 1;
    }
    let mut j: usize = 0;
    while j < b.len()
        invariant
            j <= b@.len(),
            out@.len() == a@.len() + j,
            forall|k: int| 0 <= k < a@.len() ==> (#[trigger] out@[k])@ == a@[k]@,
            forall|k: int| 0 <= k < j ==> (#[trigger] out@[a@.len() + k])@ == b@[k]@,
        decreases b@.len() - j,
    {
        out.push(b[j].duplicate());
        j += 1;
    }
    proof {
        assert forall|k: int| 0 <= k < out@.len() implies #[trigger] values_view(out@)[k] == (values_view(a@) + values_view(b@))[k] by {
            if k >= a@.len() {
                assert(out@[a@.len() + (k - a@.len())]@ == b@[k - a@.len()]@);
            }
        }
        assert(values_view(out@) =~= values_view(a@) + values_view(b@));
    }
    out
}

/// The message of a tuple that the encoding cannot hold.
pub open spec fn unencodable_message() -> Seq<char> {
    "tuple does not fit the encoding"@
}

/// What encoding values gives as an execution result: the tuple or the tuple error of
/// serializing them, or an execution error when the encoding cannot hold them.
pub open spec fn encoded(cols: Seq<Column>, vals: Seq<ValueView>, r: Result<Tuple, QueryError>) -> bool {
    if cols.len() == vals.len() && first_violation(cols, vals, cols.len()) is None && !fits_encoding(cols, vals) {
        r matches Err(QueryError::Execution(m)) && m@ == unencodable_message()
    } else {
        match r {
            Ok(t) => encode_outcome(cols, vals, Ok(t)),
            Err(QueryError::Tuple(e)) => encode_outcome(cols, vals, Err(e)),
            _ => false,
        }
    }
}

/// Encodes values against a schema, as an execution result.
pub fn encode_values(schema: &Schema, values: &Vec<Value>) -> (r: Result<Tuple, QueryError>)
    ensures
        encoded(schema.columns@, values_view(values@), r),
{
    match Tuple::try_from_values(schema, values.as_slice()) {
        Some(Ok(t)) => Ok(t),
        Some(Err(e)) => Err(QueryError::Tuple(e)),
        None => {
            proof {
                reveal_strlit("tuple does not fit the encoding");
            }
            Err(QueryError::Execution(String::from_str("tuple does not fit the encoding")))
        },
    }
}

/// Decodes a tuple against a schema, as an execution result.
pub fn decode_values(t: &Tuple, schema: &Schema) -> (r: Result<Vec<Value>, QueryError>)
    ensures
        match r {
            Ok(vs) => decode(t.data@, schema.columns@) == Ok::<_, DecodeFault>(values_view(vs@)),
            Err(QueryError::Tuple(TupleError::DeserializationError(m))) => decode(t.data@, schema.columns@) matches Err(f)
                && m@ == fault_message(f),
            Err(_) => false,
        },
{
    match t.to_values(schema) {
        Ok(v) => Ok(v),
        Err(e) => Err(QueryError::Tuple(e)),
    }
}

/// Position of the first column with the given name.
pub fn column_position(schema: &Schema, name: &String) -> (r: Option<usize>)
    ensures
        match r {
            Some(i) => col_position(schema.columns@, name@) == Some(i as int),
            None => col_position(schema.columns@, name@) is None,
        },
{
    crate::predicate::find_column(schema, name)
}

/// What decoding a tuple gives as an execution result: its values or the decoding fault.
pub open spec fn decoded(data: Seq<u8>, cols: Seq<Column>, r: Result<Seq<ValueView>, QueryError>) -> bool {
    match decode(data, cols) {
        Ok(vals) => r == Ok::<Seq<ValueView>, QueryError>(vals),
        Err(f) => r matches Err(QueryError::Tuple(TupleError::DeserializationError(m))) && m@ == fault_message(f),
    }
}

/// The message of a projection position that does not exist.
pub open spec fn projection_message() -> Seq<char> {
    "projection index out of range"@
}

/// What projecting a tuple gives: its values decoded with the child's columns, picked at the
/// projection positions, and encoded with the output columns.
pub open spec fn project_outcome(
    data: Seq<u8>,
    child_cols: Seq<Column>,
    out_cols: Seq<Column>,
    idx: Seq<usize>,
    r: Result<Tuple, QueryError>,
) -> bool {
    match decode(data, child_cols) {
        Err(f) => r matches Err(QueryError::Tuple(TupleError::DeserializationError(m))) && m@ == fault_message(f),
        Ok(vals) => match projected(vals, idx) {
            None => r matches Err(QueryError::Execution(m)) && m@ == projection_message(),
            Some(pv) => encoded(out_cols, pv, r),
        },
    }
}

/// `t` is what projecting some tuple of the child's columns gives.
pub open spec fn projection_of(child_cols: Seq<Column>, out_cols: Seq<Column>, idx: Seq<usize>, t: Tuple) -> bool {
    exists|d: Seq<u8>| #[trigger] project_outcome(d, child_cols, out_cols, idx, Ok::<Tuple, QueryError>(t))
}

/// The child gave one tuple more, from `before` to `after`, and projecting it had the outcome
/// `r`.
pub open spec fn projected_step(
    before: Seq<Tuple>,
    after: Seq<Tuple>,
    child_cols: Seq<Column>,
    out_cols: Seq<Column>,
    idx: Seq<usize>,
    r: Result<Tuple, QueryError>,
) -> bool {
    exists|c: Tuple| after == before.push(c) && #[trigger] project_outcome(c.data@, child_cols, out_cols, idx, r)
}

/// Projects specific columns of a child's tuples into a new schema.
pub struct Project<E> {
    child: E,
    output_schema: Schema,
    projection_indices: Vec<usize>,
    given: Ghost<Seq<Tuple>>,
}

impl<E> Project<E> {
    /// The output columns.
    pub closed spec fn out_columns(&self) -> Seq<Column> {
        self.output_schema.columns@
    }

    /// The positions projected, in output order.
    pub closed spec fn positions(&self) -> Seq<usize> {
        self.projection_indices@
    }

    /// The operator projected.
    pub closed spec fn source(&self) -> E {
        self.child
    }

    /// The columns of the tuples the child produces.
    pub closed spec fn input_columns<C: ExecutionContext>(&self) -> Seq<Column> where E: Executor<C> {
        Executor::<C>::out_schema(&self.child).columns@
    }

    /// A projection of `child` onto the given positions, producing `output_schema`.
    pub fn new<C: ExecutionContext>(child: E, output_schema: Schema, projection_indices: Vec<usize>) -> (r: Self) where
        E: Executor<C>,
        ensures
            r.out_columns() == output_schema.columns@,
            r.positions() == projection_indices@,
            Executor::<C>::inv(&child) ==> Executor::<C>::inv(&r),
            Executor::<C>::out_schema(&r) == output_schema,
            r.source() == child,
            Executor::<C>::produced(&r) == Seq::<Tuple>::empty(),
    {
        Project { child, output_schema, projection_indices, given: Ghost(Seq::empty()) }
    }

    /// Projects one tuple of the child.
    pub fn project_tuple(&self, t: &Tuple, child_schema: &Schema) -> (r: Result<Tuple, QueryError>)
        ensures
            project_outcome(t.data@, child_schema.columns@, self.out_columns(), self.positions(), r),
    {
        let values = match t.to_values(child_schema) {
            Ok(v) => v,
            Err(e) => {
                return Err(QueryError::Tuple(e));
            },
        };
        match project_values(&values, &self.projection_indices) {
            Some(p) => encode_values(&self.output_schema, &p),
            None => {
                proof {
                    reveal_strlit("projection index out of range");
                }
                Err(QueryError::Execution(String::from_str("projection index out of range")))
            },
        }
    }
}

impl<C: ExecutionContext, E: Executor<C>> Executor<C> for Project<E> {

    closed spec fn inv(&self) -> bool {
        self.child.inv()
    }

    closed spec fn out_schema(&self) -> Schema {
        self.output_schema
    }

    /// Finished once the child is.
    closed spec fn finished(&self) -> bool {
        self.child.finished()
    }

    closed spec fn produced(&self) -> Seq<Tuple> {
        self.given@
    }

    /// The child's next tuple, projected: the child gives one tuple and its projection comes
    /// out; a child that is done or fails gives no tuple, and its answer is passed on.
    fn next(&mut self, ctx: &mut C) -> (r: Result<Option<Tuple>, QueryError>)
        ensures
            final(self).out_columns() == old(self).out_columns(),
            final(self).positions() == old(self).positions(),
            r matches Ok(Some(t)) ==> projection_of(
                old(self).input_columns::<C>(),
                old(self).out_columns(),
                old(self).positions(),
                t,
            ),
            r matches Ok(Some(t)) ==> projected_step(
                old(self).source().produced(),
                final(self).source().produced(),
                old(self).input_columns::<C>(),
                old(self).out_columns(),
                old(self).positions(),
                Ok::<Tuple, QueryError>(t),
            ),
            r == Ok::<Option<Tuple>, QueryError>(None) ==> final(self).source().produced() == old(self).source().produced()
                && final(self).source().finished(),
            r matches Err(e) ==> final(self).source().produced() == old(self).source().produced() || projected_step(
                old(self).source().produced(),
                final(self).source().produced(),
                old(self).input_columns::<C>(),
                old(self).out_columns(),
                old(self).positions(),
                Err::<Tuple, QueryError>(e),
            ),
    {
        let t = match self.child.next(ctx) {
            Err(e) => {
                return Err(e);
            },
            Ok(None) => {
                return Ok(None);
            },
            Ok(Some(t)) => t,
        };
        assert(self.child.produced() == old(self).child.produced().push(t));
        let res = self.project_tuple(&t, self.child.schema());
        match res {
            Ok(nt) => {
                assert(projection_of(
                    old(self).input_columns::<C>(),
                    old(self).out_columns(),
                    old(self).positions(),
                    nt,
                )) by {
                    assert(project_outcome(
                        t.data@,
                        old(self).input_columns::<C>(),
                        old(self).out_columns(),
                        old(self).positions(),
                        Ok::<Tuple, QueryError>(nt),
                    ));
                }
                assert(project_outcome(
                    t.data@,
                    old(self).input_columns::<C>(),
                    old(self).out_columns(),
                    old(self).positions(),
                    Ok::<Tuple, QueryError>(nt),
                ));
                self.given = Ghost(self.given@.push(nt));
                assert(self.source().produced() == old(self).source().produced().push(t));
                assert(projected_step(
                    old(self).source().produced(),
                    self.source().produced(),
                    old(self).input_columns::<C>(),
                    old(self).out_columns(),
                    old(self).positions(),
                    Ok::<Tuple, QueryError>(nt),
                ));
                Ok(Some(nt))
            },
            Err(e) => {
                assert(project_outcome(
                    t.data@,
                    old(self).input_columns::<C>(),
                    old(self).out_columns(),
                    old(self).positions(),
                    Err::<Tuple, QueryError>(e),
                ));
                assert(self.source().produced() == old(self).source().produced().push(t));
                assert(projected_step(
                    old(self).source().produced(),
                    self.source().produced(),
                    old(self).input_columns::<C>(),
                    old(self).out_columns(),
                    old(self).positions(),
                    Err::<Tuple, QueryError>(e),
                ));
                Err(e)
            },
        }
    }

    fn schema(&self) -> &Schema {
        &self.output_schema
    }
}

/// The message when an operator has pulled more tuples than it can count.
pub open spec fn exhausted_message() -> Seq<char> {
    "too many tuples"@
}

pub(crate) fn exhausted() -> (r: QueryError)
    ensures
        r matches QueryError::Execution(m) && m@ == exhausted_message(),
{
    proof {
        reveal_strlit("too many tuples");
    }
    QueryError::Execution(String::from_str("too many tuples"))
}

/// Passes on the child's tuples that satisfy a predicate.
pub struct Select<E, F> {
    child: E,
    predicate: F,
    given: Ghost<Seq<Tuple>>,
}

/// The predicate turned down every tuple of `s`.
pub open spec fn all_rejected<F: Fn(&Tuple, &Schema) -> bool>(pred: F, schema: Schema, s: Seq<Tuple>) -> bool {
    forall|i: int| 0 <= i < s.len() ==> #[trigger] pred.ensures((&s[i], &schema), false)
}

impl<E, F: Fn(&Tuple, &Schema) -> bool> Select<E, F> {
    /// The operator filtered.
    pub closed spec fn source(&self) -> E {
        self.child
    }

    /// The predicate applied.
    pub closed spec fn filter(&self) -> F {
        self.predicate
    }

    /// A filter of `child` by `predicate`.
    pub fn new<C: ExecutionContext>(child: E, predicate: F) -> (r: Self) where
        E: Executor<C>,
        ensures
            r.source() == child,
            r.filter() == predicate,
            Executor::<C>::inv(&child) && (forall|t: &Tuple, s: &Schema| #[trigger] predicate.requires((t, s)))
                ==> Executor::<C>::inv(&r),
            Executor::<C>::out_schema(&r) == Executor::<C>::out_schema(&child),
            Executor::<C>::produced(&r) == Seq::<Tuple>::empty(),
    {
        Select { child, predicate, given: Ghost(Seq::empty()) }
    }
}

impl<C: ExecutionContext, E: Executor<C>, F: Fn(&Tuple, &Schema) -> bool> Executor<C> for Select<E, F> {

    closed spec fn inv(&self) -> bool {
        &&& self.child.inv()
        &&& forall|t: &Tuple, s: &Schema| #[trigger] self.predicate.requires((t, s))
    }

    closed spec fn out_schema(&self) -> Schema {
        self.child.out_schema()
    }

    /// Finished once the child is.
    closed spec fn finished(&self) -> bool {
        self.child.finished()
    }

    closed spec fn produced(&self) -> Seq<Tuple> {
        self.given@
    }

    /// The child's next tuple that satisfies the predicate: the child gives tuples the
    /// predicate turns down, then the one it accepts, which comes out. When the child is done,
    /// or fails, that answer is passed on after the tuples turned down.
    fn next(&mut self, ctx: &mut C) -> (r: Result<Option<Tuple>, QueryError>)
        ensures
            final(self).filter() == old(self).filter(),
            r matches Ok(Some(t)) ==> old(self).filter().ensures((&t, &old(self).out_schema()), true),
            exists|skipped: Seq<Tuple>|
                #[trigger] all_rejected(old(self).filter(), old(self).out_schema(), skipped) && match r {
                    Ok(Some(t)) => final(self).source().produced() == old(self).source().produced() + skipped.push(t),
                    _ => final(self).source().produced() == old(self).source().produced() + skipped,
                },
            r == Ok::<Option<Tuple>, QueryError>(None) ==> final(self).source().finished(),
    {
        let mut budget: u64 = u64::MAX;
        let ghost mut skipped: Seq<Tuple> = Seq::empty();
        loop
            invariant
                self.inv(),
                ctx.ready(),
                self.out_schema() == old(self).out_schema(),
                self.filter() == old(self).filter(),
                old(self).finished() ==> self.finished() && budget == u64::MAX,
                self.given == old(self).given,
                all_rejected(old(self).filter(), old(self).out_schema(), skipped),
                self.child.produced() == old(self).child.produced() + skipped,
                old(self).finished() ==> skipped.len() == 0,
            decreases budget,
        {
            if budget == 0 {
                return Err(exhausted());
            }
            budget = budget - 1;
            match self.child.next(ctx) {
                Err(e) => {
                    assert(all_rejected(old(self).filter(), old(self).out_schema(), skipped));
                    return Err(e);
                },
                Ok(None) => {
                    assert(all_rejected(old(self).filter(), old(self).out_schema(), skipped));
                    return Ok(None);
                },
                Ok(Some(t)) => {
                    if (self.predicate)(&t, self.child.schema()) {
                        proof {
                            assert(old(self).child.produced() + skipped.push(t) =~= self.child.produced());
                        }
                        assert(all_rejected(old(self).filter(), old(self).out_schema(), skipped));
                        self.given = Ghost(self.given@.push(t));
                        return Ok(Some(t));
                    }
                    proof {
                        let before = skipped;
                        skipped = skipped.push(t);
                        assert(old(self).child.produced() + skipped =~= self.child.produced());
                        assert forall|i: int| 0 <= i < skipped.len() implies #[trigger] old(self).filter().ensures(
                            (&skipped[i], &old(self).out_schema()),
                            false,
                        ) by {
                            if i < before.len() {
                                assert(skipped[i] == before[i]);
                            }
                        }
                    }
                },
            }
        }
    }

    fn schema(&self) -> &Schema {
        self.child.schema()
    }
}

/// The columns of two schemas, one after the other.
pub fn concat_schemas(a: &Schema, b: &Schema) -> (r: Schema)
    ensures
        crate::schema::columns_view(r.columns@) == crate::schema::columns_view(a.columns@) + crate::schema::columns_view(
            b.columns@,
        ),
{
    let mut cols: Vec<Column> = Vec::new();
    let mut i: usize = 0;
    while i < a.columns.len()
        invariant
            i <= a.columns@.len(),
            cols@.len() == i,
            forall|k: int| 0 <= k < i ==> (#[trigger] cols@[k])@ == a.columns@[k]@,
        decreases a.columns@.len() - i,
    {
        cols.push(a.columns[i].duplicate());
        i += 1;
    }
    let mut j: usize = 0;
    while j < b.columns.len()
        invariant
            j <= b.columns@.len(),
            cols@.len() == a.columns@.len() + j,
            forall|k: int| 0 <= k < a.columns@.len() ==> (#[trigger] cols@[k])@ == a.columns@[k]@,
            forall|k: int| 0 <= k < j ==> (#[trigger] cols@[a.columns@.len() + k])@ == b.columns@[k]@,
        decreases b.columns@.len() - j,
    {
        cols.push(b.columns[j].duplicate());
        j += 1;
    }
    let r = Schema::new(cols);
    proof {
        let la = a.columns@.len();
        assert forall|k: int| 0 <= k < r.columns@.len() implies #[trigger] crate::schema::columns_view(r.columns@)[k]
            == (crate::schema::columns_view(a.columns@) + crate::schema::columns_view(b.columns@))[k] by {
            if k >= la {
                assert(cols@[la + (k - la)]@ == b.columns@[k - la]@);
            }
        }
        assert(crate::schema::columns_view(r.columns@) =~= crate::schema::columns_view(a.columns@)
            + crate::schema::columns_view(b.columns@));
    }
    r
}

/// What joining two tuples gives: each decoded with its side's columns, the values one after
/// the other, encoded with the joined columns.
pub open spec fn join_outcome(
    left: Seq<u8>,
    left_cols: Seq<Column>,
    right: Seq<u8>,
    right_cols: Seq<Column>,
    cols: Seq<Column>,
    r: Result<Tuple, QueryError>,
) -> bool {
    match decode(left, left_cols) {
        Err(f) => r matches Err(QueryError::Tuple(TupleError::DeserializationError(m))) && m@ == fault_message(f),
        Ok(lv) => match decode(right, right_cols) {
            Err(f) => r matches Err(QueryError::Tuple(TupleError::DeserializationError(m))) && m@ == fault_message(f),
            Ok(rv) => encoded(cols, lv + rv, r),
        },
    }
}

/// `t` is what joining some left tuple and some right tuple of the given columns gives.
pub open spec fn joined_from(left_cols: Seq<Column>, right_cols: Seq<Column>, cols: Seq<Column>, t: Tuple) -> bool {
    exists|l: Seq<u8>, r: Seq<u8>| #[trigger] join_outcome(l, left_cols, r, right_cols, cols, Ok::<Tuple, QueryError>(t))
}

/// Joins a left and a right tuple into one of the given schema.
pub fn join_tuples(lt: &Tuple, ls: &Schema, rt: &Tuple, rs: &Schema, schema: &Schema) -> (r: Result<Tuple, QueryError>)
    ensures
        join_outcome(lt.data@, ls.columns@, rt.data@, rs.columns@, schema.columns@, r),
{
    let lv = match lt.to_values(ls) {
        Ok(v) => v,
        Err(e) => {
            return Err(QueryError::Tuple(e));
        },
    };
    let rv = match rt.to_values(rs) {
        Ok(v) => v,
        Err(e) => {
            return Err(QueryError::Tuple(e));
        },
    };
    let all = concat_values(&lv, &rv);
    encode_values(schema, &all)
}

/// Pulls every tuple of an operator.
fn drain<C: ExecutionContext, E: Executor<C>>(e: &mut E, ctx: &mut C) -> (r: Result<Vec<Tuple>, QueryError>)
    requires
        old(e).inv(),
        old(ctx).ready(),
    ensures
        final(e).inv(),
        final(ctx).ready(),
        final(e).out_schema() == old(e).out_schema(),
        r matches Ok(v) ==> final(e).finished() && final(e).produced() == old(e).produced() + v@,
{
    let mut out: Vec<Tuple> = Vec::new();
    let mut budget: u64 = u64::MAX;
    loop
        invariant
            e.inv(),
            ctx.ready(),
            e.out_schema() == old(e).out_schema(),
            e.produced() == old(e).produced() + out@,
        decreases budget,
    {
        if budget == 0 {
            return Err(exhausted());
        }
        budget = budget - 1;
        match e.next(ctx) {
            Err(err) => {
                return Err(err);
            },
            Ok(None) => {
                return Ok(out);
            },
            Ok(Some(t)) => {
                let ghost before = out@;
                out.push(t);
                proof {
                    assert(old(e).produced() + out@ =~= (old(e).produced() + before).push(t));
                }
            },
        }
    }
}

/// Joins every left tuple with every right tuple that the predicate accepts, in left order
/// and, for each left tuple, in right order.
pub struct NestedLoopJoin<L, R, F> {
    left: L,
    right: R,
    predicate: F,
    schema: Schema,
    left_tuple: Option<Tuple>,
    right_tuples: Option<Vec<Tuple>>,
    right_index: usize,
    given: Ghost<Seq<Tuple>>,
}

/// `t` is what joining some left tuple and some right tuple that the predicate accepts gives.
pub open spec fn accepted_join<F: Fn(&Tuple, &Schema, &Tuple, &Schema) -> bool>(
    pred: F,
    ls: Schema,
    rs: Schema,
    cols: Seq<Column>,
    t: Tuple,
) -> bool {
    exists|a: Tuple, b: Tuple|
        #[trigger] pred.ensures((&a, &ls, &b, &rs), true) && join_outcome(
            a.data@,
            ls.columns@,
            b.data@,
            rs.columns@,
            cols,
            Ok::<Tuple, QueryError>(t),
        )
}

/// Scanning pairs in left-major order, from the first left tuple of `lefts` at right position
/// `from` up to the last one at right position `to`: the predicate turned down every pair passed.
pub open spec fn pairs_rejected<F: Fn(&Tuple, &Schema, &Tuple, &Schema) -> bool>(
    pred: F,
    ls: Schema,
    rs: Schema,
    lefts: Seq<Tuple>,
    right: Seq<Tuple>,
    from: int,
    to: int,
) -> bool {
    forall|k: int, j: int|
        0 <= k < lefts.len() && 0 <= j < right.len() && (k > 0 || j >= from) && (k < lefts.len() - 1 || j < to)
            ==> #[trigger] pred.ensures((&lefts[k], &ls, &right[j], &rs), false)
}

/// What a nested-loop join's call gave, scanning the pairs of the left tuples `lefts` (the one
/// current at the start, then those read during the call) with the right tuples `right`, from
/// right position `from` of the first: the first pair the predicate accepts, joined, after
/// which the current left tuple is `cur` and the next right position `pos`; or, when every
/// remaining pair is turned down and the left side is done, nothing.
pub open spec fn nested_outcome<F: Fn(&Tuple, &Schema, &Tuple, &Schema) -> bool>(
    pred: F,
    ls: Schema,
    rs: Schema,
    cols: Seq<Column>,
    lefts: Seq<Tuple>,
    right: Seq<Tuple>,
    from: int,
    r: Result<Option<Tuple>, QueryError>,
    cur: Option<Tuple>,
    pos: int,
) -> bool {
    match r {
        Ok(Some(t)) => {
            &&& lefts.len() > 0
            &&& cur == Some(lefts.last())
            &&& 0 <= pos - 1 < right.len()
            &&& (lefts.len() == 1 ==> pos - 1 >= from)
            &&& pairs_rejected(pred, ls, rs, lefts, right, from, pos - 1)
            &&& pred.ensures((&lefts.last(), &ls, &right[pos - 1], &rs), true)
            &&& join_outcome(lefts.last().data@, ls.columns@, right[pos - 1].data@, rs.columns@, cols, Ok::<Tuple, QueryError>(t))
        },
        Ok(None) => cur is None && pairs_rejected(pred, ls, rs, lefts, right, from, right.len() as int),
        Err(_) => true,
    }
}

/// The tuple held, as a sequence of zero or one.
pub open spec fn opt_seq(t: Option<Tuple>) -> Seq<Tuple> {
    match t {
        Some(x) => seq![x],
        None => Seq::empty(),
    }
}

impl<L, R, F: Fn(&Tuple, &Schema, &Tuple, &Schema) -> bool> NestedLoopJoin<L, R, F> {
    /// The left side.
    pub closed spec fn source_left(&self) -> L {
        self.left
    }

    /// The right side.
    pub closed spec fn source_right(&self) -> R {
        self.right
    }

    /// The left tuple being joined, if any.
    pub closed spec fn current_left(&self) -> Option<Tuple> {
        self.left_tuple
    }

    /// The right side's tuples, once read.
    pub closed spec fn right_side(&self) -> Option<Seq<Tuple>> {
        match self.right_tuples {
            Some(v) => Some(v@),
            None => None,
        }
    }

    /// The next right position to pair with the current left tuple.
    pub closed spec fn right_pos(&self) -> int {
        self.right_index as int
    }

    /// The joined columns.
    pub closed spec fn columns(&self) -> Seq<crate::schema::ColumnView> {
        crate::schema::columns_view(self.schema.columns@)
    }

    /// The schema of the tuples the left side produces.
    pub closed spec fn left_schema<C: ExecutionContext>(&self) -> Schema where L: Executor<C> {
        Executor::<C>::out_schema(&self.left)
    }

    /// The schema of the tuples the right side produces.
    pub closed spec fn right_schema<C: ExecutionContext>(&self) -> Schema where R: Executor<C> {
        Executor::<C>::out_schema(&self.right)
    }

    /// The columns of the joined tuples.
    pub closed spec fn joined_columns(&self) -> Seq<Column> {
        self.schema.columns@
    }

    /// The predicate pairs must satisfy.
    pub closed spec fn condition(&self) -> F {
        self.predicate
    }

    /// A join of `left` and `right` under `predicate`; its schema holds the left columns then
    /// the right ones.
    pub fn new<C: ExecutionContext>(left: L, right: R, predicate: F) -> (r: Self) where
        L: Executor<C>,
        R: Executor<C>,
        ensures
            r.columns() == crate::schema::columns_view(Executor::<C>::out_schema(&left).columns@)
                + crate::schema::columns_view(Executor::<C>::out_schema(&right).columns@),
            Executor::<C>::inv(&left) && Executor::<C>::inv(&right) && (forall|a: &Tuple, b: &Schema, c: &Tuple, d: &Schema|
                #[trigger] predicate.requires((a, b, c, d))) ==> Executor::<C>::inv(&r),
            crate::schema::columns_view(Executor::<C>::out_schema(&r).columns@) == r.columns(),
            Executor::<C>::produced(&r) == Seq::<Tuple>::empty(),
            r.right_side() is None,
    {
        let schema = concat_schemas(left.schema(), right.schema());
        NestedLoopJoin {
            left,
            right,
            predicate,
            schema,
            left_tuple: None,
            right_tuples: None,
            right_index: 0,
            given: Ghost(Seq::empty()),
        }
    }
}

impl<C: ExecutionContext, L: Executor<C>, R: Executor<C>, F: Fn(&Tuple, &Schema, &Tuple, &Schema) -> bool> Executor<C> for NestedLoopJoin<L, R, F> {

    closed spec fn inv(&self) -> bool {
        &&& self.left.inv()
        &&& self.right.inv()
        &&& forall|a: &Tuple, b: &Schema, c: &Tuple, d: &Schema| #[trigger] self.predicate.requires((a, b, c, d))
        &&& self.right_tuples is None ==> self.right_index == 0 && self.left_tuple is None
    }

    closed spec fn out_schema(&self) -> Schema {
        self.schema
    }

    /// Finished once the right side is read and no left tuple is current.
    closed spec fn finished(&self) -> bool {
        self.right_tuples is Some && self.left_tuple is None
    }

    closed spec fn produced(&self) -> Seq<Tuple> {
        self.given@
    }

    /// The next joined tuple. The right side is read in full on the first call.
    fn next(&mut self, ctx: &mut C) -> (r: Result<Option<Tuple>, QueryError>)
        ensures
            final(self).left_schema::<C>() == old(self).left_schema::<C>(),
            final(self).right_schema::<C>() == old(self).right_schema::<C>(),
            final(self).joined_columns() == old(self).joined_columns(),
            final(self).condition() == old(self).condition(),
            r matches Ok(Some(t)) ==> accepted_join(
                old(self).condition(),
                old(self).left_schema::<C>(),
                old(self).right_schema::<C>(),
                old(self).joined_columns(),
                t,
            ),
            old(self).right_side() matches Some(rt) ==> final(self).right_side() == Some(rt)
                && final(self).source_right().produced() == old(self).source_right().produced() && exists|pulled: Seq<Tuple>|
                #[trigger] old(self).source_left().produced().add(pulled) == final(self).source_left().produced()
                    && nested_outcome(
                    old(self).condition(),
                    old(self).left_schema::<C>(),
                    old(self).right_schema::<C>(),
                    old(self).joined_columns(),
                    opt_seq(old(self).current_left()) + pulled,
                    rt,
                    old(self).right_pos(),
                    r,
                    final(self).current_left(),
                    final(self).right_pos(),
                ),
            old(self).right_side() is None && r is Ok ==> exists|rt: Seq<Tuple>, pulled: Seq<Tuple>|
                #![trigger old(self).source_right().produced().add(rt), old(self).source_left().produced().add(pulled)]
                {
                    &&& final(self).right_side() == Some(rt)
                    &&& old(self).source_right().produced().add(rt) == final(self).source_right().produced()
                    &&& final(self).source_right().finished()
                    &&& old(self).source_left().produced().add(pulled) == final(self).source_left().produced()
                    &&& nested_outcome(
                        old(self).condition(),
                        old(self).left_schema::<C>(),
                        old(self).right_schema::<C>(),
                        old(self).joined_columns(),
                        pulled,
                        rt,
                        0,
                        r,
                        final(self).current_left(),
                        final(self).right_pos(),
                    )
                },
    {
        let ghost left0 = self.left.produced();
        let ghost mut base: Seq<Tuple> = opt_seq(self.left_tuple);
        let ghost mut pulled: Seq<Tuple> = Seq::empty();
        let ghost pred = self.predicate;
        let ghost ls = Executor::<C>::out_schema(&old(self).left);
        let ghost rs = Executor::<C>::out_schema(&old(self).right);
        if self.right_tuples.is_none() {
            let rt = match drain(&mut self.right, ctx) {
                Ok(v) => v,
                Err(e) => {
                    return Err(e);
                },
            };
            self.right_tuples = Some(rt);
            self.left_tuple = match self.left.next(ctx) {
                Ok(t) => t,
                Err(e) => {
                    return Err(e);
                },
            };
            proof {
                base = Seq::empty();
                pulled = opt_seq(self.left_tuple);
                assert(self.left.produced() == left0 + pulled);
            }
        }
        let ghost from: int = self.right_index as int;
        let ghost rg: Seq<Tuple> = self.right_tuples->0@;
        let ghost right_after = self.right.produced();
        let ghost right_state = self.right;
        proof {
            if old(self).right_tuples is None {
                assert(old(self).right.produced().add(rg) == right_after);
                assert(self.right.finished());
            } else {
                assert(right_after == old(self).right.produced());
            }
        }
        proof {
            assert(left0 + Seq::<Tuple>::empty() =~= left0);
            assert(base + pulled =~= opt_seq(self.left_tuple));
        }
        let mut budget: u64 = u64::MAX;
        loop
            invariant
                self.inv(),
                ctx.ready(),
                self.out_schema() == old(self).out_schema(),
                self.right_tuples is Some,
                old(self).finished() ==> self.finished() && budget == u64::MAX,
                self.schema == old(self).schema,
                self.predicate == old(self).predicate,
                Executor::<C>::out_schema(&self.left) == Executor::<C>::out_schema(&old(self).left),
                Executor::<C>::out_schema(&self.right) == Executor::<C>::out_schema(&old(self).right),
                self.given == old(self).given,
                pred == self.predicate,
                ls == Executor::<C>::out_schema(&old(self).left),
                rs == Executor::<C>::out_schema(&old(self).right),
                self.right_tuples->0@ == rg,
                self.right.produced() == right_after,
                self.right == right_state,
                old(self).right_tuples is None ==> old(self).right.produced().add(rg) == right_after && right_state.finished()
                    && base == Seq::<Tuple>::empty() && from == 0,
                old(self).right_tuples is Some ==> right_after == old(self).right.produced() && base == opt_seq(
                    old(self).left_tuple,
                ) && rg == old(self).right_tuples->0@ && from == old(self).right_index,
                self.left.produced() == left0 + pulled,
                left0 == old(self).left.produced(),
                self.left_tuple is Some ==> (base + pulled).len() > 0 && self.left_tuple == Some((base + pulled).last()),
                self.left_tuple is Some ==> pairs_rejected(pred, ls, rs, base + pulled, rg, from, self.right_index as int),
                self.left_tuple is Some && (base + pulled).len() == 1 ==> self.right_index >= from,
                self.left_tuple is None ==> pairs_rejected(pred, ls, rs, base + pulled, rg, from, rg.len() as int),
            decreases budget,
        {
            proof {
                assert(left0.add(pulled) == self.left.produced());
                assert(old(self).source_left().produced().add(pulled) == self.source_left().produced());
                if old(self).right_tuples is None {
                    assert(base + pulled =~= pulled);
                    assert(old(self).source_right().produced().add(rg) == self.source_right().produced());
                    assert(self.source_right().finished());
                    assert(self.right_side() == Some(rg));
                } else {
                    assert(opt_seq(old(self).current_left()) + pulled == base + pulled);
                }
            }
            if budget == 0 {
                return Err(exhausted());
            }
            budget = budget - 1;
            let right_len = match &self.right_tuples {
                Some(v) => v.len(),
                None => 0,
            };
            if self.left_tuple.is_none() {
                proof {
                    assert(nested_outcome(
                        pred,
                        ls,
                        rs,
                        old(self).joined_columns(),
                        base + pulled,
                        rg,
                        from,
                        Ok::<Option<Tuple>, QueryError>(None),
                        self.left_tuple,
                        self.right_index as int,
                    ));
                }
                return Ok(None);
            }
            if self.right_index < right_len {
                let idx = self.right_index;
                self.right_index = self.right_index + 1;
                let accepted = match (&self.left_tuple, &self.right_tuples) {
                    (Some(lt), Some(rts)) => (self.predicate)(lt, self.left.schema(), &rts[idx], self.right.schema()),
                    _ => false,
                };
                if accepted {
                    let joined = match (&self.left_tuple, &self.right_tuples) {
                        (Some(lt), Some(rts)) => join_tuples(lt, self.left.schema(), &rts[idx], self.right.schema(), &self.schema),
                        _ => Err(exhausted()),
                    };
                    return match joined {
                        Ok(t) => {
                            proof {
                                let a = self.left_tuple->0;
                                let b = self.right_tuples->0@[idx as int];
                                assert(self.predicate.ensures((&a, &ls, &b, &rs), true));
                                assert(join_outcome(
                                    a.data@,
                                    ls.columns@,
                                    b.data@,
                                    rs.columns@,
                                    old(self).joined_columns(),
                                    Ok::<Tuple, QueryError>(t),
                                ));
                            }
                            self.given = Ghost(self.given@.push(t));
                            proof {
                                assert(left0.add(pulled) == self.left.produced());
                                assert(nested_outcome(
                                    pred,
                                    ls,
                                    rs,
                                    old(self).joined_columns(),
                                    base + pulled,
                                    rg,
                                    from,
                                    Ok::<Option<Tuple>, QueryError>(Some(t)),
                                    self.left_tuple,
                                    self.right_index as int,
                                ));
                                if old(self).right_tuples is None {
                                    assert(base + pulled =~= pulled);
                                }
                            }
                            Ok(Some(t))
                        },
                        Err(e) => Err(e),
                    };
                }
                proof {
                    let lt = self.left_tuple->0;
                    let lefts = base + pulled;
                    assert(pred.ensures((&lt, &ls, &rg[idx as int], &rs), false));
                    assert forall|k: int, j: int|
                        0 <= k < lefts.len() && 0 <= j < rg.len() && (k > 0 || j >= from) && (k < lefts.len() - 1 || j
                            < self.right_index) implies #[trigger] pred.ensures((&lefts[k], &ls, &rg[j], &rs), false) by {
                        if k == lefts.len() - 1 && j == idx {
                            assert(lefts[k] == lt);
                        }
                    }
                }
            } else {
                let ghost lefts_before = base + pulled;
                self.left_tuple = match self.left.next(ctx) {
                    Ok(t) => t,
                    Err(e) => {
                        return Err(e);
                    },
                };
                self.right_index = 0;
                proof {
                    if self.left_tuple is Some {
                        let nl = self.left_tuple->0;
                        let p0 = pulled;
                        pulled = pulled.push(nl);
                        assert(left0 + pulled =~= (left0 + p0).push(nl));
                        assert(base + pulled =~= lefts_before.push(nl));
                        let lefts = base + pulled;
                        assert forall|k: int, j: int|
                            0 <= k < lefts.len() && 0 <= j < rg.len() && (k > 0 || j >= from) && (k < lefts.len() - 1
                                || j < 0) implies #[trigger] pred.ensures((&lefts[k], &ls, &rg[j], &rs), false) by {
                            assert(lefts[k] == lefts_before[k]);
                        }
                    }
                }
            }
        }
    }

    fn schema(&self) -> &Schema {
        &self.schema
    }
}

/// Whether two values are equal: same kind and same content.
pub fn values_equal(a: &Value, b: &Value) -> (r: bool)
    ensures
        r == (a@ == b@),
{
    match (a, b) {
        (Value::Null, Value::Null) => true,
        (Value::Integer(x), Value::Integer(y)) => *x == *y,
        (Value::Boolean(x), Value::Boolean(y)) => *x == *y,
        (Value::Varchar(x), Value::Varchar(y)) => {
            let xc = chars_of(x.as_str());
            let yc = chars_of(y.as_str());
            chars_eq(xc.as_slice(), yc.as_slice())
        },
        _ => false,
    }
}

/// `<side> column <name> not found`.
pub open spec fn missing_column_message(side: Seq<char>, name: Seq<char>) -> Seq<char> {
    side + " column "@ + name + " not found"@
}

fn missing_column(side: &str, name: &String) -> (r: QueryError)
    ensures
        r matches QueryError::Execution(m) && m@ == missing_column_message(side@, name@),
{
    let mut out = chars_of(side);
    let mid = chars_of(" column ");
    let nm = chars_of(name.as_str());
    let tail = chars_of(" not found");
    let a = crate::text::concat(out.as_slice(), mid.as_slice());
    let b = crate::text::concat(a.as_slice(), nm.as_slice());
    out = crate::text::concat(b.as_slice(), tail.as_slice());
    QueryError::Execution(string_of(out.as_slice()))
}

/// The join key of a tuple's bytes: its decoded value at position `i`, when it decodes and has
/// one there.
pub open spec fn key_at(d: Seq<u8>, cols: Seq<Column>, i: int) -> Option<ValueView> {
    match decode(d, cols) {
        Ok(vs) => if 0 <= i < vs.len() {
            Some(vs[i])
        } else {
            None
        },
        Err(_) => None,
    }
}

/// The tuples (as bytes) of `rd` whose join key is `v`, in order.
pub open spec fn keyed_as(rd: Seq<Seq<u8>>, cols: Seq<Column>, i: int, v: ValueView) -> Seq<Seq<u8>> {
    rd.filter(|d: Seq<u8>| key_at(d, cols, i) == Some(v))
}

/// `tab` groups the tuples `rd` by join key: each entry holds, in order, the tuples whose key is
/// its value; no value has two entries; every key that occurs has an entry.
pub open spec fn table_groups(tab: Seq<(Value, Vec<Tuple>)>, rd: Seq<Seq<u8>>, cols: Seq<Column>, i: int) -> bool {
    &&& forall|j: int| 0 <= j < tab.len() ==> tuple_datas((#[trigger] tab[j]).1@) == keyed_as(rd, cols, i, tab[j].0@)
    &&& forall|a: int, b: int|
        0 <= a < tab.len() && 0 <= b < tab.len() && a != b ==> (#[trigger] tab[a]).0@ != (#[trigger] tab[b]).0@
    &&& forall|v: ValueView| #[trigger] keyed_as(rd, cols, i, v).len() > 0 ==> exists|j: int| 0 <= j < tab.len() && tab[j].0@ == v
}

/// Adding a tuple to the group its key already has keeps the table a grouping.
proof fn lemma_groups_add(
    tab: Seq<(Value, Vec<Tuple>)>,
    rd: Seq<Seq<u8>>,
    cols: Seq<Column>,
    i: int,
    x: Seq<u8>,
    v: ValueView,
    j: int,
    tab2: Seq<(Value, Vec<Tuple>)>,
)
    requires
        table_groups(tab, rd, cols, i),
        key_at(x, cols, i) == Some(v),
        0 <= j < tab.len(),
        tab[j].0@ == v,
        tab2.len() == tab.len(),
        tab2[j].0 == tab[j].0,
        tuple_datas(tab2[j].1@) == tuple_datas(tab[j].1@).push(x),
        forall|a: int| 0 <= a < tab.len() && a != j ==> #[trigger] tab2[a] == tab[a],
    ensures
        table_groups(tab2, rd.push(x), cols, i),
{
    assert forall|w: ValueView| #[trigger] keyed_as(rd.push(x), cols, i, w) == if w == v {
        keyed_as(rd, cols, i, w).push(x)
    } else {
        keyed_as(rd, cols, i, w)
    } by {
        rd.lemma_filter_push(x, |d: Seq<u8>| key_at(d, cols, i) == Some(w));
    }
    assert forall|a: int| 0 <= a < tab2.len() implies tuple_datas((#[trigger] tab2[a]).1@) == keyed_as(rd.push(x), cols, i, tab2[a].0@) by {
        if a != j {
            assert(tab2[a] == tab[a]);
        }
    }
    assert forall|a: int, b: int| 0 <= a < tab2.len() && 0 <= b < tab2.len() && a != b implies (#[trigger] tab2[a]).0@ != (#[trigger] tab2[b]).0@ by {
        assert(tab2[a].0 == tab[a].0 && tab2[b].0 == tab[b].0) by {
            if a != j { assert(tab2[a] == tab[a]); }
            if b != j { assert(tab2[b] == tab[b]); }
        }
        assert(tab[a].0@ != tab[b].0@);
    }
    assert forall|w: ValueView| #[trigger] keyed_as(rd.push(x), cols, i, w).len() > 0 implies exists|a: int| 0 <= a < tab2.len() && tab2[a].0@ == w by {
        if w == v {
            assert(tab2[j].0@ == w);
        } else {
            assert(keyed_as(rd, cols, i, w).len() > 0);
            let a = choose|a: int| 0 <= a < tab.len() && tab[a].0@ == w;
            if a != j {
                assert(tab2[a] == tab[a]);
            }
        }
    }
}

/// A key no tuple had gets an entry of its own.
proof fn lemma_groups_new(
    tab: Seq<(Value, Vec<Tuple>)>,
    rd: Seq<Seq<u8>>,
    cols: Seq<Column>,
    i: int,
    x: Seq<u8>,
    v: ValueView,
    tab2: Seq<(Value, Vec<Tuple>)>,
)
    requires
        table_groups(tab, rd, cols, i),
        key_at(x, cols, i) == Some(v),
        forall|a: int| 0 <= a < tab.len() ==> (#[trigger] tab[a]).0@ != v,
        tab2.len() == tab.len() + 1,
        forall|a: int| 0 <= a < tab.len() ==> #[trigger] tab2[a] == tab[a],
        tab2[tab.len() as int].0@ == v,
        tuple_datas(tab2[tab.len() as int].1@) == seq![x],
    ensures
        table_groups(tab2, rd.push(x), cols, i),
{
    let n = tab.len() as int;
    assert forall|w: ValueView| #[trigger] keyed_as(rd.push(x), cols, i, w) == if w == v {
        keyed_as(rd, cols, i, w).push(x)
    } else {
        keyed_as(rd, cols, i, w)
    } by {
        rd.lemma_filter_push(x, |d: Seq<u8>| key_at(d, cols, i) == Some(w));
    }
    assert(keyed_as(rd, cols, i, v).len() == 0) by {
        if keyed_as(rd, cols, i, v).len() > 0 {
            let a = choose|a: int| 0 <= a < tab.len() && tab[a].0@ == v;
            assert(tab[a].0@ != v);
        }
    }
    assert(keyed_as(rd, cols, i, v).push(x) =~= seq![x]);
    assert forall|a: int| 0 <= a < tab2.len() implies tuple_datas((#[trigger] tab2[a]).1@) == keyed_as(rd.push(x), cols, i, tab2[a].0@) by {
        if a < n {
            assert(tab2[a] == tab[a]);
        }
    }
    assert forall|a: int, b: int| 0 <= a < tab2.len() && 0 <= b < tab2.len() && a != b implies (#[trigger] tab2[a]).0@ != (#[trigger] tab2[b]).0@ by {
        if a < n { assert(tab2[a] == tab[a]); }
        if b < n { assert(tab2[b] == tab[b]); }
    }
    assert forall|w: ValueView| #[trigger] keyed_as(rd.push(x), cols, i, w).len() > 0 implies exists|a: int| 0 <= a < tab2.len() && tab2[a].0@ == w by {
        if w == v {
            assert(tab2[n].0@ == w);
        } else {
            assert(keyed_as(rd, cols, i, w).len() > 0);
            let a = choose|a: int| 0 <= a < tab.len() && tab[a].0@ == w;
            assert(tab2[a] == tab[a]);
        }
    }
}

/// A tuple without a key changes no group.
proof fn lemma_groups_keyless(tab: Seq<(Value, Vec<Tuple>)>, rd: Seq<Seq<u8>>, cols: Seq<Column>, i: int, x: Seq<u8>)
    requires
        table_groups(tab, rd, cols, i),
        key_at(x, cols, i) is None,
    ensures
        table_groups(tab, rd.push(x), cols, i),
{
    assert forall|w: ValueView| #[trigger] keyed_as(rd.push(x), cols, i, w) == keyed_as(rd, cols, i, w) by {
        rd.lemma_filter_push(x, |d: Seq<u8>| key_at(d, cols, i) == Some(w));
    }
}

/// The right tuples (as bytes) a left tuple joins with: those whose key equals its key, in
/// order; none when it has no key.
pub open spec fn partners(ld: Seq<u8>, lcols: Seq<Column>, li: int, rd: Seq<Seq<u8>>, rcols: Seq<Column>, ri: int) -> Seq<Seq<u8>> {
    match key_at(ld, lcols, li) {
        Some(v) => keyed_as(rd, rcols, ri, v),
        None => Seq::empty(),
    }
}

/// A hash join pairs a left tuple exactly with the right tuples whose join value is the same
/// value as its own: a right tuple is a partner when, and only when, both keys decode and are
/// equal.
pub proof fn lemma_partners_share_the_key(
    ld: Seq<u8>,
    lcols: Seq<Column>,
    li: int,
    rd: Seq<Seq<u8>>,
    rcols: Seq<Column>,
    ri: int,
    d: Seq<u8>,
)
    ensures
        partners(ld, lcols, li, rd, rcols, ri).contains(d) <==> (rd.contains(d) && key_at(ld, lcols, li) is Some && key_at(
            d,
            rcols,
            ri,
        ) == key_at(ld, lcols, li)),
{
    match key_at(ld, lcols, li) {
        Some(v) => {
            let f = |x: Seq<u8>| key_at(x, rcols, ri) == Some(v);
            rd.filter_lemma(f);
            if rd.contains(d) && f(d) {
                let j = choose|j: int| 0 <= j < rd.len() && rd[j] == d;
                rd.lemma_filter_contains(f, j);
            }
            if rd.filter(f).contains(d) {
                rd.lemma_filter_contains_rev(f, d);
            }
        },
        None => {},
    }
}

/// What a hash join's call gave, from the current left tuple `cur` with partners `m` of which
/// `mi` were joined, reading the left tuples `pulled` during the call: the current left tuple
/// with its next partner, joined, when one is left; otherwise the first tuple read that has
/// partners, joined with its first partner, after every tuple read before it had none; or,
/// when the left side is done, nothing. After it the current left tuple is `cur2` with
/// partners `m2` of which `mi2` are joined.
pub open spec fn hash_outcome(
    lcols: Seq<Column>,
    li: int,
    rd: Seq<Seq<u8>>,
    rcols: Seq<Column>,
    ri: int,
    cols: Seq<Column>,
    cur: Option<Tuple>,
    m: Seq<Seq<u8>>,
    mi: int,
    pulled: Seq<Tuple>,
    r: Result<Option<Tuple>, QueryError>,
    cur2: Option<Tuple>,
    m2: Seq<Seq<u8>>,
    mi2: int,
) -> bool {
    match r {
        Ok(Some(t)) => if pulled.len() == 0 {
            &&& cur is Some
            &&& 0 <= mi < m.len()
            &&& join_outcome(cur->0.data@, lcols, m[mi], rcols, cols, Ok::<Tuple, QueryError>(t))
            &&& cur2 == cur && m2 == m && mi2 == mi + 1
        } else {
            &&& mi >= m.len()
            &&& forall|k: int| 0 <= k < pulled.len() - 1 ==> partners((#[trigger] pulled[k]).data@, lcols, li, rd, rcols, ri).len() == 0
            &&& partners(pulled.last().data@, lcols, li, rd, rcols, ri).len() > 0
            &&& join_outcome(
                pulled.last().data@,
                lcols,
                partners(pulled.last().data@, lcols, li, rd, rcols, ri)[0],
                rcols,
                cols,
                Ok::<Tuple, QueryError>(t),
            )
            &&& cur2 == Some(pulled.last()) && m2 == partners(pulled.last().data@, lcols, li, rd, rcols, ri) && mi2 == 1
        },
        Ok(None) => mi >= m.len() && forall|k: int|
            0 <= k < pulled.len() ==> partners((#[trigger] pulled[k]).data@, lcols, li, rd, rcols, ri).len() == 0,
        Err(_) => true,
    }
}

/// Joins left and right tuples whose values in the named columns are equal, using a table of
/// the right tuples grouped by that value.
pub struct HashJoin<L, R> {
    left: L,
    right: R,
    left_col_name: String,
    right_col_name: String,
    schema: Schema,
    right_hash_table: Option<Vec<(Value, Vec<Tuple>)>>,
    current_left_tuple: Option<Tuple>,
    current_matches: Vec<Tuple>,
    match_index: usize,
    given: Ghost<Seq<Tuple>>,
    right_read: Ghost<Seq<Seq<u8>>>,
}

impl<L, R> HashJoin<L, R> {
    /// The joined columns.
    pub closed spec fn columns(&self) -> Seq<crate::schema::ColumnView> {
        crate::schema::columns_view(self.schema.columns@)
    }

    /// The columns of the tuples the left side produces.
    pub closed spec fn left_columns<C: ExecutionContext>(&self) -> Seq<Column> where L: Executor<C> {
        Executor::<C>::out_schema(&self.left).columns@
    }

    /// The columns of the tuples the right side produces.
    pub closed spec fn right_columns<C: ExecutionContext>(&self) -> Seq<Column> where R: Executor<C> {
        Executor::<C>::out_schema(&self.right).columns@
    }

    /// The columns of the joined tuples.
    pub closed spec fn joined_columns(&self) -> Seq<Column> {
        self.schema.columns@
    }

    /// The left side.
    pub closed spec fn source_left(&self) -> L {
        self.left
    }

    /// The right side.
    pub closed spec fn source_right(&self) -> R {
        self.right
    }

    /// The name of the left join column.
    pub closed spec fn left_key_name(&self) -> Seq<char> {
        self.left_col_name@
    }

    /// The name of the right join column.
    pub closed spec fn right_key_name(&self) -> Seq<char> {
        self.right_col_name@
    }

    /// The right side has been read and grouped.
    pub closed spec fn built(&self) -> bool {
        self.right_hash_table is Some
    }

    /// The right tuples read, as bytes, in order.
    pub closed spec fn right_read(&self) -> Seq<Seq<u8>> {
        self.right_read@
    }

    /// The left tuple being joined, if any.
    pub closed spec fn current_left(&self) -> Option<Tuple> {
        self.current_left_tuple
    }

    /// The right tuples (as bytes) the current left tuple joins with.
    pub closed spec fn current_partners(&self) -> Seq<Seq<u8>> {
        tuple_datas(self.current_matches@)
    }

    /// How many of the current partners have been joined.
    pub closed spec fn partner_pos(&self) -> int {
        self.match_index as int
    }

    /// A join of `left` and `right` on equal values of `left_col` and `right_col`; its schema
    /// holds the left columns then the right ones.
    pub fn new<C: ExecutionContext>(left: L, right: R, left_col: String, right_col: String) -> (r: Self) where
        L: Executor<C>,
        R: Executor<C>,
        ensures
            r.columns() == crate::schema::columns_view(Executor::<C>::out_schema(&left).columns@)
                + crate::schema::columns_view(Executor::<C>::out_schema(&right).columns@),
            Executor::<C>::inv(&left) && Executor::<C>::inv(&right) ==> Executor::<C>::inv(&r),
            Executor::<C>::produced(&r) == Seq::<Tuple>::empty(),
    {
        let schema = concat_schemas(left.schema(), right.schema());
        HashJoin {
            left,
            right,
            left_col_name: left_col,
            right_col_name: right_col,
            schema,
            right_hash_table: None,
            current_left_tuple: None,
            current_matches: Vec::new(),
            match_index: 0,
            given: Ghost(Seq::empty()),
            right_read: Ghost(Seq::empty()),
        }
    }

    /// Reads the right side in full and groups its tuples by their value in the right join
    /// column, keeping the order they came in within each group; tuples too short to have that
    /// value are left out. A right column that does not exist is an error.
    fn build_hash_table<C: ExecutionContext>(&mut self, ctx: &mut C) -> (r: Result<(), QueryError>) where
        L: Executor<C>,
        R: Executor<C>,
        requires
            Executor::<C>::inv(old(self)),
            old(ctx).ready(),
        ensures
            final(self).inv(),
            final(ctx).ready(),
            final(self).schema == old(self).schema,
            final(self).given == old(self).given,
            Executor::<C>::out_schema(&final(self).left) == Executor::<C>::out_schema(&old(self).left),
            Executor::<C>::out_schema(&final(self).right) == Executor::<C>::out_schema(&old(self).right),
            r is Ok ==> final(self).right_hash_table is Some,
            final(self).left == old(self).left,
            final(self).current_left_tuple == old(self).current_left_tuple,
            final(self).current_matches == old(self).current_matches,
            final(self).match_index == old(self).match_index,
            final(self).right_col_name == old(self).right_col_name,
            final(self).left_col_name == old(self).left_col_name,
            r is Ok ==> exists|rt: Seq<Tuple>|
                #[trigger] old(self).right.produced().add(rt) == final(self).right.produced() && final(self).right_read@
                    == tuple_datas(rt) && final(self).right.finished(),
            col_position(Executor::<C>::out_schema(&old(self).right).columns@, old(self).right_col_name@) is None ==> (r matches Err(
                QueryError::Execution(m),
            ) && m@ == missing_column_message("Right"@, old(self).right_col_name@)),
    {
        let right_idx = match column_position(self.right.schema(), &self.right_col_name) {
            Some(i) => i,
            None => {
                proof {
                    reveal_strlit("Right");
                }
                return Err(missing_column("Right", &self.right_col_name));
            },
        };
        let ghost rcols = Executor::<C>::out_schema(&self.right).columns@;
        let ghost right0 = self.right.produced();
        let ghost mut rt: Seq<Tuple> = Seq::empty();
        let mut table: Vec<(Value, Vec<Tuple>)> = Vec::new();
        let mut budget: u64 = u64::MAX;
        proof {
            assert(right0 + rt =~= right0);
            assert forall|v: ValueView| #[trigger] keyed_as(tuple_datas(rt), rcols, right_idx as int, v).len() > 0 implies exists|j: int|
                0 <= j < table@.len() && table@[j].0@ == v by {
                assert(tuple_datas(rt) =~= Seq::<Seq<u8>>::empty());
                assert(keyed_as(tuple_datas(rt), rcols, right_idx as int, v) =~= Seq::<Seq<u8>>::empty());
            }
        }
        loop
            invariant
                self.inv(),
                ctx.ready(),
                self.schema == old(self).schema,
                self.given == old(self).given,
                self.right_col_name == old(self).right_col_name,
                self.left_col_name == old(self).left_col_name,
                self.right_hash_table == old(self).right_hash_table,
                self.right_read == old(self).right_read,
                self.current_left_tuple == old(self).current_left_tuple,
                self.current_matches == old(self).current_matches,
                self.match_index == old(self).match_index,
                self.left == old(self).left,
                Executor::<C>::out_schema(&self.left) == Executor::<C>::out_schema(&old(self).left),
                Executor::<C>::out_schema(&self.right) == Executor::<C>::out_schema(&old(self).right),
                rcols == Executor::<C>::out_schema(&self.right).columns@,
                col_position(rcols, self.right_col_name@) == Some(right_idx as int),
                self.right.produced() == right0 + rt,
                right0 == old(self).right.produced(),
                table_groups(table@, tuple_datas(rt), rcols, right_idx as int),
            ensures
                self.right.finished(),
                self.left_col_name == old(self).left_col_name,
                self.inv(),
                ctx.ready(),
                self.schema == old(self).schema,
                self.given == old(self).given,
                self.right_col_name == old(self).right_col_name,
                self.right_hash_table == old(self).right_hash_table,
                self.current_left_tuple == old(self).current_left_tuple,
                self.current_matches == old(self).current_matches,
                self.match_index == old(self).match_index,
                self.left == old(self).left,
                Executor::<C>::out_schema(&self.right) == Executor::<C>::out_schema(&old(self).right),
                rcols == Executor::<C>::out_schema(&self.right).columns@,
                col_position(rcols, self.right_col_name@) == Some(right_idx as int),
                self.right.produced() == right0 + rt,
                right0 == old(self).right.produced(),
                table_groups(table@, tuple_datas(rt), rcols, right_idx as int),
            decreases budget,
        {
            if budget == 0 {
                return Err(exhausted());
            }
            budget = budget - 1;
            let t = match self.right.next(ctx) {
                Err(e) => {
                    return Err(e);
                },
                Ok(None) => {
                    break;
                },
                Ok(Some(t)) => t,
            };
            let ghost rd0 = tuple_datas(rt);
            let ghost x = t.data@;
            let ghost tab0 = table@;
            proof {
                let r0 = rt;
                rt = rt.push(t);
                assert(self.right.produced() =~= right0 + rt);
                assert(tuple_datas(rt) =~= rd0.push(x));
            }
            let vals = match t.to_values(self.right.schema()) {
                Ok(v) => v,
                Err(e) => {
                    return Err(QueryError::Tuple(e));
                },
            };
            if right_idx < vals.len() {
                let key = vals[right_idx].duplicate();
                let ghost kv = key@;
                assert(key_at(x, rcols, right_idx as int) == Some(kv));
                let mut found: Option<usize> = None;
                let mut k: usize = 0;
                while k < table.len()
                    invariant
                        k <= table@.len(),
                        found is None ==> forall|a: int| 0 <= a < k ==> (#[trigger] table@[a]).0@ != kv,
                        found matches Some(j) ==> j < table@.len() && table@[j as int].0@ == kv,
                        key@ == kv,
                    ensures
                        found is None ==> forall|a: int| 0 <= a < table@.len() ==> (#[trigger] table@[a]).0@ != kv,
                        found matches Some(j) ==> j < table@.len() && table@[j as int].0@ == kv,
                    decreases table@.len() - k,
                {
                    if values_equal(&table[k].0, &key) {
                        found = Some(k);
                        break;
                    }
                    k += 1;
                }
                match found {
                    Some(j) => {
                        let (kvv, mut group) = table.remove(j);
                        let ghost g0 = group@;
                        group.push(t);
                        table.insert(j, (kvv, group));
                        proof {
                            assert(table@.len() == tab0.len());
                            assert(table@[j as int].0 == tab0[j as int].0);
                            assert(table@[j as int].1@ == g0.push(t));
                            assert(g0 == tab0[j as int].1@);
                            assert(tuple_datas(g0.push(t)) =~= tuple_datas(g0).push(x));
                            assert forall|a: int| 0 <= a < tab0.len() && a != j implies #[trigger] table@[a] == tab0[a] by {
                                if a < j {
                                } else {
                                }
                            }
                            lemma_groups_add(tab0, rd0, rcols, right_idx as int, x, kv, j as int, table@);
                        }
                    },
                    None => {
                        let mut group: Vec<Tuple> = Vec::new();
                        group.push(t);
                        table.push((key, group));
                        proof {
                            assert(table@[tab0.len() as int].1@ =~= seq![t]);
                            assert(tuple_datas(seq![t]) =~= seq![x]);
                            lemma_groups_new(tab0, rd0, rcols, right_idx as int, x, kv, table@);
                        }
                    },
                }
            } else {
                proof {
                    assert(key_at(x, rcols, right_idx as int) is None);
                    lemma_groups_keyless(tab0, rd0, rcols, right_idx as int, x);
                }
            }
        }
        self.right_hash_table = Some(table);
        self.right_read = Ghost(tuple_datas(rt));
        proof {
            assert(old(self).right.produced().add(rt) == self.right.produced());
        }
        Ok(())
    }
}

impl<C: ExecutionContext, L: Executor<C>, R: Executor<C>> Executor<C> for HashJoin<L, R> {

    closed spec fn inv(&self) -> bool {
        &&& self.left.inv()
        &&& self.right.inv()
        &&& self.current_left_tuple is None ==> self.current_matches@.len() == 0
        &&& self.right_hash_table matches Some(tab) ==> (col_position(self.right.out_schema().columns@, self.right_col_name@)
            matches Some(ri) && table_groups(tab@, self.right_read@, self.right.out_schema().columns@, ri))
    }

    closed spec fn out_schema(&self) -> Schema {
        self.schema
    }

    closed spec fn produced(&self) -> Seq<Tuple> {
        self.given@
    }

    /// Finished once the table is built, the current matches are used up and the left side
    /// is finished.
    closed spec fn finished(&self) -> bool {
        &&& self.right_hash_table is Some
        &&& self.match_index >= self.current_matches@.len()
        &&& self.left.finished()
    }

    /// The next joined tuple: the current left tuple with its next matching right tuple, or
    /// else the next left tuple that has matches. The table is built on the first call, after
    /// which the right tuples read make up the table.
    fn next(&mut self, ctx: &mut C) -> (r: Result<Option<Tuple>, QueryError>)
        ensures
            final(self).left_columns::<C>() == old(self).left_columns::<C>(),
            final(self).right_columns::<C>() == old(self).right_columns::<C>(),
            final(self).joined_columns() == old(self).joined_columns(),
            final(self).left_key_name() == old(self).left_key_name(),
            final(self).right_key_name() == old(self).right_key_name(),
            r matches Ok(Some(t)) ==> joined_from(
                old(self).left_columns::<C>(),
                old(self).right_columns::<C>(),
                old(self).joined_columns(),
                t,
            ),
            r is Ok ==> final(self).built(),
            old(self).built() ==> final(self).right_read() == old(self).right_read() && final(self).source_right()
                == old(self).source_right(),
            !old(self).built() && r is Ok ==> exists|rt: Seq<Tuple>|
                #[trigger] old(self).source_right().produced().add(rt) == final(self).source_right().produced()
                    && final(self).right_read() == tuple_datas(rt) && final(self).source_right().finished(),
            r is Ok ==> exists|pulled: Seq<Tuple>|
                #[trigger] old(self).source_left().produced().add(pulled) == final(self).source_left().produced()
                    && hash_outcome(
                    old(self).left_columns::<C>(),
                    col_position(old(self).left_columns::<C>(), old(self).left_key_name())->0,
                    final(self).right_read(),
                    old(self).right_columns::<C>(),
                    col_position(old(self).right_columns::<C>(), old(self).right_key_name())->0,
                    old(self).joined_columns(),
                    old(self).current_left(),
                    old(self).current_partners(),
                    old(self).partner_pos(),
                    pulled,
                    r,
                    final(self).current_left(),
                    final(self).current_partners(),
                    final(self).partner_pos(),
                ),
    {
        let ghost mut rt_g: Seq<Tuple> = Seq::empty();
        if self.right_hash_table.is_none() {
            match self.build_hash_table(ctx) {
                Ok(()) => {},
                Err(e) => {
                    return Err(e);
                },
            }
            proof {
                rt_g = choose|rt: Seq<Tuple>|
                    #[trigger] old(self).right.produced().add(rt) == self.right.produced() && self.right_read@ == tuple_datas(rt)
                        && self.right.finished();
            }
        }
        let ghost lcols = Executor::<C>::out_schema(&self.left).columns@;
        let ghost rcols = Executor::<C>::out_schema(&self.right).columns@;
        let ghost li = col_position(lcols, self.left_col_name@)->0;
        let ghost ri = col_position(rcols, self.right_col_name@)->0;
        let ghost rd = self.right_read@;
        let ghost left0 = self.left.produced();
        let ghost table0 = self.right_hash_table;
        let ghost right1 = self.right;
        let ghost cur0 = self.current_left_tuple;
        let ghost m0 = tuple_datas(self.current_matches@);
        let ghost mi0 = self.match_index as int;
        let ghost mut pulled: Seq<Tuple> = Seq::empty();
        proof {
            assert(left0 + pulled =~= left0);
        }
        let mut budget: u64 = u64::MAX;
        loop
            invariant
                self.inv(),
                ctx.ready(),
                self.out_schema() == old(self).out_schema(),
                self.schema == old(self).schema,
                Executor::<C>::out_schema(&self.left) == Executor::<C>::out_schema(&old(self).left),
                Executor::<C>::out_schema(&self.right) == Executor::<C>::out_schema(&old(self).right),
                self.right_hash_table is Some,
                old(self).finished() ==> self.finished() && budget == u64::MAX,
                self.given == old(self).given,
                self.left_col_name == old(self).left_col_name,
                self.right_col_name == old(self).right_col_name,
                lcols == Executor::<C>::out_schema(&old(self).left).columns@,
                rcols == Executor::<C>::out_schema(&old(self).right).columns@,
                li == col_position(lcols, self.left_col_name@)->0,
                ri == col_position(rcols, self.right_col_name@)->0,
                self.right_hash_table == table0,
                self.right_read@ == rd,
                self.right == right1,
                left0 == old(self).left.produced(),
                self.left.produced() == left0 + pulled,
                old(self).built() ==> cur0 == old(self).current_left_tuple && m0 == tuple_datas(
                    old(self).current_matches@,
                ) && mi0 == old(self).match_index && right1 == old(self).right && rd == old(self).right_read@,
                !old(self).built() ==> cur0 == old(self).current_left_tuple && m0 == tuple_datas(
                    old(self).current_matches@,
                ) && mi0 == old(self).match_index && old(self).right.produced().add(rt_g) == right1.produced() && rd
                    == tuple_datas(rt_g) && right1.finished(),
                pulled.len() == 0 ==> self.current_left_tuple == cur0 && tuple_datas(self.current_matches@) == m0
                    && self.match_index == mi0,
                pulled.len() > 0 ==> {
                    &&& mi0 >= m0.len()
                    &&& self.match_index == 0
                    &&& self.current_left_tuple == Some(pulled.last())
                    &&& tuple_datas(self.current_matches@) == partners(pulled.last().data@, lcols, li, rd, rcols, ri)
                    &&& forall|k: int| 0 <= k < pulled.len() - 1 ==> partners(
                        (#[trigger] pulled[k]).data@,
                        lcols,
                        li,
                        rd,
                        rcols,
                        ri,
                    ).len() == 0
                },
            decreases budget,
        {
            proof {
                assert(old(self).source_left().produced().add(pulled) == self.source_left().produced());
                if !old(self).built() {
                    assert(old(self).source_right().produced().add(rt_g) == self.source_right().produced());
                }
            }
            if budget == 0 {
                return Err(exhausted());
            }
            budget = budget - 1;
            if self.match_index < self.current_matches.len() {
                let rt = copy_tuple(&self.current_matches[self.match_index]);
                let ghost mi = self.match_index as int;
                self.match_index = self.match_index + 1;
                let joined = match &self.current_left_tuple {
                    Some(lt) => Some(join_tuples(lt, self.left.schema(), &rt, self.right.schema(), &self.schema)),
                    None => None,
                };
                match joined {
                    Some(Ok(t)) => {
                        proof {
                            let lt = self.current_left_tuple->0;
                            assert(join_outcome(
                                lt.data@,
                                old(self).left_columns::<C>(),
                                rt.data@,
                                old(self).right_columns::<C>(),
                                old(self).joined_columns(),
                                Ok::<Tuple, QueryError>(t),
                            ));
                            assert(tuple_datas(self.current_matches@)[mi] == rt.data@);
                        }
                        self.given = Ghost(self.given@.push(t));
                        proof {
                            assert(hash_outcome(
                                lcols,
                                li,
                                rd,
                                rcols,
                                ri,
                                old(self).joined_columns(),
                                cur0,
                                m0,
                                mi0,
                                pulled,
                                Ok::<Option<Tuple>, QueryError>(Some(t)),
                                self.current_left_tuple,
                                tuple_datas(self.current_matches@),
                                self.match_index as int,
                            ));
                        }
                        return Ok(Some(t));
                    },
                    Some(Err(e)) => {
                        return Err(e);
                    },
                    None => {
                        proof {
                            assert(self.current_matches@.len() == 0);
                        }
                    },
                }
            }
            let ghost last_matches = tuple_datas(self.current_matches@);
            proof {
                assert(self.match_index >= self.current_matches@.len());
                assert(last_matches.len() == self.current_matches@.len());
                if pulled.len() == 0 {
                    assert(mi0 >= m0.len());
                } else {
                    assert(last_matches.len() == 0);
                }
            }
            self.current_matches = Vec::new();
            self.match_index = 0;
            let lt = match self.left.next(ctx) {
                Err(e) => {
                    return Err(e);
                },
                Ok(None) => {
                    proof {
                        assert(hash_outcome(
                            lcols,
                            li,
                            rd,
                            rcols,
                            ri,
                            old(self).joined_columns(),
                            cur0,
                            m0,
                            mi0,
                            pulled,
                            Ok::<Option<Tuple>, QueryError>(None),
                            self.current_left_tuple,
                            tuple_datas(self.current_matches@),
                            self.match_index as int,
                        ));
                    }
                    return Ok(None);
                },
                Ok(Some(t)) => t,
            };
            let left_idx = match column_position(self.left.schema(), &self.left_col_name) {
                Some(i) => i,
                None => {
                    return Err(missing_column("Left", &self.left_col_name));
                },
            };
            let vals = match lt.to_values(self.left.schema()) {
                Ok(v) => v,
                Err(e) => {
                    return Err(QueryError::Tuple(e));
                },
            };
            let mut matches: Vec<Tuple> = Vec::new();
            if left_idx < vals.len() {
                let ghost v = vals@[left_idx as int]@;
                proof {
                    assert(key_at(lt.data@, lcols, li) == Some(v));
                }
                match &self.right_hash_table {
                    Some(table) => {
                        let mut found: Option<usize> = None;
                        let mut k: usize = 0;
                        while k < table.len()
                            invariant
                                k <= table@.len(),
                                left_idx < vals@.len(),
                                v == vals@[left_idx as int]@,
                                found is None ==> forall|a: int| 0 <= a < k ==> (#[trigger] table@[a]).0@ != v,
                                found matches Some(j) ==> j < table@.len() && table@[j as int].0@ == v,
                            ensures
                                found is None ==> forall|a: int| 0 <= a < table@.len() ==> (#[trigger] table@[a]).0@ != v,
                                found matches Some(j) ==> j < table@.len() && table@[j as int].0@ == v,
                            decreases table@.len() - k,
                        {
                            if values_equal(&table[k].0, &vals[left_idx]) {
                                found = Some(k);
                                break;
                            }
                            k += 1;
                        }
                        match found {
                            Some(j) => {
                                let group = &table[j].1;
                                let mut g: usize = 0;
                                while g < group.len()
                                    invariant
                                        g <= group@.len(),
                                        tuple_datas(matches@) == tuple_datas(group@.take(g as int)),
                                    decreases group@.len() - g,
                                {
                                    let c = copy_tuple(&group[g]);
                                    let ghost before = matches@;
                                    matches.push(c);
                                    proof {
                                        assert(tuple_datas(matches@) =~= tuple_datas(before).push(c.data@));
                                        assert(tuple_datas(group@.take(g + 1)) =~= tuple_datas(group@.take(g as int)).push(
                                            group@[g as int].data@,
                                        ));
                                    }
                                    g += 1;
                                }
                                proof {
                                    assert(group@.take(group@.len() as int) =~= group@);
                                    assert(tuple_datas(matches@) == keyed_as(rd, rcols, ri, v));
                                }
                            },
                            None => {
                                proof {
                                    if keyed_as(rd, rcols, ri, v).len() > 0 {
                                        let a = choose|a: int| 0 <= a < table@.len() && table@[a].0@ == v;
                                        assert(table@[a].0@ != v);
                                    }
                                    assert(tuple_datas(matches@) =~= keyed_as(rd, rcols, ri, v));
                                }
                            },
                        }
                    },
                    None => {},
                }
            } else {
                proof {
                    assert(key_at(lt.data@, lcols, li) is None);
                    assert(tuple_datas(matches@) =~= Seq::<Seq<u8>>::empty());
                }
            }
            self.current_matches = matches;
            self.current_left_tuple = Some(lt);
            proof {
                let p0 = pulled;
                pulled = pulled.push(lt);
                assert(left0 + pulled =~= (left0 + p0).push(lt));
                assert(tuple_datas(self.current_matches@) == partners(lt.data@, lcols, li, rd, rcols, ri));
                assert forall|k: int| 0 <= k < pulled.len() - 1 implies partners(
                    (#[trigger] pulled[k]).data@,
                    lcols,
                    li,
                    rd,
                    rcols,
                    ri,
                ).len() == 0 by {
                    assert(pulled[k] == p0[k]);
                    if k == p0.len() - 1 {
                        assert(last_matches.len() == 0);
                    }
                }
            }
        }
    }

    fn schema(&self) -> &Schema {
        &self.schema
    }
}

/// The named fields of a tuple: each column's name with its value, in column order.
pub fn tuple_fields(tuple: &Tuple, schema: &Schema) -> (r: Result<Vec<(String, Value)>, QueryError>)
    ensures
        match decode(tuple.data@, schema.columns@) {
            Ok(vals) => r matches Ok(fs) && fs@.len() == vals.len() && forall|i: int|
                0 <= i < fs@.len() ==> (#[trigger] fs@[i]).0@ == schema.columns@[i].name@ && fs@[i].1@ == vals[i],
            Err(f) => r matches Err(QueryError::Tuple(TupleError::DeserializationError(m))) && m@ == fault_message(f),
        },
{
    let values = match decode_values(tuple, schema) {
        Ok(v) => v,
        Err(e) => {
            return Err(e);
        },
    };
    proof {
        crate::tuple::lemma_decode_len(tuple.data@, schema.columns@);
    }
    let mut out: Vec<(String, Value)> = Vec::new();
    let mut i: usize = 0;
    while i < values.len()
        invariant
            i <= values@.len(),
            values@.len() == schema.columns@.len(),
            decode(tuple.data@, schema.columns@) == Ok::<_, crate::tuple::DecodeFault>(values_view(values@)),
            out@.len() == i,
            forall|k: int| 0 <= k < i ==> (#[trigger] out@[k]).0@ == schema.columns@[k].name@ && out@[k].1@ == values@[k]@,
        decreases values@.len() - i,
    {
        out.push((schema.columns[i].name.clone(), values[i].duplicate()));
        i += 1;
    }
    Ok(out)
}

} // verus!
