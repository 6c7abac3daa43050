//! Binary tuple format: `[null bitmap][fixed section][variable section]`.
use crate::schema::{Column, Schema};
use crate::value::{DataType, Value, ValueView};
use vstd::bytes::*;
use vstd::prelude::*;
use vstd::string::*;
use vstd::utf8::*;

verus! {

broadcast use vstd::seq_lib::group_seq_properties;

/// Errors that can occur during tuple operations.
#[derive(Debug)]
pub enum TupleError {
    /// Schema column count does not match the provided value count.
    ColumnCountMismatch { schema_count: usize, value_count: usize },
    /// A null value was provided for a non-nullable column.
    NullNotAllowed { column_name: String },
    /// A value of another type than its column's was provided.
    TypeMismatch { column_name: String },
    /// An error occurred during byte deserialization.
    DeserializationError(String),
}

/// A serialized record.
#[derive(Debug, Clone, PartialEq, Eq)]
pub struct Tuple {
    /// The raw byte representation of the tuple.
    pub data: Vec<u8>,
}

// ---------------------------------------------------------------------------
// Specification of the encoding
// ---------------------------------------------------------------------------

/// Bytes a column of the given type occupies in the fixed section.
pub open spec fn slot_width(dt: DataType) -> nat {
    match dt {
        DataType::Integer => 4,
        DataType::Boolean => 1,
        DataType::Varchar => 4,
    }
}

pub open spec fn zeros(n: nat) -> Seq<u8> {
    Seq::new(n, |i: int| 0u8)
}

/// A length or offset stored in a 16-bit field; values that do not fit are stored as 0.
pub open spec fn fit16(x: nat) -> u16 {
    if x <= 0xffff {
        x as u16
    } else {
        0
    }
}

/// Little-endian bytes of a 32-bit signed integer.
pub open spec fn i32_le(x: i32) -> Seq<u8> {
    spec_u32_to_le_bytes(x as u32)
}

/// Bytes the first pass writes to the fixed section for one column,
/// given how many variable-section bytes precede this value.
pub open spec fn fixed_chunk(dt: DataType, v: ValueView, var_before: nat) -> Seq<u8> {
    match v {
        ValueView::Null => zeros(slot_width(dt)),
        ValueView::Integer(x) => i32_le(x),
        ValueView::Boolean(b) => seq![if b { 1u8 } else { 0u8 }],
        ValueView::Varchar(s) => spec_u16_to_le_bytes(fit16(var_before)) + spec_u16_to_le_bytes(
            fit16(encode_utf8(s).len()),
        ),
    }
}

/// The variable-section bytes of one value.
pub open spec fn var_bytes(v: ValueView) -> Seq<u8> {
    match v {
        ValueView::Varchar(s) => encode_utf8(s),
        _ => Seq::empty(),
    }
}

/// Variable section made from the first `n` values.
pub open spec fn var_section(vals: Seq<ValueView>, n: nat) -> Seq<u8>
    decreases n,
{
    if n == 0 {
        Seq::empty()
    } else {
        var_section(vals, (n - 1) as nat) + var_bytes(vals[n - 1])
    }
}

/// Fixed section after the first pass over the first `n` columns.
pub open spec fn fixed_first_pass(cols: Seq<Column>, vals: Seq<ValueView>, n: nat) -> Seq<u8>
    decreases n,
{
    if n == 0 {
        Seq::empty()
    } else {
        fixed_first_pass(cols, vals, (n - 1) as nat) + fixed_chunk(
            cols[n - 1].data_type,
            vals[n - 1],
            var_section(vals, (n - 1) as nat).len(),
        )
    }
}

/// Position of column `i` in the fixed section, computed from the column types.
pub open spec fn cursor_at(cols: Seq<Column>, i: nat) -> nat
    decreases i,
{
    if i == 0 {
        0
    } else {
        cursor_at(cols, (i - 1) as nat) + slot_width(cols[i - 1].data_type)
    }
}

/// Column `i` holds a non-null value in a VARCHAR column: its stored offset is relocated.
pub open spec fn relocates(cols: Seq<Column>, vals: Seq<ValueView>, i: nat) -> bool {
    !(vals[i as int] is Null) && cols[i as int].data_type == DataType::Varchar
}

/// The 16-bit field at position `c`.
pub open spec fn read16(s: Seq<u8>, c: nat) -> u16 {
    spec_u16_from_le_bytes(s.subrange(c as int, c + 2int))
}

/// Replaces the 16-bit field at position `c`.
pub open spec fn write16(s: Seq<u8>, c: nat, x: u16) -> Seq<u8> {
    s.subrange(0, c as int) + spec_u16_to_le_bytes(x) + s.subrange(c + 2int, s.len() as int)
}

/// One step of the second pass: relocate the offset of column `i` by `base` (mod 2^16).
pub open spec fn relocate_step(
    fixed: Seq<u8>,
    cols: Seq<Column>,
    vals: Seq<ValueView>,
    base: nat,
    i: nat,
) -> Seq<u8> {
    if relocates(cols, vals, i) {
        let c = cursor_at(cols, i);
        write16(fixed, c, (read16(fixed, c) + base % 0x10000) as u16)
    } else {
        fixed
    }
}

/// The step for column `i` reads inside the fixed section and the sum fits in 16 bits.
pub open spec fn relocate_step_ok(
    fixed: Seq<u8>,
    cols: Seq<Column>,
    vals: Seq<ValueView>,
    base: nat,
    i: nat,
) -> bool {
    relocates(cols, vals, i) ==> {
        let c = cursor_at(cols, i);
        &&& c + 2 <= fixed.len()
        &&& read16(fixed, c) + base % 0x10000 <= 0xffff
    }
}

/// Fixed section after the second pass over the first `n` columns.
pub open spec fn relocated(
    fixed: Seq<u8>,
    cols: Seq<Column>,
    vals: Seq<ValueView>,
    base: nat,
    n: nat,
) -> Seq<u8>
    decreases n,
{
    if n == 0 {
        fixed
    } else {
        relocate_step(relocated(fixed, cols, vals, base, (n - 1) as nat), cols, vals, base, (n - 1) as nat)
    }
}

/// Every step of the second pass over the first `n` columns is defined.
pub open spec fn relocation_ok(
    fixed: Seq<u8>,
    cols: Seq<Column>,
    vals: Seq<ValueView>,
    base: nat,
    n: nat,
) -> bool {
    forall|i: nat| i < n ==> relocate_step_ok(#[trigger] relocated(fixed, cols, vals, base, i), cols, vals, base, i)
}

/// The byte whose bits 0..7 are the given flags.
pub open spec fn byte_of_bits(
    b0: bool,
    b1: bool,
    b2: bool,
    b3: bool,
    b4: bool,
    b5: bool,
    b6: bool,
    b7: bool,
) -> u8 {
    ((if b0 { 1u8 } else { 0u8 }) | (if b1 { 2u8 } else { 0u8 }) | (if b2 { 4u8 } else { 0u8 }) | (
    if b3 { 8u8 } else { 0u8 }) | (if b4 { 16u8 } else { 0u8 }) | (if b5 { 32u8 } else { 0u8 }) | (
    if b6 { 64u8 } else { 0u8 }) | (if b7 { 128u8 } else { 0u8 })) as u8
}

/// Whether the null bit of column `i` is set: the value exists and is NULL.
pub open spec fn null_bit(vals: Seq<ValueView>, i: int) -> bool {
    0 <= i < vals.len() && vals[i] is Null
}

/// Byte `j` of the null bitmap.
pub open spec fn bitmap_byte(vals: Seq<ValueView>, j: int) -> u8 {
    byte_of_bits(
        null_bit(vals, 8 * j),
        null_bit(vals, 8 * j + 1),
        null_bit(vals, 8 * j + 2),
        null_bit(vals, 8 * j + 3),
        null_bit(vals, 8 * j + 4),
        null_bit(vals, 8 * j + 5),
        null_bit(vals, 8 * j + 6),
        null_bit(vals, 8 * j + 7),
    )
}

/// The null bitmap: `nbytes` bytes, bit `i % 8` of byte `i / 8` set when value `i` is NULL.
pub open spec fn null_bitmap(vals: Seq<ValueView>, nbytes: nat) -> Seq<u8> {
    Seq::new(nbytes, |j: int| bitmap_byte(vals, j))
}

/// Value `i` does not match its column: NULL in a non-nullable column, or a non-NULL value of
/// another type than the column's.
pub open spec fn violates(cols: Seq<Column>, vals: Seq<ValueView>, i: int) -> bool {
    if vals[i] is Null {
        !cols[i].is_nullable
    } else {
        crate::value::value_type(vals[i]) != Some(cols[i].data_type)
    }
}

/// Index of the first value among the first `n` that does not match its column.
pub open spec fn first_violation(cols: Seq<Column>, vals: Seq<ValueView>, n: nat) -> Option<int>
    decreases n,
{
    if n == 0 {
        None
    } else {
        match first_violation(cols, vals, (n - 1) as nat) {
            Some(k) => Some(k),
            None => if violates(cols, vals, n - 1) {
                Some(n - 1)
            } else {
                None
            },
        }
    }
}

/// Fixed section after the first pass over all columns.
pub open spec fn first_pass(cols: Seq<Column>, vals: Seq<ValueView>) -> Seq<u8> {
    fixed_first_pass(cols, vals, cols.len())
}

/// Distance from the start of the tuple to the variable section.
pub open spec fn var_base(cols: Seq<Column>, vals: Seq<ValueView>) -> nat {
    crate::schema::bitmap_len(cols.len()) + first_pass(cols, vals).len()
}

/// Encoding is defined: every relocation stays in bounds and does not overflow 16 bits.
pub open spec fn encodable(cols: Seq<Column>, vals: Seq<ValueView>) -> bool {
    relocation_ok(first_pass(cols, vals), cols, vals, var_base(cols, vals), cols.len())
}

/// The bytes of the encoded tuple.
pub open spec fn encode(cols: Seq<Column>, vals: Seq<ValueView>) -> Seq<u8> {
    null_bitmap(vals, crate::schema::bitmap_len(cols.len())) + relocated(
        first_pass(cols, vals),
        cols,
        vals,
        var_base(cols, vals),
        cols.len(),
    ) + var_section(vals, cols.len())
}


/// The reasons decoding can fail, in the order the decoder checks them.
pub enum DecodeFault {
    ShortBitmap,
    IntegerBounds,
    BooleanBounds,
    PointerBounds,
    PayloadBounds,
    InvalidUtf8,
}

/// The message the decoder reports for each fault.
pub open spec fn fault_message(f: DecodeFault) -> Seq<char> {
    match f {
        DecodeFault::ShortBitmap => "Data too short for bitmap"@,
        DecodeFault::IntegerBounds => "Out of bounds integer"@,
        DecodeFault::BooleanBounds => "Out of bounds boolean"@,
        DecodeFault::PointerBounds => "Out of bounds varchar pointer"@,
        DecodeFault::PayloadBounds => "Out of bounds varchar payload"@,
        DecodeFault::InvalidUtf8 => "Invalid UTF-8"@,
    }
}

/// Whether the stored null bit of column `i` is set.
pub open spec fn stored_null(data: Seq<u8>, i: nat) -> bool {
    data[(i / 8) as int] & (1u8 << ((i % 8) as u8)) != 0
}

/// Prepends a decoded value to the result of decoding the remaining columns.
pub open spec fn prepend(v: ValueView, rest: Result<Seq<ValueView>, DecodeFault>) -> Result<
    Seq<ValueView>,
    DecodeFault,
> {
    match rest {
        Ok(vs) => Ok(seq![v] + vs),
        Err(f) => Err(f),
    }
}

/// Decodes columns `i..` with the fixed-section cursor at `cursor`.
pub open spec fn decode_from(data: Seq<u8>, cols: Seq<Column>, i: nat, cursor: nat) -> Result<
    Seq<ValueView>,
    DecodeFault,
>
    decreases cols.len() - i,
{
    if i >= cols.len() {
        Ok(Seq::empty())
    } else if stored_null(data, i) {
        prepend(ValueView::Null, decode_from(data, cols, i + 1, cursor + slot_width(cols[i as int].data_type)))
    } else {
        match cols[i as int].data_type {
            DataType::Integer => if cursor + 4 > data.len() {
                Err(DecodeFault::IntegerBounds)
            } else {
                prepend(
                    ValueView::Integer(spec_u32_from_le_bytes(data.subrange(cursor as int, cursor + 4int)) as i32),
                    decode_from(data, cols, i + 1, cursor + 4),
                )
            },
            DataType::Boolean => if cursor + 1 > data.len() {
                Err(DecodeFault::BooleanBounds)
            } else {
                prepend(ValueView::Boolean(data[cursor as int] != 0), decode_from(data, cols, i + 1, cursor + 1))
            },
            DataType::Varchar => if cursor + 4 > data.len() {
                Err(DecodeFault::PointerBounds)
            } else {
                let off = read16(data, cursor);
                let len = read16(data, cursor + 2);
                if off + len > data.len() {
                    Err(DecodeFault::PayloadBounds)
                } else if !valid_utf8(data.subrange(off as int, off + len)) {
                    Err(DecodeFault::InvalidUtf8)
                } else {
                    prepend(
                        ValueView::Varchar(decode_utf8(data.subrange(off as int, off + len))),
                        decode_from(data, cols, i + 1, cursor + 4),
                    )
                }
            },
        }
    }
}

/// Decoding a whole tuple.
pub open spec fn decode(data: Seq<u8>, cols: Seq<Column>) -> Result<Seq<ValueView>, DecodeFault> {
    if data.len() < crate::schema::bitmap_len(cols.len()) {
        Err(DecodeFault::ShortBitmap)
    } else {
        decode_from(data, cols, 0, crate::schema::bitmap_len(cols.len()))
    }
}


proof fn lemma_decode_from_len(data: Seq<u8>, cols: Seq<Column>, i: nat, cursor: nat)
    requires
        i <= cols.len(),
    ensures
        decode_from(data, cols, i, cursor) matches Ok(vs) ==> vs.len() == cols.len() - i,
    decreases cols.len() - i,
{
    if i < cols.len() {
        lemma_decode_from_len(data, cols, i + 1, cursor + slot_width(cols[i as int].data_type));
        lemma_decode_from_len(data, cols, i + 1, cursor + 4);
        lemma_decode_from_len(data, cols, i + 1, cursor + 1);
    }
}

/// A decoded tuple has one value per column.
pub proof fn lemma_decode_len(data: Seq<u8>, cols: Seq<Column>)
    ensures
        decode(data, cols) matches Ok(vs) ==> vs.len() == cols.len(),
{
    lemma_decode_from_len(data, cols, 0, crate::schema::bitmap_len(cols.len()));
}


// ---------------------------------------------------------------------------
// Round trip
// ---------------------------------------------------------------------------

/// Every value is NULL or carries the type of its column.
pub open spec fn well_typed(cols: Seq<Column>, vals: Seq<ValueView>) -> bool {
    &&& cols.len() == vals.len()
    &&& forall|i: int|
        0 <= i < cols.len() ==> (#[trigger] vals[i] is Null || crate::value::value_type(vals[i]) == Some(
            cols[i].data_type,
        ))
}

/// Number of variable-section bytes before value `i`.
pub open spec fn var_offset(vals: Seq<ValueView>, i: nat) -> nat {
    var_section(vals, i).len()
}

/// The fixed-section bytes of column `i` once the encoding is complete.
pub open spec fn final_chunk(cols: Seq<Column>, vals: Seq<ValueView>, base: nat, i: nat) -> Seq<u8> {
    if relocates(cols, vals, i) {
        spec_u16_to_le_bytes((var_offset(vals, i) + base) as u16) + spec_u16_to_le_bytes(
            fit16(encode_utf8(vals[i as int]->Varchar_0).len()),
        )
    } else {
        fixed_chunk(cols[i as int].data_type, vals[i as int], var_offset(vals, i))
    }
}

proof fn lemma_cursor_mono(cols: Seq<Column>, i: nat, j: nat)
    requires
        i <= j,
    ensures
        cursor_at(cols, i) <= cursor_at(cols, j),
    decreases j - i,
{
    if i < j {
        lemma_cursor_mono(cols, i, (j - 1) as nat);
    }
}

proof fn lemma_var_prefix(vals: Seq<ValueView>, i: nat, m: nat)
    requires
        i <= m <= vals.len(),
    ensures
        var_offset(vals, i) <= var_offset(vals, m),
        var_section(vals, m).subrange(0, var_offset(vals, i) as int) == var_section(vals, i),
    decreases m - i,
{
    if i < m {
        lemma_var_prefix(vals, i, (m - 1) as nat);
        let a = var_section(vals, (m - 1) as nat);
        assert(var_section(vals, m).subrange(0, var_offset(vals, i) as int) =~= a.subrange(
            0,
            var_offset(vals, i) as int,
        ));
    } else {
        assert(var_section(vals, m).subrange(0, var_offset(vals, i) as int) =~= var_section(vals, m));
    }
}

proof fn lemma_var_piece(vals: Seq<ValueView>, i: nat, m: nat)
    requires
        i < m <= vals.len(),
    ensures
        var_offset(vals, i) + var_bytes(vals[i as int]).len() <= var_offset(vals, m),
        var_section(vals, m).subrange(
            var_offset(vals, i) as int,
            (var_offset(vals, i) + var_bytes(vals[i as int]).len()) as int,
        ) == var_bytes(vals[i as int]),
{
    lemma_var_prefix(vals, i + 1, m);
    let p = var_section(vals, (i + 1) as nat);
    assert(var_section(vals, m).subrange(
        var_offset(vals, i) as int,
        (var_offset(vals, i) + var_bytes(vals[i as int]).len()) as int,
    ) =~= p.subrange(var_offset(vals, i) as int, p.len() as int));
    assert(p.subrange(var_offset(vals, i) as int, p.len() as int) =~= var_bytes(vals[i as int]));
}

proof fn lemma_chunk_len(cols: Seq<Column>, vals: Seq<ValueView>, i: nat, var_before: nat)
    requires
        well_typed(cols, vals),
        i < cols.len(),
    ensures
        fixed_chunk(cols[i as int].data_type, vals[i as int], var_before).len() == slot_width(
            cols[i as int].data_type,
        ),
{
    lemma_auto_spec_u16_to_from_le_bytes();
    lemma_auto_spec_u32_to_from_le_bytes();
    assert(vals[i as int] is Null || crate::value::value_type(vals[i as int]) == Some(cols[i as int].data_type));
    match vals[i as int] {
        ValueView::Integer(x) => {
            assert(spec_u32_to_le_bytes(x as u32).len() == 4);
        },
        ValueView::Varchar(s) => {
            assert(spec_u16_to_le_bytes(fit16(var_before)).len() == 2);
            assert(spec_u16_to_le_bytes(fit16(encode_utf8(s).len())).len() == 2);
        },
        _ => {},
    }
}

proof fn lemma_first_pass_shape(cols: Seq<Column>, vals: Seq<ValueView>, j: nat)
    requires
        well_typed(cols, vals),
        j <= cols.len(),
    ensures
        fixed_first_pass(cols, vals, j).len() == cursor_at(cols, j),
        forall|i: nat|
            i < j ==> #[trigger] fixed_first_pass(cols, vals, j).subrange(
                cursor_at(cols, i) as int,
                (cursor_at(cols, i) + slot_width(cols[i as int].data_type)) as int,
            ) == fixed_chunk(cols[i as int].data_type, vals[i as int], var_offset(vals, i)),
    decreases j,
{
    if j > 0 {
        let m = (j - 1) as nat;
        lemma_first_pass_shape(cols, vals, m);
        lemma_chunk_len(cols, vals, m, var_offset(vals, m));
        let prev = fixed_first_pass(cols, vals, m);
        let cur = fixed_first_pass(cols, vals, j);
        assert forall|i: nat| i < j implies #[trigger] cur.subrange(
            cursor_at(cols, i) as int,
            (cursor_at(cols, i) + slot_width(cols[i as int].data_type)) as int,
        ) == fixed_chunk(cols[i as int].data_type, vals[i as int], var_offset(vals, i)) by {
            if i < m {
                lemma_cursor_mono(cols, i + 1, m);
                assert(cur.subrange(
                    cursor_at(cols, i) as int,
                    (cursor_at(cols, i) + slot_width(cols[i as int].data_type)) as int,
                ) =~= prev.subrange(
                    cursor_at(cols, i) as int,
                    (cursor_at(cols, i) + slot_width(cols[i as int].data_type)) as int,
                ));
            } else {
                assert(cur.subrange(
                    cursor_at(cols, i) as int,
                    (cursor_at(cols, i) + slot_width(cols[i as int].data_type)) as int,
                ) =~= fixed_chunk(cols[i as int].data_type, vals[i as int], var_offset(vals, i)));
            }
        }
    }
}

proof fn lemma_relocation(cols: Seq<Column>, vals: Seq<ValueView>, base: nat, j: nat)
    requires
        well_typed(cols, vals),
        j <= cols.len(),
        base + var_offset(vals, cols.len()) <= 0xffff,
    ensures
        relocation_ok(first_pass(cols, vals), cols, vals, base, j),
        relocated(first_pass(cols, vals), cols, vals, base, j).len() == first_pass(cols, vals).len(),
        forall|i: nat|
            i < cols.len() ==> #[trigger] relocated(first_pass(cols, vals), cols, vals, base, j).subrange(
                cursor_at(cols, i) as int,
                (cursor_at(cols, i) + slot_width(cols[i as int].data_type)) as int,
            ) == if i < j {
                final_chunk(cols, vals, base, i)
            } else {
                fixed_chunk(cols[i as int].data_type, vals[i as int], var_offset(vals, i))
            },
    decreases j,
{
    let n = cols.len();
    let f1 = first_pass(cols, vals);
    lemma_first_pass_shape(cols, vals, n);
    lemma_auto_spec_u16_to_from_le_bytes();
    if j == 0 {
        assert forall|i: nat| i < cols.len() implies #[trigger] relocated(f1, cols, vals, base, j).subrange(
            cursor_at(cols, i) as int,
            (cursor_at(cols, i) + slot_width(cols[i as int].data_type)) as int,
        ) == fixed_chunk(cols[i as int].data_type, vals[i as int], var_offset(vals, i)) by {
            assert(fixed_first_pass(cols, vals, n).subrange(
                cursor_at(cols, i) as int,
                (cursor_at(cols, i) + slot_width(cols[i as int].data_type)) as int,
            ) == fixed_chunk(cols[i as int].data_type, vals[i as int], var_offset(vals, i)));
        }
    } else {
        let m = (j - 1) as nat;
        lemma_relocation(cols, vals, base, m);
        let r = relocated(f1, cols, vals, base, m);
        let r2 = relocated(f1, cols, vals, base, j);
        let cm = cursor_at(cols, m);
        let wm = slot_width(cols[m as int].data_type);
        lemma_cursor_mono(cols, m + 1, n);
        assert(r.subrange(cm as int, (cm + wm) as int) == fixed_chunk(
            cols[m as int].data_type,
            vals[m as int],
            var_offset(vals, m),
        ));
        if relocates(cols, vals, m) {
            let s = vals[m as int]->Varchar_0;
            assert(vals[m as int] is Null || crate::value::value_type(vals[m as int]) == Some(cols[m as int].data_type));
            lemma_var_prefix(vals, m, n);
            let rel = var_offset(vals, m);
            let lo = spec_u16_to_le_bytes(fit16(rel));
            let hi = spec_u16_to_le_bytes(fit16(encode_utf8(s).len()));
            assert(lo.len() == 2 && hi.len() == 2);
            assert(r.subrange(cm as int, cm + 2int) =~= lo) by {
                assert(r.subrange(cm as int, cm + 2int) =~= r.subrange(cm as int, (cm + wm) as int).subrange(0, 2));
            }
            assert(r.subrange(cm + 2int, cm + 4int) =~= hi) by {
                assert(r.subrange(cm + 2int, cm + 4int) =~= r.subrange(cm as int, (cm + wm) as int).subrange(2, 4));
            }
            assert(read16(r, cm) == rel);
            assert(relocate_step_ok(r, cols, vals, base, m));
            let x = (rel + base % 0x10000) as u16;
            assert(r2 == write16(r, cm, x));
            assert forall|i: nat| i < cols.len() implies #[trigger] r2.subrange(
                cursor_at(cols, i) as int,
                (cursor_at(cols, i) + slot_width(cols[i as int].data_type)) as int,
            ) == if i < j {
                final_chunk(cols, vals, base, i)
            } else {
                fixed_chunk(cols[i as int].data_type, vals[i as int], var_offset(vals, i))
            } by {
                let ci = cursor_at(cols, i);
                let wi = slot_width(cols[i as int].data_type);
                if i == m {
                    assert(r2.subrange(ci as int, (ci + wi) as int) =~= spec_u16_to_le_bytes(x) + hi);
                } else {
                    if i < m {
                        lemma_cursor_mono(cols, i + 1, m);
                    } else {
                        lemma_cursor_mono(cols, m + 1, i);
                        lemma_cursor_mono(cols, i + 1, n);
                    }
                    assert(r2.subrange(ci as int, (ci + wi) as int) =~= r.subrange(ci as int, (ci + wi) as int));
                }
            }
        } else {
            assert(r2 == r);
        }
        assert forall|i: nat| i < j implies relocate_step_ok(
            #[trigger] relocated(f1, cols, vals, base, i),
            cols,
            vals,
            base,
            i,
        ) by {
            if i < m {
                assert(relocation_ok(f1, cols, vals, base, m));
            }
        }
    }
}

proof fn lemma_i32_round_trip(x: i32)
    ensures
        spec_u32_from_le_bytes(i32_le(x)) as i32 == x,
{
    lemma_auto_spec_u32_to_from_le_bytes();
    assert(spec_u32_to_le_bytes(x as u32).len() == 4);
    assert((x as u32) as i32 == x) by (bit_vector);
}

/// Length of the encoded tuple.
pub open spec fn encoded_len(cols: Seq<Column>, vals: Seq<ValueView>) -> nat {
    var_base(cols, vals) + var_offset(vals, cols.len())
}

proof fn lemma_decode_step(cols: Seq<Column>, vals: Seq<ValueView>, i: nat)
    requires
        well_typed(cols, vals),
        i < cols.len(),
        encoded_len(cols, vals) <= 0xffff,
    ensures
        decode_from(encode(cols, vals), cols, i, crate::schema::bitmap_len(cols.len()) + cursor_at(cols, i)) == prepend(
            vals[i as int],
            decode_from(encode(cols, vals), cols, i + 1, crate::schema::bitmap_len(cols.len()) + cursor_at(cols, i + 1)),
        ),
{
    let n = cols.len();
    let e = encode(cols, vals);
    let bm = crate::schema::bitmap_len(n);
    let f1 = first_pass(cols, vals);
    let base = var_base(cols, vals);
    let v = var_section(vals, n);
    let r = relocated(f1, cols, vals, base, n);
    lemma_first_pass_shape(cols, vals, n);
    lemma_relocation(cols, vals, base, n);
    lemma_cursor_mono(cols, i + 1, n);
    lemma_auto_spec_u16_to_from_le_bytes();
    let ci = cursor_at(cols, i);
    let wi = slot_width(cols[i as int].data_type);
    let cur = bm + ci;
    assert(e.subrange(cur as int, (cur + wi) as int) =~= r.subrange(ci as int, (ci + wi) as int));
    assert(r.subrange(ci as int, (ci + wi) as int) == final_chunk(cols, vals, base, i));
    let k = (i % 8) as u8;
    let jb = (i / 8) as int;
    assert(e[jb] == bitmap_byte(vals, jb));
    lemma_bits(
        null_bit(vals, 8 * jb),
        null_bit(vals, 8 * jb + 1),
        null_bit(vals, 8 * jb + 2),
        null_bit(vals, 8 * jb + 3),
        null_bit(vals, 8 * jb + 4),
        null_bit(vals, 8 * jb + 5),
        null_bit(vals, 8 * jb + 6),
        null_bit(vals, 8 * jb + 7),
        k,
    );
    assert(stored_null(e, i) == (vals[i as int] is Null));
    assert(vals[i as int] is Null || crate::value::value_type(vals[i as int]) == Some(cols[i as int].data_type));
    match vals[i as int] {
        ValueView::Null => {},
        ValueView::Integer(x) => {
            lemma_i32_round_trip(x);
        },
        ValueView::Boolean(b) => {
            assert(e[cur as int] == r.subrange(ci as int, (ci + wi) as int)[0]);
        },
        ValueView::Varchar(s) => {
            let rel = var_offset(vals, i);
            let bytes = encode_utf8(s);
            lemma_var_piece(vals, i, n);
            let lo = spec_u16_to_le_bytes((rel + base) as u16);
            let hi = spec_u16_to_le_bytes(fit16(bytes.len()));
            assert(e.subrange(cur as int, cur + 2int) =~= lo) by {
                assert(e.subrange(cur as int, cur + 2int) =~= e.subrange(cur as int, (cur + wi) as int).subrange(0, 2));
            }
            assert(e.subrange(cur + 2int, cur + 4int) =~= hi) by {
                assert(e.subrange(cur + 2int, cur + 4int) =~= e.subrange(cur as int, (cur + wi) as int).subrange(2, 4));
            }
            assert(read16(e, cur) == rel + base);
            assert(read16(e, cur + 2) == bytes.len());
            let off = rel + base;
            assert(e.subrange(off as int, (off + bytes.len()) as int) =~= v.subrange(
                rel as int,
                (rel + bytes.len()) as int,
            ));
            vstd::utf8::encode_utf8_valid_utf8(s);
            vstd::utf8::encode_utf8_decode_utf8(s);
        },
    }
}

proof fn lemma_decode_tail(cols: Seq<Column>, vals: Seq<ValueView>, i: nat)
    requires
        well_typed(cols, vals),
        i <= cols.len(),
        encoded_len(cols, vals) <= 0xffff,
    ensures
        decode_from(encode(cols, vals), cols, i, crate::schema::bitmap_len(cols.len()) + cursor_at(cols, i)) == Ok::<
            _,
            DecodeFault,
        >(vals.subrange(i as int, vals.len() as int)),
    decreases cols.len() - i,
{
    if i < cols.len() {
        lemma_decode_step(cols, vals, i);
        lemma_decode_tail(cols, vals, i + 1);
        let rest = vals.subrange(i + 1int, vals.len() as int);
        assert(vals.subrange(i as int, vals.len() as int) =~= seq![vals[i as int]] + rest);
    } else {
        assert(vals.subrange(i as int, vals.len() as int) =~= Seq::<ValueView>::empty());
    }
}

/// Decoding the encoding of well-typed values gives the values back, whenever the encoded
/// tuple is at most 65535 bytes long (the reach of the format's 16-bit offsets); such values
/// are always encodable.
pub proof fn lemma_tuple_round_trip(cols: Seq<Column>, vals: Seq<ValueView>)
    requires
        well_typed(cols, vals),
        encoded_len(cols, vals) <= 0xffff,
    ensures
        encodable(cols, vals),
        encode(cols, vals).len() == encoded_len(cols, vals),
        decode(encode(cols, vals), cols) == Ok::<_, DecodeFault>(vals),
{
    let n = cols.len();
    lemma_relocation(cols, vals, var_base(cols, vals), n);
    lemma_decode_tail(cols, vals, 0);
    assert(vals.subrange(0, vals.len() as int) =~= vals);
    lemma_first_pass_shape(cols, vals, n);
}

// ---------------------------------------------------------------------------
// Byte helpers
// ---------------------------------------------------------------------------

fn push_bytes(v: &mut Vec<u8>, s: &[u8])
    ensures
        final(v)@ == old(v)@ + s@,
{
    let mut i: usize = 0;
    while i < s.len()
        invariant
            i <= s@.len(),
            v@ == old(v)@ + s@.take(i as int),
        decreases s@.len() - i,
    {
        v.push(s[i]);
        i += 1;
    }
    assert(s@.take(i as int) =~= s@);
}

fn push_u16(v: &mut Vec<u8>, x: u16)
    ensures
        final(v)@ == old(v)@ + spec_u16_to_le_bytes(x),
{
    let b = u16_to_le_bytes(x);
    push_bytes(v, b.as_slice());
}

fn push_u32(v: &mut Vec<u8>, x: u32)
    ensures
        final(v)@ == old(v)@ + spec_u32_to_le_bytes(x),
{
    let b = u32_to_le_bytes(x);
    push_bytes(v, b.as_slice());
}

fn push_zeros(v: &mut Vec<u8>, n: usize)
    ensures
        final(v)@ == old(v)@ + zeros(n as nat),
{
    let mut i: usize = 0;
    while i < n
        invariant
            i <= n,
            v@ == old(v)@ + zeros(i as nat),
        decreases n - i,
    {
        v.push(0u8);
        i += 1;
        assert(v@ =~= old(v)@ + zeros(i as nat));
    }
}

/// Bit `k` of `byte_of_bits` is the `k`-th flag; setting bit `k` sets that flag.
proof fn lemma_bits(b0: bool, b1: bool, b2: bool, b3: bool, b4: bool, b5: bool, b6: bool, b7: bool, k: u8)
    requires
        k < 8,
    ensures
        (byte_of_bits(b0, b1, b2, b3, b4, b5, b6, b7) & (1u8 << k) != 0) == (
        (k == 0 && b0) || (k == 1 && b1) || (k == 2 && b2) || (k == 3 && b3) || (k == 4 && b4) || (
        k == 5 && b5) || (k == 6 && b6) || (k == 7 && b7)),
        byte_of_bits(b0, b1, b2, b3, b4, b5, b6, b7) | (1u8 << k) == byte_of_bits(
            b0 || k == 0,
            b1 || k == 1,
            b2 || k == 2,
            b3 || k == 3,
            b4 || k == 4,
            b5 || k == 5,
            b6 || k == 6,
            b7 || k == 7,
        ),
{
    assert((byte_of_bits(b0, b1, b2, b3, b4, b5, b6, b7) & (1u8 << k) != 0) == (
    (k == 0 && b0) || (k == 1 && b1) || (k == 2 && b2) || (k == 3 && b3) || (k == 4 && b4) || (
    k == 5 && b5) || (k == 6 && b6) || (k == 7 && b7))) by (bit_vector)
        requires
            k < 8,
    ;
    assert(byte_of_bits(b0, b1, b2, b3, b4, b5, b6, b7) | (1u8 << k) == byte_of_bits(
        b0 || k == 0,
        b1 || k == 1,
        b2 || k == 2,
        b3 || k == 3,
        b4 || k == 4,
        b5 || k == 5,
        b6 || k == 6,
        b7 || k == 7,
    )) by (bit_vector)
        requires
            k < 8,
    ;
}

proof fn lemma_bitmap_set(vals: Seq<ValueView>, i: int, nbytes: nat)
    requires
        0 <= i < vals.len(),
        vals[i] is Null,
        i / 8 < nbytes,
    ensures
        null_bitmap(vals.take(i + 1), nbytes) == null_bitmap(vals.take(i), nbytes).update(
            i / 8,
            null_bitmap(vals.take(i), nbytes)[i / 8] | (1u8 << ((i % 8) as u8)),
        ),
{
    let a = vals.take(i);
    let b = vals.take(i + 1);
    let j = i / 8;
    let k = (i % 8) as u8;
    assert forall|m: int| #![trigger null_bit(b, m)] null_bit(b, m) == (null_bit(a, m) || m == i) by {}
    lemma_bits(
        null_bit(a, 8 * j),
        null_bit(a, 8 * j + 1),
        null_bit(a, 8 * j + 2),
        null_bit(a, 8 * j + 3),
        null_bit(a, 8 * j + 4),
        null_bit(a, 8 * j + 5),
        null_bit(a, 8 * j + 6),
        null_bit(a, 8 * j + 7),
        k,
    );
    assert forall|jj: int| 0 <= jj < nbytes && jj != j implies bitmap_byte(b, jj) == bitmap_byte(a, jj) by {
        assert(null_bit(b, 8 * jj) == null_bit(a, 8 * jj));
        assert(null_bit(b, 8 * jj + 1) == null_bit(a, 8 * jj + 1));
        assert(null_bit(b, 8 * jj + 2) == null_bit(a, 8 * jj + 2));
        assert(null_bit(b, 8 * jj + 3) == null_bit(a, 8 * jj + 3));
        assert(null_bit(b, 8 * jj + 4) == null_bit(a, 8 * jj + 4));
        assert(null_bit(b, 8 * jj + 5) == null_bit(a, 8 * jj + 5));
        assert(null_bit(b, 8 * jj + 6) == null_bit(a, 8 * jj + 6));
        assert(null_bit(b, 8 * jj + 7) == null_bit(a, 8 * jj + 7));
    }
    assert(null_bit(b, 8 * j) == (null_bit(a, 8 * j) || k == 0));
    assert(null_bit(b, 8 * j + 1) == (null_bit(a, 8 * j + 1) || k == 1));
    assert(null_bit(b, 8 * j + 2) == (null_bit(a, 8 * j + 2) || k == 2));
    assert(null_bit(b, 8 * j + 3) == (null_bit(a, 8 * j + 3) || k == 3));
    assert(null_bit(b, 8 * j + 4) == (null_bit(a, 8 * j + 4) || k == 4));
    assert(null_bit(b, 8 * j + 5) == (null_bit(a, 8 * j + 5) || k == 5));
    assert(null_bit(b, 8 * j + 6) == (null_bit(a, 8 * j + 6) || k == 6));
    assert(null_bit(b, 8 * j + 7) == (null_bit(a, 8 * j + 7) || k == 7));
    assert(null_bitmap(b, nbytes) =~= null_bitmap(a, nbytes).update(j, null_bitmap(a, nbytes)[j] | (1u8 << k)));
}

proof fn lemma_bitmap_keep(vals: Seq<ValueView>, i: int, nbytes: nat)
    requires
        0 <= i < vals.len(),
        !(vals[i] is Null),
    ensures
        null_bitmap(vals.take(i + 1), nbytes) == null_bitmap(vals.take(i), nbytes),
{
    let a = vals.take(i);
    let b = vals.take(i + 1);
    assert forall|m: int| #![trigger null_bit(b, m)] null_bit(b, m) == null_bit(a, m) by {}
    assert forall|jj: int| 0 <= jj < nbytes implies bitmap_byte(b, jj) == bitmap_byte(a, jj) by {
        assert(null_bit(b, 8 * jj) == null_bit(a, 8 * jj));
        assert(null_bit(b, 8 * jj + 1) == null_bit(a, 8 * jj + 1));
        assert(null_bit(b, 8 * jj + 2) == null_bit(a, 8 * jj + 2));
        assert(null_bit(b, 8 * jj + 3) == null_bit(a, 8 * jj + 3));
        assert(null_bit(b, 8 * jj + 4) == null_bit(a, 8 * jj + 4));
        assert(null_bit(b, 8 * jj + 5) == null_bit(a, 8 * jj + 5));
        assert(null_bit(b, 8 * jj + 6) == null_bit(a, 8 * jj + 6));
        assert(null_bit(b, 8 * jj + 7) == null_bit(a, 8 * jj + 7));
    }
    assert(null_bitmap(b, nbytes) =~= null_bitmap(a, nbytes));
}

proof fn lemma_violation_stable(cols: Seq<Column>, vals: Seq<ValueView>, m: nat, n: nat)
    requires
        m <= n,
        first_violation(cols, vals, m) is Some,
    ensures
        first_violation(cols, vals, n) == first_violation(cols, vals, m),
    decreases n - m,
{
    if m < n {
        lemma_violation_stable(cols, vals, m, (n - 1) as nat);
    }
}

proof fn lemma_relocated_len(fixed: Seq<u8>, cols: Seq<Column>, vals: Seq<ValueView>, base: nat, n: nat)
    requires
        relocation_ok(fixed, cols, vals, base, n),
    ensures
        relocated(fixed, cols, vals, base, n).len() == fixed.len(),
    decreases n,
{
    if n > 0 {
        let m = (n - 1) as nat;
        assert(relocation_ok(fixed, cols, vals, base, m));
        lemma_relocated_len(fixed, cols, vals, base, m);
        assert(relocate_step_ok(relocated(fixed, cols, vals, base, m), cols, vals, base, m));
        lemma_auto_spec_u16_to_from_le_bytes();
        let prev = relocated(fixed, cols, vals, base, m);
        let c = cursor_at(cols, m);
        assert(spec_u16_to_le_bytes((read16(prev, c) + base % 0x10000) as u16).len() == 2);
    }
}


/// `std::str::from_utf8`: the slice as text when it is well-formed UTF-8.
#[verifier::external_body]
fn utf8_text(bytes: &[u8]) -> (r: Option<&str>)
    ensures
        r is Some <==> valid_utf8(bytes@),
        r matches Some(s) ==> s@ == decode_utf8(bytes@),
{
    std::str::from_utf8(bytes).ok()
}

fn fault_string(f: Ghost<DecodeFault>, text: &str) -> (r: TupleError)
    requires
        text@ == fault_message(f@),
    ensures
        r matches TupleError::DeserializationError(m) && m@ == fault_message(f@),
{
    TupleError::DeserializationError(String::from_str(text))
}

/// The 16-bit field at position `c` of a vector.
fn load16(v: &Vec<u8>, c: usize) -> (r: u16)
    requires
        c + 2 <= v.len(),
    ensures
        r == read16(v@, c as nat),
{
    u16_from_le_bytes(&v.as_slice()[c..c + 2])
}

/// Overwrites the 16-bit field at position `c` of a vector.
fn store16(v: &mut Vec<u8>, c: usize, x: u16)
    requires
        c + 2 <= old(v).len(),
    ensures
        final(v)@ == write16(old(v)@, c as nat, x),
{
    let b = u16_to_le_bytes(x);
    v.set(c, b[0]);
    v.set(c + 1, b[1]);
    assert(v@ =~= write16(old(v)@, c as nat, x));
}

fn width_of(dt: DataType) -> (r: usize)
    ensures
        r == slot_width(dt),
{
    match dt {
        DataType::Integer => 4,
        DataType::Boolean => 1,
        DataType::Varchar => 4,
    }
}

/// What serializing gives: the encoding when the counts match and every value matches its
/// column (NULL only where allowed, otherwise of the column's type); otherwise the first of
/// those faults.
pub open spec fn encode_outcome(cols: Seq<Column>, vals: Seq<ValueView>, r: Result<Tuple, TupleError>) -> bool {
    match r {
        Ok(t) => {
            &&& cols.len() == vals.len()
            &&& first_violation(cols, vals, cols.len()) is None
            &&& t.data@ == encode(cols, vals)
        },
        Err(TupleError::ColumnCountMismatch { schema_count, value_count }) => {
            &&& cols.len() != vals.len()
            &&& schema_count == cols.len()
            &&& value_count == vals.len()
        },
        Err(TupleError::NullNotAllowed { column_name }) => {
            &&& cols.len() == vals.len()
            &&& first_violation(cols, vals, cols.len()) matches Some(k)
            &&& vals[k] is Null
            &&& column_name@ == cols[k].name@
        },
        Err(TupleError::TypeMismatch { column_name }) => {
            &&& cols.len() == vals.len()
            &&& first_violation(cols, vals, cols.len()) matches Some(k)
            &&& !(vals[k] is Null)
            &&& column_name@ == cols[k].name@
        },
        Err(TupleError::DeserializationError(_)) => false,
    }
}

/// Values the encoding handles: typed as their columns, and short enough for 16-bit offsets.
pub open spec fn fits_encoding(cols: Seq<Column>, vals: Seq<ValueView>) -> bool {
    well_typed(cols, vals) && encoded_len(cols, vals) <= 0xffff
}

/// Whether a value matches its column: NULL only where allowed, otherwise of its type.
fn value_matches(v: &Value, col: &Column) -> (r: bool)
    ensures
        r == if v@ is Null {
            col.is_nullable
        } else {
            crate::value::value_type(v@) == Some(col.data_type)
        },
{
    match v {
        Value::Null => col.is_nullable,
        Value::Integer(_) => match col.data_type {
            DataType::Integer => true,
            _ => false,
        },
        Value::Boolean(_) => match col.data_type {
            DataType::Boolean => true,
            _ => false,
        },
        Value::Varchar(_) => match col.data_type {
            DataType::Varchar => true,
            _ => false,
        },
    }
}

fn no_violation(schema: &Schema, values: &[Value]) -> (r: bool)
    requires
        schema.columns@.len() == values@.len(),
    ensures
        r == (first_violation(schema.columns@, crate::value::values_view(values@), schema.columns@.len()) is None),
{
    let ghost cols = schema.columns@;
    let ghost vals = crate::value::values_view(values@);
    let n = values.len();
    let mut i: usize = 0;
    while i < n
        invariant
            n == cols.len(),
            n == vals.len(),
            cols == schema.columns@,
            vals == crate::value::values_view(values@),
            i <= n,
            first_violation(cols, vals, i as nat) is None,
        decreases n - i,
    {
        assert(vals[i as int] == values@[i as int]@);
        if !value_matches(&values[i], &schema.columns[i]) {
            proof {
                assert(first_violation(cols, vals, (i + 1) as nat) == Some(i as int));
                lemma_violation_stable(cols, vals, (i + 1) as nat, n as nat);
            }
            return false;
        }
        i += 1;
    }
    true
}

proof fn lemma_var_section_step(vals: Seq<ValueView>, i: nat)
    ensures
        var_section(vals, i + 1).len() == var_section(vals, i).len() + var_bytes(vals[i as int]).len(),
{
}

/// Whether the values are typed as their columns and encode within 65535 bytes.
fn fits(schema: &Schema, values: &[Value]) -> (r: bool)
    requires
        schema.columns@.len() == values@.len(),
    ensures
        r == fits_encoding(schema.columns@, crate::value::values_view(values@)),
{
    let ghost cols = schema.columns@;
    let ghost vals = crate::value::values_view(values@);
    let n = values.len();
    let mut i: usize = 0;
    while i < n
        invariant
            n == cols.len(),
            n == vals.len(),
            cols == schema.columns@,
            vals == crate::value::values_view(values@),
            i <= n,
            forall|k: int| 0 <= k < i ==> (#[trigger] vals[k] is Null || crate::value::value_type(vals[k]) == Some(cols[k].data_type)),
        decreases n - i,
    {
        assert(vals[i as int] == values@[i as int]@);
        let ok = match values[i].data_type() {
            None => true,
            Some(dt) => dt == schema.columns[i].data_type,
        };
        if !ok {
            return false;
        }
        i += 1;
    }
    assert(well_typed(cols, vals));
    let b = schema.bitmap_size();
    if b > 0xffff {
        proof {
            lemma_first_pass_shape(cols, vals, n as nat);
        }
        return false;
    }
    let mut total: u64 = b as u64;
    let mut j: usize = 0;
    while j < n
        invariant
            n == cols.len(),
            n == vals.len(),
            cols == schema.columns@,
            vals == crate::value::values_view(values@),
            well_typed(cols, vals),
            j <= n,
            b == crate::schema::bitmap_len(n as nat),
            total == b + cursor_at(cols, j as nat) + var_section(vals, j as nat).len(),
            total <= 0xffff,
        decreases n - j,
    {
        assert(vals[j as int] == values@[j as int]@);
        let w = width_of(schema.columns[j].data_type) as u64;
        let v: u64 = match &values[j] {
            Value::Varchar(s) => {
                let bytes = s.as_str().as_bytes();
                if bytes.len() > 0xffff {
                    proof {
                        lemma_var_section_step(vals, j as nat);
                        lemma_var_prefix(vals, (j + 1) as nat, n as nat);
                        lemma_first_pass_shape(cols, vals, n as nat);
                    }
                    return false;
                }
                bytes.len() as u64
            },
            _ => 0,
        };
        proof {
            lemma_var_section_step(vals, j as nat);
        }
        total = total + w + v;
        if total > 0xffff {
            proof {
                lemma_var_prefix(vals, (j + 1) as nat, n as nat);
                lemma_cursor_mono(cols, (j + 1) as nat, n as nat);
                lemma_first_pass_shape(cols, vals, n as nat);
            }
            return false;
        }
        j += 1;
    }
    proof {
        lemma_first_pass_shape(cols, vals, n as nat);
    }
    true
}

impl Tuple {
    /// Serializes values when the encoding handles them: `None` for values of the right count,
    /// without a forbidden NULL, that are not typed as their columns or would need more than
    /// 65535 bytes; otherwise what `from_values` gives.
    pub fn try_from_values(schema: &Schema, values: &[Value]) -> (r: Option<Result<Self, TupleError>>)
        ensures
            match r {
                Some(x) => encode_outcome(schema.columns@, crate::value::values_view(values@), x),
                None => true,
            },
            r is None <==> {
                &&& schema.columns@.len() == values@.len()
                &&& first_violation(schema.columns@, crate::value::values_view(values@), schema.columns@.len()) is None
                &&& !fits_encoding(schema.columns@, crate::value::values_view(values@))
            },
    {
        let n = schema.column_count();
        if n == values.len() && no_violation(schema, values) {
            if !fits(schema, values) {
                return None;
            }
            proof {
                lemma_tuple_round_trip(schema.columns@, crate::value::values_view(values@));
            }
        }
        Some(Self::from_values(schema, values))
    }
}

impl Tuple {
    /// Serializes values into a binary tuple according to the schema.
    ///
    /// Layout: `[null bitmap][fixed-length data and varchar offset/length][varchar bytes]`.
    pub fn from_values(schema: &Schema, values: &[Value]) -> (r: Result<Self, TupleError>)
        requires
            schema.columns@.len() == values@.len() && first_violation(
                schema.columns@,
                crate::value::values_view(values@),
                schema.columns@.len(),
            ) is None ==> encodable(schema.columns@, crate::value::values_view(values@)),
        ensures
            encode_outcome(schema.columns@, crate::value::values_view(values@), r),
    {
        let ghost cols = schema.columns@;
        let ghost vals = crate::value::values_view(values@);
        let n = schema.column_count();
        if n != values.len() {
            return Err(TupleError::ColumnCountMismatch { schema_count: n, value_count: values.len() });
        }
        let bitmap_size = schema.bitmap_size();
        let mut bitmap: Vec<u8> = Vec::new();
        push_zeros(&mut bitmap, bitmap_size);
        assert(bitmap@ =~= null_bitmap(vals.take(0), bitmap_size as nat)) by {
            assert forall|j: int| 0 <= j < bitmap_size implies bitmap_byte(vals.take(0), j) == 0u8 by {
                assert(byte_of_bits(false, false, false, false, false, false, false, false) == 0u8) by (bit_vector);
            }
        }
        let mut fixed_section: Vec<u8> = Vec::new();
        let mut var_sec: Vec<u8> = Vec::new();
        let mut i: usize = 0;
        while i < n
            invariant
                n == cols.len(),
                n == vals.len(),
                cols == schema.columns@,
                vals == crate::value::values_view(values@),
                values@.len() == n,
                i <= n,
                bitmap_size == crate::schema::bitmap_len(n as nat),
                bitmap@ == null_bitmap(vals.take(i as int), bitmap_size as nat),
                fixed_section@ == fixed_first_pass(cols, vals, i as nat),
                var_sec@ == var_section(vals, i as nat),
                first_violation(cols, vals, i as nat) is None,
            decreases n - i,
        {
            let col = &schema.columns[i];
            assert(vals[i as int] == values@[i as int]@);
            let is_null = match &values[i] {
                Value::Null => true,
                _ => false,
            };
            if !is_null && !value_matches(&values[i], col) {
                proof {
                    assert(first_violation(cols, vals, (i + 1) as nat) == Some(i as int));
                    lemma_violation_stable(cols, vals, (i + 1) as nat, n as nat);
                }
                return Err(TupleError::TypeMismatch { column_name: col.name.clone() });
            }
            match &values[i] {
                Value::Null => {
                    if !col.is_nullable {
                        proof {
                            lemma_violation_stable(cols, vals, (i + 1) as nat, n as nat);
                        }
                        return Err(TupleError::NullNotAllowed { column_name: col.name.clone() });
                    }
                    let byte_idx = i / 8;
                    let bit_idx = (i % 8) as u8;
                    proof {
                        lemma_bitmap_set(vals, i as int, bitmap_size as nat);
                    }
                    let old_byte = bitmap[byte_idx];
                    bitmap.set(byte_idx, old_byte | (1u8 << bit_idx));
                    push_zeros(&mut fixed_section, width_of(col.data_type));
                },
                Value::Integer(v) => {
                    proof {
                        lemma_bitmap_keep(vals, i as int, bitmap_size as nat);
                    }
                    push_u32(&mut fixed_section, #[verifier::truncate] (*v as u32));
                },
                Value::Boolean(v) => {
                    proof {
                        lemma_bitmap_keep(vals, i as int, bitmap_size as nat);
                    }
                    let byte: u8 = if *v { 1 } else { 0 };
                    fixed_section.push(byte);
                },
                Value::Varchar(s) => {
                    proof {
                        lemma_bitmap_keep(vals, i as int, bitmap_size as nat);
                    }
                    let bytes = s.as_str().as_bytes();
                    let offset: u16 = if var_sec.len() <= 0xffff { var_sec.len() as u16 } else { 0 };
                    let length: u16 = if bytes.len() <= 0xffff { bytes.len() as u16 } else { 0 };
                    push_u16(&mut fixed_section, offset);
                    push_u16(&mut fixed_section, length);
                    push_bytes(&mut var_sec, bytes);
                },
            }
            assert(bitmap@ =~= null_bitmap(vals.take(i + 1), bitmap_size as nat));
            assert(fixed_section@ =~= fixed_first_pass(cols, vals, (i + 1) as nat));
            assert(var_sec@ =~= var_section(vals, (i + 1) as nat));
            i += 1;
        }
        assert(vals.take(n as int) =~= vals);
        let ghost fixed1 = fixed_section@;
        let ghost base: nat = var_base(cols, vals);
        let base16: u16 = ((bitmap.len() % 0x10000 + fixed_section.len() % 0x10000) % 0x10000) as u16;
        assert(base16 == base % 0x10000) by {
            vstd::arithmetic::div_mod::lemma_add_mod_noop(
                bitmap.len() as int,
                fixed_section.len() as int,
                0x10000,
            );
        }
        let mut j: usize = 0;
        let mut cursor: usize = 0;
        while j < n
            invariant
                n == cols.len(),
                n == vals.len(),
                cols == schema.columns@,
                vals == crate::value::values_view(values@),
                values@.len() == n,
                j <= n,
                fixed1 == first_pass(cols, vals),
                base == var_base(cols, vals),
                base16 == base % 0x10000,
                relocation_ok(fixed1, cols, vals, base, n as nat),
                fixed_section@ == relocated(fixed1, cols, vals, base, j as nat),
                cursor == if cursor_at(cols, j as nat) < usize::MAX {
                    cursor_at(cols, j as nat)
                } else {
                    usize::MAX as nat
                },
            decreases n - j,
        {
            let dt = schema.columns[j].data_type;
            let is_null = match &values[j] {
                Value::Null => true,
                _ => false,
            };
            assert(vals[j as int] == values@[j as int]@);
            proof {
                assert(relocate_step_ok(relocated(fixed1, cols, vals, base, j as nat), cols, vals, base, j as nat));
                assert(relocation_ok(fixed1, cols, vals, base, j as nat));
                lemma_relocated_len(fixed1, cols, vals, base, j as nat);
            }
            if !is_null && dt == DataType::Varchar {
                assert(relocates(cols, vals, j as nat));
                assert(cursor_at(cols, j as nat) + 2 <= fixed_section@.len());
                assert(fixed_section@.len() == fixed_section.len());
                assert(cursor_at(cols, j as nat) < usize::MAX);
                assert(cursor == cursor_at(cols, j as nat));
                let rel = load16(&fixed_section, cursor);
                assert(rel + base16 <= 0xffff);
                let abs = rel + base16;
                store16(&mut fixed_section, cursor, abs);
            }
            let w = width_of(dt);
            cursor = if cursor <= usize::MAX - w { cursor + w } else { usize::MAX };
            j += 1;
        }
        let mut data = bitmap;
        data.append(&mut fixed_section);
        data.append(&mut var_sec);
        Ok(Tuple { data })
    }

    /// Deserializes a binary tuple back into values using the schema.
    pub fn to_values(&self, schema: &Schema) -> (r: Result<Vec<Value>, TupleError>)
        ensures
            match r {
                Ok(vs) => decode(self.data@, schema.columns@) == Ok::<_, DecodeFault>(crate::value::values_view(vs@)),
                Err(TupleError::DeserializationError(m)) => decode(self.data@, schema.columns@) matches Err(f)
                    && m@ == fault_message(f),
                Err(_) => false,
            },
    {
        let ghost cols = schema.columns@;
        let ghost data = self.data@;
        let n = schema.column_count();
        let bitmap_size = schema.bitmap_size();
        let len = self.data.len();
        if len < bitmap_size {
            proof { reveal_strlit("Data too short for bitmap"); }
            return Err(fault_string(Ghost(DecodeFault::ShortBitmap), "Data too short for bitmap"));
        }
        let mut values: Vec<Value> = Vec::new();
        let mut cursor: usize = bitmap_size;
        let ghost mut true_cursor: nat = bitmap_size as nat;
        let mut i: usize = 0;
        while i < n
            invariant
                n == cols.len(),
                cols == schema.columns@,
                data == self.data@,
                len == data.len(),
                bitmap_size == crate::schema::bitmap_len(n as nat),
                bitmap_size <= len,
                i <= n,
                cursor == if true_cursor < usize::MAX { true_cursor } else { usize::MAX as nat },
                decode(data, cols) == ({
                    let pre = crate::value::values_view(values@);
                    match decode_from(data, cols, i as nat, true_cursor) {
                        Ok(rest) => Ok::<_, DecodeFault>(pre + rest),
                        Err(f) => Err(f),
                    }
                }),
            decreases n - i,
        {
            let ghost pre = crate::value::values_view(values@);
            assert((i / 8) < bitmap_size);
            let byte = self.data[i / 8];
            let is_null = byte & (1u8 << ((i % 8) as u8)) != 0;
            let dt = schema.columns[i].data_type;
            let ghost tc = true_cursor;
            if is_null {
                values.push(Value::Null);
                let w: usize = width_of(dt);
                cursor = if cursor <= usize::MAX - w { cursor + w } else { usize::MAX };
                proof { true_cursor = true_cursor + slot_width(dt); }
            } else {
                match dt {
                    DataType::Integer => {
                        if len < 4 || cursor > len - 4 {
                            proof { reveal_strlit("Out of bounds integer"); }
                            return Err(fault_string(Ghost(DecodeFault::IntegerBounds), "Out of bounds integer"));
                        }
                        let raw = u32_from_le_bytes(&self.data.as_slice()[cursor..cursor + 4]);
                        values.push(Value::Integer(#[verifier::truncate] (raw as i32)));
                        cursor = cursor + 4;
                        proof { true_cursor = true_cursor + 4; }
                    },
                    DataType::Boolean => {
                        if len < 1 || cursor > len - 1 {
                            proof { reveal_strlit("Out of bounds boolean"); }
                            return Err(fault_string(Ghost(DecodeFault::BooleanBounds), "Out of bounds boolean"));
                        }
                        let b = self.data[cursor];
                        values.push(Value::Boolean(b != 0));
                        cursor = cursor + 1;
                        proof { true_cursor = true_cursor + 1; }
                    },
                    DataType::Varchar => {
                        if len < 4 || cursor > len - 4 {
                            proof { reveal_strlit("Out of bounds varchar pointer"); }
                            return Err(fault_string(Ghost(DecodeFault::PointerBounds), "Out of bounds varchar pointer"));
                        }
                        let offset = load16(&self.data, cursor) as usize;
                        let length = load16(&self.data, cursor + 2) as usize;
                        if offset + length > len {
                            proof { reveal_strlit("Out of bounds varchar payload"); }
                            return Err(fault_string(Ghost(DecodeFault::PayloadBounds), "Out of bounds varchar payload"));
                        }
                        let text = utf8_text(&self.data.as_slice()[offset..offset + length]);
                        match text {
                            Some(t) => {
                                values.push(Value::Varchar(String::from_str(t)));
                            },
                            None => {
                                proof { reveal_strlit("Invalid UTF-8"); }
                                return Err(fault_string(Ghost(DecodeFault::InvalidUtf8), "Invalid UTF-8"));
                            },
                        }
                        cursor = cursor + 4;
                        proof { true_cursor = true_cursor + 4; }
                    },
                }
            }
            proof {
                assert(stored_null(data, i as nat) == is_null);
                let v = values@.last()@;
                assert(crate::value::values_view(values@) =~= pre.push(v));
                assert(decode_from(data, cols, i as nat, tc) == prepend(
                    v,
                    decode_from(data, cols, (i + 1) as nat, true_cursor),
                ));
                match decode_from(data, cols, (i + 1) as nat, true_cursor) {
                    Ok(rest) => {
                        assert(pre + (seq![v] + rest) =~= pre.push(v) + rest);
                    },
                    Err(_) => {},
                }
            }
            i += 1;
        }
        Ok(values)
    }
}

} // verus!
