//! Fundamental identifier types and their little-endian byte encodings.
use vstd::bytes::*;
use vstd::prelude::*;

verus! {

broadcast use vstd::array::group_array_axioms;

/// Encodes a `u32` as four little-endian bytes.
fn encode_u32(x: u32) -> (r: [u8; 4])
    ensures
        r@ == spec_u32_to_le_bytes(x),
{
    let v = u32_to_le_bytes(x);
    let r = [v[0], v[1], v[2], v[3]];
    assert(r@ =~= v@);
    r
}

/// Decodes four little-endian bytes into a `u32`.
fn decode_u32(b: [u8; 4]) -> (r: u32)
    ensures
        r == spec_u32_from_le_bytes(b@),
{
    u32_from_le_bytes(b.as_slice())
}

/// Encodes a `u16` as two little-endian bytes.
fn encode_u16(x: u16) -> (r: [u8; 2])
    ensures
        r@ == spec_u16_to_le_bytes(x),
{
    let v = u16_to_le_bytes(x);
    let r = [v[0], v[1]];
    assert(r@ =~= v@);
    r
}

/// Decodes two little-endian bytes into a `u16`.
fn decode_u16(b: [u8; 2]) -> (r: u16)
    ensures
        r == spec_u16_from_le_bytes(b@),
{
    u16_from_le_bytes(b.as_slice())
}

/// Encodes a `u64` as eight little-endian bytes.
fn encode_u64(x: u64) -> (r: [u8; 8])
    ensures
        r@ == spec_u64_to_le_bytes(x),
{
    let v = u64_to_le_bytes(x);
    let r = [v[0], v[1], v[2], v[3], v[4], v[5], v[6], v[7]];
    assert(r@ =~= v@);
    r
}

/// Decodes eight little-endian bytes into a `u64`.
fn decode_u64(b: [u8; 8]) -> (r: u64)
    ensures
        r == spec_u64_from_le_bytes(b@),
{
    u64_from_le_bytes(b.as_slice())
}

/// Unique identifier for a page in the storage system.
#[derive(Debug, Clone, Copy, PartialEq, Eq, PartialOrd, Ord, Hash)]
pub struct PageId(pub u32);

impl PageId {
    pub fn to_le_bytes(self) -> (r: [u8; 4])
        ensures
            r@ == spec_u32_to_le_bytes(self.0),
    {
        encode_u32(self.0)
    }

    pub fn from_le_bytes(bytes: [u8; 4]) -> (r: Self)
        ensures
            r.0 == spec_u32_from_le_bytes(bytes@),
    {
        PageId(decode_u32(bytes))
    }
}

/// Unique identifier for a frame in the buffer pool.
#[derive(Debug, Clone, Copy, PartialEq, Eq, PartialOrd, Ord, Hash)]
pub struct FrameId(pub u32);

impl FrameId {
    pub fn to_le_bytes(self) -> (r: [u8; 4])
        ensures
            r@ == spec_u32_to_le_bytes(self.0),
    {
        encode_u32(self.0)
    }

    pub fn from_le_bytes(bytes: [u8; 4]) -> (r: Self)
        ensures
            r.0 == spec_u32_from_le_bytes(bytes@),
    {
        FrameId(decode_u32(bytes))
    }
}

/// Unique identifier for a slot within a page.
#[derive(Debug, Clone, Copy, PartialEq, Eq, PartialOrd, Ord, Hash)]
pub struct SlotId(pub u16);

impl SlotId {
    pub fn to_le_bytes(self) -> (r: [u8; 2])
        ensures
            r@ == spec_u16_to_le_bytes(self.0),
    {
        encode_u16(self.0)
    }

    pub fn from_le_bytes(bytes: [u8; 2]) -> (r: Self)
        ensures
            r.0 == spec_u16_from_le_bytes(bytes@),
    {
        SlotId(decode_u16(bytes))
    }
}

/// Unique identifier for a transaction.
#[derive(Debug, Clone, Copy, PartialEq, Eq, PartialOrd, Ord, Hash)]
pub struct TransactionId(pub u64);

impl TransactionId {
    pub fn to_le_bytes(self) -> (r: [u8; 8])
        ensures
            r@ == spec_u64_to_le_bytes(self.0),
    {
        encode_u64(self.0)
    }

    pub fn from_le_bytes(bytes: [u8; 8]) -> (r: Self)
        ensures
            r.0 == spec_u64_from_le_bytes(bytes@),
    {
        TransactionId(decode_u64(bytes))
    }
}

/// Log Sequence Number, used for recovery and logging.
#[derive(Debug, Clone, Copy, PartialEq, Eq, PartialOrd, Ord, Hash)]
pub struct Lsn(pub u64);

impl Lsn {
    pub fn to_le_bytes(self) -> (r: [u8; 8])
        ensures
            r@ == spec_u64_to_le_bytes(self.0),
    {
        encode_u64(self.0)
    }

    pub fn from_le_bytes(bytes: [u8; 8]) -> (r: Self)
        ensures
            r.0 == spec_u64_from_le_bytes(bytes@),
    {
        Lsn(decode_u64(bytes))
    }
}

/// Record Identifier, uniquely identifies a record's physical location.
#[derive(Debug, Clone, Copy, PartialEq, Eq, PartialOrd, Ord, Hash)]
pub struct Rid {
    pub page_id: PageId,
    pub slot_id: SlotId,
}

/// Buffer Tag, identifies a page within the buffer pool.
#[derive(Debug, Clone, Copy, PartialEq, Eq, PartialOrd, Ord, Hash)]
pub struct BufferTag {
    pub table_id: u32,
    pub page_id: PageId,
}

/// Index of a segment in the architecture.
#[derive(Debug, Clone, Copy, PartialEq, Eq, PartialOrd, Ord, Hash)]
pub struct SegmentIndex(pub u32);

impl SegmentIndex {
    pub fn to_le_bytes(self) -> (r: [u8; 4])
        ensures
            r@ == spec_u32_to_le_bytes(self.0),
    {
        encode_u32(self.0)
    }

    pub fn from_le_bytes(bytes: [u8; 4]) -> (r: Self)
        ensures
            r.0 == spec_u32_from_le_bytes(bytes@),
    {
        SegmentIndex(decode_u32(bytes))
    }
}

/// Local page identifier within a segment.
#[derive(Debug, Clone, Copy, PartialEq, Eq, PartialOrd, Ord, Hash)]
pub struct LocalPageId(pub u32);

impl LocalPageId {
    pub fn to_le_bytes(self) -> (r: [u8; 4])
        ensures
            r@ == spec_u32_to_le_bytes(self.0),
    {
        encode_u32(self.0)
    }

    pub fn from_le_bytes(bytes: [u8; 4]) -> (r: Self)
        ensures
            r.0 == spec_u32_from_le_bytes(bytes@),
    {
        LocalPageId(decode_u32(bytes))
    }
}

/// Decoding the little-endian encoding of a 32-bit identifier gives the identifier back,
/// and every four-byte sequence is the encoding of the value it decodes to.
pub proof fn lemma_le_bytes_round_trip_u32(x: u32, b: Seq<u8>)
    requires
        b.len() == 4,
    ensures
        spec_u32_from_le_bytes(spec_u32_to_le_bytes(x)) == x,
        spec_u32_to_le_bytes(spec_u32_from_le_bytes(b)) == b,
{
    lemma_auto_spec_u32_to_from_le_bytes();
    assert(spec_u32_to_le_bytes(x).len() > 0);
}

/// The same two round-trip facts for 16-bit identifiers.
pub proof fn lemma_le_bytes_round_trip_u16(x: u16, b: Seq<u8>)
    requires
        b.len() == 2,
    ensures
        spec_u16_from_le_bytes(spec_u16_to_le_bytes(x)) == x,
        spec_u16_to_le_bytes(spec_u16_from_le_bytes(b)) == b,
{
    lemma_auto_spec_u16_to_from_le_bytes();
    assert(spec_u16_to_le_bytes(x).len() > 0);
}

/// The same two round-trip facts for 64-bit identifiers.
pub proof fn lemma_le_bytes_round_trip_u64(x: u64, b: Seq<u8>)
    requires
        b.len() == 8,
    ensures
        spec_u64_from_le_bytes(spec_u64_to_le_bytes(x)) == x,
        spec_u64_to_le_bytes(spec_u64_from_le_bytes(b)) == b,
{
    lemma_auto_spec_u64_to_from_le_bytes();
    assert(spec_u64_to_le_bytes(x).len() > 0);
}

} // verus!
