//! Slotted pages: a header, a slot directory growing upward, and records growing downward.
use vstd::bytes::*;
use vstd::prelude::*;

verus! {

broadcast use vstd::seq_lib::group_seq_properties;

/// The metadata at the beginning of every slotted page (16 bytes, little-endian).
#[derive(Debug, Clone, Copy)]
pub struct SlottedPageHeader {
    /// The log sequence number associated with the latest change to this page.
    pub log_sequence_number: u64,
    /// The total number of slots present in the slot directory.
    pub total_slots: u16,
    /// The offset where the slot directory currently ends.
    pub free_space_lower: u16,
    /// The offset where the tuple data currently begins.
    pub free_space_upper: u16,
    /// Flags indicating page state.
    pub page_flags: u16,
}

/// The metadata prefixed to every record (16 bytes, little-endian).
#[derive(Debug, Clone, Copy)]
pub struct TupleHeader {
    /// The transaction that inserted this record.
    pub xmin: u64,
    /// The transaction that deleted this record, or 0 while it is live.
    pub xmax: u64,
}

/// One entry of the slot directory (4 bytes, little-endian).
#[derive(Debug, Clone, Copy)]
pub struct PageSlot {
    /// The byte offset within the page where the record starts.
    pub offset: u16,
    /// The length of the record's data in bytes, without its header.
    pub length: u16,
}

/// Size of the page header in bytes.
pub const PAGE_HEADER_SIZE: usize = 16;

/// Size of a record header in bytes.
pub const TUPLE_HEADER_SIZE: usize = 16;

/// Size of a slot directory entry in bytes.
pub const SLOT_SIZE: usize = 4;

/// The transaction id that marks a record as not deleted.
pub const INVALID_TXN_ID: u64 = 0;

// ---------------------------------------------------------------------------
// The page as a byte sequence
// ---------------------------------------------------------------------------

pub open spec fn u16_at(d: Seq<u8>, o: int) -> u16 {
    spec_u16_from_le_bytes(d.subrange(o, o + 2))
}

pub open spec fn u64_at(d: Seq<u8>, o: int) -> u64 {
    spec_u64_from_le_bytes(d.subrange(o, o + 8))
}

/// The header stored in the first 16 bytes.
pub open spec fn header_of(d: Seq<u8>) -> SlottedPageHeader {
    SlottedPageHeader {
        log_sequence_number: u64_at(d, 0),
        total_slots: u16_at(d, 8),
        free_space_lower: u16_at(d, 10),
        free_space_upper: u16_at(d, 12),
        page_flags: u16_at(d, 14),
    }
}

/// Position of slot entry `i`.
pub open spec fn slot_pos(i: int) -> int {
    16 + 4 * i
}

/// Slot entry `i` as stored.
pub open spec fn slot_of(d: Seq<u8>, i: int) -> PageSlot {
    PageSlot { offset: u16_at(d, slot_pos(i)), length: u16_at(d, slot_pos(i) + 2) }
}

/// The end of the bytes a slot's record occupies: its header, then its data.
pub open spec fn slot_end(s: PageSlot) -> int {
    s.offset + 16 + s.length
}

/// The record header stored at `o`.
pub open spec fn tuple_header_at(d: Seq<u8>, o: int) -> TupleHeader {
    TupleHeader { xmin: u64_at(d, o), xmax: u64_at(d, o + 8) }
}

/// What `get_record` reads from slot `i`: nothing when the slot does not exist, is free (its
/// offset is 0: no record starts inside the header), or points outside the page; otherwise the record header and the payload that follows it.
pub open spec fn record_of(d: Seq<u8>, page_size: nat, i: int) -> Option<(TupleHeader, Seq<u8>)> {
    let h = header_of(d);
    if i < 0 || i >= h.total_slots || slot_pos(i) + 4 > page_size {
        None
    } else {
        let s = slot_of(d, i);
        let start = s.offset as int;
        let end = slot_end(s);
        if s.offset == 0 || end > page_size {
            None
        } else {
            Some((tuple_header_at(d, start), d.subrange(start + 16, end)))
        }
    }
}

/// A well-formed page: the slot directory ends at `free_space_lower`, records start at
/// `free_space_upper`, and every slot's record (its header and data) lies between
/// `free_space_upper` and the end of the page, apart from every other slot's record.
pub open spec fn page_wf(d: Seq<u8>, page_size: nat) -> bool {
    let h = header_of(d);
    &&& d.len() == page_size
    &&& 16 <= page_size <= 0xffff
    &&& h.free_space_lower == slot_pos(h.total_slots as int)
    &&& h.free_space_lower <= h.free_space_upper <= page_size
    &&& forall|i: int|
        0 <= i < h.total_slots ==> {
            let s = #[trigger] slot_of(d, i);
            &&& h.free_space_upper <= s.offset
            &&& slot_end(s) <= page_size
        }
    &&& forall|i: int, j: int|
        0 <= i < h.total_slots && 0 <= j < h.total_slots && i != j ==> {
            let a = #[trigger] slot_of(d, i);
            let b = #[trigger] slot_of(d, j);
            slot_end(a) <= b.offset || slot_end(b) <= a.offset
        }
}

/// Free bytes between the slot directory and the records.
pub open spec fn free_space(d: Seq<u8>) -> int {
    header_of(d).free_space_upper - header_of(d).free_space_lower
}

// ---------------------------------------------------------------------------
// Byte-level reads and writes
// ---------------------------------------------------------------------------

/// `new` equals `old` except on `[o, o + w)`, where it holds `b`.
pub open spec fn written(old: Seq<u8>, new: Seq<u8>, o: int, b: Seq<u8>) -> bool {
    &&& new.len() == old.len()
    &&& 0 <= o
    &&& o + b.len() <= old.len()
    &&& new.subrange(o, o + b.len()) == b
    &&& forall|k: int| 0 <= k < old.len() && !(o <= k < o + b.len()) ==> new[k] == old[k]
}

pub(crate) fn read_u16(d: &Vec<u8>, o: usize) -> (r: u16)
    requires
        o + 2 <= d.len(),
    ensures
        r == u16_at(d@, o as int),
{
    u16_from_le_bytes(&d.as_slice()[o..o + 2])
}

pub(crate) fn read_u64(d: &Vec<u8>, o: usize) -> (r: u64)
    requires
        o + 8 <= d.len(),
    ensures
        r == u64_at(d@, o as int),
{
    u64_from_le_bytes(&d.as_slice()[o..o + 8])
}

pub(crate) fn write_bytes(d: &mut Vec<u8>, o: usize, b: &[u8])
    requires
        o + b@.len() <= old(d).len(),
    ensures
        written(old(d)@, final(d)@, o as int, b@),
{
    let mut i: usize = 0;
    while i < b.len()
        invariant
            o + b@.len() <= d@.len(),
            d@.len() == d.len(),
            d@.len() == old(d)@.len(),
            i <= b@.len(),
            forall|k: int| 0 <= k < i ==> d@[o + k] == b@[k],
            forall|k: int| 0 <= k < d@.len() && !(o <= k < o + i) ==> d@[k] == old(d)@[k],
        decreases b@.len() - i,
    {
        d.set(o + i, b[i]);
        i += 1;
    }
    assert(d@.subrange(o as int, o + b@.len()) =~= b@);
}

pub(crate) fn write_u16(d: &mut Vec<u8>, o: usize, x: u16)
    requires
        o + 2 <= old(d).len(),
    ensures
        written(old(d)@, final(d)@, o as int, spec_u16_to_le_bytes(x)),
        u16_at(final(d)@, o as int) == x,
{
    let b = u16_to_le_bytes(x);
    write_bytes(d, o, b.as_slice());
    proof {
        lemma_auto_spec_u16_to_from_le_bytes();
    }
}

pub(crate) fn write_u64(d: &mut Vec<u8>, o: usize, x: u64)
    requires
        o + 8 <= old(d).len(),
    ensures
        written(old(d)@, final(d)@, o as int, spec_u64_to_le_bytes(x)),
        u64_at(final(d)@, o as int) == x,
{
    let b = u64_to_le_bytes(x);
    write_bytes(d, o, b.as_slice());
    proof {
        lemma_auto_spec_u64_to_from_le_bytes();
    }
}

/// Reads of a field are unchanged when its bytes are unchanged.
pub(crate) proof fn lemma_same_bytes(a: Seq<u8>, b: Seq<u8>, o: int, w: int)
    requires
        0 <= o,
        0 <= w,
        o + w <= a.len(),
        a.len() == b.len(),
        forall|k: int| o <= k < o + w ==> a[k] == b[k],
    ensures
        a.subrange(o, o + w) == b.subrange(o, o + w),
{
    assert(a.subrange(o, o + w) =~= b.subrange(o, o + w));
}

/// Bytes of `a` and `b` agree on `[lo, hi)`.
pub open spec fn agree(a: Seq<u8>, b: Seq<u8>, lo: int, hi: int) -> bool {
    forall|k: int| lo <= k < hi ==> #[trigger] a[k] == #[trigger] b[k]
}

proof fn lemma_header_same(a: Seq<u8>, b: Seq<u8>)
    requires
        a.len() >= 16,
        a.len() == b.len(),
        agree(a, b, 0, 16),
    ensures
        header_of(a) == header_of(b),
{
    lemma_same_bytes(a, b, 0, 8);
    lemma_same_bytes(a, b, 8, 2);
    lemma_same_bytes(a, b, 10, 2);
    lemma_same_bytes(a, b, 12, 2);
    lemma_same_bytes(a, b, 14, 2);
}

proof fn lemma_slot_same(a: Seq<u8>, b: Seq<u8>, i: int)
    requires
        0 <= i,
        slot_pos(i) + 4 <= a.len(),
        a.len() == b.len(),
        agree(a, b, slot_pos(i), slot_pos(i) + 4),
    ensures
        slot_of(a, i) == slot_of(b, i),
{
    lemma_same_bytes(a, b, slot_pos(i), 2);
    lemma_same_bytes(a, b, slot_pos(i) + 2, 2);
}

/// A record whose slot entry and bytes are unchanged reads the same.
proof fn lemma_record_same(a: Seq<u8>, b: Seq<u8>, p: nat, i: int)
    requires
        page_wf(a, p),
        b.len() == a.len(),
        0 <= i < header_of(a).total_slots,
        i < header_of(b).total_slots,
        agree(a, b, slot_pos(i), slot_pos(i) + 4),
        agree(a, b, slot_of(a, i).offset as int, slot_end(slot_of(a, i))),
    ensures
        record_of(b, p, i) == record_of(a, p, i),
{
    let h = header_of(a);
    assert(slot_pos(i) + 4 <= h.free_space_lower);
    lemma_slot_same(a, b, i);
    let s = slot_of(a, i);
    let start = s.offset as int;
    lemma_same_bytes(a, b, start, 8);
    lemma_same_bytes(a, b, start + 8, 8);
    assert(a.subrange(start + 16, slot_end(s)) =~= b.subrange(start + 16, slot_end(s)));
}

proof fn lemma_header_same_except_lsn(a: Seq<u8>, b: Seq<u8>)
    requires
        a.len() >= 16,
        a.len() == b.len(),
        agree(a, b, 8, 16),
    ensures
        header_of(a).total_slots == header_of(b).total_slots,
        header_of(a).free_space_lower == header_of(b).free_space_lower,
        header_of(a).free_space_upper == header_of(b).free_space_upper,
        header_of(a).page_flags == header_of(b).page_flags,
{
    lemma_same_bytes(a, b, 8, 2);
    lemma_same_bytes(a, b, 10, 2);
    lemma_same_bytes(a, b, 12, 2);
    lemma_same_bytes(a, b, 14, 2);
}


/// The effect of placing a record of `tl` bytes (header included) at `o = upper - tl` and
/// appending its slot entry, which records the data's length.
proof fn lemma_insert_effect(a: Seq<u8>, b: Seq<u8>, p: nat, tl: int, payload: Seq<u8>, xmin: u64)
    requires
        page_wf(a, p),
        b.len() == a.len(),
        tl == 16 + payload.len(),
        free_space(a) >= tl + 4,
        ({
            let ha = header_of(a);
            let o = ha.free_space_upper - tl;
            &&& header_of(b) == (SlottedPageHeader {
                log_sequence_number: ha.log_sequence_number,
                total_slots: (ha.total_slots + 1) as u16,
                free_space_lower: (ha.free_space_lower + 4) as u16,
                free_space_upper: o as u16,
                page_flags: ha.page_flags,
            })
            &&& agree(a, b, 16, ha.free_space_lower as int)
            &&& agree(a, b, ha.free_space_upper as int, p as int)
            &&& slot_of(b, ha.total_slots as int) == (PageSlot { offset: o as u16, length: payload.len() as u16 })
            &&& tuple_header_at(b, o) == (TupleHeader { xmin, xmax: 0 })
            &&& b.subrange(o + 16, o + tl) == payload
        }),
    ensures
        page_wf(b, p),
        record_of(b, p, header_of(a).total_slots as int) == Some((TupleHeader { xmin, xmax: 0 }, payload)),
        forall|j: int| j != header_of(a).total_slots ==> #[trigger] record_of(b, p, j) == record_of(a, p, j),
{
    let ha = header_of(a);
    let hb = header_of(b);
    let n = ha.total_slots as int;
    let o = ha.free_space_upper - tl;
    assert forall|i: int| 0 <= i < n implies #[trigger] slot_of(b, i) == slot_of(a, i) by {
        lemma_slot_same(a, b, i);
    }
    assert forall|j: int| j != n implies #[trigger] record_of(b, p, j) == record_of(a, p, j) by {
        if 0 <= j < n {
            let s = slot_of(a, j);
            assert(ha.free_space_upper <= s.offset);
            lemma_record_same(a, b, p, j);
        }
    }
    assert forall|i: int| 0 <= i < hb.total_slots implies {
        let s = #[trigger] slot_of(b, i);
        &&& hb.free_space_upper <= s.offset
        &&& slot_end(s) <= p
    } by {
        if i < n {
            assert(slot_of(a, i) == slot_of(b, i));
        }
    }
    assert forall|i: int, j: int|
        0 <= i < hb.total_slots && 0 <= j < hb.total_slots && i != j implies {
        let x = #[trigger] slot_of(b, i);
        let y = #[trigger] slot_of(b, j);
        slot_end(x) <= y.offset || slot_end(y) <= x.offset
    } by {
        if i < n {
            assert(slot_of(a, i) == slot_of(b, i));
        }
        if j < n {
            assert(slot_of(a, j) == slot_of(b, j));
        }
    }
}

fn write_header(d: &mut Vec<u8>, h: SlottedPageHeader)
    requires
        16 <= old(d).len(),
    ensures
        final(d)@.len() == old(d)@.len(),
        header_of(final(d)@) == h,
        agree(old(d)@, final(d)@, 16, old(d)@.len() as int),
{
    let ghost d0 = d@;
    write_u64(d, 0, h.log_sequence_number);
    let ghost d1 = d@;
    write_u16(d, 8, h.total_slots);
    let ghost d2 = d@;
    write_u16(d, 10, h.free_space_lower);
    let ghost d3 = d@;
    write_u16(d, 12, h.free_space_upper);
    let ghost d4 = d@;
    write_u16(d, 14, h.page_flags);
    proof {
        lemma_auto_spec_u16_to_from_le_bytes();
        lemma_auto_spec_u64_to_from_le_bytes();
        assert(spec_u16_to_le_bytes(0).len() == 2);
        assert(spec_u64_to_le_bytes(0).len() == 8);
        lemma_same_bytes(d1, d@, 0, 8);
        lemma_same_bytes(d2, d@, 8, 2);
        lemma_same_bytes(d3, d@, 10, 2);
        lemma_same_bytes(d4, d@, 12, 2);
    }
}

/// Represents a page formatted with the slotted architecture for variable-length records.
pub struct SlottedPage<const PAGE_SIZE: usize> {
    /// The raw bytes of the page.
    pub data: Vec<u8>,
}

impl<const PAGE_SIZE: usize> SlottedPage<PAGE_SIZE> {
    /// The page is well formed.
    pub open spec fn wf(&self) -> bool {
        page_wf(self.data@, PAGE_SIZE as nat)
    }

    /// The header as stored.
    pub open spec fn header_view(&self) -> SlottedPageHeader {
        header_of(self.data@)
    }

    /// What slot `i` holds.
    pub open spec fn record_view(&self, i: int) -> Option<(TupleHeader, Seq<u8>)> {
        record_of(self.data@, PAGE_SIZE as nat, i)
    }

    /// Whether the page is well formed: its header, slot directory and record bounds are
    /// consistent.
    pub fn check_wf(&self) -> (r: bool)
        ensures
            r == self.wf(),
    {
        let d = &self.data;
        if d.len() != PAGE_SIZE || PAGE_SIZE < 16 || PAGE_SIZE > 0xffff {
            return false;
        }
        let total = read_u16(d, 8) as usize;
        let lower = read_u16(d, 10) as usize;
        let upper = read_u16(d, 12) as usize;
        if lower != 16 + 4 * total || lower > upper || upper > PAGE_SIZE {
            return false;
        }
        let ghost h = header_of(d@);
        let mut i: usize = 0;
        while i < total
            invariant
                d@ == self.data@,
                d@.len() == PAGE_SIZE,
                16 <= PAGE_SIZE <= 0xffff,
                h == header_of(d@),
                total == h.total_slots,
                upper == h.free_space_upper,
                16 + 4 * total <= PAGE_SIZE,
                i <= total,
                forall|k: int| 0 <= k < i ==> {
                    let s = #[trigger] slot_of(d@, k);
                    &&& h.free_space_upper <= s.offset
                    &&& slot_end(s) <= PAGE_SIZE
                },
            decreases total - i,
        {
            let off = read_u16(d, 16 + 4 * i) as usize;
            let len = read_u16(d, 16 + 4 * i + 2) as usize;
            if off < upper || off + 16 + len > PAGE_SIZE {
                proof {
                    let sl = slot_of(self.data@, i as int);
                    assert(sl.offset == off && sl.length == len);
                    assert(0 <= i < header_of(self.data@).total_slots);
                    assert(!page_wf(self.data@, PAGE_SIZE as nat));
                }
                return false;
            }
            i += 1;
        }
        let mut a: usize = 0;
        while a < total
            invariant
                d@ == self.data@,
                d@.len() == PAGE_SIZE,
                16 <= PAGE_SIZE <= 0xffff,
                h == header_of(d@),
                total == h.total_slots,
                16 + 4 * total <= PAGE_SIZE,
                a <= total,
                forall|x: int, y: int|
                    0 <= x < a && 0 <= y < total && x != y ==> {
                        let p = #[trigger] slot_of(d@, x);
                        let q = #[trigger] slot_of(d@, y);
                        slot_end(p) <= q.offset || slot_end(q) <= p.offset
                    },
            decreases total - a,
        {
            let ao = read_u16(d, 16 + 4 * a) as usize;
            let al = read_u16(d, 16 + 4 * a + 2) as usize;
            let mut b: usize = 0;
            while b < total
                invariant
                    d@ == self.data@,
                    d@.len() == PAGE_SIZE,
                    16 <= PAGE_SIZE <= 0xffff,
                    h == header_of(d@),
                    total == h.total_slots,
                    16 + 4 * total <= PAGE_SIZE,
                    a < total,
                    b <= total,
                    ao == slot_of(d@, a as int).offset,
                    al == slot_of(d@, a as int).length,
                    forall|x: int, y: int|
                        0 <= x < a && 0 <= y < total && x != y ==> {
                            let p = #[trigger] slot_of(d@, x);
                            let q = #[trigger] slot_of(d@, y);
                            slot_end(p) <= q.offset || slot_end(q) <= p.offset
                        },
                    forall|y: int|
                        0 <= y < b && y != a ==> {
                            let q = #[trigger] slot_of(d@, y);
                            ao + 16 + al <= q.offset || slot_end(q) <= ao
                        },
                decreases total - b,
            {
                if b != a {
                    let bo = read_u16(d, 16 + 4 * b) as usize;
                    let bl = read_u16(d, 16 + 4 * b + 2) as usize;
                    if !(ao + 16 + al <= bo || bo + 16 + bl <= ao) {
                        proof {
                            let p = slot_of(self.data@, a as int);
                            let q = slot_of(self.data@, b as int);
                            assert(q.offset == bo && q.length == bl);
                            assert(p.offset == ao && p.length == al);
                            assert(0 <= a < header_of(self.data@).total_slots);
                            assert(0 <= b < header_of(self.data@).total_slots);
                            assert(!page_wf(self.data@, PAGE_SIZE as nat));
                        }
                        return false;
                    }
                }
                b += 1;
            }
            a += 1;
        }
        true
    }

    /// Creates a new, zeroed, and initialized page.
    pub fn new() -> (r: Self)
        requires
            16 <= PAGE_SIZE <= 0xffff,
        ensures
            r.wf(),
            r.header_view() == (SlottedPageHeader {
                log_sequence_number: 0,
                total_slots: 0,
                free_space_lower: 16,
                free_space_upper: PAGE_SIZE as u16,
                page_flags: 0,
            }),
            forall|i: int| #[trigger] r.record_view(i) is None,
            r.data@.len() == PAGE_SIZE,
            forall|k: int| 16 <= k < PAGE_SIZE ==> #[trigger] r.data@[k] == 0u8,
    {
        let mut data: Vec<u8> = Vec::new();
        let mut i: usize = 0;
        while i < PAGE_SIZE
            invariant
                i <= PAGE_SIZE,
                data@.len() == i,
                forall|k: int| 0 <= k < i ==> #[trigger] data@[k] == 0u8,
            decreases PAGE_SIZE - i,
        {
            data.push(0u8);
            i += 1;
        }
        let ghost zeros = data@;
        let mut page = SlottedPage { data };
        page.init();
        assert forall|k: int| 16 <= k < PAGE_SIZE implies #[trigger] page.data@[k] == 0u8 by {
            assert(zeros[k] == page.data@[k]);
        }
        page
    }

    /// Writes a fresh header: no slots, free space spanning the whole page after the header.
    pub fn init(&mut self)
        requires
            old(self).data@.len() == PAGE_SIZE,
            16 <= PAGE_SIZE <= 0xffff,
        ensures
            final(self).wf(),
            final(self).header_view() == (SlottedPageHeader {
                log_sequence_number: 0,
                total_slots: 0,
                free_space_lower: 16,
                free_space_upper: PAGE_SIZE as u16,
                page_flags: 0,
            }),
            forall|i: int| #[trigger] final(self).record_view(i) is None,
            agree(old(self).data@, final(self).data@, 16, PAGE_SIZE as int),
    {
        let h = SlottedPageHeader {
            log_sequence_number: 0,
            total_slots: 0,
            free_space_lower: 16,
            free_space_upper: PAGE_SIZE as u16,
            page_flags: 0,
        };
        write_header(&mut self.data, h);
    }

    /// The log sequence number stored in the header.
    pub fn get_lsn(&self) -> (r: u64)
        requires
            self.data@.len() >= 16,
        ensures
            r == self.header_view().log_sequence_number,
    {
        read_u64(&self.data, 0)
    }

    /// Replaces the log sequence number; nothing else on the page changes.
    pub fn set_lsn(&mut self, lsn: u64)
        requires
            old(self).data@.len() >= 16,
        ensures
            final(self).header_view() == (SlottedPageHeader {
                log_sequence_number: lsn,
                ..old(self).header_view()
            }),
            final(self).data@.len() == old(self).data@.len(),
            agree(old(self).data@, final(self).data@, 8, old(self).data@.len() as int),
            old(self).wf() ==> final(self).wf(),
            old(self).wf() ==> forall|i: int| #[trigger] final(self).record_view(i) == old(self).record_view(i),
    {
        let ghost d0 = self.data@;
        write_u64(&mut self.data, 0, lsn);
        proof {
            lemma_auto_spec_u64_to_from_le_bytes();
            assert(spec_u64_to_le_bytes(lsn).len() == 8);
            let d1 = self.data@;
            lemma_same_bytes(d0, d1, 8, 2);
            lemma_same_bytes(d0, d1, 10, 2);
            lemma_same_bytes(d0, d1, 12, 2);
            lemma_same_bytes(d0, d1, 14, 2);
            if page_wf(d0, PAGE_SIZE as nat) {
                lemma_header_same_except_lsn(d0, d1);
                assert forall|i: int| #[trigger] record_of(d1, PAGE_SIZE as nat, i) == record_of(d0, PAGE_SIZE as nat, i) by {
                    if 0 <= i < header_of(d0).total_slots {
                        lemma_record_same(d0, d1, PAGE_SIZE as nat, i);
                    }
                }
                assert forall|i: int| 0 <= i < header_of(d1).total_slots implies #[trigger] slot_of(d1, i) == slot_of(d0, i) by {
                    lemma_slot_same(d0, d1, i);
                }
            }
        }
    }

    /// The header as stored.
    pub fn header(&self) -> (r: SlottedPageHeader)
        requires
            self.data@.len() >= 16,
        ensures
            r == self.header_view(),
    {
        SlottedPageHeader {
            log_sequence_number: read_u64(&self.data, 0),
            total_slots: read_u16(&self.data, 8),
            free_space_lower: read_u16(&self.data, 10),
            free_space_upper: read_u16(&self.data, 12),
            page_flags: read_u16(&self.data, 14),
        }
    }

    /// Replaces the header; the rest of the page is unchanged.
    pub fn set_header(&mut self, h: SlottedPageHeader)
        requires
            old(self).data@.len() >= 16,
        ensures
            final(self).header_view() == h,
            final(self).data@.len() == old(self).data@.len(),
            agree(old(self).data@, final(self).data@, 16, old(self).data@.len() as int),
    {
        write_header(&mut self.data, h);
    }

    /// The slot directory.
    pub fn slots(&self) -> (r: Vec<PageSlot>)
        requires
            self.wf(),
        ensures
            r@.len() == self.header_view().total_slots,
            forall|i: int| 0 <= i < r@.len() ==> #[trigger] r@[i] == slot_of(self.data@, i),
    {
        let total = read_u16(&self.data, 8) as usize;
        let mut r: Vec<PageSlot> = Vec::new();
        let mut i: usize = 0;
        while i < total
            invariant
                self.wf(),
                total == self.header_view().total_slots,
                i <= total,
                r@.len() == i,
                forall|k: int| 0 <= k < i ==> #[trigger] r@[k] == slot_of(self.data@, k),
            decreases total - i,
        {
            let pos = 16 + 4 * i;
            r.push(PageSlot { offset: read_u16(&self.data, pos), length: read_u16(&self.data, pos + 2) });
            i += 1;
        }
        r
    }


    /// Inserts a record when the free space holds it, its header, and a slot entry.
    /// The record gets the next slot index; every other slot reads as before.
    pub fn insert_record(&mut self, record: &[u8], xmin: u64) -> (r: Option<usize>)
        requires
            old(self).wf(),
        ensures
            final(self).wf(),
            r is Some <==> free_space(old(self).data@) >= TUPLE_HEADER_SIZE + record@.len() + SLOT_SIZE,
            r is None ==> final(self).data@ == old(self).data@,
            r matches Some(i) ==> {
                let h = old(self).header_view();
                &&& i == h.total_slots
                &&& final(self).header_view() == (SlottedPageHeader {
                    log_sequence_number: h.log_sequence_number,
                    total_slots: (h.total_slots + 1) as u16,
                    free_space_lower: (h.free_space_lower + SLOT_SIZE) as u16,
                    free_space_upper: (h.free_space_upper - (TUPLE_HEADER_SIZE + record@.len())) as u16,
                    page_flags: h.page_flags,
                })
                &&& slot_of(final(self).data@, i as int) == (PageSlot {
                    offset: (h.free_space_upper - (TUPLE_HEADER_SIZE + record@.len())) as u16,
                    length: record@.len() as u16,
                })
                &&& final(self).record_view(i as int) == Some((TupleHeader { xmin, xmax: INVALID_TXN_ID }, record@))
            },
            forall|j: int|
                j != old(self).header_view().total_slots ==> #[trigger] final(self).record_view(j)
                    == old(self).record_view(j),
    {
        let h = self.header();
        let free = (h.free_space_upper - h.free_space_lower) as usize;
        if record.len() > free || free - record.len() < TUPLE_HEADER_SIZE + SLOT_SIZE {
            return None;
        }
        let ghost a = self.data@;
        let total_len = TUPLE_HEADER_SIZE + record.len();
        let slot_idx = h.total_slots as usize;
        let new_offset = h.free_space_upper as usize - total_len;
        write_u64(&mut self.data, new_offset, xmin);
        let ghost d1 = self.data@;
        write_u64(&mut self.data, new_offset + 8, INVALID_TXN_ID);
        let ghost d2 = self.data@;
        write_bytes(&mut self.data, new_offset + TUPLE_HEADER_SIZE, record);
        let ghost d3 = self.data@;
        let lower = h.free_space_lower as usize;
        write_u16(&mut self.data, lower, new_offset as u16);
        let ghost d4 = self.data@;
        write_u16(&mut self.data, lower + 2, record.len() as u16);
        let ghost d5 = self.data@;
        let nh = SlottedPageHeader {
            log_sequence_number: h.log_sequence_number,
            total_slots: h.total_slots + 1,
            free_space_lower: h.free_space_lower + SLOT_SIZE as u16,
            free_space_upper: new_offset as u16,
            page_flags: h.page_flags,
        };
        write_header(&mut self.data, nh);
        proof {
            let b = self.data@;
            let o = new_offset as int;
            lemma_auto_spec_u16_to_from_le_bytes();
            lemma_auto_spec_u64_to_from_le_bytes();
            assert(spec_u64_to_le_bytes(0).len() == 8);
            assert(spec_u16_to_le_bytes(0).len() == 2);
            lemma_same_bytes(d1, b, o, 8);
            lemma_same_bytes(d2, b, o + 8, 8);
            lemma_same_bytes(d3, b, o + 16, record@.len() as int);
            lemma_same_bytes(d4, b, lower as int, 2);
            lemma_same_bytes(d5, b, lower + 2, 2);
            assert(b.subrange(o + 16, o + total_len) == record@);
            lemma_insert_effect(a, b, PAGE_SIZE as nat, total_len as int, record@, xmin);
        }
        Some(slot_idx)
    }

    /// Marks the record in a slot as deleted by transaction `xmax`; its payload and `xmin`
    /// are kept, and every other slot reads as before.
    pub fn mark_deleted(&mut self, slot_idx: usize, xmax: u64) -> (r: bool)
        requires
            old(self).wf(),
        ensures
            final(self).wf(),
            r == (slot_idx < old(self).header_view().total_slots && slot_of(old(self).data@, slot_idx as int).offset != 0),
            final(self).header_view() == old(self).header_view(),
            !r ==> final(self).data@ == old(self).data@,
            r ==> written(
                old(self).data@,
                final(self).data@,
                slot_of(old(self).data@, slot_idx as int).offset + 8,
                spec_u64_to_le_bytes(xmax),
            ),
            r ==> (old(self).record_view(slot_idx as int) matches Some((th, payload)) && final(self).record_view(slot_idx as int) == Some((TupleHeader { xmin: th.xmin, xmax }, payload))),
            forall|j: int| j != slot_idx ==> #[trigger] final(self).record_view(j) == old(self).record_view(j),
    {
        let total = read_u16(&self.data, 8) as usize;
        if slot_idx >= total {
            return false;
        }
        let pos = 16 + 4 * slot_idx;
        let offset = read_u16(&self.data, pos) as usize;
        if offset == 0 {
            return false;
        }
        let ghost a = self.data@;
        proof {
            assert(slot_end(slot_of(a, slot_idx as int)) <= PAGE_SIZE);
        }
        write_u64(&mut self.data, offset + 8, xmax);
        proof {
            let b = self.data@;
            let n = header_of(a).total_slots as int;
            let i = slot_idx as int;
            let o = offset as int;
            lemma_auto_spec_u64_to_from_le_bytes();
            assert(spec_u64_to_le_bytes(0).len() == 8);
            assert(slot_pos(n) <= header_of(a).free_space_upper);
            lemma_header_same(a, b);
            assert forall|k: int| 0 <= k < n implies #[trigger] slot_of(b, k) == slot_of(a, k) by {
                lemma_slot_same(a, b, k);
            }
            assert forall|j: int| j != i implies #[trigger] record_of(b, PAGE_SIZE as nat, j) == record_of(
                a,
                PAGE_SIZE as nat,
                j,
            ) by {
                if 0 <= j < n {
                    assert(slot_of(a, i) == slot_of(a, i));
                    assert(slot_of(a, j) == slot_of(a, j));
                    lemma_record_same(a, b, PAGE_SIZE as nat, j);
                }
            }
            lemma_same_bytes(a, b, o, 8);
            let s = slot_of(a, i);
            assert(a.subrange(o + 16, slot_end(s)) =~= b.subrange(o + 16, slot_end(s)));
        }
        true
    }

    /// The record header and payload held by a slot, if the slot holds a record.
    pub fn get_record(&self, slot_idx: usize) -> (r: Option<(TupleHeader, &[u8])>)
        requires
            self.data@.len() == PAGE_SIZE,
            PAGE_SIZE >= 16,
        ensures
            match r {
                Some((h, b)) => self.record_view(slot_idx as int) == Some((h, b@)),
                None => self.record_view(slot_idx as int) is None,
            },
    {
        let total = read_u16(&self.data, 8) as usize;
        if slot_idx >= total || 16 + 4 * slot_idx + 4 > PAGE_SIZE {
            return None;
        }
        let pos = 16 + 4 * slot_idx;
        let offset = read_u16(&self.data, pos) as usize;
        let length = read_u16(&self.data, pos + 2) as usize;
        if offset == 0 {
            return None;
        }
        let start = offset;
        let header_end = start + 16;
        let end = header_end + length;
        if end > PAGE_SIZE {
            return None;
        }
        let th = TupleHeader { xmin: read_u64(&self.data, start), xmax: read_u64(&self.data, start + 8) };
        Some((th, &self.data.as_slice()[header_end..end]))
    }
}

} // verus!
