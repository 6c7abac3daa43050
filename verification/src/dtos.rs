//! Views of the buffer pool, heap pages and index pages for the web visualizer, and the
//! decoding of raw pages into them.
use crate::btree_node::{
    child_at, key_at, node_header_of, read_node_header, spec_invalid_page_id, value_at, BTreePageHeader,
    NodeType,
};
use crate::page::{header_of, record_of, slot_of, SlottedPage, PAGE_HEADER_SIZE};
use crate::storage::PageId;
use crate::text::string_of;
use vstd::prelude::*;

verus! {

broadcast use {vstd::seq_lib::group_seq_properties, vstd::seq_lib::group_to_multiset_ensures};

/// A page id.
#[derive(Debug, Clone, Copy, PartialEq, Eq)]
pub struct PageIdDto {
    pub file_id: u32,
    pub page_num: u32,
}

/// One buffer pool frame.
#[derive(Debug, Clone, Copy, PartialEq, Eq)]
pub struct FrameDto {
    pub frame_id: usize,
    pub page_id: Option<PageIdDto>,
    pub pin_count: usize,
    pub is_dirty: bool,
}

/// The header of a slotted page.
#[derive(Debug, Clone, Copy, PartialEq, Eq)]
pub struct PageHeaderDto {
    pub lsn: u64,
    pub total_slots: u16,
    pub free_space_lower: u16,
    pub free_space_upper: u16,
    pub page_flags: u16,
}

/// One slot of a slotted page.
#[derive(Debug, Clone, Copy, PartialEq, Eq)]
pub struct SlotDto {
    pub slot_idx: usize,
    pub offset: u16,
    pub length: u16,
}

/// One record of a slotted page, its payload in hexadecimal.
#[derive(Debug, Clone, PartialEq, Eq)]
pub struct RecordDto {
    pub slot_idx: usize,
    pub xmin: u64,
    pub xmax: u64,
    pub data_hex: String,
}

/// A slotted heap page.
#[derive(Debug, Clone, PartialEq, Eq)]
pub struct PageDto {
    pub header: PageHeaderDto,
    pub slots: Vec<SlotDto>,
    pub records: Vec<RecordDto>,
}

/// The header of an index node page.
#[derive(Debug, Clone, PartialEq, Eq)]
pub struct BTreePageHeaderDto {
    /// "Leaf" or "Internal".
    pub node_type: String,
    pub num_keys: u16,
    pub max_keys: u16,
    pub parent_page_num: Option<u32>,
    pub next_page_num: Option<u32>,
}

/// The entries of a leaf: keys and their values as `p<page>:s<slot>`.
#[derive(Debug, Clone, PartialEq, Eq)]
pub struct BTreeLeafDataDto {
    pub keys: Vec<i32>,
    pub values: Vec<String>,
}

/// The entries of an internal node: keys and child page numbers.
#[derive(Debug, Clone, PartialEq, Eq)]
pub struct BTreeInternalDataDto {
    pub keys: Vec<i32>,
    pub children: Vec<u32>,
}

/// The entries of a node.
#[derive(Debug, Clone, PartialEq, Eq)]
pub enum BTreeNodeDataDto {
    Leaf(BTreeLeafDataDto),
    Internal(BTreeInternalDataDto),
}

/// An index node page.
#[derive(Debug, Clone, PartialEq, Eq)]
pub struct BTreePageDto {
    pub header: BTreePageHeaderDto,
    pub node_data: BTreeNodeDataDto,
}

/// The bytes of a frame in hexadecimal.
#[derive(Debug, Clone, PartialEq, Eq)]
pub struct FrameDumpDto {
    pub frame_id: usize,
    pub hex_dump: String,
}

/// A table of the catalog.
#[derive(Debug, Clone, PartialEq, Eq)]
pub struct TableMetadataDto {
    pub name: String,
    pub heap_relation_id: u32,
    pub index_relation_id: u32,
    pub root_page_num: Option<u32>,
}

/// The catalog: the next relation id and the tables by name.
#[derive(Debug, Clone, PartialEq, Eq)]
pub struct CatalogDataDto {
    pub next_relation_id: u32,
    pub tables: Vec<(String, TableMetadataDto)>,
}

// ---------------------------------------------------------------------------
// Text
// ---------------------------------------------------------------------------

/// A hexadecimal digit, lower case.
pub open spec fn hex_digit(n: int) -> char {
    if n < 10 {
        (48 + n) as char
    } else {
        (87 + n) as char
    }
}

/// Bytes in hexadecimal: two lower-case digits per byte, high nibble first.
pub open spec fn hex_of(b: Seq<u8>) -> Seq<char> {
    Seq::new(
        2 * b.len(),
        |i: int|
            if i % 2 == 0 {
                hex_digit(b[i / 2] as int / 16)
            } else {
                hex_digit(b[i / 2] as int % 16)
            },
    )
}

/// `hex::encode`: the bytes as lower-case hexadecimal, two digits per byte, high nibble first.
#[verifier::external_body]
fn hex_encode(bytes: &[u8]) -> (r: String)
    ensures
        r@ == hex_of(bytes@),
{
    hex::encode(bytes)
}

/// A decimal digit.
pub open spec fn digit_char(d: int) -> char {
    (48 + d) as char
}

/// A natural number in decimal, without leading zeros.
pub open spec fn decimal(x: nat) -> Seq<char>
    decreases x,
{
    if x < 10 {
        seq![digit_char(x as int)]
    } else {
        decimal(x / 10).push(digit_char((x % 10) as int))
    }
}

fn digit(d: u64) -> (r: char)
    requires
        d < 10,
    ensures
        r == digit_char(d as int),
{
    let c = (48 + d) as u8;
    c as char
}

pub(crate) fn push_decimal(x: u64, out: &mut Vec<char>)
    ensures
        final(out)@ == old(out)@ + decimal(x as nat),
    decreases x,
{
    if x >= 10 {
        push_decimal(x / 10, out);
    }
    out.push(digit(x % 10));
    proof {
        if x >= 10 {
            assert(old(out)@ + decimal(x as nat) =~= old(out)@ + decimal((x / 10) as nat) + seq![digit_char((x % 10) as int)]);
        } else {
            assert(decimal(x as nat) =~= seq![digit_char(x as int)]);
        }
    }
}

/// A number in decimal.
pub fn decimal_string(x: u64) -> (r: String)
    ensures
        r@ == decimal(x as nat),
{
    let mut out: Vec<char> = Vec::new();
    push_decimal(x, &mut out);
    proof {
        assert(out@ =~= decimal(x as nat));
    }
    string_of(out.as_slice())
}

/// `p<page>:s<slot>`, how a leaf value is shown.
pub open spec fn value_label(page_num: u32, slot_idx: u16) -> Seq<char> {
    seq!['p'] + decimal(page_num as nat) + seq![':', 's'] + decimal(slot_idx as nat)
}

fn value_text(page_num: u32, slot_idx: u16) -> (r: String)
    ensures
        r@ == value_label(page_num, slot_idx),
{
    let mut out: Vec<char> = Vec::new();
    out.push('p');
    push_decimal(page_num as u64, &mut out);
    out.push(':');
    out.push('s');
    push_decimal(slot_idx as u64, &mut out);
    proof {
        assert(out@ =~= value_label(page_num, slot_idx));
    }
    string_of(out.as_slice())
}

// ---------------------------------------------------------------------------
// Buffer pool and frames
// ---------------------------------------------------------------------------

/// The frame views of the buffer pool's frame metadata.
pub fn frames_dto(meta: &Vec<(usize, Option<PageId>, usize, bool)>) -> (r: Vec<FrameDto>)
    ensures
        r@.len() == meta@.len(),
        forall|i: int|
            0 <= i < meta@.len() ==> #[trigger] r@[i] == (FrameDto {
                frame_id: meta@[i].0,
                page_id: match meta@[i].1 {
                    Some(p) => Some(PageIdDto { file_id: p.file_id, page_num: p.page_num }),
                    None => None,
                },
                pin_count: meta@[i].2,
                is_dirty: meta@[i].3,
            }),
{
    let mut out: Vec<FrameDto> = Vec::new();
    let mut i: usize = 0;
    while i < meta.len()
        invariant
            i <= meta@.len(),
            out@.len() == i,
            forall|k: int|
                0 <= k < i ==> #[trigger] out@[k] == (FrameDto {
                    frame_id: meta@[k].0,
                    page_id: match meta@[k].1 {
                        Some(p) => Some(PageIdDto { file_id: p.file_id, page_num: p.page_num }),
                        None => None,
                    },
                    pin_count: meta@[k].2,
                    is_dirty: meta@[k].3,
                }),
        decreases meta@.len() - i,
    {
        let (frame_id, pid, pin_count, is_dirty) = meta[i];
        let page_id = match pid {
            Some(p) => Some(PageIdDto { file_id: p.file_id, page_num: p.page_num }),
            None => None,
        };
        out.push(FrameDto { frame_id, page_id, pin_count, is_dirty });
        i += 1;
    }
    out
}

/// The hexadecimal dump of a frame's bytes.
pub fn frame_dump(frame_id: usize, data: &Vec<u8>) -> (r: FrameDumpDto)
    ensures
        r.frame_id == frame_id,
        r.hex_dump@ == hex_of(data@),
{
    FrameDumpDto { frame_id, hex_dump: hex_encode(data.as_slice()) }
}

// ---------------------------------------------------------------------------
// Heap pages
// ---------------------------------------------------------------------------

/// Number of slots a page lists that lie within a page of `page_size` bytes.
pub open spec fn listed_slots(d: Seq<u8>, page_size: nat) -> nat {
    let t = header_of(d).total_slots as nat;
    let room = if page_size >= 16 { ((page_size - 16) / 4) as nat } else { 0 };
    if t <= room { t } else { room }
}

/// The record view shows what the page holds in the slot it names.
pub open spec fn record_shows(d: Seq<u8>, page_size: nat, rec: RecordDto) -> bool {
    match record_of(d, page_size, rec.slot_idx as int) {
        Some((th, bytes)) => rec.xmin == th.xmin && rec.xmax == th.xmax && rec.data_hex@ == hex_of(bytes),
        None => false,
    }
}

/// The view of a slotted page: its header, the slots it lists (as far as they lie within
/// the page), and the records those slots hold.
pub fn page_dto<const PAGE_SIZE: usize>(page: &SlottedPage<PAGE_SIZE>) -> (r: PageDto)
    requires
        page.data@.len() == PAGE_SIZE,
        16 <= PAGE_SIZE,
    ensures
        r.header == (PageHeaderDto {
            lsn: header_of(page.data@).log_sequence_number,
            total_slots: header_of(page.data@).total_slots,
            free_space_lower: header_of(page.data@).free_space_lower,
            free_space_upper: header_of(page.data@).free_space_upper,
            page_flags: header_of(page.data@).page_flags,
        }),
        r.slots@.len() == listed_slots(page.data@, PAGE_SIZE as nat),
        forall|i: int|
            0 <= i < r.slots@.len() ==> #[trigger] r.slots@[i] == (SlotDto {
                slot_idx: i as usize,
                offset: slot_of(page.data@, i).offset,
                length: slot_of(page.data@, i).length,
            }),
        forall|k: int|
            0 <= k < r.records@.len() ==> (#[trigger] r.records@[k]).slot_idx < r.slots@.len() && record_shows(
                page.data@,
                PAGE_SIZE as nat,
                r.records@[k],
            ),
        forall|k1: int, k2: int|
            0 <= k1 < k2 < r.records@.len() ==> #[trigger] r.records@[k1].slot_idx < #[trigger] r.records@[k2].slot_idx,
        forall|i: int|
            0 <= i < r.slots@.len() && (#[trigger] record_of(page.data@, PAGE_SIZE as nat, i)) is Some ==> exists|k: int|
                0 <= k < r.records@.len() && #[trigger] r.records@[k].slot_idx == i,
{
    let h = page.header();
    let header = PageHeaderDto {
        lsn: h.log_sequence_number,
        total_slots: h.total_slots,
        free_space_lower: h.free_space_lower,
        free_space_upper: h.free_space_upper,
        page_flags: h.page_flags,
    };
    let room = (PAGE_SIZE - PAGE_HEADER_SIZE) / 4;
    let n = if (h.total_slots as usize) <= room { h.total_slots as usize } else { room };
    let mut slots: Vec<SlotDto> = Vec::new();
    let mut records: Vec<RecordDto> = Vec::new();
    let mut i: usize = 0;
    while i < n
        invariant
            page.data@.len() == PAGE_SIZE,
            16 <= PAGE_SIZE,
            n == listed_slots(page.data@, PAGE_SIZE as nat),
            n <= (PAGE_SIZE - 16) / 4,
            i <= n,
            slots@.len() == i,
            forall|j: int|
                0 <= j < i ==> #[trigger] slots@[j] == (SlotDto {
                    slot_idx: j as usize,
                    offset: slot_of(page.data@, j).offset,
                    length: slot_of(page.data@, j).length,
                }),
            forall|k: int|
                0 <= k < records@.len() ==> (#[trigger] records@[k]).slot_idx < i && record_shows(
                    page.data@,
                    PAGE_SIZE as nat,
                    records@[k],
                ),
            forall|k1: int, k2: int|
                0 <= k1 < k2 < records@.len() ==> #[trigger] records@[k1].slot_idx < #[trigger] records@[k2].slot_idx,
            forall|j: int|
                0 <= j < i && (#[trigger] record_of(page.data@, PAGE_SIZE as nat, j)) is Some ==> exists|k: int|
                    0 <= k < records@.len() && #[trigger] records@[k].slot_idx == j,
        decreases n - i,
    {
        let pos = 16 + 4 * i;
        let offset = crate::page::read_u16(&page.data, pos);
        let length = crate::page::read_u16(&page.data, pos + 2);
        slots.push(SlotDto { slot_idx: i, offset, length });
        let ghost before = records@;
        match page.get_record(i) {
            Some((th, bytes)) => {
                records.push(RecordDto { slot_idx: i, xmin: th.xmin, xmax: th.xmax, data_hex: hex_encode(bytes) });
                proof {
                    assert(records@[records@.len() - 1].slot_idx == i);
                    assert forall|j: int|
                        0 <= j < i + 1 && (#[trigger] record_of(page.data@, PAGE_SIZE as nat, j)) is Some implies exists|k: int|
                            0 <= k < records@.len() && #[trigger] records@[k].slot_idx == j by {
                        if j < i {
                            let k = choose|k: int| 0 <= k < before.len() && #[trigger] before[k].slot_idx == j;
                            assert(records@[k] == before[k]);
                        } else {
                            assert(records@[records@.len() - 1].slot_idx == j);
                        }
                    }
                }
            },
            None => {},
        }
        i += 1;
    }
    let r = PageDto { header, slots, records };
    proof {
        assert forall|j: int|
            0 <= j < r.slots@.len() && (#[trigger] record_of(page.data@, PAGE_SIZE as nat, j)) is Some implies exists|k: int|
                0 <= k < r.records@.len() && #[trigger] r.records@[k].slot_idx == j by {
            assert(0 <= j < i && record_of(page.data@, PAGE_SIZE as nat, j) is Some);
            let k = choose|k: int| 0 <= k < records@.len() && #[trigger] records@[k].slot_idx == j;
            assert(r.records@[k].slot_idx == j);
        }
    }
    r
}

// ---------------------------------------------------------------------------
// Index pages
// ---------------------------------------------------------------------------

/// Key `i` as shown: the stored key while the key slot exists and lies in the page, else 0.
pub open spec fn shown_key(d: Seq<u8>, i: int) -> i32 {
    if i < node_header_of(d).max_keys && 24 + 4 * i + 4 <= d.len() {
        key_at(d, i)
    } else {
        0
    }
}

/// Value `i` of a leaf as shown: `p<page>:s<slot>` of the stored value while its slot exists
/// and lies in the page, else `p0:s0`.
pub open spec fn shown_value(d: Seq<u8>, i: int) -> Seq<char> {
    let m = node_header_of(d).max_keys as int;
    if i < m && 24 + 4 * m + 12 * i + 12 <= d.len() {
        value_label(value_at(d, m, i).page_id.page_num, value_at(d, m, i).slot_idx)
    } else {
        value_label(0, 0)
    }
}

/// Child `i` of an internal node as shown: the stored child's page number while its slot
/// exists and lies in the page, else 0.
pub open spec fn shown_child(d: Seq<u8>, i: int) -> u32 {
    let m = node_header_of(d).max_keys as int;
    if i <= m && 24 + 4 * m + 8 * i + 8 <= d.len() {
        child_at(d, m, i).page_num
    } else {
        0
    }
}

/// A page number, or none for the "no page" marker.
pub open spec fn page_num_or_none(p: PageId) -> Option<u32> {
    if p.page_num == u32::MAX {
        None
    } else {
        Some(p.page_num)
    }
}

fn read_u32_at(d: &Vec<u8>, o: usize) -> (r: u32)
    requires
        o + 4 <= d@.len(),
    ensures
        r == crate::btree_node::u32_at(d@, o as int),
{
    let len = d.len();
    proof {
        assert(o + 4 <= len);
    }
    vstd::bytes::u32_from_le_bytes(&d.as_slice()[o..o + 4])
}

/// The view of an index node page: its header, and its keys with the leaf values or the
/// internal children. A page whose type byte is not the leaf tag is shown as internal.
pub fn btree_page_dto(d: &Vec<u8>) -> (r: BTreePageDto)
    requires
        d@.len() >= 24,
    ensures
        ({
            let h = node_header_of(d@);
            let n = h.num_keys as int;
            &&& r.header.node_type@ == (if h.node_type == NodeType::Leaf.spec_tag() {
                "Leaf"@
            } else {
                "Internal"@
            })
            &&& r.header.num_keys == h.num_keys
            &&& r.header.max_keys == h.max_keys
            &&& r.header.parent_page_num == page_num_or_none(h.parent_page_id)
            &&& r.header.next_page_num == page_num_or_none(h.next_page_id)
            &&& match r.node_data {
                BTreeNodeDataDto::Leaf(l) => {
                    &&& h.node_type == NodeType::Leaf.spec_tag()
                    &&& l.keys@.len() == n
                    &&& l.values@.len() == n
                    &&& forall|i: int| 0 <= i < n ==> #[trigger] l.keys@[i] == shown_key(d@, i)
                    &&& forall|i: int| 0 <= i < n ==> #[trigger] l.values@[i]@ == shown_value(d@, i)
                },
                BTreeNodeDataDto::Internal(x) => {
                    &&& h.node_type != NodeType::Leaf.spec_tag()
                    &&& x.keys@.len() == n
                    &&& x.children@.len() == n + 1
                    &&& forall|i: int| 0 <= i < n ==> #[trigger] x.keys@[i] == shown_key(d@, i)
                    &&& forall|i: int| 0 <= i <= n ==> #[trigger] x.children@[i] == shown_child(d@, i)
                },
            }
        }),
{
    let h = read_node_header(d);
    let is_leaf = h.node_type == NodeType::Leaf.tag();
    let node_type = if is_leaf {
        proof {
            reveal_strlit("Leaf");
        }
        String::from_str("Leaf")
    } else {
        proof {
            reveal_strlit("Internal");
        }
        String::from_str("Internal")
    };
    let parent_page_num = if h.parent_page_id.page_num == u32::MAX {
        None
    } else {
        Some(h.parent_page_id.page_num)
    };
    let next_page_num = if h.next_page_id.page_num == u32::MAX {
        None
    } else {
        Some(h.next_page_id.page_num)
    };
    let header = BTreePageHeaderDto {
        node_type,
        num_keys: h.num_keys,
        max_keys: h.max_keys,
        parent_page_num,
        next_page_num,
    };
    let n = h.num_keys as usize;
    let m = h.max_keys as usize;
    let len = d.len();
    let mut keys: Vec<i32> = Vec::new();
    let mut i: usize = 0;
    while i < n
        invariant
            len == d@.len(),
            h == node_header_of(d@),
            n == h.num_keys,
            m == h.max_keys,
            i <= n,
            keys@.len() == i,
            forall|j: int| 0 <= j < i ==> #[trigger] keys@[j] == shown_key(d@, j),
        decreases n - i,
    {
        if i < m && 24 + 4 * i + 4 <= len {
            let x = read_u32_at(d, 24 + 4 * i);
            #[verifier::truncate]
            let k = x as i32;
            keys.push(k);
        } else {
            keys.push(0);
        }
        i += 1;
    }
    let node_data = if is_leaf {
        let mut values: Vec<String> = Vec::new();
        let mut j: usize = 0;
        while j < n
            invariant
                len == d@.len(),
                h == node_header_of(d@),
                n == h.num_keys,
                m == h.max_keys,
                j <= n,
                values@.len() == j,
                forall|k: int| 0 <= k < j ==> #[trigger] values@[k]@ == shown_value(d@, k),
            decreases n - j,
        {
            if j < m && 24 + 4 * m + 12 * j + 12 <= len {
                let pos = 24 + 4 * m + 12 * j;
                let page_num = read_u32_at(d, pos + 4);
                let slot = crate::page::read_u16(d, pos + 8);
                values.push(value_text(page_num, slot));
            } else {
                values.push(value_text(0, 0));
            }
            j += 1;
        }
        BTreeNodeDataDto::Leaf(BTreeLeafDataDto { keys, values })
    } else {
        let mut children: Vec<u32> = Vec::new();
        let mut j: usize = 0;
        while j <= n
            invariant
                len == d@.len(),
                h == node_header_of(d@),
                n == h.num_keys,
                n <= 0xffff,
                m == h.max_keys,
                j <= n + 1,
                children@.len() == j,
                forall|k: int| 0 <= k < j ==> #[trigger] children@[k] == shown_child(d@, k),
            decreases n + 1 - j,
        {
            if j <= m && 24 + 4 * m + 8 * j + 8 <= len {
                let page_num = read_u32_at(d, 24 + 4 * m + 8 * j + 4);
                children.push(page_num);
            } else {
                children.push(0);
            }
            j += 1;
        }
        BTreeNodeDataDto::Internal(BTreeInternalDataDto { keys, children })
    };
    BTreePageDto { header, node_data }
}

/// Number of whole pages in a file of `len` bytes, or 0 when that does not fit 32 bits.
pub fn pages_in_file(len: u64, page_size: u64) -> (r: u32)
    requires
        page_size > 0,
    ensures
        r == if len / page_size <= u32::MAX { (len / page_size) as u32 } else { 0 },
{
    let n = len / page_size;
    if n <= u32::MAX as u64 {
        n as u32
    } else {
        0
    }
}

/// No table's name sorts strictly before the name of the table in front of it.
pub open spec fn names_sorted(s: Seq<TableMetadataDto>) -> bool {
    forall|q: int| 0 <= q < s.len() - 1 ==> !crate::predicate::lex_less(#[trigger] s[q + 1].name@, s[q].name@)
}

/// The catalog's tables ordered by name (a stable sort).
pub fn tables_by_name(catalog: CatalogDataDto) -> (r: Vec<TableMetadataDto>)
    ensures
        r@.to_multiset() == catalog.tables@.map_values(|e: (String, TableMetadataDto)| e.1).to_multiset(),
        names_sorted(r@),
{
    let ghost entries = catalog.tables@;
    let mut out: Vec<TableMetadataDto> = Vec::new();
    let mut keys: Vec<Vec<char>> = Vec::new();
    let mut tables = catalog.tables;
    while tables.len() > 0
        invariant
            out@.len() + tables@.len() == entries.len(),
            tables@ == entries.skip(out@.len() as int),
            out@ == entries.map_values(|e: (String, TableMetadataDto)| e.1).take(out@.len() as int),
            keys@.len() == out@.len(),
            forall|q: int| 0 <= q < out@.len() ==> (#[trigger] keys@[q])@ == out@[q].name@,
        decreases tables@.len(),
    {
        let ghost n: int = out@.len() as int;
        let (_, t) = tables.remove(0);
        assert(t == entries[n].1);
        let k = crate::text::chars_of(t.name.as_str());
        out.push(t);
        keys.push(k);
        proof {
            assert(out@ =~= entries.map_values(|e: (String, TableMetadataDto)| e.1).take(n + 1));
            assert(tables@ =~= entries.skip(n + 1));
        }
    }
    proof {
        assert(entries.map_values(|e: (String, TableMetadataDto)| e.1).take(out@.len() as int) =~= entries.map_values(
            |e: (String, TableMetadataDto)| e.1,
        ));
    }
    if out.len() == 0 {
        return out;
    }
    let ghost start = out@;
    let mut i: usize = 1;
    while i < out.len()
        invariant
            1 <= i <= out@.len(),
            keys@.len() == out@.len(),
            out@.to_multiset() == start.to_multiset(),
            forall|q: int| 0 <= q < out@.len() ==> (#[trigger] keys@[q])@ == out@[q].name@,
            forall|q: int| 0 <= q < i - 1 ==> !crate::predicate::lex_less(#[trigger] keys@[q + 1]@, keys@[q]@),
        decreases out@.len() - i,
    {
        let ghost b0 = out@;
        let ghost k0 = keys@;
        let t = out.remove(i);
        let k = keys.remove(i);
        assert(b0.remove(i as int).to_multiset() == b0.to_multiset().remove(t));
        let mut p: usize = i;
        while p > 0 && crate::predicate::lex_less_exec(k.as_slice(), keys[p - 1].as_slice())
            invariant
                p <= i,
                i < b0.len(),
                k0.len() == b0.len(),
                keys@ == k0.remove(i as int),
                p < i ==> crate::predicate::lex_less(k@, keys@[p as int]@),
            decreases p,
        {
            p -= 1;
        }
        let ghost b1 = out@;
        let ghost k1 = keys@;
        out.insert(p, t);
        keys.insert(p, k);
        proof {
            assert(b1.insert(p as int, t).to_multiset() == b1.to_multiset().insert(t));
            assert(b1.to_multiset().insert(t) =~= b0.to_multiset());
            assert forall|q: int| 0 <= q < out@.len() implies (#[trigger] keys@[q])@ == out@[q].name@ by {
                if q < p {
                    assert(keys@[q] == k0[q] && out@[q] == b0[q]);
                } else if q == p {
                } else if q <= i {
                    assert(keys@[q] == k0[q - 1] && out@[q] == b0[q - 1]);
                } else {
                    assert(keys@[q] == k0[q] && out@[q] == b0[q]);
                }
            }
            assert forall|q: int| 0 <= q < i implies !crate::predicate::lex_less(#[trigger] keys@[q + 1]@, keys@[q]@) by {
                if q + 1 < p {
                    assert(keys@[q] == k0[q] && keys@[q + 1] == k0[q + 1]);
                    assert(!crate::predicate::lex_less(k0[q + 1]@, k0[q]@));
                } else if q + 1 == p {
                    assert(keys@[q] == k0[q]);
                    assert(k1[q] == k0[q]);
                    assert(keys@[q + 1] == k);
                    assert(!crate::predicate::lex_less(k@, k1[q]@));
                } else if q == p {
                    assert(keys@[q + 1] == k1[p as int]);
                    crate::sort::lemma_lex_less_asymmetric(k@, k1[p as int]@);
                } else {
                    assert(keys@[q] == k0[q - 1] && keys@[q + 1] == k0[q]);
                    let r = q - 1;
                    assert(!crate::predicate::lex_less(k0[r + 1]@, k0[r]@));
                    assert(r + 1 == q);
                }
            }
        }
        i += 1;
    }
    proof {
        assert forall|q: int| 0 <= q < out@.len() - 1 implies !crate::predicate::lex_less(
            #[trigger] out@[q + 1].name@,
            out@[q].name@,
        ) by {
            assert(keys@[q + 1]@ == out@[q + 1].name@);
            assert(keys@[q]@ == out@[q].name@);
        }
    }
    out
}

} // verus!
