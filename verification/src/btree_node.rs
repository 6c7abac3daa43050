//! B+Tree nodes as they lie in a page: a 24-byte header, then the keys, then the leaf values
//! or the internal children, all little-endian.
use crate::page::{agree, lemma_same_bytes, read_u16, write_bytes, write_u16, written};
use crate::storage::{PageId, CTID};
use vstd::bytes::*;
use vstd::prelude::*;

verus! {

broadcast use vstd::seq_lib::group_seq_properties;

/// Errors of node-level index operations.
#[derive(Debug)]
pub enum BTreeError {
    /// The node has no room for another key.
    NodeFull,
    /// The key is already present.
    DuplicateKey,
    /// The key is not present.
    KeyNotFound,
    /// The page does not hold a valid node.
    InvalidNode,
}

/// The two kinds of node.
#[derive(Debug, Clone, Copy, PartialEq, Eq, Structural)]
pub enum NodeType {
    Internal,
    Leaf,
}

impl NodeType {
    /// The byte that marks this kind of node in a page header.
    pub open spec fn spec_tag(self) -> u8 {
        match self {
            NodeType::Internal => 1,
            NodeType::Leaf => 2,
        }
    }

    /// The byte that marks this kind of node in a page header.
    pub fn tag(self) -> (r: u8)
        ensures
            r == self.spec_tag(),
    {
        match self {
            NodeType::Internal => 1,
            NodeType::Leaf => 2,
        }
    }
}

/// The page id that stands for "no page".
pub open spec fn spec_invalid_page_id() -> PageId {
    PageId { file_id: u32::MAX, page_num: u32::MAX }
}

/// The page id that stands for "no page": both fields at their maximum.
pub fn invalid_page_id() -> (r: PageId)
    ensures
        r == spec_invalid_page_id(),
{
    PageId { file_id: u32::MAX, page_num: u32::MAX }
}

/// The header at the start of every node page.
#[derive(Debug, Clone, Copy, PartialEq, Eq, Structural)]
pub struct BTreePageHeader {
    /// The tag of the node's `NodeType`.
    pub node_type: u8,
    /// Number of keys in use.
    pub num_keys: u16,
    /// Number of key slots the page was laid out for.
    pub max_keys: u16,
    /// The parent node, or the invalid page id at the root.
    pub parent_page_id: PageId,
    /// The next leaf to the right, or the invalid page id.
    pub next_page_id: PageId,
}

/// A leaf node: its header; the keys and values follow it in the page.
#[derive(Debug, Clone, Copy)]
pub struct LeafNode {
    pub header: BTreePageHeader,
}

/// An internal node: its header; the keys and children follow it in the page.
#[derive(Debug, Clone, Copy)]
pub struct InternalNode {
    pub header: BTreePageHeader,
}

/// Size of the node header in bytes.
pub const NODE_HEADER_SIZE: usize = 24;

/// Size of a key in bytes.
pub const KEY_SIZE: usize = 4;

/// Size of a leaf value (a tuple id) in bytes.
pub const VALUE_SIZE: usize = 12;

/// Size of a child pointer (a page id) in bytes.
pub const CHILD_SIZE: usize = 8;

/// How many keys a leaf of `page_size` bytes holds: the room after the header divided by the
/// size of a key and its value, cut to 16 bits.
pub fn leaf_max_keys(page_size: usize) -> (r: u16)
    requires
        page_size >= NODE_HEADER_SIZE,
    ensures
        r == ((page_size - 24) / 16) as u16,
{
    #[verifier::truncate]
    let r = ((page_size - NODE_HEADER_SIZE) / (KEY_SIZE + VALUE_SIZE)) as u16;
    r
}

/// How many keys an internal node of `page_size` bytes holds: the room after the header and
/// one extra child divided by the size of a key and its child, cut to 16 bits.
pub fn internal_max_keys(page_size: usize) -> (r: u16)
    requires
        page_size >= NODE_HEADER_SIZE + CHILD_SIZE,
    ensures
        r == ((page_size - 32) / 12) as u16,
{
    #[verifier::truncate]
    let r = ((page_size - NODE_HEADER_SIZE - CHILD_SIZE) / (KEY_SIZE + CHILD_SIZE)) as u16;
    r
}

// ---------------------------------------------------------------------------
// The node as a byte sequence
// ---------------------------------------------------------------------------

pub open spec fn u32_at(d: Seq<u8>, o: int) -> u32 {
    spec_u32_from_le_bytes(d.subrange(o, o + 4))
}

pub open spec fn u16_le(d: Seq<u8>, o: int) -> u16 {
    spec_u16_from_le_bytes(d.subrange(o, o + 2))
}

pub open spec fn page_id_at(d: Seq<u8>, o: int) -> PageId {
    PageId { file_id: u32_at(d, o), page_num: u32_at(d, o + 4) }
}

/// The node header stored in the first 24 bytes.
pub open spec fn node_header_of(d: Seq<u8>) -> BTreePageHeader {
    BTreePageHeader {
        node_type: d[0],
        num_keys: u16_le(d, 2),
        max_keys: u16_le(d, 4),
        parent_page_id: page_id_at(d, 8),
        next_page_id: page_id_at(d, 16),
    }
}

/// Position of key `i`.
pub open spec fn key_pos(i: int) -> int {
    24 + 4 * i
}

/// Key `i` as stored.
pub open spec fn key_at(d: Seq<u8>, i: int) -> i32 {
    u32_at(d, key_pos(i)) as i32
}

/// Position of leaf value `i` in a node laid out for `max` keys.
pub open spec fn value_pos(max: int, i: int) -> int {
    24 + 4 * max + 12 * i
}

/// Leaf value `i` as stored.
pub open spec fn value_at(d: Seq<u8>, max: int, i: int) -> CTID {
    CTID { page_id: page_id_at(d, value_pos(max, i)), slot_idx: u16_le(d, value_pos(max, i) + 8) }
}

/// Position of child `i` in a node laid out for `max` keys.
pub open spec fn child_pos(max: int, i: int) -> int {
    24 + 4 * max + 8 * i
}

/// Child `i` as stored.
pub open spec fn child_at(d: Seq<u8>, max: int, i: int) -> PageId {
    page_id_at(d, child_pos(max, i))
}

/// The first `n` keys.
pub open spec fn keys_of(d: Seq<u8>, n: nat) -> Seq<i32> {
    Seq::new(n, |i: int| key_at(d, i))
}

/// The first `n` leaf values of a node laid out for `max` keys.
pub open spec fn values_of(d: Seq<u8>, max: nat, n: nat) -> Seq<CTID> {
    Seq::new(n, |i: int| value_at(d, max as int, i))
}

/// The first `n` children of a node laid out for `max` keys.
pub open spec fn children_of(d: Seq<u8>, max: nat, n: nat) -> Seq<PageId> {
    Seq::new(n, |i: int| child_at(d, max as int, i))
}

/// A leaf layout for `max` keys fits in `len` bytes.
pub open spec fn leaf_fits(max: nat, len: nat) -> bool {
    24 + 16 * max <= len
}

/// An internal layout for `max` keys (and one more child) fits in `len` bytes.
pub open spec fn internal_fits(max: nat, len: nat) -> bool {
    32 + 12 * max <= len
}

proof fn lemma_u32_round_trip(x: u32)
    ensures
        spec_u32_from_le_bytes(spec_u32_to_le_bytes(x)) == x,
        spec_u32_to_le_bytes(x).len() == 4,
{
    lemma_auto_spec_u32_to_from_le_bytes();
}

proof fn lemma_i32_round_trip(k: i32)
    ensures
        ((k as u32) as i32) == k,
{
    assert(((k as u32) as i32) == k) by (bit_vector);
}

/// Agreement carries over two steps, on a range both steps cover.
proof fn lemma_agree_trans(a: Seq<u8>, b: Seq<u8>, c: Seq<u8>, lo: int, hi: int, lo2: int, hi2: int, lo3: int, hi3: int)
    requires
        agree(a, b, lo2, hi2),
        agree(b, c, lo3, hi3),
        lo2 <= lo,
        lo3 <= lo,
        hi <= hi2,
        hi <= hi3,
    ensures
        agree(a, c, lo, hi),
{
    assert forall|k: int| lo <= k < hi implies #[trigger] a[k] == #[trigger] c[k] by {
        assert(a[k] == b[k]);
        assert(b[k] == c[k]);
    }
}

fn read_u32(d: &Vec<u8>, o: usize) -> (r: u32)
    requires
        o + 4 <= d.len(),
    ensures
        r == u32_at(d@, o as int),
{
    u32_from_le_bytes(&d.as_slice()[o..o + 4])
}

fn write_u32(d: &mut Vec<u8>, o: usize, x: u32)
    requires
        o + 4 <= old(d).len(),
    ensures
        final(d)@.len() == old(d)@.len(),
        u32_at(final(d)@, o as int) == x,
        agree(old(d)@, final(d)@, 0, o as int),
        agree(old(d)@, final(d)@, o + 4, old(d)@.len() as int),
{
    let b = u32_to_le_bytes(x);
    let ghost d0 = d@;
    write_bytes(d, o, b.as_slice());
    proof {
        lemma_u32_round_trip(x);
        assert(b@.len() == 4);
        assert forall|k: int| 0 <= k < o implies #[trigger] d0[k] == #[trigger] d@[k] by {}
        assert forall|k: int| o + 4 <= k < d0.len() implies #[trigger] d0[k] == #[trigger] d@[k] by {}
    }
}

fn put_u16(d: &mut Vec<u8>, o: usize, x: u16)
    requires
        o + 2 <= old(d).len(),
    ensures
        final(d)@.len() == old(d)@.len(),
        u16_le(final(d)@, o as int) == x,
        agree(old(d)@, final(d)@, 0, o as int),
        agree(old(d)@, final(d)@, o + 2, old(d)@.len() as int),
{
    let ghost d0 = d@;
    write_u16(d, o, x);
    proof {
        lemma_auto_spec_u16_to_from_le_bytes();
        assert(spec_u16_to_le_bytes(x).len() == 2);
        assert forall|k: int| 0 <= k < o implies #[trigger] d0[k] == #[trigger] d@[k] by {}
        assert forall|k: int| o + 2 <= k < d0.len() implies #[trigger] d0[k] == #[trigger] d@[k] by {}
    }
}

fn read_page_id(d: &Vec<u8>, o: usize) -> (r: PageId)
    requires
        o + 8 <= d.len(),
    ensures
        r == page_id_at(d@, o as int),
{
    PageId { file_id: read_u32(d, o), page_num: read_u32(d, o + 4) }
}

fn write_page_id(d: &mut Vec<u8>, o: usize, p: PageId)
    requires
        o + 8 <= old(d).len(),
    ensures
        final(d)@.len() == old(d)@.len(),
        page_id_at(final(d)@, o as int) == p,
        agree(old(d)@, final(d)@, 0, o as int),
        agree(old(d)@, final(d)@, o + 8, old(d)@.len() as int),
{
    let ghost d0 = d@;
    write_u32(d, o, p.file_id);
    let ghost d1 = d@;
    write_u32(d, o + 4, p.page_num);
    proof {
        lemma_u32_round_trip(p.file_id);
        lemma_u32_round_trip(p.page_num);
        lemma_same_bytes(d1, d@, o as int, 4);
        lemma_agree_trans(d0, d1, d@, 0, o as int, 0, o as int, 0, o + 4);
        lemma_agree_trans(d0, d1, d@, o + 8, d0.len() as int, o + 4, d0.len() as int, o + 8, d0.len() as int);
    }
}

/// Reads the node header.
pub fn read_node_header(d: &Vec<u8>) -> (r: BTreePageHeader)
    requires
        d@.len() >= 24,
    ensures
        r == node_header_of(d@),
{
    BTreePageHeader {
        node_type: d[0],
        num_keys: read_u16(d, 2),
        max_keys: read_u16(d, 4),
        parent_page_id: read_page_id(d, 8),
        next_page_id: read_page_id(d, 16),
    }
}

/// Writes the node header; the bytes after it are unchanged.
pub fn write_node_header(d: &mut Vec<u8>, h: BTreePageHeader)
    requires
        old(d)@.len() >= 24,
    ensures
        final(d)@.len() == old(d)@.len(),
        node_header_of(final(d)@) == h,
        agree(old(d)@, final(d)@, 24, old(d)@.len() as int),
{
    let ghost d0 = d@;
    d.set(0, h.node_type);
    d.set(1, 0u8);
    let ghost d1 = d@;
    put_u16(d, 2, h.num_keys);
    let ghost d2 = d@;
    put_u16(d, 4, h.max_keys);
    let ghost d3 = d@;
    put_u16(d, 6, 0u16);
    let ghost d4 = d@;
    write_page_id(d, 8, h.parent_page_id);
    let ghost d5 = d@;
    write_page_id(d, 16, h.next_page_id);
    proof {
        assert(d@[0] == h.node_type) by {
            assert(d1[0] == d2[0]);
            assert(d2[0] == d3[0]);
            assert(d3[0] == d4[0]);
            assert(d4[0] == d5[0]);
            assert(d5[0] == d@[0]);
        }
        assert forall|k: int| 2 <= k < 4 implies d2[k] == d@[k] by {
            assert(d2[k] == d3[k]);
            assert(d3[k] == d4[k]);
            assert(d4[k] == d5[k]);
            assert(d5[k] == d@[k]);
        }
        assert forall|k: int| 4 <= k < 6 implies d3[k] == d@[k] by {
            assert(d3[k] == d4[k]);
            assert(d4[k] == d5[k]);
            assert(d5[k] == d@[k]);
        }
        assert forall|k: int| 8 <= k < 16 implies d5[k] == d@[k] by {
            assert(d5[k] == d@[k]);
        }
        lemma_same_bytes(d2, d@, 2, 2);
        lemma_same_bytes(d3, d@, 4, 2);
        lemma_same_bytes(d5, d@, 8, 4);
        lemma_same_bytes(d5, d@, 12, 4);
        assert forall|k: int| 24 <= k < d0.len() implies #[trigger] d0[k] == #[trigger] d@[k] by {
            assert(d0[k] == d1[k]);
            assert(d1[k] == d2[k]);
            assert(d2[k] == d3[k]);
            assert(d3[k] == d4[k]);
            assert(d4[k] == d5[k]);
            assert(d5[k] == d@[k]);
        }
    }
}

/// Reads the first `n` keys.
pub fn read_keys(d: &Vec<u8>, n: usize) -> (r: Vec<i32>)
    requires
        24 + 4 * n <= d@.len(),
    ensures
        r@ == keys_of(d@, n as nat),
{
    let mut r: Vec<i32> = Vec::new();
    let len = d.len();
    let mut i: usize = 0;
    while i < n
        invariant
            len == d@.len(),
            24 + 4 * n <= d@.len(),
            i <= n,
            r@ == keys_of(d@, i as nat),
        decreases n - i,
    {
        let x = read_u32(d, 24 + 4 * i);
        #[verifier::truncate]
        let k = x as i32;
        r.push(k);
        i += 1;
        proof {
            assert(r@ =~= keys_of(d@, i as nat));
        }
    }
    r
}

/// Writes `keys` into the first key slots; every other byte is unchanged.
pub fn write_keys(d: &mut Vec<u8>, keys: &Vec<i32>)
    requires
        24 + 4 * keys@.len() <= old(d)@.len(),
    ensures
        final(d)@.len() == old(d)@.len(),
        keys_of(final(d)@, keys@.len()) == keys@,
        agree(old(d)@, final(d)@, 0, 24),
        agree(old(d)@, final(d)@, 24 + 4 * keys@.len() as int, old(d)@.len() as int),
{
    let len = d.len();
    let mut i: usize = 0;
    while i < keys.len()
        invariant
            len == d@.len(),
            24 + 4 * keys@.len() <= d@.len(),
            d@.len() == old(d)@.len(),
            i <= keys@.len(),
            forall|j: int| 0 <= j < i ==> #[trigger] key_at(d@, j) == keys@[j],
            agree(old(d)@, d@, 0, 24),
            agree(old(d)@, d@, 24 + 4 * i, old(d)@.len() as int),
        decreases keys@.len() - i,
    {
        let ghost before = d@;
        #[verifier::truncate]
        let x = keys[i] as u32;
        write_u32(d, 24 + 4 * i, x);
        proof {
            lemma_i32_round_trip(keys@[i as int]);
            assert forall|j: int| 0 <= j < i implies #[trigger] key_at(d@, j) == keys@[j] by {
                assert(key_at(before, j) == keys@[j]);
                lemma_same_bytes(before, d@, key_pos(j), 4);
            }
            lemma_agree_trans(old(d)@, before, d@, 0, 24, 0, 24, 0, 24 + 4 * i);
            lemma_agree_trans(old(d)@, before, d@, 24 + 4 * (i + 1), d@.len() as int, 24 + 4 * i, d@.len() as int, 24 + 4 * i + 4, d@.len() as int);
        }
        i += 1;
    }
    proof {
        assert(keys_of(d@, keys@.len()) =~= keys@);
    }
}

/// Reads the first `n` values of a leaf laid out for `max` keys.
pub fn read_values(d: &Vec<u8>, max: usize, n: usize) -> (r: Vec<CTID>)
    requires
        n <= max,
        24 + 16 * max <= d@.len(),
    ensures
        r@ == values_of(d@, max as nat, n as nat),
{
    let mut r: Vec<CTID> = Vec::new();
    let len = d.len();
    let mut i: usize = 0;
    while i < n
        invariant
            len == d@.len(),
            n <= max,
            24 + 16 * max <= d@.len(),
            i <= n,
            r@ == values_of(d@, max as nat, i as nat),
        decreases n - i,
    {
        let pos = 24 + 4 * max + 12 * i;
        let v = CTID { page_id: read_page_id(d, pos), slot_idx: read_u16(d, pos + 8) };
        r.push(v);
        i += 1;
        proof {
            assert(r@ =~= values_of(d@, max as nat, i as nat));
        }
    }
    r
}

/// Writes `vals` into the first value slots of a leaf laid out for `max` keys; every byte
/// outside those slots is unchanged.
pub fn write_values(d: &mut Vec<u8>, max: usize, vals: &Vec<CTID>)
    requires
        vals@.len() <= max,
        24 + 16 * max <= old(d)@.len(),
    ensures
        final(d)@.len() == old(d)@.len(),
        values_of(final(d)@, max as nat, vals@.len()) == vals@,
        agree(old(d)@, final(d)@, 0, 24 + 4 * max),
        agree(old(d)@, final(d)@, 24 + 4 * max + 12 * vals@.len() as int, old(d)@.len() as int),
{
    let len = d.len();
    let mut i: usize = 0;
    while i < vals.len()
        invariant
            len == d@.len(),
            vals@.len() <= max,
            24 + 16 * max <= d@.len(),
            d@.len() == old(d)@.len(),
            i <= vals@.len(),
            forall|j: int| 0 <= j < i ==> #[trigger] value_at(d@, max as int, j) == vals@[j],
            agree(old(d)@, d@, 0, 24 + 4 * max),
            agree(old(d)@, d@, 24 + 4 * max + 12 * i, old(d)@.len() as int),
        decreases vals@.len() - i,
    {
        let ghost before = d@;
        let pos = 24 + 4 * max + 12 * i;
        let v = vals[i];
        write_page_id(d, pos, v.page_id);
        let ghost mid = d@;
        put_u16(d, pos + 8, v.slot_idx);
        let ghost mid2 = d@;
        put_u16(d, pos + 10, 0u16);
        proof {
            assert forall|k: int| pos <= k < pos + 8 implies mid[k] == d@[k] by {
                assert(mid[k] == mid2[k]);
                assert(mid2[k] == d@[k]);
            }
            assert forall|k: int| pos + 8 <= k < pos + 10 implies mid2[k] == d@[k] by {
                assert(mid2[k] == d@[k]);
            }
            lemma_same_bytes(mid, d@, pos as int, 4);
            lemma_same_bytes(mid, d@, pos + 4, 4);
            lemma_same_bytes(mid2, d@, pos + 8, 2);
            assert forall|k: int| 0 <= k < pos implies #[trigger] before[k] == #[trigger] d@[k] by {
                assert(before[k] == mid[k]);
                assert(mid[k] == mid2[k]);
                assert(mid2[k] == d@[k]);
            }
            assert forall|k: int| pos + 12 <= k < before.len() implies #[trigger] before[k] == #[trigger] d@[k] by {
                assert(before[k] == mid[k]);
                assert(mid[k] == mid2[k]);
                assert(mid2[k] == d@[k]);
            }
            assert forall|j: int| 0 <= j < i implies #[trigger] value_at(d@, max as int, j) == vals@[j] by {
                let p = value_pos(max as int, j);
                assert(value_at(before, max as int, j) == vals@[j]);
                lemma_same_bytes(before, d@, p, 4);
                lemma_same_bytes(before, d@, p + 4, 4);
                lemma_same_bytes(before, d@, p + 8, 2);
            }
            lemma_agree_trans(old(d)@, before, d@, 0, 24 + 4 * max, 0, 24 + 4 * max, 0, pos as int);
            lemma_agree_trans(old(d)@, before, d@, pos + 12, d@.len() as int, pos as int, d@.len() as int, pos + 12, d@.len() as int);
        }
        i += 1;
    }
    proof {
        assert(values_of(d@, max as nat, vals@.len()) =~= vals@);
    }
}

/// Reads the first `n` children of an internal node laid out for `max` keys.
pub fn read_children(d: &Vec<u8>, max: usize, n: usize) -> (r: Vec<PageId>)
    requires
        n <= max + 1,
        32 + 12 * max <= d@.len(),
    ensures
        r@ == children_of(d@, max as nat, n as nat),
{
    let mut r: Vec<PageId> = Vec::new();
    let len = d.len();
    let mut i: usize = 0;
    while i < n
        invariant
            len == d@.len(),
            n <= max + 1,
            32 + 12 * max <= d@.len(),
            i <= n,
            r@ == children_of(d@, max as nat, i as nat),
        decreases n - i,
    {
        let v = read_page_id(d, 24 + 4 * max + 8 * i);
        r.push(v);
        i += 1;
        proof {
            assert(r@ =~= children_of(d@, max as nat, i as nat));
        }
    }
    r
}

/// Writes `children` into the first child slots of an internal node laid out for `max` keys;
/// every byte outside those slots is unchanged.
pub fn write_children(d: &mut Vec<u8>, max: usize, children: &Vec<PageId>)
    requires
        children@.len() <= max + 1,
        32 + 12 * max <= old(d)@.len(),
    ensures
        final(d)@.len() == old(d)@.len(),
        children_of(final(d)@, max as nat, children@.len()) == children@,
        agree(old(d)@, final(d)@, 0, 24 + 4 * max),
        agree(old(d)@, final(d)@, 24 + 4 * max + 8 * children@.len() as int, old(d)@.len() as int),
{
    let len = d.len();
    let mut i: usize = 0;
    while i < children.len()
        invariant
            len == d@.len(),
            children@.len() <= max + 1,
            32 + 12 * max <= d@.len(),
            d@.len() == old(d)@.len(),
            i <= children@.len(),
            forall|j: int| 0 <= j < i ==> #[trigger] child_at(d@, max as int, j) == children@[j],
            agree(old(d)@, d@, 0, 24 + 4 * max),
            agree(old(d)@, d@, 24 + 4 * max + 8 * i, old(d)@.len() as int),
        decreases children@.len() - i,
    {
        let ghost before = d@;
        let pos = 24 + 4 * max + 8 * i;
        write_page_id(d, pos, children[i]);
        proof {
            assert forall|j: int| 0 <= j < i implies #[trigger] child_at(d@, max as int, j) == children@[j] by {
                let p = child_pos(max as int, j);
                assert(child_at(before, max as int, j) == children@[j]);
                lemma_same_bytes(before, d@, p, 4);
                lemma_same_bytes(before, d@, p + 4, 4);
            }
            lemma_agree_trans(old(d)@, before, d@, 0, 24 + 4 * max, 0, 24 + 4 * max, 0, pos as int);
            lemma_agree_trans(old(d)@, before, d@, pos + 8, d@.len() as int, pos as int, d@.len() as int, pos + 8, d@.len() as int);
        }
        i += 1;
    }
    proof {
        assert(children_of(d@, max as nat, children@.len()) =~= children@);
    }
}

impl LeafNode {
    /// The leaf whose header the page holds.
    pub fn from_page(d: &Vec<u8>) -> (r: Self)
        requires
            d@.len() >= 24,
        ensures
            r.header == node_header_of(d@),
    {
        LeafNode { header: read_node_header(d) }
    }

    /// All key slots of the leaf, as many as it was laid out for.
    pub fn keys(&self, d: &Vec<u8>) -> (r: Vec<i32>)
        requires
            leaf_fits(self.header.max_keys as nat, d@.len()),
        ensures
            r@ == keys_of(d@, self.header.max_keys as nat),
    {
        read_keys(d, self.header.max_keys as usize)
    }

    /// All value slots of the leaf, as many as it was laid out for.
    pub fn values(&self, d: &Vec<u8>) -> (r: Vec<CTID>)
        requires
            leaf_fits(self.header.max_keys as nat, d@.len()),
        ensures
            r@ == values_of(d@, self.header.max_keys as nat, self.header.max_keys as nat),
    {
        let m = self.header.max_keys as usize;
        read_values(d, m, m)
    }
}

impl InternalNode {
    /// The internal node whose header the page holds.
    pub fn from_page(d: &Vec<u8>) -> (r: Self)
        requires
            d@.len() >= 24,
        ensures
            r.header == node_header_of(d@),
    {
        InternalNode { header: read_node_header(d) }
    }

    /// All key slots of the node, as many as it was laid out for.
    pub fn keys(&self, d: &Vec<u8>) -> (r: Vec<i32>)
        requires
            internal_fits(self.header.max_keys as nat, d@.len()),
        ensures
            r@ == keys_of(d@, self.header.max_keys as nat),
    {
        read_keys(d, self.header.max_keys as usize)
    }

    /// All child slots of the node: one more than its key slots.
    pub fn children(&self, d: &Vec<u8>) -> (r: Vec<PageId>)
        requires
            internal_fits(self.header.max_keys as nat, d@.len()),
        ensures
            r@ == children_of(d@, self.header.max_keys as nat, self.header.max_keys as nat + 1),
    {
        let m = self.header.max_keys as usize;
        read_children(d, m, m + 1)
    }
}

/// Pages that agree on the first 24 bytes hold the same node header.
pub proof fn lemma_header_agree(a: Seq<u8>, b: Seq<u8>)
    requires
        a.len() >= 24,
        b.len() == a.len(),
        agree(a, b, 0, 24),
    ensures
        node_header_of(a) == node_header_of(b),
{
    assert(a[0] == b[0]);
    lemma_same_bytes(a, b, 2, 2);
    lemma_same_bytes(a, b, 4, 2);
    lemma_same_bytes(a, b, 8, 4);
    lemma_same_bytes(a, b, 12, 4);
    lemma_same_bytes(a, b, 16, 4);
    lemma_same_bytes(a, b, 20, 4);
}

/// Pages that agree on the key slots hold the same keys.
pub proof fn lemma_keys_agree(a: Seq<u8>, b: Seq<u8>, n: nat)
    requires
        24 + 4 * n <= a.len(),
        b.len() == a.len(),
        agree(a, b, 24, 24 + 4 * n as int),
    ensures
        keys_of(a, n) == keys_of(b, n),
{
    assert forall|i: int| 0 <= i < n implies #[trigger] key_at(a, i) == key_at(b, i) by {
        lemma_same_bytes(a, b, key_pos(i), 4);
    }
    assert(keys_of(a, n) =~= keys_of(b, n));
}

/// Pages that agree on the value slots hold the same values.
pub proof fn lemma_values_agree(a: Seq<u8>, b: Seq<u8>, max: nat, n: nat)
    requires
        24 + 4 * max + 12 * n <= a.len(),
        b.len() == a.len(),
        agree(a, b, 24 + 4 * max as int, 24 + 4 * max + 12 * n as int),
    ensures
        values_of(a, max, n) == values_of(b, max, n),
{
    assert forall|i: int| 0 <= i < n implies #[trigger] value_at(a, max as int, i) == value_at(b, max as int, i) by {
        let p = value_pos(max as int, i);
        lemma_same_bytes(a, b, p, 4);
        lemma_same_bytes(a, b, p + 4, 4);
        lemma_same_bytes(a, b, p + 8, 2);
    }
    assert(values_of(a, max, n) =~= values_of(b, max, n));
}

/// Pages that agree on the child slots hold the same children.
pub proof fn lemma_children_agree(a: Seq<u8>, b: Seq<u8>, max: nat, n: nat)
    requires
        24 + 4 * max + 8 * n <= a.len(),
        b.len() == a.len(),
        agree(a, b, 24 + 4 * max as int, 24 + 4 * max + 8 * n as int),
    ensures
        children_of(a, max, n) == children_of(b, max, n),
{
    assert forall|i: int| 0 <= i < n implies #[trigger] child_at(a, max as int, i) == child_at(b, max as int, i) by {
        let p = child_pos(max as int, i);
        lemma_same_bytes(a, b, p, 4);
        lemma_same_bytes(a, b, p + 4, 4);
    }
    assert(children_of(a, max, n) =~= children_of(b, max, n));
}

} // verus!
