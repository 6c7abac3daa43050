//! The B+Tree index: integer keys mapped to tuple ids, stored in pages of one index file and
//! reached through the buffer pool.
use crate::btree_node::{
    child_at, children_of, internal_fits, internal_max_keys, invalid_page_id, key_at, keys_of, leaf_fits,
    leaf_max_keys, node_header_of, read_children, read_keys, read_node_header, read_values, spec_invalid_page_id,
    value_at, values_of, write_children, write_keys, write_node_header, write_values, BTreePageHeader, NodeType,
    lemma_header_agree, lemma_keys_agree, lemma_values_agree, lemma_children_agree,
};
use crate::page::agree;
use crate::buffer::{BufferError, BufferPoolManager, LogManager};
use crate::page::SlottedPage;
use crate::storage::{DiskManager, PageId, CTID};
use vstd::prelude::*;

verus! {

broadcast use vstd::seq_lib::group_seq_properties;

// ---------------------------------------------------------------------------
// Operations on the content of one node
// ---------------------------------------------------------------------------

/// Keys strictly increasing.
pub open spec fn sorted(s: Seq<i32>) -> bool {
    forall|i: int, j: int| 0 <= i < j < s.len() ==> s[i] < s[j]
}

/// Every key before `i` is below `key` and every key from `i` on is above it.
pub open spec fn insertion_point(s: Seq<i32>, key: i32, i: int) -> bool {
    &&& 0 <= i <= s.len()
    &&& forall|j: int| 0 <= j < i ==> s[j] < key
    &&& forall|j: int| i <= j < s.len() ==> key < s[j]
}

/// Binary search over keys: `Ok` with a position holding `key`, or `Err` with the position
/// where it would be inserted to keep increasing keys increasing.
pub fn search_keys(keys: &Vec<i32>, key: i32) -> (r: Result<usize, usize>)
    ensures
        match r {
            Ok(i) => i < keys@.len() && keys@[i as int] == key,
            Err(i) => i <= keys@.len() && (sorted(keys@) ==> insertion_point(keys@, key, i as int)),
        },
        sorted(keys@) ==> (r is Ok <==> keys@.contains(key)),
{
    let mut lo: usize = 0;
    let mut hi: usize = keys.len();
    while lo < hi
        invariant
            lo <= hi <= keys@.len(),
            sorted(keys@) ==> forall|j: int| 0 <= j < lo ==> keys@[j] < key,
            sorted(keys@) ==> forall|j: int| hi <= j < keys@.len() ==> key < keys@[j],
        decreases hi - lo,
    {
        let mid = lo + (hi - lo) / 2;
        let k = keys[mid];
        if k == key {
            return Ok(mid);
        } else if k < key {
            lo = mid + 1;
        } else {
            hi = mid;
        }
    }
    proof {
        if sorted(keys@) && keys@.contains(key) {
            let j = choose|j: int| 0 <= j < keys@.len() && keys@[j] == key;
        }
    }
    Err(lo)
}

/// The child to follow for `key` in an internal node: the number of keys not above it.
pub fn child_index(keys: &Vec<i32>, key: i32) -> (r: usize)
    ensures
        r <= keys@.len(),
        sorted(keys@) ==> (forall|j: int| 0 <= j < r ==> keys@[j] <= key) && (forall|j: int|
            r <= j < keys@.len() ==> key < keys@[j]),
{
    let n = keys.len();
    match search_keys(keys, key) {
        Ok(i) => i + 1,
        Err(i) => i,
    }
}

/// Inserting at the insertion point keeps the keys increasing.
pub proof fn lemma_insert_sorted(s: Seq<i32>, key: i32, i: int)
    requires
        sorted(s),
        insertion_point(s, key, i),
    ensures
        sorted(s.insert(i, key)),
        s.insert(i, key).to_set() == s.to_set().insert(key),
{
    let t = s.insert(i, key);
    assert forall|a: int, b: int| 0 <= a < b < t.len() implies t[a] < t[b] by {
        if b < i {
        } else if b == i {
        } else if a < i {
        } else if a == i {
        } else {
        }
    }
    assert forall|x: i32| t.to_set().contains(x) <==> s.to_set().insert(key).contains(x) by {
        if t.contains(x) {
            let k = choose|k: int| 0 <= k < t.len() && t[k] == x;
            if k < i {
                assert(s[k] == x);
            } else if k > i {
                assert(s[k - 1] == x);
            }
        }
        if s.contains(x) {
            let k = choose|k: int| 0 <= k < s.len() && s[k] == x;
            if k < i {
                assert(t[k] == x);
            } else {
                assert(t[k + 1] == x);
            }
        }
        if x == key {
            assert(t[i] == key);
        }
    }
    assert(t.to_set() =~= s.to_set().insert(key));
}

/// Removing a key keeps the keys increasing.
pub proof fn lemma_remove_sorted(s: Seq<i32>, i: int)
    requires
        sorted(s),
        0 <= i < s.len(),
    ensures
        sorted(s.remove(i)),
        !s.remove(i).contains(s[i]),
{
    let t = s.remove(i);
    assert forall|a: int, b: int| 0 <= a < b < t.len() implies t[a] < t[b] by {
        if b < i {
        } else if a < i {
            assert(t[b] == s[b + 1]);
        } else {
            assert(t[a] == s[a + 1] && t[b] == s[b + 1]);
        }
    }
    if t.contains(s[i]) {
        let k = choose|k: int| 0 <= k < t.len() && t[k] == s[i];
        if k < i {
        } else {
            assert(t[k] == s[k + 1]);
        }
    }
}

/// Increasing keys cut at `mid` give two increasing halves, every key of the left one below
/// every key of the right one.
pub proof fn lemma_split_sorted(s: Seq<i32>, mid: int)
    requires
        sorted(s),
        0 <= mid <= s.len(),
    ensures
        sorted(s.subrange(0, mid)),
        sorted(s.subrange(mid, s.len() as int)),
        forall|a: int, b: int|
            0 <= a < mid && 0 <= b < s.len() - mid ==> #[trigger] s.subrange(0, mid)[a] < #[trigger] s.subrange(
                mid,
                s.len() as int,
            )[b],
        s.subrange(0, mid) + s.subrange(mid, s.len() as int) == s,
{
    assert(s.subrange(0, mid) + s.subrange(mid, s.len() as int) =~= s);
}

/// Two increasing runs, the first entirely below the second, join into an increasing run.
pub proof fn lemma_merge_sorted(a: Seq<i32>, b: Seq<i32>)
    requires
        sorted(a),
        sorted(b),
        forall|i: int, j: int| 0 <= i < a.len() && 0 <= j < b.len() ==> a[i] < b[j],
    ensures
        sorted(a + b),
{
    let t = a + b;
    assert forall|x: int, y: int| 0 <= x < y < t.len() implies t[x] < t[y] by {
        if y < a.len() {
        } else if x < a.len() {
            assert(t[y] == b[y - a.len()]);
        } else {
            assert(t[x] == b[x - a.len()] && t[y] == b[y - a.len()]);
        }
    }
}

/// Elements `lo..hi` of a vector.
pub fn copy_slice<T: Copy>(v: &Vec<T>, lo: usize, hi: usize) -> (r: Vec<T>)
    requires
        lo <= hi <= v@.len(),
    ensures
        r@ == v@.subrange(lo as int, hi as int),
{
    let mut r: Vec<T> = Vec::new();
    let mut i = lo;
    while i < hi
        invariant
            lo <= i <= hi <= v@.len(),
            r@ == v@.subrange(lo as int, i as int),
        decreases hi - i,
    {
        r.push(v[i]);
        i += 1;
        proof {
            assert(r@ =~= v@.subrange(lo as int, i as int));
        }
    }
    r
}

/// Appends the elements of `b` to `a`.
pub fn append_all<T: Copy>(a: &mut Vec<T>, b: &Vec<T>)
    ensures
        final(a)@ == old(a)@ + b@,
{
    let mut i: usize = 0;
    while i < b.len()
        invariant
            i <= b@.len(),
            a@ == old(a)@ + b@.subrange(0, i as int),
        decreases b@.len() - i,
    {
        a.push(b[i]);
        i += 1;
        proof {
            assert(a@ =~= old(a)@ + b@.subrange(0, i as int));
        }
    }
    proof {
        assert(b@.subrange(0, b@.len() as int) =~= b@);
    }
}

// ---------------------------------------------------------------------------
// The tree over the buffer pool
// ---------------------------------------------------------------------------

/// Errors of the index.
#[derive(Debug)]
pub enum BTreeError {
    /// The buffer pool failed.
    BufferError(BufferError),
    /// The key is not in the index.
    KeyNotFound,
    /// A page on the path does not hold a valid node.
    InvalidNode,
    /// The key is already in the index.
    DuplicateKey,
    /// The index has no root yet.
    Uninitialized,
}

/// A header that describes a leaf laid out within a page of `page_size` bytes.
pub open spec fn valid_leaf(h: BTreePageHeader, page_size: nat) -> bool {
    &&& h.node_type == NodeType::Leaf.spec_tag()
    &&& leaf_fits(h.max_keys as nat, page_size)
    &&& h.num_keys <= h.max_keys
}

/// A header that describes an internal node laid out within a page of `page_size` bytes.
pub open spec fn valid_internal(h: BTreePageHeader, page_size: nat) -> bool {
    &&& h.node_type == NodeType::Internal.spec_tag()
    &&& internal_fits(h.max_keys as nat, page_size)
    &&& h.num_keys <= h.max_keys
}

/// The leaf in page bytes `d` maps `key` to `v`.
pub open spec fn leaf_maps(d: Seq<u8>, page_size: nat, key: i32, v: CTID) -> bool {
    let h = node_header_of(d);
    &&& valid_leaf(h, page_size)
    &&& exists|i: int| 0 <= i < h.num_keys && key_at(d, i) == key && value_at(d, h.max_keys as int, i) == v
}

fn is_valid_leaf(h: BTreePageHeader, page_size: usize) -> (r: bool)
    ensures
        r == valid_leaf(h, page_size as nat),
{
    h.node_type == NodeType::Leaf.tag() && page_size >= 24 && (h.max_keys as usize) <= (page_size - 24) / 16
        && h.num_keys <= h.max_keys
}

fn is_valid_internal(h: BTreePageHeader, page_size: usize) -> (r: bool)
    ensures
        r == valid_internal(h, page_size as nat),
{
    h.node_type == NodeType::Internal.tag() && page_size >= 32 && (h.max_keys as usize) <= (page_size - 32) / 12
        && h.num_keys <= h.max_keys
}

fn buffer_error(e: BufferError) -> (r: BTreeError)
    ensures
        r == BTreeError::BufferError(e),
{
    BTreeError::BufferError(e)
}

/// The page is in the pool and holds neither a leaf nor an internal node: a walk that starts
/// there cannot go on.
pub open spec fn unreadable_node<const PAGE_SIZE: usize, D: DiskManager<PAGE_SIZE>, L: LogManager>(
    pool: &BufferPoolManager<PAGE_SIZE, D, L>,
    p: PageId,
) -> bool {
    &&& pool.frame_of(p) is Some
    &&& !valid_leaf(node_header_of(pool.content(p)), PAGE_SIZE as nat)
    &&& !valid_internal(node_header_of(pool.content(p)), PAGE_SIZE as nat)
}

/// A B+Tree index whose nodes live in the pages of one index file.
#[derive(Debug)]
pub struct BTreeIndex {
    root_page_id: Option<PageId>,
    index_file_id: u32,
}

impl BTreeIndex {
    /// The root page, if the tree has one.
    pub closed spec fn root(&self) -> Option<PageId> {
        self.root_page_id
    }

    /// The file whose pages hold the nodes.
    pub closed spec fn file(&self) -> u32 {
        self.index_file_id
    }

    /// A tree with the given root (none for an empty tree) in the given index file.
    pub fn new(root_page_id: Option<PageId>, index_file_id: u32) -> (r: Self)
        ensures
            r.root() == root_page_id,
            r.file() == index_file_id,
    {
        BTreeIndex { root_page_id, index_file_id }
    }

    /// The root page, if the tree has one.
    pub fn get_root_page_id(&self) -> (r: Option<PageId>)
        ensures
            r == self.root(),
    {
        self.root_page_id
    }

    /// Walks from the root to the leaf responsible for `key`, following at each internal node
    /// the child after the keys not above `key`. The leaf is returned pinned, with its frame;
    /// an empty tree gives `None`. A walk longer than there can be pages in a file is
    /// `InvalidNode`.
    fn find_leaf_page<const PAGE_SIZE: usize, D: DiskManager<PAGE_SIZE>, L: LogManager>(
        &self,
        pool: &mut BufferPoolManager<PAGE_SIZE, D, L>,
        key: i32,
    ) -> (r: Result<Option<(usize, PageId)>, BTreeError>)
        requires
            old(pool).wf(),
        ensures
            final(pool).wf(),
            final(pool).size() == old(pool).size(),
            final(pool).has_log() == old(pool).has_log(),
            self.root() is None ==> (r matches Ok(None)) && *final(pool) == *old(pool),
            self.root() is Some ==> !(r matches Ok(None)),
            r matches Ok(Some((f, p))) ==> {
                &&& f < final(pool).size()
                &&& final(pool).frame_of(p) == Some(f as int)
                &&& valid_leaf(node_header_of(final(pool).data(f as int)), PAGE_SIZE as nat)
                &&& final(pool).desc(f as int).pin_count >= 1
                &&& old(pool).no_lost_writes() && final(pool).unsaved(f as int) && !final(pool).desc(f as int).is_dirty
                    ==> final(pool).desc(f as int).pin_count >= 2
            },
            old(pool).no_lost_writes() && r is Ok ==> final(pool).no_lost_writes(),
            old(pool).no_lost_writes() && r is Ok ==> forall|q: PageId| #[trigger] final(pool).content(q) == old(pool).content(q),
            !(r matches Err(BTreeError::KeyNotFound)),
            old(pool).io_reliable() && !old(pool).all_pinned() ==> !(r matches Err(BTreeError::BufferError(_))),
            self.root() matches Some(rp) && unreadable_node(old(pool), rp) ==> r matches Err(BTreeError::InvalidNode),
            old(pool).no_lost_writes() && self.root() is Some && route(old(pool), self.root()->0, key, route_fuel()) is Some ==> {
                let l = route(old(pool), self.root()->0, key, route_fuel())->0;
                &&& r matches Ok(Some((f, p))) ==> p == l && final(pool).data(f as int) == old(pool).content(l)
                &&& r is Ok || r matches Err(BTreeError::BufferError(_))
            },
    {
        let mut curr = match self.root_page_id {
            Some(id) => id,
            None => {
                return Ok(None);
            },
        };
        let ghost goal = route(old(pool), curr, key, route_fuel());
        let mut budget: u64 = 0x1_0000_0000;
        let ghost mut first = true;
        loop
            invariant
                first ==> curr == self.root()->0 && *pool == *old(pool) && budget > 0,
                !first ==> !(self.root() matches Some(rp) && unreadable_node(old(pool), rp)),
                pool.wf(),
                pool.size() == old(pool).size(),
                pool.has_log() == old(pool).has_log(),
                self.root() is Some,
                goal == route(old(pool), self.root()->0, key, route_fuel()),
                budget <= 0x1_0000_0000,
                old(pool).no_lost_writes() ==> pool.no_lost_writes(),
                old(pool).no_lost_writes() ==> forall|q: PageId| #[trigger] pool.content(q) == old(pool).content(q),
                old(pool).no_lost_writes() && goal is Some ==> route(old(pool), curr, key, budget as nat) == goal,
                old(pool).io_reliable() && !old(pool).all_pinned() ==> pool.io_reliable() && !pool.all_pinned(),
            decreases budget,
        {
            if budget == 0 {
                return Err(BTreeError::InvalidNode);
            }
            budget = budget - 1;
            let ghost before = *pool;
            let frame = match pool.fetch_page(curr) {
                Ok(f) => f,
                Err(e) => {
                    return Err(buffer_error(e));
                },
            };
            let ghost fetched = *pool;
            let page = pool.read_page(frame);
            let ghost d = page.data@;
            proof {
                if old(pool).no_lost_writes() {
                    assert(d == before.content(curr));
                    assert(before.content(curr) == old(pool).content(curr));
                }
                if first {
                    before.lemma_content_in_pool(curr);
                    if before.frame_of(curr) is Some {
                        assert(d == before.content(curr));
                    }
                }
            }
            if page.data.len() < 24 {
                return Err(BTreeError::InvalidNode);
            }
            let h = read_node_header(&page.data);
            if is_valid_leaf(h, PAGE_SIZE) {
                return Ok(Some((frame, curr)));
            } else if !is_valid_internal(h, PAGE_SIZE) {
                return Err(BTreeError::InvalidNode);
            }
            let n = h.num_keys as usize;
            let m = h.max_keys as usize;
            let keys = read_keys(&page.data, n);
            let idx = child_index(&keys, key);
            let children = read_children(&page.data, m, idx + 1);
            let next = children[idx];
            proof {
                if old(pool).no_lost_writes() && goal is Some {
                    assert(sorted(keys@));
                    lemma_split_point(keys@, key, idx as int);
                    assert(next == child_at(d, m as int, idx as int));
                }
            }
            match pool.unpin_page(curr, false) {
                Ok(()) => {},
                Err(e) => {
                    return Err(buffer_error(e));
                },
            }
            proof {
                if before.io_reliable() && !before.all_pinned() {
                    let g = choose|g: int| 0 <= g < before.size() && !(#[trigger] before.occupied(g) && before.desc(g).pin_count > 0);
                    if g != frame as int {
                        assert(fetched.desc(g) == before.desc(g));
                        assert(pool.desc(g) == fetched.desc(g));
                    } else {
                        before.lemma_frame_of(curr);
                        assert(fetched.desc(g).pin_count == 1);
                        assert(pool.desc(g).pin_count == 0);
                    }
                    assert(!(pool.occupied(g) && pool.desc(g).pin_count > 0));
                    assert(pool.size() == before.size());
                    assert(fetched.io_reliable());
                    assert(pool.io_reliable());
                    assert(0 <= g < pool.size());
                    pool.lemma_free_frame(g);
                }
                if first {
                    old(pool).lemma_content_in_pool(curr);
                }
                first = false;
            }
            curr = next;
        }
    }
}

/// The frame holds a leaf whose header, keys and values are the given ones.
pub open spec fn holds_leaf(d: Seq<u8>, h: BTreePageHeader, keys: Seq<i32>, vals: Seq<CTID>) -> bool {
    &&& node_header_of(d) == h
    &&& keys_of(d, h.num_keys as nat) == keys
    &&& values_of(d, h.max_keys as nat, h.num_keys as nat) == vals
}

/// The frame holds an internal node whose header, keys and children are the given ones.
pub open spec fn holds_internal(d: Seq<u8>, h: BTreePageHeader, keys: Seq<i32>, children: Seq<PageId>) -> bool {
    &&& node_header_of(d) == h
    &&& keys_of(d, h.num_keys as nat) == keys
    &&& children_of(d, h.max_keys as nat, h.num_keys as nat + 1) == children
}

/// Only frame `f`'s bytes changed between two pool states.
pub open spec fn only_bytes_of<const PAGE_SIZE: usize, D: DiskManager<PAGE_SIZE>, L: LogManager>(
    new: &BufferPoolManager<PAGE_SIZE, D, L>,
    old: &BufferPoolManager<PAGE_SIZE, D, L>,
    f: int,
) -> bool {
    &&& new.wf()
    &&& new.size() == old.size()
    &&& new.has_log() == old.has_log()
    &&& new.disk_modeled() == old.disk_modeled()
    &&& forall|g: int| 0 <= g < old.size() ==> #[trigger] new.desc(g) == old.desc(g)
    &&& forall|g: int| 0 <= g < old.size() && g != f ==> #[trigger] new.data(g) == old.data(g)
    &&& forall|p: PageId| #[trigger] new.frame_of(p) == old.frame_of(p)
}

/// Writes a leaf into a frame: header, keys and values; other bytes stay.
fn store_leaf<const PAGE_SIZE: usize, D: DiskManager<PAGE_SIZE>, L: LogManager>(
    pool: &mut BufferPoolManager<PAGE_SIZE, D, L>,
    f: usize,
    h: BTreePageHeader,
    keys: &Vec<i32>,
    vals: &Vec<CTID>,
)
    requires
        old(pool).wf(),
        f < old(pool).size(),
        valid_leaf(h, PAGE_SIZE as nat),
        keys@.len() == h.num_keys,
        vals@.len() == h.num_keys,
    ensures
        only_bytes_of(final(pool), old(pool), f as int),
        holds_leaf(final(pool).data(f as int), h, keys@, vals@),
        forall|q: PageId| #[trigger] final(pool).content(q) == if old(pool).frame_of(q) == Some(f as int) {
            final(pool).data(f as int)
        } else {
            old(pool).content(q)
        },
        final(pool).unsaved(f as int),
        forall|g: int| g != f ==> #[trigger] final(pool).unsaved(g) == old(pool).unsaved(g),
{
    proof {
        old(pool).lemma_page_size();
    }
    let mut d = pool.read_page(f).data.clone();
    proof {
        assert(d@ =~= old(pool).data(f as int));
    }
    write_node_header(&mut d, h);
    let ghost d1 = d@;
    write_keys(&mut d, keys);
    let ghost d2 = d@;
    write_values(&mut d, h.max_keys as usize, vals);
    proof {
        lemma_header_agree(d1, d2);
        lemma_header_agree(d2, d@);
        lemma_keys_agree(d2, d@, h.num_keys as nat);
    }
    pool.write_page(f, SlottedPage { data: d });
}

/// Writes an internal node into a frame: header, keys and children; other bytes stay.
fn store_internal<const PAGE_SIZE: usize, D: DiskManager<PAGE_SIZE>, L: LogManager>(
    pool: &mut BufferPoolManager<PAGE_SIZE, D, L>,
    f: usize,
    h: BTreePageHeader,
    keys: &Vec<i32>,
    children: &Vec<PageId>,
)
    requires
        old(pool).wf(),
        f < old(pool).size(),
        valid_internal(h, PAGE_SIZE as nat),
        keys@.len() == h.num_keys,
        children@.len() == h.num_keys + 1,
    ensures
        only_bytes_of(final(pool), old(pool), f as int),
        holds_internal(final(pool).data(f as int), h, keys@, children@),
        forall|q: PageId| #[trigger] final(pool).content(q) == if old(pool).frame_of(q) == Some(f as int) {
            final(pool).data(f as int)
        } else {
            old(pool).content(q)
        },
        final(pool).unsaved(f as int),
        forall|g: int| g != f ==> #[trigger] final(pool).unsaved(g) == old(pool).unsaved(g),
{
    proof {
        old(pool).lemma_page_size();
    }
    let mut d = pool.read_page(f).data.clone();
    proof {
        assert(d@ =~= old(pool).data(f as int));
    }
    write_node_header(&mut d, h);
    let ghost d1 = d@;
    write_keys(&mut d, keys);
    let ghost d2 = d@;
    write_children(&mut d, h.max_keys as usize, children);
    proof {
        lemma_header_agree(d1, d2);
        lemma_header_agree(d2, d@);
        lemma_keys_agree(d2, d@, h.num_keys as nat);
    }
    pool.write_page(f, SlottedPage { data: d });
}

/// Writes only a node header into a frame.
fn store_header<const PAGE_SIZE: usize, D: DiskManager<PAGE_SIZE>, L: LogManager>(
    pool: &mut BufferPoolManager<PAGE_SIZE, D, L>,
    f: usize,
    h: BTreePageHeader,
)
    requires
        old(pool).wf(),
        f < old(pool).size(),
        24 <= PAGE_SIZE,
    ensures
        only_bytes_of(final(pool), old(pool), f as int),
        node_header_of(final(pool).data(f as int)) == h,
        agree(old(pool).data(f as int), final(pool).data(f as int), 24, PAGE_SIZE as int),
        forall|q: PageId| #[trigger] final(pool).content(q) == if old(pool).frame_of(q) == Some(f as int) {
            final(pool).data(f as int)
        } else {
            old(pool).content(q)
        },
        final(pool).unsaved(f as int),
        forall|g: int| g != f ==> #[trigger] final(pool).unsaved(g) == old(pool).unsaved(g),
{
    proof {
        old(pool).lemma_page_size();
    }
    let mut d = pool.read_page(f).data.clone();
    proof {
        assert(d@ =~= old(pool).data(f as int));
    }
    write_node_header(&mut d, h);
    pool.write_page(f, SlottedPage { data: d });
}

/// The pool is still sound and of the same shape.
pub open spec fn pool_kept<const PAGE_SIZE: usize, D: DiskManager<PAGE_SIZE>, L: LogManager>(
    new: &BufferPoolManager<PAGE_SIZE, D, L>,
    old: &BufferPoolManager<PAGE_SIZE, D, L>,
) -> bool {
    &&& new.wf()
    &&& new.size() == old.size()
    &&& new.has_log() == old.has_log()
}

/// Some frame of the pool holds a leaf mapping `key` to `v`.
pub open spec fn in_some_leaf<const PAGE_SIZE: usize, D: DiskManager<PAGE_SIZE>, L: LogManager>(
    pool: &BufferPoolManager<PAGE_SIZE, D, L>,
    key: i32,
    v: CTID,
) -> bool {
    exists|f: int| 0 <= f < pool.size() && #[trigger] leaf_maps(pool.data(f), PAGE_SIZE as nat, key, v)
}

/// The leaves from `l` on, following next-leaf links: `l` and the leaves after it, ending at
/// a leaf whose link is the invalid page; nothing when a page on the way is not a leaf or more
/// than `fuel` leaves would be needed.
pub open spec fn leaf_chain<const PAGE_SIZE: usize, D: DiskManager<PAGE_SIZE>, L: LogManager>(
    pool: &BufferPoolManager<PAGE_SIZE, D, L>,
    l: PageId,
    fuel: nat,
) -> Option<Seq<PageId>>
    decreases fuel,
{
    if fuel == 0 {
        None
    } else {
        let d = pool.content(l);
        let h = node_header_of(d);
        if d.len() != PAGE_SIZE || !valid_leaf(h, PAGE_SIZE as nat) {
            None
        } else if h.next_page_id == spec_invalid_page_id() {
            Some(seq![l])
        } else {
            match leaf_chain(pool, h.next_page_id, (fuel - 1) as nat) {
                Some(rest) => Some(seq![l] + rest),
                None => None,
            }
        }
    }
}

/// The keys of the leaves, leaf after leaf.
pub open spec fn chain_keys<const PAGE_SIZE: usize, D: DiskManager<PAGE_SIZE>, L: LogManager>(
    pool: &BufferPoolManager<PAGE_SIZE, D, L>,
    ls: Seq<PageId>,
) -> Seq<i32>
    decreases ls.len(),
{
    if ls.len() == 0 {
        Seq::empty()
    } else {
        let d = pool.content(ls[0]);
        keys_of(d, node_header_of(d).num_keys as nat) + chain_keys(pool, ls.drop_first())
    }
}

/// The values of the leaves, leaf after leaf, each at the place of its key in [`chain_keys`].
pub open spec fn chain_vals<const PAGE_SIZE: usize, D: DiskManager<PAGE_SIZE>, L: LogManager>(
    pool: &BufferPoolManager<PAGE_SIZE, D, L>,
    ls: Seq<PageId>,
) -> Seq<CTID>
    decreases ls.len(),
{
    if ls.len() == 0 {
        Seq::empty()
    } else {
        let d = pool.content(ls[0]);
        let h = node_header_of(d);
        values_of(d, h.max_keys as nat, h.num_keys as nat) + chain_vals(pool, ls.drop_first())
    }
}

/// Every key in `[start, end]` held by the leaves from `l` on has its value in `found`, when
/// those leaves form a chain whose keys increase from leaf to leaf.
pub open spec fn range_covered<const PAGE_SIZE: usize, D: DiskManager<PAGE_SIZE>, L: LogManager>(
    pool: &BufferPoolManager<PAGE_SIZE, D, L>,
    l: PageId,
    start: i32,
    end: i32,
    found: Seq<CTID>,
) -> bool {
    match leaf_chain(pool, l, MAX_STEPS as nat) {
        Some(ls) => sorted(chain_keys(pool, ls)) ==> forall|t: int|
            0 <= t < chain_keys(pool, ls).len() && start <= #[trigger] chain_keys(pool, ls)[t] <= end ==> found.contains(
                chain_vals(pool, ls)[t],
            ),
        None => true,
    }
}

/// The keys and values of the leaves line up.
proof fn lemma_chain_lens<const PAGE_SIZE: usize, D: DiskManager<PAGE_SIZE>, L: LogManager>(
    pool: &BufferPoolManager<PAGE_SIZE, D, L>,
    ls: Seq<PageId>,
)
    ensures
        chain_keys(pool, ls).len() == chain_vals(pool, ls).len(),
    decreases ls.len(),
{
    if ls.len() > 0 {
        lemma_chain_lens(pool, ls.drop_first());
    }
}

/// Some page of the pool, as it reads, holds a leaf mapping a key in `[start, end]` to `v`.
pub open spec fn found_in_range<const PAGE_SIZE: usize, D: DiskManager<PAGE_SIZE>, L: LogManager>(
    pool: &BufferPoolManager<PAGE_SIZE, D, L>,
    start: i32,
    end: i32,
    v: CTID,
) -> bool {
    exists|p: PageId, k: i32| start <= k <= end && #[trigger] leaf_maps(pool.content(p), PAGE_SIZE as nat, k, v)
}

/// Where an internal node with increasing keys sends `key`: the child after the keys that are
/// not above it.
pub open spec fn split_point(keys: Seq<i32>, key: i32) -> int {
    choose|r: int| #[trigger] splits_at(keys, key, r)
}

/// The keys before position `r` are not above `key` and the keys from `r` on are.
pub open spec fn splits_at(keys: Seq<i32>, key: i32, r: int) -> bool {
    &&& 0 <= r <= keys.len()
    &&& forall|j: int| 0 <= j < r ==> keys[j] <= key
    &&& forall|j: int| r <= j < keys.len() ==> key < keys[j]
}

/// For increasing keys the position after the keys not above `key` is the split point.
pub proof fn lemma_split_point(keys: Seq<i32>, key: i32, r: int)
    requires
        sorted(keys),
        0 <= r <= keys.len(),
        forall|j: int| 0 <= j < r ==> keys[j] <= key,
        forall|j: int| r <= j < keys.len() ==> key < keys[j],
    ensures
        split_point(keys, key) == r,
{
    assert(splits_at(keys, key, r));
    let c = split_point(keys, key);
    assert(splits_at(keys, key, c));
    if c < r {
        assert(keys[c] <= key);
    } else if c > r {
        assert(key < keys[r]);
    }
}

/// The leaf a search for `key` reaches from page `p` within `fuel` steps, reading every page
/// as the pool shows it, when each node on the way is well formed and keeps its keys
/// increasing.
pub open spec fn route<const PAGE_SIZE: usize, D: DiskManager<PAGE_SIZE>, L: LogManager>(
    pool: &BufferPoolManager<PAGE_SIZE, D, L>,
    p: PageId,
    key: i32,
    fuel: nat,
) -> Option<PageId>
    decreases fuel,
{
    if fuel == 0 {
        None
    } else {
        let d = pool.content(p);
        let h = node_header_of(d);
        if d.len() != PAGE_SIZE {
            None
        } else if valid_leaf(h, PAGE_SIZE as nat) {
            Some(p)
        } else if valid_internal(h, PAGE_SIZE as nat) && sorted(keys_of(d, h.num_keys as nat)) {
            route(
                pool,
                child_at(d, h.max_keys as int, split_point(keys_of(d, h.num_keys as nat), key)),
                key,
                (fuel - 1) as nat,
            )
        } else {
            None
        }
    }
}

/// The keys a leaf stores.
pub open spec fn leaf_keys(d: Seq<u8>) -> Seq<i32> {
    keys_of(d, node_header_of(d).num_keys as nat)
}

/// What a leaf stores for `key`: the value beside the key, when the leaf holds it.
pub open spec fn leaf_lookup(d: Seq<u8>, key: i32) -> Option<CTID> {
    let n = node_header_of(d).num_keys as int;
    if exists|i: int| 0 <= i < n && #[trigger] key_at(d, i) == key {
        Some(value_at(d, node_header_of(d).max_keys as int, choose|i: int| 0 <= i < n && #[trigger] key_at(d, i) == key))
    } else {
        None
    }
}

/// With increasing keys, the position a search finds is the one the lookup means.
proof fn lemma_leaf_lookup_at(d: Seq<u8>, key: i32, i: int)
    requires
        sorted(leaf_keys(d)),
        0 <= i < node_header_of(d).num_keys,
        key_at(d, i) == key,
    ensures
        leaf_lookup(d, key) == Some(value_at(d, node_header_of(d).max_keys as int, i)),
{
    let n = node_header_of(d).num_keys as int;
    let c = choose|j: int| 0 <= j < n && #[trigger] key_at(d, j) == key;
    assert(0 <= c < n && key_at(d, c) == key);
    if c != i {
        assert(leaf_keys(d)[c] == key_at(d, c));
        assert(leaf_keys(d)[i] == key_at(d, i));
    }
}

/// What inserting `key` with `value` into the tree did to the leaf `l` that is responsible for
/// the key, when that leaf keeps its keys increasing: a key it already holds is refused and
/// nothing changes; a key it lacks, when it has room, goes in at its place, with every other
/// page as it was. Only a buffer pool failure stops either.
pub open spec fn inserted_into_leaf<const PAGE_SIZE: usize, D: DiskManager<PAGE_SIZE>, L: LogManager>(
    s0: BufferPoolManager<PAGE_SIZE, D, L>,
    s1: BufferPoolManager<PAGE_SIZE, D, L>,
    l: PageId,
    key: i32,
    value: CTID,
    r: Result<(), BTreeError>,
) -> bool {
    let d = s0.content(l);
    let h = node_header_of(d);
    let keys = keys_of(d, h.num_keys as nat);
    let vals = values_of(d, h.max_keys as nat, h.num_keys as nat);
    sorted(keys) ==> {
        &&& !keys.contains(key) && h.num_keys < h.max_keys ==> {
            &&& (r is Ok || r matches Err(BTreeError::BufferError(_)))
            &&& r is Ok ==> {
                &&& s1.no_lost_writes()
                &&& s1.content(l).len() == PAGE_SIZE
                &&& forall|q: PageId| q != l ==> #[trigger] s1.content(q) == s0.content(q)
                &&& exists|i: int|
                    insertion_point(keys, key, i) && holds_leaf(
                        #[trigger] s1.content(l),
                        BTreePageHeader { num_keys: (h.num_keys + 1) as u16, ..h },
                        keys.insert(i, key),
                        vals.insert(i, value),
                    )
            }
        }
        &&& keys.contains(key) ==> (r matches Err(BTreeError::DuplicateKey) || r matches Err(BTreeError::BufferError(_)))
    }
}

/// The leaf `l` lost `key`: where its bytes in `s0` list it, they now list the same pairs
/// without it, under the same header with one key fewer; no other page changed and every write
/// is held.
pub open spec fn leaf_lost_key<const PAGE_SIZE: usize, D: DiskManager<PAGE_SIZE>, L: LogManager>(
    s0: BufferPoolManager<PAGE_SIZE, D, L>,
    s1: BufferPoolManager<PAGE_SIZE, D, L>,
    l: PageId,
    key: i32,
) -> bool {
    let d = s0.content(l);
    let h = node_header_of(d);
    let keys = keys_of(d, h.num_keys as nat);
    let vals = values_of(d, h.max_keys as nat, h.num_keys as nat);
    &&& s1.no_lost_writes()
    &&& s1.content(l).len() == PAGE_SIZE
    &&& forall|q: PageId| q != l ==> #[trigger] s1.content(q) == s0.content(q)
    &&& exists|i: int|
        0 <= i < keys.len() && keys[i] == key && holds_leaf(
            #[trigger] s1.content(l),
            BTreePageHeader { num_keys: (h.num_keys - 1) as u16, ..h },
            keys.remove(i),
            vals.remove(i),
        )
}

/// What deleting `key` does to the leaf `l` a search for it reaches, when that leaf keeps its
/// keys increasing: a key it lacks gives `KeyNotFound`; a key it holds is removed with its value,
/// every other page as it was; when the leaf (not the root) is then left under half full, the
/// merge with a sibling under the parent its header names follows on that state. Only a
/// buffer pool failure, also reported as `KeyNotFound`, stops it.
pub open spec fn deleted_from_leaf<const PAGE_SIZE: usize, D: DiskManager<PAGE_SIZE>, L: LogManager>(
    s0: BufferPoolManager<PAGE_SIZE, D, L>,
    s1: BufferPoolManager<PAGE_SIZE, D, L>,
    l: PageId,
    root: PageId,
    key: i32,
    r: Result<(), crate::btree_node::BTreeError>,
) -> bool {
    let d = s0.content(l);
    let h = node_header_of(d);
    let keys = keys_of(d, h.num_keys as nat);
    sorted(keys) ==> {
        &&& (!keys.contains(key) ==> r matches Err(crate::btree_node::BTreeError::KeyNotFound))
        &&& (keys.contains(key) ==> (r is Ok || r matches Err(crate::btree_node::BTreeError::KeyNotFound)))
        &&& keys.contains(key) && r is Ok && (l == root || h.num_keys - 1 >= h.max_keys / 2) ==> leaf_lost_key(
            s0,
            s1,
            l,
            key,
        )
        &&& keys.contains(key) && r is Ok && !(l == root || h.num_keys - 1 >= h.max_keys / 2) ==> exists|
            mid: BufferPoolManager<PAGE_SIZE, D, L>,
            rm: Result<(), crate::btree_node::BTreeError>,
        | #[trigger] lost_then_merged(s0, mid, s1, l, key, h.parent_page_id, rm)
    }
}

/// The leaf `l` lost `key` from `s0` to `mid`, and from `mid` to `s1` the merge of `l` under
/// `parent` (with result `rm`) did what it does where the parent is held and internal.
pub open spec fn lost_then_merged<const PAGE_SIZE: usize, D: DiskManager<PAGE_SIZE>, L: LogManager>(
    s0: BufferPoolManager<PAGE_SIZE, D, L>,
    mid: BufferPoolManager<PAGE_SIZE, D, L>,
    s1: BufferPoolManager<PAGE_SIZE, D, L>,
    l: PageId,
    key: i32,
    parent: PageId,
    rm: Result<(), crate::btree_node::BTreeError>,
) -> bool {
    &&& leaf_lost_key(s0, mid, l, key)
    &&& mid.frame_of(parent) is Some && valid_internal(node_header_of(mid.content(parent)), PAGE_SIZE as nat)
        ==> merge_outcome(mid, s1, l, parent, rm)
}

/// `k` is the first position of `x` in `s`.
pub open spec fn first_at<T>(s: Seq<T>, x: T, k: int) -> bool {
    &&& 0 <= k < s.len()
    &&& s[k] == x
    &&& forall|j: int| 0 <= j < k ==> s[j] != x
}

/// What merging the leaf `leaf` under `parent` does, when the parent is an internal node that
/// lists the leaf (first at position `k`) and the leaf and its sibling (the child before it, or
/// after it for the first child) are distinct leaves held in the pool: when their pairs fit in
/// one node, the left one holds its pairs followed by the right one's and takes over the right
/// one's next-leaf link, and the parent loses the right child and the key before it, every
/// other page as it was; when they do not fit, or the leaf has no sibling, nothing changes.
pub open spec fn merge_outcome<const PAGE_SIZE: usize, D: DiskManager<PAGE_SIZE>, L: LogManager>(
    s0: BufferPoolManager<PAGE_SIZE, D, L>,
    s1: BufferPoolManager<PAGE_SIZE, D, L>,
    leaf: PageId,
    parent: PageId,
    r: Result<(), crate::btree_node::BTreeError>,
) -> bool {
    let d = s0.content(parent);
    let h = node_header_of(d);
    let n = h.num_keys as int;
    let children = children_of(d, h.max_keys as nat, h.num_keys as nat + 1);
    forall|k: int|
        #[trigger] first_at(children, leaf, k) ==> {
            let sb = if k > 0 { k - 1 } else { k + 1 };
            let del = if k > 0 { k } else { k + 1 };
            let left = children[del - 1];
            let right = children[del];
            let dl = s0.content(left);
            let dr = s0.content(right);
            let lh = node_header_of(dl);
            let rh = node_header_of(dr);
            &&& sb > n ==> r is Ok && s1.no_lost_writes() && forall|q: PageId| #[trigger] s1.content(q) == s0.content(q)
            &&& sb <= n && left != right && left != parent && right != parent && s0.frame_of(left) is Some
                && s0.frame_of(right) is Some && valid_leaf(lh, PAGE_SIZE as nat) && valid_leaf(rh, PAGE_SIZE as nat) ==> {
                &&& r is Ok
                &&& s1.no_lost_writes()
                &&& lh.num_keys + rh.num_keys > lh.max_keys ==> forall|q: PageId| #[trigger] s1.content(q) == s0.content(q)
                &&& lh.num_keys + rh.num_keys <= lh.max_keys ==> {
                    &&& holds_leaf(
                        s1.content(left),
                        BTreePageHeader { num_keys: (lh.num_keys + rh.num_keys) as u16, next_page_id: rh.next_page_id, ..lh },
                        keys_of(dl, lh.num_keys as nat) + keys_of(dr, rh.num_keys as nat),
                        values_of(dl, lh.max_keys as nat, lh.num_keys as nat) + values_of(dr, rh.max_keys as nat, rh.num_keys as nat),
                    )
                    &&& holds_internal(
                        s1.content(parent),
                        BTreePageHeader { num_keys: (h.num_keys - 1) as u16, ..h },
                        keys_of(d, h.num_keys as nat).remove(del - 1),
                        children.remove(del),
                    )
                    &&& forall|q: PageId| q != left && q != parent ==> #[trigger] s1.content(q) == s0.content(q)
                }
            }
        }
}

/// The merge case of [`merge_outcome`], once its effect is shown for the leaf's first
/// position `k`.
proof fn lemma_merge_outcome_merged<const PAGE_SIZE: usize, D: DiskManager<PAGE_SIZE>, L: LogManager>(
    s0: BufferPoolManager<PAGE_SIZE, D, L>,
    s1: BufferPoolManager<PAGE_SIZE, D, L>,
    leaf: PageId,
    parent: PageId,
    k: int,
)
    requires
        ({
            let d = s0.content(parent);
            let h = node_header_of(d);
            let children = children_of(d, h.max_keys as nat, h.num_keys as nat + 1);
            let del = if k > 0 { k } else { k + 1 };
            let left = children[del - 1];
            let right = children[del];
            let dl = s0.content(left);
            let dr = s0.content(right);
            let lh = node_header_of(dl);
            let rh = node_header_of(dr);
            &&& first_at(children, leaf, k)
            &&& (if k > 0 { k - 1 } else { k + 1 }) <= h.num_keys
            &&& s1.no_lost_writes()
            &&& lh.num_keys + rh.num_keys <= lh.max_keys
            &&& holds_leaf(
                s1.content(left),
                BTreePageHeader { num_keys: (lh.num_keys + rh.num_keys) as u16, next_page_id: rh.next_page_id, ..lh },
                keys_of(dl, lh.num_keys as nat) + keys_of(dr, rh.num_keys as nat),
                values_of(dl, lh.max_keys as nat, lh.num_keys as nat) + values_of(dr, rh.max_keys as nat, rh.num_keys as nat),
            )
            &&& holds_internal(
                s1.content(parent),
                BTreePageHeader { num_keys: (h.num_keys - 1) as u16, ..h },
                keys_of(d, h.num_keys as nat).remove(del - 1),
                children.remove(del),
            )
            &&& forall|q: PageId| q != left && q != parent ==> #[trigger] s1.content(q) == s0.content(q)
        }),
    ensures
        merge_outcome(s0, s1, leaf, parent, Ok::<(), crate::btree_node::BTreeError>(())),
{
    let d = s0.content(parent);
    let h = node_header_of(d);
    let children = children_of(d, h.max_keys as nat, h.num_keys as nat + 1);
    assert forall|j: int| #[trigger] first_at(children, leaf, j) implies j == k by {
        if j < k {
            assert(children[j] != leaf);
        } else if j > k {
            assert(children[k] == leaf);
        }
    }
}

/// The page is a well-formed leaf that holds exactly one key, `key`, with `value`.
pub open spec fn sole_pair_leaf(d: Seq<u8>, key: i32, value: CTID) -> bool {
    &&& valid_leaf(node_header_of(d), d.len())
    &&& leaf_keys(d) == seq![key]
    &&& leaf_lookup(d, key) == Some(value)
}

/// What the tree rooted at `root` maps `key` to in the pool: the lookup in the leaf a search
/// for the key reaches; nothing when no leaf is reached.
pub open spec fn tree_lookup<const PAGE_SIZE: usize, D: DiskManager<PAGE_SIZE>, L: LogManager>(
    pool: BufferPoolManager<PAGE_SIZE, D, L>,
    root: PageId,
    key: i32,
) -> Option<CTID> {
    match route(&pool, root, key, route_fuel()) {
        Some(l) => leaf_lookup(pool.content(l), key),
        None => None,
    }
}

/// What keys and values side by side map `k` to.
pub open spec fn pairs_lookup(keys: Seq<i32>, vals: Seq<CTID>, k: i32) -> Option<CTID> {
    if exists|i: int| 0 <= i < keys.len() && #[trigger] keys[i] == k {
        Some(vals[choose|i: int| 0 <= i < keys.len() && #[trigger] keys[i] == k])
    } else {
        None
    }
}

/// A leaf with increasing keys maps a key as its keys and values side by side do.
proof fn lemma_leaf_lookup_pairs(d: Seq<u8>, h: BTreePageHeader, keys: Seq<i32>, vals: Seq<CTID>, k: i32)
    requires
        holds_leaf(d, h, keys, vals),
        sorted(keys),
    ensures
        leaf_lookup(d, k) == pairs_lookup(keys, vals, k),
{
    let n = h.num_keys as int;
    assert(keys.len() == n);
    if exists|i: int| 0 <= i < n && #[trigger] key_at(d, i) == k {
        let c1 = choose|i: int| 0 <= i < n && #[trigger] key_at(d, i) == k;
        assert(keys[c1] == k);
        let c2 = choose|i: int| 0 <= i < keys.len() && #[trigger] keys[i] == k;
        assert(keys[c2] == key_at(d, c2));
        if c1 < c2 {
            assert(keys[c1] < keys[c2]);
        } else if c2 < c1 {
            assert(keys[c2] < keys[c1]);
        }
        assert(vals[c2] == value_at(d, h.max_keys as int, c2));
    } else {
        if exists|i: int| 0 <= i < keys.len() && #[trigger] keys[i] == k {
            let c2 = choose|i: int| 0 <= i < keys.len() && #[trigger] keys[i] == k;
            assert(key_at(d, c2) == keys[c2]);
        }
    }
}

/// Inserting a pair at its place keeps the keys increasing; the key then maps to its value and
/// every other key as before.
proof fn lemma_pairs_insert(keys: Seq<i32>, vals: Seq<CTID>, key: i32, v: CTID, i: int, k: i32)
    requires
        sorted(keys),
        keys.len() == vals.len(),
        insertion_point(keys, key, i),
    ensures
        sorted(keys.insert(i, key)),
        pairs_lookup(keys.insert(i, key), vals.insert(i, v), k) == if k == key {
            Some(v)
        } else {
            pairs_lookup(keys, vals, k)
        },
{
    let nk = keys.insert(i, key);
    let nv = vals.insert(i, v);
    assert forall|a: int, b: int| 0 <= a < b < nk.len() implies nk[a] < nk[b] by {
        if b < i {
        } else if b == i {
        } else if a < i {
        } else if a == i {
        } else {
        }
    }
    if k == key {
        assert(nk[i] == key);
        let c = choose|j: int| 0 <= j < nk.len() && #[trigger] nk[j] == k;
        if c < i {
            assert(nk[c] < nk[i]);
        } else if c > i {
            assert(nk[i] < nk[c]);
        }
    } else {
        if exists|j: int| 0 <= j < keys.len() && #[trigger] keys[j] == k {
            let c = choose|j: int| 0 <= j < keys.len() && #[trigger] keys[j] == k;
            let c2 = if c < i { c } else { c + 1 };
            assert(nk[c2] == k);
            let d = choose|j: int| 0 <= j < nk.len() && #[trigger] nk[j] == k;
            if d < c2 {
                assert(nk[d] < nk[c2]);
            } else if c2 < d {
                assert(nk[c2] < nk[d]);
            }
            assert(nv[c2] == vals[c]);
        } else {
            if exists|j: int| 0 <= j < nk.len() && #[trigger] nk[j] == k {
                let d = choose|j: int| 0 <= j < nk.len() && #[trigger] nk[j] == k;
                if d < i {
                    assert(keys[d] == k);
                } else if d > i {
                    assert(keys[d - 1] == k);
                }
            }
        }
    }
}

/// Removing a pair keeps the keys increasing; its key then maps to nothing and every other key
/// as before.
proof fn lemma_pairs_remove(keys: Seq<i32>, vals: Seq<CTID>, i: int, k: i32)
    requires
        sorted(keys),
        keys.len() == vals.len(),
        0 <= i < keys.len(),
    ensures
        sorted(keys.remove(i)),
        pairs_lookup(keys.remove(i), vals.remove(i), k) == if k == keys[i] {
            None
        } else {
            pairs_lookup(keys, vals, k)
        },
{
    let nk = keys.remove(i);
    let nv = vals.remove(i);
    assert forall|a: int, b: int| 0 <= a < b < nk.len() implies nk[a] < nk[b] by {
        let a2 = if a < i { a } else { a + 1 };
        let b2 = if b < i { b } else { b + 1 };
        assert(nk[a] == keys[a2] && nk[b] == keys[b2]);
    }
    if k == keys[i] {
        if exists|j: int| 0 <= j < nk.len() && #[trigger] nk[j] == k {
            let d = choose|j: int| 0 <= j < nk.len() && #[trigger] nk[j] == k;
            let d2 = if d < i { d } else { d + 1 };
            assert(keys[d2] == k);
            if d2 < i {
                assert(keys[d2] < keys[i]);
            } else {
                assert(keys[i] < keys[d2]);
            }
        }
    } else {
        if exists|j: int| 0 <= j < keys.len() && #[trigger] keys[j] == k {
            let c = choose|j: int| 0 <= j < keys.len() && #[trigger] keys[j] == k;
            assert(c != i);
            let c2 = if c < i { c } else { c - 1 };
            assert(nk[c2] == k);
            let d = choose|j: int| 0 <= j < nk.len() && #[trigger] nk[j] == k;
            if d < c2 {
                assert(nk[d] < nk[c2]);
            } else if c2 < d {
                assert(nk[c2] < nk[d]);
            }
            assert(nv[c2] == vals[c]);
        } else {
            if exists|j: int| 0 <= j < nk.len() && #[trigger] nk[j] == k {
                let d = choose|j: int| 0 <= j < nk.len() && #[trigger] nk[j] == k;
                let d2 = if d < i { d } else { d + 1 };
                assert(keys[d2] == k);
            }
        }
    }
}

/// Replacing the bytes of one leaf page by another leaf leaves every search where it went.
proof fn lemma_route_same<const PAGE_SIZE: usize, D: DiskManager<PAGE_SIZE>, L: LogManager>(
    s0: BufferPoolManager<PAGE_SIZE, D, L>,
    s1: BufferPoolManager<PAGE_SIZE, D, L>,
    l: PageId,
    p: PageId,
    key: i32,
    fuel: nat,
)
    requires
        forall|q: PageId| q != l ==> #[trigger] s1.content(q) == s0.content(q),
        s0.content(l).len() == PAGE_SIZE,
        s1.content(l).len() == PAGE_SIZE,
        valid_leaf(node_header_of(s0.content(l)), PAGE_SIZE as nat),
        valid_leaf(node_header_of(s1.content(l)), PAGE_SIZE as nat),
    ensures
        route(&s1, p, key, fuel) == route(&s0, p, key, fuel),
    decreases fuel,
{
    if fuel > 0 && p != l {
        let d = s0.content(p);
        let h = node_header_of(d);
        assert(s1.content(p) == d);
        if d.len() == PAGE_SIZE && !valid_leaf(h, PAGE_SIZE as nat) && valid_internal(h, PAGE_SIZE as nat) && sorted(
            keys_of(d, h.num_keys as nat),
        ) {
            lemma_route_same(
                s0,
                s1,
                l,
                child_at(d, h.max_keys as int, split_point(keys_of(d, h.num_keys as nat), key)),
                key,
                (fuel - 1) as nat,
            );
        }
    }
}

/// An insert into a leaf with room changes the map the tree holds at exactly one key: a later
/// search for it finds the value inserted, and every other key maps as before.
pub proof fn lemma_insert_updates_map<const PAGE_SIZE: usize, D: DiskManager<PAGE_SIZE>, L: LogManager>(
    s0: BufferPoolManager<PAGE_SIZE, D, L>,
    s1: BufferPoolManager<PAGE_SIZE, D, L>,
    root: PageId,
    key: i32,
    value: CTID,
)
    requires
        route(&s0, root, key, route_fuel()) is Some,
        ({
            let l = route(&s0, root, key, route_fuel())->0;
            let h = node_header_of(s0.content(l));
            &&& sorted(leaf_keys(s0.content(l)))
            &&& !leaf_keys(s0.content(l)).contains(key)
            &&& h.num_keys < h.max_keys
            &&& inserted_into_leaf(s0, s1, l, key, value, Ok(()))
        }),
    ensures
        tree_lookup(s1, root, key) == Some(value),
        forall|k: i32| k != key ==> #[trigger] tree_lookup(s1, root, k) == tree_lookup(s0, root, k),
{
    let l = route(&s0, root, key, route_fuel())->0;
    lemma_route_leaf(s0, root, key, route_fuel());
    let d = s0.content(l);
    let h = node_header_of(d);
    let keys = keys_of(d, h.num_keys as nat);
    let vals = values_of(d, h.max_keys as nat, h.num_keys as nat);
    let i = choose|i: int|
        insertion_point(keys, key, i) && holds_leaf(
            #[trigger] s1.content(l),
            BTreePageHeader { num_keys: (h.num_keys + 1) as u16, ..h },
            keys.insert(i, key),
            vals.insert(i, value),
        );
    let h2 = BTreePageHeader { num_keys: (h.num_keys + 1) as u16, ..h };
    assert(valid_leaf(h2, PAGE_SIZE as nat));
    lemma_pairs_insert(keys, vals, key, value, i, key);
    lemma_route_same(s0, s1, l, root, key, route_fuel());
    lemma_leaf_lookup_pairs(s1.content(l), h2, keys.insert(i, key), vals.insert(i, value), key);
    assert forall|k: i32| k != key implies #[trigger] tree_lookup(s1, root, k) == tree_lookup(s0, root, k) by {
        lemma_route_same(s0, s1, l, root, k, route_fuel());
        if route(&s0, root, k, route_fuel()) == Some(l) {
            lemma_pairs_insert(keys, vals, key, value, i, k);
            lemma_leaf_lookup_pairs(s1.content(l), h2, keys.insert(i, key), vals.insert(i, value), k);
            lemma_leaf_lookup_pairs(d, h, keys, vals, k);
        }
    }
}

/// A delete from a leaf that is not merged afterwards changes the map the tree holds at exactly
/// one key: a later search for it finds nothing, and every other key maps as before.
pub proof fn lemma_delete_updates_map<const PAGE_SIZE: usize, D: DiskManager<PAGE_SIZE>, L: LogManager>(
    s0: BufferPoolManager<PAGE_SIZE, D, L>,
    s1: BufferPoolManager<PAGE_SIZE, D, L>,
    root: PageId,
    key: i32,
)
    requires
        route(&s0, root, key, route_fuel()) is Some,
        ({
            let l = route(&s0, root, key, route_fuel())->0;
            &&& sorted(leaf_keys(s0.content(l)))
            &&& leaf_lost_key(s0, s1, l, key)
        }),
    ensures
        tree_lookup(s1, root, key) is None,
        forall|k: i32| k != key ==> #[trigger] tree_lookup(s1, root, k) == tree_lookup(s0, root, k),
{
    let l = route(&s0, root, key, route_fuel())->0;
    lemma_route_leaf(s0, root, key, route_fuel());
    let d = s0.content(l);
    let h = node_header_of(d);
    let keys = keys_of(d, h.num_keys as nat);
    let vals = values_of(d, h.max_keys as nat, h.num_keys as nat);
    let i = choose|i: int|
        0 <= i < keys.len() && keys[i] == key && holds_leaf(
            #[trigger] s1.content(l),
            BTreePageHeader { num_keys: (h.num_keys - 1) as u16, ..h },
            keys.remove(i),
            vals.remove(i),
        );
    let h2 = BTreePageHeader { num_keys: (h.num_keys - 1) as u16, ..h };
    assert(valid_leaf(h2, PAGE_SIZE as nat));
    lemma_pairs_remove(keys, vals, i, key);
    lemma_route_same(s0, s1, l, root, key, route_fuel());
    lemma_leaf_lookup_pairs(s1.content(l), h2, keys.remove(i), vals.remove(i), key);
    assert forall|k: i32| k != key implies #[trigger] tree_lookup(s1, root, k) == tree_lookup(s0, root, k) by {
        lemma_route_same(s0, s1, l, root, k, route_fuel());
        if route(&s0, root, k, route_fuel()) == Some(l) {
            lemma_pairs_remove(keys, vals, i, k);
            lemma_leaf_lookup_pairs(s1.content(l), h2, keys.remove(i), vals.remove(i), k);
            lemma_leaf_lookup_pairs(d, h, keys, vals, k);
        }
    }
}

/// A search reaches a leaf: a whole page whose header is a leaf's.
proof fn lemma_route_leaf<const PAGE_SIZE: usize, D: DiskManager<PAGE_SIZE>, L: LogManager>(
    s: BufferPoolManager<PAGE_SIZE, D, L>,
    p: PageId,
    key: i32,
    fuel: nat,
)
    ensures
        route(&s, p, key, fuel) matches Some(l) ==> s.content(l).len() == PAGE_SIZE && valid_leaf(
            node_header_of(s.content(l)),
            PAGE_SIZE as nat,
        ),
    decreases fuel,
{
    if fuel > 0 {
        let d = s.content(p);
        let h = node_header_of(d);
        if d.len() == PAGE_SIZE && !valid_leaf(h, PAGE_SIZE as nat) && valid_internal(h, PAGE_SIZE as nat) && sorted(
            keys_of(d, h.num_keys as nat),
        ) {
            lemma_route_leaf(s, child_at(d, h.max_keys as int, split_point(keys_of(d, h.num_keys as nat), key)), key, (fuel - 1) as nat);
        }
    }
}

/// How many steps a search may take.
pub open spec fn route_fuel() -> nat {
    0x1_0000_0000
}

/// The largest tree depth or leaf chain the index follows: one step per page a file can have.
pub const MAX_STEPS: u32 = 0xffff_ffff;

impl BTreeIndex {
    /// Looks a key up: the value stored with it in the leaf responsible for it.
    pub fn search<const PAGE_SIZE: usize, D: DiskManager<PAGE_SIZE>, L: LogManager>(
        &self,
        pool: &mut BufferPoolManager<PAGE_SIZE, D, L>,
        key: i32,
    ) -> (r: Result<CTID, BTreeError>)
        requires
            old(pool).wf(),
        ensures
            pool_kept(final(pool), old(pool)),
            self.root() is None ==> (r matches Err(BTreeError::KeyNotFound)) && *final(pool) == *old(pool),
            self.root() matches Some(rp) && unreadable_node(old(pool), rp) ==> r matches Err(BTreeError::InvalidNode),
            r matches Ok(v) ==> in_some_leaf(final(pool), key, v),
            old(pool).io_reliable() && !old(pool).all_pinned() ==> !(r matches Err(BTreeError::BufferError(_))),
            old(pool).no_lost_writes() && (r is Ok || r matches Err(BTreeError::KeyNotFound)) ==> final(pool).no_lost_writes()
                && forall|q: PageId| #[trigger] final(pool).content(q) == old(pool).content(q),
            old(pool).no_lost_writes() && self.root() is Some ==> (route(old(pool), self.root()->0, key, route_fuel())
                matches Some(l) ==> (sorted(leaf_keys(old(pool).content(l))) ==> match leaf_lookup(old(pool).content(l), key) {
                Some(v) => r == Ok::<CTID, BTreeError>(v) || r matches Err(BTreeError::BufferError(_)),
                None => r matches Err(BTreeError::KeyNotFound) || r matches Err(BTreeError::BufferError(_)),
            })),
    {
        let (frame, pid) = match self.find_leaf_page(pool, key) {
            Ok(Some(x)) => x,
            Ok(None) => {
                return Err(BTreeError::KeyNotFound);
            },
            Err(e) => {
                return Err(e);
            },
        };
        let page = pool.read_page(frame);
        let h = read_node_header(&page.data);
        let n = h.num_keys as usize;
        let m = h.max_keys as usize;
        let keys = read_keys(&page.data, n);
        let found = match search_keys(&keys, key) {
            Ok(i) => {
                let vals = read_values(&page.data, m, n);
                Some((i, vals[i]))
            },
            Err(_) => None,
        };
        let ghost before = *pool;
        let ghost d0 = page.data@;
        proof {
            if old(pool).no_lost_writes() && self.root() is Some {
                if let Some(l) = route(old(pool), self.root()->0, key, route_fuel()) {
                    assert(pid == l);
                    assert(d0 == old(pool).content(l));
                    assert(keys@ == leaf_keys(d0));
                    if sorted(leaf_keys(d0)) {
                        match found {
                            Some((i, v)) => {
                                assert(value_at(d0, m as int, i as int) == v);
                                lemma_leaf_lookup_at(d0, key, i as int);
                            },
                            None => {
                                assert(!keys@.contains(key));
                                assert forall|i: int| 0 <= i < n implies #[trigger] key_at(d0, i) != key by {
                                    assert(keys@[i] == key_at(d0, i));
                                }
                            },
                        }
                    }
                }
            }
        }
        match pool.unpin_page(pid, false) {
            Ok(()) => {},
            Err(e) => {
                return Err(buffer_error(e));
            },
        }
        match found {
            Some((i, v)) => {
                proof {
                    assert(pool.data(frame as int) == before.data(frame as int));
                    let d = pool.data(frame as int);
                    assert(key_at(d, i as int) == keys@[i as int]);
                    assert(value_at(d, m as int, i as int) == v);
                    assert(leaf_maps(d, PAGE_SIZE as nat, key, v));
                    assert(0 <= frame < pool.size());
                    assert(in_some_leaf(pool, key, v));
                }
                Ok(v)
            },
            None => Err(BTreeError::KeyNotFound),
        }
    }
}

impl BTreeIndex {
    /// Inserts a key with its tuple id. An empty tree gets a root leaf holding just this pair;
    /// otherwise the pair goes into the responsible leaf, which splits when full. A key already
    /// present is `DuplicateKey`.
    pub fn insert<const PAGE_SIZE: usize, D: DiskManager<PAGE_SIZE>, L: LogManager>(
        &mut self,
        pool: &mut BufferPoolManager<PAGE_SIZE, D, L>,
        key: i32,
        value: CTID,
    ) -> (r: Result<(), BTreeError>)
        requires
            old(pool).wf(),
            44 <= PAGE_SIZE,
        ensures
            pool_kept(final(pool), old(pool)),
            final(self).file() == old(self).file(),
            old(self).root() is Some ==> final(self).root() is Some,
            r is Ok ==> final(self).root() is Some,
            old(self).root() is None && r is Ok ==> {
                &&& final(self).root() matches Some(p) && p.file_id == old(self).file()
                &&& in_some_leaf(final(pool), key, value)
                &&& sole_pair_leaf(final(pool).content(final(self).root()->0), key, value)
                &&& tree_lookup(*final(pool), final(self).root()->0, key) == Some(value)
            },
            old(pool).no_lost_writes() && old(self).root() is Some ==> (route(old(pool), old(self).root()->0, key, route_fuel())
                matches Some(l) ==> inserted_into_leaf(*old(pool), *final(pool), l, key, value, r)),
    {
        if self.root_page_id.is_none() {
            return self.create_root_and_insert(pool, key, value);
        }
        let ghost s0 = *pool;
        match self.find_leaf_page(pool, key) {
            Ok(Some((frame, pid))) => {
                let ghost s1 = *pool;
                let r = self.insert_into_leaf(pool, frame, pid, key, value);
                proof {
                    if s0.no_lost_writes() {
                        if let Some(l) = route(&s0, old(self).root()->0, key, route_fuel()) {
                            assert(pid == l);
                            assert(s1.data(frame as int) == s0.content(l));
                            assert forall|q: PageId| #[trigger] s1.content(q) == s0.content(q) by {}
                        }
                    }
                }
                r
            },
            Ok(None) => Err(BTreeError::KeyNotFound),
            Err(e) => Err(e),
        }
    }

    /// Starts an empty tree: a new page of the index file becomes a leaf holding the pair.
    fn create_root_and_insert<const PAGE_SIZE: usize, D: DiskManager<PAGE_SIZE>, L: LogManager>(
        &mut self,
        pool: &mut BufferPoolManager<PAGE_SIZE, D, L>,
        key: i32,
        value: CTID,
    ) -> (r: Result<(), BTreeError>)
        requires
            old(pool).wf(),
            44 <= PAGE_SIZE,
            old(self).root() is None,
        ensures
            pool_kept(final(pool), old(pool)),
            final(self).file() == old(self).file(),
            r is Ok ==> {
                &&& final(self).root() matches Some(p) && p.file_id == old(self).file()
                &&& in_some_leaf(final(pool), key, value)
                &&& sole_pair_leaf(final(pool).content(final(self).root()->0), key, value)
                &&& tree_lookup(*final(pool), final(self).root()->0, key) == Some(value)
            },
            r is Err ==> final(self).root() is None,
            r matches Err(e) ==> e is BufferError,
    {
        proof {
            pool.lemma_page_size();
        }
        let (frame, root) = match pool.new_page(self.index_file_id) {
            Ok(x) => x,
            Err(e) => {
                return Err(buffer_error(e));
            },
        };
        let h = BTreePageHeader {
            node_type: NodeType::Leaf.tag(),
            num_keys: 1,
            max_keys: leaf_max_keys(PAGE_SIZE),
            parent_page_id: invalid_page_id(),
            next_page_id: invalid_page_id(),
        };
        let keys: Vec<i32> = vec![key];
        let vals: Vec<CTID> = vec![value];
        store_leaf(pool, frame, h, &keys, &vals);
        self.root_page_id = Some(root);
        let ghost stored = *pool;
        proof {
            let d = pool.data(frame as int);
            assert(key_at(d, 0) == keys@[0]);
            assert(value_at(d, h.max_keys as int, 0) == vals@[0]);
            assert(leaf_maps(d, PAGE_SIZE as nat, key, value));
        }
        match pool.unpin_page(root, true) {
            Ok(()) => {},
            Err(e) => {
                return Err(buffer_error(e));
            },
        }
        proof {
            pool.lemma_frame_of(root);
            assert(pool.data(frame as int) == stored.data(frame as int));
            assert(leaf_maps(pool.data(frame as int), PAGE_SIZE as nat, key, value));
            let d = pool.content(root);
            assert(d == stored.data(frame as int));
            assert(leaf_keys(d) =~= seq![key]);
            lemma_leaf_lookup_at(d, key, 0);
            assert(node_header_of(d) == h);
            assert(valid_leaf(h, PAGE_SIZE as nat));
        }
        let len = pool.read_page(frame).data.len();
        assert(len == PAGE_SIZE);
        proof {
            assert(valid_leaf(node_header_of(pool.content(root)), pool.content(root).len()));
            assert(pool.content(root).len() == PAGE_SIZE);
            assert(route(&*pool, root, key, route_fuel()) == Some(root));
        }
        Ok(())
    }

    /// Puts a pair into the pinned leaf `leaf_page_id` held in `leaf_frame`: in place while it
    /// has room, by splitting it otherwise. The leaf is unpinned.
    fn insert_into_leaf<const PAGE_SIZE: usize, D: DiskManager<PAGE_SIZE>, L: LogManager>(
        &mut self,
        pool: &mut BufferPoolManager<PAGE_SIZE, D, L>,
        leaf_frame: usize,
        leaf_page_id: PageId,
        key: i32,
        value: CTID,
    ) -> (r: Result<(), BTreeError>)
        requires
            old(pool).wf(),
            44 <= PAGE_SIZE,
            leaf_frame < old(pool).size(),
            old(pool).frame_of(leaf_page_id) == Some(leaf_frame as int),
            valid_leaf(node_header_of(old(pool).data(leaf_frame as int)), PAGE_SIZE as nat),
            old(self).root() is Some,
        ensures
            pool_kept(final(pool), old(pool)),
            final(self).file() == old(self).file(),
            final(self).root() is Some,
            ({
                let d = old(pool).data(leaf_frame as int);
                let h = node_header_of(d);
                let keys = keys_of(d, h.num_keys as nat);
                let vals = values_of(d, h.max_keys as nat, h.num_keys as nat);
                old(pool).no_lost_writes() && old(pool).desc(leaf_frame as int).pin_count >= 1 && sorted(keys) ==> {
                    &&& !keys.contains(key) && h.num_keys < h.max_keys ==> {
                        &&& r is Ok
                        &&& final(pool).no_lost_writes()
                        &&& final(pool).content(leaf_page_id).len() == PAGE_SIZE
                        &&& forall|q: PageId| q != leaf_page_id ==> #[trigger] final(pool).content(q) == old(pool).content(q)
                        &&& exists|i: int|
                            insertion_point(keys, key, i) && holds_leaf(
                                #[trigger] final(pool).content(leaf_page_id),
                                BTreePageHeader { num_keys: (h.num_keys + 1) as u16, ..h },
                                keys.insert(i, key),
                                vals.insert(i, value),
                            )
                    }
                    &&& keys.contains(key) ==> r matches Err(BTreeError::DuplicateKey)
                }
            }),
    {
        let page = pool.read_page(leaf_frame);
        let h = read_node_header(&page.data);
        let n = h.num_keys as usize;
        let m = h.max_keys as usize;
        let mut keys = read_keys(&page.data, n);
        match search_keys(&keys, key) {
            Ok(_) => {
                let _ = pool.unpin_page(leaf_page_id, false);
                Err(BTreeError::DuplicateKey)
            },
            Err(idx) => {
                if n < m {
                    let mut vals = read_values(&page.data, m, n);
                    let ghost keys0 = keys@;
                    let ghost vals0 = vals@;
                    keys.insert(idx, key);
                    vals.insert(idx, value);
                    let h2 = BTreePageHeader { num_keys: h.num_keys + 1, ..h };
                    let ghost before_store = *pool;
                    store_leaf(pool, leaf_frame, h2, &keys, &vals);
                    let ghost stored = *pool;
                    proof {
                        if old(pool).no_lost_writes() && old(pool).desc(leaf_frame as int).pin_count >= 1 {
                            assert forall|g: int|
                                0 <= g < pool.size() && #[trigger] pool.unsaved(g) && pool.occupied(g) && !pool.desc(g).is_dirty
                                    implies pool.desc(g).pin_count > 0 by {
                                assert(pool.desc(g) == old(pool).desc(g));
                                if g != leaf_frame {
                                    assert(pool.unsaved(g) == old(pool).unsaved(g));
                                }
                            }
                        }
                    }
                    let res = match pool.unpin_page(leaf_page_id, true) {
                        Ok(()) => Ok(()),
                        Err(e) => Err(buffer_error(e)),
                    };
                    proof {
                        assert(keys@ == keys0.insert(idx as int, key));
                        assert(vals@ == vals0.insert(idx as int, value));
                        if old(pool).no_lost_writes() && old(pool).desc(leaf_frame as int).pin_count >= 1 && sorted(keys0) {
                            assert(insertion_point(keys0, key, idx as int));
                            assert(stored.content(leaf_page_id) == stored.data(leaf_frame as int));
                            assert(pool.content(leaf_page_id) == stored.content(leaf_page_id));
                            stored.lemma_frame_len(leaf_frame as int);
                            assert forall|q: PageId| q != leaf_page_id implies #[trigger] pool.content(q) == old(pool).content(q) by {
                                assert(pool.content(q) == stored.content(q));
                                if old(pool).frame_of(q) == Some(leaf_frame as int) {
                                    old(pool).lemma_frame_of(q);
                                    old(pool).lemma_frame_of(leaf_page_id);
                                }
                            }
                        }
                    }
                    res
                } else {
                    let _ = pool.unpin_page(leaf_page_id, false);
                    self.split_leaf(pool, leaf_page_id, key, value)
                }
            },
        }
    }

    /// Splits a full leaf around the new pair: the lower half stays, the upper half moves to a
    /// new page linked after it, and the first key of the new page goes up to the parent.
    fn split_leaf<const PAGE_SIZE: usize, D: DiskManager<PAGE_SIZE>, L: LogManager>(
        &mut self,
        pool: &mut BufferPoolManager<PAGE_SIZE, D, L>,
        leaf_page_id: PageId,
        key: i32,
        value: CTID,
    ) -> (r: Result<(), BTreeError>)
        requires
            old(pool).wf(),
            44 <= PAGE_SIZE,
            old(self).root() is Some,
        ensures
            pool_kept(final(pool), old(pool)),
            final(self).file() == old(self).file(),
            final(self).root() is Some,
            old(pool).frame_of(leaf_page_id) is Some && !(valid_leaf(node_header_of(old(pool).content(leaf_page_id)), PAGE_SIZE as nat)
                && node_header_of(old(pool).content(leaf_page_id)).max_keys >= 2) ==> r matches Err(BTreeError::InvalidNode),
    {
        proof {
            old(pool).lemma_content_in_pool(leaf_page_id);
        }
        let leaf_frame = match pool.fetch_page(leaf_page_id) {
            Ok(f) => f,
            Err(e) => {
                return Err(buffer_error(e));
            },
        };
        proof {
            pool.lemma_page_size();
        }
        let page = pool.read_page(leaf_frame);
        let h = read_node_header(&page.data);
        if !is_valid_leaf(h, PAGE_SIZE) || h.max_keys < 2 {
            return Err(BTreeError::InvalidNode);
        }
        let n = h.num_keys as usize;
        let m = h.max_keys as usize;
        let mut temp_keys = read_keys(&page.data, n);
        let mut temp_vals = read_values(&page.data, m, n);
        let ghost before_new = *pool;
        let (rs_frame, rs_id) = match pool.new_page(leaf_page_id.file_id) {
            Ok(x) => x,
            Err(e) => {
                return Err(buffer_error(e));
            },
        };
        proof {
            assert(before_new.desc(leaf_frame as int).pin_count > 0);
        }
        let idx = match search_keys(&temp_keys, key) {
            Ok(i) => i,
            Err(i) => i,
        };
        temp_keys.insert(idx, key);
        temp_vals.insert(idx, value);
        let mid = n / 2;
        let total = n + 1;
        let left_keys = copy_slice(&temp_keys, 0, mid);
        let left_vals = copy_slice(&temp_vals, 0, mid);
        let right_keys = copy_slice(&temp_keys, mid, total);
        let right_vals = copy_slice(&temp_vals, mid, total);
        let leaf_h = BTreePageHeader { num_keys: mid as u16, next_page_id: rs_id, ..h };
        store_leaf(pool, leaf_frame, leaf_h, &left_keys, &left_vals);
        let rs_h = BTreePageHeader {
            node_type: NodeType::Leaf.tag(),
            num_keys: (total - mid) as u16,
            max_keys: h.max_keys,
            parent_page_id: h.parent_page_id,
            next_page_id: h.next_page_id,
        };
        store_leaf(pool, rs_frame, rs_h, &right_keys, &right_vals);
        let promote_key = right_keys[0];
        let parent_id = h.parent_page_id;
        let _ = pool.unpin_page(leaf_page_id, true);
        let _ = pool.unpin_page(rs_id, true);
        self.insert_into_parent(pool, leaf_page_id, promote_key, rs_id, parent_id, MAX_STEPS)
    }
}

impl BTreeIndex {
    /// Records a split in the parent: `key` separates `old_node_id` from the new node
    /// `new_node_id` to its right. Without a parent a new root is made; a full parent splits.
    fn insert_into_parent<const PAGE_SIZE: usize, D: DiskManager<PAGE_SIZE>, L: LogManager>(
        &mut self,
        pool: &mut BufferPoolManager<PAGE_SIZE, D, L>,
        old_node_id: PageId,
        key: i32,
        new_node_id: PageId,
        parent_id: PageId,
        depth: u32,
    ) -> (r: Result<(), BTreeError>)
        requires
            old(pool).wf(),
            44 <= PAGE_SIZE,
            old(self).root() is Some,
        ensures
            pool_kept(final(pool), old(pool)),
            final(self).file() == old(self).file(),
            final(self).root() is Some,
            parent_id != crate::btree_node::spec_invalid_page_id() && depth == 0 ==> r matches Err(BTreeError::InvalidNode),
            parent_id != crate::btree_node::spec_invalid_page_id() && depth > 0 && old(pool).frame_of(parent_id) is Some ==> ({
                let d = old(pool).content(parent_id);
                let h = node_header_of(d);
                let n = h.num_keys as int;
                &&& (!valid_internal(h, PAGE_SIZE as nat) ==> r matches Err(BTreeError::InvalidNode))
                &&& valid_internal(h, PAGE_SIZE as nat) && h.num_keys < h.max_keys ==> r is Ok && final(self).root() == old(self).root()
                    && exists|i: int|
                    0 <= i <= n && #[trigger] holds_internal(
                        final(pool).content(parent_id),
                        BTreePageHeader { num_keys: (h.num_keys + 1) as u16, ..h },
                        keys_of(d, h.num_keys as nat).insert(i, key),
                        children_of(d, h.max_keys as nat, h.num_keys as nat + 1).insert(i + 1, new_node_id),
                    )
            }),
        decreases depth, 1u32,
    {
        proof {
            old(pool).lemma_content_in_pool(parent_id);
        }
        if parent_id == invalid_page_id() {
            return self.create_new_root(pool, old_node_id, key, new_node_id);
        }
        if depth == 0 {
            return Err(BTreeError::InvalidNode);
        }
        let parent_frame = match pool.fetch_page(parent_id) {
            Ok(f) => f,
            Err(e) => {
                return Err(buffer_error(e));
            },
        };
        proof {
            pool.lemma_page_size();
        }
        let page = pool.read_page(parent_frame);
        let h = read_node_header(&page.data);
        if !is_valid_internal(h, PAGE_SIZE) {
            return Err(BTreeError::InvalidNode);
        }
        let n = h.num_keys as usize;
        let m = h.max_keys as usize;
        if n < m {
            let mut keys = read_keys(&page.data, n);
            let mut children = read_children(&page.data, m, n + 1);
            let ghost keys0 = keys@;
            let ghost children0 = children@;
            let idx = match search_keys(&keys, key) {
                Ok(i) => i,
                Err(i) => i,
            };
            keys.insert(idx, key);
            children.insert(idx + 1, new_node_id);
            let h2 = BTreePageHeader { num_keys: h.num_keys + 1, ..h };
            store_internal(pool, parent_frame, h2, &keys, &children);
            let ghost stored = *pool;
            let _ = pool.unpin_page(parent_id, true);
            proof {
                stored.lemma_content_in_pool(parent_id);
                pool.lemma_content_in_pool(parent_id);
                assert(holds_internal(pool.content(parent_id), h2, keys@, children@));
                assert(keys@ == keys0.insert(idx as int, key));
                assert(children@ == children0.insert(idx + 1, new_node_id));
                if old(pool).frame_of(parent_id) is Some {
                    let d0 = old(pool).content(parent_id);
                    assert(keys0 == keys_of(d0, h.num_keys as nat));
                    assert(children0 == children_of(d0, h.max_keys as nat, h.num_keys as nat + 1));
                    assert(h2 == BTreePageHeader { num_keys: (h.num_keys + 1) as u16, ..h });
                }
            }
            return Ok(());
        }
        let _ = pool.unpin_page(parent_id, false);
        self.split_internal(pool, parent_id, key, new_node_id, depth)
    }

    /// Splits a full internal node around the new key and child: the lower keys stay, the
    /// middle key goes up, the upper keys and their children move to a new page whose
    /// children are told their new parent.
    fn split_internal<const PAGE_SIZE: usize, D: DiskManager<PAGE_SIZE>, L: LogManager>(
        &mut self,
        pool: &mut BufferPoolManager<PAGE_SIZE, D, L>,
        parent_id: PageId,
        key: i32,
        new_node_id: PageId,
        depth: u32,
    ) -> (r: Result<(), BTreeError>)
        requires
            old(pool).wf(),
            44 <= PAGE_SIZE,
            old(self).root() is Some,
            depth > 0,
        ensures
            pool_kept(final(pool), old(pool)),
            final(self).file() == old(self).file(),
            final(self).root() is Some,
            old(pool).frame_of(parent_id) is Some && !valid_internal(node_header_of(old(pool).content(parent_id)), PAGE_SIZE as nat)
                ==> r matches Err(BTreeError::InvalidNode),
        decreases depth, 0u32,
    {
        proof {
            old(pool).lemma_content_in_pool(parent_id);
        }
        let parent_frame = match pool.fetch_page(parent_id) {
            Ok(f) => f,
            Err(e) => {
                return Err(buffer_error(e));
            },
        };
        proof {
            pool.lemma_page_size();
        }
        let page = pool.read_page(parent_frame);
        let h = read_node_header(&page.data);
        if !is_valid_internal(h, PAGE_SIZE) {
            return Err(BTreeError::InvalidNode);
        }
        assert(old(pool).frame_of(parent_id) is Some ==> valid_internal(
            node_header_of(old(pool).content(parent_id)),
            PAGE_SIZE as nat,
        ));
        let n = h.num_keys as usize;
        let m = h.max_keys as usize;
        let mut temp_keys = read_keys(&page.data, n);
        let mut temp_children = read_children(&page.data, m, n + 1);
        let ghost before_new = *pool;
        let (rs_frame, rs_id) = match pool.new_page(parent_id.file_id) {
            Ok(x) => x,
            Err(e) => {
                return Err(buffer_error(e));
            },
        };
        proof {
            assert(before_new.desc(parent_frame as int).pin_count > 0);
        }
        let rs_old = read_node_header(&pool.read_page(rs_frame).data);
        let idx = match search_keys(&temp_keys, key) {
            Ok(i) => i,
            Err(i) => i,
        };
        temp_keys.insert(idx, key);
        temp_children.insert(idx + 1, new_node_id);
        let total = n + 1;
        let mid = total / 2;
        let left_keys = copy_slice(&temp_keys, 0, mid);
        let left_children = copy_slice(&temp_children, 0, mid + 1);
        let promote_key = temp_keys[mid];
        let rs_num = total - mid - 1;
        let rs_keys = copy_slice(&temp_keys, mid + 1, total);
        let rs_children = copy_slice(&temp_children, mid + 1, total + 1);
        let parent_h = BTreePageHeader { num_keys: mid as u16, ..h };
        store_internal(pool, parent_frame, parent_h, &left_keys, &left_children);
        let rs_h = BTreePageHeader {
            node_type: NodeType::Internal.tag(),
            num_keys: rs_num as u16,
            max_keys: h.max_keys,
            parent_page_id: h.parent_page_id,
            next_page_id: rs_old.next_page_id,
        };
        store_internal(pool, rs_frame, rs_h, &rs_keys, &rs_children);
        let grand_parent_id = h.parent_page_id;
        let mut i: usize = 0;
        while i < rs_children.len()
            invariant
                pool_kept(pool, old(pool)),
                old(self).root() is Some,
                44 <= PAGE_SIZE,
                old(pool).frame_of(parent_id) is Some ==> valid_internal(
                    node_header_of(old(pool).content(parent_id)),
                    PAGE_SIZE as nat,
                ),
            decreases rs_children@.len() - i,
        {
            let child_id = rs_children[i];
            let child_frame = match pool.fetch_page(child_id) {
                Ok(f) => f,
                Err(e) => {
                    return Err(buffer_error(e));
                },
            };
            let ch = read_node_header(&pool.read_page(child_frame).data);
            store_header(pool, child_frame, BTreePageHeader { parent_page_id: rs_id, ..ch });
            let _ = pool.unpin_page(child_id, true);
            i += 1;
        }
        let _ = pool.unpin_page(parent_id, true);
        let _ = pool.unpin_page(rs_id, true);
        self.insert_into_parent(pool, parent_id, promote_key, rs_id, grand_parent_id, depth - 1)
    }

    /// Makes a new root page holding one key between the two halves of a split root, and
    /// tells both halves their parent.
    fn create_new_root<const PAGE_SIZE: usize, D: DiskManager<PAGE_SIZE>, L: LogManager>(
        &mut self,
        pool: &mut BufferPoolManager<PAGE_SIZE, D, L>,
        left: PageId,
        key: i32,
        right: PageId,
    ) -> (r: Result<(), BTreeError>)
        requires
            old(pool).wf(),
            44 <= PAGE_SIZE,
            old(self).root() is Some,
        ensures
            pool_kept(final(pool), old(pool)),
            final(self).file() == old(self).file(),
            final(self).root() is Some,
            r is Ok ==> (final(self).root() matches Some(p) && p.file_id == left.file_id),
            r matches Err(e) ==> e is BufferError,
    {
        proof {
            pool.lemma_page_size();
        }
        let (root_frame, new_root_id) = match pool.new_page(left.file_id) {
            Ok(x) => x,
            Err(e) => {
                return Err(buffer_error(e));
            },
        };
        let old_h = read_node_header(&pool.read_page(root_frame).data);
        let h = BTreePageHeader {
            node_type: NodeType::Internal.tag(),
            num_keys: 1,
            max_keys: internal_max_keys(PAGE_SIZE),
            parent_page_id: invalid_page_id(),
            next_page_id: old_h.next_page_id,
        };
        let keys: Vec<i32> = vec![key];
        let children: Vec<PageId> = vec![left, right];
        store_internal(pool, root_frame, h, &keys, &children);
        match self.update_parent_id(pool, left, new_root_id) {
            Ok(()) => {},
            Err(e) => {
                return Err(e);
            },
        }
        match self.update_parent_id(pool, right, new_root_id) {
            Ok(()) => {},
            Err(e) => {
                return Err(e);
            },
        }
        match pool.unpin_page(new_root_id, true) {
            Ok(()) => {},
            Err(e) => {
                return Err(buffer_error(e));
            },
        }
        self.root_page_id = Some(new_root_id);
        Ok(())
    }

    /// Points a node's parent field at `parent_id`.
    fn update_parent_id<const PAGE_SIZE: usize, D: DiskManager<PAGE_SIZE>, L: LogManager>(
        &self,
        pool: &mut BufferPoolManager<PAGE_SIZE, D, L>,
        child_id: PageId,
        parent_id: PageId,
    ) -> (r: Result<(), BTreeError>)
        requires
            old(pool).wf(),
            24 <= PAGE_SIZE,
        ensures
            pool_kept(final(pool), old(pool)),
            r matches Err(e) ==> e is BufferError,
            old(pool).frame_of(child_id) is Some ==> r is Ok,
            r is Ok && (old(pool).disk_modeled() || old(pool).frame_of(child_id) is Some) ==> node_header_of(
                final(pool).content(child_id),
            ) == (BTreePageHeader {
                parent_page_id: parent_id,
                ..node_header_of(old(pool).content(child_id))
            }),
            r is Ok && old(pool).no_lost_writes() ==> final(pool).no_lost_writes() && forall|q: PageId|
                q != child_id ==> #[trigger] final(pool).content(q) == old(pool).content(q),
    {
        let frame = match pool.fetch_page(child_id) {
            Ok(f) => f,
            Err(e) => {
                return Err(buffer_error(e));
            },
        };
        let h = read_node_header(&pool.read_page(frame).data);
        let ghost fetched = *pool;
        store_header(pool, frame, BTreePageHeader { parent_page_id: parent_id, ..h });
        proof {
            fetched.lemma_frame_of(child_id);
            if old(pool).no_lost_writes() {
                assert forall|g: int|
                    0 <= g < pool.size() && #[trigger] pool.unsaved(g) && pool.occupied(g) && !pool.desc(g).is_dirty
                        implies pool.desc(g).pin_count > 0 by {
                    assert(pool.desc(g) == fetched.desc(g));
                    if g != frame {
                        assert(pool.unsaved(g) == fetched.unsaved(g));
                    }
                }
                assert forall|q: PageId| q != child_id implies #[trigger] pool.content(q) == fetched.content(q) by {
                    if fetched.frame_of(q) == Some(frame as int) {
                        fetched.lemma_frame_of(q);
                    }
                }
            }
        }
        match pool.unpin_page(child_id, true) {
            Ok(()) => Ok(()),
            Err(e) => Err(buffer_error(e)),
        }
    }
}

impl BTreeIndex {
    /// Removes a key from its leaf. A leaf other than the root left with fewer than half its
    /// slots in use is then merged with a sibling when their keys fit in one node.
    pub fn delete<const PAGE_SIZE: usize, D: DiskManager<PAGE_SIZE>, L: LogManager>(
        &mut self,
        pool: &mut BufferPoolManager<PAGE_SIZE, D, L>,
        key: i32,
    ) -> (r: Result<(), crate::btree_node::BTreeError>)
        requires
            old(pool).wf(),
            44 <= PAGE_SIZE,
        ensures
            pool_kept(final(pool), old(pool)),
            final(self).root() == old(self).root(),
            final(self).file() == old(self).file(),
            old(self).root() is None ==> (r matches Err(crate::btree_node::BTreeError::KeyNotFound)) && *final(pool)
                == *old(pool),
            old(pool).no_lost_writes() && old(self).root() is Some ==> (route(old(pool), old(self).root()->0, key, route_fuel())
                matches Some(l) ==> deleted_from_leaf(*old(pool), *final(pool), l, old(self).root()->0, key, r)),
    {
        let ghost s0 = *pool;
        let (leaf_frame, leaf_page_id) = match self.find_leaf_page(pool, key) {
            Ok(Some(x)) => x,
            Ok(None) => {
                return Err(crate::btree_node::BTreeError::KeyNotFound);
            },
            Err(_) => {
                return Err(crate::btree_node::BTreeError::KeyNotFound);
            },
        };
        let ghost s1 = *pool;
        let ghost on_route = s0.no_lost_writes() && route(&s0, old(self).root()->0, key, route_fuel()) is Some;
        proof {
            if on_route {
                assert(leaf_page_id == route(&s0, old(self).root()->0, key, route_fuel())->0);
                assert(s1.data(leaf_frame as int) == s0.content(leaf_page_id));
                assert forall|q: PageId| #[trigger] s1.content(q) == s0.content(q) by {}
            }
        }
        let page = pool.read_page(leaf_frame);
        let h = read_node_header(&page.data);
        let n = h.num_keys as usize;
        let m = h.max_keys as usize;
        let mut keys = read_keys(&page.data, n);
        let root_id = self.root_page_id;
        match search_keys(&keys, key) {
            Ok(idx) => {
                let mut vals = read_values(&page.data, m, n);
                let ghost keys0 = keys@;
                let ghost vals0 = vals@;
                keys.remove(idx);
                vals.remove(idx);
                let h2 = BTreePageHeader { num_keys: h.num_keys - 1, ..h };
                store_leaf(pool, leaf_frame, h2, &keys, &vals);
                let ghost stored = *pool;
                proof {
                    if on_route {
                        assert forall|g: int|
                            0 <= g < pool.size() && #[trigger] pool.unsaved(g) && pool.occupied(g) && !pool.desc(g).is_dirty
                                implies pool.desc(g).pin_count > 0 by {
                            assert(pool.desc(g) == s1.desc(g));
                            if g != leaf_frame {
                                assert(pool.unsaved(g) == s1.unsaved(g));
                            }
                        }
                    }
                }
                let current_num = h2.num_keys;
                let max_keys = h2.max_keys;
                let parent_id = h2.parent_page_id;
                let is_root = match root_id {
                    Some(r) => r == leaf_page_id,
                    None => false,
                };
                let _ = pool.unpin_page(leaf_page_id, true);
                proof {
                    if on_route {
                        assert(keys@ == keys0.remove(idx as int));
                        assert(vals@ == vals0.remove(idx as int));
                        assert(stored.content(leaf_page_id) == stored.data(leaf_frame as int));
                        assert(pool.content(leaf_page_id) == stored.content(leaf_page_id));
                        stored.lemma_frame_len(leaf_frame as int);
                        assert forall|q: PageId| q != leaf_page_id implies #[trigger] pool.content(q) == s0.content(q) by {
                            assert(pool.content(q) == stored.content(q));
                            if s1.frame_of(q) == Some(leaf_frame as int) {
                                s1.lemma_frame_of(q);
                                s1.lemma_frame_of(leaf_page_id);
                            }
                        }
                    }
                }
                let ghost mid = *pool;
                proof {
                    if on_route {
                        assert(node_header_of(s0.content(leaf_page_id)) == h);
                        assert(keys0 == keys_of(s0.content(leaf_page_id), h.num_keys as nat));
                        assert(vals0 == values_of(s0.content(leaf_page_id), h.max_keys as nat, h.num_keys as nat));
                        assert(leaf_lost_key(s0, mid, leaf_page_id, key)) by {
                            assert(keys0[idx as int] == key);
                        }
                    }
                }
                let ghost mut merged: Result<(), crate::btree_node::BTreeError> = Ok(());
                if !is_root && current_num < max_keys / 2 {
                    let rm = self.merge_leaf(pool, leaf_page_id, parent_id);
                    proof {
                        merged = rm;
                    }
                }
                proof {
                    if on_route {
                        let r0 = old(self).root()->0;
                        assert(is_root == (leaf_page_id == r0));
                        assert(current_num as int == h.num_keys - 1);
                        if !is_root && current_num < max_keys / 2 {
                            assert(leaf_lost_key(s0, mid, leaf_page_id, key) && (mid.frame_of(parent_id) is Some
                                && valid_internal(node_header_of(mid.content(parent_id)), PAGE_SIZE as nat)
                                ==> merge_outcome(mid, *pool, leaf_page_id, parent_id, merged)));
                            let hh = node_header_of(s0.content(leaf_page_id));
                            assert(hh.parent_page_id == parent_id);
                            assert(lost_then_merged(s0, mid, *pool, leaf_page_id, key, hh.parent_page_id, merged));
                        } else {
                            assert(*pool == mid);
                        }
                        assert(deleted_from_leaf(s0, *pool, leaf_page_id, r0, key, Ok(())));
                    }
                }
                Ok(())
            },
            Err(_) => {
                let _ = pool.unpin_page(leaf_page_id, false);
                Err(crate::btree_node::BTreeError::KeyNotFound)
            },
        }
    }

    /// Merges an underfull leaf with its left sibling (or, for the first child, its right
    /// sibling) under `parent_id` when their keys fit in one node: the right one's pairs are
    /// appended to the left one, which takes over its next-leaf link, and the parent forgets the
    /// right one and the key before it.
    #[verifier::rlimit(100)]
    #[verifier::spinoff_prover]
    fn merge_leaf<const PAGE_SIZE: usize, D: DiskManager<PAGE_SIZE>, L: LogManager>(
        &mut self,
        pool: &mut BufferPoolManager<PAGE_SIZE, D, L>,
        leaf_page_id: PageId,
        parent_id: PageId,
    ) -> (r: Result<(), crate::btree_node::BTreeError>)
        requires
            old(pool).wf(),
            44 <= PAGE_SIZE,
        ensures
            pool_kept(final(pool), old(pool)),
            final(self).root() == old(self).root(),
            final(self).file() == old(self).file(),
            old(pool).frame_of(parent_id) is Some ==> ({
                let d = old(pool).content(parent_id);
                let h = node_header_of(d);
                &&& (!valid_internal(h, PAGE_SIZE as nat) ==> r matches Err(crate::btree_node::BTreeError::InvalidNode))
                &&& (valid_internal(h, PAGE_SIZE as nat) && !children_of(d, h.max_keys as nat, h.num_keys as nat + 1).contains(
                    leaf_page_id,
                ) ==> r matches Err(crate::btree_node::BTreeError::InvalidNode))
            }),
            old(pool).no_lost_writes() && old(pool).frame_of(parent_id) is Some && valid_internal(
                node_header_of(old(pool).content(parent_id)),
                PAGE_SIZE as nat,
            ) ==> merge_outcome(*old(pool), *final(pool), leaf_page_id, parent_id, r),
    {
        proof {
            old(pool).lemma_content_in_pool(parent_id);
        }
        let ghost s0 = *pool;
        let ghost on = s0.no_lost_writes() && s0.frame_of(parent_id) is Some;
        let parent_frame = match pool.fetch_page(parent_id) {
            Ok(f) => f,
            Err(_) => {
                return Err(crate::btree_node::BTreeError::InvalidNode);
            },
        };
        proof {
            pool.lemma_page_size();
        }
        let ghost s1 = *pool;
        let ghost d = s0.content(parent_id);
        proof {
            if on {
                assert(s1.data(parent_frame as int) == d);
            }
        }
        let ph = read_node_header(&pool.read_page(parent_frame).data);
        if !is_valid_internal(ph, PAGE_SIZE) {
            return Err(crate::btree_node::BTreeError::InvalidNode);
        }
        let p_keys_count = ph.num_keys as usize;
        let pm = ph.max_keys as usize;
        let mut children = read_children(&pool.read_page(parent_frame).data, pm, p_keys_count + 1);
        let ghost cs0 = children@;
        let ghost hd = node_header_of(d);
        proof {
            if on {
                assert(ph == hd);
                assert(cs0 == children_of(d, hd.max_keys as nat, hd.num_keys as nat + 1));
            }
        }
        let mut leaf_idx: Option<usize> = None;
        let mut i: usize = 0;
        while i <= p_keys_count
            invariant_except_break
                leaf_idx is None,
            invariant
                p_keys_count <= 0xffff,
                children@.len() == p_keys_count + 1,
                leaf_idx matches Some(k) ==> k < children@.len() && children@[k as int] == leaf_page_id && forall|j: int|
                    0 <= j < k ==> children@[j] != leaf_page_id,
                leaf_idx is None ==> forall|j: int| 0 <= j < i ==> children@[j] != leaf_page_id,
                children@ == cs0,
                i <= p_keys_count + 1,
            ensures
                leaf_idx is None ==> i == p_keys_count + 1,
            decreases p_keys_count + 1 - i,
        {
            if children[i] == leaf_page_id {
                leaf_idx = Some(i);
                break;
            }
            i += 1;
        }
        let leaf_idx = match leaf_idx {
            Some(k) => k,
            None => {
                proof {
                    assert forall|k: int| !#[trigger] first_at(cs0, leaf_page_id, k) by {
                        if 0 <= k < cs0.len() {
                            assert(cs0[k] != leaf_page_id);
                        }
                    }
                }
                return Err(crate::btree_node::BTreeError::InvalidNode);
            },
        };
        proof {
            assert forall|k: int| #[trigger] first_at(cs0, leaf_page_id, k) implies k == leaf_idx by {
                if k < leaf_idx {
                    assert(cs0[k] != leaf_page_id);
                } else if k > leaf_idx {
                    assert(cs0[leaf_idx as int] == leaf_page_id);
                }
            }
        }
        let (sibling_idx, is_left_sibling) = if leaf_idx > 0 {
            (leaf_idx - 1, true)
        } else {
            (leaf_idx + 1, false)
        };
        if sibling_idx > p_keys_count {
            let _ = pool.unpin_page(parent_id, false);
            proof {
                if on {
                    assert(first_at(cs0, leaf_page_id, leaf_idx as int));
                    assert(pool.no_lost_writes());
                    assert forall|q: PageId| #[trigger] pool.content(q) == s0.content(q) by {
                        assert(s1.content(q) == s0.content(q));
                    }
                    if valid_internal(hd, PAGE_SIZE as nat) {
                        assert(merge_outcome(s0, *pool, leaf_page_id, parent_id, Ok::<(), crate::btree_node::BTreeError>(())));
                    }
                }
            }
            return Ok(());
        }
        let sibling_page_id = children[sibling_idx];
        let left_id = if is_left_sibling { sibling_page_id } else { leaf_page_id };
        let right_id = if is_left_sibling { leaf_page_id } else { sibling_page_id };
        let ghost cond = on && valid_internal(hd, PAGE_SIZE as nat) && left_id != right_id && left_id != parent_id
            && right_id != parent_id && s0.frame_of(left_id) is Some && s0.frame_of(right_id) is Some;
        proof {
            if cond {
                assert(first_at(cs0, leaf_page_id, leaf_idx as int));
                let del: int = if leaf_idx > 0 { leaf_idx as int } else { leaf_idx + 1 };
                assert(left_id == cs0[del - 1]);
                assert(right_id == cs0[del]);
                assert(s1.frame_of(left_id) == s0.frame_of(left_id));
                assert(s1.frame_of(right_id) == s0.frame_of(right_id));
            }
        }
        let left_frame = match pool.fetch_page(left_id) {
            Ok(f) => f,
            Err(_) => {
                return Err(crate::btree_node::BTreeError::InvalidNode);
            },
        };
        let ghost s2 = *pool;
        let right_frame = match pool.fetch_page(right_id) {
            Ok(f) => f,
            Err(_) => {
                return Err(crate::btree_node::BTreeError::InvalidNode);
            },
        };
        let ghost s3 = *pool;
        let ghost dl = s0.content(left_id);
        let ghost dr = s0.content(right_id);
        proof {
            if cond {
                s1.lemma_frame_of(parent_id);
                s1.lemma_frame_of(left_id);
                s1.lemma_frame_of(right_id);
                assert(left_frame != parent_frame);
                assert(right_frame != parent_frame);
                assert(left_frame != right_frame);
                assert(s3.data(left_frame as int) == dl);
                assert(s3.data(right_frame as int) == dr);
                assert(s3.data(parent_frame as int) == d);
                assert(s3.desc(parent_frame as int) == s1.desc(parent_frame as int));
                assert(s3.desc(left_frame as int) == s2.desc(left_frame as int));
                assert(s3.frame_of(parent_id) == Some(parent_frame as int));
                assert(s3.frame_of(left_id) == Some(left_frame as int));
                assert(s3.frame_of(right_id) == Some(right_frame as int));
                assert forall|q: PageId| #[trigger] s3.content(q) == s0.content(q) by {
                    assert(s2.content(q) == s0.content(q));
                }
            }
        }
        let lh = read_node_header(&pool.read_page(left_frame).data);
        let rh = read_node_header(&pool.read_page(right_frame).data);
        if !is_valid_leaf(lh, PAGE_SIZE) || !is_valid_leaf(rh, PAGE_SIZE) {
            return Err(crate::btree_node::BTreeError::InvalidNode);
        }
        let left_num = lh.num_keys as usize;
        let right_num = rh.num_keys as usize;
        let max_keys = lh.max_keys as usize;
        if left_num + right_num > max_keys {
            let _ = pool.unpin_page(left_id, false);
            let ghost u1 = *pool;
            let _ = pool.unpin_page(right_id, false);
            let ghost u2 = *pool;
            proof {
                if cond {
                    assert(u1.desc(right_frame as int) == s3.desc(right_frame as int));
                    assert(u1.unsaved(right_frame as int) == s3.unsaved(right_frame as int));
                    assert(u2.desc(parent_frame as int) == s3.desc(parent_frame as int));
                    assert(u2.unsaved(parent_frame as int) == s3.unsaved(parent_frame as int));
                }
            }
            let _ = pool.unpin_page(parent_id, false);
            proof {
                if cond {
                    assert(u1.no_lost_writes());
                    assert(u2.no_lost_writes());
                    assert(pool.no_lost_writes());
                    assert forall|q: PageId| #[trigger] pool.content(q) == s0.content(q) by {
                        assert(u1.content(q) == s3.content(q));
                        assert(u2.content(q) == u1.content(q));
                    }
                    assert(lh == node_header_of(dl));
                    assert(rh == node_header_of(dr));
                    assert(merge_outcome(s0, *pool, leaf_page_id, parent_id, Ok::<(), crate::btree_node::BTreeError>(())));
                }
            }
            return Ok(());
        }
        let mut l_keys = read_keys(&pool.read_page(left_frame).data, left_num);
        let mut l_vals = read_values(&pool.read_page(left_frame).data, max_keys, left_num);
        let r_keys = read_keys(&pool.read_page(right_frame).data, right_num);
        let r_vals = read_values(&pool.read_page(right_frame).data, rh.max_keys as usize, right_num);
        append_all(&mut l_keys, &r_keys);
        append_all(&mut l_vals, &r_vals);
        let lh2 = BTreePageHeader {
            num_keys: (left_num + right_num) as u16,
            next_page_id: rh.next_page_id,
            ..lh
        };
        store_leaf(pool, left_frame, lh2, &l_keys, &l_vals);
        let ghost s4 = *pool;
        proof {
            if cond {
                assert(s4.content(left_id) == s4.data(left_frame as int));
                assert forall|q: PageId| q != left_id implies #[trigger] s4.content(q) == s0.content(q) by {
                    if s3.frame_of(q) == Some(left_frame as int) {
                        s3.lemma_frame_of(q);
                        s3.lemma_frame_of(left_id);
                    }
                    assert(s3.content(q) == s0.content(q));
                }
                assert forall|g: int|
                    0 <= g < s4.size() && #[trigger] s4.unsaved(g) && s4.occupied(g) && !s4.desc(g).is_dirty
                        implies s4.desc(g).pin_count > 0 by {
                    assert(s4.desc(g) == s3.desc(g));
                    if g != left_frame {
                        assert(s4.unsaved(g) == s3.unsaved(g));
                    }
                }
                assert(s4.no_lost_writes());
            }
        }
        let _ = pool.unpin_page(left_id, true);
        let ghost s5 = *pool;
        proof {
            if cond {
                assert(s5.desc(right_frame as int) == s3.desc(right_frame as int));
                assert(s5.unsaved(right_frame as int) == s3.unsaved(right_frame as int));
                assert(s5.no_lost_writes());
            }
        }
        let _ = pool.unpin_page(right_id, false);
        let ghost s6 = *pool;
        let delete_idx = if is_left_sibling { leaf_idx } else { sibling_idx };
        let key_idx = delete_idx - 1;
        proof {
            if cond {
                assert(s6.no_lost_writes());
                assert(s6.data(parent_frame as int) == d);
                assert(s6.desc(parent_frame as int) == s3.desc(parent_frame as int));
                assert forall|q: PageId| #[trigger] s6.content(q) == s4.content(q) by {
                    assert(s5.content(q) == s4.content(q));
                }
            }
        }
        let ph_now = read_node_header(&pool.read_page(parent_frame).data);
        if !is_valid_internal(ph_now, PAGE_SIZE) || ph_now.num_keys as usize != p_keys_count
            || ph_now.max_keys as usize != pm {
            return Err(crate::btree_node::BTreeError::InvalidNode);
        }
        let mut p_keys = read_keys(&pool.read_page(parent_frame).data, p_keys_count);
        let ghost pk0 = p_keys@;
        p_keys.remove(key_idx);
        children.remove(delete_idx);
        let ph2 = BTreePageHeader { num_keys: ph.num_keys - 1, ..ph };
        store_internal(pool, parent_frame, ph2, &p_keys, &children);
        let ghost s7 = *pool;
        proof {
            if cond {
                assert(s7.content(parent_id) == s7.data(parent_frame as int));
                assert forall|q: PageId| q != parent_id implies #[trigger] s7.content(q) == s6.content(q) by {
                    if s6.frame_of(q) == Some(parent_frame as int) {
                        s6.lemma_frame_of(q);
                        s6.lemma_frame_of(parent_id);
                    }
                }
                assert forall|g: int|
                    0 <= g < s7.size() && #[trigger] s7.unsaved(g) && s7.occupied(g) && !s7.desc(g).is_dirty
                        implies s7.desc(g).pin_count > 0 by {
                    assert(s7.desc(g) == s6.desc(g));
                    if g != parent_frame {
                        assert(s7.unsaved(g) == s6.unsaved(g));
                    }
                }
                assert(s7.no_lost_writes());
            }
        }
        let _ = pool.unpin_page(parent_id, true);
        proof {
            if cond {
                assert(pool.no_lost_writes());
                assert forall|q: PageId| #[trigger] pool.content(q) == s7.content(q) by {}
                assert(pk0 == keys_of(d, hd.num_keys as nat));
                assert(lh == node_header_of(dl));
                assert(rh == node_header_of(dr));
                lemma_merge_outcome_merged(s0, *pool, leaf_page_id, parent_id, leaf_idx as int);
            }
        }
        Ok(())
    }

    /// The tuple ids of every key in `[start_key, end_key]`, in key order: from the leaf
    /// responsible for `start_key` along the chain of next leaves, stopping at the first key
    /// above `end_key` or at the end of the chain.
    pub fn range_search<const PAGE_SIZE: usize, D: DiskManager<PAGE_SIZE>, L: LogManager>(
        &self,
        pool: &mut BufferPoolManager<PAGE_SIZE, D, L>,
        start_key: i32,
        end_key: i32,
    ) -> (r: Result<Vec<CTID>, crate::btree_node::BTreeError>)
        requires
            old(pool).wf(),
            44 <= PAGE_SIZE,
        ensures
            pool_kept(final(pool), old(pool)),
            self.root() is None ==> (r matches Ok(v) && v@.len() == 0),
            self.root() matches Some(rp) && unreadable_node(old(pool), rp) ==> r matches Err(
                crate::btree_node::BTreeError::KeyNotFound,
            ),
            old(pool).no_lost_writes() ==> (r matches Ok(v) ==> forall|j: int|
                0 <= j < v@.len() ==> #[trigger] found_in_range(old(pool), start_key, end_key, v@[j])),
            old(pool).no_lost_writes() && self.root() is Some ==> (route(old(pool), self.root()->0, start_key, route_fuel())
                matches Some(l) ==> (r matches Ok(v) ==> range_covered(old(pool), l, start_key, end_key, v@))),
    {
        let ghost w = old(pool).no_lost_writes() && self.root() is Some && route(
            old(pool),
            self.root()->0,
            start_key,
            route_fuel(),
        ) is Some && leaf_chain(old(pool), route(old(pool), self.root()->0, start_key, route_fuel())->0, MAX_STEPS as nat)
            is Some && sorted(
            chain_keys(
                old(pool),
                leaf_chain(old(pool), route(old(pool), self.root()->0, start_key, route_fuel())->0, MAX_STEPS as nat)->0,
            ),
        );
        let ghost l0 = route(old(pool), self.root()->0, start_key, route_fuel())->0;
        let ghost ls = leaf_chain(old(pool), l0, MAX_STEPS as nat)->0;
        let mut results: Vec<CTID> = Vec::new();
        let mut curr = match self.find_leaf_page(pool, start_key) {
            Ok(Some((_frame, pid))) => pid,
            Ok(None) => {
                return Ok(results);
            },
            Err(_) => {
                return Err(crate::btree_node::BTreeError::KeyNotFound);
            },
        };
        let mut budget: u32 = MAX_STEPS;
        let ghost mut vis_k: Seq<i32> = Seq::empty();
        let ghost mut vis_v: Seq<CTID> = Seq::empty();
        let ghost mut rest: Seq<PageId> = ls;
        proof {
            if w {
                assert(chain_keys(old(pool), ls) =~= vis_k + chain_keys(old(pool), rest));
                assert(chain_vals(old(pool), ls) =~= vis_v + chain_vals(old(pool), rest));
            }
        }
        loop
            invariant_except_break
                w ==> leaf_chain(old(pool), curr, budget as nat) == Some(rest),
            invariant
                pool_kept(pool, old(pool)),
                self.root() is Some,
                !unreadable_node(old(pool), self.root()->0),
                44 <= PAGE_SIZE,
                old(pool).no_lost_writes() ==> pool.no_lost_writes(),
                old(pool).no_lost_writes() ==> forall|q: PageId| #[trigger] pool.content(q) == old(pool).content(q),
                old(pool).no_lost_writes() ==> forall|j: int|
                    0 <= j < results@.len() ==> #[trigger] found_in_range(old(pool), start_key, end_key, results@[j]),
                w ==> old(pool).no_lost_writes(),
                w ==> leaf_chain(old(pool), l0, MAX_STEPS as nat) == Some(ls),
                w ==> sorted(chain_keys(old(pool), ls)),
                w ==> chain_keys(old(pool), ls) == vis_k + chain_keys(old(pool), rest),
                w ==> chain_vals(old(pool), ls) == vis_v + chain_vals(old(pool), rest),
                w ==> vis_k.len() == vis_v.len(),
                w ==> forall|t: int|
                    0 <= t < vis_k.len() && start_key <= #[trigger] vis_k[t] <= end_key ==> results@.contains(vis_v[t]),
            ensures
                w ==> range_covered(old(pool), l0, start_key, end_key, results@),
            decreases budget,
        {
            if budget == 0 {
                return Err(crate::btree_node::BTreeError::InvalidNode);
            }
            budget = budget - 1;
            let frame = match pool.fetch_page(curr) {
                Ok(f) => f,
                Err(_) => {
                    return Err(crate::btree_node::BTreeError::KeyNotFound);
                },
            };
            proof {
                pool.lemma_page_size();
            }
            let page = pool.read_page(frame);
            let h = read_node_header(&page.data);
            if !is_valid_leaf(h, PAGE_SIZE) {
                return Err(crate::btree_node::BTreeError::InvalidNode);
            }
            let n = h.num_keys as usize;
            let keys = read_keys(&page.data, n);
            let vals = read_values(&page.data, h.max_keys as usize, n);
            let ghost d = page.data@;
            let ghost at = curr;
            proof {
                if w {
                    assert(rest.len() > 0 && rest[0] == curr);
                    assert(chain_keys(old(pool), rest) == keys@ + chain_keys(old(pool), rest.drop_first()));
                    assert(chain_vals(old(pool), rest) == vals@ + chain_vals(old(pool), rest.drop_first()));
                }
            }
            let mut stop = false;
            let mut i: usize = 0;
            while i < n
                invariant_except_break
                    !stop,
                invariant
                    keys@.len() == n,
                    vals@.len() == n,
                    i <= n,
                    keys@ == keys_of(d, n as nat),
                    vals@ == values_of(d, h.max_keys as nat, n as nat),
                    h == node_header_of(d),
                    n == h.num_keys,
                    valid_leaf(h, PAGE_SIZE as nat),
                    old(pool).no_lost_writes() ==> d == old(pool).content(at),
                    old(pool).no_lost_writes() ==> forall|j: int|
                        0 <= j < results@.len() ==> #[trigger] found_in_range(old(pool), start_key, end_key, results@[j]),
                    w ==> forall|t: int|
                        0 <= t < vis_k.len() && start_key <= #[trigger] vis_k[t] <= end_key ==> results@.contains(vis_v[t]),
                    w ==> forall|t: int|
                        0 <= t < i && start_key <= #[trigger] keys@[t] <= end_key ==> results@.contains(vals@[t]),
                ensures
                    old(pool).no_lost_writes() ==> forall|j: int|
                        0 <= j < results@.len() ==> #[trigger] found_in_range(old(pool), start_key, end_key, results@[j]),
                    w ==> forall|t: int|
                        0 <= t < vis_k.len() && start_key <= #[trigger] vis_k[t] <= end_key ==> results@.contains(vis_v[t]),
                    w ==> forall|t: int|
                        0 <= t < i && start_key <= #[trigger] keys@[t] <= end_key ==> results@.contains(vals@[t]),
                    i <= n,
                    stop ==> i < n && keys@[i as int] > end_key,
                    !stop ==> i == n,
                decreases n - i,
            {
                let k = keys[i];
                if k >= start_key && k <= end_key {
                    proof {
                        if old(pool).no_lost_writes() {
                            assert(key_at(d, i as int) == k);
                            assert(value_at(d, h.max_keys as int, i as int) == vals@[i as int]);
                            assert(leaf_maps(old(pool).content(at), PAGE_SIZE as nat, k, vals@[i as int]));
                            assert(found_in_range(old(pool), start_key, end_key, vals@[i as int]));
                        }
                    }
                    let ghost before = results@;
                    results.push(vals[i]);
                    proof {
                        assert forall|x: CTID| before.contains(x) implies results@.contains(x) by {
                            let j = choose|j: int| 0 <= j < before.len() && before[j] == x;
                            assert(results@[j] == x);
                        }
                        assert(results@[before.len() as int] == vals@[i as int]);
                    }
                } else if k > end_key {
                    stop = true;
                    break;
                }
                i += 1;
            }
            let next_page_id = h.next_page_id;
            let _ = pool.unpin_page(curr, false);
            if stop {
                proof {
                    if w {
                        let ck = chain_keys(old(pool), ls);
                        let cv = chain_vals(old(pool), ls);
                        let m = vis_k.len() as int;
                        lemma_chain_lens(old(pool), rest.drop_first());
                        assert forall|t: int| 0 <= t < ck.len() && start_key <= #[trigger] ck[t] <= end_key implies results@.contains(cv[t]) by {
                            if t < m {
                                assert(ck[t] == vis_k[t]);
                                assert(cv[t] == vis_v[t]);
                            } else if t < m + i {
                                assert(ck[t] == keys@[t - m]);
                                assert(cv[t] == vals@[t - m]);
                            } else {
                                assert(ck[m + i] == keys@[i as int]);
                                if t > m + i {
                                    assert(ck[m + i] < ck[t]);
                                }
                            }
                        }
                    }
                }
                break;
            }
            if next_page_id == invalid_page_id() {
                proof {
                    if w {
                        let ck = chain_keys(old(pool), ls);
                        let cv = chain_vals(old(pool), ls);
                        let m = vis_k.len() as int;
                        assert(rest =~= seq![curr]);
                        assert(rest.drop_first() =~= Seq::<PageId>::empty());
                        assert forall|t: int| 0 <= t < ck.len() && start_key <= #[trigger] ck[t] <= end_key implies results@.contains(cv[t]) by {
                            if t < m {
                                assert(ck[t] == vis_k[t]);
                                assert(cv[t] == vis_v[t]);
                            } else {
                                assert(ck[t] == keys@[t - m]);
                                assert(cv[t] == vals@[t - m]);
                            }
                        }
                    }
                }
                break;
            }
            proof {
                if w {
                    let nv_k = vis_k + keys@;
                    let nv_v = vis_v + vals@;
                    assert(rest == seq![curr] + rest.drop_first());
                    assert(leaf_chain(old(pool), next_page_id, budget as nat) == Some(rest.drop_first()));
                    assert(chain_keys(old(pool), ls) =~= nv_k + chain_keys(old(pool), rest.drop_first()));
                    assert(chain_vals(old(pool), ls) =~= nv_v + chain_vals(old(pool), rest.drop_first()));
                    assert forall|t: int| 0 <= t < nv_k.len() && start_key <= #[trigger] nv_k[t] <= end_key implies results@.contains(nv_v[t]) by {
                        if t < vis_k.len() {
                            assert(nv_k[t] == vis_k[t]);
                            assert(nv_v[t] == vis_v[t]);
                        } else {
                            assert(nv_k[t] == keys@[t - vis_k.len()]);
                            assert(nv_v[t] == vals@[t - vis_k.len()]);
                        }
                    }
                    vis_k = nv_k;
                    vis_v = nv_v;
                    rest = rest.drop_first();
                }
            }
            curr = next_page_id;
        }
        Ok(results)
    }
}

/// A pluggable index over pages reached through a pool of type `P`.
pub trait Index<P> {
    /// The pool is in a state the index can work on.
    spec fn ready(pool: &P) -> bool;

    /// Inserts a key pointing to a tuple id.
    fn insert(&mut self, pool: &mut P, key: i32, ctid: CTID) -> (r: Result<(), crate::btree_node::BTreeError>)
        requires
            Self::ready(old(pool)),
        ensures
            Self::ready(final(pool)),
    ;

    /// Exact-match search.
    fn search(&self, pool: &mut P, key: i32) -> (r: Result<CTID, crate::btree_node::BTreeError>)
        requires
            Self::ready(old(pool)),
        ensures
            Self::ready(final(pool)),
    ;

    /// Range search over `[start_key, end_key]`.
    fn range_search(&self, pool: &mut P, start_key: i32, end_key: i32) -> (r: Result<
        Vec<CTID>,
        crate::btree_node::BTreeError,
    >)
        requires
            Self::ready(old(pool)),
        ensures
            Self::ready(final(pool)),
    ;

    /// Deletes a key.
    fn delete(&mut self, pool: &mut P, key: i32) -> (r: Result<(), crate::btree_node::BTreeError>)
        requires
            Self::ready(old(pool)),
        ensures
            Self::ready(final(pool)),
    ;
}

impl<const PAGE_SIZE: usize, D: DiskManager<PAGE_SIZE>, L: LogManager> Index<BufferPoolManager<PAGE_SIZE, D, L>> for BTreeIndex {
    open spec fn ready(pool: &BufferPoolManager<PAGE_SIZE, D, L>) -> bool {
        pool.wf() && 44 <= PAGE_SIZE
    }

    /// Inserts through the tree; any failure is reported as `NodeFull`.
    fn insert(&mut self, pool: &mut BufferPoolManager<PAGE_SIZE, D, L>, key: i32, ctid: CTID) -> (r: Result<(), crate::btree_node::BTreeError>) {
        match BTreeIndex::insert(self, pool, key, ctid) {
            Ok(()) => Ok(()),
            Err(_) => Err(crate::btree_node::BTreeError::NodeFull),
        }
    }

    /// Searches through the tree; any failure is reported as `KeyNotFound`.
    fn search(&self, pool: &mut BufferPoolManager<PAGE_SIZE, D, L>, key: i32) -> (r: Result<CTID, crate::btree_node::BTreeError>) {
        match BTreeIndex::search(self, pool, key) {
            Ok(v) => Ok(v),
            Err(_) => Err(crate::btree_node::BTreeError::KeyNotFound),
        }
    }

    fn range_search(&self, pool: &mut BufferPoolManager<PAGE_SIZE, D, L>, start_key: i32, end_key: i32) -> (r: Result<
        Vec<CTID>,
        crate::btree_node::BTreeError,
    >)
        ensures
            self.root() is None ==> (r matches Ok(v) && v@.len() == 0),
            old(pool).no_lost_writes() ==> (r matches Ok(v) ==> forall|j: int|
                0 <= j < v@.len() ==> #[trigger] found_in_range(old(pool), start_key, end_key, v@[j])),
    {
        BTreeIndex::range_search(self, pool, start_key, end_key)
    }

    fn delete(&mut self, pool: &mut BufferPoolManager<PAGE_SIZE, D, L>, key: i32) -> (r: Result<(), crate::btree_node::BTreeError>)
        ensures
            final(self).root() == old(self).root(),
            final(self).file() == old(self).file(),
            old(self).root() is None ==> (r matches Err(crate::btree_node::BTreeError::KeyNotFound)) && *final(pool)
                == *old(pool),
            old(pool).no_lost_writes() && old(self).root() is Some ==> (route(old(pool), old(self).root()->0, key, route_fuel())
                matches Some(l) ==> deleted_from_leaf(*old(pool), *final(pool), l, old(self).root()->0, key, r)),
    {
        BTreeIndex::delete(self, pool, key)
    }
}

} // verus!
