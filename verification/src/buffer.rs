//! The buffer pool: a fixed set of in-memory frames caching disk pages, with pin counts,
//! dirty flags, least-recently-used eviction, and write-ahead-log flushing before a dirty
//! page is written back.
use crate::page::SlottedPage;
use crate::storage::{DiskManager, PageId, StorageError};
use std::collections::HashMap;
use vstd::prelude::*;

verus! {

broadcast use {vstd::std_specs::hash::group_hash_axioms, vstd::seq_lib::group_seq_properties};

/// Errors of the buffer pool.
#[derive(Debug)]
pub enum BufferError {
    /// Every frame holds a pinned page.
    NoFreeFrames,
    /// The page is not in the buffer pool.
    PageNotFound,
    /// The disk manager failed.
    StorageError(StorageError),
}

/// The write-ahead log as the buffer pool sees it.
pub trait LogManager {
    /// The implementation states what of its log is durable in
    /// [`durable_through`](LogManager::durable_through) and meets the contracts below. An
    /// implementation written outside this library keeps the default, `false`: then the
    /// contracts promise nothing of it.
    closed spec fn models_log(&self) -> bool {
        false
    }

    /// Every record the log holds with a sequence number up to `lsn` is durable. It means
    /// something only for an implementation that models its log.
    closed spec fn durable_through(&self, lsn: u64) -> bool {
        false
    }

    /// Its flushes and truncations never fail. An implementation written outside this library
    /// keeps the default, `false`.
    closed spec fn reliable(&self) -> bool {
        false
    }

    /// The records appended and not yet durable, with their sequence numbers, in append order.
    /// It means something only for an implementation that models its log.
    closed spec fn waiting(&self) -> Seq<(u64, Seq<u8>)> {
        Seq::empty()
    }

    /// The durable log's bytes. It means something only for an implementation that models its
    /// log.
    closed spec fn saved(&self) -> Seq<u8> {
        Seq::empty()
    }

    /// Makes the log durable up to `lsn`: once it succeeds, every record held with a sequence
    /// number up to `lsn` is durable.
    fn flush_up_to(&mut self, lsn: u64) -> (r: Result<(), BufferError>)
        ensures
            final(self).models_log() == old(self).models_log(),
            final(self).reliable() == old(self).reliable(),
            old(self).reliable() ==> r is Ok,
            old(self).models_log() && r is Ok ==> final(self).durable_through(lsn),
    ;

    /// Appends a record and returns its sequence number; the record waits to be made durable.
    fn append_record(&mut self, payload: &[u8]) -> (r: Result<u64, BufferError>)
        ensures
            final(self).models_log() == old(self).models_log(),
            final(self).reliable() == old(self).reliable(),
            old(self).models_log() ==> match r {
                Ok(n) => final(self).waiting() == old(self).waiting().push((n, payload@)),
                Err(_) => final(self).waiting() == old(self).waiting(),
            },
            old(self).models_log() ==> forall|lsn: u64| #[trigger] final(self).durable_through(lsn) ==> old(self).durable_through(lsn),
    ;

    /// Truncates the durable log; records still waiting stay.
    fn checkpoint(&mut self) -> (r: Result<(), BufferError>)
        ensures
            final(self).models_log() == old(self).models_log(),
            final(self).reliable() == old(self).reliable(),
            old(self).reliable() ==> r is Ok,
            old(self).models_log() && r is Ok ==> final(self).saved() == Seq::<u8>::empty() && final(self).waiting()
                == old(self).waiting(),
            old(self).models_log() ==> forall|lsn: u64| #[trigger] final(self).durable_through(lsn) == old(self).durable_through(lsn),
    ;

    /// The log's current size in bytes.
    fn log_size(&self) -> u64;
}

/// What the pool knows about one frame.
#[derive(Debug, Clone, Copy)]
pub struct FrameDescriptor {
    /// The page held, if any.
    pub page_id: Option<PageId>,
    /// Number of users holding the page in memory.
    pub pin_count: usize,
    /// The page changed since it was read or written.
    pub is_dirty: bool,
}

impl FrameDescriptor {
    /// An empty, unpinned, clean frame.
    pub fn new() -> (r: Self)
        ensures
            r.page_id is None,
            r.pin_count == 0,
            !r.is_dirty,
    {
        FrameDescriptor { page_id: None, pin_count: 0, is_dirty: false }
    }
}

/// The page table's key for a page: the file id in the high 32 bits, the page number in the low.
pub open spec fn page_key(p: PageId) -> u64 {
    (p.file_id * 0x1_0000_0000int + p.page_num) as u64
}

proof fn lemma_page_key_injective(a: PageId, b: PageId)
    ensures
        page_key(a) == page_key(b) ==> a == b,
{
}

fn key_of(p: PageId) -> (r: u64)
    ensures
        r == page_key(p),
{
    (p.file_id as u64) * 0x1_0000_0000u64 + p.page_num as u64
}

/// `s` with `f` moved to its end (inserted there if absent).
pub open spec fn touch(s: Seq<usize>, f: usize) -> Seq<usize> {
    s.filter(other_than(f)).push(f)
}

/// The frames other than `f`.
pub open spec fn other_than(f: usize) -> spec_fn(usize) -> bool {
    |x: usize| x != f
}

/// Every element of `touch(s, f)` is `f` or an element of `s`.
proof fn lemma_touch_member(s: Seq<usize>, f: usize, i: int)
    requires
        0 <= i < touch(s, f).len(),
    ensures
        touch(s, f)[i] == f || s.contains(touch(s, f)[i]),
{
    let t = s.filter(other_than(f));
    if i < t.len() {
        s.lemma_filter_contains_rev(other_than(f), t[i]);
        assert(t.contains(t[i]));
    }
}

/// `touch(s, f)` keeps every element of `s`, and holds `f`.
proof fn lemma_touch_keeps(s: Seq<usize>, f: usize, g: usize)
    requires
        s.contains(g) || g == f,
    ensures
        touch(s, f).contains(g),
{
    let t = s.filter(other_than(f));
    if g == f {
        assert(touch(s, f)[t.len() as int] == f);
    } else {
        let k = choose|k: int| 0 <= k < s.len() && s[k] == g;
        s.lemma_filter_contains(other_than(f), k);
        let j = choose|j: int| 0 <= j < t.len() && t[j] == g;
        assert(touch(s, f)[j] == g);
    }
}

/// The frame holds a page of the file.
pub open spec fn in_file(d: FrameDescriptor, file_id: u32) -> bool {
    d.page_id matches Some(p) && p.file_id == file_id
}

/// A frame index below `i`.
pub open spec fn below(o: Option<int>, i: int) -> bool {
    o matches Some(f) && f < i
}

/// The buffer pool manager.
pub struct BufferPoolManager<const PAGE_SIZE: usize, D, L> {
    pool_size: usize,
    frames: Vec<SlottedPage<PAGE_SIZE>>,
    descriptors: Vec<FrameDescriptor>,
    page_table: HashMap<u64, usize>,
    disk_manager: D,
    lru: Vec<usize>,
    hits: usize,
    misses: usize,
    log_manager: Option<L>,
    unsaved: Ghost<Set<int>>,
}

impl<const PAGE_SIZE: usize, D: DiskManager<PAGE_SIZE>, L: LogManager> BufferPoolManager<PAGE_SIZE, D, L> {
    /// Number of frames.
    pub closed spec fn size(&self) -> nat {
        self.pool_size as nat
    }

    /// The descriptor of frame `f`.
    pub closed spec fn desc(&self, f: int) -> FrameDescriptor {
        self.descriptors@[f]
    }

    /// The bytes of frame `f`.
    pub closed spec fn data(&self, f: int) -> Seq<u8> {
        self.frames@[f].data@
    }

    /// The frames from least to most recently used.
    pub closed spec fn recency(&self) -> Seq<usize> {
        self.lru@
    }

    /// Cache hits so far.
    pub closed spec fn spec_hits(&self) -> usize {
        self.hits
    }

    /// Cache misses so far.
    pub closed spec fn spec_misses(&self) -> usize {
        self.misses
    }

    /// Whether a log manager was given.
    pub closed spec fn has_log(&self) -> bool {
        self.log_manager is Some
    }

    /// The frame that holds `p`, if one does.
    pub closed spec fn frame_of(&self, p: PageId) -> Option<int> {
        if self.page_table@.contains_key(page_key(p)) {
            Some(self.page_table@[page_key(p)] as int)
        } else {
            None
        }
    }

    /// What reading page `p` through the pool gives: the bytes of the frame holding it, or
    /// what the disk holds for it.
    pub closed spec fn content(&self, p: PageId) -> Seq<u8> {
        match self.frame_of(p) {
            Some(f) => self.data(f),
            None => self.disk_manager.content(p),
        }
    }

    /// What the disk holds for page `p`.
    pub closed spec fn stored(&self, p: PageId) -> Seq<u8> {
        self.disk_manager.content(p)
    }

    /// The disk manager models its storage (see [`DiskManager::models_storage`]); only then
    /// do the pool's facts about what pages hold speak of the disk.
    pub closed spec fn disk_modeled(&self) -> bool {
        self.disk_manager.models_storage()
    }

    /// The page that the disk manager allocates next in a file: the one after the last
    /// allocated. It means something only where the disk is modeled.
    pub closed spec fn next_page(&self, file_id: u32) -> PageId {
        PageId { file_id, page_num: self.disk_manager.total_pages(file_id) }
    }

    /// The pool has a log manager that models its log.
    pub closed spec fn log_modeled(&self) -> bool {
        match self.log_manager {
            Some(l) => l.models_log(),
            None => false,
        }
    }

    /// The disk manager models its storage and never fails, and so does the log manager's
    /// flushing, if there is one.
    pub closed spec fn io_reliable(&self) -> bool {
        &&& self.disk_manager.models_storage()
        &&& self.disk_manager.reliable()
        &&& match self.log_manager {
            Some(l) => l.reliable(),
            None => true,
        }
    }

    /// The logged records not yet durable; they mean something only where the log is modeled.
    pub closed spec fn log_waiting(&self) -> Seq<(u64, Seq<u8>)> {
        match self.log_manager {
            Some(l) => l.waiting(),
            None => Seq::empty(),
        }
    }

    /// The durable log's bytes; they mean something only where the log is modeled.
    pub closed spec fn log_saved(&self) -> Seq<u8> {
        match self.log_manager {
            Some(l) => l.saved(),
            None => Seq::empty(),
        }
    }

    /// Every record the log manager holds with a sequence number up to `lsn` is durable.
    pub closed spec fn log_durable_through(&self, lsn: u64) -> bool {
        match self.log_manager {
            Some(l) => l.durable_through(lsn),
            None => false,
        }
    }

    /// Frame `f` had its bytes replaced since it was last read or written back, and has not
    /// been marked dirty since.
    pub closed spec fn unsaved(&self, f: int) -> bool {
        self.unsaved@.contains(f)
    }

    /// No frame a miss could reuse holds bytes that were replaced but never marked dirty: every
    /// such frame is still pinned.
    pub open spec fn no_lost_writes(&self) -> bool {
        &&& self.disk_modeled()
        &&& forall|f: int|
            0 <= f < self.size() && #[trigger] self.unsaved(f) && self.occupied(f) && !self.desc(f).is_dirty
                ==> self.desc(f).pin_count > 0
    }

    /// The frame found for a page holds that page.
    pub proof fn lemma_frame_of(&self, p: PageId)
        requires
            self.wf(),
        ensures
            self.frame_of(p) matches Some(f) ==> 0 <= f < self.size() && self.desc(f).page_id == Some(p),
    {
        if let Some(f) = self.frame_of(p) {
            let q = self.descriptors@[f].page_id.unwrap();
            lemma_page_key_injective(p, q);
        }
    }

    /// Two pools with the same frames, descriptors and recency order pick the same victim and
    /// are pinned alike.
    proof fn lemma_frames_alike_inner(a: &Self, b: &Self, f: int)
        requires
            a.descriptors@ == b.descriptors@,
            a.lru@ == b.lru@,
            a.pool_size == b.pool_size,
            a.victim(f),
        ensures
            b.victim(f),
    {
        assert forall|g: int| #[trigger] b.occupied(g) == a.occupied(g) by {}
        if !a.occupied(f) && forall|g: int| 0 <= g < f ==> #[trigger] a.occupied(g) {
            assert forall|g: int| 0 <= g < f implies #[trigger] b.occupied(g) by {
                assert(a.occupied(g));
            }
        } else {
            assert forall|g: int| 0 <= g < b.size() implies #[trigger] b.occupied(g) by {
                assert(a.occupied(g));
            }
            let j = choose|j: int| #[trigger] a.lru_victim_at(j) && a.recency()[j] == f;
            assert forall|i: int| 0 <= i < j implies b.desc(#[trigger] b.recency()[i] as int).pin_count > 0 by {
                assert(a.desc(a.recency()[i] as int).pin_count > 0);
            }
            assert(b.lru_victim_at(j));
        }
    }

    proof fn lemma_frames_alike(a: &Self, b: &Self)
        requires
            a.descriptors@ == b.descriptors@,
            a.lru@ == b.lru@,
            a.pool_size == b.pool_size,
        ensures
            forall|f: int| #[trigger] a.victim(f) ==> b.victim(f),
            a.all_pinned() ==> b.all_pinned(),
    {
        assert forall|f: int| #[trigger] a.victim(f) implies b.victim(f) by {
            Self::lemma_frames_alike_inner(a, b, f);
        }
        if a.all_pinned() {
            assert forall|f: int| 0 <= f < b.size() implies #[trigger] b.occupied(f) && b.desc(f).pin_count > 0 by {
                assert(a.occupied(f));
            }
        }
    }

    /// A page held in a frame reads as that frame's bytes.
    pub proof fn lemma_content_in_pool(&self, p: PageId)
        ensures
            self.frame_of(p) matches Some(f) ==> self.content(p) == self.data(f),
    {
    }

    /// Frame `f` holds a page.
    pub open spec fn occupied(&self, f: int) -> bool {
        self.desc(f).page_id is Some
    }

    /// Position `j` of the recency order holds the least recently used unpinned frame.
    pub open spec fn lru_victim_at(&self, j: int) -> bool {
        &&& 0 <= j < self.recency().len()
        &&& self.desc(self.recency()[j] as int).pin_count == 0
        &&& forall|i: int| 0 <= i < j ==> self.desc(#[trigger] self.recency()[i] as int).pin_count > 0
    }

    /// `f` is the frame a miss would use.
    pub open spec fn victim(&self, f: int) -> bool {
        &&& 0 <= f < self.size()
        &&& (!self.occupied(f) && forall|g: int| 0 <= g < f ==> #[trigger] self.occupied(g))
            || ((forall|g: int| 0 <= g < self.size() ==> #[trigger] self.occupied(g))
                && exists|j: int| #[trigger] self.lru_victim_at(j) && self.recency()[j] == f)
    }

    /// Every frame other than `f` is as it was in `old`: same descriptor, same bytes.
    pub open spec fn others_unchanged(&self, old: &Self, f: int) -> bool {
        &&& self.size() == old.size()
        &&& forall|g: int| 0 <= g < self.size() && g != f ==> #[trigger] self.desc(g) == old.desc(g)
        &&& forall|g: int| 0 <= g < self.size() && g != f ==> #[trigger] self.data(g) == old.data(g)
    }

    /// Every frame pinned in `old` still holds the same page and bytes, pinned at least as often.
    pub open spec fn pinned_kept(&self, old: &Self) -> bool {
        &&& self.size() == old.size()
        &&& forall|g: int|
            0 <= g < old.size() && old.desc(g).pin_count > 0 ==> {
                &&& #[trigger] self.data(g) == old.data(g)
                &&& self.desc(g).page_id == old.desc(g).page_id
                &&& self.desc(g).pin_count >= old.desc(g).pin_count
            }
    }

    /// The page size fits a slotted page.
    pub proof fn lemma_page_size(&self)
        requires
            self.wf(),
        ensures
            16 <= PAGE_SIZE <= 0xffff,
    {
    }

    /// Every frame other than `f` is as it was in `old`: same descriptor, same bytes.
    pub open spec fn unchanged_but_flags(&self, old: &Self) -> bool {
        &&& self.size() == old.size()
        &&& forall|g: int| 0 <= g < self.size() ==> #[trigger] self.data(g) == old.data(g)
        &&& forall|g: int| 0 <= g < self.size() ==> (#[trigger] self.desc(g)).page_id == old.desc(g).page_id
        &&& forall|g: int| 0 <= g < self.size() ==> (#[trigger] self.desc(g)).pin_count == old.desc(g).pin_count
        &&& forall|p: PageId| #[trigger] self.frame_of(p) == old.frame_of(p)
        &&& self.recency() == old.recency()
        &&& self.spec_hits() == old.spec_hits()
        &&& self.spec_misses() == old.spec_misses()
        &&& self.has_log() == old.has_log()
    }

    /// Every frame holds a page that is pinned.
    pub open spec fn all_pinned(&self) -> bool {
        forall|f: int| 0 <= f < self.size() ==> #[trigger] self.occupied(f) && self.desc(f).pin_count > 0
    }

    /// Every frame holds a whole page.
    pub proof fn lemma_frame_len(&self, f: int)
        requires
            self.wf(),
            0 <= f < self.size(),
        ensures
            self.data(f).len() == PAGE_SIZE,
    {
    }

    /// A frame that is empty or unpinned means not every frame is pinned.
    pub proof fn lemma_free_frame(&self, g: int)
        requires
            0 <= g < self.size(),
            !(self.occupied(g) && self.desc(g).pin_count > 0),
        ensures
            !self.all_pinned(),
    {
    }

    /// The pool's invariant: the page table and the descriptors agree, every frame is a full
    /// page, and every occupied frame is in the recency order exactly once.
    pub closed spec fn wf(&self) -> bool {
        &&& self.frames@.len() == self.pool_size
        &&& self.descriptors@.len() == self.pool_size
        &&& 16 <= PAGE_SIZE <= 0xffff
        &&& forall|f: int| 0 <= f < self.pool_size ==> (#[trigger] self.frames@[f]).data@.len() == PAGE_SIZE
        &&& forall|k: u64|
            #[trigger] self.page_table@.contains_key(k) ==> {
                let f = self.page_table@[k];
                &&& f < self.pool_size
                &&& self.descriptors@[f as int].page_id matches Some(p) && page_key(p) == k
            }
        &&& forall|f: int|
            0 <= f < self.pool_size ==> match (#[trigger] self.descriptors@[f]).page_id {
                Some(p) => self.page_table@.contains_key(page_key(p)) && self.page_table@[page_key(p)] == f,
                None => true,
            }
        &&& forall|f: int|
            0 <= f < self.pool_size && (#[trigger] self.descriptors@[f]).page_id is None ==> self.descriptors@[f].pin_count == 0
                && !self.descriptors@[f].is_dirty
        &&& self.lru@.no_duplicates()
        &&& forall|i: int| 0 <= i < self.lru@.len() ==> #[trigger] self.lru@[i] < self.pool_size
        &&& forall|f: int|
            0 <= f < self.pool_size && (#[trigger] self.descriptors@[f]).page_id is Some ==> self.lru@.contains(
                f as usize,
            )
        &&& self.disk_manager.models_storage() ==> forall|f: int|
            0 <= f < self.pool_size && (#[trigger] self.descriptors@[f]).page_id is Some && !self.descriptors@[f].is_dirty
                && !self.unsaved@.contains(f) ==> self.frames@[f].data@ == self.disk_manager.content(
                self.descriptors@[f].page_id.unwrap(),
            )
    }

    /// A pool of `pool_size` empty frames without a log manager.
    pub fn new(pool_size: usize, disk_manager: D) -> (r: Self)
        requires
            16 <= PAGE_SIZE <= 0xffff,
        ensures
            r.wf(),
            r.size() == pool_size,
            !r.has_log(),
            r.disk_modeled() == disk_manager.models_storage(),
            r.io_reliable() == (disk_manager.models_storage() && disk_manager.reliable()),
            forall|f: int| 0 <= f < pool_size ==> !(#[trigger] r.occupied(f)),
            r.spec_hits() == 0,
            r.spec_misses() == 0,
    {
        Self::new_with_log_manager(pool_size, disk_manager, None)
    }

    /// A pool of `pool_size` empty frames with an optional log manager.
    pub fn new_with_log_manager(pool_size: usize, disk_manager: D, log_manager: Option<L>) -> (r: Self)
        requires
            16 <= PAGE_SIZE <= 0xffff,
        ensures
            r.wf(),
            r.size() == pool_size,
            r.has_log() == log_manager is Some,
            r.log_modeled() == (log_manager matches Some(l) && l.models_log()),
            r.disk_modeled() == disk_manager.models_storage(),
            r.io_reliable() == (disk_manager.models_storage() && disk_manager.reliable() && (log_manager matches Some(l)
                ==> l.reliable())),
            forall|f: int| 0 <= f < pool_size ==> !(#[trigger] r.occupied(f)),
            r.spec_hits() == 0,
            r.spec_misses() == 0,
    {
        let mut frames: Vec<SlottedPage<PAGE_SIZE>> = Vec::new();
        let mut descriptors: Vec<FrameDescriptor> = Vec::new();
        let mut i: usize = 0;
        while i < pool_size
            invariant
                16 <= PAGE_SIZE <= 0xffff,
                i <= pool_size,
                frames@.len() == i,
                descriptors@.len() == i,
                forall|f: int| 0 <= f < i ==> (#[trigger] frames@[f]).data@.len() == PAGE_SIZE,
                forall|f: int| 0 <= f < i ==> (#[trigger] descriptors@[f]).page_id is None,
                forall|f: int| 0 <= f < i ==> (#[trigger] descriptors@[f]).pin_count == 0,
                forall|f: int| 0 <= f < i ==> !(#[trigger] descriptors@[f]).is_dirty,
            decreases pool_size - i,
        {
            frames.push(SlottedPage::<PAGE_SIZE>::new());
            descriptors.push(FrameDescriptor::new());
            i += 1;
        }
        let r = BufferPoolManager {
            pool_size,
            frames,
            descriptors,
            page_table: HashMap::new(),
            disk_manager,
            lru: Vec::new(),
            hits: 0,
            misses: 0,
            log_manager,
            unsaved: Ghost(Set::empty()),
        };
        r
    }

    /// The log manager, if one was given.
    pub fn get_log_manager(&self) -> (r: Option<&L>)
        ensures
            r is Some == self.has_log(),
    {
        match &self.log_manager {
            Some(l) => Some(l),
            None => None,
        }
    }

    /// The log manager, for appending records or checkpointing.
    pub fn log_manager_mut(&mut self) -> (r: Option<&mut L>)
        ensures
            r is Some == old(self).has_log(),
    {
        match &mut self.log_manager {
            Some(l) => Some(l),
            None => None,
        }
    }

    /// Everything but the log manager is as in `old`.
    pub open spec fn same_but_log(&self, old: &Self) -> bool {
        &&& self.wf() == old.wf()
        &&& self.disk_modeled() == old.disk_modeled()
        &&& self.size() == old.size()
        &&& forall|g: int| #[trigger] self.desc(g) == old.desc(g)
        &&& forall|g: int| #[trigger] self.data(g) == old.data(g)
        &&& forall|p: PageId| #[trigger] self.frame_of(p) == old.frame_of(p)
        &&& self.recency() == old.recency()
        &&& self.spec_hits() == old.spec_hits()
        &&& self.spec_misses() == old.spec_misses()
        &&& self.has_log() == old.has_log()
        &&& forall|p: PageId| #[trigger] self.content(p) == old.content(p)
        &&& forall|g: int| #[trigger] self.unsaved(g) == old.unsaved(g)
    }

    /// Appends a record to the log, when the pool has a log manager.
    pub fn append_log_record(&mut self, payload: &[u8]) -> (r: Option<Result<u64, BufferError>>)
        ensures
            r is Some == old(self).has_log(),
            final(self).same_but_log(old(self)),
            final(self).log_modeled() == old(self).log_modeled(),
            final(self).io_reliable() == old(self).io_reliable(),
            old(self).log_modeled() ==> match r {
                Some(Ok(n)) => final(self).log_waiting() == old(self).log_waiting().push((n, payload@)),
                _ => final(self).log_waiting() == old(self).log_waiting(),
            },
    {
        match &mut self.log_manager {
            Some(l) => Some(l.append_record(payload)),
            None => None,
        }
    }

    /// Makes the log durable up to `lsn`, when the pool has a log manager.
    pub fn flush_log(&mut self, lsn: u64) -> (r: Option<Result<(), BufferError>>)
        ensures
            r is Some == old(self).has_log(),
            final(self).same_but_log(old(self)),
            final(self).log_modeled() == old(self).log_modeled(),
            final(self).io_reliable() == old(self).io_reliable(),
            old(self).io_reliable() && old(self).has_log() ==> r matches Some(Ok(_)),
            old(self).log_modeled() ==> r is Some,
            old(self).log_modeled() && (r matches Some(Ok(_))) ==> final(self).log_durable_through(lsn),
    {
        match &mut self.log_manager {
            Some(l) => Some(l.flush_up_to(lsn)),
            None => None,
        }
    }

    /// Truncates the log, when the pool has a log manager.
    pub fn checkpoint_log(&mut self) -> (r: Option<Result<(), BufferError>>)
        ensures
            r is Some == old(self).has_log(),
            final(self).same_but_log(old(self)),
            final(self).log_modeled() == old(self).log_modeled(),
            final(self).io_reliable() == old(self).io_reliable(),
            old(self).io_reliable() && old(self).has_log() ==> r matches Some(Ok(_)),
            old(self).log_modeled() ==> r is Some,
            old(self).log_modeled() && (r matches Some(Ok(_))) ==> final(self).log_saved() == Seq::<u8>::empty()
                && final(self).log_waiting() == old(self).log_waiting(),
            old(self).log_modeled() ==> forall|lsn: u64| #[trigger] final(self).log_durable_through(lsn) == old(self).log_durable_through(lsn),
    {
        match &mut self.log_manager {
            Some(l) => Some(l.checkpoint()),
            None => None,
        }
    }

    /// The log's size in bytes, when the pool has a log manager.
    pub fn log_size(&self) -> (r: Option<u64>)
        ensures
            r is Some == self.has_log(),
    {
        match &self.log_manager {
            Some(l) => Some(l.log_size()),
            None => None,
        }
    }

    /// Number of cache hits.
    pub fn get_hits(&self) -> (r: usize)
        ensures
            r == self.spec_hits(),
    {
        self.hits
    }

    /// Number of cache misses.
    pub fn get_misses(&self) -> (r: usize)
        ensures
            r == self.spec_misses(),
    {
        self.misses
    }

    /// Number of frames.
    pub fn pool_size(&self) -> (r: usize)
        ensures
            r == self.size(),
    {
        self.pool_size
    }

    /// For every frame: its index, the page it holds, its pin count and its dirty flag.
    pub fn get_frames_metadata(&self) -> (r: Vec<(usize, Option<PageId>, usize, bool)>)
        requires
            self.wf(),
        ensures
            r@.len() == self.size(),
            forall|f: int|
                0 <= f < self.size() ==> #[trigger] r@[f] == (
                    f as usize,
                    self.desc(f).page_id,
                    self.desc(f).pin_count,
                    self.desc(f).is_dirty,
                ),
    {
        let mut out: Vec<(usize, Option<PageId>, usize, bool)> = Vec::new();
        let mut i: usize = 0;
        while i < self.descriptors.len()
            invariant
                self.wf(),
                i <= self.descriptors@.len(),
                out@.len() == i,
                forall|f: int|
                    0 <= f < i ==> #[trigger] out@[f] == (
                        f as usize,
                        self.desc(f).page_id,
                        self.desc(f).pin_count,
                        self.desc(f).is_dirty,
                    ),
            decreases self.descriptors@.len() - i,
        {
            let d = self.descriptors[i];
            out.push((i, d.page_id, d.pin_count, d.is_dirty));
            i += 1;
        }
        out
    }

    /// The page held by a frame, for reading.
    pub fn read_page(&self, frame_id: usize) -> (r: &SlottedPage<PAGE_SIZE>)
        requires
            self.wf(),
            frame_id < self.size(),
        ensures
            r.data@ == self.data(frame_id as int),
            r.data@.len() == PAGE_SIZE,
    {
        &self.frames[frame_id]
    }

    /// Replaces the bytes of a frame; nothing else changes. Callers mark the page dirty when
    /// they unpin it.
    pub fn write_page(&mut self, frame_id: usize, page: SlottedPage<PAGE_SIZE>)
        requires
            old(self).wf(),
            frame_id < old(self).size(),
            page.data@.len() == PAGE_SIZE,
        ensures
            final(self).wf(),
            final(self).size() == old(self).size(),
            final(self).data(frame_id as int) == page.data@,
            final(self).disk_modeled() == old(self).disk_modeled(),
            forall|g: int| 0 <= g < old(self).size() && g != frame_id ==> #[trigger] final(self).data(g) == old(self).data(g),
            forall|g: int| 0 <= g < old(self).size() ==> #[trigger] final(self).desc(g) == old(self).desc(g),
            forall|p: PageId| #[trigger] final(self).frame_of(p) == old(self).frame_of(p),
            final(self).recency() == old(self).recency(),
            final(self).spec_hits() == old(self).spec_hits(),
            final(self).spec_misses() == old(self).spec_misses(),
            final(self).has_log() == old(self).has_log(),
            forall|q: PageId| #[trigger] final(self).content(q) == if old(self).frame_of(q) == Some(frame_id as int) {
                page.data@
            } else {
                old(self).content(q)
            },
            final(self).unsaved(frame_id as int),
            forall|g: int| g != frame_id ==> #[trigger] final(self).unsaved(g) == old(self).unsaved(g),
    {
        let ghost pd = page.data@;
        self.frames.set(frame_id, page);
        self.unsaved = Ghost(self.unsaved@.insert(frame_id as int));
        proof {
            assert forall|q: PageId| #[trigger] self.content(q) == if old(self).frame_of(q) == Some(frame_id as int) {
                pd
            } else {
                old(self).content(q)
            } by {
                assert(self.frame_of(q) == old(self).frame_of(q));
            }
        }
    }

    /// The disk manager the pool works on.
    pub closed spec fn disk(&self) -> D {
        self.disk_manager
    }

    /// The disk manager.
    pub fn disk_manager(&self) -> (r: &D)
        ensures
            *r == self.disk(),
    {
        &self.disk_manager
    }

    /// Gives up the pool and returns its disk manager; pages not flushed are lost.
    pub fn into_disk_manager(self) -> (r: D)
        ensures
            r == self.disk(),
    {
        self.disk_manager
    }

    /// The disk manager, for closing or removing files. What is done through it becomes the
    /// pool's disk manager; nothing else in the pool changes.
    pub fn disk_manager_mut(&mut self) -> (r: &mut D)
        ensures
            *r == old(self).disk(),
            final(self).disk() == *final(r),
            final(self).size() == old(self).size(),
            forall|g: int| #[trigger] final(self).desc(g) == old(self).desc(g),
            forall|g: int| #[trigger] final(self).data(g) == old(self).data(g),
            forall|p: PageId| #[trigger] final(self).frame_of(p) == old(self).frame_of(p),
    {
        &mut self.disk_manager
    }

    /// Number of pages allocated in a file, as the disk manager counts them; a failure of the
    /// disk manager is `PageNotFound`.
    pub fn get_total_pages(&self, file_id: u32) -> (r: Result<u32, BufferError>)
        ensures
            match r {
                Ok(n) => self.disk_modeled() ==> n == self.disk().total_pages(file_id),
                Err(e) => e == BufferError::PageNotFound,
            },
    {
        match self.disk_manager.get_total_pages(file_id) {
            Ok(n) => Ok(n),
            Err(_) => Err(BufferError::PageNotFound),
        }
    }

    fn lookup(&self, p: PageId) -> (r: Option<usize>)
        requires
            self.wf(),
        ensures
            match r {
                Some(f) => self.frame_of(p) == Some(f as int) && f < self.size(),
                None => self.frame_of(p) is None,
            },
    {
        let k = key_of(p);
        match self.page_table.get(&k) {
            Some(f) => Some(*f),
            None => None,
        }
    }

    /// Moves a frame to the most recently used end.
    fn record_access(&mut self, f: usize)
        requires
            old(self).lru@.no_duplicates(),
        ensures
            final(self).lru@ == touch(old(self).lru@, f),
            final(self).lru@.no_duplicates(),
            final(self).pool_size == old(self).pool_size,
            final(self).frames == old(self).frames,
            final(self).descriptors == old(self).descriptors,
            final(self).page_table == old(self).page_table,
            final(self).hits == old(self).hits,
            final(self).misses == old(self).misses,
            final(self).log_manager == old(self).log_manager,
            final(self).disk_manager == old(self).disk_manager,
            final(self).unsaved == old(self).unsaved,
    {
        let mut out: Vec<usize> = Vec::new();
        let mut i: usize = 0;
        let ghost s = self.lru@;
        while i < self.lru.len()
            invariant
                s == self.lru@,
                s.no_duplicates(),
                i <= s.len(),
                out@ == s.subrange(0, i as int).filter(other_than(f)),
                out@.no_duplicates(),
                forall|k: int| 0 <= k < out@.len() ==> s.subrange(0, i as int).contains(#[trigger] out@[k]),
            decreases s.len() - i,
        {
            let x = self.lru[i];
            proof {
                assert(s.subrange(0, i + 1) =~= s.subrange(0, i as int).push(x));
                s.subrange(0, i as int).lemma_filter_push(x, other_than(f));
            }
            if x != f {
                proof {
                    assert(!s.subrange(0, i as int).contains(x)) by {
                        if s.subrange(0, i as int).contains(x) {
                            let k = choose|k: int| 0 <= k < i && s.subrange(0, i as int)[k] == x;
                            assert(s[k] == s[i as int]);
                        }
                    }
                }
                out.push(x);
            }
            i += 1;
        }
        proof {
            assert(s.subrange(0, s.len() as int) =~= s);
            assert(!out@.contains(f)) by {
                if out@.contains(f) {
                    let k = choose|k: int| 0 <= k < out@.len() && out@[k] == f;
                    s.lemma_filter_pred(other_than(f), k);
                }
            }
        }
        let ghost o2 = out@;
        out.push(f);
        proof {
            assert forall|a: int, b: int| 0 <= a < out@.len() && 0 <= b < out@.len() && a != b implies out@[a] != out@[b] by {
                if a == o2.len() {
                    assert(o2[b] == out@[b]);
                } else if b == o2.len() {
                    assert(o2[a] == out@[a]);
                } else {
                    assert(o2[a] == out@[a] && o2[b] == out@[b]);
                }
            }
        }
        self.lru = out;
    }

    /// The frame a miss should use: the first empty frame, else the least recently used
    /// frame that nobody pins.
    fn find_victim_frame(&self) -> (r: Option<usize>)
        requires
            self.wf(),
        ensures
            match r {
                Some(f) => self.victim(f as int),
                None => self.all_pinned(),
            },
    {
        let mut i: usize = 0;
        while i < self.descriptors.len()
            invariant
                self.wf(),
                i <= self.descriptors@.len(),
                forall|g: int| 0 <= g < i ==> #[trigger] self.occupied(g),
            decreases self.descriptors@.len() - i,
        {
            if self.descriptors[i].page_id.is_none() {
                return Some(i);
            }
            i += 1;
        }
        let mut j: usize = 0;
        while j < self.lru.len()
            invariant
                self.wf(),
                j <= self.lru@.len(),
                forall|g: int| 0 <= g < self.size() ==> #[trigger] self.occupied(g),
                forall|k: int| 0 <= k < j ==> self.desc(#[trigger] self.recency()[k] as int).pin_count > 0,
            decreases self.lru@.len() - j,
        {
            let f = self.lru[j];
            if self.descriptors[f].pin_count == 0 {
                proof {
                    assert(self.lru_victim_at(j as int));
                }
                return Some(f);
            }
            j += 1;
        }
        proof {
            assert forall|f: int| 0 <= f < self.size() implies #[trigger] self.occupied(f) && self.desc(f).pin_count > 0 by {
                assert(self.occupied(f));
                assert(self.descriptors@[f].page_id is Some);
                assert(self.lru@.contains(f as usize));
                let k = choose|k: int| 0 <= k < self.lru@.len() && self.lru@[k] == f as usize;
                assert(self.desc(self.recency()[k] as int).pin_count > 0);
            }
            assert(self.all_pinned());
        }
        None
    }

    /// Writes a dirty frame's page back: first the log is made durable up to the page's
    /// sequence number, then the page goes to disk and the frame becomes clean.
    fn flush_frame_to_disk(&mut self, f: usize) -> (r: Result<(), BufferError>)
        requires
            old(self).wf(),
            f < old(self).size(),
        ensures
            final(self).wf(),
            final(self).unchanged_but_flags(old(self)),
            forall|g: int| 0 <= g < old(self).size() && g != f ==> #[trigger] final(self).desc(g) == old(self).desc(g),
            !(old(self).desc(f as int).is_dirty && old(self).occupied(f as int)) ==> r is Ok && final(self).desc(f as int)
                == old(self).desc(f as int),
            r is Ok ==> !final(self).desc(f as int).is_dirty,
            r matches Err(BufferError::NoFreeFrames) ==> old(self).has_log(),
            r matches Err(BufferError::PageNotFound) ==> old(self).has_log(),
            final(self).disk_modeled() == old(self).disk_modeled(),
            final(self).log_modeled() == old(self).log_modeled(),
            final(self).io_reliable() == old(self).io_reliable(),
            old(self).io_reliable() ==> r is Ok,
            old(self).disk_modeled() ==> forall|q: PageId| #[trigger] final(self).content(q) == old(self).content(q),
            old(self).has_log() && old(self).log_modeled() && old(self).disk_modeled() ==> forall|q: PageId|
                #[trigger] final(self).stored(q) != old(self).stored(q) ==> final(self).log_durable_through(
                    crate::page::header_of(old(self).data(f as int)).log_sequence_number,
                ),
            old(self).has_log() && old(self).log_modeled() && old(self).desc(f as int).is_dirty && old(self).occupied(
                f as int,
            ) && !final(self).log_durable_through(crate::page::header_of(old(self).data(f as int)).log_sequence_number)
                ==> r is Err && final(self).disk_manager == old(self).disk_manager && final(self).desc(f as int) == old(
                self,
            ).desc(f as int),
            forall|g: int| g != f ==> #[trigger] final(self).unsaved(g) == old(self).unsaved(g),
            final(self).unsaved(f as int) ==> old(self).unsaved(f as int),
            !(old(self).desc(f as int).is_dirty && old(self).occupied(f as int)) ==> final(self).unsaved(f as int)
                == old(self).unsaved(f as int) && final(self).disk_manager == old(self).disk_manager,
            r is Ok && old(self).desc(f as int).is_dirty && old(self).occupied(f as int) ==> !final(self).unsaved(f as int),
            old(self).disk_modeled() ==> forall|q: PageId|
                old(self).desc(f as int).page_id != Some(q) ==> #[trigger] final(self).disk_manager.content(q)
                    == old(self).disk_manager.content(q),
    {
        let d = self.descriptors[f];
        if d.is_dirty {
            if let Some(pid) = d.page_id {
                let lsn = self.frames[f].get_lsn();
                let logged = match &mut self.log_manager {
                    Some(lm) => lm.flush_up_to(lsn),
                    None => Ok(()),
                };
                if let Err(e) = logged {
                    return Err(e);
                }
                match self.disk_manager.write_page(pid, &self.frames[f].data) {
                    Ok(()) => {},
                    Err(e) => {
                        return Err(BufferError::StorageError(e));
                    },
                }
                self.descriptors.set(f, FrameDescriptor { page_id: d.page_id, pin_count: d.pin_count, is_dirty: false });
                self.unsaved = Ghost(self.unsaved@.remove(f as int));
                proof {
                    assert forall|p: PageId| #[trigger] self.frame_of(p) == old(self).frame_of(p) by {}
                    if old(self).disk_modeled() {
                        assert forall|q: PageId| #[trigger] self.content(q) == old(self).content(q) by {
                            if q == pid {
                                old(self).lemma_frame_of(q);
                                assert(old(self).frame_of(q) == Some(f as int));
                            }
                        }
                    }
                }
            }
        }
        Ok(())
    }

    /// Brings a page into the pool and pins it. A page already held is a hit: its frame is
    /// pinned once more. Otherwise it is a miss: the first empty frame, else the least recently
    /// used unpinned frame, is written back if dirty and reused for the page read from disk.
    /// The frame used becomes the most recently used.
    #[verifier::rlimit(60)]
    pub fn fetch_page(&mut self, page_id: PageId) -> (r: Result<usize, BufferError>)
        requires
            old(self).wf(),
        ensures
            final(self).wf(),
            final(self).size() == old(self).size(),
            final(self).has_log() == old(self).has_log(),
            r matches Ok(f) ==> f < final(self).size() && final(self).frame_of(page_id) == Some(f as int)
                && final(self).desc(f as int).pin_count >= 1,
            final(self).pinned_kept(old(self)),
            match old(self).frame_of(page_id) {
                Some(f) => {
                    &&& r == Ok::<usize, BufferError>(f as usize)
                    &&& final(self).spec_hits() == old(self).spec_hits().wrapping_add(1)
                    &&& final(self).spec_misses() == old(self).spec_misses()
                    &&& final(self).desc(f) == FrameDescriptor {
                        pin_count: old(self).desc(f).pin_count.saturating_add(1),
                        ..old(self).desc(f)
                    }
                    &&& final(self).data(f) == old(self).data(f)
                    &&& final(self).others_unchanged(old(self), f)
                    &&& forall|p: PageId| #[trigger] final(self).frame_of(p) == old(self).frame_of(p)
                    &&& final(self).recency() == touch(old(self).recency(), f as usize)
                    &&& forall|g: int| #[trigger] final(self).unsaved(g) == old(self).unsaved(g)
                },
                None => {
                    &&& final(self).spec_hits() == old(self).spec_hits()
                    &&& final(self).spec_misses() == old(self).spec_misses().wrapping_add(1)
                    &&& old(self).all_pinned() ==> {
                        &&& r matches Err(BufferError::NoFreeFrames)
                        &&& final(self).others_unchanged(old(self), -1)
                        &&& forall|p: PageId| #[trigger] final(self).frame_of(p) == old(self).frame_of(p)
                    }
                    &&& r matches Err(BufferError::NoFreeFrames) ==> old(self).all_pinned() || old(self).has_log()
                    &&& r is Err ==> (final(self).frame_of(page_id) matches Some(g) ==> !final(self).desc(g).is_dirty)
                    &&& r matches Ok(f) ==> {
                        &&& old(self).victim(f as int)
                        &&& final(self).frame_of(page_id) == Some(f as int)
                        &&& final(self).desc(f as int) == (FrameDescriptor { page_id: Some(page_id), pin_count: 1, is_dirty: false })
                        &&& final(self).others_unchanged(old(self), f as int)
                        &&& forall|p: PageId|
                            p != page_id ==> #[trigger] final(self).frame_of(p) == if old(self).frame_of(p) == Some(f as int) {
                                None
                            } else {
                                old(self).frame_of(p)
                            }
                        &&& final(self).recency() == touch(old(self).recency(), f)
                    }
                },
            },
            old(self).frame_of(page_id) is Some || old(self).disk_modeled() ==> (r matches Ok(f) ==> final(self).data(f as int)
                == old(self).content(page_id)),
            final(self).disk_modeled() == old(self).disk_modeled(),
            final(self).io_reliable() == old(self).io_reliable(),
            old(self).io_reliable() && !old(self).all_pinned() ==> r is Ok,
            r is Ok && old(self).no_lost_writes() ==> final(self).no_lost_writes(),
            r is Ok && old(self).no_lost_writes() ==> forall|q: PageId| #[trigger] final(self).content(q) == old(self).content(q),
            r matches Ok(f) ==> (old(self).no_lost_writes() && final(self).unsaved(f as int) && !final(self).desc(
                f as int,
            ).is_dirty ==> final(self).desc(f as int).pin_count >= 2),
    {
        match self.lookup(page_id) {
            Some(f) => {
                self.hits = self.hits.wrapping_add(1);
                let d = self.descriptors[f];
                self.descriptors.set(f, FrameDescriptor { page_id: d.page_id, pin_count: d.pin_count.saturating_add(1), is_dirty: d.is_dirty });
                self.record_access(f);
                proof {
                    assert forall|p: PageId| #[trigger] self.frame_of(p) == old(self).frame_of(p) by {}
                    assert forall|i: int| 0 <= i < self.lru@.len() implies #[trigger] self.lru@[i] < self.pool_size by {
                        lemma_touch_member(old(self).lru@, f, i);
                    }
                    assert forall|g: int| 0 <= g < self.pool_size && (#[trigger] self.descriptors@[g]).page_id is Some implies self.lru@.contains(g as usize) by {
                        lemma_touch_keeps(old(self).lru@, f, g as usize);
                    }
                    assert forall|q: PageId| #[trigger] self.content(q) == old(self).content(q) by {}
                    if old(self).no_lost_writes() {
                        assert forall|g: int|
                            0 <= g < self.size() && #[trigger] self.unsaved(g) && self.occupied(g) && !self.desc(g).is_dirty
                                implies self.desc(g).pin_count > 0 by {
                            assert(self.unsaved(g) == old(self).unsaved(g));
                            if g != f {
                                assert(self.desc(g) == old(self).desc(g));
                            }
                        }
                        if self.unsaved(f as int) && !self.desc(f as int).is_dirty {
                            assert(old(self).unsaved(f as int));
                            assert(old(self).occupied(f as int));
                            assert(old(self).desc(f as int).pin_count > 0);
                        }
                    }
                }
                Ok(f)
            },
            None => {
                let found = self.find_victim_frame();
                self.misses = self.misses.wrapping_add(1);
                let victim = match found {
                    Some(v) => v,
                    None => {
                        proof {
                            assert forall|p: PageId| #[trigger] self.frame_of(p) == old(self).frame_of(p) by {}
                        }
                        return Err(BufferError::NoFreeFrames);
                    },
                };
                assert(old(self).desc(victim as int).pin_count == 0) by {
                    if old(self).occupied(victim as int) {
                        let j = choose|j: int| #[trigger] old(self).lru_victim_at(j) && old(self).recency()[j] == victim;
                    }
                }
                assert(!old(self).all_pinned()) by {
                    if !old(self).occupied(victim as int) {
                    } else {
                        let j = choose|j: int| #[trigger] old(self).lru_victim_at(j) && old(self).recency()[j] == victim;
                    }
                }
                let ghost before_flush = *self;
                match self.flush_frame_to_disk(victim) {
                    Ok(()) => {},
                    Err(e) => {
                        proof {
                            assert forall|g: int| 0 <= g < old(self).size() && old(self).desc(g).pin_count > 0 implies {
                                &&& #[trigger] self.data(g) == old(self).data(g)
                                &&& self.desc(g).page_id == old(self).desc(g).page_id
                                &&& self.desc(g).pin_count >= old(self).desc(g).pin_count
                            } by {
                                assert(before_flush.desc(g) == old(self).desc(g));
                                assert(before_flush.data(g) == old(self).data(g));
                            }
                        }
                        return Err(e);
                    },
                }
                let ghost af = *self;
                let d = self.descriptors[victim];
                if let Some(old_pid) = d.page_id {
                    let ok = key_of(old_pid);
                    self.page_table.remove(&ok);
                }
                let key = key_of(page_id);
                self.descriptors.set(victim, FrameDescriptor { page_id: Some(page_id), pin_count: 0, is_dirty: false });
                self.unsaved = Ghost(self.unsaved@.insert(victim as int));
                self.page_table.insert(key, victim);
                let ghost pre_access = *self;
                self.record_access(victim);
                let ghost mapped = *self;
                proof {
                    let bf = af;
                    assert forall|k: u64| #[trigger] self.page_table@.contains_key(k) implies {
                        let f = self.page_table@[k];
                        &&& f < self.pool_size
                        &&& self.descriptors@[f as int].page_id matches Some(p) && page_key(p) == k
                    } by {
                        if k != key {
                            let f = self.page_table@[k];
                            assert(bf.page_table@.contains_key(k));
                            assert(bf.page_table@[k] == f);
                            if f == victim {
                                assert(bf.descriptors@[f as int].page_id matches Some(p) && page_key(p) == k);
                                assert(false);
                            }
                        }
                    }
                    assert forall|f: int| 0 <= f < self.pool_size implies match (#[trigger] self.descriptors@[f]).page_id {
                        Some(p) => self.page_table@.contains_key(page_key(p)) && self.page_table@[page_key(p)] == f,
                        None => true,
                    } by {
                        if f != victim {
                            assert(self.descriptors@[f] == bf.descriptors@[f]);
                            if let Some(p) = self.descriptors@[f].page_id {
                                assert(bf.page_table@.contains_key(page_key(p)) && bf.page_table@[page_key(p)] == f);
                                if page_key(p) == key {
                                    lemma_page_key_injective(p, page_id);
                                    assert(bf.frame_of(page_id) == Some(f));
                                    assert(false);
                                }
                                if let Some(op) = d.page_id {
                                    if page_key(p) == page_key(op) {
                                        lemma_page_key_injective(p, op);
                                        assert(bf.page_table@[page_key(op)] == victim);
                                    }
                                }
                            }
                        }
                    }
                    assert forall|i: int| 0 <= i < self.lru@.len() implies #[trigger] self.lru@[i] < self.pool_size by {
                        lemma_touch_member(pre_access.lru@, victim, i);
                    }
                    assert forall|g: int| 0 <= g < self.pool_size && (#[trigger] self.descriptors@[g]).page_id is Some implies self.lru@.contains(g as usize) by {
                        if g != victim {
                            assert(bf.descriptors@[g].page_id is Some);
                        }
                        lemma_touch_keeps(pre_access.lru@, victim, g as usize);
                    }
                    if self.disk_manager.models_storage() {
                        assert forall|g: int|
                            0 <= g < self.pool_size && (#[trigger] self.descriptors@[g]).page_id is Some
                                && !self.descriptors@[g].is_dirty && !self.unsaved@.contains(g) implies self.frames@[g].data@
                            == self.disk_manager.content(self.descriptors@[g].page_id.unwrap()) by {
                            assert(g != victim);
                            assert(self.descriptors@[g] == bf.descriptors@[g]);
                            assert(self.frames@[g] == bf.frames@[g]);
                            assert(bf.unsaved@.contains(g) == self.unsaved@.contains(g));
                        }
                    }
                    assert(self.wf());
                }
                let mut buf = self.frames[victim].data.clone();
                proof {
                    assert(buf@ =~= self.frames@[victim as int].data@);
                }
                let read = match self.disk_manager.read_page(page_id, &mut buf) {
                    Ok(()) => if buf.len() == PAGE_SIZE {
                        Ok(())
                    } else {
                        Err(StorageError::OutOfBounds { file_id: page_id.file_id, page_num: page_id.page_num })
                    },
                    Err(e) => Err(e),
                };
                match read {
                    Ok(()) => {},
                    Err(e) => {
                        proof {
                            assert forall|g: int| 0 <= g < old(self).size() && old(self).desc(g).pin_count > 0 implies {
                                &&& #[trigger] self.data(g) == old(self).data(g)
                                &&& self.desc(g).page_id == old(self).desc(g).page_id
                                &&& self.desc(g).pin_count >= old(self).desc(g).pin_count
                            } by {
                                assert(g != victim);
                                assert(before_flush.desc(g) == old(self).desc(g));
                                assert(before_flush.data(g) == old(self).data(g));
                                assert(af.desc(g) == before_flush.desc(g));
                                assert(self.descriptors@[g] == af.descriptors@[g]);
                                assert(af.data(g) == before_flush.data(g));
                                assert(self.frames@[g] == af.frames@[g]);
                            }
                        }
                        return Err(BufferError::StorageError(e));
                    },
                }
                self.frames.set(victim, SlottedPage { data: buf });
                self.descriptors.set(victim, FrameDescriptor { page_id: Some(page_id), pin_count: 1, is_dirty: false });
                self.unsaved = Ghost(self.unsaved@.remove(victim as int));
                proof {
                    if self.disk_manager.models_storage() {
                        assert forall|g: int|
                            0 <= g < self.pool_size && (#[trigger] self.descriptors@[g]).page_id is Some
                                && !self.descriptors@[g].is_dirty && !self.unsaved@.contains(g) implies self.frames@[g].data@
                            == self.disk_manager.content(self.descriptors@[g].page_id.unwrap()) by {
                            if g != victim {
                                assert(self.descriptors@[g] == mapped.descriptors@[g]);
                                assert(self.frames@[g] == mapped.frames@[g]);
                                assert(mapped.unsaved@.contains(g) == self.unsaved@.contains(g));
                                assert(self.disk_manager.content(self.descriptors@[g].page_id.unwrap())
                                    == mapped.disk_manager.content(self.descriptors@[g].page_id.unwrap()));
                            }
                        }
                    }
                    assert forall|p: PageId| #[trigger] self.frame_of(p) == mapped.frame_of(p) by {}
                    assert(before_flush.descriptors == old(self).descriptors);
                    assert(before_flush.frames == old(self).frames);
                    assert(before_flush.page_table == old(self).page_table);
                    assert forall|p: PageId| p != page_id implies #[trigger] self.frame_of(p) == (if old(self).frame_of(p) == Some(
                        victim as int,
                    ) {
                        None
                    } else {
                        old(self).frame_of(p)
                    }) by {
                        lemma_page_key_injective(p, page_id);
                        assert(af.frame_of(p) == before_flush.frame_of(p));
                        assert(before_flush.frame_of(p) == old(self).frame_of(p));
                        if af.page_table@.contains_key(page_key(p)) && af.page_table@[page_key(p)] == victim {
                            assert(af.descriptors@[victim as int].page_id matches Some(q) && page_key(q) == page_key(p));
                            let q = af.descriptors@[victim as int].page_id.unwrap();
                            lemma_page_key_injective(p, q);
                        }
                        if let Some(op) = d.page_id {
                            lemma_page_key_injective(p, op);
                        }
                    }
                    assert forall|g: int| 0 <= g < self.size() && g != victim implies #[trigger] self.desc(g) == old(self).desc(g) by {
                        assert(af.desc(g) == before_flush.desc(g));
                        assert(self.descriptors@[g] == af.descriptors@[g]);
                    }
                    assert forall|g: int| 0 <= g < self.size() && g != victim implies #[trigger] self.data(g) == old(self).data(g) by {
                        assert(af.data(g) == before_flush.data(g));
                        assert(self.frames@[g] == af.frames@[g]);
                    }
                    assert(!self.unsaved(victim as int));
                    assert(old(self).frame_of(page_id) is None);
                    assert(old(self).disk_modeled() ==> self.data(victim as int) == old(self).content(page_id)) by {
                        if old(self).disk_modeled() {
                            if let Some(q0) = d.page_id {
                                assert(af.frame_of(q0) == Some(victim as int));
                                assert(q0 != page_id);
                            }
                            assert(af.disk_manager.content(page_id) == old(self).disk_manager.content(page_id));
                            assert(mapped.disk_manager == af.disk_manager);
                        }
                    }
                    if old(self).no_lost_writes() {
                        assert forall|g: int|
                            0 <= g < self.size() && #[trigger] self.unsaved(g) && self.occupied(g) && !self.desc(g).is_dirty
                                implies self.desc(g).pin_count > 0 by {
                            if g != victim {
                                assert(self.desc(g) == old(self).desc(g));
                                assert(before_flush.unsaved@ == old(self).unsaved@);
                                assert(af.unsaved(g) == before_flush.unsaved(g));
                                assert(mapped.unsaved@ == af.unsaved@.insert(victim as int));
                                assert(self.unsaved@ == mapped.unsaved@.remove(victim as int));
                                assert(self.unsaved(g) == old(self).unsaved(g));
                            }
                        }
                        assert forall|q: PageId| #[trigger] self.content(q) == old(self).content(q) by {
                            if q == page_id {
                                assert(self.frame_of(q) == Some(victim as int));
                            } else {
                                match old(self).frame_of(q) {
                                    Some(g) => {
                                        old(self).lemma_frame_of(q);
                                        if g == victim as int {
                                            assert(self.frame_of(q) is None);
                                            assert(old(self).desc(g).pin_count == 0);
                                            assert(!old(self).unsaved(g) || old(self).desc(g).is_dirty);
                                            assert(af.desc(g).page_id == Some(q));
                                            assert(!af.desc(g).is_dirty);
                                            assert(!af.unsaved(g));
                                            assert(af.frames@[g].data@ == af.disk_manager.content(q));
                                            assert(self.disk_manager.content(q) == af.disk_manager.content(q));
                                            assert(af.data(g) == before_flush.data(g));
                                            assert(before_flush.data(g) == old(self).data(g));
                                            assert(old(self).content(q) == old(self).data(g));
                                        } else {
                                            assert(self.frame_of(q) == Some(g));
                                            assert(self.data(g) == old(self).data(g));
                                        }
                                    },
                                    None => {
                                        assert(self.frame_of(q) is None);
                                        assert(af.disk_manager.content(q) == old(self).disk_manager.content(q));
                                        assert(self.disk_manager.content(q) == af.disk_manager.content(q));
                                    },
                                }
                            }
                        }
                    }
                }
                Ok(victim)
            },
        }
    }

    /// Drops one pin from a held page and marks it dirty when asked; a page not held is
    /// `PageNotFound` and nothing changes.
    pub fn unpin_page(&mut self, page_id: PageId, is_dirty: bool) -> (r: Result<(), BufferError>)
        requires
            old(self).wf(),
        ensures
            final(self).wf(),
            final(self).disk_modeled() == old(self).disk_modeled(),
            final(self).io_reliable() == old(self).io_reliable(),
            match old(self).frame_of(page_id) {
                Some(f) => {
                    &&& r is Ok
                    &&& final(self).desc(f) == FrameDescriptor {
                        pin_count: old(self).desc(f).pin_count.saturating_sub(1),
                        is_dirty: old(self).desc(f).is_dirty || is_dirty,
                        ..old(self).desc(f)
                    }
                    &&& final(self).data(f) == old(self).data(f)
                    &&& final(self).others_unchanged(old(self), f)
                    &&& forall|p: PageId| #[trigger] final(self).frame_of(p) == old(self).frame_of(p)
                    &&& final(self).recency() == old(self).recency()
                    &&& final(self).spec_hits() == old(self).spec_hits()
                    &&& final(self).spec_misses() == old(self).spec_misses()
                    &&& final(self).has_log() == old(self).has_log()
                },
                None => r matches Err(BufferError::PageNotFound) && *final(self) == *old(self),
            },
            forall|q: PageId| #[trigger] final(self).content(q) == old(self).content(q),
            forall|g: int| #[trigger] final(self).unsaved(g) == (old(self).unsaved(g) && !(is_dirty && old(self).frame_of(page_id)
                == Some(g))),
            old(self).no_lost_writes() && (old(self).frame_of(page_id) matches Some(f) ==> is_dirty || old(self).desc(f).is_dirty
                || !old(self).unsaved(f) || old(self).desc(f).pin_count >= 2) ==> final(self).no_lost_writes(),
    {
        match self.lookup(page_id) {
            Some(f) => {
                let d = self.descriptors[f];
                self.descriptors.set(
                    f,
                    FrameDescriptor { page_id: d.page_id, pin_count: d.pin_count.saturating_sub(1), is_dirty: d.is_dirty || is_dirty },
                );
                if is_dirty {
                    self.unsaved = Ghost(self.unsaved@.remove(f as int));
                }
                proof {
                    assert forall|p: PageId| #[trigger] self.frame_of(p) == old(self).frame_of(p) by {}
                    assert forall|q: PageId| #[trigger] self.content(q) == old(self).content(q) by {}
                    if old(self).no_lost_writes() && (is_dirty || old(self).desc(f as int).is_dirty || !old(self).unsaved(f as int)
                        || old(self).desc(f as int).pin_count >= 2) {
                        assert forall|g: int|
                            0 <= g < self.size() && #[trigger] self.unsaved(g) && self.occupied(g) && !self.desc(g).is_dirty
                                implies self.desc(g).pin_count > 0 by {
                            if g != f {
                                assert(self.desc(g) == old(self).desc(g));
                                assert(self.unsaved(g) == old(self).unsaved(g));
                            }
                        }
                    }
                }
                Ok(())
            },
            None => Err(BufferError::PageNotFound),
        }
    }

    /// Writes a held page back if it is dirty; a page not held is `PageNotFound`.
    pub fn flush_page(&mut self, page_id: PageId) -> (r: Result<(), BufferError>)
        requires
            old(self).wf(),
        ensures
            final(self).wf(),
            match old(self).frame_of(page_id) {
                Some(f) => {
                    &&& final(self).unchanged_but_flags(old(self))
                    &&& forall|g: int| 0 <= g < old(self).size() && g != f ==> #[trigger] final(self).desc(g) == old(self).desc(g)
                    &&& !old(self).desc(f).is_dirty ==> r is Ok && final(self).desc(f) == old(self).desc(f)
                    &&& r is Ok ==> !final(self).desc(f).is_dirty
                },
                None => r matches Err(BufferError::PageNotFound) && *final(self) == *old(self),
            },
            old(self).has_log() && old(self).log_modeled() && old(self).disk_modeled() ==> forall|q: PageId|
                #[trigger] final(self).stored(q) != old(self).stored(q) ==> final(self).log_durable_through(
                    crate::page::header_of(old(self).data(old(self).frame_of(page_id)->0)).log_sequence_number,
                ),
            old(self).frame_of(page_id) matches Some(f) ==> (old(self).has_log() && old(self).log_modeled() && old(
                self,
            ).desc(f).is_dirty && !final(self).log_durable_through(
                crate::page::header_of(old(self).data(f)).log_sequence_number,
            ) ==> r is Err && (forall|q: PageId| #[trigger] final(self).stored(q) == old(self).stored(q)) && final(self).desc(f)
                == old(self).desc(f)),
            final(self).disk_modeled() == old(self).disk_modeled(),
            old(self).disk_modeled() ==> forall|q: PageId| #[trigger] final(self).content(q) == old(self).content(q),
            forall|g: int| #[trigger] final(self).unsaved(g) ==> old(self).unsaved(g),
    {
        match self.lookup(page_id) {
            Some(f) => self.flush_frame_to_disk(f),
            None => Err(BufferError::PageNotFound),
        }
    }

    /// Writes every dirty page back, stopping at the first failure.
    pub fn flush_all_pages(&mut self) -> (r: Result<(), BufferError>)
        requires
            old(self).wf(),
        ensures
            final(self).wf(),
            final(self).unchanged_but_flags(old(self)),
            r is Ok ==> forall|f: int| 0 <= f < final(self).size() ==> !(#[trigger] final(self).desc(f)).is_dirty,
            r is Err ==> exists|k: int|
                0 <= k < final(self).size() && (forall|f: int| 0 <= f < k ==> !(#[trigger] final(self).desc(f)).is_dirty)
                    && (forall|f: int| k < f < final(self).size() ==> #[trigger] final(self).desc(f) == old(self).desc(f))
                    && old(self).desc(k).is_dirty && old(self).occupied(k),
            final(self).disk_modeled() == old(self).disk_modeled(),
            old(self).disk_modeled() ==> forall|q: PageId| #[trigger] final(self).content(q) == old(self).content(q),
            forall|g: int| #[trigger] final(self).unsaved(g) ==> old(self).unsaved(g),
            (forall|f: int| 0 <= f < old(self).size() ==> !((#[trigger] old(self).desc(f)).is_dirty && old(self).occupied(f)))
                ==> r is Ok,
            final(self).log_modeled() == old(self).log_modeled(),
            final(self).io_reliable() == old(self).io_reliable(),
    {
        let mut i: usize = 0;
        while i < self.descriptors.len()
            invariant
                self.wf(),
                forall|f: int| i <= f < self.size() ==> #[trigger] self.desc(f) == old(self).desc(f),
                self.unchanged_but_flags(old(self)),
                self.disk_modeled() == old(self).disk_modeled(),
                old(self).disk_modeled() ==> forall|q: PageId| #[trigger] self.content(q) == old(self).content(q),
                forall|g: int| #[trigger] self.unsaved(g) ==> old(self).unsaved(g),
                i <= self.descriptors@.len(),
                self.descriptors@.len() == self.size(),
                forall|f: int| 0 <= f < i ==> !(#[trigger] self.desc(f)).is_dirty,
                self.log_modeled() == old(self).log_modeled(),
                self.io_reliable() == old(self).io_reliable(),
            decreases self.descriptors@.len() - i,
        {
            let ghost before = *self;
            match self.flush_frame_to_disk(i) {
                Ok(()) => {},
                Err(e) => {
                    proof {
                        assert forall|p: PageId| #[trigger] self.frame_of(p) == old(self).frame_of(p) by {
                            assert(before.frame_of(p) == old(self).frame_of(p));
                        }
                        assert forall|f: int| 0 <= f < i implies !(#[trigger] self.desc(f)).is_dirty by {
                            assert(before.desc(f) == self.desc(f));
                        }
                        assert forall|f: int| i < f < self.size() implies #[trigger] self.desc(f) == old(self).desc(f) by {
                            assert(before.desc(f) == self.desc(f));
                        }
                        assert(before.desc(i as int) == old(self).desc(i as int));
                        assert(old(self).desc(i as int).is_dirty && old(self).occupied(i as int));
                        let k = i as int;
                        assert(0 <= k < self.size() && (forall|f: int| 0 <= f < k ==> !(#[trigger] self.desc(f)).is_dirty)
                            && (forall|f: int| k < f < self.size() ==> #[trigger] self.desc(f) == old(self).desc(f))
                            && old(self).desc(k).is_dirty && old(self).occupied(k));
                    }
                    return Err(e);
                },
            }
            proof {
                assert forall|f: int| 0 <= f < i + 1 implies !(#[trigger] self.desc(f)).is_dirty by {
                    if f < i {
                        assert(before.desc(f) == self.desc(f));
                    }
                }
                assert forall|p: PageId| #[trigger] self.frame_of(p) == old(self).frame_of(p) by {
                    assert(before.frame_of(p) == old(self).frame_of(p));
                }
            }
            i += 1;
        }
        Ok(())
    }

    /// Allocates a page in a file and brings it into the pool, pinned.
    pub fn new_page(&mut self, file_id: u32) -> (r: Result<(usize, PageId), BufferError>)
        requires
            old(self).wf(),
        ensures
            final(self).wf(),
            final(self).size() == old(self).size(),
            final(self).has_log() == old(self).has_log(),
            final(self).pinned_kept(old(self)),
            r matches Ok((f, p)) ==> {
                &&& p.file_id == file_id
                &&& f < final(self).size()
                &&& final(self).frame_of(p) == Some(f as int)
                &&& final(self).desc(f as int).page_id == Some(p)
                &&& final(self).desc(f as int).pin_count >= 1
                &&& old(self).disk_modeled() ==> final(self).data(f as int) == old(self).content(p)
            },
            r matches Ok((f, p)) ==> (old(self).frame_of(p) is None ==> {
                &&& old(self).victim(f as int)
                &&& final(self).desc(f as int) == (FrameDescriptor { page_id: Some(p), pin_count: 1, is_dirty: false })
                &&& final(self).others_unchanged(old(self), f as int)
                &&& final(self).recency() == touch(old(self).recency(), f)
            }),
            old(self).all_pinned() ==> (r matches Err(BufferError::NoFreeFrames) || r matches Err(BufferError::StorageError(_))
                || (r matches Ok((f, p)) && old(self).frame_of(p) is Some)),
            old(self).all_pinned() && old(self).io_reliable() ==> (r matches Err(BufferError::NoFreeFrames) || (r matches Ok(
                (f, p),
            ) && old(self).frame_of(p) is Some)),
            old(self).io_reliable() && !old(self).all_pinned() ==> r is Ok,
            old(self).disk_modeled() ==> (r matches Ok((f, p)) ==> p == old(self).next_page(file_id)),
            old(self).all_pinned() && old(self).io_reliable() && old(self).frame_of(old(self).next_page(file_id)) is None
                ==> r matches Err(BufferError::NoFreeFrames),
            final(self).disk_modeled() == old(self).disk_modeled(),
            final(self).io_reliable() == old(self).io_reliable(),
            r matches Err(BufferError::NoFreeFrames) ==> old(self).all_pinned() || old(self).has_log(),
            r is Ok && old(self).no_lost_writes() ==> final(self).no_lost_writes(),
            r is Ok && old(self).no_lost_writes() ==> forall|q: PageId| #[trigger] final(self).content(q) == old(self).content(q),
    {
        let page_id = match self.disk_manager.allocate_page(file_id) {
            Ok(p) => p,
            Err(e) => {
                return Err(BufferError::StorageError(e));
            },
        };
        if page_id.file_id != file_id {
            return Err(BufferError::StorageError(StorageError::FileError(file_id)));
        }
        let ghost mid = *self;
        proof {
            if old(self).disk_modeled() {
                assert forall|q: PageId| #[trigger] mid.content(q) == old(self).content(q) by {
                    assert(mid.frame_of(q) == old(self).frame_of(q));
                }
                assert forall|g: int|
                    0 <= g < old(self).pool_size && (#[trigger] old(self).descriptors@[g]).page_id is Some
                        && !old(self).descriptors@[g].is_dirty && !old(self).unsaved@.contains(g) implies mid.frames@[g].data@
                        == mid.disk_manager.content(mid.descriptors@[g].page_id.unwrap()) by {}
            }
            if old(self).no_lost_writes() {
                assert forall|g: int|
                    0 <= g < mid.size() && #[trigger] mid.unsaved(g) && mid.occupied(g) && !mid.desc(g).is_dirty
                        implies mid.desc(g).pin_count > 0 by {
                    assert(mid.unsaved(g) == old(self).unsaved(g));
                    assert(mid.desc(g) == old(self).desc(g));
                }
            }
        }
        assert(mid.wf());
        proof {
            assert(mid.descriptors == old(self).descriptors);
            assert(mid.pool_size == old(self).pool_size);
            if mid.all_pinned() {
                assert forall|f: int| 0 <= f < old(self).size() implies #[trigger] old(self).occupied(f) && old(self).desc(f).pin_count
                    > 0 by {
                    assert(mid.occupied(f));
                }
            }
            assert(mid.has_log() == old(self).has_log());
        }
        proof {
            assert forall|p: PageId| #[trigger] mid.frame_of(p) == old(self).frame_of(p) by {}
            assert(mid.recency() == old(self).recency());
            assert(mid.lru == old(self).lru);
            assert(mid.descriptors == old(self).descriptors);
            assert(mid.size() == old(self).size());
            assert(mid.recency() == old(self).recency());
            assert forall|g: int| 0 <= g < old(self).size() implies #[trigger] mid.data(g) == old(self).data(g) by {}
        }
        let r = self.fetch_page(page_id);
        proof {
            Self::lemma_frames_alike(&mid, &*old(self));
            Self::lemma_frames_alike(&*old(self), &mid);
            assert forall|g: int| 0 <= g < old(self).size() && old(self).desc(g).pin_count > 0 implies {
                &&& #[trigger] self.data(g) == old(self).data(g)
                &&& self.desc(g).page_id == old(self).desc(g).page_id
                &&& self.desc(g).pin_count >= old(self).desc(g).pin_count
            } by {
                assert(mid.desc(g) == old(self).desc(g));
                assert(mid.data(g) == old(self).data(g));
            }
        }
        match r {
            Ok(f) => Ok((f, page_id)),
            Err(e) => Err(e),
        }
    }

    /// Forgets every page of a file without writing it back.
    pub fn drop_relation(&mut self, file_id: u32)
        requires
            old(self).wf(),
        ensures
            final(self).wf(),
            final(self).size() == old(self).size(),
            forall|f: int|
                0 <= f < old(self).size() ==> #[trigger] final(self).desc(f) == if in_file(old(self).desc(f), file_id) {
                    FrameDescriptor { page_id: None, pin_count: 0, is_dirty: false }
                } else {
                    old(self).desc(f)
                },
            forall|f: int| 0 <= f < old(self).size() ==> #[trigger] final(self).data(f) == old(self).data(f),
            forall|p: PageId| #[trigger] final(self).frame_of(p) == if p.file_id == file_id {
                None
            } else {
                old(self).frame_of(p)
            },
            final(self).recency() == old(self).recency(),
            final(self).spec_hits() == old(self).spec_hits(),
            final(self).spec_misses() == old(self).spec_misses(),
            final(self).has_log() == old(self).has_log(),
            forall|q: PageId| #[trigger] final(self).content(q) == if q.file_id == file_id {
                old(self).stored(q)
            } else {
                old(self).content(q)
            },
            forall|q: PageId| #[trigger] final(self).stored(q) == old(self).stored(q),
            forall|g: int| #[trigger] final(self).unsaved(g) == old(self).unsaved(g),
            old(self).no_lost_writes() ==> final(self).no_lost_writes(),
    {
        let mut i: usize = 0;
        while i < self.descriptors.len()
            invariant
                self.wf(),
                self.unsaved == old(self).unsaved,
                self.disk_manager == old(self).disk_manager,
                i <= self.descriptors@.len(),
                self.descriptors@.len() == old(self).descriptors@.len(),
                self.pool_size == old(self).pool_size,
                self.frames == old(self).frames,
                self.lru == old(self).lru,
                self.hits == old(self).hits,
                self.misses == old(self).misses,
                self.log_manager == old(self).log_manager,
                old(self).wf(),
                forall|f: int|
                    0 <= f < old(self).size() ==> #[trigger] self.desc(f) == if f < i && in_file(old(self).desc(f), file_id) {
                        FrameDescriptor { page_id: None, pin_count: 0, is_dirty: false }
                    } else {
                        old(self).desc(f)
                    },
                forall|p: PageId| #[trigger] self.frame_of(p) == if p.file_id == file_id && below(old(self).frame_of(p), i as int) {
                    None
                } else {
                    old(self).frame_of(p)
                },
            decreases self.descriptors@.len() - i,
        {
            let d = self.descriptors[i];
            let ghost start = *self;
            proof {
                assert(self.desc(i as int) == old(self).desc(i as int));
            }
            if let Some(pid) = d.page_id {
                if pid.file_id == file_id {
                    let ghost before = *self;
                    let k = key_of(pid);
                    self.page_table.remove(&k);
                    self.descriptors.set(i, FrameDescriptor { page_id: None, pin_count: 0, is_dirty: false });
                    proof {
                        assert forall|p: PageId| #[trigger] self.frame_of(p) == if p.file_id == file_id && below(old(self).frame_of(p), i + 1) {
                            None
                        } else {
                            old(self).frame_of(p)
                        } by {
                            lemma_page_key_injective(p, pid);
                            assert(before.frame_of(p) == if p.file_id == file_id && below(old(self).frame_of(p), i as int) {
                                None
                            } else {
                                old(self).frame_of(p)
                            });
                            if old(self).frame_of(p) == Some(i as int) {
                                assert(old(self).descriptors@[i as int].page_id matches Some(q) && page_key(q) == page_key(p));
                                let q = old(self).descriptors@[i as int].page_id.unwrap();
                                lemma_page_key_injective(p, q);
                            }
                        }
                    }
                }
            }
            proof {
                assert forall|f: int|
                    0 <= f < old(self).size() implies #[trigger] self.desc(f) == if f < i + 1 && in_file(old(self).desc(f), file_id) {
                        FrameDescriptor { page_id: None, pin_count: 0, is_dirty: false }
                    } else {
                        old(self).desc(f)
                    } by {
                    if f != i {
                        assert(self.desc(f) == start.desc(f));
                    }
                }
                assert forall|p: PageId| #[trigger] self.frame_of(p) == if p.file_id == file_id && below(old(self).frame_of(p), i + 1) {
                    None
                } else {
                    old(self).frame_of(p)
                } by {
                    if old(self).frame_of(p) == Some(i as int) && p.file_id == file_id {
                        assert(old(self).descriptors@[i as int].page_id matches Some(q) && page_key(q) == page_key(p));
                        let q = old(self).descriptors@[i as int].page_id.unwrap();
                        lemma_page_key_injective(p, q);
                    }
                }
            }
            i += 1;
        }
        proof {
            assert forall|p: PageId| #[trigger] self.frame_of(p) == if p.file_id == file_id {
                None
            } else {
                old(self).frame_of(p)
            } by {
                if let Some(f) = old(self).frame_of(p) {
                    assert(f < old(self).size());
                }
            }
            assert forall|q: PageId| #[trigger] self.content(q) == if q.file_id == file_id {
                old(self).stored(q)
            } else {
                old(self).content(q)
            } by {
                if let Some(f) = old(self).frame_of(q) {
                    assert(f < old(self).size());
                    if q.file_id != file_id {
                        assert(self.data(f) == old(self).data(f));
                    }
                }
            }
            if old(self).no_lost_writes() {
                assert forall|g: int|
                    0 <= g < self.size() && #[trigger] self.unsaved(g) && self.occupied(g) && !self.desc(g).is_dirty
                        implies self.desc(g).pin_count > 0 by {
                    assert(self.unsaved(g) == old(self).unsaved(g));
                    if !in_file(old(self).desc(g), file_id) {
                        assert(self.desc(g) == old(self).desc(g));
                    }
                }
            }
        }
    }
}

} // verus!
