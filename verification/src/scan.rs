//! Scans that read a relation's tuples through the buffer pool: in page order, or by the ids
//! an index returns.
use crate::btree::BTreeIndex;
use crate::buffer::{BufferPoolManager, LogManager};
use crate::page::TupleHeader;
use crate::query::{get_record_from_bytes, get_total_slots_from_bytes, live_record, ExecutionContext, Executor, QueryError};
use crate::schema::Schema;
use crate::storage::{DiskManager, PageId, CTID};
use crate::tuple::Tuple;
use vstd::prelude::*;
use vstd::string::*;

verus! {

/// Page `p` of file `file`.
pub open spec fn page_of(file: u32, p: u32) -> PageId {
    PageId { file_id: file, page_num: p }
}

/// Reads every live record of the pages `0..=max_pages` of a heap file, in page and slot order.
/// A page that cannot be brought into the pool is skipped.
pub struct SeqScan<const PAGE_SIZE: usize, D, L> {
    file_id: u32,
    schema: Schema,
    current_page_num: u64,
    current_slot: usize,
    max_pages: u32,
    pool_type: core::marker::PhantomData<(D, L)>,
    given: Ghost<Seq<Tuple>>,
}

impl<const PAGE_SIZE: usize, D: DiskManager<PAGE_SIZE>, L: LogManager> SeqScan<PAGE_SIZE, D, L> {
    /// The heap file scanned.
    pub closed spec fn file(&self) -> u32 {
        self.file_id
    }

    /// The last page scanned.
    pub closed spec fn last_page(&self) -> u32 {
        self.max_pages
    }

    /// The page the scan reads from next.
    pub closed spec fn page_pos(&self) -> int {
        self.current_page_num as int
    }

    /// The slot of that page the scan reads from next.
    pub closed spec fn slot_pos(&self) -> int {
        self.current_slot as int
    }

    /// Every page has been read: the scan gives no more tuples.
    pub closed spec fn exhausted(&self) -> bool {
        self.current_page_num > self.max_pages as u64
    }

    /// A scan of the pages `0..=max_pages` of `file_id`, producing tuples of `schema`.
    pub fn new(file_id: u32, schema: Schema, max_pages: u32) -> (r: Self)
        ensures
            r.file() == file_id,
            r.last_page() == max_pages,
            r.out_schema() == schema,
            r.inv(),
            !r.exhausted(),
            r.page_pos() == 0 && r.slot_pos() == 0,
    {
        SeqScan {
            file_id,
            schema,
            current_page_num: 0,
            current_slot: 0,
            max_pages,
            pool_type: core::marker::PhantomData,
            given: Ghost(Seq::empty()),
        }
    }
}

impl<const PAGE_SIZE: usize, D: DiskManager<PAGE_SIZE>, L: LogManager> ExecutionContext for BufferPoolManager<PAGE_SIZE, D, L> {
    open spec fn ready(&self) -> bool {
        self.wf()
    }
}

impl<const PAGE_SIZE: usize, D: DiskManager<PAGE_SIZE>, L: LogManager> Executor<BufferPoolManager<PAGE_SIZE, D, L>> for SeqScan<PAGE_SIZE, D, L> {

    closed spec fn inv(&self) -> bool {
        self.current_page_num <= self.max_pages as u64 + 1
    }

    closed spec fn out_schema(&self) -> Schema {
        self.schema
    }

    closed spec fn finished(&self) -> bool {
        self.exhausted()
    }

    closed spec fn produced(&self) -> Seq<Tuple> {
        self.given@
    }

    /// The next live record, reading on from the current page and slot. A record returned is
    /// the payload of a live record of one of the scanned pages, as the pool now holds it: the
    /// first live one of its page from where the scan stood (from the first slot on a later
    /// page), and the scan goes on from the slot after it. Pages that cannot be brought into
    /// the pool are skipped.
    fn next(&mut self, ctx: &mut BufferPoolManager<PAGE_SIZE, D, L>) -> (r: Result<Option<Tuple>, QueryError>)
        ensures
            r is Ok,
            final(self).file() == old(self).file(),
            final(self).last_page() == old(self).last_page(),
            old(self).exhausted() ==> r == Ok::<Option<Tuple>, QueryError>(None),
            r == Ok::<Option<Tuple>, QueryError>(None) <==> final(self).exhausted(),
            r matches Ok(Some(t)) ==> exists|p: u32, f: int, s: int|
                #![trigger live_record(final(ctx).data(f), s), page_of(old(self).file(), p)]
                {
                    &&& p <= old(self).last_page()
                    &&& final(ctx).frame_of(page_of(old(self).file(), p)) == Some(f)
                    &&& live_record(final(ctx).data(f), s) matches Some((_, b)) && b == t.data@
                    &&& p > old(self).page_pos() || (p == old(self).page_pos() && s >= old(self).slot_pos())
                    &&& final(self).page_pos() == p && final(self).slot_pos() == s + 1
                    &&& forall|s2: int|
                        (if p == old(self).page_pos() { old(self).slot_pos() } else { 0 }) <= s2 < s
                            ==> #[trigger] live_record(final(ctx).data(f), s2) is None
                },
    {
        let ghost file = self.file_id;
        let ghost last = self.max_pages;
        while self.current_page_num <= self.max_pages as u64
            invariant
                self.inv(),
                ctx.ready(),
                self.out_schema() == old(self).out_schema(),
                self.current_page_num <= self.max_pages as u64 + 1,
                self.file_id == file,
                self.max_pages == last,
                file == old(self).file_id,
                last == old(self).max_pages,
                self.current_page_num >= old(self).current_page_num,
                self.current_page_num == old(self).current_page_num ==> self.current_slot == old(self).current_slot,
                self.given == old(self).given,
                self.current_page_num > old(self).current_page_num ==> self.current_slot == 0,
            decreases self.max_pages as u64 + 1 - self.current_page_num,
        {
            let page_id = PageId { file_id: self.file_id, page_num: self.current_page_num as u32 };
            let frame_id = match ctx.fetch_page(page_id) {
                Ok(f) => f,
                Err(_) => {
                    self.current_page_num = self.current_page_num + 1;
                    self.current_slot = 0;
                    continue;
                },
            };
            proof {
                ctx.lemma_page_size();
            }
            let page = ctx.read_page(frame_id);
            let max_slots = get_total_slots_from_bytes(&page.data);
            let mut found: Option<Tuple> = None;
            let ghost cp = self.current_page_num;
            let ghost mp = self.max_pages;
            let ghost mut found_slot: int = 0;
            let ghost mut found_h: TupleHeader = TupleHeader { xmin: 0, xmax: 0 };
            let ghost start = self.current_slot as int;
            while self.current_slot < max_slots
                invariant_except_break
                    found is None,
                invariant
                    found matches Some(t) ==> live_record(page.data@, found_slot) == Some((found_h, t.data@)),
                    start <= self.current_slot,
                    found is Some ==> found_slot == self.current_slot - 1 && start <= found_slot,
                    forall|s2: int|
                        start <= s2 < (if found is Some { found_slot } else { self.current_slot as int })
                            ==> #[trigger] live_record(page.data@, s2) is None,
                    self.file_id == file,
                    ctx.ready(),
                    self.current_page_num == cp,
                    self.max_pages == mp,
                    self.inv(),
                    self.out_schema() == old(self).out_schema(),
                    self.given == old(self).given,
                    self.current_page_num <= self.max_pages as u64,
                    page.data@.len() == PAGE_SIZE,
                    16 <= PAGE_SIZE <= 0xffff,
                decreases max_slots - self.current_slot,
            {
                let slot = self.current_slot;
                self.current_slot = self.current_slot + 1;
                match get_record_from_bytes(&page.data, slot) {
                    Some((h, bytes)) => {
                        proof {
                            found_slot = slot as int;
                            found_h = h;
                        }
                        found = Some(Tuple { data: bytes });
                        break;
                    },
                    None => {},
                }
            }
            let ghost data_before = page.data@;
            proof {
                ctx.lemma_frame_of(page_id);
            }
            let _ = ctx.unpin_page(page_id, false);
            match found {
                Some(t) => {
                    proof {
                        let pn = cp as u32;
                        assert(page_of(file, pn) == page_id);
                        assert(ctx.frame_of(page_id) == Some(frame_id as int));
                        assert(ctx.data(frame_id as int) == data_before);
                        assert(live_record(ctx.data(frame_id as int), found_slot) == Some((found_h, t.data@)));
                        assert(start == if pn == old(self).current_page_num { old(self).current_slot as int } else { 0 });
                        assert forall|s2: int| start <= s2 < found_slot implies #[trigger] live_record(
                            ctx.data(frame_id as int),
                            s2,
                        ) is None by {
                            assert(live_record(data_before, s2) is None);
                        }
                        assert(self.page_pos() == pn && self.slot_pos() == found_slot + 1);
                        assert(exists|p: u32, f: int, s: int|
                            #![trigger live_record(ctx.data(f), s), page_of(old(self).file(), p)]
                            {
                                &&& p <= old(self).last_page()
                                &&& ctx.frame_of(page_of(old(self).file(), p)) == Some(f)
                                &&& live_record(ctx.data(f), s) matches Some((_, b)) && b == t.data@
                                &&& p > old(self).page_pos() || (p == old(self).page_pos() && s >= old(self).slot_pos())
                                &&& self.page_pos() == p && self.slot_pos() == s + 1
                                &&& forall|s2: int|
                                    (if p == old(self).page_pos() { old(self).slot_pos() } else { 0 }) <= s2 < s
                                        ==> #[trigger] live_record(ctx.data(f), s2) is None
                            });
                    }
                    self.given = Ghost(self.given@.push(t));
                    return Ok(Some(t));
                },
                None => {},
            }
            self.current_page_num = self.current_page_num + 1;
            self.current_slot = 0;
        }
        Ok(None)
    }

    fn schema(&self) -> &Schema {
        &self.schema
    }
}

/// The message when an index entry names a slot that holds no live record.
pub open spec fn missing_ctid_message() -> Seq<char> {
    "CTID not found"@
}

/// Reads the records an index range search found, in the order it returned them.
pub struct IndexScan<const PAGE_SIZE: usize, D, L> {
    schema: Schema,
    ctids: Vec<CTID>,
    position: usize,
    pool_type: core::marker::PhantomData<(D, L)>,
    given: Ghost<Seq<Tuple>>,
}

impl<const PAGE_SIZE: usize, D: DiskManager<PAGE_SIZE>, L: LogManager> IndexScan<PAGE_SIZE, D, L> {
    /// The tuple ids still to read, the next first.
    pub closed spec fn pending(&self) -> Seq<CTID> {
        self.ctids@.skip(self.position as int)
    }

    /// A scan of the records whose keys lie in `start_key..=end_key`, found through `index`.
    pub fn new(
        buffer_pool: &mut BufferPoolManager<PAGE_SIZE, D, L>,
        schema: Schema,
        index: &BTreeIndex,
        start_key: i32,
        end_key: i32,
    ) -> (r: Result<Self, QueryError>)
        requires
            old(buffer_pool).wf(),
            44 <= PAGE_SIZE,
        ensures
            final(buffer_pool).wf(),
            r matches Ok(s) ==> s.inv() && s.out_schema() == schema,
            index.root() is None ==> (r matches Ok(s) && s.pending().len() == 0),
    {
        match index.range_search(buffer_pool, start_key, end_key) {
            Ok(ctids) => {
                proof {
                    assert(ctids@.skip(0) =~= ctids@);
                }
                Ok(
                    IndexScan {
                        schema,
                        ctids,
                        position: 0,
                        pool_type: core::marker::PhantomData,
                        given: Ghost(Seq::empty()),
                    },
                )
            },
            Err(e) => Err(QueryError::Index(e)),
        }
    }
}

impl<const PAGE_SIZE: usize, D: DiskManager<PAGE_SIZE>, L: LogManager> Executor<BufferPoolManager<PAGE_SIZE, D, L>> for IndexScan<PAGE_SIZE, D, L> {

    closed spec fn inv(&self) -> bool {
        self.position <= self.ctids@.len()
    }

    closed spec fn out_schema(&self) -> Schema {
        self.schema
    }

    closed spec fn finished(&self) -> bool {
        self.pending().len() == 0
    }

    closed spec fn produced(&self) -> Seq<Tuple> {
        self.given@
    }

    /// The record of the next tuple id; `None` once all are read. A tuple id whose slot holds
    /// no live record is an error.
    fn next(&mut self, ctx: &mut BufferPoolManager<PAGE_SIZE, D, L>) -> (r: Result<Option<Tuple>, QueryError>)
        ensures
            old(self).pending().len() == 0 ==> r == Ok::<Option<Tuple>, QueryError>(None) && final(self).pending().len() == 0,
            old(self).pending().len() > 0 ==> final(self).pending() == old(self).pending().drop_first() && r != Ok::<
                Option<Tuple>,
                QueryError,
            >(None),
            r matches Ok(Some(t)) ==> old(self).pending().len() > 0 && ({
                let c = old(self).pending()[0];
                final(ctx).frame_of(c.page_id) matches Some(f) && (live_record(final(ctx).data(f), c.slot_idx as int) matches Some((_, b))
                    && b == t.data@)
            }),
            r matches Err(QueryError::Execution(m)) ==> m@ == missing_ctid_message(),
    {
        if self.position >= self.ctids.len() {
            return Ok(None);
        }
        proof {
            assert(self.ctids@.skip(self.position as int).drop_first() =~= self.ctids@.skip(self.position + 1));
        }
        let ctid = self.ctids[self.position];
        self.position = self.position + 1;
        let frame_id = match ctx.fetch_page(ctid.page_id) {
            Ok(f) => f,
            Err(e) => {
                return Err(QueryError::Buffer(e));
            },
        };
        proof {
            ctx.lemma_page_size();
        }
        let page = ctx.read_page(frame_id);
        let record = get_record_from_bytes(&page.data, ctid.slot_idx as usize);
        let ghost data_before = page.data@;
        proof {
            ctx.lemma_frame_of(ctid.page_id);
        }
        match record {
            Some((_, bytes)) => {
                let _ = ctx.unpin_page(ctid.page_id, false);
                proof {
                    assert(ctx.data(frame_id as int) == data_before);
                }
                let t = Tuple { data: bytes };
                self.given = Ghost(self.given@.push(t));
                Ok(Some(t))
            },
            None => {
                proof {
                    reveal_strlit("CTID not found");
                }
                Err(QueryError::Execution(String::from_str("CTID not found")))
            },
        }
    }

    fn schema(&self) -> &Schema {
        &self.schema
    }
}

/// The scan a plan starts from.
pub enum ScanPlan<const PAGE_SIZE: usize, D, L> {
    /// Records found through an index.
    Index(IndexScan<PAGE_SIZE, D, L>),
    /// Every record of the heap file.
    Sequential(SeqScan<PAGE_SIZE, D, L>),
}

impl<const PAGE_SIZE: usize, D: DiskManager<PAGE_SIZE>, L: LogManager> ScanPlan<PAGE_SIZE, D, L> {
    /// The scan the plan holds gives no more tuples.
    pub open spec fn exhausted(&self) -> bool {
        match self {
            ScanPlan::Index(s) => s.pending().len() == 0,
            ScanPlan::Sequential(s) => s.exhausted(),
        }
    }
}

impl<const PAGE_SIZE: usize, D: DiskManager<PAGE_SIZE>, L: LogManager> Executor<BufferPoolManager<PAGE_SIZE, D, L>> for ScanPlan<PAGE_SIZE, D, L> {

    closed spec fn inv(&self) -> bool {
        match self {
            ScanPlan::Index(s) => s.inv(),
            ScanPlan::Sequential(s) => s.inv(),
        }
    }

    closed spec fn out_schema(&self) -> Schema {
        match self {
            ScanPlan::Index(s) => s.out_schema(),
            ScanPlan::Sequential(s) => s.out_schema(),
        }
    }

    closed spec fn finished(&self) -> bool {
        self.exhausted()
    }

    closed spec fn produced(&self) -> Seq<Tuple> {
        match self {
            ScanPlan::Index(s) => s.produced(),
            ScanPlan::Sequential(s) => s.produced(),
        }
    }

    /// The next tuple of the scan the plan holds.
    fn next(&mut self, ctx: &mut BufferPoolManager<PAGE_SIZE, D, L>) -> (r: Result<Option<Tuple>, QueryError>)
        ensures
            (*final(self) is Index) == (*old(self) is Index),
            old(self).exhausted() ==> r == Ok::<Option<Tuple>, QueryError>(None),
            r == Ok::<Option<Tuple>, QueryError>(None) ==> final(self).exhausted(),
            *old(self) is Sequential ==> r is Ok,
    {
        match self {
            ScanPlan::Index(s) => s.next(ctx),
            ScanPlan::Sequential(s) => s.next(ctx),
        }
    }

    fn schema(&self) -> &Schema {
        match self {
            ScanPlan::Index(s) => s.schema(),
            ScanPlan::Sequential(s) => s.schema(),
        }
    }
}

/// Chooses how a relation is scanned.
pub struct Optimizer;

impl Optimizer {
    /// An index scan over `start..=end` when an index and bounds are given, else a sequential
    /// scan of the pages `0..=max_pages` of `file_id`.
    pub fn optimize<const PAGE_SIZE: usize, D: DiskManager<PAGE_SIZE>, L: LogManager>(
        buffer_pool: &mut BufferPoolManager<PAGE_SIZE, D, L>,
        file_id: u32,
        schema: Schema,
        max_pages: u32,
        index_opt: Option<(&BTreeIndex, i32, i32)>,
    ) -> (r: Result<ScanPlan<PAGE_SIZE, D, L>, QueryError>)
        requires
            old(buffer_pool).wf(),
            index_opt is Some ==> 44 <= PAGE_SIZE,
        ensures
            final(buffer_pool).wf(),
            r matches Ok(p) ==> p.inv() && p.out_schema() == schema,
            r matches Ok(p) ==> (p is Index <==> index_opt is Some),
            index_opt is None ==> (r matches Ok(ScanPlan::Sequential(s)) && s.file() == file_id && s.last_page() == max_pages),
    {
        match index_opt {
            Some((index, start_key, end_key)) => {
                match IndexScan::new(buffer_pool, schema, index, start_key, end_key) {
                    Ok(s) => Ok(ScanPlan::Index(s)),
                    Err(e) => Err(e),
                }
            },
            None => Ok(ScanPlan::Sequential(SeqScan::new(file_id, schema, max_pages))),
        }
    }
}

} // verus!
