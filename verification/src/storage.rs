//! Physical page and tuple identifiers.
use vstd::prelude::*;

verus! {

/// A physical page: a file and a page number within it.
#[derive(Debug, Clone, Copy, PartialEq, Eq, Hash, Default, Structural)]
pub struct PageId {
    pub file_id: u32,
    pub page_num: u32,
}

/// A physical tuple identifier: a page and a slot within it.
#[derive(Debug, Clone, Copy, PartialEq, Eq, Hash, Default, Structural)]
pub struct CTID {
    pub page_id: PageId,
    pub slot_idx: u16,
}

/// Errors of physical storage operations.
#[derive(Debug)]
pub enum StorageError {
    /// An operating-system I/O error, with its message.
    IoError(String),
    /// A page that does not exist in its file.
    OutOfBounds { file_id: u32, page_num: u32 },
    /// A file that could not be created or opened.
    FileError(u32),
}

/// The physical layer that reads and writes whole pages.
pub trait DiskManager<const PAGE_SIZE: usize> {
    /// The implementation states its storage in [`content`](DiskManager::content) and
    /// [`total_pages`](DiskManager::total_pages) and meets the contracts below. An
    /// implementation written outside this library keeps the default, `false`: then the
    /// contracts promise nothing of it, and nothing proved here rests on its behavior.
    closed spec fn models_storage(&self) -> bool {
        false
    }

    /// What the page holds on disk: the bytes last written to it, zeros where nothing was.
    /// It means something only for an implementation that models its storage.
    closed spec fn content(&self, p: PageId) -> Seq<u8> {
        Seq::empty()
    }

    /// Its reads, writes and allocations never fail. An implementation written outside this
    /// library keeps the default, `false`.
    closed spec fn reliable(&self) -> bool {
        false
    }

    /// Reads a page into `data`; pages never written read as zeros. Reading changes no page.
    fn read_page(&mut self, page_id: PageId, data: &mut Vec<u8>) -> (r: Result<(), StorageError>)
        requires
            old(data)@.len() == PAGE_SIZE,
        ensures
            final(self).models_storage() == old(self).models_storage(),
            final(self).reliable() == old(self).reliable(),
            old(self).reliable() ==> r is Ok,
            old(self).models_storage() ==> {
                &&& final(data)@.len() == PAGE_SIZE
                &&& r is Ok ==> final(data)@ == old(self).content(page_id)
                &&& forall|q: PageId| #[trigger] final(self).content(q) == old(self).content(q)
            },
    ;

    /// Writes a page; no other page changes, and once it succeeds the page holds `data`.
    fn write_page(&mut self, page_id: PageId, data: &Vec<u8>) -> (r: Result<(), StorageError>)
        requires
            data@.len() == PAGE_SIZE,
        ensures
            final(self).models_storage() == old(self).models_storage(),
            final(self).reliable() == old(self).reliable(),
            old(self).reliable() ==> r is Ok,
            old(self).models_storage() ==> {
                &&& r is Ok ==> final(self).content(page_id) == data@
                &&& forall|q: PageId| q != page_id ==> #[trigger] final(self).content(q) == old(self).content(q)
            },
    ;

    /// Allocates a fresh page at the end of a file; allocation writes no page.
    fn allocate_page(&mut self, file_id: u32) -> (r: Result<PageId, StorageError>)
        ensures
            final(self).models_storage() == old(self).models_storage(),
            final(self).reliable() == old(self).reliable(),
            old(self).reliable() ==> r is Ok,
            old(self).models_storage() ==> {
                &&& r matches Ok(p) ==> p.file_id == file_id && p.page_num == old(self).total_pages(file_id)
                &&& forall|q: PageId| #[trigger] final(self).content(q) == old(self).content(q)
            },
    ;

    /// Gives a page back; space reuse is left to the implementation.
    fn deallocate_page(&mut self, page_id: PageId);

    /// How many pages of a file have been allocated. It means something only for an
    /// implementation that models its storage.
    closed spec fn total_pages(&self, file_id: u32) -> u32 {
        0
    }

    /// Number of pages allocated in a file.
    fn get_total_pages(&self, file_id: u32) -> (r: Result<u32, StorageError>)
        ensures
            self.models_storage() ==> (r matches Ok(n) ==> n == self.total_pages(file_id)),
    ;
}

/// The pages of one file kept in memory.
#[derive(Debug)]
pub struct MemoryFile {
    /// The file's id.
    pub file_id: u32,
    /// Pages allocated so far.
    pub total_pages: u32,
    /// Pages written so far, by page number; an empty entry reads as zeros.
    pub pages: Vec<Vec<u8>>,
}

/// A disk manager that keeps every file in memory.
#[derive(Debug)]
pub struct MemoryDiskManager<const PAGE_SIZE: usize> {
    files: Vec<MemoryFile>,
}

/// A page of zeros.
pub open spec fn zero_page(n: nat) -> Seq<u8> {
    Seq::new(n, |i: int| 0u8)
}

/// `i` is the first position holding `file_id`.
pub open spec fn first_with(files: Seq<MemoryFile>, file_id: u32, i: int) -> bool {
    &&& 0 <= i < files.len()
    &&& files[i].file_id == file_id
    &&& forall|k: int| 0 <= k < i ==> (#[trigger] files[k]).file_id != file_id
}

/// A file listed anywhere has a first position.
proof fn lemma_first_exists(files: Seq<MemoryFile>, file_id: u32, k: int)
    requires
        0 <= k < files.len(),
        files[k].file_id == file_id,
    ensures
        exists|i: int| first_with(files, file_id, i),
    decreases k,
{
    if exists|j: int| 0 <= j < k && files[j].file_id == file_id {
        let j = choose|j: int| 0 <= j < k && files[j].file_id == file_id;
        lemma_first_exists(files, file_id, j);
    } else {
        assert(first_with(files, file_id, k));
    }
}

impl<const PAGE_SIZE: usize> MemoryDiskManager<PAGE_SIZE> {
    /// Position of a file in the list.
    pub closed spec fn file_index(&self, file_id: u32) -> Option<int> {
        if exists|i: int| first_with(self.files@, file_id, i) {
            Some(choose|i: int| first_with(self.files@, file_id, i))
        } else {
            None
        }
    }

    /// What reading a page gives: the bytes last written to it, or zeros.
    pub closed spec fn page_view(&self, p: PageId) -> Seq<u8> {
        match self.file_index(p.file_id) {
            Some(i) => {
                let f = self.files@[i];
                if p.page_num < f.pages@.len() && f.pages@[p.page_num as int]@.len() == PAGE_SIZE {
                    f.pages@[p.page_num as int]@
                } else {
                    zero_page(PAGE_SIZE as nat)
                }
            },
            None => zero_page(PAGE_SIZE as nat),
        }
    }

    /// Pages allocated in a file.
    pub closed spec fn allocated(&self, file_id: u32) -> u32 {
        match self.file_index(file_id) {
            Some(i) => self.files@[i].total_pages,
            None => 0,
        }
    }

    /// An empty disk.
    pub fn new() -> (r: Self)
        ensures
            forall|p: PageId| #[trigger] r.page_view(p) == zero_page(PAGE_SIZE as nat),
            forall|f: u32| #[trigger] r.allocated(f) == 0,
    {
        MemoryDiskManager { files: Vec::new() }
    }

    fn find(&self, file_id: u32) -> (r: Option<usize>)
        ensures
            match r {
                Some(i) => self.file_index(file_id) == Some(i as int) && i < self.files@.len(),
                None => self.file_index(file_id) is None,
            },
    {
        let mut i: usize = 0;
        while i < self.files.len()
            invariant
                i <= self.files@.len(),
                forall|k: int| 0 <= k < i ==> (#[trigger] self.files@[k]).file_id != file_id,
            decreases self.files@.len() - i,
        {
            if self.files[i].file_id == file_id {
                proof {
                    assert(first_with(self.files@, file_id, i as int));
                    let w = choose|k: int| first_with(self.files@, file_id, k);
                    assert(w == i) by {
                        if w < i {
                            assert(self.files@[w].file_id != file_id);
                        } else if w > i {
                            assert(self.files@[i as int].file_id != file_id);
                        }
                    }
                }
                return Some(i);
            }
            i += 1;
        }
        None
    }

    /// Position of a file, adding it empty when absent.
    fn find_or_add(&mut self, file_id: u32) -> (r: usize)
        ensures
            r < final(self).files@.len(),
            final(self).file_index(file_id) == Some(r as int),
            forall|k: int| 0 <= k < old(self).files@.len() ==> #[trigger] final(self).files@[k] == old(self).files@[k],
            final(self).files@.len() >= old(self).files@.len(),
            forall|p: PageId| #[trigger] final(self).page_view(p) == old(self).page_view(p),
            forall|f: u32| #[trigger] final(self).allocated(f) == old(self).allocated(f),
            forall|f: u32| f != file_id ==> #[trigger] final(self).file_index(f) == old(self).file_index(f),
    {
        match self.find(file_id) {
            Some(i) => i,
            None => {
                let ghost old_files = self.files@;
                self.files.push(MemoryFile { file_id, total_pages: 0, pages: Vec::new() });
                let n = self.files.len() - 1;
                proof {
                    assert forall|f: u32| #[trigger] self.file_index(f) == if f == file_id { Some(n as int) } else { old(self).file_index(f) } by {
                        if f == file_id {
                            assert forall|k: int| 0 <= k < n implies (#[trigger] self.files@[k]).file_id != file_id by {
                                assert(self.files@[k] == old_files[k]);
                                if old_files[k].file_id == file_id {
                                    lemma_first_exists(old_files, file_id, k);
                                }
                            }
                            assert(first_with(self.files@, file_id, n as int));
                            let w = choose|k: int| first_with(self.files@, file_id, k);
                            assert(w == n) by {
                                if w < n {
                                    assert(self.files@[w].file_id != file_id);
                                }
                            }
                        } else {
                            if exists|k: int| first_with(old_files, f, k) {
                                let v = choose|k: int| first_with(old_files, f, k);
                                assert(first_with(self.files@, f, v)) by {
                                    assert forall|k: int| 0 <= k < v implies (#[trigger] self.files@[k]).file_id != f by {
                                        assert(self.files@[k] == old_files[k]);
                                    }
                                }
                                let w = choose|k: int| first_with(self.files@, f, k);
                                assert(w == v) by {
                                    if w < v {
                                        assert(self.files@[w] == old_files[w]);
                                    } else if w > v {
                                        assert(self.files@[v] == old_files[v]);
                                    }
                                }
                            } else {
                                if exists|k: int| first_with(self.files@, f, k) {
                                    let w = choose|k: int| first_with(self.files@, f, k);
                                    if w < n {
                                        assert(first_with(old_files, f, w)) by {
                                            assert forall|k: int| 0 <= k < w implies (#[trigger] old_files[k]).file_id != f by {
                                                assert(self.files@[k] == old_files[k]);
                                            }
                                        }
                                    }
                                }
                            }
                        }
                    }
                    assert forall|p: PageId| #[trigger] self.page_view(p) == old(self).page_view(p) by {
                        if let Some(i) = old(self).file_index(p.file_id) {
                            assert(self.files@[i] == old_files[i]);
                        }
                    }
                    assert forall|f: u32| #[trigger] self.allocated(f) == old(self).allocated(f) by {
                        if let Some(i) = old(self).file_index(f) {
                            assert(self.files@[i] == old_files[i]);
                        }
                    }
                }
                n
            },
        }
    }
}

/// A file has at most one first position.
proof fn lemma_first_unique(files: Seq<MemoryFile>, file_id: u32, i: int, j: int)
    requires
        first_with(files, file_id, i),
        first_with(files, file_id, j),
    ensures
        i == j,
{
    if i < j {
        assert(files[i].file_id != file_id);
    } else if j < i {
        assert(files[j].file_id != file_id);
    }
}

/// Replacing a file entry by one with the same id keeps every file's first position.
proof fn lemma_same_ids(a: Seq<MemoryFile>, b: Seq<MemoryFile>, id: u32)
    requires
        a.len() == b.len(),
        forall|k: int| 0 <= k < a.len() ==> (#[trigger] a[k]).file_id == b[k].file_id,
    ensures
        forall|i: int| first_with(a, id, i) <==> #[trigger] first_with(b, id, i),
{
    assert forall|i: int| first_with(a, id, i) implies #[trigger] first_with(b, id, i) by {
        assert forall|k: int| 0 <= k < i implies (#[trigger] b[k]).file_id != id by {
            assert(a[k].file_id == b[k].file_id);
        }
    }
    assert forall|i: int| first_with(b, id, i) implies #[trigger] first_with(a, id, i) by {
        assert forall|k: int| 0 <= k < i implies (#[trigger] a[k]).file_id != id by {
            assert(a[k].file_id == b[k].file_id);
        }
    }
}

impl<const PAGE_SIZE: usize> MemoryDiskManager<PAGE_SIZE> {
    proof fn lemma_update_entry(old_m: &Self, new_m: &Self, i: int)
        requires
            0 <= i < old_m.files@.len(),
            new_m.files@.len() == old_m.files@.len(),
            new_m.files@[i].file_id == old_m.files@[i].file_id,
            forall|k: int| 0 <= k < old_m.files@.len() && k != i ==> #[trigger] new_m.files@[k] == old_m.files@[k],
        ensures
            forall|f: u32| #[trigger] new_m.file_index(f) == old_m.file_index(f),
    {
        assert forall|f: u32| #[trigger] new_m.file_index(f) == old_m.file_index(f) by {
            assert forall|k: int| 0 <= k < old_m.files@.len() implies (#[trigger] old_m.files@[k]).file_id == new_m.files@[k].file_id by {
                if k != i {
                    assert(new_m.files@[k] == old_m.files@[k]);
                }
            }
            lemma_same_ids(old_m.files@, new_m.files@, f);
            if exists|i: int| first_with(old_m.files@, f, i) {
                let x = choose|i: int| first_with(old_m.files@, f, i);
                assert(first_with(new_m.files@, f, x));
                let y = choose|i: int| first_with(new_m.files@, f, i);
                lemma_first_unique(new_m.files@, f, x, y);
            } else {
                if exists|i: int| first_with(new_m.files@, f, i) {
                    let y = choose|i: int| first_with(new_m.files@, f, i);
                    assert(first_with(old_m.files@, f, y));
                }
            }
        }
    }
}

impl<const PAGE_SIZE: usize> DiskManager<PAGE_SIZE> for MemoryDiskManager<PAGE_SIZE> {
    open spec fn models_storage(&self) -> bool {
        true
    }

    open spec fn reliable(&self) -> bool {
        true
    }

    open spec fn content(&self, p: PageId) -> Seq<u8> {
        self.page_view(p)
    }

    open spec fn total_pages(&self, file_id: u32) -> u32 {
        self.allocated(file_id)
    }

    fn read_page(&mut self, page_id: PageId, data: &mut Vec<u8>) -> (r: Result<(), StorageError>)
        ensures
            r is Ok,
            final(data)@ == old(self).page_view(page_id),
            *final(self) == *old(self),
    {
        if let Some(i) = self.find(page_id.file_id) {
            let pn = page_id.page_num as usize;
            if pn < self.files[i].pages.len() && self.files[i].pages[pn].len() == PAGE_SIZE {
                let copy = self.files[i].pages[pn].clone();
                proof {
                    assert(copy@ =~= self.files@[i as int].pages@[pn as int]@);
                }
                *data = copy;
                return Ok(());
            }
        }
        let mut k: usize = 0;
        while k < data.len()
            invariant
                data@.len() == PAGE_SIZE,
                k <= data@.len(),
                forall|j: int| 0 <= j < k ==> data@[j] == 0u8,
            decreases data@.len() - k,
        {
            data.set(k, 0u8);
            k += 1;
        }
        proof {
            assert(data@ =~= zero_page(PAGE_SIZE as nat));
        }
        Ok(())
    }

    fn write_page(&mut self, page_id: PageId, data: &Vec<u8>) -> (r: Result<(), StorageError>)
        ensures
            r is Ok,
            forall|q: PageId| #[trigger] final(self).page_view(q) == if q == page_id { data@ } else { old(self).page_view(q) },
            forall|f: u32| #[trigger] final(self).allocated(f) == old(self).allocated(f),
    {
        let i = self.find_or_add(page_id.file_id);
        let ghost mid = *self;
        let mut f = self.files.remove(i);
        let pn = page_id.page_num as usize;
        let ghost pages0 = f.pages@;
        while f.pages.len() <= pn
            invariant
                f.pages@.len() >= pages0.len(),
                forall|k: int| 0 <= k < pages0.len() ==> #[trigger] f.pages@[k] == pages0[k],
                forall|k: int| pages0.len() <= k < f.pages@.len() ==> (#[trigger] f.pages@[k])@.len() == 0,
                f.file_id == page_id.file_id,
                f.total_pages == mid.files@[i as int].total_pages,
            decreases pn + 1 - f.pages@.len(),
        {
            f.pages.push(Vec::new());
        }
        let copy = data.clone();
        proof {
            assert(copy@ =~= data@);
        }
        f.pages.set(pn, copy);
        let ghost fv = f;
        self.files.insert(i, f);
        proof {
            assert(self.files@ =~= mid.files@.update(i as int, fv));
            assert(mid.files@[i as int].file_id == page_id.file_id);
            Self::lemma_update_entry(&mid, self, i as int);
            assert forall|q: PageId| #[trigger] self.page_view(q) == if q == page_id { data@ } else { old(self).page_view(q) } by {
                assert(self.file_index(q.file_id) == mid.file_index(q.file_id));
                assert(mid.page_view(q) == old(self).page_view(q));
                if q.file_id == page_id.file_id {
                    assert(mid.file_index(q.file_id) == Some(i as int));
                    assert(self.files@[i as int] == fv);
                    if q.page_num == page_id.page_num {
                        assert(q == page_id);
                        assert(fv.pages@[pn as int]@ == data@);
                    } else if q.page_num < pages0.len() {
                        assert(fv.pages@[q.page_num as int] == pages0[q.page_num as int]);
                    } else if q.page_num < fv.pages@.len() {
                        assert(fv.pages@[q.page_num as int]@.len() == 0);
                        if PAGE_SIZE == 0 {
                            assert(fv.pages@[q.page_num as int]@ =~= zero_page(PAGE_SIZE as nat));
                        }
                    }
                } else {
                    if let Some(j) = mid.file_index(q.file_id) {
                        assert(j != i);
                        assert(self.files@[j] == mid.files@[j]);
                    }
                }
            }
            assert forall|g: u32| #[trigger] self.allocated(g) == old(self).allocated(g) by {
                assert(self.file_index(g) == mid.file_index(g));
                assert(mid.allocated(g) == old(self).allocated(g));
                if let Some(j) = mid.file_index(g) {
                    if j == i {
                        assert(self.files@[j] == fv);
                    } else {
                        assert(self.files@[j] == mid.files@[j]);
                    }
                }
            }
        }
        Ok(())
    }

    fn allocate_page(&mut self, file_id: u32) -> (r: Result<PageId, StorageError>)
        ensures
            r == Ok::<PageId, StorageError>(PageId { file_id, page_num: old(self).allocated(file_id) }),
            final(self).allocated(file_id) == old(self).allocated(file_id).wrapping_add(1),
            forall|f: u32| f != file_id ==> #[trigger] final(self).allocated(f) == old(self).allocated(f),
            forall|q: PageId| #[trigger] final(self).page_view(q) == old(self).page_view(q),
    {
        let i = self.find_or_add(file_id);
        let ghost mid = *self;
        let mut f = self.files.remove(i);
        proof {
            assert(f == mid.files@[i as int]);
            assert(mid.allocated(file_id) == f.total_pages);
        }
        let pn = f.total_pages;
        f.total_pages = f.total_pages.wrapping_add(1);
        let ghost fv = f;
        self.files.insert(i, f);
        proof {
            assert(self.files@ =~= mid.files@.update(i as int, fv));
            Self::lemma_update_entry(&mid, self, i as int);
            assert(fv.pages == mid.files@[i as int].pages);
            assert forall|q: PageId| #[trigger] self.page_view(q) == old(self).page_view(q) by {
                assert(self.file_index(q.file_id) == mid.file_index(q.file_id));
                assert(mid.page_view(q) == old(self).page_view(q));
                if let Some(j) = mid.file_index(q.file_id) {
                    if j != i {
                        assert(self.files@[j] == mid.files@[j]);
                    } else {
                        assert(self.files@[j] == fv);
                    }
                }
            }
            assert forall|g: u32| g != file_id implies #[trigger] self.allocated(g) == old(self).allocated(g) by {
                if let Some(j) = mid.file_index(g) {
                    assert(j != i);
                    assert(self.files@[j] == mid.files@[j]);
                }
            }
        }
        Ok(PageId { file_id, page_num: pn })
    }

    fn deallocate_page(&mut self, page_id: PageId) {
    }

    fn get_total_pages(&self, file_id: u32) -> (r: Result<u32, StorageError>)
        ensures
            r == Ok::<u32, StorageError>(self.allocated(file_id)),
    {
        match self.find(file_id) {
            Some(i) => Ok(self.files[i].total_pages),
            None => Ok(0),
        }
    }
}

} // verus!
