//! The catalog: logical table names mapped to their physical relations and schemas.
use crate::schema::{Column, Schema};
use vstd::prelude::*;
use vstd::string::*;

verus! {

/// Metadata of one table.
#[derive(Debug)]
pub struct TableMetadata {
    /// Logical table name.
    pub name: String,
    /// The file holding the table's heap pages.
    pub heap_relation_id: u32,
    /// The file holding the table's B+Tree index.
    pub index_relation_id: u32,
    /// Root page number of the index, once it exists.
    pub root_page_num: Option<u32>,
    /// Schema of the table.
    pub schema: Schema,
    /// Number of records in the table.
    pub num_records: usize,
}

/// The content of a table's metadata.
pub struct TableView {
    pub name: Seq<char>,
    pub heap_relation_id: u32,
    pub index_relation_id: u32,
    pub root_page_num: Option<u32>,
    pub columns: Seq<crate::schema::ColumnView>,
    pub num_records: usize,
}

impl View for TableMetadata {
    type V = TableView;

    open spec fn view(&self) -> TableView {
        TableView {
            name: self.name@,
            heap_relation_id: self.heap_relation_id,
            index_relation_id: self.index_relation_id,
            root_page_num: self.root_page_num,
            columns: crate::schema::columns_view(self.schema.columns@),
            num_records: self.num_records,
        }
    }
}

impl TableMetadata {
    /// A copy of this metadata.
    pub fn duplicate(&self) -> (r: Self)
        ensures
            r@ == self@,
    {
        TableMetadata {
            name: self.name.clone(),
            heap_relation_id: self.heap_relation_id,
            index_relation_id: self.index_relation_id,
            root_page_num: self.root_page_num,
            schema: self.schema.duplicate(),
            num_records: self.num_records,
        }
    }
}

/// Catalog errors.
#[derive(Debug)]
pub enum CatalogError {
    /// Reading or writing the catalog's file failed.
    Io(String),
    /// The catalog's file could not be encoded or decoded.
    Serde(String),
    /// Table already exists.
    TableExists(String),
    /// Table not found.
    TableNotFound(String),
}

/// The catalog's content: the next free relation id and the tables.
#[derive(Debug)]
pub struct CatalogData {
    pub next_relation_id: u32,
    pub tables: Vec<TableMetadata>,
}

/// Position of the table with the given name.
pub open spec fn table_index(tables: Seq<TableView>, name: Seq<char>) -> Option<int> {
    if exists|i: int| 0 <= i < tables.len() && tables[i].name == name {
        Some(choose|i: int| 0 <= i < tables.len() && tables[i].name == name)
    } else {
        None
    }
}

/// No two tables share a name.
pub open spec fn names_unique(tables: Seq<TableView>) -> bool {
    forall|i: int, j: int|
        0 <= i < tables.len() && 0 <= j < tables.len() && i != j ==> #[trigger] tables[i].name != #[trigger] tables[j].name
}

/// The catalog manager.
#[derive(Debug)]
pub struct Catalog {
    data: CatalogData,
}

impl Catalog {
    /// The tables, in the order they are kept.
    pub closed spec fn tables(&self) -> Seq<TableView> {
        self.data.tables@.map_values(|t: TableMetadata| t@)
    }

    /// The relation id the next created table will get for its heap.
    pub closed spec fn next_id(&self) -> u32 {
        self.data.next_relation_id
    }

    /// Table names are unique.
    pub open spec fn wf(&self) -> bool {
        names_unique(self.tables())
    }

    /// An empty catalog; relation ids start at 0.
    pub fn new() -> (r: Self)
        ensures
            r.wf(),
            r.tables() == Seq::<TableView>::empty(),
            r.next_id() == 0,
    {
        let r = Catalog { data: CatalogData { next_relation_id: 0, tables: Vec::new() } };
        assert(r.tables() =~= Seq::<TableView>::empty());
        r
    }

    /// A catalog holding the given data; `None` when two tables share a name.
    pub fn from_data(data: CatalogData) -> (r: Option<Self>)
        ensures
            match r {
                Some(c) => c.wf() && c.tables() == data.tables@.map_values(|t: TableMetadata| t@)
                    && c.next_id() == data.next_relation_id,
                None => !names_unique(data.tables@.map_values(|t: TableMetadata| t@)),
            },
    {
        let ghost tv = data.tables@.map_values(|t: TableMetadata| t@);
        let mut i: usize = 0;
        while i < data.tables.len()
            invariant
                i <= data.tables@.len(),
                tv == data.tables@.map_values(|t: TableMetadata| t@),
                forall|a: int, b: int| 0 <= a < i && 0 <= b < tv.len() && a != b ==> #[trigger] tv[a].name != #[trigger] tv[b].name,
            decreases data.tables@.len() - i,
        {
            let mut j: usize = 0;
            while j < data.tables.len()
                invariant
                    i < data.tables@.len(),
                    j <= data.tables@.len(),
                    tv == data.tables@.map_values(|t: TableMetadata| t@),
                    forall|a: int, b: int| 0 <= a < i && 0 <= b < tv.len() && a != b ==> #[trigger] tv[a].name != #[trigger] tv[b].name,
                    forall|b: int| 0 <= b < j && b != i ==> tv[i as int].name != #[trigger] tv[b].name,
                decreases data.tables@.len() - j,
            {
                if i != j && data.tables[i].name == data.tables[j].name {
                    assert(tv[i as int].name == tv[j as int].name);
                    return None;
                }
                j += 1;
            }
            i += 1;
        }
        Some(Catalog { data })
    }

    /// Gives up the catalog and returns its data.
    pub fn into_data(self) -> (r: CatalogData)
        ensures
            r.tables@.map_values(|t: TableMetadata| t@) == self.tables(),
            r.next_relation_id == self.next_id(),
    {
        self.data
    }

    /// The catalog's data, for persisting it.
    pub fn data(&self) -> (r: &CatalogData)
        ensures
            r.tables@.map_values(|t: TableMetadata| t@) == self.tables(),
            r.next_relation_id == self.next_id(),
    {
        &self.data
    }

    fn find(&self, name: &str) -> (r: Option<usize>)
        requires
            self.wf(),
        ensures
            match r {
                Some(i) => table_index(self.tables(), name@) == Some(i as int),
                None => table_index(self.tables(), name@) is None,
            },
    {
        let ghost tv = self.tables();
        let target = String::from_str(name);
        let mut i: usize = 0;
        while i < self.data.tables.len()
            invariant
                i <= self.data.tables@.len(),
                tv == self.tables(),
                names_unique(tv),
                target@ == name@,
                forall|k: int| 0 <= k < i ==> tv[k].name != name@,
            decreases self.data.tables@.len() - i,
        {
            if self.data.tables[i].name == target {
                assert(tv[i as int].name == name@);
                let ghost w = choose|k: int| 0 <= k < tv.len() && tv[k].name == name@;
                assert(w == i) by {
                    if w != i {
                        assert(tv[w].name != tv[i as int].name);
                    }
                }
                return Some(i);
            }
            i += 1;
        }
        None
    }

    /// Creates a table with no columns.
    pub fn create_table(&mut self, name: &str) -> (r: Result<&TableMetadata, CatalogError>)
        requires
            old(self).wf(),
            old(self).next_id() <= u32::MAX - 2,
        ensures
            final(self).wf(),
            create_result(*old(self), *final(self), name@, Seq::empty(), r),
    {
        let schema = Schema::new(Vec::new());
        assert(crate::schema::columns_view(schema.columns@) =~= Seq::<crate::schema::ColumnView>::empty());
        self.create_table_with_schema(name, schema)
    }

    /// Creates a table with the given schema; its heap and index get the next two relation ids.
    pub fn create_table_with_schema(&mut self, name: &str, schema: Schema) -> (r: Result<&TableMetadata, CatalogError>)
        requires
            old(self).wf(),
            old(self).next_id() <= u32::MAX - 2,
        ensures
            final(self).wf(),
            create_result(*old(self), *final(self), name@, crate::schema::columns_view(schema.columns@), r),
    {
        if self.find(name).is_some() {
            return Err(CatalogError::TableExists(String::from_str(name)));
        }
        let heap_id = self.data.next_relation_id;
        self.data.next_relation_id = self.data.next_relation_id + 1;
        let index_id = self.data.next_relation_id;
        self.data.next_relation_id = self.data.next_relation_id + 1;
        let meta = TableMetadata {
            name: String::from_str(name),
            heap_relation_id: heap_id,
            index_relation_id: index_id,
            root_page_num: None,
            schema,
            num_records: 0,
        };
        let ghost old_tables = self.tables();
        self.data.tables.push(meta);
        proof {
            assert(self.tables() =~= old_tables.push(self.data.tables@.last()@));
            assert forall|i: int, j: int|
                0 <= i < self.tables().len() && 0 <= j < self.tables().len() && i != j implies #[trigger] self.tables()[i].name
                != #[trigger] self.tables()[j].name by {
                if i < old_tables.len() && j < old_tables.len() {
                    assert(old_tables[i] == self.tables()[i]);
                    assert(old_tables[j] == self.tables()[j]);
                }
            }
        }
        let idx = self.data.tables.len() - 1;
        Ok(&self.data.tables[idx])
    }

    /// The metadata of a table.
    pub fn get_table(&self, name: &str) -> (r: Result<TableMetadata, CatalogError>)
        requires
            self.wf(),
        ensures
            match table_index(self.tables(), name@) {
                Some(i) => r matches Ok(m) && m@ == self.tables()[i],
                None => r matches Err(CatalogError::TableNotFound(n)) && n@ == name@,
            },
    {
        match self.find(name) {
            Some(i) => Ok(self.data.tables[i].duplicate()),
            None => Err(CatalogError::TableNotFound(String::from_str(name))),
        }
    }

    /// The schema of a table.
    pub fn get_schema(&self, name: &str) -> (r: Result<Schema, CatalogError>)
        requires
            self.wf(),
        ensures
            match table_index(self.tables(), name@) {
                Some(i) => r matches Ok(s) && crate::schema::columns_view(s.columns@) == self.tables()[i].columns,
                None => r matches Err(CatalogError::TableNotFound(n)) && n@ == name@,
            },
    {
        match self.get_table(name) {
            Ok(meta) => Ok(meta.schema),
            Err(e) => Err(e),
        }
    }

    /// Sets the index root page of a table; nothing else changes.
    pub fn update_root_page(&mut self, name: &str, root_page_num: Option<u32>) -> (r: Result<(), CatalogError>)
        requires
            old(self).wf(),
        ensures
            final(self).wf(),
            final(self).next_id() == old(self).next_id(),
            match table_index(old(self).tables(), name@) {
                Some(i) => r is Ok && final(self).tables() == old(self).tables().update(
                    i,
                    TableView { root_page_num, ..old(self).tables()[i] },
                ),
                None => r matches Err(CatalogError::TableNotFound(n)) && n@ == name@ && final(self).tables()
                    == old(self).tables(),
            },
    {
        match self.find(name) {
            Some(i) => {
                let ghost old_tables = self.tables();
                let mut meta = self.data.tables.remove(i);
                meta.root_page_num = root_page_num;
                self.data.tables.insert(i, meta);
                proof {
                    assert(self.tables() =~= old_tables.update(
                        i as int,
                        TableView { root_page_num, ..old_tables[i as int] },
                    ));
                    assert forall|a: int, b: int|
                        0 <= a < self.tables().len() && 0 <= b < self.tables().len() && a != b implies #[trigger] self.tables()[a].name
                        != #[trigger] self.tables()[b].name by {
                        assert(self.tables()[a].name == old_tables[a].name);
                        assert(self.tables()[b].name == old_tables[b].name);
                    }
                }
                Ok(())
            },
            None => Err(CatalogError::TableNotFound(String::from_str(name))),
        }
    }

    /// Adjusts a table's record count by `delta`, staying within `0..=usize::MAX`.
    pub fn update_num_records(&mut self, name: &str, delta: i64) -> (r: Result<(), CatalogError>)
        requires
            old(self).wf(),
        ensures
            final(self).wf(),
            final(self).next_id() == old(self).next_id(),
            match table_index(old(self).tables(), name@) {
                Some(i) => r is Ok && final(self).tables() == old(self).tables().update(
                    i,
                    TableView { num_records: adjusted_count(old(self).tables()[i].num_records, delta), ..old(self).tables()[i] },
                ),
                None => r matches Err(CatalogError::TableNotFound(n)) && n@ == name@ && final(self).tables()
                    == old(self).tables(),
            },
    {
        match self.find(name) {
            Some(i) => {
                let ghost old_tables = self.tables();
                let mut meta = self.data.tables.remove(i);
                let n = meta.num_records;
                let new_n: usize = if delta >= 0 {
                    let up = delta as u64;
                    if (up as u128) + (n as u128) > usize::MAX as u128 {
                        usize::MAX
                    } else {
                        n + (up as usize)
                    }
                } else {
                    let d: i128 = -(delta as i128);
                    if d > n as i128 {
                        0
                    } else {
                        n - (d as usize)
                    }
                };
                assert(new_n == adjusted_count(n, delta));
                meta.num_records = new_n;
                self.data.tables.insert(i, meta);
                proof {
                    assert(self.tables() =~= old_tables.update(
                        i as int,
                        TableView { num_records: adjusted_count(old_tables[i as int].num_records, delta), ..old_tables[i as int] },
                    ));
                    assert forall|a: int, b: int|
                        0 <= a < self.tables().len() && 0 <= b < self.tables().len() && a != b implies #[trigger] self.tables()[a].name
                        != #[trigger] self.tables()[b].name by {
                        assert(self.tables()[a].name == old_tables[a].name);
                        assert(self.tables()[b].name == old_tables[b].name);
                    }
                }
                Ok(())
            },
            None => Err(CatalogError::TableNotFound(String::from_str(name))),
        }
    }

    /// Removes a table from the catalog and returns its metadata.
    pub fn drop_table(&mut self, name: &str) -> (r: Result<TableMetadata, CatalogError>)
        requires
            old(self).wf(),
        ensures
            final(self).wf(),
            final(self).next_id() == old(self).next_id(),
            match table_index(old(self).tables(), name@) {
                Some(i) => r matches Ok(m) && m@ == old(self).tables()[i] && final(self).tables() == old(
                    self,
                ).tables().remove(i),
                None => r matches Err(CatalogError::TableNotFound(n)) && n@ == name@ && final(self).tables()
                    == old(self).tables(),
            },
    {
        match self.find(name) {
            Some(i) => {
                let ghost old_tables = self.tables();
                let meta = self.data.tables.remove(i);
                proof {
                    assert(self.tables() =~= old_tables.remove(i as int));
                    assert forall|a: int, b: int|
                        0 <= a < self.tables().len() && 0 <= b < self.tables().len() && a != b implies #[trigger] self.tables()[a].name
                        != #[trigger] self.tables()[b].name by {
                        let a2 = if a < i { a } else { a + 1 };
                        let b2 = if b < i { b } else { b + 1 };
                        assert(self.tables()[a] == old_tables[a2]);
                        assert(self.tables()[b] == old_tables[b2]);
                    }
                }
                Ok(meta)
            },
            None => Err(CatalogError::TableNotFound(String::from_str(name))),
        }
    }

    /// All tables.
    pub fn list_tables(&self) -> (r: Vec<TableMetadata>)
        ensures
            r@.map_values(|t: TableMetadata| t@) == self.tables(),
    {
        let mut out: Vec<TableMetadata> = Vec::new();
        let mut i: usize = 0;
        while i < self.data.tables.len()
            invariant
                i <= self.data.tables@.len(),
                out@.len() == i,
                forall|k: int| 0 <= k < i ==> (#[trigger] out@[k])@ == self.data.tables@[k]@,
            decreases self.data.tables@.len() - i,
        {
            out.push(self.data.tables[i].duplicate());
            i += 1;
        }
        assert(out@.map_values(|t: TableMetadata| t@) =~= self.tables());
        out
    }
}

/// What creating a table yields: `TableExists` and no change when the name is taken;
/// otherwise the table is appended with the next two relation ids, no root and no records,
/// and the reference returned is to it.
/// A record count moved by `delta`, kept within `0..=usize::MAX`.
pub open spec fn adjusted_count(n: usize, delta: i64) -> usize {
    let v = n + delta;
    if v < 0 {
        0
    } else if v > usize::MAX {
        usize::MAX
    } else {
        v as usize
    }
}

pub open spec fn create_result(
    old: Catalog,
    new: Catalog,
    name: Seq<char>,
    columns: Seq<crate::schema::ColumnView>,
    r: Result<&TableMetadata, CatalogError>,
) -> bool {
    match table_index(old.tables(), name) {
        Some(_) => r matches Err(CatalogError::TableExists(n)) && n@ == name && new.tables() == old.tables()
            && new.next_id() == old.next_id(),
        None => {
            let t = TableView {
                name,
                heap_relation_id: old.next_id(),
                index_relation_id: (old.next_id() + 1) as u32,
                root_page_num: None,
                columns,
                num_records: 0,
            };
            &&& r matches Ok(m) && m@ == t
            &&& new.tables() == old.tables().push(t)
            &&& new.next_id() == old.next_id() + 2
        },
    }
}

/// Saving a catalog and loading the saved data gives the same catalog back: data that holds
/// a well-formed catalog's tables has unique names, so loading it succeeds, with those tables
/// and that next relation id.
pub proof fn lemma_saved_catalog_reloads(saved: Catalog, data: CatalogData, loaded: Option<Catalog>)
    requires
        saved.wf(),
        data.tables@.map_values(|t: TableMetadata| t@) == saved.tables(),
        data.next_relation_id == saved.next_id(),
        match loaded {
            Some(c) => c.wf() && c.tables() == data.tables@.map_values(|t: TableMetadata| t@) && c.next_id()
                == data.next_relation_id,
            None => !names_unique(data.tables@.map_values(|t: TableMetadata| t@)),
        },
    ensures
        loaded matches Some(c) && c.tables() == saved.tables() && c.next_id() == saved.next_id(),
{
}

/// After a table is created, looking its name up finds it: it is the last table.
pub proof fn lemma_created_table_found(tables: Seq<TableView>, t: TableView)
    requires
        names_unique(tables),
        table_index(tables, t.name) is None,
    ensures
        names_unique(tables.push(t)),
        table_index(tables.push(t), t.name) == Some(tables.len() as int),
{
    let s = tables.push(t);
    assert(s[tables.len() as int].name == t.name);
    let w = choose|i: int| 0 <= i < s.len() && s[i].name == t.name;
    assert(w == tables.len()) by {
        if w < tables.len() {
            assert(tables[w].name == t.name);
        }
    }
}

/// After a table is dropped, its name is no longer found.
pub proof fn lemma_dropped_table_gone(tables: Seq<TableView>, i: int)
    requires
        names_unique(tables),
        0 <= i < tables.len(),
    ensures
        names_unique(tables.remove(i)),
        table_index(tables.remove(i), tables[i].name) is None,
{
    let s = tables.remove(i);
    assert forall|k: int| 0 <= k < s.len() implies s[k].name != tables[i].name by {
        let k2 = if k < i { k } else { k + 1 };
        assert(s[k] == tables[k2]);
    }
    assert forall|a: int, b: int| 0 <= a < s.len() && 0 <= b < s.len() && a != b implies #[trigger] s[a].name != #[trigger] s[b].name by {
        let a2 = if a < i { a } else { a + 1 };
        let b2 = if b < i { b } else { b + 1 };
        assert(s[a] == tables[a2]);
        assert(s[b] == tables[b2]);
    }
}

} // verus!
