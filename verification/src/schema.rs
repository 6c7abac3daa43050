//! Column and schema definitions.
use crate::value::DataType;
use vstd::prelude::*;
use vstd::string::*;

verus! {

/// A single column definition within a schema.
#[derive(Debug, Clone, PartialEq, Eq)]
pub struct Column {
    /// The logical name of the column.
    pub name: String,
    /// The scalar data type of the column.
    pub data_type: DataType,
    /// Whether this column permits NULL values.
    pub is_nullable: bool,
}

impl Column {
    /// Creates a new column definition.
    pub fn new(name: &str, data_type: DataType, is_nullable: bool) -> (r: Self)
        ensures
            r.name@ == name@,
            r.data_type == data_type,
            r.is_nullable == is_nullable,
    {
        Column { name: String::from_str(name), data_type, is_nullable }
    }

    /// A copy of this column definition.
    pub fn duplicate(&self) -> (r: Self)
        ensures
            r.name@ == self.name@,
            r.data_type == self.data_type,
            r.is_nullable == self.is_nullable,
    {
        Column { name: self.name.clone(), data_type: self.data_type, is_nullable: self.is_nullable }
    }
}

/// The content of a column definition.
pub struct ColumnView {
    pub name: Seq<char>,
    pub data_type: DataType,
    pub is_nullable: bool,
}

impl View for Column {
    type V = ColumnView;

    open spec fn view(&self) -> ColumnView {
        ColumnView { name: self.name@, data_type: self.data_type, is_nullable: self.is_nullable }
    }
}

/// The content of a list of column definitions.
pub open spec fn columns_view(cols: Seq<Column>) -> Seq<ColumnView> {
    cols.map_values(|c: Column| c@)
}

/// Two column lists describe the same columns.
pub open spec fn same_columns(a: Seq<Column>, b: Seq<Column>) -> bool {
    &&& a.len() == b.len()
    &&& forall|i: int|
        0 <= i < a.len() ==> {
            &&& (#[trigger] a[i]).name@ == b[i].name@
            &&& a[i].data_type == b[i].data_type
            &&& a[i].is_nullable == b[i].is_nullable
        }
}

/// Number of bytes of a null bitmap with one bit per column.
pub open spec fn bitmap_len(n: nat) -> nat {
    (n + 7) / 8
}

/// The structural schema of a tuple: an ordered list of columns.
#[derive(Debug, Clone, PartialEq, Eq)]
pub struct Schema {
    /// The ordered list of columns.
    pub columns: Vec<Column>,
}

impl Schema {
    /// Creates a new schema from a vector of columns.
    pub fn new(columns: Vec<Column>) -> (r: Self)
        ensures
            r.columns@ == columns@,
    {
        Schema { columns }
    }

    /// Returns the total number of columns.
    pub fn column_count(&self) -> (r: usize)
        ensures
            r == self.columns@.len(),
    {
        self.columns.len()
    }

    /// Size of the null bitmap in bytes: one bit per column, rounded up to a byte.
    pub fn bitmap_size(&self) -> (r: usize)
        ensures
            r == bitmap_len(self.columns@.len() as nat),
    {
        let n = self.columns.len();
        n / 8 + if n % 8 != 0 { 1 } else { 0 }
    }

    /// A copy of this schema with the same columns.
    pub fn duplicate(&self) -> (r: Self)
        ensures
            same_columns(r.columns@, self.columns@),
            columns_view(r.columns@) == columns_view(self.columns@),
    {
        let mut cols: Vec<Column> = Vec::new();
        let mut i: usize = 0;
        while i < self.columns.len()
            invariant
                i <= self.columns@.len(),
                same_columns(cols@, self.columns@.take(i as int)),
            decreases self.columns@.len() - i,
        {
            cols.push(self.columns[i].duplicate());
            i += 1;
        }
        assert(self.columns@.take(i as int) =~= self.columns@);
        assert(columns_view(cols@) =~= columns_view(self.columns@));
        Schema { columns: cols }
    }
}

} // verus!
