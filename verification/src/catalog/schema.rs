//! Column types, columns and table schemas.

use crate::seqs::{first_where, lemma_first_where_bounds, lemma_first_where_is};
use crate::text::{digits, nat_to_string};
use vstd::prelude::*;
use vstd::string::StringExecFns;

verus! {

/// The type of a column, which fixes the width of its values on disk.
#[derive(Debug, Clone, Copy, PartialEq, Eq, Structural)]
pub enum DataType {
    /// A 32-bit signed integer: four bytes, little-endian.
    Integer,
    /// A truth value: one byte.
    Boolean,
    /// Text of at most the given number of bytes, zero-padded to that width.
    Text(usize),
}

/// One column of a table.
#[derive(Debug)]
pub struct Column {
    pub name: String,
    pub data_type: DataType,
    pub is_primary: bool,
    pub is_autoincrement: bool,
}

/// What a [`Column`] is in contracts.
pub ghost struct ColumnView {
    pub name: Seq<char>,
    pub data_type: DataType,
    pub is_primary: bool,
    pub is_autoincrement: bool,
}

/// A table's name and its columns in declared order.
#[derive(Debug)]
pub struct Schema {
    pub table_name: String,
    pub columns: Vec<Column>,
}

/// What a [`Schema`] is in contracts.
pub ghost struct SchemaView {
    pub table_name: Seq<char>,
    pub columns: Seq<ColumnView>,
}

/// Number of bytes that the columns of `columns` occupy together.
pub open spec fn row_width(columns: Seq<ColumnView>) -> nat
    decreases columns.len(),
{
    if columns.len() == 0 {
        0
    } else {
        row_width(columns.drop_last()) + columns.last().data_type.spec_byte_size()
    }
}

/// Offset of column `i` within a serialized row: the width of the columns before it.
pub open spec fn column_offset(columns: Seq<ColumnView>, i: int) -> nat {
    row_width(columns.take(i))
}

/// The width up to column `i + 1` is the width up to column `i` plus the size of column `i`.
pub proof fn lemma_column_offset_step(columns: Seq<ColumnView>, i: int)
    requires
        0 <= i < columns.len(),
    ensures
        column_offset(columns, i + 1) == column_offset(columns, i)
            + columns[i].data_type.spec_byte_size(),
        column_offset(columns, 0) == 0,
        column_offset(columns, columns.len() as int) == row_width(columns),
{
    assert(columns.take(i + 1).drop_last() =~= columns.take(i));
    assert(columns.take(columns.len() as int) =~= columns);
}

/// Offsets grow with the column index and end at the row width.
pub proof fn lemma_column_offset_monotonic(columns: Seq<ColumnView>, i: int, j: int)
    requires
        0 <= i <= j <= columns.len(),
    ensures
        column_offset(columns, i) <= column_offset(columns, j) <= row_width(columns),
    decreases columns.len() - i,
{
    assert(columns.take(columns.len() as int) =~= columns);
    if i < j {
        lemma_column_offset_step(columns, i);
        lemma_column_offset_monotonic(columns, i + 1, j);
    } else if j < columns.len() {
        lemma_column_offset_step(columns, j);
        lemma_column_offset_monotonic(columns, j + 1, columns.len() as int);
    }
}

impl DataType {
    /// Number of bytes that a value of this type occupies on disk.
    pub open spec fn spec_byte_size(self) -> nat {
        match self {
            DataType::Integer => 4,
            DataType::Boolean => 1,
            DataType::Text(len) => len as nat,
        }
    }

    /// The type as it is shown in messages: its name, and for a text its width in brackets.
    pub open spec fn debug_text(self) -> Seq<char> {
        match self {
            DataType::Integer => "Integer"@,
            DataType::Boolean => "Boolean"@,
            DataType::Text(len) => "Text("@ + digits(len as nat) + ")"@,
        }
    }

    /// The type as it is shown in messages.
    pub fn to_debug_string(&self) -> (s: String)
        ensures
            s@ == self.debug_text(),
    {
        match self {
            DataType::Integer => String::from_str("Integer"),
            DataType::Boolean => String::from_str("Boolean"),
            DataType::Text(len) => {
                let mut s = String::from_str("Text(");
                s.append(nat_to_string(*len as u64).as_str());
                s.append(")");
                s
            },
        }
    }

    /// Number of bytes that a value of this type occupies on disk.
    pub fn byte_size(&self) -> (size: usize)
        ensures
            size == self.spec_byte_size(),
    {
        match self {
            DataType::Integer => 4,
            DataType::Boolean => 1,
            DataType::Text(len) => *len,
        }
    }
}

impl View for Column {
    type V = ColumnView;

    open spec fn view(&self) -> ColumnView {
        ColumnView {
            name: self.name@,
            data_type: self.data_type,
            is_primary: self.is_primary,
            is_autoincrement: self.is_autoincrement,
        }
    }
}

impl Clone for Column {
    fn clone(&self) -> (copy: Self)
        ensures
            copy@ == self@,
    {
        Column {
            name: self.name.clone(),
            data_type: self.data_type,
            is_primary: self.is_primary,
            is_autoincrement: self.is_autoincrement,
        }
    }
}

/// The views of `columns`, in order.
pub open spec fn column_views(columns: Seq<Column>) -> Seq<ColumnView> {
    Seq::new(columns.len(), |i: int| columns[i]@)
}

/// A copy of `columns` that has the same views.
pub fn clone_columns(columns: &Vec<Column>) -> (copy: Vec<Column>)
    ensures
        column_views(copy@) == column_views(columns@),
{
    let mut copy: Vec<Column> = Vec::new();
    let mut i: usize = 0;
    while i < columns.len()
        invariant
            i <= columns.len(),
            copy.len() == i,
            forall|k: int| 0 <= k < i ==> copy[k]@ == columns[k]@,
        decreases columns.len() - i,
    {
        copy.push(columns[i].clone());
        i += 1;
    }
    assert(column_views(copy@) =~= column_views(columns@));
    copy
}

impl View for Schema {
    type V = SchemaView;

    open spec fn view(&self) -> SchemaView {
        SchemaView { table_name: self.table_name@, columns: column_views(self.columns@) }
    }
}

impl Clone for Schema {
    fn clone(&self) -> (copy: Self)
        ensures
            copy@ == self@,
    {
        Schema { table_name: self.table_name.clone(), columns: clone_columns(&self.columns) }
    }
}

impl SchemaView {
    /// Number of bytes that one row of the table occupies on disk.
    pub open spec fn row_size(self) -> nat {
        row_width(self.columns)
    }

    /// Index of the primary-key column, if the table has one.
    pub open spec fn primary_index(self) -> Option<int> {
        let i = first_where(self.columns, |c: ColumnView| c.is_primary);
        if i < self.columns.len() {
            Some(i)
        } else {
            None
        }
    }

    /// Index of the autoincrement column, if the table has one.
    pub open spec fn autoincrement_index(self) -> Option<int> {
        let i = first_where(self.columns, |c: ColumnView| c.is_autoincrement);
        if i < self.columns.len() {
            Some(i)
        } else {
            None
        }
    }

    /// Index of the first column named `name`, if there is one.
    pub open spec fn column_index(self, name: Seq<char>) -> Option<int> {
        let i = first_where(self.columns, |c: ColumnView| c.name == name);
        if i < self.columns.len() {
            Some(i)
        } else {
            None
        }
    }
}

/// A column found by name lies within the schema and has that name; the
/// primary-key and autoincrement columns, if found, lie within it too.
pub proof fn lemma_column_index(schema: SchemaView, name: Seq<char>)
    ensures
        schema.column_index(name) matches Some(i) ==> 0 <= i < schema.columns.len()
            && schema.columns[i].name == name,
        schema.primary_index() matches Some(i) ==> 0 <= i < schema.columns.len()
            && schema.columns[i].is_primary,
        schema.autoincrement_index() matches Some(i) ==> 0 <= i < schema.columns.len()
            && schema.columns[i].is_autoincrement,
{
    lemma_first_where_bounds(schema.columns, |c: ColumnView| c.name == name);
    lemma_first_where_bounds(schema.columns, |c: ColumnView| c.is_primary);
    lemma_first_where_bounds(schema.columns, |c: ColumnView| c.is_autoincrement);
}

impl Schema {
    /// Index of the first column named `name`, if there is one.
    pub fn find_column(&self, name: &String) -> (found: Option<usize>)
        ensures
            found matches Some(i) ==> self@.column_index(name@) == Some(i as int),
            found is None ==> self@.column_index(name@) is None,
    {
        let mut i: usize = 0;
        while i < self.columns.len()
            invariant
                i <= self.columns.len(),
                forall|k: int| 0 <= k < i ==> (#[trigger] self@.columns[k]).name != name@,
            decreases self.columns.len() - i,
        {
            if self.columns[i].name == *name {
                proof {
                    lemma_first_where_is(
                        self@.columns,
                        |c: ColumnView| c.name == name@,
                        i as int,
                    );
                }
                return Some(i);
            }
            i += 1;
        }
        proof {
            lemma_first_where_is(self@.columns, |c: ColumnView| c.name == name@, i as int);
        }
        None
    }

    /// Index of the primary-key column, if the table has one.
    pub fn find_primary(&self) -> (found: Option<usize>)
        ensures
            found matches Some(i) ==> self@.primary_index() == Some(i as int),
            found is None ==> self@.primary_index() is None,
    {
        let mut i: usize = 0;
        while i < self.columns.len()
            invariant
                i <= self.columns.len(),
                forall|k: int| 0 <= k < i ==> !(#[trigger] self@.columns[k]).is_primary,
            decreases self.columns.len() - i,
        {
            if self.columns[i].is_primary {
                proof {
                    lemma_first_where_is(self@.columns, |c: ColumnView| c.is_primary, i as int);
                }
                return Some(i);
            }
            i += 1;
        }
        proof {
            lemma_first_where_is(self@.columns, |c: ColumnView| c.is_primary, i as int);
        }
        None
    }

    /// Index of the autoincrement column, if the table has one.
    pub fn find_autoincrement(&self) -> (found: Option<usize>)
        ensures
            found matches Some(i) ==> self@.autoincrement_index() == Some(i as int),
            found is None ==> self@.autoincrement_index() is None,
    {
        let mut i: usize = 0;
        while i < self.columns.len()
            invariant
                i <= self.columns.len(),
                forall|k: int| 0 <= k < i ==> !(#[trigger] self@.columns[k]).is_autoincrement,
            decreases self.columns.len() - i,
        {
            if self.columns[i].is_autoincrement {
                proof {
                    lemma_first_where_is(
                        self@.columns,
                        |c: ColumnView| c.is_autoincrement,
                        i as int,
                    );
                }
                return Some(i);
            }
            i += 1;
        }
        proof {
            lemma_first_where_is(self@.columns, |c: ColumnView| c.is_autoincrement, i as int);
        }
        None
    }

    /// Number of bytes that one row of the table occupies on disk.
    pub fn row_size(&self) -> (total_bytes: usize)
        requires
            self@.row_size() <= usize::MAX,
        ensures
            total_bytes == self@.row_size(),
    {
        let mut total_bytes: usize = 0;
        let mut i: usize = 0;
        while i < self.columns.len()
            invariant
                i <= self.columns.len(),
                total_bytes == column_offset(self@.columns, i as int),
                self@.row_size() <= usize::MAX,
            decreases self.columns.len() - i,
        {
            proof {
                lemma_column_offset_step(self@.columns, i as int);
                lemma_column_offset_monotonic(self@.columns, i as int + 1, self.columns.len() as int);
            }
            total_bytes += self.columns[i].data_type.byte_size();
            i += 1;
        }
        proof {
            assert(self@.columns.take(self.columns.len() as int) =~= self@.columns);
        }
        total_bytes
    }

    /// The row size, or `None` when it does not fit the machine's word.
    pub fn checked_row_size(&self) -> (total_bytes: Option<usize>)
        ensures
            total_bytes == (if self@.row_size() <= usize::MAX {
                Some(self@.row_size() as usize)
            } else {
                None
            }),
    {
        let mut total_bytes: usize = 0;
        let mut i: usize = 0;
        while i < self.columns.len()
            invariant
                i <= self.columns.len(),
                total_bytes == column_offset(self@.columns, i as int),
            decreases self.columns.len() - i,
        {
            proof {
                lemma_column_offset_step(self@.columns, i as int);
                lemma_column_offset_monotonic(self@.columns, i as int + 1, self.columns.len() as int);
            }
            let size: usize = self.columns[i].data_type.byte_size();
            if size > usize::MAX - total_bytes {
                return None;
            }
            total_bytes += size;
            i += 1;
        }
        proof {
            assert(self@.columns.take(self.columns.len() as int) =~= self@.columns);
        }
        Some(total_bytes)
    }
}

} // verus!
