use vstd::prelude::*;

verus! {

/// A write request: a dataset name, its column names, and its rows.
pub struct TranslateRequest {
    pub dataset: String,
    pub slot: Vec<String>,
    pub data: Vec<Vec<String>>,
}

/// The set of accepted API keys.
pub struct ApiKeys {
    pub keys: Vec<String>,
}

/// One column of a schema: its name and its type (always "string").
pub struct ColumnSchema {
    pub name: String,
    pub column_type: String,
}

/// The columns of a table, in file and row order.
pub struct TableSchema {
    pub columns: Vec<ColumnSchema>,
}

/// What is recorded about a stored table.
pub struct TableMeta {
    pub table_name: String,
    pub record_count: usize,
    pub partition_count: usize,
    pub created_at: String,
    pub updated_at: String,
}

/// Where one row sits: its 1-based number, its offset, and the file of the
/// primary-key column.
pub struct IndexEntry {
    pub id: u64,
    pub offset: u64,
    pub partition: String,
}

/// The positional index of a table, keyed by its first column.
pub struct TableIndex {
    pub primary_key: String,
    pub indexes: Vec<IndexEntry>,
}

/// Each row as a sequence of cell texts.
pub open spec fn grid(rows: Seq<Vec<String>>) -> Seq<Seq<Seq<char>>> {
    rows.map_values(|r: Vec<String>| r@.map_values(|c: String| c@))
}

/// Each string as its text.
pub open spec fn texts(v: Seq<String>) -> Seq<Seq<char>> {
    v.map_values(|c: String| c@)
}

} // verus!
