//! The bake as a column of an Arrow table: one opaque 512-byte value per row.
//!
//! The row is not taken apart into typed columns. Arrow keeps such a column as
//! one contiguous buffer, which is what a slab is, so a table is viewed as a
//! slab without a copy.

use crate::node::NODE_ROW_STRIDE;
use crate::slab::{RowSlab, SlabError};
use crate::text::{push_signed, signed_decimal};
use arrow::array::{Array, FixedSizeBinaryArray};
use arrow::compute::concat_batches;
use arrow::datatypes::{DataType, Field, Schema};
use arrow::error::ArrowError;
use arrow::record_batch::RecordBatch;
use std::sync::Arc;
use vstd::prelude::*;
use vstd::slice::slice_subrange;
use vstd::string::*;

verus! {

/// The name of the row column.
pub const ROW_COLUMN: &'static str = "row";

/// The width of the row column.
pub const ROW_WIDTH: i32 = 512;

/// A table of Arrow.
#[verifier::external_body]
pub struct Table {
    pub batch: RecordBatch,
}

/// A schema of Arrow.
#[verifier::external_type_specification]
#[verifier::external_body]
pub struct ExSchema(arrow::datatypes::Schema);

/// An error of Arrow.
#[verifier::external_type_specification]
#[verifier::external_body]
pub struct ExArrowError(arrow::error::ArrowError);

/// A column of a table, as far as a slab needs it.
pub enum ColumnView {
    /// A column of fixed-size values: their size, their number, how many of them
    /// are absent, and the buffer that holds them, which may go on behind the
    /// last one.
    Fixed { width: int, len: nat, nulls: nat, data: Seq<u8> },
    /// A column of another type: the name of the type, and how many of its values
    /// are absent.
    Other { kind: Seq<char>, nulls: nat },
}

/// The columns of a table, in order, with their names.
pub uninterp spec fn table_columns(table: Table) -> Seq<(Seq<char>, ColumnView)>;

/// The first column of a name.
pub open spec fn named(columns: Seq<(Seq<char>, ColumnView)>, name: Seq<char>) -> Option<ColumnView>
    decreases columns.len(),
{
    if columns.len() == 0 {
        None
    } else if columns[0].0 == name {
        Some(columns[0].1)
    } else {
        named(columns.drop_first(), name)
    }
}

/// The fields of a schema: the name, the size of its values where they are
/// fixed-size binary, and whether a value may be absent.
pub uninterp spec fn schema_fields(schema: Schema) -> Seq<(Seq<char>, Option<int>, bool)>;

/// One column of fixed-size values, none of them absent.
pub open spec fn one_column(name: Seq<char>, width: nat, data: Seq<u8>) -> Seq<
    (Seq<char>, ColumnView),
> {
    seq![
        (
            name,
            ColumnView::Fixed { width: width as int, len: data.len() / width, nulls: 0, data },
        ),
    ]
}

/// A column that was taken out of a table.
#[derive(Debug)]
pub enum Column<'a> {
    Fixed { width: i32, len: usize, nulls: usize, data: &'a [u8] },
    Other { kind: String, nulls: usize },
}

impl<'a> View for Column<'a> {
    type V = ColumnView;

    open spec fn view(&self) -> ColumnView {
        match self {
            Column::Fixed { width, len, nulls, data } => ColumnView::Fixed {
                width: *width as int,
                len: *len as nat,
                nulls: *nulls as nat,
                data: data@,
            },
            Column::Other { kind, nulls } => ColumnView::Other {
                kind: kind@,
                nulls: *nulls as nat,
            },
        }
    }
}

/// The view of a column, if there is one.
pub open spec fn column_view(c: Option<Column>) -> Option<ColumnView> {
    match c {
        Some(column) => Some(column@),
        None => None,
    }
}

/// The column of a table under a name.
///
/// This is `RecordBatch::column_by_name`: it finds the first column of that
/// name, and nothing where there is none. A column that is a
/// `FixedSizeBinaryArray` is handed on by `value_length`, `len`, `null_count` and
/// `value_data`; of any other, the name that its `data_type` is written with and
/// its `null_count`.
#[verifier::external_body]
fn column_by_name<'a>(table: &'a Table, name: &str) -> (c: Option<Column<'a>>)
    ensures
        column_view(c) == named(table_columns(*table), name@),
{
    let column = table.batch.column_by_name(name)?;
    Some(match column.as_any().downcast_ref::<FixedSizeBinaryArray>() {
        Some(a) => Column::Fixed {
            width: a.value_length(),
            len: a.len(),
            nulls: a.null_count(),
            data: a.value_data(),
        },
        None => Column::Other {
            kind: format!("{}", column.data_type()),
            nulls: column.null_count(),
        },
    })
}

/// A schema of one field, of fixed-size binary values that are never absent.
///
/// This is `Schema::new` over one `Field::new`: the field has the name, the type
/// and the nullability that it is given.
#[verifier::external_body]
fn one_field_schema(name: &str, width: i32) -> (schema: Arc<Schema>)
    ensures
        schema_fields(*schema) == seq![(name@, Some(width as int), false)],
{
    Arc::new(Schema::new(vec![Field::new(name, DataType::FixedSizeBinary(width), false)]))
}

/// Whether bytes can be the one column of a table: there are not too many, and
/// the schema has one field, of their size.
pub open spec fn fits_schema(schema: Schema, bytes: Seq<u8>, width: nat) -> bool {
    &&& bytes.len() <= i32::MAX
    &&& schema_fields(schema).len() == 1
    &&& schema_fields(schema)[0].1 == Some(width as int)
}

/// A table of one column that holds consecutive stretches of `bytes`.
///
/// This is `RecordBatch::try_new` over one `FixedSizeBinaryArray::try_from_iter`.
/// The array takes equal stretches, at least one, and keeps their bytes in
/// order; it refuses more than `i32::MAX` bytes. The table accepts a single
/// column of the one type that its schema names, and refuses any other.
#[verifier::external_body]
fn one_column_batch(schema: Arc<Schema>, bytes: &[u8], width: usize) -> (r: Result<
    Table,
    ArrowError,
>)
    requires
        0 < width <= i32::MAX,
        bytes@.len() > 0,
        bytes@.len() % (width as nat) == 0,
    ensures
        match r {
            Ok(table) => fits_schema(*schema, bytes@, width as nat) && table_columns(table)
                == one_column(schema_fields(*schema)[0].0, width as nat, bytes@),
            Err(_) => !fits_schema(*schema, bytes@, width as nat),
        },
{
    let array = FixedSizeBinaryArray::try_from_iter(bytes.chunks_exact(width))?;
    Ok(Table { batch: RecordBatch::try_new(schema, vec![Arc::new(array)])? })
}

/// Why a table could not be viewed as a slab.
#[derive(Debug, Clone, PartialEq, Eq)]
pub enum AbiError {
    /// The table has no row column.
    NoRowColumn,
    /// The row column is of another type.
    WrongType { got: String },
    /// The buffer is not a slab.
    Slab(SlabError),
}

/// How a type of fixed-size binary values is written.
pub open spec fn fixed_kind(width: int) -> Seq<char> {
    "FixedSizeBinary("@ + signed_decimal(width) + ")"@
}

/// The bytes of the rows that a column claims: its buffer may go on behind the
/// last one.
pub open spec fn claimed(len: nat, data: Seq<u8>) -> Seq<u8> {
    if 512 * len <= data.len() {
        data.take(512 * len as int)
    } else {
        data
    }
}

/// What a column is viewed as.
pub open spec fn is_slab_of(c: Option<ColumnView>, r: Result<RowSlab, AbiError>) -> bool {
    match c {
        None => r matches Err(e) && e == AbiError::NoRowColumn,
        Some(ColumnView::Other { kind, .. }) => {
            &&& r matches Err(AbiError::WrongType { got })
            &&& got@ == kind
        },
        Some(ColumnView::Fixed { width, len, data, .. }) => if width != ROW_WIDTH {
            &&& r matches Err(AbiError::WrongType { got })
            &&& got@ == fixed_kind(width)
        } else if claimed(len, data).len() % 512 != 0 {
            &&& r matches Err(AbiError::Slab(SlabError::NotRowAligned { len: n }))
            &&& n == claimed(len, data).len()
        } else {
            &&& r matches Ok(slab)
            &&& slab@ == claimed(len, data)
        },
    }
}

/// Views a column as a slab: borrowed, nothing is copied. A missing column and
/// one of another type or width are refused.
pub fn slab_of_column<'a>(column: Option<Column<'a>>) -> (r: Result<RowSlab<'a>, AbiError>)
    ensures
        is_slab_of(column_view(column), r),
{
    let (width, len, data): (i32, usize, &'a [u8]) = match column {
        None => {
            return Err(AbiError::NoRowColumn);
        },
        Some(Column::Other { kind, .. }) => {
            return Err(AbiError::WrongType { got: kind });
        },
        Some(Column::Fixed { width, len, data, .. }) => (width, len, data),
    };
    if width != ROW_WIDTH {
        let mut got: String = String::new();
        got.append("FixedSizeBinary(");
        push_signed(&mut got, width as i64);
        got.append(")");
        assert(got@ =~= fixed_kind(width as int));
        return Err(AbiError::WrongType { got });
    }
    let bytes: &'a [u8] = if len <= data.len() / NODE_ROW_STRIDE {
        slice_subrange(data, 0, len * NODE_ROW_STRIDE)
    } else {
        data
    };
    assert(bytes@ =~= claimed(len as nat, data@));
    match RowSlab::new(bytes) {
        Ok(slab) => Ok(slab),
        Err(e) => Err(AbiError::Slab(e)),
    }
}

/// Views the row column of a table as a slab that points into the table's own
/// buffer.
pub fn slab_of(table: &Table) -> (r: Result<RowSlab<'_>, AbiError>)
    ensures
        is_slab_of(named(table_columns(*table), ROW_COLUMN@), r),
{
    slab_of_column(column_by_name(table, ROW_COLUMN))
}

/// The schema of a bake: one opaque row column.
pub fn row_schema() -> (schema: Arc<Schema>)
    ensures
        schema_fields(*schema) == seq![(ROW_COLUMN@, Some(ROW_WIDTH as int), false)],
{
    one_field_schema(ROW_COLUMN, ROW_WIDTH)
}

/// Why bytes could not be made a table.
#[derive(Debug, Clone, PartialEq, Eq)]
pub enum HydrateError {
    /// The bytes are not a whole number of rows, or there are none.
    NotWholeRows { len: usize },
    /// There are more rows than a column holds.
    TooLarge { rows: usize },
}

/// How many rows bytes hold; none where they are not a whole number of rows, at
/// least one. A truncated bake must not become a short table.
pub fn whole_rows(bytes: &[u8]) -> (n: Option<usize>)
    ensures
        match n {
            Some(rows) => rows > 0 && bytes@.len() == 512 * rows,
            None => bytes@.len() == 0 || bytes@.len() % 512 != 0,
        },
{
    if bytes.len() == 0 || bytes.len() % NODE_ROW_STRIDE != 0 {
        None
    } else {
        Some(bytes.len() / NODE_ROW_STRIDE)
    }
}

/// The columns of a bake's table.
pub open spec fn row_columns(bytes: Seq<u8>) -> Seq<(Seq<char>, ColumnView)> {
    one_column(ROW_COLUMN@, 512, bytes)
}

/// Makes a table of the rows of a bake.
pub fn rows_batch(bytes: &[u8]) -> (r: Result<Table, HydrateError>)
    ensures
        match r {
            Ok(table) => {
                &&& bytes@.len() > 0 && bytes@.len() % 512 == 0
                &&& bytes@.len() <= i32::MAX
                &&& table_columns(table) == row_columns(bytes@)
            },
            Err(e) => if bytes@.len() == 0 || bytes@.len() % 512 != 0 {
                e == (HydrateError::NotWholeRows { len: bytes@.len() as usize })
            } else {
                &&& bytes@.len() > i32::MAX
                &&& e == (HydrateError::TooLarge { rows: (bytes@.len() / 512) as usize })
            },
        },
{
    let rows: usize = match whole_rows(bytes) {
        Some(n) => n,
        None => {
            return Err(HydrateError::NotWholeRows { len: bytes.len() });
        },
    };
    match one_column_batch(row_schema(), bytes, NODE_ROW_STRIDE) {
        Ok(table) => Ok(table),
        Err(_) => Err(HydrateError::TooLarge { rows }),
    }
}

// ── Several tables ──────────────────────────────────────────────────
/// The columns of tables at one place.
pub open spec fn columns_at(tables: Seq<Table>, i: int) -> Seq<ColumnView> {
    tables.map_values(|t: Table| table_columns(t)[i].1)
}

/// Whether a type is one of dates, times or spans of time.
pub open spec fn is_temporal(kind: Seq<char>) -> bool {
    ||| kind == "Date32"@ || kind == "Date64"@
    ||| kind == "Time32(s)"@ || kind == "Time32(ms)"@
    ||| kind == "Time64(µs)"@ || kind == "Time64(ns)"@
    ||| "Timestamp("@.is_prefix_of(kind)
    ||| "Duration("@.is_prefix_of(kind) || "Interval("@.is_prefix_of(kind)
}

/// Whether every value of a type has the same size: numbers, truth values, dates and
/// times.
pub open spec fn is_flat(kind: Seq<char>) -> bool {
    ||| kind == "Boolean"@
    ||| is_temporal(kind) || "Decimal"@.is_prefix_of(kind)
    ||| kind == "Int8"@ || kind == "Int16"@ || kind == "Int32"@ || kind == "Int64"@
    ||| kind == "UInt8"@ || kind == "UInt16"@ || kind == "UInt32"@ || kind == "UInt64"@
    ||| kind == "Float16"@ || kind == "Float32"@ || kind == "Float64"@
}

/// Whether a type is one of texts or of byte strings.
pub open spec fn is_textual(kind: Seq<char>) -> bool {
    ||| kind == "Utf8"@ || kind == "LargeUtf8"@
    ||| kind == "Binary"@ || kind == "LargeBinary"@
}

/// Whether two columns are of one type.
pub open spec fn same_type(a: ColumnView, b: ColumnView) -> bool {
    match (a, b) {
        (ColumnView::Fixed { width: x, .. }, ColumnView::Fixed { width: y, .. }) => x == y,
        (ColumnView::Other { kind: x, .. }, ColumnView::Other { kind: y, .. }) => x == y,
        _ => false,
    }
}

/// Whether columns are all of one type.
pub open spec fn one_type(columns: Seq<ColumnView>) -> bool {
    forall|k: int| 0 <= k < columns.len() ==> same_type(columns[0], #[trigger] columns[k])
}

/// Whether columns are all of one type, of values of one size, none of them absent.
pub open spec fn alike(columns: Seq<ColumnView>) -> bool {
    &&& one_type(columns)
    &&& columns[0] is Fixed || is_flat(columns[0]->kind)
    &&& forall|k: int| 0 <= k < columns.len() ==> nulls_in(#[trigger] columns[k]) == 0
}

/// How many values of a column are absent.
pub open spec fn nulls_in(column: ColumnView) -> nat {
    match column {
        ColumnView::Fixed { nulls, .. } => nulls,
        ColumnView::Other { nulls, .. } => nulls,
    }
}

/// How many values of columns are absent.
pub open spec fn joined_nulls(columns: Seq<ColumnView>) -> nat
    decreases columns.len(),
{
    if columns.len() == 0 {
        0
    } else {
        joined_nulls(columns.drop_last()) + nulls_in(columns.last())
    }
}

/// How many values columns hold together.
pub open spec fn joined_len(columns: Seq<ColumnView>) -> nat
    decreases columns.len(),
{
    if columns.len() == 0 {
        0
    } else {
        joined_len(columns.drop_last()) + columns.last()->len
    }
}

/// The values of columns, one after the other, without what their buffers hold
/// behind the last one.
pub open spec fn joined_data(columns: Seq<ColumnView>) -> Seq<u8>
    decreases columns.len(),
{
    if columns.len() == 0 {
        Seq::empty()
    } else {
        joined_data(columns.drop_last()) + columns.last()->data.take(
            columns.last()->width * columns.last()->len,
        )
    }
}

/// Columns of one type, put together.
pub open spec fn joined(columns: Seq<ColumnView>) -> ColumnView {
    match columns[0] {
        ColumnView::Fixed { width, .. } => ColumnView::Fixed {
            width,
            len: joined_len(columns),
            nulls: joined_nulls(columns),
            data: joined_data(columns),
        },
        ColumnView::Other { kind, .. } => ColumnView::Other {
            kind,
            nulls: joined_nulls(columns),
        },
    }
}

/// Whether every column of tables is alike in all of them.
pub open spec fn all_alike(tables: Seq<Table>) -> bool {
    forall|i: int| 0 <= i < table_columns(tables[0]).len() ==> alike(#[trigger] columns_at(tables, i))
}

/// Whether columns are all of values of one size, texts or byte strings, and
/// fixed-size binary values of one size fit one column together.
pub open spec fn fit_one(columns: Seq<ColumnView>) -> bool {
    &&& forall|k: int|
        0 <= k < columns.len() ==> match #[trigger] columns[k] {
            ColumnView::Fixed { .. } => true,
            ColumnView::Other { kind, .. } => is_flat(kind) || is_textual(kind),
        }
    &&& one_type(columns) && columns[0] is Fixed ==> columns[0]->width * joined_len(columns)
        <= i32::MAX
}

/// Whether tables can be put together: they have the same number of columns, at
/// least one, and these fit.
pub open spec fn joinable(tables: Seq<Table>) -> bool {
    &&& forall|k: int|
        0 <= k < tables.len() ==> {
            &&& table_columns(#[trigger] tables[k]).len() == table_columns(tables[0]).len()
            &&& table_columns(tables[k]).len() > 0
        }
    &&& forall|i: int|
        0 <= i < table_columns(tables[0]).len() ==> fit_one(#[trigger] columns_at(tables, i))
}

/// Puts tables together, column by column.
///
/// This is `concat_batches` with the schema of the first table. It goes by the
/// place of a column, keeps the names of the first table, and refuses columns of
/// different types, and an absent value where the schema allows none. It copies
/// the values of fixed-size columns in order, as long as none is absent; a column
/// of another type keeps its type, and its absent values. It refuses texts and byte
/// strings that are too long together for their offsets, which a column's view does
/// not tell, so of these success is not stated. It panics where a column of
/// fixed-size values would hold more than `i32::MAX` bytes, so such tables are left
/// out, and so are nested, view and encoded types, of which some panic.
#[verifier::external_body]
fn concat_tables(tables: &[Table]) -> (r: Result<Table, ArrowError>)
    requires
        tables@.len() > 0,
        joinable(tables@),
    ensures
        match r {
            Ok(table) => {
                &&& table_columns(table).len() == table_columns(tables@[0]).len()
                &&& forall|i: int|
                    0 <= i < table_columns(table).len() ==> {
                        &&& (#[trigger] table_columns(table)[i]).0 == table_columns(tables@[0])[i].0
                        &&& one_type(columns_at(tables@, i))
                        &&& table_columns(tables@[0])[i].1 is Other || alike(columns_at(tables@, i))
                            ==> table_columns(table)[i].1 == joined(columns_at(tables@, i))
                    }
            },
            Err(_) => !all_alike(tables@),
        },
{
    let batch = concat_batches(&tables[0].batch.schema(), tables.iter().map(|t| &t.batch))?;
    Ok(Table { batch })
}

/// Puts the tables of one read together: none where there are none, the table
/// itself where there is one.
pub fn join_tables(tables: Vec<Table>) -> (r: Result<Option<Table>, ArrowError>)
    requires
        tables@.len() > 1 ==> joinable(tables@),
    ensures
        match r {
            Ok(None) => tables@.len() == 0,
            Ok(Some(table)) => {
                &&& tables@.len() > 0
                &&& tables@.len() == 1 ==> table == tables@[0]
                &&& table_columns(table).len() == table_columns(tables@[0]).len()
                &&& forall|i: int|
                    0 <= i < table_columns(table).len() ==> {
                        &&& (#[trigger] table_columns(table)[i]).0 == table_columns(tables@[0])[i].0
                        &&& one_type(columns_at(tables@, i))
                        &&& tables@.len() > 1 && (table_columns(tables@[0])[i].1 is Other
                            || alike(columns_at(tables@, i))) ==> table_columns(table)[i].1
                            == joined(columns_at(tables@, i))
                    }
            },
            Err(_) => tables@.len() > 1 && !all_alike(tables@),
        },
{
    let mut tables: Vec<Table> = tables;
    if tables.len() <= 1 {
        return Ok(tables.pop());
    }
    match concat_tables(tables.as_slice()) {
        Ok(table) => Ok(Some(table)),
        Err(e) => Err(e),
    }
}

/// The bytes of several slabs, one after the other.
pub open spec fn all_bytes(parts: Seq<Seq<u8>>) -> Seq<u8>
    decreases parts.len(),
{
    if parts.len() == 0 {
        Seq::empty()
    } else {
        all_bytes(parts.drop_last()) + parts.last()
    }
}

/// Tables of rows that are put together hold the rows of all of them, in order.
pub proof fn law_joined_tables_keep_their_rows(
    tables: Seq<Table>,
    parts: Seq<Seq<u8>>,
    table: Table,
    r: Result<RowSlab, AbiError>,
)
    requires
        tables.len() > 1,
        parts.len() == tables.len(),
        forall|k: int|
            0 <= k < tables.len() ==> table_columns(#[trigger] tables[k]) == row_columns(parts[k]),
        forall|k: int| 0 <= k < parts.len() ==> (#[trigger] parts[k]).len() % 512 == 0,
        table_columns(table).len() == 1,
        table_columns(table)[0].0 == ROW_COLUMN@,
        alike(columns_at(tables, 0)) ==> table_columns(table)[0].1 == joined(
            columns_at(tables, 0),
        ),
        is_slab_of(named(table_columns(table), ROW_COLUMN@), r),
    ensures
        r matches Ok(slab) && slab@ == all_bytes(parts),
{
    let columns = columns_at(tables, 0);
    assert forall|k: int| 0 <= k < columns.len() implies #[trigger] columns[k]
        == row_columns(parts[k])[0].1 by {
        assert(table_columns(tables[k]) == row_columns(parts[k]));
    }
    assert(alike(columns));
    lemma_joined_rows(columns, parts);
    let all = all_bytes(parts);
    assert(claimed(joined_len(columns), all) =~= all);
}

proof fn lemma_joined_rows(columns: Seq<ColumnView>, parts: Seq<Seq<u8>>)
    requires
        columns.len() == parts.len(),
        forall|k: int|
            0 <= k < columns.len() ==> #[trigger] columns[k] == row_columns(parts[k])[0].1,
        forall|k: int| 0 <= k < parts.len() ==> (#[trigger] parts[k]).len() % 512 == 0,
    ensures
        joined_data(columns) == all_bytes(parts),
        512 * joined_len(columns) == all_bytes(parts).len(),
    decreases columns.len(),
{
    if columns.len() > 0 {
        let n = columns.len() - 1;
        let (c, p) = (columns.drop_last(), parts.drop_last());
        assert forall|k: int| 0 <= k < c.len() implies #[trigger] c[k] == row_columns(
            p[k],
        )[0].1 by {
            assert(c[k] == columns[k] && p[k] == parts[k]);
        }
        assert forall|k: int| 0 <= k < p.len() implies (#[trigger] p[k]).len() % 512 == 0 by {
            assert(p[k] == parts[k]);
        }
        lemma_joined_rows(c, p);
        assert(columns[n] == row_columns(parts[n])[0].1);
        assert(parts[n].len() % 512 == 0);
        assert(512 * (parts[n].len() / 512) == parts[n].len());
        assert(parts[n].take(parts[n].len() as int) =~= parts[n]);
    }
}

/// A bake survives its table: the slab of the table of some rows is those rows,
/// byte for byte.
pub proof fn law_table_round_trip(table: Table, bytes: Seq<u8>, r: Result<RowSlab, AbiError>)
    requires
        bytes.len() > 0,
        bytes.len() % 512 == 0,
        table_columns(table) == row_columns(bytes),
        is_slab_of(named(table_columns(table), ROW_COLUMN@), r),
    ensures
        r matches Ok(slab) && slab@ == bytes,
{
    let n = bytes.len() / 512;
    assert(claimed(n, bytes) =~= bytes);
}

/// Only a column of 512-byte values is a slab, and the slab is the beginning of its
/// buffer: as many rows as the column claims, or what there is of them.
pub proof fn law_a_slab_is_a_column_of_rows(c: Option<ColumnView>, r: Result<RowSlab, AbiError>)
    requires
        is_slab_of(c, r),
    ensures
        r matches Ok(slab) ==> c is Some && c->0 is Fixed && c->0->width == 512
            && slab@.is_prefix_of(c->0->data) && (slab@.len() == 512 * c->0->len || slab@
            == c->0->data),
        c is None ==> r is Err,
        c is Some && c->0 is Other ==> r is Err,
        c is Some && c->0 is Fixed && c->0->width != 512 ==> r is Err,
        c is Some && c->0 is Fixed && c->0->width == 512 && c->0->data.len() == 512 * c->0->len
            ==> (r matches Ok(slab) && slab@ == c->0->data),
{
    if c is Some && c->0 is Fixed {
        let (len, data) = (c->0->len, c->0->data);
        if 512 * len <= data.len() {
            assert(data.take(512 * len as int) =~= data.subrange(0, 512 * len as int));
        } else {
            assert(data.subrange(0, data.len() as int) =~= data);
        }
        if data.len() == 512 * len {
            assert(data.take(512 * len as int) =~= data);
        }
    }
}

} // verus!
