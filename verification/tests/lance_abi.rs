use std::sync::Arc;

use arrow::array::{
    Array, ArrayData, ArrayRef, Date32Array, FixedSizeBinaryArray, Int32Array, StringArray,
};
use arrow::datatypes::{DataType, Field, Schema};
use arrow::record_batch::RecordBatch;
use osm_soa_bake::lance_abi::{
    join_tables, row_schema, rows_batch, slab_of, slab_of_column, whole_rows, AbiError, Column, HydrateError,
    Table, ROW_COLUMN,
};
use osm_soa_bake::node::{NodeRow, NODE_ROW_STRIDE};
use osm_soa_bake::slab::SlabError;

/// `n` rows whose first key byte is the row index, so a misread is visible.
fn slab_bytes(n: usize) -> Vec<u8> {
    let mut v = vec![0u8; n * NODE_ROW_STRIDE];
    for i in 0..n {
        v[i * NODE_ROW_STRIDE] = (i + 1) as u8;
    }
    v
}

fn batch_of(bytes: &[u8]) -> Table {
    let a = FixedSizeBinaryArray::try_from_iter(bytes.chunks_exact(NODE_ROW_STRIDE))
        .expect("build array");
    Table {
        batch: RecordBatch::try_new(row_schema(), vec![Arc::new(a)]).expect("build batch"),
    }
}

/// **The claim of this module.** The slab must POINT INTO Arrow's buffer.
///
/// Comparing contents would pass for a copy too — an optimised
/// `to_vec()` produces byte-identical output. Only pointer equality
/// distinguishes a borrow from a copy, which is exactly what "zero copy
/// via pointer" asserts.
#[test]
fn the_slab_points_into_the_arrow_buffer() {
    let bytes = slab_bytes(4);
    let batch = batch_of(&bytes);
    let col = batch
        .batch
        .column_by_name(ROW_COLUMN)
        .unwrap()
        .as_any()
        .downcast_ref::<FixedSizeBinaryArray>()
        .unwrap();
    let arrow_ptr = col.value_data().as_ptr();

    let slab = slab_of(&batch).expect("slab");
    let slab_ptr = slab.as_bytes().as_ptr();

    assert_eq!(
        arrow_ptr, slab_ptr,
        "the slab must borrow Arrow's buffer, not copy it"
    );
    assert_eq!(slab.len(), 4);
}

/// The paired silence half: a slab built from a COPY of the same bytes has
/// the same contents and a DIFFERENT pointer. Without this, the test above
/// could pass by accident on an allocator that happened to reuse an address.
#[test]
fn a_copy_has_the_same_bytes_and_a_different_pointer() {
    let bytes = slab_bytes(4);
    let batch = batch_of(&bytes);
    let col = batch
        .batch
        .column_by_name(ROW_COLUMN)
        .unwrap()
        .as_any()
        .downcast_ref::<FixedSizeBinaryArray>()
        .unwrap();

    let copied: Vec<u8> = col.value_data().to_vec();
    assert_eq!(
        copied, bytes,
        "a copy is byte-identical — which is the point"
    );
    assert_ne!(
        copied.as_ptr(),
        col.value_data().as_ptr(),
        "…and yet it is a different buffer, which only the pointer shows"
    );
}

/// The rows read back must be the rows written, in order — pointer identity
/// alone would pass on a buffer that is aliased but misaligned by a row.
#[test]
fn the_rows_are_the_rows_that_were_written_in_order() {
    let bytes = slab_bytes(5);
    let batch = batch_of(&bytes);
    let slab = slab_of(&batch).expect("slab");
    let rows: Vec<NodeRow> = slab.rows().expect("aligned");
    assert_eq!(rows.len(), 5);
    for (i, r) in rows.iter().enumerate() {
        assert_eq!(
            r.key.as_bytes()[0],
            (i + 1) as u8,
            "row {i} is not the row that was written at index {i}"
        );
    }
}

/// A sliced array's buffer starts at the slice: the slab of a slice is the
/// slab of the rows that were asked for.
#[test]
fn what_a_slice_does_to_the_buffer_decides_whether_the_guard_is_needed() {
    let bytes = slab_bytes(6);
    let batch = batch_of(&bytes);
    let sliced = Table {
        batch: batch.batch.slice(2, 3),
    };
    let col = sliced
        .batch
        .column_by_name(ROW_COLUMN)
        .unwrap()
        .as_any()
        .downcast_ref::<FixedSizeBinaryArray>()
        .unwrap();

    assert_eq!(
        col.value(0)[0],
        3,
        "value(0) must be the third row — the slice doing its job"
    );
    assert_eq!(
        col.value_data()[0],
        3,
        "…and the RAW buffer must agree: arrow rebased it, so there is no \
         parent-origin hazard to guard against"
    );
    assert_eq!(col.offset(), 0, "a rebased buffer reports no offset");

    // Therefore the slice slabs cleanly, at the requested row.
    let slab = slab_of(&sliced).expect("a rebased slice must slab cleanly");
    assert_eq!(slab.len(), 3);
    assert_eq!(
        slab.rows().expect("aligned")[0].key.as_bytes()[0],
        3,
        "the slab starts at the sliced row, not at the parent's row 0"
    );
}

/// A buffer that was taken over from a `Vec` has no alignment to rely on. It is
/// a slab all the same: every lookup works, and only `rows` declines.
#[test]
fn an_unaligned_buffer_still_slabs_and_only_the_cast_declines() {
    let bytes = slab_bytes(6);
    let data = ArrayData::builder(DataType::FixedSizeBinary(NODE_ROW_STRIDE as i32))
        .len(3)
        .offset(2)
        .add_buffer(arrow::buffer::Buffer::from_vec(bytes))
        .build()
        .expect("array data over a Vec-backed buffer");
    let arr = FixedSizeBinaryArray::from(data);

    // Arrow normalised the offset away and rebased the data — the same
    // finding as the slice test, reached from a second construction path.
    assert_eq!(arr.offset(), 0, "arrow normalises the offset away");
    assert_eq!(arr.value(0)[0], 3, "…and rebases to the third row");
    let ptr = arr.value_data().as_ptr() as usize;

    let batch = Table {
        batch: RecordBatch::try_new(row_schema(), vec![Arc::new(arr)]).expect("batch"),
    };
    // Whatever the address, the slab is built and the LOOKUP works. This is
    // the unconditional half.
    let slab = slab_of(&batch).expect("any buffer must slab");
    assert_eq!(slab.len(), 3);
    let _ = slab.morton_at(0);
    assert_eq!(
        slab.as_bytes().as_ptr() as usize,
        ptr,
        "and it borrows, whatever the alignment"
    );

    // The invariant, not a value, since a `Vec` is sometimes 64-aligned by luck.
    assert_eq!(
        slab.rows().is_some(),
        ptr % 64 == 0,
        "rows() must be available exactly when the buffer is 64-aligned"
    );
}

/// A wrong-width column is refused. A `FixedSizeBinary(256)` table would
/// otherwise be slabbed at stride 512 and read every other row as garbage.
#[test]
fn a_wrong_stride_column_is_refused() {
    let a = FixedSizeBinaryArray::try_from_iter([[0u8; 256], [1u8; 256]].iter().map(|r| *r))
        .expect("array");
    let schema = Arc::new(Schema::new(vec![Field::new(
        ROW_COLUMN,
        DataType::FixedSizeBinary(256),
        false,
    )]));
    let batch = Table {
        batch: RecordBatch::try_new(schema, vec![Arc::new(a)]).expect("batch"),
    };
    assert!(matches!(slab_of(&batch), Err(AbiError::WrongType { .. })));
    assert_eq!(
        slab_of(&batch).err(),
        Some(AbiError::WrongType {
            got: DataType::FixedSizeBinary(256).to_string()
        })
    );
}

/// A batch without the row column is refused by name, not by position — a
/// positional read would happily slab whatever column 0 happened to be.
#[test]
fn a_batch_without_the_row_column_is_refused() {
    let a = arrow::array::Int64Array::from(vec![1i64, 2, 3]);
    let schema = Arc::new(Schema::new(vec![Field::new(
        "not_the_row_column",
        DataType::Int64,
        false,
    )]));
    let batch = Table {
        batch: RecordBatch::try_new(schema, vec![Arc::new(a)]).expect("batch"),
    };
    assert_eq!(slab_of(&batch).err(), Some(AbiError::NoRowColumn));
}

/// A column of another type is named by its type.
#[test]
fn a_row_column_of_another_type_is_named() {
    let a = arrow::array::Int64Array::from(vec![1i64, 2, 3]);
    let schema = Arc::new(Schema::new(vec![Field::new(
        ROW_COLUMN,
        DataType::Int64,
        false,
    )]));
    let batch = Table {
        batch: RecordBatch::try_new(schema, vec![Arc::new(a)]).expect("batch"),
    };
    assert_eq!(
        slab_of(&batch).err(),
        Some(AbiError::WrongType {
            got: "Int64".to_string()
        })
    );
}

/// The bytes of a bake are the bytes of the table made of them, and whatever is
/// no whole number of rows is refused rather than stored short.
#[test]
fn a_bake_becomes_a_table_and_comes_back() {
    let bytes = slab_bytes(64);
    let table = rows_batch(&bytes).expect("whole rows");
    assert_eq!(table.batch.num_rows(), 64);
    assert_eq!(table.batch.num_columns(), 1);
    assert_eq!(slab_of(&table).expect("slab").as_bytes(), &bytes[..]);
    assert_eq!(whole_rows(&bytes), Some(64));

    let cut = &bytes[..NODE_ROW_STRIDE + 100];
    assert_eq!(whole_rows(cut), None);
    assert_eq!(
        rows_batch(cut).err(),
        Some(HydrateError::NotWholeRows { len: 612 })
    );
    assert_eq!(
        rows_batch(&[]).err(),
        Some(HydrateError::NotWholeRows { len: 0 })
    );
}

#[test]
fn the_schema_is_one_required_column_of_rows() {
    let schema = row_schema();
    assert_eq!(schema.fields().len(), 1);
    assert_eq!(schema.field(0).name(), "row");
    assert_eq!(schema.field(0).data_type(), &DataType::FixedSizeBinary(512));
    assert!(!schema.field(0).is_nullable());
}

#[test]
fn a_buffer_that_goes_on_is_cut_at_the_rows_that_are_claimed() {
    let bytes = slab_bytes(3);
    let column = Column::Fixed {
        width: 512,
        len: 2,
        nulls: 0,
        data: &bytes,
    };
    assert_eq!(slab_of_column(Some(column)).expect("slab").len(), 2);
    let ragged = Column::Fixed {
        width: 512,
        len: 3,
        nulls: 0,
        data: &bytes[..700],
    };
    assert_eq!(
        slab_of_column(Some(ragged)).err(),
        Some(AbiError::Slab(SlabError::NotRowAligned { len: 700 }))
    );
}

#[test]
fn refusals_say_what_was_found() {
    assert_eq!(
        AbiError::NoRowColumn.message(),
        "batch has no `row` column"
    );
}

/// Tables of one read become one table with all their rows, in order.
#[test]
fn tables_are_put_together_in_order() {
    let first = slab_bytes(3);
    let mut second = slab_bytes(2);
    second[0] = 77;
    assert!(join_tables(vec![]).expect("nothing").is_none());

    let one = join_tables(vec![batch_of(&first)])
        .expect("one table")
        .expect("itself");
    assert_eq!(slab_of(&one).expect("slab").as_bytes(), &first[..]);

    let both = join_tables(vec![batch_of(&first), batch_of(&second)])
        .expect("alike")
        .expect("rows");
    let mut want = first.clone();
    want.extend_from_slice(&second);
    assert_eq!(slab_of(&both).expect("slab").as_bytes(), &want[..]);

    // A slice is put together as the rows that it holds.
    let cut = Table {
        batch: batch_of(&first).batch.slice(1, 1),
    };
    let both = join_tables(vec![cut, batch_of(&second)])
        .expect("alike")
        .expect("rows");
    assert_eq!(slab_of(&both).expect("slab").len(), 3);
    assert_eq!(slab_of(&both).expect("slab").as_bytes()[0], 2);

    let narrow = FixedSizeBinaryArray::try_from_iter([[0u8; 256]].iter()).expect("array");
    let schema = Arc::new(Schema::new(vec![Field::new(
        ROW_COLUMN,
        DataType::FixedSizeBinary(256),
        false,
    )]));
    let narrow = Table {
        batch: RecordBatch::try_new(schema, vec![Arc::new(narrow)]).expect("batch"),
    };
    assert!(join_tables(vec![batch_of(&first), narrow]).is_err());
}

/// Rows with an index and a text beside them.
fn wide_batch(bytes: &[u8], second: ArrayRef) -> Table {
    let rows = FixedSizeBinaryArray::try_from_iter(bytes.chunks_exact(NODE_ROW_STRIDE))
        .expect("build array");
    let schema = Schema::new(vec![
        Field::new(ROW_COLUMN, DataType::FixedSizeBinary(512), false),
        Field::new("beside", second.data_type().clone(), false),
    ]);
    Table {
        batch: RecordBatch::try_new(Arc::new(schema), vec![Arc::new(rows), second])
            .expect("build batch"),
    }
}

#[test]
fn columns_of_other_types_are_put_together_too() {
    let (first, second) = (slab_bytes(2), slab_bytes(1));
    let mut want = first.clone();
    want.extend_from_slice(&second);

    let numbers = join_tables(vec![
        wide_batch(&first, Arc::new(Int32Array::from(vec![7, 8]))),
        wide_batch(&second, Arc::new(Int32Array::from(vec![9]))),
    ])
    .expect("one type")
    .expect("rows");
    assert_eq!(slab_of(&numbers).expect("slab").as_bytes(), &want[..]);
    let beside = numbers.batch.column_by_name("beside").expect("kept");
    assert_eq!(beside.data_type(), &DataType::Int32);
    assert_eq!(beside.len(), 3);
    assert_eq!(beside.null_count(), 0);

    let texts = join_tables(vec![
        wide_batch(&first, Arc::new(StringArray::from(vec!["a", "b"]))),
        wide_batch(&second, Arc::new(StringArray::from(vec!["c"]))),
    ])
    .expect("one type")
    .expect("rows");
    assert_eq!(slab_of(&texts).expect("slab").as_bytes(), &want[..]);
    assert_eq!(texts.batch.num_columns(), 2);

    let days = join_tables(vec![
        wide_batch(&first, Arc::new(Date32Array::from(vec![1, 2]))),
        wide_batch(&second, Arc::new(Date32Array::from(vec![3]))),
    ])
    .expect("one type")
    .expect("rows");
    assert_eq!(slab_of(&days).expect("slab").as_bytes(), &want[..]);
    let beside = days.batch.column_by_name("beside").expect("kept");
    assert_eq!(beside.data_type(), &DataType::Date32);
    assert_eq!((beside.len(), beside.null_count()), (3, 0));

    // Two types at one place are refused.
    let mixed = join_tables(vec![
        wide_batch(&first, Arc::new(Int32Array::from(vec![7, 8]))),
        wide_batch(&second, Arc::new(StringArray::from(vec!["c"]))),
    ]);
    assert!(mixed.is_err());
}
