use rockduck::buffers::{type_label, write_column};
use rockduck::column::{Batch, Column, ColumnType};
use rockduck::error::RockDuckError;
use rockduck::ipc::{decode_arrow_array, decode_ipc_column, read_column};
use rockduck::ipc_layout::is_well_laid;
use rockduck::storage::parquet_format::{
    assemble_batch, disassemble_batch, read_parquet_file, read_parquet_file_projected, write_parquet_batch,
    ParquetWriterConfig,
};

fn column(dtype: ColumnType, cells: Vec<Option<Vec<u8>>>) -> Column {
    Column::new(dtype, cells).unwrap()
}

fn number(dtype: ColumnType, width: usize) -> Column {
    let mut cells: Vec<Option<Vec<u8>>> = Vec::new();
    for i in 0..11u8 {
        if i == 3 {
            cells.push(None);
        } else {
            cells.push(Some(vec![i.wrapping_mul(37); width]));
        }
    }
    column(dtype, cells)
}

fn text(dtype: ColumnType) -> Column {
    let words = ["", "duck", "\u{e9}t\u{e9}", "rock", "\u{1f986}", "a", "b", "c", "d", "e", "f"];
    let cells = words.iter().map(|w| Some(w.as_bytes().to_vec())).collect();
    column(dtype, cells)
}

fn every_type() -> Batch {
    let mut names = Vec::new();
    let mut columns = Vec::new();
    for (dtype, width) in [
        (ColumnType::Int8, 1),
        (ColumnType::Int16, 2),
        (ColumnType::Int32, 4),
        (ColumnType::Int64, 8),
        (ColumnType::UInt8, 1),
        (ColumnType::UInt16, 2),
        (ColumnType::UInt32, 4),
        (ColumnType::UInt64, 8),
        (ColumnType::Float32, 4),
        (ColumnType::Float64, 8),
        (ColumnType::Date32, 4),
        (ColumnType::Date64, 8),
        (ColumnType::TimestampSecond, 8),
        (ColumnType::TimestampMillis, 8),
        (ColumnType::TimestampMicros, 8),
        (ColumnType::TimestampNanos, 8),
    ] {
        names.push(format!("{:?}", dtype));
        columns.push(number(dtype, width));
    }
    names.push("truth".to_string());
    let bits = [1u8, 0, 1, 1, 0, 0, 0, 1, 1, 0, 1];
    let mut cells: Vec<Option<Vec<u8>>> = bits.iter().map(|b| Some(vec![*b])).collect();
    cells[9] = None;
    columns.push(column(ColumnType::Boolean, cells));
    for dtype in [ColumnType::Utf8, ColumnType::LargeUtf8, ColumnType::Binary, ColumnType::LargeBinary] {
        names.push(format!("{:?}", dtype));
        let mut c = text(dtype);
        c.cells[10] = None;
        columns.push(c);
    }
    Batch::new(names, columns).unwrap()
}

fn same(a: &Batch, b: &Batch) -> bool {
    a.names == b.names
        && a.columns.len() == b.columns.len()
        && a.columns.iter().zip(&b.columns).all(|(x, y)| x.dtype == y.dtype && x.cells == y.cells)
}

#[test]
fn written_batch_of_every_type_is_read_back() {
    let batch = every_type();
    let bytes = write_parquet_batch(&batch, &ParquetWriterConfig::default()).unwrap();
    let read = read_parquet_file(&bytes).unwrap();
    assert_eq!(read.len(), 1);
    assert!(same(&read[0], &batch));
}

#[test]
fn written_batch_can_be_projected() {
    let batch = every_type();
    let bytes = write_parquet_batch(&batch, &ParquetWriterConfig::default()).unwrap();
    let read = read_parquet_file_projected(&bytes, Some(&[2, 17])).unwrap();
    assert_eq!(read.len(), 1);
    assert_eq!(read[0].names, vec!["Int32".to_string(), "Utf8".to_string()]);
    assert_eq!(read[0].columns[1].cells, batch.columns[17].cells);
}

#[test]
fn batch_is_taken_out_of_its_buffers() {
    let batch = every_type();
    let raw = disassemble_batch(&batch).unwrap();
    assert!(same(&assemble_batch(&raw).unwrap(), &batch));
}

#[test]
fn batch_without_rows_is_read_back() {
    let batch = Batch::new(
        vec!["n".to_string(), "s".to_string(), "t".to_string()],
        vec![
            column(ColumnType::Int32, vec![]),
            column(ColumnType::Utf8, vec![]),
            column(ColumnType::Boolean, vec![]),
        ],
    )
    .unwrap();
    let bytes = write_parquet_batch(&batch, &ParquetWriterConfig::default()).unwrap();
    let read = read_parquet_file(&bytes).unwrap();
    assert_eq!(read.len(), 1);
    assert!(same(&read[0], &batch));
}

#[test]
fn batch_of_an_unread_type_is_not_written() {
    let batch = Batch::new(
        vec!["n".to_string(), "o".to_string()],
        vec![column(ColumnType::Int8, vec![None]), column(ColumnType::Other, vec![None])],
    )
    .unwrap();
    let r = write_parquet_batch(&batch, &ParquetWriterConfig::default());
    assert!(matches!(r, Err(RockDuckError::Unimplemented)));
}

#[test]
fn bytes_that_are_no_file_are_refused() {
    assert!(matches!(read_parquet_file(b"not a file"), Err(RockDuckError::ReadPath)));
}

#[test]
fn buffers_of_a_column_are_laid_out_as_arrow_does() {
    let c = column(ColumnType::UInt16, vec![Some(vec![1, 2]), None, Some(vec![3, 4])]);
    let (valid, buffers) = write_column(&c).unwrap();
    assert_eq!(valid, vec![true, false, true]);
    assert_eq!(buffers, vec![vec![1, 2, 0, 0, 3, 4]]);
    let c = column(ColumnType::Boolean, vec![Some(vec![1]), None, Some(vec![0]), Some(vec![1])]);
    let (_, buffers) = write_column(&c).unwrap();
    assert_eq!(buffers, vec![vec![0b1001]]);
    let c = column(ColumnType::Utf8, vec![Some(b"ab".to_vec()), None, Some(b"c".to_vec())]);
    let (valid, buffers) = write_column(&c).unwrap();
    assert_eq!(buffers, vec![vec![0, 0, 0, 0, 2, 0, 0, 0, 2, 0, 0, 0, 3, 0, 0, 0], b"abc".to_vec()]);
    let back = read_column(&type_label(ColumnType::Utf8).to_string(), &valid, &buffers, 0).unwrap();
    assert_eq!(back.cells, c.cells);
}

#[test]
fn batch_without_columns_is_read_back() {
    let batch = Batch::new(vec![], vec![]).unwrap();
    let bytes = write_parquet_batch(&batch, &ParquetWriterConfig::default()).unwrap();
    let read = read_parquet_file(&bytes).unwrap();
    assert_eq!(read.len(), 1);
    assert!(same(&read[0], &batch));
}

#[test]
fn batch_with_too_many_columns_is_not_written() {
    let names: Vec<String> = (0..65537u32).map(|i| i.to_string()).collect();
    let columns = names.iter().map(|_| column(ColumnType::Int8, vec![])).collect();
    let r = write_parquet_batch(&Batch { names, columns }, &ParquetWriterConfig::default());
    assert!(matches!(r, Err(RockDuckError::Write)));
}

#[test]
fn files_that_break_off_are_refused() {
    let bytes = write_parquet_batch(&every_type(), &ParquetWriterConfig::default()).unwrap();
    assert!(is_well_laid(&bytes));
    for n in 0..bytes.len() {
        assert!(!is_well_laid(&bytes[..n]));
        assert!(matches!(read_parquet_file(&bytes[..n]), Err(RockDuckError::ReadPath)));
    }
}

fn small_file() -> Vec<u8> {
    let batch = Batch::new(
        vec!["n".to_string(), "s".to_string(), "t".to_string()],
        vec![
            column(ColumnType::Int32, vec![Some(vec![1, 2, 3, 4]), None]),
            column(ColumnType::Utf8, vec![None, Some(b"duck".to_vec())]),
            column(ColumnType::Boolean, vec![Some(vec![1]), Some(vec![0])]),
        ],
    )
    .unwrap();
    write_parquet_batch(&batch, &ParquetWriterConfig::default()).unwrap()
}

/// Reads a file in every way, and tells whether it was refused.
fn is_refused(bytes: &[u8]) -> bool {
    let _ = read_parquet_file_projected(bytes, Some(&[1]));
    let _ = decode_arrow_array(bytes);
    let _ = decode_ipc_column(bytes);
    read_parquet_file(bytes).is_err()
}

#[test]
fn files_with_another_byte_are_refused_or_read() {
    let bytes = small_file();
    assert!(!is_refused(&bytes));
    let mut refused = 0;
    for at in 0..bytes.len() {
        for change in [1u8, 2, 4, 8, 16, 32, 64, 128, 255] {
            let mut other = bytes.clone();
            other[at] ^= change;
            if is_refused(&other) {
                refused += 1;
            }
        }
    }
    assert!(refused > 0);
}

#[test]
fn files_with_another_number_are_refused_or_read() {
    let bytes = small_file();
    let mut refused = 0;
    for at in (0..bytes.len() - 8).step_by(4) {
        for number in [-1i64, -8, 0, 1, 3, 9, 1 << 20, 1 << 33, i64::MAX, i64::MIN] {
            for width in [4, 8] {
                let mut other = bytes.clone();
                other[at..at + width].copy_from_slice(&number.to_le_bytes()[..width]);
                if is_refused(&other) {
                    refused += 1;
                }
            }
        }
    }
    assert!(refused > 0);
}
