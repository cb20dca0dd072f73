use rockduck::column::{Column, ColumnType};
use rockduck::error::RockDuckError;
use rockduck::ordmap::OrdMap;
use rockduck::storage::granule::{
    compute_column_stats, extract_max_bytes, extract_min_bytes, merge_column_stats, ColumnStats, GranuleBuffer,
    GranuleMeta, GranuleReader, GranuleWriter, GRANULE_SIZE,
};

fn int64(values: Vec<i64>) -> Column {
    Column::new(ColumnType::Int64, values.iter().map(|v| Some(v.to_le_bytes().to_vec())).collect()).unwrap()
}

#[test]
fn test_granule_writer() {
    let writer = GranuleWriter::new(0, 0);
    assert_eq!(writer.current_rows(), 0);
    assert!(!writer.is_full());
}

#[test]
fn test_granule_buffer() {
    let buffer = GranuleBuffer::new();
    assert_eq!(buffer.current_row_count("test"), 0);
}

#[test]
fn test_granule_reader_new() {
    let meta = GranuleMeta::new(0, 0, 100);
    let reader = GranuleReader::new(meta);
    assert_eq!(reader.row_count(), 100);
    assert_eq!(reader.row_offset(), 0);
    assert_eq!(reader.zone_map().stats.len(), 0);
}

#[test]
fn test_granule_reader_add_column() {
    let meta = GranuleMeta::new(5, 1000, 500);
    let mut reader = GranuleReader::new(meta);

    reader.add_column("age", "/data/age.vortex".to_string());
    assert_eq!(reader.meta.granule_id, 5);
    assert_eq!(reader.meta.row_offset, 1000);
}

#[test]
fn test_granule_writer_current_rows() {
    let writer = GranuleWriter::new(1, 0);
    assert_eq!(writer.current_rows(), 0);
}

#[test]
fn test_granule_writer_estimated_size() {
    let writer = GranuleWriter::new(0, 0);
    assert_eq!(writer.estimated_size(), 0);
}

#[test]
fn test_granule_writer_is_full() {
    let writer = GranuleWriter::new(0, 0);
    assert!(!writer.is_full());
}

#[test]
fn test_granule_writer_build_meta() {
    let mut writer = GranuleWriter::new(3, 1000);
    let arr = int64(vec![1i64, 2, 3]);
    writer.add_column("id", arr).unwrap();
    let meta = writer.build_meta();
    assert_eq!(meta.granule_id, 3);
    assert_eq!(meta.row_offset, 1000);
    assert_eq!(meta.row_count, 3);
}

#[test]
fn test_granule_writer_add_column_rejects_mismatch() {
    let mut writer = GranuleWriter::new(0, 0);
    let arr1 = int64(vec![1i64, 2, 3]);
    writer.add_column("id", arr1).unwrap();

    let arr2 = int64(vec![1i64, 2]); // 2 rows != 3
    let result = writer.add_column("age", arr2);
    assert!(result.is_err());
}

#[test]
fn test_granule_writer_clear() {
    let mut writer = GranuleWriter::new(0, 0);
    let arr = int64(vec![1i64, 2, 3]);
    writer.add_column("id", arr).unwrap();
    assert_eq!(writer.current_rows(), 3);

    writer.clear();
    assert_eq!(writer.current_rows(), 0);
}

#[test]
fn test_granule_writer_update_zone_map_no_panic() {
    let mut writer = GranuleWriter::new(0, 0);
    let arr = int64(vec![1i64, 2, 3]);
    let result = writer.add_column("id", arr);
    // Should not panic even if zone_map update is no-op
    assert!(result.is_ok());
}

#[test]
fn test_granule_buffer_new() {
    let buffer = GranuleBuffer::new();
    assert_eq!(buffer.current_row_count("any"), 0);
}

#[test]
fn test_granule_buffer_multiple_segments() {
    let mut buffer = GranuleBuffer::new();
    let arr = int64(vec![1i64, 2, 3]);
    let mut cols: OrdMap<String, Column> = OrdMap::new();
    cols.insert("id".to_string(), arr);

    buffer.add_row("seg_a", &cols).unwrap();
    buffer.add_row("seg_b", &cols).unwrap();

    assert_eq!(buffer.current_row_count("seg_a"), 3);
    assert_eq!(buffer.current_row_count("seg_b"), 3);
}

#[test]
fn test_granule_buffer_needs_flush() {
    let mut buffer = GranuleBuffer::new();
    assert!(!buffer.needs_flush("seg_001"));

    let arr = int64(vec![1i64]);
    let mut cols: OrdMap<String, Column> = OrdMap::new();
    cols.insert("id".to_string(), arr);
    buffer.add_row("seg_001", &cols).unwrap();

    assert!(!buffer.needs_flush("seg_001")); // Not full with default 1MB threshold
}

#[test]
fn test_granule_buffer_flush_and_next() {
    let mut buffer = GranuleBuffer::new();
    let arr = int64(vec![1i64, 2, 3]);
    let mut cols: OrdMap<String, Column> = OrdMap::new();
    cols.insert("id".to_string(), arr);
    buffer.add_row("seg_001", &cols).unwrap();

    let result = buffer.flush_and_next("seg_001");
    assert!(result.is_ok());
}

#[test]
fn test_granule_buffer_flush_nonexistent() {
    let mut buffer = GranuleBuffer::new();
    let result = buffer.flush_and_next("seg_nonexistent");
    assert!(result.is_ok());
    assert!(result.unwrap().is_none());
}

#[test]
fn test_granule_buffer_finish_segment() {
    let mut buffer = GranuleBuffer::new();
    let arr = int64(vec![1i64, 2]);
    let mut cols: OrdMap<String, Column> = OrdMap::new();
    cols.insert("id".to_string(), arr);
    buffer.add_row("seg_001", &cols).unwrap();

    let metas = buffer.finish_segment("seg_001");
    assert!(metas.is_ok());
    assert!(!metas.unwrap().is_empty());
}

#[test]
fn test_granule_buffer_finish_empty() {
    let mut buffer = GranuleBuffer::new();
    let metas = buffer.finish_segment("seg_empty");
    assert!(metas.is_ok());
    assert!(metas.unwrap().is_empty());
}

#[test]
fn test_granule_buffer_current_row_count() {
    let mut buffer = GranuleBuffer::new();
    assert_eq!(buffer.current_row_count("seg_001"), 0);

    let arr = int64(vec![1i64, 2, 3]);
    let mut cols: OrdMap<String, Column> = OrdMap::new();
    cols.insert("id".to_string(), arr);
    buffer.add_row("seg_001", &cols).unwrap();

    assert_eq!(buffer.current_row_count("seg_001"), 3);
}

#[test]
fn test_granule_buffer_default() {
    let buffer: GranuleBuffer = Default::default();
    assert_eq!(buffer.current_row_count("any"), 0);
}

#[test]
fn test_granule_size_constant() {
    assert_eq!(GRANULE_SIZE, 1024 * 1024);
}

#[test]
fn statistics_bound_the_values() {
    let c = int64(vec![3, -5, 8]);
    let stats = compute_column_stats(&c);
    assert_eq!(stats.min, Some((-5i64).to_le_bytes().to_vec()));
    assert_eq!(stats.max, Some(8i64.to_le_bytes().to_vec()));
    assert_eq!(stats.null_count, 0);
    assert_eq!(stats.sum, None);
    assert_eq!(stats.distinct_count, None);
}

#[test]
fn truth_values_have_a_range() {
    let truth = |values: &[u8]| {
        Column::new(ColumnType::Boolean, values.iter().map(|v| Some(vec![*v])).collect()).unwrap()
    };
    assert_eq!(extract_min_bytes(&truth(&[1, 0])), Some(vec![0]));
    assert_eq!(extract_max_bytes(&truth(&[1, 0])), Some(vec![1]));
    assert_eq!(extract_min_bytes(&truth(&[1, 1])), Some(vec![1]));
    assert_eq!(extract_max_bytes(&truth(&[0, 0])), Some(vec![0]));
    assert_eq!(extract_min_bytes(&truth(&[])), None);
}

#[test]
fn floats_that_are_no_numbers_give_way() {
    let f = |values: &[f64]| {
        Column::new(ColumnType::Float64, values.iter().map(|v| Some(v.to_le_bytes().to_vec())).collect()).unwrap()
    };
    assert_eq!(extract_min_bytes(&f(&[f64::NAN, 2.0, 1.0])), Some(1.0f64.to_le_bytes().to_vec()));
    assert_eq!(extract_max_bytes(&f(&[2.0, f64::NAN])), Some(2.0f64.to_le_bytes().to_vec()));
    assert_eq!(extract_min_bytes(&f(&[f64::NAN])), Some(f64::NAN.to_le_bytes().to_vec()));
}

#[test]
fn dates_have_no_range() {
    let c = Column::new(ColumnType::Date32, vec![Some(vec![1, 0, 0, 0])]).unwrap();
    assert_eq!(extract_min_bytes(&c), None);
    assert_eq!(extract_max_bytes(&c), None);
}

#[test]
fn ranges_are_merged_by_value() {
    let stats = |min: Option<Vec<u8>>, max: Option<Vec<u8>>, null_count: u32| ColumnStats {
        min,
        max,
        null_count,
        sum: Some(1),
        distinct_count: Some(1),
    };
    let le = |v: i64| Some(v.to_le_bytes().to_vec());
    let merged = merge_column_stats(
        ColumnType::Int64,
        &stats(le(256), le(257), 3),
        &stats(le(-1), le(1), 4),
    );
    assert_eq!((merged.min, merged.max), (le(-1), le(257)));
    assert_eq!(merged.null_count, 7);
    assert_eq!(merged.sum, None);
    let text = |s: &str| Some(s.as_bytes().to_vec());
    let merged = merge_column_stats(
        ColumnType::Utf8,
        &stats(text("b"), text("ba"), 0),
        &stats(text("az"), text("b"), 0),
    );
    assert_eq!((merged.min, merged.max), (text("az"), text("ba")));
    let merged = merge_column_stats(ColumnType::UInt8, &stats(None, Some(vec![1]), 0), &stats(Some(vec![5]), None, 0));
    assert_eq!(merged.min, Some(vec![5]));
    assert_eq!(merged.max, Some(vec![1]));
}

#[test]
fn statistics_bound_all_columns_of_a_name() {
    let mut writer = GranuleWriter::new(0, 0);
    writer.add_column("id", int64(vec![256, 300])).unwrap();
    writer.add_column("id", int64(vec![1, -5])).unwrap();
    let meta = writer.build_meta();
    let stats = meta.zone_map.get("id").unwrap();
    assert_eq!(stats.min, Some((-5i64).to_le_bytes().to_vec()));
    assert_eq!(stats.max, Some(300i64.to_le_bytes().to_vec()));
    let other = Column::new(ColumnType::UInt8, vec![Some(vec![7]), None]).unwrap();
    writer.add_column("id", other).unwrap();
    let meta = writer.build_meta();
    let stats = meta.zone_map.get("id").unwrap();
    assert_eq!((stats.min.clone(), stats.max.clone(), stats.null_count), (None, None, 1));
}

#[test]
fn missing_values_are_no_part_of_the_range() {
    let cells = vec![None, Some(7i64.to_le_bytes().to_vec()), None, Some(9i64.to_le_bytes().to_vec())];
    let stats = compute_column_stats(&Column::new(ColumnType::Int64, cells).unwrap());
    assert_eq!(stats.min, Some(7i64.to_le_bytes().to_vec()));
    assert_eq!(stats.max, Some(9i64.to_le_bytes().to_vec()));
    assert_eq!(stats.null_count, 2);
    let none = compute_column_stats(&Column::new(ColumnType::Int64, vec![None, None]).unwrap());
    assert_eq!((none.min, none.max, none.null_count), (None, None, 2));
}

#[test]
fn flush_empties_the_granule_and_moves_on() {
    let mut buffer = GranuleBuffer::new();
    let mut cols: OrdMap<String, Column> = OrdMap::new();
    cols.insert("id".to_string(), int64(vec![1, 2, 3]));
    buffer.add_row("a", &cols).unwrap();
    let first = buffer.flush_and_next("a").unwrap().unwrap();
    assert_eq!((first.granule_id, first.row_offset, first.row_count), (0, 0, 3));
    assert_eq!(first.zone_map.get("id").unwrap().max, Some(3i64.to_le_bytes().to_vec()));
    assert_eq!(buffer.current_row_count("a"), 0);
    assert!(buffer.flush_and_next("a").unwrap().is_none());
    buffer.add_row("b", &cols).unwrap();
    let second = buffer.flush_and_next("b").unwrap().unwrap();
    assert_eq!((second.granule_id, second.row_offset, second.row_count), (1, 3, 3));
}

#[test]
fn next_granule_of_a_segment_has_a_number_of_its_own() {
    let mut buffer = GranuleBuffer::new();
    let mut cols: OrdMap<String, Column> = OrdMap::new();
    cols.insert("id".to_string(), int64(vec![1, 2, 3]));
    for (granule_id, row_offset) in [(0, 0), (1, 3), (2, 6)] {
        buffer.add_row("a", &cols).unwrap();
        let meta = buffer.flush_and_next("a").unwrap().unwrap();
        assert_eq!((meta.granule_id, meta.row_offset, meta.row_count), (granule_id, row_offset, 3));
    }
}

#[test]
fn columns_of_other_lengths_are_refused() {
    let mut buffer = GranuleBuffer::new();
    let mut cols: OrdMap<String, Column> = OrdMap::new();
    cols.insert("a".to_string(), int64(vec![1, 2]));
    cols.insert("b".to_string(), int64(vec![1, 2, 3]));
    assert_eq!(buffer.add_row("s", &cols), Err(RockDuckError::Storage));
    assert_eq!(buffer.current_row_count("s"), 2);
}

#[test]
fn a_granule_is_full_at_its_size() {
    let mut writer = GranuleWriter::new(0, 0);
    writer.add_column("id", int64(vec![0; 131072])).unwrap();
    assert_eq!(writer.estimated_size(), 1048576);
    assert!(writer.is_full());
    let mut writer = GranuleWriter::new(0, 0);
    writer.add_column("id", int64(vec![0; 131071])).unwrap();
    assert!(!writer.is_full());
}
