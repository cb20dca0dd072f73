use arrow_schema::{DataType, TimeUnit};
use rockduck::column::{Batch, Column, ColumnType};
use rockduck::error::RockDuckError;
use rockduck::segment::meta::GranuleId;
use rockduck::storage::fastlanes::{compute_bit_width, extract_i128, EncodingMethod, EncodingScheme, FastLanesEncoder};
use rockduck::storage::file_manager::FileManager;
use rockduck::storage::granule_bloom_filter::{optimal_bits, AtomicGranuleBloomFilter, FastbloomGranuleFilter};
use rockduck::storage::granule_zone_map_mmap::{
    ColumnRange, GranuleZoneMapBuilder, GranuleZoneMapData, InlineBytes, InlineGranuleStats, MmappedZoneMap,
};
use rockduck::storage::mmap_file::{slice_at, MmapWriter};
use rockduck::storage::parquet_format::{
    export_table_to_parquet, read_parquet_file, read_parquet_file_projected, ParquetCompression,
    ParquetWriterConfig, StorageFormat,
};
use rockduck::storage::vortex::{
    dominant_scheme, looks_like_vortex, make_schema, parse_data_type, locate_row, read_sidecar,
    recommended_encoding, write_sidecar_entry, EncodingMetaHeader, Field, FieldType, FinishStep, SchemaField,
    VortexChunkIterator, VortexReader, VortexWriter, Written,
};
use rockduck::storage::vortex_alp_ext::{
    alp_is_worth_it, choose_integer_encoding, ieee754_exponent, AdaptiveEncodingPicker, TableEncodingConfig,
};
use rockduck::typed_arrow_records::{LogRecord, UserRecord};
use std::sync::Arc;

fn int64(values: &[i64]) -> Column {
    Column::new(ColumnType::Int64, values.iter().map(|v| Some(v.to_le_bytes().to_vec())).collect()).unwrap()
}

fn uint64(values: &[u64]) -> Column {
    Column::new(ColumnType::UInt64, values.iter().map(|v| Some(v.to_le_bytes().to_vec())).collect()).unwrap()
}

fn float64(values: &[f64]) -> Column {
    Column::new(ColumnType::Float64, values.iter().map(|v| Some(v.to_le_bytes().to_vec())).collect()).unwrap()
}

fn float32(values: &[f32]) -> Column {
    Column::new(ColumnType::Float32, values.iter().map(|v| Some(v.to_le_bytes().to_vec())).collect()).unwrap()
}

#[test]
fn inline_bytes_are_cut() {
    assert!(InlineBytes::new().is_empty());
    let short = InlineBytes::from_slice(b"abc");
    assert_eq!(short.as_slice(), b"abc");
    assert_eq!(short.len(), 3);
    let long = InlineBytes::from_slice(&[7; 40]);
    assert_eq!(long.as_slice(), &[7; 32]);
}

fn stats(values: &[&[u8]]) -> InlineGranuleStats {
    let mut g = InlineGranuleStats::new(GranuleId::new(1), 8192);
    for v in values {
        g.update_min(v);
        g.update_max(v);
    }
    g
}

#[test]
fn granules_that_hold_nothing_of_a_range_are_skipped() {
    let mut builder = GranuleZoneMapBuilder::new("age".to_string(), 8192);
    let mut first = stats(&[b"d", b"b"]);
    first.update_null_count(2);
    first.row_count = 10;
    builder.add_granule(first);
    builder.add_granule(stats(&[b"x"]));
    let map = builder.finalize();
    assert_eq!(map.num_granules(), 2);
    assert_eq!(map.total_rows(), 10);
    assert!(map.granule_may_overlap(0, b"c", b"e"));
    assert!(!map.granule_may_overlap(0, b"e", b"f"));
    assert!(!map.granule_may_overlap(1, b"e", b"f"));
    assert!(map.granule_may_overlap(2, b"e", b"f"));
    assert!(!map.may_overlap(b"e", b"f"));
    assert!(map.may_overlap(b"x", b"z"));
}

#[test]
fn zone_maps_are_read_back() {
    let mut builder = GranuleZoneMapBuilder::new("age".to_string(), 100);
    builder.add_granule(stats(&[b"d", b"b"]));
    builder.add_granule(InlineGranuleStats::new(GranuleId::new(9), 100));
    let bytes = builder.finalize().to_payload().unwrap();
    let map = MmappedZoneMap::from_payload(&bytes).unwrap();
    assert_eq!(map.data.column_name, "age");
    assert_eq!(map.num_granules(), 2);
    assert_eq!(map.granule_min(0), Some(b"b".as_slice()));
    assert_eq!(map.granule_max(0), Some(b"d".as_slice()));
    assert_eq!(map.granule_min(1), None);
    assert_eq!(map.granule_null_count(0), 0);
    assert_eq!(map.granule_row_count(7), 0);
    assert!(map.granule_may_overlap(0, b"c", b"c"));
    assert!(map.may_overlap(b"c", b"c"));
    assert_eq!(MmappedZoneMap::from_payload(b"").err(), Some(RockDuckError::Codec));
}

#[test]
fn ranges_become_granules() {
    let map = GranuleZoneMapData::from_ranges(&vec![
        ColumnRange { min_value: Some(vec![1]), max_value: Some(vec![9]), null_count: 4 },
        ColumnRange { min_value: None, max_value: None, null_count: 0 },
    ]);
    assert_eq!(map.column_name, "unknown");
    assert_eq!(map.block_size, 8192);
    assert_eq!(map.granules[0].min_value(), Some([1u8].as_slice()));
    assert_eq!(map.granules[0].null_count, 4);
    assert_eq!(map.granules[1].granule_id.get(), 1);
    assert_eq!(map.granules[1].max_value(), None);
}

#[test]
fn filters_answer_for_every_key() {
    let mut filter =
        FastbloomGranuleFilter::create("seg".to_string(), GranuleId::new(1), 100, "/f".to_string()).unwrap();
    assert!(!filter.might_contain(b"a"));
    assert_eq!(filter.fill_ratio().num, 0);
    for i in 0..100u32 {
        filter.insert(&i.to_le_bytes());
    }
    for i in 0..100u32 {
        assert!(filter.might_contain(&i.to_le_bytes()));
    }
    assert_eq!(filter.item_count(), 100);
    assert_eq!(filter.fill_ratio().den, 1024);
    assert!(filter.fill_ratio().num > 0);
    assert_eq!(filter.path(), "/f");
    assert_eq!(filter.remove(b"a"), Err(RockDuckError::Unimplemented));
}

#[test]
fn filters_are_read_back() {
    let mut filter =
        FastbloomGranuleFilter::create("seg".to_string(), GranuleId::new(1), 10, "/f".to_string()).unwrap();
    filter.insert(b"key");
    let bytes = filter.begin_save().unwrap().unwrap();
    filter.finish_save();
    assert_eq!(filter.begin_save(), Ok(None));
    let loaded = FastbloomGranuleFilter::load(&bytes, "/f".to_string()).unwrap();
    assert!(loaded.might_contain(b"key"));
    assert_eq!(loaded.item_count(), 0);
    assert!(!loaded.dirty);
    assert_eq!(
        FastbloomGranuleFilter::load(b"x", "/f".to_string()).err(),
        Some(RockDuckError::Codec)
    );
    let huge = vec![0u8; 10485761];
    assert_eq!(FastbloomGranuleFilter::load(&huge, "/f".to_string()).err(), Some(RockDuckError::Codec));
    let made = FastbloomGranuleFilter::load_or_create(
        "s".to_string(),
        GranuleId::new(2),
        5,
        "/g".to_string(),
        Some(&bytes),
    );
    assert!(made.unwrap().might_contain(b"key"));
    assert_eq!(optimal_bits(3), 64);
    assert_eq!(optimal_bits(7), 70);
}

#[test]
fn filters_with_a_hasher_that_has_begun_are_refused() {
    let mut filter =
        FastbloomGranuleFilter::create("seg".to_string(), GranuleId::new(1), 10, "/f".to_string()).unwrap();
    filter.insert(b"key");
    let bytes = filter.begin_save().unwrap().unwrap();
    // Two words, the number of hashes, and the hasher: the last eight bytes say
    // how many bytes it has left over.
    assert_eq!(bytes.len(), 8 + 16 + 4 + 72);
    for (at, value) in [(bytes.len() - 8, 200u8), (bytes.len() - 8, 9), (44, 1)] {
        let mut other = bytes.clone();
        assert_eq!(other[at], 0);
        other[at] = value;
        assert_eq!(
            FastbloomGranuleFilter::load(&other, "/f".to_string()).err(),
            Some(RockDuckError::Codec)
        );
    }
}

#[test]
fn shared_filters_answer_for_every_key() {
    let mut filter = AtomicGranuleBloomFilter::create(1, 100, "/f".to_string()).unwrap();
    assert!(!filter.might_contain(b"a"));
    filter.insert(b"a");
    assert!(filter.might_contain(b"a"));
}

#[test]
fn integers_are_packed_in_the_bits_they_need() {
    assert_eq!(compute_bit_width(&int64(&[])), 1);
    assert_eq!(compute_bit_width(&int64(&[5, 5])), 1);
    assert_eq!(compute_bit_width(&uint64(&[0, 7])), 3);
    assert_eq!(compute_bit_width(&uint64(&[0, 8])), 4);
    assert_eq!(compute_bit_width(&int64(&[0, 7])), 4);
    assert_eq!(compute_bit_width(&int64(&[-4, 2])), 3);
    assert_eq!(compute_bit_width(&int64(&[i64::MIN, i64::MAX])), 64);
    assert_eq!(extract_i128(&int64(&[-4]), 0), -4);
    assert_eq!(extract_i128(&uint64(&[u64::MAX]), 0), u64::MAX as i128);
    assert_eq!(extract_i128(&float64(&[1.0]), 0), 0);
    assert_eq!(FastLanesEncoder::packing(&uint64(&[0, 7])), Ok((3, EncodingScheme::BitPacking)));
    assert_eq!(FastLanesEncoder::packing(&float64(&[1.0])), Err(RockDuckError::TypeMismatch));
}

#[test]
fn only_some_rows_of_a_long_column_are_looked_at() {
    let mut values = vec![0u64; 20001];
    values[1] = u64::MAX;
    assert_eq!(compute_bit_width(&uint64(&values)), 1);
    values[2] = 255;
    assert_eq!(compute_bit_width(&uint64(&values)), 8);
}

#[test]
fn wide_integers_are_stored_as_differences() {
    assert_eq!(choose_integer_encoding(&uint64(&[0, 255])), EncodingMethod::BitPacking(8));
    assert_eq!(choose_integer_encoding(&uint64(&[0, u32::MAX as u64])), EncodingMethod::BitPacking(32));
    assert_eq!(choose_integer_encoding(&uint64(&[0, 1 << 32])), EncodingMethod::Delta);
}

#[test]
fn exponents_are_read_without_their_bias() {
    assert_eq!(ieee754_exponent(1.0f64.to_bits()), 0);
    assert_eq!(ieee754_exponent((-8.0f64).to_bits()), 3);
    assert_eq!(ieee754_exponent(0.5f64.to_bits()), -1);
    assert_eq!(ieee754_exponent(0.0f64.to_bits()), i32::MAX);
    assert_eq!(ieee754_exponent(f64::INFINITY.to_bits()), i32::MAX);
}

#[test]
fn decimals_are_worth_it_for_numbers_near_one() {
    let near = vec![1.5f64; 2000];
    let far = vec![1e300f64; 2000];
    assert_eq!(alp_is_worth_it(&float64(&near)), 4);
    assert_eq!(alp_is_worth_it(&float64(&far)), 1);
    assert_eq!(alp_is_worth_it(&float64(&near[..999])), 1);
    let half: Vec<f64> = (0..2000).map(|i| if i % 4 < 2 { 2.5 } else { 1e300 }).collect();
    assert_eq!(alp_is_worth_it(&float64(&half)), 2);
    assert_eq!(alp_is_worth_it(&float32(&vec![64.0f32; 1000])), 4);
    assert_eq!(alp_is_worth_it(&float32(&vec![128.0f32; 1000])), 1);
    assert_eq!(alp_is_worth_it(&int64(&[1; 1000])), 1);
}

#[test]
fn encodings_are_picked_by_the_values() {
    let picker = AdaptiveEncodingPicker::new(TableEncodingConfig {});
    assert_eq!(picker.pick(&float64(&[1.5; 1000])), EncodingScheme::Alp);
    assert_eq!(picker.pick(&float64(&[1.5])), EncodingScheme::BtrBlocks);
    assert_eq!(picker.pick(&uint64(&[1, 2])), EncodingScheme::BitPacking);
    assert_eq!(picker.pick(&int64(&[0, i64::MAX])), EncodingScheme::Delta);
    let text = Column::new(ColumnType::Utf8, vec![Some(b"a".to_vec())]).unwrap();
    assert_eq!(picker.pick(&text), EncodingScheme::BtrBlocks);
    assert_eq!(picker.with_scheme(EncodingScheme::AlpRD), EncodingScheme::Alp);
    assert_eq!(picker.with_scheme(EncodingScheme::FOR), EncodingScheme::FOR);
}

#[test]
fn headers_are_read_back() {
    let header = EncodingMetaHeader::new_entry(0x01020304);
    let bytes = header.to_bytes();
    assert_eq!(bytes.len(), 64);
    assert_eq!(&bytes[0..13], b"VEM1\x01\x01\x00\x00\x00\x04\x03\x02\x01");
    let back = EncodingMetaHeader::from_bytes(&bytes);
    assert!(back.is_valid());
    assert_eq!((back.entry_count, back.payload_len), (1, 0x01020304));
    assert_eq!(EncodingMetaHeader::new_file_header(5).entry_count, 5);
}

#[test]
fn the_first_entry_of_a_sidecar_is_read() {
    let mut file = write_sidecar_entry(b"first", true);
    file.extend(write_sidecar_entry(b"second", false));
    assert_eq!(read_sidecar(&file), Ok(b"first".to_vec()));
    assert_eq!(read_sidecar(&file[..130]), Err(RockDuckError::Codec));
    assert_eq!(read_sidecar(&file[..100]), Err(RockDuckError::Codec));
    assert_eq!(read_sidecar(b"tiny"), Err(RockDuckError::Codec));
    let old = vec![9u8; 70];
    assert_eq!(read_sidecar(&old), Ok(old.clone()));
    let mut bad = file.clone();
    bad[64] = 0;
    assert_eq!(read_sidecar(&bad), Err(RockDuckError::Codec));
}

#[test]
fn formats_are_told_by_their_first_bytes() {
    assert!(looks_like_vortex(b"VTXF..."));
    assert!(!looks_like_vortex(b"ARROW1"));
    assert!(!looks_like_vortex(b"VTX"));
}

#[test]
fn names_of_types_are_read_back() {
    for t in [
        FieldType::Null,
        FieldType::Float16,
        FieldType::Column(ColumnType::Int8),
        FieldType::Column(ColumnType::TimestampMicros),
        FieldType::Column(ColumnType::LargeBinary),
    ] {
        assert_eq!(parse_data_type(t.name()), Ok(t));
    }
    assert_eq!(parse_data_type("Decimal128(1, 2)"), Err(RockDuckError::TypeMismatch));
    let field = Field { name: "a".to_string(), data_type: FieldType::Column(ColumnType::Date32), nullable: false };
    let stored = SchemaField::from_field(&field);
    assert_eq!(stored.data_type_str, "Date32");
    let back = stored.to_field().unwrap();
    assert_eq!((back.name.as_str(), back.data_type, back.nullable), ("a", field.data_type, false));
    let other = SchemaField { name: "a".to_string(), data_type_str: "?".to_string(), nullable: true };
    assert_eq!(other.to_field().err(), Some(RockDuckError::TypeMismatch));
}

#[test]
fn names_of_types_are_those_of_arrow() {
    let pairs = [
        (DataType::Null, FieldType::Null),
        (DataType::Float16, FieldType::Float16),
        (DataType::Boolean, FieldType::Column(ColumnType::Boolean)),
        (DataType::UInt16, FieldType::Column(ColumnType::UInt16)),
        (DataType::Date64, FieldType::Column(ColumnType::Date64)),
        (DataType::Timestamp(TimeUnit::Second, None), FieldType::Column(ColumnType::TimestampSecond)),
        (DataType::Timestamp(TimeUnit::Nanosecond, None), FieldType::Column(ColumnType::TimestampNanos)),
        (DataType::LargeUtf8, FieldType::Column(ColumnType::LargeUtf8)),
    ];
    for (arrow, own) in pairs {
        assert_eq!(format!("{:?}", arrow), own.name());
    }
}

#[test]
fn encodings_suit_their_types() {
    assert_eq!(recommended_encoding(ColumnType::Float32), "BtrBlocks(ALP)");
    assert_eq!(recommended_encoding(ColumnType::UInt8), "BtrBlocks(FastLanes)");
    assert_eq!(recommended_encoding(ColumnType::Utf8), "BtrBlocks");
    let schema = make_schema(&vec![("a".to_string(), FieldType::Null)]);
    assert_eq!(schema[0].name, "a");
    assert!(schema[0].nullable);
}

#[test]
fn rows_are_found_in_their_batches() {
    let rows = [3, 0, 5];
    assert_eq!(locate_row(&rows, 8, 0), Some((0, 0)));
    assert_eq!(locate_row(&rows, 8, 2), Some((0, 2)));
    assert_eq!(locate_row(&rows, 8, 3), Some((2, 0)));
    assert_eq!(locate_row(&rows, 8, 7), Some((2, 4)));
    assert_eq!(locate_row(&rows, 8, 8), None);
    assert_eq!(locate_row(&rows, 9, 8), None);
}

#[test]
fn the_scheme_of_most_rows_wins() {
    assert_eq!(dominant_scheme(&vec![]), EncodingScheme::BtrBlocks);
    assert_eq!(
        dominant_scheme(&vec![(EncodingScheme::Alp, 5), (EncodingScheme::Delta, 9), (EncodingScheme::FOR, 9)]),
        EncodingScheme::FOR
    );
    assert_eq!(dominant_scheme(&vec![(EncodingScheme::Alp, 5), (EncodingScheme::Delta, 4)]), EncodingScheme::Alp);
}

fn batch(rows: usize) -> Batch {
    Batch::new(vec!["v".to_string()], vec![int64(&vec![1; rows])]).unwrap()
}

#[test]
fn writers_write_when_there_are_rows_enough() {
    let mut writer = VortexWriter::create("/v".to_string(), "v".to_string()).with_flush_threshold(5);
    assert_eq!(writer.begin_finish(), Err(RockDuckError::Storage));
    writer.write(batch(3), 24).unwrap();
    assert_eq!(writer.flush_pending(), 0);
    assert_eq!(writer.begin_finish(), Ok(FinishStep::Write));
    writer.write(batch(2), 16).unwrap();
    assert_eq!(writer.flush_pending(), 2);
    let meta =
        writer.finish_flush(Written { scheme: EncodingScheme::BitPacking, original_bytes: 40, encoded_bytes: 9 });
    assert_eq!((meta.total_rows, meta.original_bytes, meta.encoded_bytes), (5, 40, 9));
    assert_eq!(meta.scheme, EncodingScheme::BitPacking);
    assert_eq!((writer.total_rows(), writer.num_batches()), (0, 0));
    assert_eq!(writer.bytes_written, 49);
    assert_eq!(writer.begin_finish(), Ok(FinishStep::Report));
    let all = writer.report();
    assert_eq!((all.total_rows, all.original_bytes, all.encoded_bytes), (5, 40, 9));
    assert_eq!(all.scheme, EncodingScheme::BtrBlocks);
}

#[test]
fn chunks_come_after_an_error() {
    let mut chunks = VortexChunkIterator::new(Ok(batch(2)));
    assert_eq!(chunks.next().unwrap().unwrap().num_rows(), 2);
    assert!(chunks.next().is_none());
    let mut empty = VortexChunkIterator::new(Ok(batch(0)));
    assert!(empty.next().is_none());
    let mut broken = VortexChunkIterator::new(Err(RockDuckError::Arrow));
    assert_eq!(broken.next().unwrap().err(), Some(RockDuckError::Arrow));
    assert!(broken.next().is_none());
}

#[test]
fn formats_have_names() {
    assert_eq!(StorageFormat::Vortex.as_str(), "vortex");
    assert_eq!(StorageFormat::Parquet.as_str(), "parquet");
    assert_eq!(StorageFormat::ArrowIpc.as_str(), "arrow_ipc");
    let config = ParquetWriterConfig::default();
    assert_eq!((config.row_group_size, config.page_size), (1048576, 8192));
    assert_eq!(config.compression, ParquetCompression::Snappy);
    assert_eq!(export_table_to_parquet("t", "/out"), Err(RockDuckError::Unimplemented));
}

fn arrow_file() -> Vec<u8> {
    let ids = arrow_array::Int32Array::from(vec![Some(1), None, Some(3)]);
    let names = arrow_array::StringArray::from(vec!["a", "b", "c"]);
    let flags = arrow_array::BooleanArray::from(vec![true, false, true]);
    let schema = Arc::new(arrow_schema::Schema::new(vec![
        arrow_schema::Field::new("id", arrow_schema::DataType::Int32, true),
        arrow_schema::Field::new("name", arrow_schema::DataType::Utf8, false),
        arrow_schema::Field::new("flag", arrow_schema::DataType::Boolean, false),
    ]));
    let batch =
        arrow_array::RecordBatch::try_new(schema, vec![Arc::new(ids), Arc::new(names), Arc::new(flags)]).unwrap();
    let mut bytes = Vec::new();
    let mut writer = arrow_ipc::writer::FileWriter::try_new(&mut bytes, &batch.schema()).unwrap();
    writer.write(&batch).unwrap();
    writer.finish().unwrap();
    drop(writer);
    bytes
}

#[test]
fn exchanged_files_are_read() {
    let batches = read_parquet_file(&arrow_file()).unwrap();
    assert_eq!(batches.len(), 1);
    assert_eq!(batches[0].names, vec!["id", "name", "flag"]);
    assert_eq!(batches[0].columns[0].dtype, ColumnType::Int32);
    assert_eq!(batches[0].columns[0].cell(0), Some(vec![1, 0, 0, 0]));
    assert_eq!(batches[0].columns[0].cell(1), None);
    assert_eq!(batches[0].columns[1].cell(2), Some(b"c".to_vec()));
    assert_eq!(batches[0].columns[2].cell(1), Some(vec![0]));
    assert_eq!(read_parquet_file(b"no such file at all").err(), Some(RockDuckError::ReadPath));
}

#[test]
fn exchanged_files_are_read_in_part() {
    let file = arrow_file();
    let batches = read_parquet_file_projected(&file, Some(&[1])).unwrap();
    assert_eq!(batches[0].names, vec!["name"]);
    assert_eq!(batches[0].columns[0].cell(0), Some(b"a".to_vec()));
    assert!(read_parquet_file_projected(&file, None).unwrap()[0].names.is_empty());
    assert_eq!(read_parquet_file_projected(&file, Some(&[9])).err(), Some(RockDuckError::ReadPath));
}

#[test]
fn ranges_of_mapped_files_are_cut() {
    assert_eq!(slice_at(10, 2, 3), Ok((2, 5)));
    assert_eq!(slice_at(10, 8, 5), Ok((8, 10)));
    assert_eq!(slice_at(10, 10, 1), Ok((10, 10)));
    assert_eq!(slice_at(10, 11, 1), Err(RockDuckError::Internal));
    let mut writer = MmapWriter::create(10);
    assert_eq!(writer.write_at(4, 4), Ok((4, 8)));
    assert_eq!(writer.write_at(0, 2), Ok((0, 2)));
    assert_eq!(writer.write_at(8, 3), Err(RockDuckError::Internal));
    assert_eq!(writer.data_len(), 8);
    assert_eq!(writer.slice_at_mut(9, 9), Ok((9, 10)));
    assert_eq!(writer.finalize(), 8);
}

#[test]
fn handles_are_dropped_without_users() {
    let mut files = FileManager::new("/data".to_string());
    assert_eq!(files.data_dir(), "/data");
    files.open("/data/a", 100);
    files.open_mmap("/data/b", 50);
    files.open_mmap("/data/a", 7);
    assert_eq!(files.handle_count(), 2);
    assert_eq!(files.open_files(), vec!["/data/a", "/data/b"]);
    assert_eq!(files.mapped_files(), vec!["/data/b"]);
    assert_eq!(files.total_open_size(), 150);
    assert_eq!(files.cached("/data/a").unwrap().ref_count(), 2);
    files.close("/data/a");
    assert_eq!(files.cached("/data/a").unwrap().ref_count(), 1);
    files.close("/data/a");
    assert!(files.cached("/data/a").is_none());
    files.close("/data/a");
    assert!(files.open_reader("/data/b"));
    assert!(!files.open_reader("/data/b"));
    assert_eq!(files.reader_count(), 1);
    files.close_reader("/data/b");
    assert_eq!(files.reader_count(), 0);
}

#[test]
fn records_hold_their_fields() {
    let user = UserRecord { id: 1, name: "a".to_string(), age: None };
    assert_eq!(user.clone().name, "a");
    let log = LogRecord { timestamp: 2, level: 3, message: "m".to_string() };
    assert_eq!(log.level, 3);
}

#[test]
fn column_file_in_arrow_form_is_read() {
    let reader = VortexReader::open(&arrow_file(), None, None).unwrap();
    assert_eq!(reader.total_rows(), 3);
    assert_eq!(reader.num_batches(), 1);
    assert!(reader.encoding_meta().is_none());
    let (batch, place) = reader.read_batch_at(2).unwrap();
    assert_eq!(place, 2);
    assert_eq!(batch.columns[1].cell(place), Some(b"c".to_vec()));
    assert!(reader.read_batch_at(3).is_none());
    assert_eq!(reader.read_all_batches().len(), 1);
}

#[test]
fn column_file_in_its_own_form_is_read() {
    let batch = Batch::new(vec!["value".to_string()], vec![int64(&[5, 6])]).unwrap();
    let reader = VortexReader::open(b"VTXF....", Some(Ok(batch)), None).unwrap();
    assert_eq!(reader.total_rows(), 2);
    assert_eq!(reader.read_batch_at(1).unwrap().1, 1);
    let refused = VortexReader::open(b"VTXF....", Some(Err(RockDuckError::Internal)), None);
    assert_eq!(refused.err(), Some(RockDuckError::Internal));
    let unopened = VortexReader::open(b"VTXF....", None, None);
    assert_eq!(unopened.err(), Some(RockDuckError::Internal));
}

#[test]
fn column_file_that_does_not_look_like_one_is_read_in_arrow_form() {
    let batch = Batch::new(vec!["value".to_string()], vec![int64(&[5, 6])]).unwrap();
    let reader = VortexReader::open(&arrow_file(), Some(Ok(batch)), None).unwrap();
    assert_eq!(reader.total_rows(), 3);
}
