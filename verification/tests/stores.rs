use rockduck::column::{Batch, Column, ColumnType};
use rockduck::error::RockDuckError;
use rockduck::ordmap::{stable_order, OrdMap};
use rockduck::ratio::{is_above, is_below, Ratio};
use rockduck::segment::adaptive_del_mask::{AdaptiveDelMask, Representation};
use rockduck::segment::delta_store::DeltaStore;
use rockduck::segment::meta::{ColumnDef, DataType, GranuleId, SegmentMeta};
use rockduck::segment::overlay::{compaction_overlay_filter, SegmentOverlay, COMPACTION_SNAPSHOT_ID};
use rockduck::segment::sparse_index::{pk_to_bytes, SegmentSparseIndex};
use rockduck::segment::upd_mask::{UpdMask, UpdMaskManager};
use rockduck::mvcc::{IsolationLevel, TxnSnapshot, VisibilityManager, VisibilityProjection};
use std::collections::{BTreeSet, HashMap};

fn column(dtype: ColumnType, cells: Vec<Vec<u8>>) -> Column {
    Column::new(dtype, cells.into_iter().map(Some).collect()).unwrap()
}

fn int64(values: &[i64]) -> Column {
    column(ColumnType::Int64, values.iter().map(|v| v.to_le_bytes().to_vec()).collect())
}

#[test]
fn test_pk_bytes_encoding_symmetry_fixed_width() {
    let val: i64 = 42;
    let bytes = pk_to_bytes(&int64(&[val]), 0);
    let roundtrip = i64::from_le_bytes(bytes.clone().try_into().unwrap());
    assert_eq!(val, roundtrip);

    let val2: i64 = 100;
    let bytes2 = pk_to_bytes(&int64(&[val2]), 0);
    // Ordering must match
    assert_eq!(bytes.cmp(&bytes2), val.cmp(&val2));
}

#[test]
fn test_pk_bytes_encoding_symmetry_utf8() {
    let strings = ["apple", "banana", "cherry", ""];

    for s in &strings {
        let bytes = pk_to_bytes(&column(ColumnType::Utf8, vec![s.as_bytes().to_vec()]), 0);
        let roundtrip = String::from_utf8(bytes.clone()).unwrap();
        assert_eq!(*s, roundtrip);

        // Verify byte comparison order matches string order
        for other in &["a", "z", "AAA"] {
            let cmp = bytes.as_slice().cmp(other.as_bytes());
            let expected = s.cmp(other);
            assert_eq!(cmp, expected, "byte comparison must match string comparison");
        }
    }
}

#[test]
fn test_pk_bytes_encoding_symmetry_binary() {
    let data1 = pk_to_bytes(&column(ColumnType::Binary, vec![vec![0x01, 0x02, 0x03]]), 0);
    let data2 = pk_to_bytes(&column(ColumnType::Binary, vec![vec![0x01, 0x02, 0x04]]), 0);
    assert!(data1.cmp(&data2) == std::cmp::Ordering::Less);
}

#[test]
fn sparse_index_finds_the_sample_before_a_key() {
    let mut index = SegmentSparseIndex::new();
    index.add_sample(200, b"m".to_vec());
    index.add_sample(0, b"a".to_vec());
    index.add_sample(400, b"x".to_vec());
    index.build();
    index.build();
    let exact = index.find_offset(b"m");
    let back = SegmentSparseIndex::from_bytes(&index.to_bytes().unwrap()).unwrap();
    assert_eq!(back.find_offset(b"m"), exact);
    assert_eq!(back.find_offset(b"a"), index.find_offset(b"a"));
    assert_eq!(exact, Some(200));
}

#[test]
fn sparse_index_of_another_form_is_refused() {
    assert_eq!(SegmentSparseIndex::from_bytes(b"short").err(), Some(RockDuckError::Deserialize));
    let mut index = SegmentSparseIndex::new();
    index.add_sample(1, b"k".to_vec());
    let mut bytes = index.to_bytes().unwrap();
    assert_eq!(&bytes[0..4], b"SSIX");
    bytes[0] = 0;
    assert!(SegmentSparseIndex::from_bytes(&bytes).is_err());
}

#[test]
fn updates_are_read_back() {
    let mut mask = UpdMask::new(10);
    assert!(!mask.has_updates());
    assert!(mask.set("age", 3, vec![9]));
    assert!(mask.set("age", 3, vec![8]));
    assert_eq!(mask.get("age", 3), Some(&vec![8]));
    assert_eq!(mask.get("age", 4), None);
    assert_eq!(mask.update_count("age"), 1);
    assert_eq!(mask.total_updates(), 1);
    assert!(mask.current_bytes() > 0);
}

#[test]
fn updates_leave_other_rows_alone() {
    let mut mask = UpdMask::new(3);
    mask.set("v", 1, 50i64.to_le_bytes().to_vec());
    let changed = mask.apply("v", &int64(&[1, 2, 3])).unwrap();
    assert_eq!(changed.cell(0), Some(1i64.to_le_bytes().to_vec()));
    assert_eq!(changed.cell(1), Some(50i64.to_le_bytes().to_vec()));
    assert_eq!(changed.cell(2), Some(3i64.to_le_bytes().to_vec()));
}

#[test]
fn masks_are_kept_by_segment() {
    let mut manager = UpdMaskManager::new();
    manager.get_or_create("a", 5).set("v", 1, vec![1]);
    assert_eq!(manager.get("a").unwrap().total_updates(), 1);
    assert!(manager.get("b").is_none());
    manager.remove("a");
    assert!(manager.get("a").is_none());
    assert_eq!(manager.discarded_total(), 0);
}

#[test]
fn masks_change_their_form_with_the_rate() {
    let mut mask = AdaptiveDelMask::new();
    assert!(mask.is_empty());
    mask.delete(3);
    mask.delete(7);
    assert_eq!(mask.representation(), Representation::Sparse);
    assert_eq!(mask.deleted_count(), 2);
    for form in [Representation::Roaring, Representation::Dense, Representation::Sparse] {
        let other = mask.convert_to(form);
        assert_eq!(other.representation(), form);
        assert_eq!(other.to_vec(), vec![3, 7]);
        assert!(other.is_deleted(7));
        assert!(!other.is_deleted(8));
        assert_eq!(other.filter_not_deleted(2, 8), vec![2, 4, 5, 6]);
    }
    let full = AdaptiveDelMask::with_capacity(4, &[0, 1, 2]);
    assert_eq!(full.representation(), Representation::from_rate(3, 4));
    assert_eq!(full.to_vec(), vec![0, 1, 2]);
}

#[test]
fn masks_are_merged() {
    for a in [Representation::Sparse, Representation::Roaring, Representation::Dense] {
        for b in [Representation::Sparse, Representation::Roaring, Representation::Dense] {
            let mut left = AdaptiveDelMask::new();
            left.delete(1);
            left.delete(70);
            let mut right = AdaptiveDelMask::new();
            right.delete(2);
            right.delete(70);
            let mut left = left.convert_to(a);
            left.merge(&right.convert_to(b));
            assert_eq!(left.to_vec(), vec![1, 2, 70]);
        }
    }
}

#[test]
fn compaction_sees_every_row_that_is_not_deleted() {
    let (overlay, filter) = compaction_overlay_filter();
    assert_eq!(overlay.projection(), VisibilityProjection::CompactionRewrite);
    assert!(overlay.is_row_visible(&filter, 5, None));
    assert!(overlay.is_row_visible(&filter, u64::MAX, None));
    assert!(!overlay.is_row_visible(&filter, 5, Some(6)));
    assert_eq!(overlay.as_snapshot().snapshot_id, COMPACTION_SNAPSHOT_ID);
    assert!(overlay.as_snapshot().active_txns.is_empty());
}

#[test]
fn queries_see_what_was_settled_before_them() {
    let snapshot = TxnSnapshot {
        snapshot_id: 10,
        active_txns: BTreeSet::from([4]),
        isolation: IsolationLevel::Snapshot,
        commit_ts_map: HashMap::from([(3, 3), (5, 11)]),
    };
    let overlay = SegmentOverlay::from_snapshot(&snapshot);
    let rule = VisibilityManager::new();
    assert_eq!(overlay.projection(), VisibilityProjection::Online);
    assert!(overlay.is_row_visible(&rule, 3, None));
    assert!(!overlay.is_row_visible(&rule, 4, None));
    assert!(!overlay.is_row_visible(&rule, 5, None));
    assert!(!overlay.is_row_visible(&rule, 11, None));
    assert!(!overlay.is_row_visible(&rule, 3, Some(3)));
    assert!(overlay.is_row_visible(&rule, 3, Some(4)));
    let again = SegmentOverlay::from_context(overlay.as_context());
    assert!(again.is_row_visible(&rule, 3, None));
    assert_eq!(again.as_snapshot().commit_ts_map, snapshot.commit_ts_map);
}

#[test]
fn granule_numbers_keep_their_bytes() {
    let id = GranuleId::new(0x01020304);
    assert_eq!(id.to_le_bytes(), [4, 3, 2, 1]);
    assert_eq!(GranuleId::from_le_bytes(id.to_le_bytes()), id);
    assert_eq!(u32::from(GranuleId::from(7)), 7);
    assert_eq!(GranuleId::zero().get(), 0);
}

#[test]
fn types_of_arrays_are_read_back() {
    for dt in [DataType::Int8, DataType::UInt64, DataType::Float32, DataType::Bool, DataType::Utf8, DataType::LargeBinary] {
        assert_eq!(DataType::from_arrow(&dt.to_arrow()), dt);
    }
}

#[test]
fn deleted_rows_are_not_alive() {
    let mut meta = SegmentMeta::new(
        "seg".to_string(),
        "t".to_string(),
        vec![ColumnDef::new("a".to_string(), DataType::Int64).not_null()],
        5,
    );
    meta.row_count = 10;
    meta.alive_row_count = 10;
    assert_eq!(meta.alive_rows(), 10);
    meta.alive_row_count = 7;
    meta.row_count = 0;
    meta.update_del_stats();
    assert_eq!(meta.alive_row_count, 0);
    assert!(!meta.columns[0].nullable);
}

#[test]
fn stored_changes_of_another_form_are_refused() {
    assert_eq!(
        DeltaStore::from_bytes("s".to_string(), &[0xff; 3]).err(),
        Some(RockDuckError::Deserialize)
    );
}

#[test]
fn ordered_maps_keep_their_keys_in_order() {
    let mut map: OrdMap<String, u32> = OrdMap::new();
    assert_eq!(map.insert("b".to_string(), 2), None);
    assert_eq!(map.insert("a".to_string(), 1), None);
    assert_eq!(map.insert("b".to_string(), 3), Some(2));
    assert_eq!(map.len(), 2);
    assert_eq!(map.key_at(0), "a");
    assert_eq!(map.get(&"b".to_string()), Some(&3));
    assert_eq!(map.remove(&"a".to_string()), Some(1));
    assert!(!map.contains_key(&"a".to_string()));
    assert_eq!(stable_order(&vec![3u64, 1, 3, 2]), vec![1, 3, 0, 2]);
}

#[test]
fn parts_are_compared_without_rounding() {
    let third = Ratio { num: 1, den: 3 };
    assert!(is_above(34, 100, third));
    assert!(!is_above(1, 3, third));
    assert!(!is_below(1, 3, third));
    assert!(is_below(33, 100, third));
}

#[test]
fn batches_have_columns_of_one_length() {
    assert!(Batch::new(vec!["a".to_string()], vec![]).is_none());
    assert!(Batch::new(vec!["a".to_string(), "b".to_string()], vec![int64(&[1]), int64(&[1, 2])]).is_none());
    assert!(Batch::new(vec!["a".to_string(), "a".to_string()], vec![int64(&[1]), int64(&[1])]).is_none());
    let batch = Batch::new(vec!["a".to_string(), "b".to_string()], vec![int64(&[1]), int64(&[2])]).unwrap();
    assert_eq!(batch.index_of("b"), Some(1));
    assert_eq!(batch.num_rows(), 1);
    assert!(Column::new(ColumnType::Int64, vec![Some(vec![1])]).is_none());
    assert!(Column::new(ColumnType::Utf8, vec![Some(vec![0xff])]).is_none());
}

#[test]
fn stored_updates_are_read_back() {
    let mut mask = UpdMask::new(10);
    assert!(mask.set("b", 3, vec![1, 2]));
    assert!(mask.set("a", 7, vec![]));
    assert!(mask.set("b", 3, vec![9]));
    let loaded = UpdMask::from_bytes(&mask.to_bytes().unwrap()).unwrap();
    assert_eq!(loaded.total_rows, 10);
    assert_eq!(loaded.total_updates(), 2);
    assert_eq!(loaded.get("b", 3), Some(&vec![9]));
    assert_eq!(loaded.get("a", 7), Some(&vec![]));
    assert_eq!(loaded.get("a", 3), None);
    assert_eq!(loaded.current_bytes(), mask.current_bytes());
    assert!(UpdMask::from_bytes(&[1]).is_err());
}

#[test]
fn updates_of_all_columns_add_up() {
    let mut mask = UpdMask::new(10);
    assert!(!mask.has_updates());
    assert!(mask.set("a", 1, vec![1]));
    assert!(mask.set("a", 2, vec![2]));
    assert!(mask.set("a", 2, vec![3]));
    assert!(mask.set("b", 1, vec![4]));
    assert_eq!((mask.update_count("a"), mask.update_count("b"), mask.update_count("c")), (2, 1, 0));
    assert_eq!(mask.total_updates(), 3);
    assert!(mask.has_updates());
}

#[test]
fn refused_updates_are_counted_for_all_segments() {
    let mut manager = UpdMaskManager::new();
    assert_eq!(manager.discarded_total(), 0);
    assert!(manager.get_or_create("s", 10).set("a", 0, vec![1]));
    assert_eq!(manager.discarded_total(), 0);
    assert!(!manager.get_or_create("s", 10).set("a", 1, vec![0; 67_108_864]));
    assert_eq!(manager.discarded_total(), 1);
    assert!(!manager.get_or_create("t", 10).set("a", 1, vec![0; 67_108_864]));
    assert!(manager.get_or_create("t", 10).set("a", 1, vec![0]));
    assert_eq!(manager.discarded_total(), 2);
    manager.remove("s");
    assert_eq!(manager.discarded_total(), 2);
}

#[test]
fn truth_values_and_dates_have_keys() {
    let truth = column(ColumnType::Boolean, vec![vec![1], vec![0]]);
    assert_eq!(pk_to_bytes(&truth, 0), b"true".to_vec());
    assert_eq!(pk_to_bytes(&truth, 1), b"false".to_vec());
    let days = column(ColumnType::Date32, vec![(-120i32).to_le_bytes().to_vec(), 7i32.to_le_bytes().to_vec()]);
    assert_eq!(pk_to_bytes(&days, 0), b"-120".to_vec());
    assert_eq!(pk_to_bytes(&days, 1), b"7".to_vec());
    let stamp = column(ColumnType::TimestampNanos, vec![i64::MIN.to_le_bytes().to_vec()]);
    assert_eq!(pk_to_bytes(&stamp, 0), b"-9223372036854775808".to_vec());
    let none = Column::new(ColumnType::Boolean, vec![None]).unwrap();
    assert_eq!(pk_to_bytes(&none, 0), b"false".to_vec());
}
