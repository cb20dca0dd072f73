use rockduck::column::{Column, ColumnType};
use rockduck::ordmap::OrdMap;
use rockduck::segment::delta_store::{
    apply_deltas_overlay, CellDelta, DeltaOpType, DeltaStore, DeltaStoreManager,
};

fn column(dtype: ColumnType, cells: Vec<Vec<u8>>) -> Column {
    Column::new(dtype, cells.into_iter().map(Some).collect()).unwrap()
}

fn int64(values: &[i64]) -> Column {
    column(ColumnType::Int64, values.iter().map(|v| v.to_le_bytes().to_vec()).collect())
}

fn int64_at(c: &Column, row: usize) -> i64 {
    i64::from_le_bytes(c.cell(row).unwrap().try_into().unwrap())
}

fn float64(values: &[f64]) -> Column {
    column(ColumnType::Float64, values.iter().map(|v| v.to_le_bytes().to_vec()).collect())
}

fn float64_at(c: &Column, row: usize) -> f64 {
    f64::from_le_bytes(c.cell(row).unwrap().try_into().unwrap())
}

fn utf8(values: &[&str]) -> Column {
    column(ColumnType::Utf8, values.iter().map(|v| v.as_bytes().to_vec()).collect())
}

fn utf8_at(c: &Column, row: usize) -> String {
    String::from_utf8(c.cell(row).unwrap()).unwrap()
}

#[test]
fn test_delta_store_new() {
    let s = DeltaStore::new("seg_001".into());
        assert_eq!(s.seg_id, "seg_001");
        assert!(s.is_empty());
}

#[test]
fn test_delta_store_record_update() {
    let mut s = DeltaStore::new("s".into());
        s.record_update(100, "age".into(), 5, vec![25u8], vec![30u8]);
        assert_eq!(s.delta_count(), 1);
}

#[test]
fn test_delta_store_commit_rollback() {
    let mut s = DeltaStore::new("s".into());
    s.record_update(100, "age".into(), 5, vec![1u8], vec![2u8]);
    assert!(s.get_visible_delta("age", 5).is_none());
    s.commit_txn(100);
    assert!(s.get_visible_delta("age", 5).is_some());
    s.rollback_txn(100);
    assert!(s.get_visible_delta("age", 5).is_none());
    assert!(s.is_empty());
}

#[test]
fn test_delta_store_latest_wins() {
    let mut s = DeltaStore::new("s".into());
    s.record_update(100, "age".into(), 5, vec![20u8], vec![25u8]);
    s.record_update(200, "age".into(), 5, vec![25u8], vec![30u8]);
    s.commit_txn(100); s.commit_txn(200);
    let delta = s.get_visible_delta("age", 5).unwrap();
    assert_eq!(delta.txn_id, 200);
}

#[test]
fn test_delta_store_get_all_visible_deltas() {
    let mut s = DeltaStore::new("s".into());
    s.record_update(100, "age".into(), 0, vec![20u8], vec![25u8]);
    s.record_update(100, "name".into(), 0, vec![1u8], vec![2u8]);
    s.commit_txn(100);
    let all = s.get_all_visible_deltas();
    assert_eq!(all.len(), 2);
}

#[test]
fn test_delta_store_insert_delete() {
    let mut s = DeltaStore::new("s".into());
    s.record_insert(100, "new_col".into(), 0, vec![99u8]);
    s.record_delete(200, "age".into(), 5, vec![30u8]);
    s.commit_txn(100); s.commit_txn(200);
    assert_eq!(s.get_visible_delta("new_col", 0).unwrap().op, DeltaOpType::Insert);
    assert_eq!(s.get_visible_delta("age", 5).unwrap().op, DeltaOpType::Delete);
}

#[test]
fn test_delta_store_serialize_roundtrip() {
    let mut s = DeltaStore::new("seg_001".into());
    s.record_update(100, "age".into(), 5, vec![25u8], vec![30u8]);
    let bytes = s.to_bytes().unwrap();
    let loaded = DeltaStore::from_bytes("seg_001".into(), &bytes).unwrap();
    assert_eq!(loaded.delta_count(), 1);
}

#[test]
fn test_delta_store_manager() {
    let mut mgr = DeltaStoreManager::new();
    mgr.get_or_create("seg_001").record_update(1, "a".into(), 0, vec![1u8], vec![2u8]);
    assert_eq!(mgr.get("seg_001").unwrap().delta_count(), 1);
    mgr.remove("seg_001");
    assert!(mgr.get("seg_001").is_none());
}

#[test]
fn test_delta_store_prune() {
    let mut s = DeltaStore::new("s".into());
    s.record_update(100, "age".into(), 5, vec![25u8], vec![30u8]);
    s.record_update(200, "name".into(), 0, vec![1u8], vec![2u8]);
    s.commit_txn(100); s.commit_txn(200);
    let mut mgr = DeltaStoreManager::new();
    mgr.restore("s", s);
    let pruned = mgr.prune_before_txn("s", 150).unwrap();
    assert_eq!(pruned, 1);
    assert_eq!(mgr.get("s").unwrap().delta_count(), 1);
}

#[test]
fn test_apply_deltas_overlay_int64() {
    let mut s = DeltaStore::new("s".into());
    s.record_update(100, "age".into(), 1, 20i64.to_le_bytes().to_vec(), 25i64.to_le_bytes().to_vec());
    s.record_update(100, "age".into(), 3, 40i64.to_le_bytes().to_vec(), 50i64.to_le_bytes().to_vec());
    s.commit_txn(100);
    let all = s.get_all_visible_deltas();
    let deltas = all.get(&"age".to_string()).unwrap();
    let original = int64(&[10i64, 20, 30, 40, 50, 60]);
    let merged = apply_deltas_overlay(deltas, &original, "age").unwrap();

    assert_eq!(int64_at(&merged, 0), 10);
    assert_eq!(int64_at(&merged, 1), 25);
    assert_eq!(int64_at(&merged, 3), 50);
}

#[test]
fn test_apply_deltas_overlay_float64() {
    let mut s = DeltaStore::new("s".into());
    // Record: row=1, "price" column updated from 99.5 to 149.95
    s.record_update(
        100,
        "price".into(),
        1,
        99.5f64.to_le_bytes().to_vec(),
        149.95f64.to_le_bytes().to_vec(),
    );
    s.commit_txn(100);

    let all = s.get_all_visible_deltas();
    let deltas = all.get(&"price".to_string()).unwrap();
    let original = float64(&[10.0, 99.5, 30.0, 40.0, 50.0]);
    let merged = apply_deltas_overlay(deltas, &original, "price").unwrap();


    assert_eq!(float64_at(&merged, 0), 10.0, "Row 0 unchanged");
    assert!(
        (float64_at(&merged, 1) - 149.95).abs() < 1e-9,
        "Row 1 must apply delta: expected 149.95, got {}",
        float64_at(&merged, 1)
    );
    assert_eq!(float64_at(&merged, 2), 30.0, "Row 2 unchanged");
}

#[test]
fn test_apply_deltas_overlay_string() {
    let mut s = DeltaStore::new("s".into());
    s.record_update(100, "name".into(), 0, b"Bob".to_vec(), b"Alice".to_vec());
    s.commit_txn(100);
    let all = s.get_all_visible_deltas();
    let deltas = all.get(&"name".to_string()).unwrap();
    let original = utf8(&["Bob", "Carol"]);
    let merged = apply_deltas_overlay(deltas, &original, "name").unwrap();

    assert_eq!(utf8_at(&merged, 0), "Alice");
    assert_eq!(utf8_at(&merged, 1), "Carol");
}

#[test]
fn test_apply_deltas_overlay_empty() {
    let deltas: OrdMap<u64, CellDelta> = OrdMap::new();
    let original = int64(&[1i64, 2, 3]);
    let merged = apply_deltas_overlay(&deltas, &original, "age").unwrap();

    assert_eq!(int64_at(&merged, 0), 1);
}

#[test]
fn test_get_visible_deltas_for_column() {
    let mut s = DeltaStore::new("s".into());
    s.record_update(100, "age".into(), 1, vec![20u8], vec![25u8]);
    s.record_update(100, "age".into(), 5, vec![40u8], vec![50u8]);
    s.record_update(100, "age".into(), 3, vec![30u8], vec![35u8]);
    s.commit_txn(100);
    let deltas = s.get_visible_deltas_for_column("age");
    assert_eq!(deltas.len(), 3);
    assert_eq!(deltas[0].0, 1);
    assert_eq!(deltas[1].0, 3);
    assert_eq!(deltas[2].0, 5);
}

#[test]
fn test_uncommitted_txn_invisible() {
    let mut s = DeltaStore::new("s".into());
    s.record_update(100, "age".into(), 5, vec![25u8], vec![30u8]);

    let result = s.get_visible_delta("age", 5);
    assert!(
        result.is_none(),
        "Uncommitted txn should not be visible"
    );
}

#[test]
fn test_get_visible_delta_nonexistent_cell() {
    let mut s = DeltaStore::new("s".into());
    s.record_update(100, "age".into(), 5, vec![25u8], vec![30u8]);
    s.commit_txn(100);

    let result = s.get_visible_delta("age", 99);
    assert!(result.is_none(), "Nonexistent cell should return None");

    let result = s.get_visible_delta("nonexistent_col", 0);
    assert!(result.is_none(), "Nonexistent column should return None");
}

#[test]
fn test_get_visible_delta_uncommitted_txn_ignored() {
    let mut s = DeltaStore::new("s".into());
    s.record_update(100, "age".into(), 5, vec![25u8], vec![30u8]);
    s.commit_txn(100);

    s.record_update(200, "age".into(), 5, vec![30u8], vec![40u8]);

    let result = s.get_visible_delta("age", 5);
    assert!(result.is_some());
    assert_eq!(result.unwrap().txn_id, 100);
}

#[test]
fn test_delta_store_commit_order_matters() {
    let mut s = DeltaStore::new("s".into());

    s.record_update(100, "age".into(), 5, vec![20u8], vec![25u8]);
    s.commit_txn(100);

    s.record_update(200, "age".into(), 5, vec![25u8], vec![35u8]);
    s.commit_txn(200);

    let result = s.get_visible_delta("age", 5);
    assert!(result.is_some());
    assert_eq!(result.unwrap().txn_id, 200);
    assert_eq!(result.unwrap().after.as_ref().map(|v| v.as_slice()), Some(vec![35u8].as_slice()));
}

#[test]
fn test_apply_deltas_overlay_out_of_bounds_row() {
    let mut s = DeltaStore::new("s".into());
    s.record_update(100, "val".into(), 9999, vec![0u8], vec![99u8]);
    s.commit_txn(100);
    let all = s.get_all_visible_deltas();
    let deltas = all.get(&"val".to_string()).unwrap();

    let original = int64(&[1i64, 2, 3]);
    let merged = apply_deltas_overlay(deltas, &original, "val").unwrap();


    assert_eq!(int64_at(&merged, 0), 1);
    assert_eq!(int64_at(&merged, 1), 2);
    assert_eq!(int64_at(&merged, 2), 3);
}

#[test]
fn test_delta_store_manager_persist_and_load() {
    let mut mgr = DeltaStoreManager::new();
    {
        let store = mgr.get_or_create("seg_persist");
        store.record_update(100, "col_a".into(), 0, vec![10u8], vec![20u8]);
        store.record_update(100, "col_b".into(), 1, vec![30u8], vec![40u8]);
        store.commit_txn(100);
    }

    let bytes = mgr.get("seg_persist").unwrap().to_bytes().unwrap();

    // Load into a new manager
    let mut mgr2 = DeltaStoreManager::new();
    let store = DeltaStore::from_bytes("seg_persist".into(), &bytes).unwrap();
    mgr2.restore("seg_persist", store);

    let loaded = mgr2.get("seg_persist").unwrap();
    // committed_txns is not persisted (reconstructed from WAL on recovery)
    // so delta_count is preserved but visibility requires committed_txns to be re-established
    assert_eq!(loaded.delta_count(), 2);
    assert_eq!(loaded.committed_txn_count(), 0); // committed_txns not serialized
}

#[test]
fn test_delta_store_get_before_images() {
    let mut s = DeltaStore::new("s".into());

    s.record_update(100, "age".into(), 5, vec![25u8], vec![30u8]);
    s.record_delete(200, "name".into(), 0, vec![65u8, 66u8, 67u8]);
    s.record_insert(300, "new_col".into(), 10, vec![99u8]);

    let images = s.get_before_images();

    assert_eq!(images.len(), 2);
    for img in &images {
        assert!(img.before.is_some());
    }

    let before_vals: Vec<_> = images.iter().filter_map(|img| img.before.as_ref()).collect();
    assert!(before_vals.iter().any(|v| v.as_slice() == vec![25u8].as_slice()));
    assert!(before_vals.iter().any(|v| v.as_slice() == vec![65u8, 66u8, 67u8].as_slice()));
}

#[test]
fn test_delta_store_empty_after_rollback() {
    let mut s = DeltaStore::new("s".into());
    s.record_update(100, "age".into(), 5, vec![25u8], vec![30u8]);
    s.commit_txn(100);
    assert!(!s.is_empty());

    s.rollback_txn(200);
    assert!(!s.is_empty());

    s.rollback_txn(100);
    assert!(s.is_empty(), "Rolling back all deltas should make store empty");
}

#[test]
fn test_delta_store_manager_segments_with_deltas() {
    let mut mgr = DeltaStoreManager::new();

    let store_a = mgr.get_or_create("seg_a");
    store_a.record_update(100, "col".into(), 0, vec![1u8], vec![2u8]);
    store_a.commit_txn(100);

    let store_b = mgr.get_or_create("seg_b");
    store_b.record_update(200, "col".into(), 0, vec![3u8], vec![4u8]);
    store_b.commit_txn(200);

    mgr.get_or_create("seg_c");

    let with_deltas = mgr.segments_with_deltas();
    assert_eq!(with_deltas.len(), 2);
    assert!(with_deltas.contains(&"seg_a".to_string()));
    assert!(with_deltas.contains(&"seg_b".to_string()));
    assert!(!with_deltas.contains(&"seg_c".to_string()));
}

#[test]
fn test_delta_store_txn_committed_count() {
    let mut s = DeltaStore::new("s".into());
    assert_eq!(s.committed_txn_count(), 0);

    s.record_update(100, "a".into(), 0, vec![1u8], vec![2u8]);
    s.commit_txn(100);
    assert_eq!(s.committed_txn_count(), 1);

    s.record_update(200, "b".into(), 0, vec![3u8], vec![4u8]);
    s.commit_txn(200);
    assert_eq!(s.committed_txn_count(), 2);

    s.rollback_txn(300);
    assert_eq!(s.committed_txn_count(), 2);
}

#[test]
fn test_delta_store_prune_before_txn() {
    let mut s = DeltaStore::new("s".into());
    s.record_update(100, "col".into(), 0, vec![1u8], vec![2u8]);
    s.record_update(200, "col".into(), 1, vec![3u8], vec![4u8]);
    s.record_update(300, "col".into(), 2, vec![5u8], vec![6u8]);
    s.commit_txn(100);
    s.commit_txn(200);
    s.commit_txn(300);

    let mut mgr = DeltaStoreManager::new();
    mgr.restore("s", s);

    let pruned = mgr.prune_before_txn("s", 200).unwrap();
    assert_eq!(pruned, 2);

    let remaining = mgr.get("s").unwrap();
    assert_eq!(remaining.delta_count(), 1);

    let pruned = mgr.prune_before_txn("s", 500).unwrap();
    assert_eq!(pruned, 1);
}

#[test]
fn committing_shows_a_transaction_once() {
    let mut s = DeltaStore::new("s".into());
    s.record_update(7, "age".into(), 5, vec![1], vec![2]);
    s.record_insert(8, "age".into(), 6, vec![3]);
    assert!(s.get_visible_delta("age", 5).is_none());
    s.commit_txn(7);
    assert_eq!((s.delta_count(), s.committed_txn_count()), (2, 1));
    assert_eq!(s.get_visible_delta("age", 5).unwrap().after, Some(vec![2]));
    assert!(s.get_visible_delta("age", 6).is_none());
    s.commit_txn(7);
    assert_eq!((s.delta_count(), s.committed_txn_count()), (2, 1));
    assert_eq!(s.get_visible_delta("age", 5).unwrap().after, Some(vec![2]));
}

#[test]
fn changes_of_all_segments_add_up() {
    let mut mgr = DeltaStoreManager::new();
    assert_eq!(mgr.delta_count(), 0);
    mgr.get_or_create("seg_a").record_insert(1, "c".into(), 0, vec![1]);
    assert_eq!(mgr.delta_count(), 1);
    mgr.get_or_create("seg_a").record_insert(1, "c".into(), 0, vec![2]);
    assert_eq!(mgr.delta_count(), 1);
    mgr.get_or_create("seg_b").record_insert(1, "c".into(), 0, vec![1]);
    mgr.get_or_create("seg_b").record_insert(2, "c".into(), 0, vec![1]);
    mgr.get_or_create("seg_c");
    assert_eq!(mgr.delta_count(), 3);
    assert_eq!(mgr.segments_with_deltas(), vec!["seg_a".to_string(), "seg_b".to_string()]);
    mgr.remove("seg_b");
    assert_eq!(mgr.delta_count(), 1);
    mgr.remove("seg_x");
    assert_eq!(mgr.delta_count(), 1);
}
