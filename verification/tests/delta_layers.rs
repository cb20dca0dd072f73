use rockduck::column::{Batch, Column, ColumnType};
use rockduck::error::{DeltaFault, RockDuckError};
use rockduck::ratio::Ratio;
use rockduck::storage::delta::config::{DeltaConfig, SyncLevel};
use rockduck::storage::delta::disk_store::{is_orphan_file, read_patch_file, DeltaL2Disk, GuardZoneMap};
use rockduck::storage::delta::flush_engine::{
    build_patch_from_cells, CompactionAction, CompactionPolicy, CompactionPriority, EcoTuneSelector, FlushEngine,
    ForegroundMonitor, WorkloadProfile,
};
use rockduck::storage::delta::frozen_store::DeltaL3Frozen;
use rockduck::storage::delta::heat::{ColumnClass, ColumnHeatTracker, FlushPolicy};
use rockduck::storage::delta::mem_store::DeltaMemStore;
use rockduck::storage::delta::merge::{apply_deltas_to_batch, apply_sparse_patch, k_way_merge, DeltaMerger};
use rockduck::storage::delta::patch_file::{load_patches, patch_row_positions, patch_to_deltas};
use rockduck::storage::delta::sparsity::{
    extract_value_at, positions_to_roaring, roaring_contains, roaring_to_positions, roaring_to_u32array,
    u32array_to_roaring, SparsitySelector,
};
use rockduck::storage::delta::stack::{DeltaLayerStack, DeltaQueryLayer};
use rockduck::storage::delta::types::{DeltaCell, DeltaPatchFormat, ZoneMap};
use rockduck::segment::meta::GranuleId;
use rockduck::write::{op_type_of, payload_of, replayed_cell, OpPayload, OpType, WalOp};
use rockduck::ipc::encode_arrow_array;
use std::collections::{HashMap, HashSet};
use std::sync::Arc;

fn visible_cell(txn_id: u64) -> DeltaCell {
    DeltaCell {
        seg_id: "seg".to_string(),
        row_offset: 7,
        column: "value".to_string(),
        txn_id,
        before: None,
        after: Some(Arc::new(vec![txn_id as u8])),
        committed: false,
        ts: 0,
    }
}

fn cell(row: u64, col: &str, txn_id: u64, after: u8) -> DeltaCell {
    DeltaCell {
        seg_id: "seg".to_string(),
        row_offset: row,
        column: col.to_string(),
        txn_id,
        before: None,
        after: Some(Arc::new(vec![after])),
        committed: true,
        ts: 0,
    }
}

fn commits(pairs: &[(u64, u64)]) -> HashMap<u64, u64> {
    pairs.iter().copied().collect()
}

fn value(c: &DeltaCell) -> u8 {
    c.after.as_ref().unwrap()[0]
}

#[test]
fn visibility_requires_commit_history_not_legacy_flag() {
    let cell = visible_cell(42);
    let active_txns = HashSet::new();

    assert!(!cell.is_visible_at_commit(100, &HashMap::new(), &active_txns));

    let mut commit_ts_by_txn = HashMap::new();
    commit_ts_by_txn.insert(42, 40);
    assert!(cell.is_visible_at_commit(100, &commit_ts_by_txn, &active_txns));
}

#[test]
fn active_txn_is_never_visible_even_if_legacy_flag_true() {
    let mut cell = visible_cell(42);
    cell.committed = true;

    let mut commit_ts_by_txn = HashMap::new();
    commit_ts_by_txn.insert(42, 40);
    let active_txns = HashSet::from([42]);

    assert!(!cell.is_visible_at_commit(100, &commit_ts_by_txn, &active_txns));
    assert!(cell.legacy_committed_flag());
}

#[test]
fn query_filters_out_uncommitted_legacy_cells_without_commit_history() {
    let mut delta_layer = DeltaLayerStack::new_with_default_counters(DeltaConfig::default());
    delta_layer.put(
        DeltaCell {
            seg_id: "seg-a".to_string(),
            row_offset: 3,
            column: "value".to_string(),
            txn_id: 41,
            before: None,
            after: Some(Arc::new(vec![9])),
            committed: true,
            ts: 0,
        },
        0,
    );

    let active_txns = HashSet::new();
    let visible = delta_layer.query("seg-a", 100, &HashMap::new(), &active_txns).expect("query succeeds");
    assert!(visible.is_empty(), "legacy committed flag must not bypass commit history");

    let mut commit_ts_by_txn = HashMap::new();
    commit_ts_by_txn.insert(41, 40);
    let visible = delta_layer.query("seg-a", 100, &commit_ts_by_txn, &active_txns).expect("query succeeds");
    assert_eq!(visible.len(), 1);
    assert_eq!(visible[0].txn_id, 41);
}

#[test]
fn visibility_grows_with_the_snapshot() {
    let c = visible_cell(42);
    let none = HashSet::new();
    assert!(!c.is_visible_at_commit(41, &commits(&[(42, 40)]), &none));
    assert!(c.is_visible_at_commit(42, &commits(&[(42, 42)]), &none));
    assert!(!c.is_visible_at_commit(43, &commits(&[(42, 50)]), &none));
    assert!(c.is_visible_at_commit(50, &commits(&[(42, 50)]), &none));
}

#[test]
fn cells_are_inserts_updates_or_deletes() {
    let mut c = cell(1, "a", 1, 1);
    assert!(c.is_insert() && !c.is_update() && !c.is_delete());
    c.before = Some(Arc::new(vec![0]));
    assert!(c.is_update());
    c.after = None;
    assert!(c.is_delete());
}

#[test]
fn merge_keeps_the_latest_visible_cell_of_each_place() {
    let layers = vec![
        vec![cell(1, "a", 5, 50), cell(2, "a", 3, 30)],
        vec![cell(1, "a", 7, 70), cell(1, "b", 2, 20)],
        vec![cell(1, "a", 9, 90)],
    ];
    let merged = k_way_merge(
        layers,
        8,
        &commits(&[(2, 2), (3, 3), (5, 5), (7, 7), (9, 9)]),
        &HashSet::from([3]),
    );
    let mut found: Vec<(u64, String, u8)> =
        merged.iter().map(|c| (c.row_offset, c.column.clone(), value(c))).collect();
    found.sort();
    assert_eq!(found, vec![(1, "a".to_string(), 70), (1, "b".to_string(), 20)]);
}

#[test]
fn sparse_patches_read_back_what_was_encoded() {
    let selector = SparsitySelector::new();
    let values = vec![Some(vec![1u8, 2]), None, Some(vec![9])];
    let format = selector.build_format(&[3, 8, 20], &values, 1000000, 5).unwrap();
    assert!(format.is_sparse());
    assert_eq!(format.affected_count(), 3);
    let bytes = format.to_bytes();
    let back = DeltaPatchFormat::from_bytes(&bytes).unwrap();
    assert_eq!(patch_row_positions(&back), vec![3, 8, 20]);
    let cells = patch_to_deltas(&back).unwrap();
    let found: Vec<(u64, Option<Vec<u8>>)> =
        cells.iter().map(|c| (c.row_offset, c.after.as_ref().map(|v| v.to_vec()))).collect();
    assert_eq!(found, vec![(3, Some(vec![1, 2])), (8, None), (20, Some(vec![9]))]);
}

#[test]
fn patches_of_many_rows_are_dense() {
    let selector = SparsitySelector::new();
    assert!(selector.should_use_sparse(1000, 500));
    assert!(selector.should_use_sparse(500000, 4000));
    assert!(!selector.should_use_sparse(500000, 5000));
    assert!(!selector.should_use_sparse(2000000, 1));
    let format = DeltaPatchFormat::dense(encode_arrow_array(&vec![Some(vec![1]), Some(vec![2])]).unwrap(), 2, 4);
    assert!(format.is_dense());
    let back = DeltaPatchFormat::from_bytes(&format.to_bytes()).unwrap();
    assert_eq!(patch_row_positions(&back), vec![0, 1]);
    assert!(DeltaPatchFormat::from_bytes(&[]).is_none());
}

#[test]
fn bitmaps_and_lists_of_rows_give_each_other_back() {
    let bitmap = positions_to_roaring(&[9, 2, 2, 70000]);
    assert_eq!(roaring_to_positions(&bitmap), vec![2, 9, 70000]);
    assert_eq!(roaring_to_u32array(&u32array_to_roaring(&[5, 1])), vec![1, 5]);
    assert!(roaring_contains(&bitmap, 9));
    assert!(!roaring_contains(&bitmap, 3));
}

#[test]
fn encoded_columns_are_read_by_index() {
    let bytes = encode_arrow_array(&vec![Some(b"ab".to_vec()), None]).unwrap();
    assert_eq!(extract_value_at(&bytes, 0), Ok(Some(b"ab".to_vec())));
    assert_eq!(extract_value_at(&bytes, 1), Ok(None));
    assert_eq!(extract_value_at(&bytes, 2), Ok(None));
    assert_eq!(extract_value_at(b"not a file", 0), Err(RockDuckError::Arrow));
}

#[test]
fn appended_patches_are_read_back() {
    let mut l2 = DeltaL2Disk::new("/l2".to_string());
    let cells = vec![cell(5, "a", 3, 33), cell(9, "a", 3, 34)];
    let patch = build_patch_from_cells(&cells, &SparsitySelector::new()).unwrap();
    l2.append_patch("seg", "a", &patch);
    assert_eq!(l2.num_guards(), 1);
    let found = l2.get_visible("seg", 3).unwrap();
    let mut values: Vec<(u64, u8)> = found.iter().map(|c| (c.row_offset, value(c))).collect();
    values.sort();
    assert_eq!(values, vec![(5, 33), (9, 34)]);
    assert!(l2.get_cell("seg", 6, "a", 3).unwrap().is_none());
    assert_eq!(l2.get_segment_ids(), vec!["seg".to_string()]);
}

#[test]
fn guards_cover_ranges_of_rows() {
    let mut l2 = DeltaL2Disk::new("/l2".to_string());
    let key = l2.find_or_create_guard("seg", "a", 12345);
    assert_eq!((key.start_row, key.end_row), (10000, 20000));
    assert_eq!(l2.guard_path(&key), "/l2/seg/a/guard_10000_20000.delta");
    assert!(l2.find_guard("seg", "a", 19999).is_some());
    assert!(l2.find_guard("seg", "a", 20000).is_none());
    assert!(l2.find_guard("seg", "b", 12345).is_none());
}

#[test]
fn merging_a_guard_keeps_the_newest_values() {
    let mut l2 = DeltaL2Disk::new("/l2".to_string());
    let selector = SparsitySelector::new();
    for (txn, after) in [(1, 10), (2, 20), (3, 30)] {
        let patch = build_patch_from_cells(&vec![cell(4, "a", txn, after)], &selector).unwrap();
        l2.append_patch("seg", "a", &patch);
    }
    let key = l2.find_guard("seg", "a", 4).unwrap();
    l2.schedule_guard_merge(&key).unwrap();
    let file = l2.file(&l2.guard_path(&key)).unwrap();
    let found = load_patches(file, 3).unwrap();
    assert_eq!(found.len(), 1);
    assert_eq!((found[0].row_offset, value(&found[0])), (4, 30));
    assert_eq!(l2.read_all_patches_from_guard(&key).unwrap().len(), 1);
}

#[test]
fn files_of_another_form_are_refused() {
    let mut l2 = DeltaL2Disk::new("/l2".to_string());
    let key = l2.find_or_create_guard("seg", "a", 1);
    let path = l2.guard_path(&key);
    assert_eq!(
        read_patch_file(&key, &path, &[1; 64]).err(),
        Some(RockDuckError::Delta(DeltaFault::BadMagic(0x01010101)))
    );
    assert!(matches!(load_patches(&[9u8; 64], 1), Err(RockDuckError::Delta(DeltaFault::BadMagic(_)))));
}

#[test]
fn leftover_files_are_told_by_their_names() {
    assert!(is_orphan_file("guard_0_10000.delta.tmp"));
    assert!(is_orphan_file("guard_0_10000.delta.merged"));
    assert!(!is_orphan_file("guard_0_10000.delta"));
    assert!(!is_orphan_file(".tmp"));
    assert!(!is_orphan_file("tmp"));
}

#[test]
fn frozen_patches_are_read_back() {
    let mut l3 = DeltaL3Frozen::new("/l3".to_string());
    let patch = build_patch_from_cells(&vec![cell(2, "a", 3, 7)], &SparsitySelector::new()).unwrap();
    let dense = DeltaPatchFormat::dense(encode_arrow_array(&vec![Some(vec![5]), Some(vec![7])]).unwrap(), 2, 3);
    l3.write_compacted("seg", "a", 3, &dense, &patch.zone_map);
    let found = l3.get_visible("seg", 100).unwrap();
    assert_eq!(found.len(), 2);
    assert_eq!((found[1].row_offset, found[1].txn_id, value(&found[1])), (1, 3, 7));
    assert_eq!(l3.num_frozen(), 1);
    l3.delete_patch("seg", "a");
    assert_eq!(l3.num_frozen(), 0);
    assert!(l3.get_visible("seg", 100).unwrap().is_empty());
}

#[test]
fn memory_holds_cells_until_they_are_drained() {
    let mut l1 = DeltaMemStore::new(1 << 20, SyncLevel::Async);
    assert!(l1.is_empty());
    l1.put(cell(1, "a", 1, 10), 0);
    l1.put(cell(1, "a", 2, 20), 0);
    l1.put(cell(2, "b", 3, 30), 0);
    assert_eq!(l1.len(), 3);
    assert!(l1.size_bytes() > 0);
    assert_eq!(l1.get_visible("seg", 2).len(), 2);
    assert_eq!(value(&l1.get_cell("seg", 1, "a", 9).unwrap()), 20);
    assert!(l1.get_cell("seg", 3, "a", 9).is_none());
    assert!(l1.swap_and_drain().is_empty());
    assert_eq!(l1.drain_cold().len(), 3);
    assert_eq!(l1.visible("seg", 9).len(), 3);
    assert_eq!(l1.len(), 0);
}

#[test]
fn logged_writes_come_before_the_cells() {
    let mut l1 = DeltaMemStore::with_wal(1 << 20, SyncLevel::Immediate, true);
    let (first, rest) = l1.put(cell(1, "a", 8, 10), 0);
    let append = first.unwrap();
    assert_eq!(append.op_type, OpType::Insert);
    assert_eq!(append.txn_id, 8);
    assert!(append.durable);
    assert!(rest.is_empty());
}

#[test]
fn replay_restores_the_cell() {
    let mut c = cell(77, "a", 8, 10);
    let payload = payload_of(&c, op_type_of(&c));
    let back = replayed_cell(&WalOp { txn_id: c.txn_id, payload }).unwrap();
    assert_eq!((back.seg_id.as_str(), back.column.as_str(), back.row_offset, back.txn_id), ("seg", "a", 77, 8));
    assert_eq!((back.before, back.after), (None, Some(Arc::new(vec![10]))));
    c.before = Some(Arc::new(vec![4, 5]));
    let payload = payload_of(&c, op_type_of(&c));
    let back = replayed_cell(&WalOp { txn_id: c.txn_id, payload }).unwrap();
    assert_eq!((back.before, back.after), (Some(Arc::new(vec![4, 5])), Some(Arc::new(vec![10]))));
    c.after = None;
    let payload = payload_of(&c, op_type_of(&c));
    let back = replayed_cell(&WalOp { txn_id: c.txn_id, payload }).unwrap();
    assert_eq!((back.before, back.after), (Some(Arc::new(vec![4, 5])), None));
    let batch = OpPayload::Insert {
        table: "t".to_string(),
        pk: vec![1],
        columns: vec!["a".to_string(), "b".to_string()],
        wal_batch: Arc::new(vec![1, 2, 3]),
        schema_bytes: vec![9],
        seg_id: "seg".to_string(),
        granule_id: GranuleId::new(0),
        offset: 3,
    };
    let back = replayed_cell(&WalOp { txn_id: 1, payload: batch }).unwrap();
    assert_eq!((back.column.as_str(), back.before, back.after), ("a", None, None));
}

#[test]
fn logged_cells_are_readable_after_recovery() {
    let mut stack = DeltaLayerStack::new_with_default_counters(DeltaConfig::default());
    let c = cell(3, "a", 4, 44);
    let payload = payload_of(&c, op_type_of(&c));
    stack.recover_from_wal(&vec![WalOp { txn_id: 4, payload }, WalOp { txn_id: 5, payload: OpPayload::Control }]);
    let found = stack.l1.get_visible("seg", 4);
    assert_eq!(found.len(), 1);
    assert_eq!((found[0].row_offset, value(&found[0])), (3, 44));
}

#[test]
fn often_written_columns_are_hot() {
    let mut heat = ColumnHeatTracker::new(10, Ratio { num: 1, den: 2 }, Ratio { num: 1, den: 10 });
    assert_eq!(heat.num_tracked_columns(), 0);
    for txn in 0..9 {
        heat.record_write("a", txn);
    }
    heat.record_write("b", 9);
    assert_eq!(heat.num_tracked_columns(), 2);
    assert_eq!(heat.classify("a"), ColumnClass::Hot);
    assert_eq!(heat.flush_priority("a"), FlushPolicy::Hot);
    assert_eq!(heat.classify("nothing"), ColumnClass::Warm);
}

#[test]
fn flushed_cells_stay_readable() {
    let engine = FlushEngine::new(64);
    let mut stack = DeltaLayerStack::new_with_default_counters(DeltaConfig::default());
    stack.put(cell(1, "a", 5, 50), 0);
    stack.put(cell(2, "b", 6, 60), 0);
    assert_eq!(engine.flush_l1_to_l2(&mut stack), Ok(2));
    assert!(stack.l1.is_empty());
    let found = stack.query("seg", 100, &commits(&[(5, 5), (6, 6)]), &HashSet::new()).unwrap();
    let mut values: Vec<u8> = found.iter().map(value).collect();
    values.sort();
    assert_eq!(values, vec![50, 60]);
    engine.compact_l2_to_l3(&mut stack, "seg").unwrap();
    let found = stack.query_cell("seg", 1, "a", 100, &commits(&[(0, 0), (5, 5), (6, 6)]), &HashSet::new()).unwrap();
    assert_eq!(found.map(|c| value(&c)), Some(50));
}

#[test]
fn an_empty_flush_writes_nothing() {
    let engine = FlushEngine::new(64);
    let mut stack = DeltaLayerStack::new_with_default_counters(DeltaConfig::default());
    assert_eq!(engine.flush_l1_to_l2(&mut stack), Ok(0));
    assert_eq!(stack.l2.num_guards(), 0);
    assert!(engine.select_compaction(&stack).is_none());
}

#[test]
fn patches_need_cells() {
    assert_eq!(
        build_patch_from_cells(&vec![], &SparsitySelector::new()).err(),
        Some(RockDuckError::EmptyPatch)
    );
}

#[test]
fn full_guards_are_merged_first() {
    let mut engine = FlushEngine::new(2);
    engine.set_compaction_threshold(2);
    let mut stack = DeltaLayerStack::new_with_default_counters(DeltaConfig::default());
    stack.l2.set_compaction_threshold(2);
    for txn in 1..6 {
        let patch = build_patch_from_cells(&vec![cell(1, "a", txn, txn as u8)], &SparsitySelector::new()).unwrap();
        stack.l2.append_patch("seg", "a", &patch);
    }
    let key = stack.l2.find_overloaded_guard().unwrap();
    assert_eq!(key.start_row, 0);
    let action = CompactionAction::GuardMerge { guard_key: key };
    assert_eq!(action.priority(), CompactionPriority::Major);
}

#[test]
fn background_work_waits_for_queries() {
    let mut monitor = ForegroundMonitor::new(100, Ratio { num: 1, den: 2 });
    assert!(monitor.can_run_background());
    for _ in 0..100 {
        monitor.record_sample(u64::MAX / 1000);
    }
    assert!(!monitor.can_run_background());
}

#[test]
fn policies_follow_the_workload() {
    let quiet = WorkloadProfile::default();
    let policy = EcoTuneSelector::select_policy(&quiet);
    let mut selector = EcoTuneSelector::new();
    selector.update_profile(quiet);
    assert_eq!(selector.policy(), policy);
    assert!(matches!(
        policy,
        CompactionPolicy::Leveling
            | CompactionPolicy::Tiering
            | CompactionPolicy::LazyLeveling
            | CompactionPolicy::HotCold
    ));
}

fn binary(values: &[&[u8]]) -> Column {
    Column::new(ColumnType::Binary, values.iter().map(|v| Some(v.to_vec())).collect()).unwrap()
}

#[test]
fn patches_leave_other_rows_alone() {
    let base = binary(&[b"a", b"b", b"c"]);
    let values = encode_arrow_array(&vec![Some(b"x".to_vec())]).unwrap();
    let patched = apply_sparse_patch(&base, &u32array_to_roaring(&[1]), &values).unwrap();
    assert_eq!(patched.cell(0), Some(b"a".to_vec()));
    assert_eq!(patched.cell(1), Some(b"x".to_vec()));
    assert_eq!(patched.cell(2), Some(b"c".to_vec()));
}

#[test]
fn deleted_rows_are_left_out() {
    let batch = Batch::new(vec!["v".to_string()], vec![binary(&[b"a", b"b", b"c"])]).unwrap();
    let kept = DeltaMerger::new().apply_delete_mask(&batch, &u32array_to_roaring(&[0, 2]));
    assert_eq!(kept.num_rows(), 1);
    assert_eq!(kept.columns[0].cell(0), Some(b"b".to_vec()));
}

#[test]
fn deltas_change_the_columns_they_name() {
    let batch = Batch::new(vec!["v".to_string(), "w".to_string()], vec![binary(&[b"a", b"b"]), binary(&[b"c", b"d"])])
        .unwrap();
    let mut delta = cell(1, "v", 1, 0);
    delta.after = Some(Arc::new(encode_arrow_array(&vec![Some(b"z".to_vec())]).unwrap()));
    let changed = apply_deltas_to_batch(&batch, &vec![delta]);
    assert_eq!(changed.columns[0].cell(1), Some(b"z".to_vec()));
    assert_eq!(changed.columns[0].cell(0), Some(b"a".to_vec()));
    assert_eq!(changed.columns[1].cell(1), Some(b"d".to_vec()));
    let same = apply_deltas_to_batch(&batch, &vec![cell(1, "other", 1, b'z')]);
    assert_eq!(same.columns[0].cell(1), Some(b"b".to_vec()));
}

#[test]
fn patches_of_missing_columns_are_refused() {
    let batch = Batch::new(vec!["v".to_string()], vec![binary(&[b"a"])]).unwrap();
    let values = encode_arrow_array(&vec![Some(b"x".to_vec())]).unwrap();
    let merger = DeltaMerger::new();
    assert_eq!(
        merger.apply_sparse_patch_to_batch(&batch, "w", &u32array_to_roaring(&[0]), &values).err(),
        Some(RockDuckError::ColumnNotFound)
    );
    assert_eq!(
        merger.apply_dense_patch_to_batch(&batch, "w", &values).err(),
        Some(RockDuckError::ColumnNotFound)
    );
    let number = Batch::new(
        vec!["v".to_string()],
        vec![Column::new(ColumnType::Int8, vec![Some(vec![1])]).unwrap()],
    )
    .unwrap();
    assert_eq!(
        merger.apply_dense_patch_to_batch(&number, "v", &values).err(),
        Some(RockDuckError::TypeMismatch)
    );
}

#[test]
fn zone_maps_hold_the_range_of_transactions() {
    let patch = build_patch_from_cells(&vec![cell(1, "a", 4, 1), cell(2, "a", 9, 2)], &SparsitySelector::new()).unwrap();
    assert_eq!(patch.txn_range, (4, 9));
    let ZoneMap { min_txn, max_txn, affected_rows, .. } = patch.zone_map;
    assert_eq!((min_txn, max_txn, affected_rows), (4, 9, 2));
}

#[test]
fn appended_patches_are_seen_by_every_later_snapshot() {
    let mut l2 = DeltaL2Disk::new("/l2".to_string());
    let selector = SparsitySelector::new();
    l2.append_patch("seg", "a", &build_patch_from_cells(&vec![cell(5, "a", 3, 33)], &selector).unwrap());
    l2.append_patch("seg", "b", &build_patch_from_cells(&vec![cell(6, "b", 7, 77)], &selector).unwrap());
    l2.append_patch("seg", "a", &build_patch_from_cells(&vec![cell(8, "a", 9, 99)], &selector).unwrap());
    l2.append_patch("other", "a", &build_patch_from_cells(&vec![cell(1, "a", 1, 1)], &selector).unwrap());
    let seen = |snapshot: u64| -> Vec<u8> { l2.get_visible("seg", snapshot).unwrap().iter().map(value).collect() };
    assert_eq!(seen(2), Vec::<u8>::new());
    assert_eq!(seen(3), vec![33]);
    assert_eq!(seen(6), vec![33]);
    assert_eq!(seen(7), vec![33, 77]);
    assert_eq!(seen(9), vec![33, 99, 77]);
    assert_eq!(seen(u64::MAX), vec![33, 99, 77]);
    let batch = l2.get_visible_batch(&vec!["seg".to_string(), "none".to_string()], 1000);
    assert_eq!(batch.get(&"seg".to_string()).unwrap().len(), 3);
    assert!(batch.get(&"none".to_string()).unwrap().is_empty());
    assert_eq!(l2.get_visible("other", 1000).unwrap().len(), 1);
}

#[test]
fn guards_count_their_patches() {
    let mut l2 = DeltaL2Disk::new("/l2".to_string());
    let selector = SparsitySelector::new();
    let mut zone = GuardZoneMap::default();
    for txn in 1..4 {
        let cells = vec![cell(4, "a", txn, 1), cell(5, "a", txn, 2)];
        let patch = build_patch_from_cells(&cells, &selector).unwrap();
        l2.append_patch("seg", "a", &patch);
        zone.update(&patch.zone_map, txn);
    }
    assert_eq!((zone.min_txn, zone.max_txn, zone.patch_count, zone.total_affected), (1, 3, 3, 6));
    assert_eq!(l2.guards_by_seg("seg").len(), 1);
    assert_eq!(l2.guards_by_seg("seg")[0].1, 1);
}

#[test]
fn merged_patches_are_seen_by_every_later_snapshot() {
    let mut l2 = DeltaL2Disk::new("/l2".to_string());
    let selector = SparsitySelector::new();
    for (txn, after) in [(2, 10), (5, 20)] {
        l2.append_patch("seg", "a", &build_patch_from_cells(&vec![cell(4, "a", txn, after)], &selector).unwrap());
    }
    let key = l2.find_guard("seg", "a", 4).unwrap();
    l2.schedule_guard_merge(&key).unwrap();
    assert_eq!(l2.guards_by_seg("seg")[0].1, 2);
    let found = l2.get_visible("seg", 50).unwrap();
    assert_eq!(found.iter().map(value).collect::<Vec<u8>>(), vec![20]);
    assert!(l2.get_visible("seg", 4).unwrap().is_empty());
}

#[test]
fn flushed_patches_are_seen_in_the_stack() {
    let engine = FlushEngine::new(64);
    let mut stack = DeltaLayerStack::new_with_default_counters(DeltaConfig::default());
    let cells = vec![cell(1, "a", 5, 50), cell(1, "a", 6, 60), cell(2, "b", 6, 61)];
    assert_eq!(engine.finish_flush(&mut stack, cells), Ok(2));
    let found = stack.l2.get_visible("seg", 1000).unwrap();
    let mut values: Vec<(u64, u8)> = found.iter().map(|c| (c.row_offset, value(c))).collect();
    values.sort();
    assert_eq!(values, vec![(1, 60), (2, 61)]);
    assert!(stack.l2.get_visible("seg", 5).unwrap().is_empty());
}

#[test]
fn patch_rows_are_taken_in_any_order() {
    let column = |values: &[i32]| {
        Column::new(ColumnType::Int32, values.iter().map(|v| Some(v.to_le_bytes().to_vec())).collect()).unwrap()
    };
    let merger = DeltaMerger::new();
    let base = column(&[10, 20, 30, 40]);
    let patch = column(&[99, 77, 55]);
    let want = column(&[77, 20, 30, 99]);
    assert_eq!(merger.blend_arrays(&base, &patch, &vec![3, 0, 9]).cells, want.cells);
    assert_eq!(merger.apply_sparse_filter(&base, &patch, &vec![3, 0, 9]).cells, want.cells);
    let twice = column(&[10, 77, 30, 40]);
    assert_eq!(merger.blend_arrays(&base, &patch, &vec![1, 1]).cells, twice.cells);
    assert_eq!(merger.apply_sparse_filter(&base, &patch, &vec![1, 1]).cells, twice.cells);
    let short = column(&[5]);
    let kept = column(&[5, 20, 30, 40]);
    assert_eq!(merger.blend_arrays(&base, &short, &vec![0, 2]).cells, kept.cells);
}

#[test]
fn merges_are_set_to_run_in_the_background() {
    let store = DeltaL2Disk::new("/l2".to_string());
    assert_eq!(store.background_threads(), None);
    let store = store.with_async_compaction(true, 4).unwrap();
    assert_eq!(store.background_threads(), Some(4));
    let store = store.with_async_compaction(false, 4).unwrap();
    assert_eq!(store.background_threads(), None);
    assert_eq!(store.num_guards(), 0);
}

#[test]
fn cells_of_many_columns_are_flushed() {
    let engine = FlushEngine::new(2);
    let mut stack = DeltaLayerStack::new_with_default_counters(DeltaConfig::default());
    let cells = vec![
        cell(1, "a", 3, 1),
        cell(1, "b", 3, 2),
        cell(1, "a", 4, 3),
        cell(2, "c", 4, 4),
    ];
    assert_eq!(engine.finish_flush(&mut stack, cells), Ok(3));
    let found = stack.l2.get_cell("seg", 1, "a", 4).unwrap().unwrap();
    assert_eq!((found.seg_id.as_str(), found.column.as_str()), ("seg", "a"));
    assert_eq!((found.txn_id, value(&found)), (4, 3));
    assert!(stack.l2.get_cell("seg", 1, "a", 3).unwrap().is_none());
}

#[test]
fn queries_find_flushed_cells() {
    let engine = FlushEngine::new(2);
    let mut stack = DeltaLayerStack::new_with_default_counters(DeltaConfig::default());
    let cells = vec![cell(7, "a", 3, 1), cell(8, "b", 3, 2)];
    assert_eq!(engine.finish_flush(&mut stack, cells), Ok(2));
    let none = HashSet::new();
    let mut commits = HashMap::new();
    assert!(stack.query("seg", 9, &commits, &none).unwrap().is_empty());
    commits.insert(3, 5);
    assert!(stack.query("seg", 4, &commits, &none).unwrap().is_empty());
    let found = stack.query("seg", 9, &commits, &none).unwrap();
    let names: Vec<(u64, String, u64, u8)> =
        found.iter().map(|c| (c.row_offset, c.column.clone(), c.txn_id, value(c))).collect();
    assert_eq!(names, vec![(7, "a".to_string(), 3, 1), (8, "b".to_string(), 3, 2)]);
    let one = stack.query_cell("seg", 8, "b", 9, &commits, &none).unwrap().unwrap();
    assert_eq!(value(&one), 2);
    let later = vec![cell(8, "b", 6, 9)];
    assert_eq!(engine.finish_flush(&mut stack, later), Ok(1));
    commits.insert(6, 6);
    let one = stack.query_cell("seg", 8, "b", 9, &commits, &none).unwrap().unwrap();
    assert_eq!((one.txn_id, value(&one)), (6, 9));
    let old = stack.query_cell("seg", 8, "b", 5, &commits, &none).unwrap().unwrap();
    assert_eq!((old.txn_id, value(&old)), (3, 2));
}

#[test]
fn frozen_sparse_patches_keep_their_values() {
    let mut l3 = DeltaL3Frozen::new("/l3".to_string());
    let patch = build_patch_from_cells(&vec![cell(2, "a", 3, 7), cell(5, "a", 4, 8)], &SparsitySelector::new()).unwrap();
    assert!(patch.format.is_sparse());
    l3.write_compacted("seg", "a", 3000, &patch.format, &patch.zone_map);
    let found = l3.get_visible("seg", 100).unwrap();
    let cells: Vec<(u64, String, u64, u8)> =
        found.iter().map(|c| (c.row_offset, c.column.clone(), c.txn_id, value(c))).collect();
    assert_eq!(cells, vec![(2, "a".to_string(), 4, 7), (5, "a".to_string(), 4, 8)]);
    assert_eq!(l3.get_cell("seg", 5, "a", 100).unwrap().map(|c| value(&c)), Some(8));
    assert_eq!(l3.get_visible("seg", 4).unwrap().len(), 2);
    assert!(l3.get_visible("seg", 3).unwrap().is_empty());
}

#[test]
fn merged_guards_stay_visible() {
    let mut l2 = DeltaL2Disk::new("/l2".to_string());
    for txn in 1..4 {
        let patch = build_patch_from_cells(&vec![cell(4, "a", txn, txn as u8)], &SparsitySelector::new()).unwrap();
        l2.append_patch("seg", "a", &patch);
    }
    let key = l2.find_guard("seg", "a", 4).unwrap();
    l2.schedule_guard_merge(&key).unwrap();
    let found = l2.get_cell("seg", 4, "a", 9).unwrap().unwrap();
    assert_eq!((found.txn_id, value(&found)), (3, 3));
}

#[test]
fn dense_patches_keep_values_at_their_rows() {
    let patch = build_patch_from_cells(&vec![cell(1_000_000, "a", 3, 7)], &SparsitySelector::new()).unwrap();
    assert!(patch.format.is_dense());
    assert_eq!(patch_row_positions(&patch.format), vec![1_000_000]);
    let mut l2 = DeltaL2Disk::new("/l2".to_string());
    l2.append_patch("seg", "a", &patch);
    let found = l2.get_visible("seg", 3).unwrap();
    assert_eq!(found.len(), 1);
    assert_eq!((found[0].row_offset, found[0].txn_id, value(&found[0])), (1_000_000, 3, 7));
}

#[test]
fn shifted_rows_of_a_dense_patch_come_back_in_place() {
    let cells: Vec<DeltaCell> = (1..=1000).map(|row| cell(row, "a", 5, (row % 251) as u8)).collect();
    let patch = build_patch_from_cells(&cells, &SparsitySelector::new()).unwrap();
    assert!(patch.format.is_dense());
    let mut l2 = DeltaL2Disk::new("/l2".to_string());
    let old = build_patch_from_cells(&vec![cell(0, "a", 2, 99)], &SparsitySelector::new()).unwrap();
    l2.append_patch("seg", "a", &old);
    l2.append_patch("seg", "a", &patch);
    let found = l2.get_visible("seg", 9).unwrap();
    assert_eq!(found.len(), 1001);
    assert_eq!((found[0].row_offset, value(&found[0])), (0, 99));
    for c in &found[1..] {
        assert_eq!(value(c), (c.row_offset % 251) as u8);
    }
    let key = l2.find_guard("seg", "a", 4).unwrap();
    l2.schedule_guard_merge(&key).unwrap();
    let merged = l2.get_visible("seg", 9).unwrap();
    assert_eq!(merged.len(), 1001);
    assert_eq!((merged[0].row_offset, value(&merged[0])), (0, 99));
    assert_eq!((merged[1000].row_offset, value(&merged[1000])), (1000, (1000 % 251) as u8));
}

#[test]
fn rows_that_no_patch_can_hold_are_refused() {
    for row in [67_108_863, u64::MAX] {
        assert_eq!(
            build_patch_from_cells(&vec![cell(row, "a", 3, 7)], &SparsitySelector::new()).err(),
            Some(RockDuckError::TooLarge)
        );
    }
    let mut wide = SparsitySelector::new();
    wide.dense_force_rows = usize::MAX;
    assert_eq!(
        build_patch_from_cells(&vec![cell(1 << 32, "a", 3, 7)], &wide).err(),
        Some(RockDuckError::TooLarge)
    );
    let last = build_patch_from_cells(&vec![cell((1 << 32) - 1, "a", 3, 7)], &wide).unwrap();
    assert_eq!(patch_row_positions(&last.format), vec![(1 << 32) - 1]);
}

#[test]
fn formats_lay_values_out_over_rows() {
    let dense = SparsitySelector { dense_force_rows: 0, ..SparsitySelector::new() };
    let format = dense.build_format(&[3, 1], &vec![Some(vec![30]), Some(vec![10])], 5, 8).unwrap();
    assert_eq!(patch_row_positions(&format), vec![1, 3]);
    let cells = patch_to_deltas(&format).unwrap();
    assert_eq!(cells.len(), 5);
    assert_eq!((cells[0].after.is_none(), value(&cells[1]), value(&cells[3])), (true, 10, 30));
    assert!(dense.build_format(&[0], &vec![Some(vec![1])], 67_108_864, 8).is_err());
}

#[test]
fn compaction_keeps_every_patch_of_a_column() {
    let engine = FlushEngine::new(64);
    let mut stack = DeltaLayerStack::new_with_default_counters(DeltaConfig::default());
    for (txn, row, after) in [(3, 1, 10), (4, 2, 20), (5, 1, 30)] {
        assert_eq!(engine.finish_flush(&mut stack, vec![cell(row, "a", txn, after)]), Ok(1));
    }
    let seen = |stack: &DeltaLayerStack, txn: u64| {
        let mut cells: Vec<(u64, u64, u8)> = stack
            .l2
            .get_visible("seg", txn)
            .unwrap()
            .iter()
            .chain(stack.l3.get_visible("seg", txn).unwrap().iter())
            .map(|c| (c.row_offset, c.txn_id, value(c)))
            .collect();
        cells.sort();
        cells
    };
    let before: Vec<_> = (2..7).map(|txn| seen(&stack, txn)).collect();
    engine.compact_l2_to_l3(&mut stack, "seg").unwrap();
    assert_eq!(stack.l2.num_guards(), 0);
    assert_eq!(stack.l3.num_frozen(), 3);
    let after: Vec<_> = (2..7).map(|txn| seen(&stack, txn)).collect();
    assert_eq!(before, after);
    assert_eq!(after[4], vec![(1, 3, 10), (1, 5, 30), (2, 4, 20)]);
    assert_eq!(engine.finish_flush(&mut stack, vec![cell(1, "a", 3, 40)]), Ok(1));
    engine.compact_l2_to_l3(&mut stack, "seg").unwrap();
    assert_eq!(stack.l3.num_frozen(), 4);
    assert_eq!(seen(&stack, 3), vec![(1, 3, 10), (1, 3, 40)]);
    stack.l3.delete_patch("seg", "a");
    assert_eq!(stack.l3.num_frozen(), 0);
    assert!(seen(&stack, 9).is_empty());
}

#[test]
fn thresholds_of_any_size_classify_columns() {
    let most = u64::MAX;
    let mut heat = ColumnHeatTracker::new(
        4,
        Ratio { num: most - 1, den: most },
        Ratio { num: 1, den: most },
    );
    for txn in 1..5 {
        heat.record_write("a", txn);
    }
    for txn in [1, 10, 20, 30] {
        heat.record_write("b", txn);
    }
    assert_eq!(heat.classify("a"), ColumnClass::Hot);
    assert_eq!(heat.classify("b"), ColumnClass::Warm);
}

#[test]
fn cells_of_high_rows_are_found() {
    let mut l2 = DeltaL2Disk::new("/l2".to_string());
    let patch = build_patch_from_cells(&vec![cell(25_000, "a", 3, 7), cell(3, "a", 2, 1)], &SparsitySelector::new()).unwrap();
    l2.append_patch("seg", "a", &patch);
    let found = l2.get_cell("seg", 25_000, "a", 4).unwrap().unwrap();
    assert_eq!((found.row_offset, found.txn_id, value(&found)), (25_000, 3, 7));
    assert!(l2.get_cell("seg", 25_000, "b", 4).unwrap().is_none());
    assert!(l2.get_cell("seg", 25_001, "a", 4).unwrap().is_none());
}
