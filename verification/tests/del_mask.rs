use rockduck::error::RockDuckError;
use rockduck::segment::del_mask::{DelMask, DelMaskMode};

fn ratio(mask: &DelMask) -> f64 {
    let r = mask.del_ratio();
    r.num as f64 / r.den as f64
}

#[test]
fn test_empty_mask() {
    let mask = DelMask::new(100);
    assert!(!mask.is_deleted(5));
    assert_eq!(mask.deleted_count(), 0);
    assert_eq!(ratio(&mask), 0.0);
}

#[test]
fn test_skiplist() {
    let mut mask = DelMask::new(10000);
    mask.add_delete(10);
    mask.add_delete(20);
    assert!(mask.is_deleted(10));
    assert!(mask.is_deleted(20));
    assert!(!mask.is_deleted(30));
    assert_eq!(mask.deleted_count(), 2);
}

#[test]
fn test_roaring_conversion() {
    let mut mask = DelMask::new(1000);
    for i in 0..50 {
        mask.add_delete(i * 2);
    }
    assert!(matches!(mask.mode, DelMaskMode::Roaring(_)));
}

#[test]
fn test_full_bitmap() {
    let mut mask = DelMask::new(100);
    for i in 0..60 {
        mask.add_delete(i);
    }
    assert!(matches!(mask.mode, DelMaskMode::FullBitmap(_)));
    assert!(mask.needs_compaction());
}

#[test]
fn test_is_deleted_out_of_bounds() {
    let mask = DelMask::new(100);
    assert!(!mask.is_deleted(100));
    assert!(!mask.is_deleted(200));
    assert!(!mask.is_deleted(u64::MAX));
}

#[test]
fn test_is_deleted_zero_rows() {
    let mask = DelMask::new(0);
    assert!(!mask.is_deleted(0));
    assert!(!mask.is_deleted(100));
}

#[test]
fn test_add_delete_empty_to_skiplist() {
    let mut mask = DelMask::new(10000);
    assert!(matches!(mask.mode, DelMaskMode::Empty));
    mask.add_delete(5);
    assert!(matches!(mask.mode, DelMaskMode::SkipList(_)));
    assert!(mask.is_deleted(5));
}

#[test]
fn test_add_delete_skiplist_to_roaring() {
    let mut mask = DelMask::new(10000);
    for i in 0..100 {
        mask.add_delete(i);
    }
    for i in 100..150 {
        mask.add_delete(i);
    }
    assert!(matches!(mask.mode, DelMaskMode::Roaring(_)));
}

#[test]
fn test_add_delete_roaring_to_full_bitmap() {
    let mut mask = DelMask::new(100);
    for i in 0..50 {
        mask.add_delete(i);
    }
    assert!(matches!(mask.mode, DelMaskMode::Roaring(_)));
    for i in 50..60 {
        mask.add_delete(i);
    }
    assert!(matches!(mask.mode, DelMaskMode::FullBitmap(_)));
}

#[test]
fn test_add_delete_duplicate_no_op() {
    let mut mask = DelMask::new(1000);
    mask.add_delete(50);
    mask.add_delete(50);
    assert!(mask.is_deleted(50));
    assert_eq!(mask.deleted_count(), 1);
}

#[test]
fn test_deleted_positions_empty() {
    let mask = DelMask::new(100);
    let positions: Vec<u64> = mask.deleted_positions();
    assert!(positions.is_empty());
}

#[test]
fn test_deleted_positions_skiplist() {
    let mut mask = DelMask::new(1000);
    mask.add_delete(5);
    mask.add_delete(10);
    mask.add_delete(15);
    let positions: Vec<u64> = mask.deleted_positions();
    assert_eq!(positions.len(), 3);
    assert!(positions.contains(&5));
    assert!(positions.contains(&10));
    assert!(positions.contains(&15));
}

#[test]
fn test_deleted_positions_roaring() {
    let mut mask = DelMask::new(1000);
    for i in (0..1000).step_by(2) {
        mask.add_delete(i);
    }
    let positions: Vec<u64> = mask.deleted_positions();
    assert_eq!(positions.len(), 500);
    assert!(positions.contains(&0));
    assert!(positions.contains(&998));
}

#[test]
fn test_deleted_positions_full_bitmap() {
    let mut mask = DelMask::new(100);
    for i in 0..60 {
        mask.add_delete(i);
    }
    let positions: Vec<u64> = mask.deleted_positions();
    assert_eq!(positions.len(), 60);
    assert!(positions.contains(&0));
    assert!(positions.contains(&59));
}

#[test]
fn test_add_deletes_batch() {
    let mut mask = DelMask::new(1000);
    mask.add_deletes(&[10, 20, 30, 40, 50]);
    assert_eq!(mask.deleted_count(), 5);
    assert!(mask.is_deleted(10));
    assert!(mask.is_deleted(20));
    assert!(mask.is_deleted(50));
    assert!(!mask.is_deleted(60));
}

#[test]
fn test_del_ratio_zero_total_rows() {
    let mask = DelMask::new(0);
    assert_eq!(ratio(&mask), 0.0);
}

#[test]
fn test_del_ratio_all_deleted() {
    let mut mask = DelMask::new(10);
    for i in 0..10 {
        mask.add_delete(i);
    }
    assert!((ratio(&mask) - 1.0).abs() < 1e-9);
}

#[test]
fn test_needs_compaction_threshold() {
    let mut mask = DelMask::new(100);
    for i in 0..60 {
        mask.add_delete(i);
    }
    assert!(mask.needs_compaction());
}

#[test]
fn test_needs_compaction_below_threshold() {
    let mut mask = DelMask::new(100);
    for i in 0..30 {
        mask.add_delete(i);
    }
    assert!(!mask.needs_compaction());
}

#[test]
fn test_full_bitmap_bits_correct() {
    let mut mask = DelMask::new(16);
    for i in 0..16 {
        mask.add_delete(i);
    }
    let positions: Vec<u64> = mask.deleted_positions();
    assert_eq!(positions.len(), 16);
}

#[test]
fn test_to_full_bitmap_explicit() {
    let mut mask = DelMask::new(64);
    for i in 0..32 {
        mask.add_delete(i);
    }
    mask.to_full_bitmap();
    assert!(matches!(mask.mode, DelMaskMode::FullBitmap(_)));
    assert_eq!(mask.deleted_count(), 32);
}

#[test]
fn test_to_full_bitmap_from_empty() {
    let mut mask = DelMask::new(64);
    mask.to_full_bitmap();
    assert!(matches!(mask.mode, DelMaskMode::FullBitmap(ref data) if data.len() == 8));
    assert_eq!(mask.deleted_count(), 0);
}

#[test]
fn test_mode_is_empty() {
    let mask = DelMask::new(100);
    assert!(matches!(mask.mode, DelMaskMode::Empty));
}

#[test]
fn test_mode_is_skiplist_after_first_delete() {
    let mut mask = DelMask::new(10000);
    mask.add_delete(1);
    assert!(matches!(mask.mode, DelMaskMode::SkipList(_)));
}


#[test]
fn test_serialization() {
    let mut mask = DelMask::new(1000);
    mask.add_delete(10);
    mask.add_delete(20);
    mask.add_delete(30);

    let bytes = mask.to_bytes().unwrap();

    let loaded = DelMask::from_bytes(&bytes).unwrap();
    assert!(loaded.is_deleted(10));
    assert!(loaded.is_deleted(20));
    assert!(loaded.is_deleted(30));
    assert!(!loaded.is_deleted(40));
}

#[test]
fn test_mode_after_save_load() {
    let mut mask = DelMask::new(500);
    for i in 0..50 {
        mask.add_delete(i);
    }

    let bytes = mask.to_bytes().unwrap();

    let loaded = DelMask::from_bytes(&bytes).unwrap();
    assert_eq!(loaded.deleted_count(), 50);
}

#[test]
fn every_form_is_read_back() {
    let mut mask = DelMask::new(100);
    for i in 0..60u64 {
        let loaded = DelMask::from_bytes(&mask.to_bytes().unwrap()).unwrap();
        assert!(loaded.is_ordered());
        assert_eq!(loaded.total_rows, 100);
        assert_eq!(loaded.deleted_positions(), mask.deleted_positions());
        assert_eq!(loaded.needs_compaction(), mask.needs_compaction());
        mask.add_delete(i);
    }
    assert!(matches!(mask.mode, DelMaskMode::FullBitmap(_)));
}

#[test]
fn bytes_that_are_no_mask_are_refused() {
    assert_eq!(DelMask::from_bytes(b"").err(), Some(RockDuckError::Deserialize));
    assert_eq!(DelMask::from_bytes(&[100, 9, 0, 0, 1, 2]).err(), Some(RockDuckError::Deserialize));
    let mask = DelMask { mode: DelMaskMode::SkipList(vec![3, 3]), ..DelMask::new(9) };
    assert!(!mask.is_ordered());
}
