use rockduck::segment::layout::{
    generate_seg_id, seg_id_from, upd_mask_name, validate_seg_id, SegmentLayout, BLOCK_BF_SUFFIX, BLOCK_ZM_SUFFIX, COL_SUFFIX,
    DEL_MASK_NAME, META_NAME, SEG_PREFIX, ZM_NAME,
};
use rockduck::error::RockDuckError;

#[test]
fn test_segment_layout_new() {
    let layout = SegmentLayout::new("/data", "seg_abc123");
    let path_str = layout.seg_dir.clone();
    assert!(path_str.contains("seg_abc123"), "Expected path to contain seg_abc123, got: {}", path_str);
}

#[test]
fn test_col_path() {
    let layout = SegmentLayout::new("/data", "seg_001");
    let path = layout.col_path("id");
    let path_str = path;
    assert!(path_str.contains("seg_001") && path_str.contains("id.vortex"),
        "Expected path to contain seg_001 and id.vortex, got: {}", path_str);
}

#[test]
fn test_col_path_special_chars() {
    let layout = SegmentLayout::new("/data", "seg_001");
    let path = layout.col_path("_upd_age");
    let path_str = path;
    assert!(path_str.contains("seg_001") && path_str.contains("_upd_age.vortex"),
        "Expected path to contain seg_001 and _upd_age.vortex, got: {}", path_str);
}

#[test]
fn test_del_mask_path() {
    let layout = SegmentLayout::new("/data", "seg_001");
    let path = layout.del_mask_path();
    let path_str = path;
    assert!(path_str.contains("seg_001") && path_str.contains("_del.vortex"),
        "Expected path to contain seg_001 and _del.vortex, got: {}", path_str);
}

#[test]
fn test_upd_mask_path() {
    let layout = SegmentLayout::new("/data", "seg_001");
    let path = layout.upd_mask_path("age");
    let path_str = path;
    assert!(path_str.contains("seg_001") && path_str.contains("_upd_age.vortex"),
        "Expected path to contain seg_001 and _upd_age.vortex, got: {}", path_str);
}

#[test]
fn test_meta_path() {
    let layout = SegmentLayout::new("/data", "seg_001");
    let path = layout.meta_path();
    let path_str = path;
    assert!(path_str.contains("seg_001") && path_str.contains("_meta.vortex"),
        "Expected path to contain seg_001 and _meta.vortex, got: {}", path_str);
}

#[test]
fn test_zone_map_path() {
    let layout = SegmentLayout::new("/data", "seg_001");
    let path = layout.zone_map_path();
    let path_str = path;
    assert!(path_str.contains("seg_001") && path_str.contains("_zm.json"),
        "Expected path to contain seg_001 and _zm.json, got: {}", path_str);
}

#[test]
fn test_generate_seg_id_prefix() {
    let seg_id = generate_seg_id();
    assert!(seg_id.starts_with(SEG_PREFIX));
}

#[test]
fn test_generate_seg_id_unique() {
    let id1 = generate_seg_id();
    let id2 = generate_seg_id();
    let id3 = generate_seg_id();
    assert_ne!(id1, id2);
    assert_ne!(id2, id3);
    assert_ne!(id1, id3);
}

#[test]
fn test_generate_seg_id_format() {
    // Should be seg_ + UUID without dashes
    let seg_id = generate_seg_id();
    assert!(seg_id.starts_with("seg_"));
    let uuid_part = &seg_id[4..];
    assert_eq!(uuid_part.len(), 32); // UUID without dashes
    assert!(uuid_part.chars().all(|c| c.is_ascii_hexdigit()));
}

#[test]
fn test_generate_seg_id_multiple() {
    let ids: Vec<String> = (0..100).map(|_| generate_seg_id()).collect();
    let unique: std::collections::HashSet<_> = ids.iter().collect();
    assert_eq!(unique.len(), 100); // All unique
}

#[test]
fn test_naming_seg_prefix() {
    assert_eq!(SEG_PREFIX, "seg_");
}

#[test]
fn test_naming_col_suffix() {
    assert_eq!(COL_SUFFIX, ".vortex");
}

#[test]
fn test_naming_del_mask_name() {
    assert_eq!(DEL_MASK_NAME, "_del.vortex");
}

#[test]
fn test_naming_upd_mask_name() {
    assert_eq!(upd_mask_name("age"), "_upd_age.vortex");
    assert_eq!(upd_mask_name("user_name"), "_upd_user_name.vortex");
}

#[test]
fn test_naming_meta_name() {
    assert_eq!(META_NAME, "_meta.vortex");
}

#[test]
fn test_naming_zm_name() {
    assert_eq!(ZM_NAME, "_zm.json");
}

#[test]
fn test_segment_layout_debug() {
    let layout = SegmentLayout::new("/data", "seg_001");
    let debug_str = format!("{:?}", layout);
    assert!(!debug_str.is_empty());
}

#[test]
fn test_validate_seg_id_accepts_valid_ids() {
    let data_dir = "/data";
    assert!(validate_seg_id("seg_123", data_dir).is_ok());
    assert!(validate_seg_id("seg_abc123def", data_dir).is_ok());
    assert!(validate_seg_id("seg_12345", data_dir).is_ok());
}

#[test]
fn test_validate_seg_id_rejects_path_traversal() {
    let data_dir = "/data";

    // Reject forward slashes
    assert!(validate_seg_id("../../../etc", data_dir).is_err());

    // Reject backslashes (Windows path traversal)
    assert!(validate_seg_id("..\\..\\etc", data_dir).is_err());

    // Reject explicit dotdot
    assert!(validate_seg_id("foo/../bar", data_dir).is_err());
    assert!(validate_seg_id("foo/..", data_dir).is_err());

    // Reject embedded path separators
    assert!(validate_seg_id("seg/123", data_dir).is_err());
    assert!(validate_seg_id("seg\\123", data_dir).is_err());
}

#[test]
fn test_validate_seg_id_strip_prefix_detection() {
    let data_dir = "/data/segments";

    // Valid: normal segment ID
    assert!(validate_seg_id("seg_12345", data_dir).is_ok());

    // Invalid: would escape via symlink or relative path
    // This catches cases like "seg_../../../etc"
    assert!(validate_seg_id("seg_../../../etc", data_dir).is_err());
}

#[test]
fn test_segment_layout_new_accepts_valid_ids() {
    let temp = tempfile::tempdir().unwrap();
    let data_dir = temp.path().to_str().unwrap();

    // Valid segment IDs should work
    let layout = SegmentLayout::new(data_dir, "seg_12345");
    assert!(layout.seg_dir.ends_with("segments/seg_12345"));
}

#[test]
fn test_segment_layout_try_new_returns_error_on_invalid() {
    let temp = tempfile::tempdir().unwrap();
    let data_dir = temp.path().to_str().unwrap();

    // try_new should return an error instead of panicking
    let result = SegmentLayout::try_new(data_dir, "../../../etc");
    assert!(
        result.is_err(),
        "SegmentLayout::try_new should return error on invalid seg_id"
    );
}

#[test]
fn every_file_of_a_segment_has_its_place() {
    let layout = SegmentLayout::new("/data", "seg_1");
    assert_eq!(layout.seg_dir, "/data/segments/seg_1");
    assert_eq!(layout.col_path("age"), "/data/segments/seg_1/age.vortex");
    assert_eq!(layout.vis_path(), "/data/segments/seg_1/__vis.vortex");
    assert_eq!(layout.deltavis_path(), "/data/segments/seg_1/__vis.vortex.delta");
    assert_eq!(layout.block_zm_path("age"), format!("/data/segments/seg_1/age{}", BLOCK_ZM_SUFFIX));
    assert_eq!(layout.block_bf_path("age"), format!("/data/segments/seg_1/age{}", BLOCK_BF_SUFFIX));
    assert_eq!(layout.delta_path("age"), "/data/segments/seg_1/l2/age.delta");
}

#[test]
fn two_dots_are_refused_and_one_is_not() {
    assert_eq!(validate_seg_id("a..b", "/data"), Err(RockDuckError::Security));
    assert_eq!(validate_seg_id("a.b", "/data"), Ok(()));
    assert_eq!(validate_seg_id("", "/data"), Ok(()));
    assert_eq!(validate_seg_id(".", "/data"), Ok(()));
}

#[test]
fn accepted_segment_stays_inside() {
    let layout = SegmentLayout::try_new("/data", "seg_1").unwrap();
    assert!(layout.seg_dir.starts_with("/data/segments/"));
    assert_eq!(layout.seg_dir["/data/segments/".len()..].find('/'), None);
}

#[test]
fn new_ids_are_accepted() {
    assert!(SegmentLayout::try_new("/data", &generate_seg_id()).is_ok());
}

#[test]
fn segment_ids_are_made_of_an_id() {
    assert_eq!(seg_id_from("00ff"), "seg_00ff");
    assert_eq!(seg_id_from(""), "seg_");
}
