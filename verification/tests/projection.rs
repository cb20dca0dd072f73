use rockduck::column::{Column, ColumnType};
use rockduck::error::RockDuckError;
use rockduck::segment::meta::{ColumnDef, CompareOp, DataType};
use rockduck::segment::projection::{
    can_projection_prune, extract_at_positions, extract_column_from_predicate, filter_by_comparison,
    find_applicable_projection, parse_sort_predicate, projection_meta_dir, projection_path, ProjectionMeta,
    ProjectionReader, ProjectionType,
};

fn int64(values: Vec<i64>) -> Column {
    Column::new(ColumnType::Int64, values.iter().map(|v| Some(v.to_le_bytes().to_vec())).collect()).unwrap()
}

fn uint64(values: Vec<u64>) -> Column {
    Column::new(ColumnType::UInt64, values.iter().map(|v| Some(v.to_le_bytes().to_vec())).collect()).unwrap()
}

fn meta() -> ProjectionMeta {
    ProjectionMeta::new("p".into(), "t".into(), ProjectionType::Full, vec!["city".into()], vec![], 7)
}

#[test]
fn test_projection_type_default() {
    assert_eq!(ProjectionType::default(), ProjectionType::Lightweight);
}

#[test]
fn test_projection_meta_new() {
    let cols = vec![ColumnDef::new("city".to_string(), DataType::Utf8)];
    let meta = ProjectionMeta::new(
        "proj_city".to_string(),
        "users".to_string(),
        ProjectionType::Lightweight,
        vec!["city".to_string()],
        cols,
        0,
    );

    assert_eq!(meta.proj_id, "proj_city");
    assert_eq!(meta.table, "users");
    assert!(matches!(meta.proj_type, ProjectionType::Lightweight));
    assert_eq!(meta.sort_columns, vec!["city"]);
    assert_eq!(meta.columns.len(), 1);
}

#[test]
fn test_parse_sort_predicate() {
    let (op, val) = parse_sort_predicate(">= 100").unwrap();
    assert!(matches!(op, CompareOp::Ge));
    assert_eq!(val, 100);
}

#[test]
fn test_parse_sort_predicate_suffix() {
    let (op, val) = parse_sort_predicate("< 100").unwrap();
    assert!(matches!(op, CompareOp::Lt));
    assert_eq!(val, 100);
}

#[test]
fn test_parse_sort_predicate_eq() {
    let (op, val) = parse_sort_predicate("= 42").unwrap();
    assert!(matches!(op, CompareOp::Eq));
    assert_eq!(val, 42);
}

#[test]
fn test_parse_sort_predicate_float() {
    let (op, val) = parse_sort_predicate(">= 95.5").unwrap();
    assert!(matches!(op, CompareOp::Ge));
    assert_eq!(val, 95);
}

#[test]
fn test_parse_sort_predicate_invalid() {
    assert!(parse_sort_predicate("invalid").is_err());
    assert!(parse_sort_predicate("").is_err());
}

#[test]
fn test_extract_column_from_predicate() {
    let (col, rest) = extract_column_from_predicate("city >= 100").unwrap();
    assert_eq!(col, "city");
    assert_eq!(rest, ">= 100");
}

#[test]
fn test_extract_column_from_predicate_eq() {
    let (col, rest) = extract_column_from_predicate("id = 5").unwrap();
    assert_eq!(col, "id");
    assert_eq!(rest, "= 5");
}

#[test]
fn test_find_applicable_projection() {
    let cols = vec![ColumnDef::new("city".to_string(), DataType::Utf8)];
    let proj = ProjectionMeta::new(
        "proj_city".to_string(),
        "users".to_string(),
        ProjectionType::Lightweight,
        vec!["city".to_string()],
        cols,
        0,
    );

    let projections = &[proj];
    assert!(find_applicable_projection("users", "city", projections).is_some());
    assert!(find_applicable_projection("users", "name", projections).is_none());
}

#[test]
fn test_can_projection_prune() {
    let cols = vec![ColumnDef::new("city".to_string(), DataType::Utf8)];
    let proj = ProjectionMeta::new(
        "proj_city".to_string(),
        "users".to_string(),
        ProjectionType::Lightweight,
        vec!["city".to_string()],
        cols,
        0,
    );

    assert!(can_projection_prune(&proj, "city >= 100"));
    assert!(!can_projection_prune(&proj, "name = 'Alice'"));
    assert!(!can_projection_prune(&proj, "invalid"));
}

#[test]
fn test_projection_path() {
    let path = projection_path("/data", "users", "proj_city");
    assert_eq!(
        path,
        "/data/projections/users/proj_city.vortex"
    );
}

#[test]
fn test_projection_meta_dir() {
    let path = projection_meta_dir("/data", "users");
    assert_eq!(
        path,
        "/data/projections/users/meta"
    );
}

#[test]
fn test_filter_by_comparison_eq() {
    let arr = int64(vec![10i64, 20, 30, 40, 50]);
    let positions = filter_by_comparison(&arr, &CompareOp::Eq, 30).unwrap();
    assert_eq!(positions, vec![2]);
}

#[test]
fn test_filter_by_comparison_lt() {
    let arr = int64(vec![10i64, 20, 30, 40, 50]);
    let positions = filter_by_comparison(&arr, &CompareOp::Lt, 30).unwrap();
    assert_eq!(positions, vec![0, 1]);
}

#[test]
fn test_filter_by_comparison_ge() {
    let arr = int64(vec![10i64, 20, 30, 40, 50]);
    let positions = filter_by_comparison(&arr, &CompareOp::Ge, 30).unwrap();
    assert_eq!(positions, vec![2, 3, 4]);
}

#[test]
fn test_filter_by_comparison_ne() {
    let arr = int64(vec![10i64, 20, 20, 40]);
    let positions = filter_by_comparison(&arr, &CompareOp::Ne, 20).unwrap();
    assert_eq!(positions, vec![0, 3]);
}

#[test]
fn test_projection_search_returns_correct_pk_positions() {
    // Known data: sort_col = [10, 20, 30, 40, 50], pk = [100, 200, 300, 400, 500]
    let sort_col = int64(vec![10i64, 20, 30, 40, 50]);
    let pk_col = uint64(vec![100u64, 200, 300, 400, 500]);

    // Query "> 25": sort_col >= 25 → positions 2,3,4 → pk = [300, 400, 500]
    let positions = filter_by_comparison(&sort_col, &CompareOp::Ge, 25).unwrap();
    let pks = extract_at_positions(&pk_col, &positions).unwrap();

    assert_eq!(pks, vec![300, 400, 500],
        "pks should map correctly from matching sort_col positions");
}

#[test]
fn test_projection_search_eq_returns_single_pk() {
    // Eq predicate: sort_col = 15 → position 2 → pk = 3
    let sort_col = int64(vec![5i64, 10, 15, 20]);
    let pk_col = uint64(vec![1u64, 2, 3, 4]);
    let positions = filter_by_comparison(&sort_col, &CompareOp::Eq, 15).unwrap();
    let pks = extract_at_positions(&pk_col, &positions).unwrap();
    assert_eq!(pks, vec![3]);
}

#[test]
fn test_projection_search_empty_result() {
    let sort_col = int64(vec![10i64, 20, 30]);
    let pk_col = uint64(vec![100u64, 200, 300]);
    let positions = filter_by_comparison(&sort_col, &CompareOp::Ge, 100).unwrap();
    assert!(positions.is_empty(), "no sort_col values >= 100 → empty positions");
    let pks = extract_at_positions(&pk_col, &positions).unwrap();
    assert!(pks.is_empty());
}

#[test]
fn test_projection_search_all_match() {
    let sort_col = int64(vec![10i64, 20, 30]);
    let pk_col = uint64(vec![100u64, 200, 300]);
    let positions = filter_by_comparison(&sort_col, &CompareOp::Ne, 999).unwrap();
    assert_eq!(positions.len(), 3, "all positions match Ne 999");
    let pks = extract_at_positions(&pk_col, &positions).unwrap();
    assert_eq!(pks, vec![100, 200, 300]);
}

#[test]
fn test_find_applicable_projection_mismatch_returns_none() {
    let proj = ProjectionMeta::new(
        "proj_city".into(), "users".into(), ProjectionType::Lightweight,
        vec!["city".into()], vec![],
        0,
    );
    let projections = &[proj];
    assert!(find_applicable_projection("users", "city", projections).is_some());
    assert!(find_applicable_projection("users", "temperature", projections).is_none(),
        "mismatched filter column should not find a usable projection");
}

#[test]
fn predicates_read_numbers_of_every_form() {
    let read = |s: &str| parse_sort_predicate(s).unwrap();
    assert_eq!(read("<=-7"), (CompareOp::Le, -7));
    assert_eq!(read(" > +3 "), (CompareOp::Gt, 3));
    assert_eq!(read("100 <"), (CompareOp::Lt, 100));
    assert_eq!(read("5="), (CompareOp::Eq, 5));
    assert_eq!(read("< -95.9"), (CompareOp::Lt, -95));
    assert_eq!(read("= 1.25e3"), (CompareOp::Eq, 1250));
    assert_eq!(read("= 125e-2"), (CompareOp::Eq, 1));
    assert_eq!(read("= .5"), (CompareOp::Eq, 0));
    assert_eq!(read("= 5."), (CompareOp::Eq, 5));
    assert_eq!(read("= 9223372036854775807"), (CompareOp::Eq, i64::MAX));
    assert_eq!(read("= 9223372036854775808"), (CompareOp::Eq, i64::MAX));
    assert_eq!(read("= -9223372036854775808"), (CompareOp::Eq, i64::MIN));
    assert_eq!(read("= 1e400"), (CompareOp::Eq, i64::MAX));
    assert_eq!(read("= 1e-400"), (CompareOp::Eq, 0));
    assert_eq!(read("= -Infinity"), (CompareOp::Eq, i64::MIN));
    assert_eq!(read("= NaN"), (CompareOp::Eq, 0));
}

#[test]
fn decimals_agree_with_floating_point_where_it_is_exact() {
    for text in ["0.5", "1.5", "-1.5", "123456.789", "1e3", "2.5E2", "-0.75", "7", "12e-1", "0.0", "00012.50"] {
        let wanted = text.parse::<f64>().unwrap() as i64;
        assert_eq!(parse_sort_predicate(&format!("= {}", text)).unwrap().1, wanted, "{}", text);
    }
}

#[test]
fn predicates_without_a_number_are_refused() {
    for text in ["=", "= x", ">= 1.2.3", "= e5", "= .", "= 1e", "= +", "95.5 <", "12", "= 1 2"] {
        assert_eq!(parse_sort_predicate(text), Err(RockDuckError::Query), "{}", text);
    }
}

#[test]
fn white_space_of_every_kind_is_left_out() {
    assert_eq!(parse_sort_predicate("\u{a0}=\u{2003}\u{3000}4\t\n"), Ok((CompareOp::Eq, 4)));
}

#[test]
fn columns_are_split_off_at_the_first_separator() {
    let split = |s: &str| extract_column_from_predicate(s);
    assert_eq!(split("age=5"), Some(("age".to_string(), "=5".to_string())));
    assert_eq!(split("age<=5"), Some(("age<".to_string(), "=5".to_string())));
    assert_eq!(split("age>5"), Some(("age".to_string(), ">5".to_string())));
    assert_eq!(split("=5"), None);
    assert_eq!(split(""), None);
}

#[test]
fn search_reads_the_keys_of_the_rows_it_selects() {
    let reader =
        ProjectionReader::loaded(meta(), int64(vec![10, 20, 30, 40]), uint64(vec![7, 8, 9, 10])).unwrap();
    assert_eq!(reader.search(">= 20"), Ok(vec![8, 9, 10]));
    assert_eq!(reader.search("= 10"), Ok(vec![7]));
    assert_eq!(reader.search("> 40"), Ok(vec![]));
    assert_eq!(reader.search("nothing"), Err(RockDuckError::Query));
}

#[test]
fn search_needs_loaded_columns_of_the_right_types() {
    let empty = ProjectionReader::open(true, "users", "p", 3).unwrap();
    assert_eq!(empty.meta.created_at, 3);
    assert_eq!(empty.search("= 1"), Err(RockDuckError::Storage));
    assert!(matches!(ProjectionReader::open(false, "users", "p", 3), Err(RockDuckError::Storage)));
    let wrong = ProjectionReader::loaded(meta(), uint64(vec![1]), uint64(vec![1])).unwrap();
    assert_eq!(wrong.search("= 1"), Err(RockDuckError::Query));
    let wrong = ProjectionReader::loaded(meta(), int64(vec![1]), int64(vec![1])).unwrap();
    assert_eq!(wrong.search("= 1"), Err(RockDuckError::Query));
    assert!(ProjectionReader::loaded(meta(), int64(vec![1]), uint64(vec![1, 2])).is_none());
}
