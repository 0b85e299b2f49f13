//! Checks of the cell type's orderings and of the file-name and byte helpers.

use std::cmp::Ordering;

use sequel::paths;
use sequel::sort::SortCondition;
use sequel::storage::{u16_to_u8, u8_to_u16, BitmapIndex, ColumnType};
use sequel::value::{DataType, FieldValue};

#[test]
fn compare_to_same_kind_orders_naturally() {
    let a = FieldValue::Number(1);
    let b = FieldValue::Number(2);
    assert_eq!(a.compare_to(&b).unwrap(), Ordering::Less);
    assert_eq!(b.compare_to(&a).unwrap(), Ordering::Greater);
    assert_eq!(a.compare_to(&FieldValue::Number(1)).unwrap(), Ordering::Equal);
    let s1 = FieldValue::String("abc".to_string());
    let s2 = FieldValue::String("abd".to_string());
    assert_eq!(s1.compare_to(&s2).unwrap(), Ordering::Less);
    assert_eq!(
        FieldValue::Null.compare_to(&FieldValue::Null).unwrap(),
        Ordering::Equal
    );
}

#[test]
fn compare_to_cross_kind_fails() {
    let e = FieldValue::Number(1)
        .compare_to(&FieldValue::String("x".to_string()))
        .unwrap_err();
    assert!(matches!(e, sequel::errors::DBError::MisMatchDataType(_, _)));
}

#[test]
fn total_order_ranks_kinds() {
    // Null < Boolean < Number < Date < String < Url
    let vals = [
        FieldValue::Null,
        FieldValue::Boolean(true),
        FieldValue::Number(-5),
        FieldValue::Date(0),
        FieldValue::String("a".to_string()),
        FieldValue::Url("http://a".to_string()),
    ];
    for i in 0..vals.len() {
        for j in i..vals.len() {
            assert!(vals[i].total_le(&vals[j]));
        }
    }
    assert!(!vals[2].total_le(&vals[1]));
}

#[test]
fn ordering_helpers_work_on_numbers_and_dates() {
    let n1 = FieldValue::Number(3);
    let n2 = FieldValue::Number(5);
    assert!(n1.is_less_than(&n2).unwrap());
    assert!(!n1.is_greater_than(&n2).unwrap());
    assert!(n1.is_leq(&n2).unwrap());
    assert!(!n1.is_geq(&n2).unwrap());
    assert!(n2.is_between(3, 7).unwrap());
    let d = FieldValue::Date(100);
    assert!(d.date_is_between(99, 101).unwrap());
    assert!(d.is_less_than(&FieldValue::Date(200)).unwrap());
    assert!(n1.is_less_than(&d).is_err());
    assert_eq!(n1.data_type(), DataType::Number);
    assert_eq!(FieldValue::Null.data_type(), DataType::Number);
    assert!(d.is_date());
    assert!(!d.is_number());
}

#[test]
fn file_names_are_folded_exactly() {
    assert_eq!(
        paths::format_for_file_name("Example Table Name"),
        "EXAMPLE_TABLE_NAME"
    );
    assert_eq!(paths::index_file_name("tbl", "col"), "idx_tbl_col.bin");
    assert_eq!(
        paths::relation_file_name(&"Wages 2024".to_string()),
        "db_WAGES_2024.bin"
    );
    assert_eq!(paths::pages_directory("root"), "root/pages");
    assert_eq!(paths::index_directory("root"), "root/index");
    assert_eq!(paths::user_directory("r", "alice"), "r/users/alice");
    assert_eq!(paths::table_directory("r", "alice", "t"), "r/users/alice/t");
    assert_eq!(paths::table_pages_dir("r", "t"), "r/users/t/pages");
    assert_eq!(paths::table_index_dir("r", "t"), "r/users/t/index");
    assert_eq!(paths::path_to_page("r/pages", 0), "r/pages/0.bin");
    assert_eq!(paths::path_to_page("r/pages", 210), "r/pages/210.bin");
}

#[test]
fn table_file_name_folds_its_name() {
    let t = sequel::table::Table::new(
        "Example Table Name".to_string(),
        vec![sequel::column::Column::new(
            "id".to_string(),
            DataType::Number,
            true,
        )],
    );
    assert_eq!(t.to_file_name(), "EXAMPLE_TABLE_NAME");
    assert_eq!(t.name(), "Example Table Name");
}

#[test]
fn record_size_bytes_round_trip() {
    let (hi, lo) = u16_to_u8(0x1234);
    assert_eq!(hi, 0x12);
    assert_eq!(lo, 0x34);
    assert_eq!(u8_to_u16(hi, lo), 0x1234);
    for v in [0u16, 1, 255, 256, 65535] {
        let (a, b) = u16_to_u8(v);
        assert_eq!(u8_to_u16(a, b), v);
    }
}

#[test]
fn column_type_tags_parse_case_insensitively() {
    assert_eq!(ColumnType::from_str("Number"), Some(ColumnType::NUMBER));
    assert_eq!(ColumnType::from_str("num"), Some(ColumnType::NUMBER));
    assert_eq!(ColumnType::from_str("FLOAT"), Some(ColumnType::FLOAT));
    assert_eq!(ColumnType::from_str("string"), Some(ColumnType::STRING));
    assert_eq!(ColumnType::from_str("str"), Some(ColumnType::STRING));
    assert_eq!(ColumnType::from_str("Bool"), Some(ColumnType::BOOLEAN));
    assert_eq!(ColumnType::from_str("boolean"), Some(ColumnType::BOOLEAN));
    assert_eq!(ColumnType::from_str("date"), None);
}

#[test]
fn bitmap_index_search_is_positional() {
    let b = BitmapIndex { index: vec![true, false, true] };
    assert_eq!(b.search(0), Some(true));
    assert_eq!(b.search(1), Some(false));
    assert_eq!(b.search(2), Some(true));
    assert_eq!(b.search(3), None);
}

#[test]
fn sort_condition_tags_parse() {
    assert_eq!(
        SortCondition::parse_str(" Numeric_Ascending "),
        Some(SortCondition::NumericAscending)
    );
    assert_eq!(
        SortCondition::parse_str("(date_descending)"),
        Some(SortCondition::DateDescending)
    );
    assert_eq!(
        SortCondition::parse_str("ALPHA_ASCENDING"),
        Some(SortCondition::AlphaAscending)
    );
    assert_eq!(SortCondition::parse_str("sideways"), None);
}

#[test]
fn column_type_tags_parse_with_number_fallback() {
    assert_eq!(sequel::column::parse_str("Date"), DataType::Date);
    assert_eq!(sequel::column::parse_str("URL"), DataType::Url);
    assert_eq!(sequel::column::parse_str("str"), DataType::String);
    assert_eq!(sequel::column::parse_str("bool"), DataType::Boolean);
    assert_eq!(sequel::column::parse_str("whatever"), DataType::Number);
}
