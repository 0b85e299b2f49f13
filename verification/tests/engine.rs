//! End-to-end checks of the table engine: inserts, selection through index
//! and scan, deletion, editing, sorting, and the two joins.

use sequel::column::Column;
use sequel::errors::DBError;
use sequel::filter::{FilterCondition, FilterConditionValue};
use sequel::sort::SortCondition;
use sequel::table::Table;
use sequel::value::{DataType, FieldValue};

fn row(pairs: Vec<(&str, FieldValue)>) -> Vec<(String, FieldValue)> {
    pairs.into_iter().map(|(n, v)| (n.to_string(), v)).collect()
}

fn users_table() -> Table {
    let mut t = Table::new(
        "Users".to_string(),
        vec![
            Column::new("id".to_string(), DataType::Number, true),
            Column::new("deptId".to_string(), DataType::Number, false),
        ],
    );
    t.insert_row(&row(vec![("id", FieldValue::Number(1)), ("deptId", FieldValue::Number(10))]))
        .unwrap();
    t.insert_row(&row(vec![("id", FieldValue::Number(2)), ("deptId", FieldValue::Number(20))]))
        .unwrap();
    t
}

fn depts_table() -> Table {
    let mut t = Table::new(
        "Depts".to_string(),
        vec![
            Column::new("deptId".to_string(), DataType::Number, true),
            Column::new("name".to_string(), DataType::String, false),
        ],
    );
    t.insert_row(&row(vec![
        ("deptId", FieldValue::Number(10)),
        ("name", FieldValue::String("Eng".to_string())),
    ]))
    .unwrap();
    t.insert_row(&row(vec![
        ("deptId", FieldValue::Number(30)),
        ("name", FieldValue::String("Sales".to_string())),
    ]))
    .unwrap();
    t
}

#[test]
fn insert_then_lookup_returns_the_row() {
    let t = users_table();
    let res = t
        .select_rows(
            &"id".to_string(),
            FilterCondition::Equal(FilterConditionValue::Number(1)),
        )
        .unwrap();
    assert_eq!(res.number_of_rows(), 1);
    let r = res.get_row(0).unwrap();
    let id_pos = res.find_col("id").unwrap();
    let dept_pos = res.find_col("deptId").unwrap();
    assert_eq!(r[id_pos], FieldValue::Number(1));
    assert_eq!(r[dept_pos], FieldValue::Number(10));
}

#[test]
fn duplicate_primary_key_is_rejected_and_table_unchanged() {
    let mut t = users_table();
    let before = t.number_of_rows();
    let e = t
        .insert_row(&row(vec![
            ("id", FieldValue::Number(1)),
            ("deptId", FieldValue::Number(77)),
        ]))
        .unwrap_err();
    assert!(matches!(e, DBError::DuplicatePrimaryKey(_)));
    assert_eq!(t.number_of_rows(), before);
}

#[test]
fn missing_primary_key_is_rejected() {
    let mut t = users_table();
    let e = t
        .insert_row(&row(vec![("deptId", FieldValue::Number(5))]))
        .unwrap_err();
    match e {
        DBError::MissingPrimaryKeys(names) => assert_eq!(names, vec!["id".to_string()]),
        other => panic!("wrong error: {:?}", other),
    }
}

#[test]
fn unknown_column_and_wrong_kind_are_rejected() {
    let mut t = users_table();
    let e = t
        .insert_row(&row(vec![
            ("id", FieldValue::Number(9)),
            ("nope", FieldValue::Number(5)),
        ]))
        .unwrap_err();
    assert!(matches!(e, DBError::InvalidColumn(n) if n == "nope"));
    let e2 = t
        .insert_row(&row(vec![
            ("id", FieldValue::Number(9)),
            ("deptId", FieldValue::String("x".to_string())),
        ]))
        .unwrap_err();
    assert!(matches!(e2, DBError::MisMatchDataType(DataType::Number, DataType::String)));
    // Null is accepted in any column
    t.insert_row(&row(vec![("id", FieldValue::Number(9)), ("deptId", FieldValue::Null)]))
        .unwrap();
}

#[test]
fn index_and_scan_agree() {
    let mut t = users_table();
    t.insert_row(&row(vec![("id", FieldValue::Number(3)), ("deptId", FieldValue::Number(10))]))
        .unwrap();
    t.index_column("deptId".to_string()).unwrap();
    let cond = || FilterCondition::GreaterThanOrEqualTo(FilterConditionValue::Number(10));
    let via_index = t.select_rows(&"deptId".to_string(), cond()).unwrap();
    let via_scan = t.select_rows_scan(&"deptId".to_string(), cond()).unwrap();
    assert_eq!(via_index.number_of_rows(), via_scan.number_of_rows());
    // same rows as sets: every scanned row occurs among the indexed ones
    for i in 0..via_scan.number_of_rows() {
        let needle = via_scan.get_row(i).unwrap();
        let mut found = false;
        for j in 0..via_index.number_of_rows() {
            if via_index.get_row(j).unwrap() == needle {
                found = true;
            }
        }
        assert!(found);
    }
}

#[test]
fn select_rows_errors() {
    let t = users_table();
    let e = t
        .select_rows(
            &"ghost_column".to_string(),
            FilterCondition::Equal(FilterConditionValue::Number(1)),
        )
        .unwrap_err();
    assert!(matches!(e, DBError::InvalidColumn(n) if n == "ghost_column"));
    let e2 = t
        .select_rows(
            &"id".to_string(),
            FilterCondition::LessThan(FilterConditionValue::String("x".to_string())),
        )
        .unwrap_err();
    assert!(matches!(e2, DBError::MisMatchConditionDataType(_, _)));
}

#[test]
fn select_columns_projects_in_request_order() {
    let t = users_table();
    let res = t
        .select_columns(&vec!["deptId".to_string(), "id".to_string()])
        .unwrap();
    assert_eq!(res.columns().len(), 2);
    assert_eq!(res.columns()[0].get_name(), "deptId");
    assert_eq!(res.columns()[1].get_name(), "id");
    assert_eq!(res.get_row(0).unwrap()[0], FieldValue::Number(10));
    assert_eq!(res.get_row(0).unwrap()[1], FieldValue::Number(1));
    let e = t.select_columns(&vec!["id".to_string(), "id".to_string()]).unwrap_err();
    assert!(matches!(e, DBError::InvalidColumn(_)));
}

#[test]
fn delete_rows_removes_and_survivors_stay_reachable() {
    let mut t = Table::new(
        "Nums".to_string(),
        vec![
            Column::new("id".to_string(), DataType::Number, true),
            Column::new("v".to_string(), DataType::Number, false),
        ],
    );
    for i in 1..=4 {
        t.insert_row(&row(vec![
            ("id", FieldValue::Number(i)),
            ("v", FieldValue::Number(10 * i)),
        ]))
        .unwrap();
    }
    let k = t
        .delete_rows(
            "v".to_string(),
            FilterCondition::LessThan(FilterConditionValue::Number(25)),
        )
        .unwrap();
    assert_eq!(k, 2);
    assert_eq!(t.number_of_rows(), 2);
    // every remaining row is reachable through its own primary-key value
    for i in 3..=4 {
        let res = t
            .select_rows(
                &"id".to_string(),
                FilterCondition::Equal(FilterConditionValue::Number(i)),
            )
            .unwrap();
        assert_eq!(res.number_of_rows(), 1);
    }
    // and the deleted rows match nothing any more
    for i in 1..=2 {
        let res = t
            .select_rows(
                &"id".to_string(),
                FilterCondition::Equal(FilterConditionValue::Number(i)),
            )
            .unwrap();
        assert_eq!(res.number_of_rows(), 0);
    }
}

#[test]
fn edit_rows_overwrites_and_counts() {
    let mut t = users_table();
    let n = t
        .edit_rows(
            "deptId".to_string(),
            "deptId".to_string(),
            FilterCondition::Equal(FilterConditionValue::Number(20)),
            FieldValue::Number(99),
        )
        .unwrap();
    assert_eq!(n, 1);
    let res = t
        .select_rows(
            &"deptId".to_string(),
            FilterCondition::Equal(FilterConditionValue::Number(99)),
        )
        .unwrap();
    assert_eq!(res.number_of_rows(), 1);
    let e = t
        .edit_rows(
            "deptId".to_string(),
            "deptId".to_string(),
            FilterCondition::Equal(FilterConditionValue::Number(99)),
            FieldValue::String("x".to_string()),
        )
        .unwrap_err();
    assert!(matches!(e, DBError::MisMatchDataType(_, _)));
}

#[test]
fn sort_rows_orders_and_keeps_count() {
    let mut t = Table::new(
        "S".to_string(),
        vec![
            Column::new("id".to_string(), DataType::Number, true),
            Column::new("v".to_string(), DataType::Number, false),
        ],
    );
    let vals = [5, 1, 4, 1, 3];
    for (i, v) in vals.iter().enumerate() {
        t.insert_row(&row(vec![
            ("id", FieldValue::Number(i as i64)),
            ("v", FieldValue::Number(*v)),
        ]))
        .unwrap();
    }
    t.sort_rows(SortCondition::NumericAscending, "v".to_string()).unwrap();
    assert_eq!(t.number_of_rows(), 5);
    let vp = t.find_col("v").unwrap();
    for i in 0..t.number_of_rows() - 1 {
        let a = &t.get_row(i).unwrap()[vp];
        let b = &t.get_row(i + 1).unwrap()[vp];
        assert!(a.total_le(b));
    }
    t.sort_rows(SortCondition::NumericDescending, "v".to_string()).unwrap();
    assert_eq!(t.number_of_rows(), 5);
    for i in 0..t.number_of_rows() - 1 {
        let a = &t.get_row(i).unwrap()[vp];
        let b = &t.get_row(i + 1).unwrap()[vp];
        assert!(b.total_le(a));
    }
}

#[test]
fn sort_orders_null_below_numbers() {
    // the documented total fallback order puts Null before every number
    let mut t = Table::new(
        "N".to_string(),
        vec![
            Column::new("id".to_string(), DataType::Number, true),
            Column::new("v".to_string(), DataType::Number, false),
        ],
    );
    t.insert_row(&row(vec![("id", FieldValue::Number(1)), ("v", FieldValue::Number(7))]))
        .unwrap();
    t.insert_row(&row(vec![("id", FieldValue::Number(2)), ("v", FieldValue::Null)]))
        .unwrap();
    t.sort_rows(SortCondition::NumericAscending, "v".to_string()).unwrap();
    let vp = t.find_col("v").unwrap();
    assert_eq!(t.get_row(0).unwrap()[vp], FieldValue::Null);
    assert_eq!(t.get_row(1).unwrap()[vp], FieldValue::Number(7));
}

#[test]
fn inner_join_example() {
    let users = users_table();
    let depts = depts_table();
    let joined = users.inner_join(&depts, "deptId".to_string()).unwrap();
    assert_eq!(joined.number_of_rows(), 1);
    let id = joined.find_col("id").unwrap();
    let dept = joined.find_col("deptId").unwrap();
    let name = joined.find_col("name").unwrap();
    let r = joined.get_row(0).unwrap();
    assert_eq!(r[id], FieldValue::Number(1));
    assert_eq!(r[dept], FieldValue::Number(10));
    assert_eq!(r[name], FieldValue::String("Eng".to_string()));
}

#[test]
fn outer_join_example() {
    let users = users_table();
    let depts = depts_table();
    let joined = users.outer_join(&depts, "deptId".to_string()).unwrap();
    assert_eq!(joined.number_of_rows(), 2);
    let id = joined.find_col("id").unwrap();
    let dept = joined.find_col("deptId").unwrap();
    let name = joined.find_col("name").unwrap();
    let mut saw_matched = false;
    let mut saw_padded = false;
    for i in 0..2 {
        let r = joined.get_row(i).unwrap();
        if r[id] == FieldValue::Number(1) {
            assert_eq!(r[dept], FieldValue::Number(10));
            assert_eq!(r[name], FieldValue::String("Eng".to_string()));
            saw_matched = true;
        } else {
            assert_eq!(r[id], FieldValue::Number(2));
            assert_eq!(r[dept], FieldValue::Number(20));
            assert_eq!(r[name], FieldValue::Null);
            saw_padded = true;
        }
    }
    assert!(saw_matched && saw_padded);
}

#[test]
fn join_errors() {
    let users = users_table();
    let depts = depts_table();
    let e = users.inner_join(&depts, "ghost".to_string()).unwrap_err();
    assert!(matches!(e, DBError::InvalidColumn(_)));
    // a shared non-join column name is refused
    let mut clash = Table::new(
        "C".to_string(),
        vec![
            Column::new("deptId".to_string(), DataType::Number, true),
            Column::new("id".to_string(), DataType::Number, false),
        ],
    );
    clash
        .insert_row(&row(vec![
            ("deptId", FieldValue::Number(10)),
            ("id", FieldValue::Number(5)),
        ]))
        .unwrap();
    let e2 = users.inner_join(&clash, "deptId".to_string()).unwrap_err();
    assert!(matches!(e2, DBError::InvalidColumn(n) if n == "id"));
}

#[test]
fn synthetic_identity_key_is_filled_by_the_engine() {
    let mut t = Table::new(
        "Notes".to_string(),
        vec![Column::new("text".to_string(), DataType::String, false)],
    );
    t.insert_row(&row(vec![("text", FieldValue::String("a".to_string()))])).unwrap();
    t.insert_row(&row(vec![("text", FieldValue::String("b".to_string()))])).unwrap();
    assert_eq!(t.number_of_rows(), 2);
    let tid = t.find_col("Tuple ID").unwrap();
    assert_eq!(t.get_row(0).unwrap()[tid], FieldValue::Number(0));
    assert_eq!(t.get_row(1).unwrap()[tid], FieldValue::Number(1));
    // the identity column cannot be edited
    let e = t
        .edit_rows(
            "text".to_string(),
            "Tuple ID".to_string(),
            FilterCondition::NotNull,
            FieldValue::Number(9),
        )
        .unwrap_err();
    assert!(matches!(e, DBError::MandatoryColumn(_)));
}

#[test]
fn boolean_and_null_conditions() {
    let mut t = Table::new(
        "B".to_string(),
        vec![
            Column::new("id".to_string(), DataType::Number, true),
            Column::new("flag".to_string(), DataType::Boolean, false),
        ],
    );
    t.insert_row(&row(vec![("id", FieldValue::Number(1)), ("flag", FieldValue::Boolean(true))]))
        .unwrap();
    t.insert_row(&row(vec![("id", FieldValue::Number(2)), ("flag", FieldValue::Boolean(false))]))
        .unwrap();
    t.insert_row(&row(vec![("id", FieldValue::Number(3)), ("flag", FieldValue::Null)]))
        .unwrap();
    let yes = t.select_rows(&"flag".to_string(), FilterCondition::True).unwrap();
    assert_eq!(yes.number_of_rows(), 1);
    let no = t.select_rows(&"flag".to_string(), FilterCondition::False).unwrap();
    assert_eq!(no.number_of_rows(), 1);
    let nulls = t.select_rows(&"flag".to_string(), FilterCondition::Null).unwrap();
    assert_eq!(nulls.number_of_rows(), 1);
    let not_nulls = t.select_rows(&"flag".to_string(), FilterCondition::NotNull).unwrap();
    assert_eq!(not_nulls.number_of_rows(), 2);
    let between = t
        .select_rows(
            &"id".to_string(),
            FilterCondition::NumberBetween(FilterConditionValue::NumberRange(2, 3)),
        )
        .unwrap();
    assert_eq!(between.number_of_rows(), 2);
}

#[test]
fn byte_round_trip_reproduces_the_table() {
    let mut t = Table::new(
        "Every Kind".to_string(),
        vec![
            Column::new("id".to_string(), DataType::Number, true),
            Column::new("s".to_string(), DataType::String, false),
            Column::new("d".to_string(), DataType::Date, false),
            Column::new("u".to_string(), DataType::Url, false),
            Column::new("b".to_string(), DataType::Boolean, false),
        ],
    );
    t.insert_row(&row(vec![
        ("id", FieldValue::Number(1)),
        ("s", FieldValue::String("héllo".to_string())),
        ("d", FieldValue::Date(1705276800)),
        ("u", FieldValue::Url("https://example.com/".to_string())),
        ("b", FieldValue::Boolean(true)),
    ]))
    .unwrap();
    t.insert_row(&row(vec![
        ("id", FieldValue::Number(-2)),
        ("s", FieldValue::Null),
        ("d", FieldValue::Null),
        ("u", FieldValue::Null),
        ("b", FieldValue::Null),
    ]))
    .unwrap();
    let bytes = t.to_bytes();
    let back = Table::from_bytes(&bytes).unwrap();
    assert_eq!(back.name(), t.name());
    assert_eq!(back.number_of_rows(), t.number_of_rows());
    assert_eq!(back.columns().len(), t.columns().len());
    for c in 0..t.columns().len() {
        assert_eq!(back.columns()[c].get_name(), t.columns()[c].get_name());
        assert_eq!(back.columns()[c].get_data_type(), t.columns()[c].get_data_type());
        assert_eq!(back.columns()[c].is_primary_key(), t.columns()[c].is_primary_key());
    }
    for p in 0..t.number_of_rows() {
        assert_eq!(back.get_row(p).unwrap(), t.get_row(p).unwrap());
    }
    // the loaded table is alive: its key index still rejects duplicates
    let mut back = back;
    let e = back
        .insert_row(&row(vec![("id", FieldValue::Number(1))]))
        .unwrap_err();
    assert!(matches!(e, DBError::DuplicatePrimaryKey(_)));
    // and garbage bytes are rejected rather than misread
    let mut garbage = bytes.clone();
    let n = garbage.len();
    garbage[n - 1] = garbage[n - 1].wrapping_add(1);
    garbage.push(7);
    assert!(Table::from_bytes(&garbage).is_none());
}
