use dcsv::{CellAlignType, Reader, Value, VirtualArray, VirtualData};

fn sample() -> VirtualData {
    let mut reader = Reader::new();
    reader
        .data_from_bytes(b"a,b,c,d\n1,2,3,4\n5,6,7,8")
        .expect("sample csv should read")
}

fn cell_text(data: &VirtualData, x: usize, y: usize) -> String {
    data.get_cell(x, y).expect("cell should exist").to_string()
}

fn column_names(data: &VirtualData) -> Vec<String> {
    let read = data.read_only();
    read.columns.iter().map(|c| c.get_name().to_string()).collect()
}

#[test]
fn move_column_shifts_between_by_one() {
    let mut data = sample();
    data.move_column(0, 2).expect("move should succeed");
    assert_eq!(column_names(&data), vec!["b", "c", "a", "d"]);
    assert_eq!(cell_text(&data, 0, 0), "2");
    assert_eq!(cell_text(&data, 0, 1), "3");
    assert_eq!(cell_text(&data, 0, 2), "1");
    assert_eq!(cell_text(&data, 0, 3), "4");
}

#[test]
fn move_column_left_shifts_between_by_one() {
    let mut data = sample();
    data.move_column(3, 1).expect("move should succeed");
    assert_eq!(column_names(&data), vec!["a", "d", "b", "c"]);
}

#[test]
fn move_row_shifts_between_by_one() {
    let mut data = sample();
    data.insert_row(2, Some(&[t("9"), t("10"), t("11"), t("12")]))
        .expect("insert");
    data.move_row(0, 2).expect("move should succeed");
    assert_eq!(cell_text(&data, 0, 0), "5");
    assert_eq!(cell_text(&data, 1, 0), "9");
    assert_eq!(cell_text(&data, 2, 0), "1");
}

#[test]
fn move_out_of_range_is_error() {
    let mut data = sample();
    assert!(matches!(
        data.move_row(5, 0),
        Err(dcsv::DcsvError::OutOfRangeError)
    ));
    assert!(matches!(
        data.move_column(0, 9),
        Err(dcsv::DcsvError::OutOfRangeError)
    ));
}

fn t(s: &str) -> Value {
    Value::Text(s.to_string())
}

#[test]
fn set_and_get_cell() {
    let mut data = sample();
    data.set_cell(1, 2, t("seven")).expect("set should succeed");
    assert_eq!(cell_text(&data, 1, 2), "seven");
    assert!(data.get_cell(9, 0).is_none());
}

#[test]
fn set_cell_from_string_honours_column_type() {
    let mut data = sample();
    data.set_cell_from_string(0, 0, "hello").expect("text column accepts text");
    assert_eq!(cell_text(&data, 0, 0), "hello");
}

#[test]
fn insert_row_validates_length() {
    let mut data = sample();
    let result = data.insert_row(0, Some(&[t("1")]));
    assert!(matches!(result, Err(dcsv::DcsvError::InvalidRowData(_))));
    let result = data.insert_row(9, None);
    assert!(matches!(result, Err(dcsv::DcsvError::InvalidColumn(_))));
}

#[test]
fn delete_row_is_tolerant() {
    let mut data = sample();
    assert!(data.delete_row(0));
    assert_eq!(data.get_row_count(), 1);
    assert!(!data.delete_row(7));
    assert_eq!(data.get_row_count(), 1);
}

#[test]
fn set_row_is_atomic() {
    let mut data = sample();
    let result = data.set_row(0, &[t("x")]);
    assert!(matches!(result, Err(dcsv::DcsvError::InsufficientRowData)));
    assert_eq!(cell_text(&data, 0, 0), "1");
    data.set_row(0, &[t("w"), t("x"), t("y"), t("z")]).expect("set row");
    assert_eq!(cell_text(&data, 0, 3), "z");
}

#[test]
fn edit_row_touches_only_given_cells() {
    let mut data = sample();
    data.edit_row(0, &[None, Some(t("two")), None, None]).expect("edit row");
    assert_eq!(cell_text(&data, 0, 0), "1");
    assert_eq!(cell_text(&data, 0, 1), "two");
}

#[test]
fn set_column_overwrites_every_row() {
    let mut data = sample();
    data.set_column(1, t("same")).expect("set column");
    assert_eq!(cell_text(&data, 0, 1), "same");
    assert_eq!(cell_text(&data, 1, 1), "same");
}

#[test]
fn rename_column_rejects_collisions() {
    let mut data = sample();
    let result = data.rename_column(0, "b");
    assert!(matches!(result, Err(dcsv::DcsvError::InvalidColumn(_))));
    data.rename_column(0, "renamed").expect("rename");
    assert_eq!(column_names(&data)[0], "renamed");
    assert_eq!(cell_text(&data, 0, 0), "1");
}

#[test]
fn insert_column_rejects_duplicates() {
    let mut data = sample();
    let result = data.insert_column(0, "a");
    assert!(matches!(result, Err(dcsv::DcsvError::InvalidColumn(_))));
    data.insert_column(1, "new").expect("insert column");
    assert_eq!(column_names(&data), vec!["a", "new", "b", "c", "d"]);
    assert_eq!(cell_text(&data, 0, 1), "");
}

#[test]
fn delete_last_column_drops_rows() {
    let mut reader = Reader::new();
    let mut data = reader.data_from_bytes(b"a\n1\n2").expect("read");
    assert_eq!(data.get_row_count(), 2);
    data.delete_column(0).expect("delete");
    assert_eq!(data.get_column_count(), 0);
    assert_eq!(data.get_row_count(), 0);
}

#[test]
fn deleting_widest_row_rescans_width() {
    let mut data = sample();
    data.set_cell(0, 0, t("widest-value")).expect("set");
    assert_eq!(data.metas[0].max_unicode_width, 12);
    assert!(data.delete_row(0));
    assert_eq!(data.metas[0].max_unicode_width, 1);
}

#[test]
fn wide_characters_count_double() {
    let mut data = sample();
    data.set_cell(0, 0, t("\u{3042}\u{3044}")).expect("set");
    assert_eq!(data.metas[0].max_unicode_width, 4);
}

#[test]
fn aligned_table_pads_cells() {
    let mut reader = Reader::new();
    let data = reader.data_from_bytes(b"name,x\nalpha,1").expect("read");
    let table = data.get_string_table(CellAlignType::Left);
    assert_eq!(table[0], vec!["name ".to_string(), "x".to_string()]);
    assert_eq!(table[1], vec!["alpha".to_string(), "1".to_string()]);
    let right = data.get_string_table(CellAlignType::Right);
    assert_eq!(right[0][0], " name");
    let center = data.get_string_table(CellAlignType::Center);
    assert_eq!(center[0][0], "name ");
    let raw = data.get_string_table(CellAlignType::NoAlign);
    assert_eq!(raw[0][0], "name");
}

#[test]
fn formatted_string_joins_lines() {
    let mut reader = Reader::new();
    let data = reader.data_from_bytes(b"a,b\n1,2").expect("read");
    let formatted = data.get_formatted_string("\n", CellAlignType::NoAlign);
    assert_eq!(formatted, "a b\n1 2");
}

#[test]
fn array_mirrors_basic_operations() {
    let mut reader = Reader::new();
    let mut array: VirtualArray = reader.array_from_bytes(b"a,b,c\n1,2,3\n4,5,6").expect("read");
    array.move_column(0, 2).expect("move");
    assert_eq!(array.get_cell(0, 0).expect("cell").to_string(), "2");
    assert_eq!(array.get_cell(0, 2).expect("cell").to_string(), "1");
    array.move_row(0, 1).expect("move");
    assert_eq!(array.get_cell(0, 2).expect("cell").to_string(), "4");
    array.set_cell(0, 0, t("z")).expect("set");
    assert_eq!(array.get_cell(0, 0).expect("cell").to_string(), "z");
    assert!(array.delete_row(0));
    assert_eq!(array.get_row_count(), 1);
    array.delete_column(0).expect("delete");
    assert_eq!(array.get_column_count(), 2);
}

#[test]
fn array_delete_last_column_drops_rows() {
    let mut reader = Reader::new();
    let mut array = reader.array_from_bytes(b"a\n1\n2").expect("read");
    array.delete_column(0).expect("delete");
    assert_eq!(array.get_column_count(), 0);
    assert_eq!(array.get_row_count(), 0);
}

#[test]
fn read_only_snapshot_is_detached() {
    let mut data = sample();
    let snapshot = data.read_only();
    data.set_cell(0, 0, t("changed")).expect("set");
    assert_eq!(snapshot.rows[0][0].to_string(), "1");
    let reref = data.read_only_ref();
    assert_eq!(reref.rows[0][0].to_string(), "changed");
    let owned = reref.to_owned();
    assert_eq!(owned.rows[0][0].to_string(), "changed");
}

#[test]
fn iterators_walk_in_order() {
    let data = sample();
    let all: Vec<String> = data.get_iterator().iter().map(|v| v.to_string()).collect();
    assert_eq!(all, vec!["1", "2", "3", "4", "5", "6", "7", "8"]);
    let col: Vec<String> = data
        .get_column_iterator(1)
        .expect("column")
        .iter()
        .map(|v| v.to_string())
        .collect();
    assert_eq!(col, vec!["2", "6"]);
    let row: Vec<String> = data
        .get_row_iterator(1)
        .expect("row")
        .iter()
        .map(|v| v.to_string())
        .collect();
    assert_eq!(row, vec!["5", "6", "7", "8"]);
}

#[test]
fn try_get_column_index_accepts_names_and_numbers() {
    let data = sample();
    assert_eq!(data.try_get_column_index("c"), Some(2));
    assert_eq!(data.try_get_column_index("1"), Some(1));
    assert_eq!(data.try_get_column_index("9"), None);
    assert_eq!(data.try_get_column_index("missing"), None);
}

#[test]
fn header_only_table_supports_column_operations() {
    let mut reader = Reader::new();
    let mut data = reader.data_from_bytes(b"a,b,c").expect("header-only csv reads");
    assert_eq!(data.get_row_count(), 0);
    data.rename_column(0, "renamed").expect("rename works without rows");
    assert_eq!(column_names(&data)[0], "renamed");
    data.set_column(1, t("ignored")).expect("set_column is a no-op without rows");
    assert_eq!(data.get_row_count(), 0);
    data.delete_column(1).expect("delete works without rows");
    assert_eq!(column_names(&data), vec!["renamed", "c"]);
    data.delete_column(1).expect("delete");
    data.delete_column(0).expect("deleting the last column");
    assert_eq!(data.get_column_count(), 0);
    assert_eq!(data.get_row_count(), 0);
}

#[test]
fn array_header_only_table_supports_column_operations() {
    let mut reader = Reader::new();
    let mut array = reader.array_from_bytes(b"a,b").expect("header-only csv reads");
    assert_eq!(array.get_row_count(), 0);
    array.set_column(0, t("ignored")).expect("set_column is a no-op without rows");
    array.delete_column(0).expect("delete works without rows");
    assert_eq!(array.get_column_count(), 1);
}

#[test]
fn limiter_operations_reject_bad_indices() {
    let mut data = sample();
    let limiter = dcsv::ValueLimiter::default();
    assert!(matches!(
        data.set_limiter(9, &limiter, true),
        Err(dcsv::DcsvError::OutOfRangeError)
    ));
    assert!(matches!(
        data.qualify(9, &limiter),
        Err(dcsv::DcsvError::OutOfRangeError)
    ));
    assert!(matches!(
        data.qualify_multiple(vec![(9, &limiter)]),
        Err(dcsv::DcsvError::OutOfRangeError)
    ));
}

#[test]
fn drop_data_empties_everything() {
    let mut data = sample();
    data.drop_data();
    assert_eq!(data.get_column_count(), 0);
    assert_eq!(data.get_row_count(), 0);
}

#[test]
fn update_width_global_covers_all_cells() {
    let mut data = sample();
    data.set_cell(1, 0, t("longer")).expect("set");
    data.update_width_global();
    assert_eq!(data.metas[0].max_unicode_width, 6);
}
