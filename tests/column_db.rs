use columndb::column_db::ColumnDB;
use columndb::columns::resolve;
use columndb::error::DataStoreError;

fn s(v: &[&str]) -> Vec<String> {
    v.iter().map(|x| x.to_string()).collect()
}

fn rows(db: &ColumnDB) -> Vec<(String, Vec<String>)> {
    db.data.iter().map(|(k, v)| (k.clone(), v.clone())).collect()
}

fn people() -> ColumnDB {
    let mut db = ColumnDB::new("people.db");
    db.set_header("h0".to_string(), s(&["name", "age"])).unwrap();
    db.insert("r1".to_string(), "name".to_string(), "Alice".to_string()).unwrap();
    db.insert("r1".to_string(), "age".to_string(), "30".to_string()).unwrap();
    db
}

#[test]
fn scenario_insert_get_select() {
    let db = people();
    assert_eq!(db.get_item("r1", "name").unwrap(), "Alice");
    assert_eq!(db.get_item("r1", "age").unwrap(), "30");
    let sel = db.select(None, Some(s(&["age"]))).unwrap();
    assert_eq!(
        rows(&sel),
        vec![("h0".to_string(), s(&["age"])), ("r1".to_string(), s(&["30"]))]
    );
    assert_eq!(sel.filename(), "people.db");
}

#[test]
fn resolve_names_and_key() {
    let h = s(&["name", "age", "name"]);
    assert_eq!(resolve("key", &h), Some(0));
    assert_eq!(resolve("key", &Vec::new()), Some(0));
    assert_eq!(resolve("name", &h), Some(1));
    assert_eq!(resolve("age", &h), Some(2));
    assert_eq!(resolve("bogus", &h), None);
}

#[test]
fn set_header_goes_first() {
    let mut db = ColumnDB::new("x.db");
    db.add_row("a".to_string(), s(&["1"])).unwrap();
    db.add_row("b".to_string(), s(&["2"])).unwrap();
    db.add_row("c".to_string(), s(&["3"])).unwrap();
    db.set_header("b".to_string(), s(&["col"])).unwrap();
    assert_eq!(
        rows(&db),
        vec![
            ("b".to_string(), s(&["col"])),
            ("a".to_string(), s(&["1"])),
            ("c".to_string(), s(&["3"])),
        ]
    );
    db.set_header("h".to_string(), s(&["n"])).unwrap();
    assert_eq!(rows(&db)[0], ("h".to_string(), s(&["n"])));
    assert_eq!(db.len(), 4);
}

#[test]
fn set_header_rejects_empty() {
    let mut db = people();
    let before = rows(&db);
    let r = db.set_header("h1".to_string(), Vec::new());
    assert!(matches!(r, Err(DataStoreError::InvalidHeader { .. })));
    assert_eq!(rows(&db), before);
}

#[test]
fn insert_new_row_is_blank_elsewhere() {
    let mut db = people();
    db.insert("r2".to_string(), "age".to_string(), "41".to_string()).unwrap();
    assert_eq!(rows(&db)[2], ("r2".to_string(), s(&["", "41"])));
}

#[test]
fn insert_unknown_column_fails() {
    let mut db = people();
    let before = rows(&db);
    let r = db.insert("r1".to_string(), "bogus".to_string(), "v".to_string());
    assert_eq!(r, Err(DataStoreError::CoordinatesNotFound));
    let r = db.insert("r1".to_string(), "key".to_string(), "v".to_string());
    assert_eq!(r, Err(DataStoreError::CoordinatesNotFound));
    assert_eq!(rows(&db), before);
}

#[test]
fn insert_past_short_row_fails() {
    let mut db = people();
    db.add_row("short".to_string(), s(&["Bob"])).unwrap();
    let r = db.insert("short".to_string(), "age".to_string(), "5".to_string());
    assert_eq!(r, Err(DataStoreError::CoordinatesNotFound));
    assert_eq!(db.get_item("short", "age"), Err(DataStoreError::CoordinatesNotFound));
}

#[test]
fn add_row_replaces_in_place() {
    let mut db = people();
    db.add_row("r2".to_string(), s(&["Bob", "7"])).unwrap();
    db.add_row("r1".to_string(), s(&["Eve"])).unwrap();
    assert_eq!(
        rows(&db),
        vec![
            ("h0".to_string(), s(&["name", "age"])),
            ("r1".to_string(), s(&["Eve"])),
            ("r2".to_string(), s(&["Bob", "7"])),
        ]
    );
}

#[test]
fn get_item_cases() {
    let db = people();
    assert_eq!(db.get_item("r1", "bogus").unwrap(), "");
    assert_eq!(db.get_item("r1", "key").unwrap(), "r1");
    assert_eq!(db.get_item("nobody", "name"), Err(DataStoreError::CoordinatesNotFound));
}

#[test]
fn delete_then_get_fails() {
    let mut db = people();
    db.delete_row("r1").unwrap();
    assert_eq!(db.get_item("r1", "name"), Err(DataStoreError::CoordinatesNotFound));
    assert_eq!(db.delete_row("r1"), Err(DataStoreError::CoordinatesNotFound));
    assert_eq!(db.len(), 1);
}

#[test]
fn delete_keeps_order() {
    let mut db = people();
    db.add_row("r2".to_string(), s(&["Bob", "7"])).unwrap();
    db.add_row("r3".to_string(), s(&["Cy", "8"])).unwrap();
    db.delete_row("r1").unwrap();
    let keys: Vec<String> = rows(&db).into_iter().map(|r| r.0).collect();
    assert_eq!(keys, s(&["h0", "r2", "r3"]));
}

#[test]
fn add_col_grows_every_row() {
    let mut db = people();
    db.add_row("r2".to_string(), s(&["Bob"])).unwrap();
    db.add_col("city".to_string(), "none".to_string()).unwrap();
    assert_eq!(
        rows(&db),
        vec![
            ("h0".to_string(), s(&["name", "age", "city"])),
            ("r1".to_string(), s(&["Alice", "30", "none"])),
            ("r2".to_string(), s(&["Bob", "none"])),
        ]
    );
    assert_eq!(db.get_item("r1", "city").unwrap(), "none");
}

#[test]
fn add_col_twice_is_refused() {
    let mut db = people();
    db.add_col("x".to_string(), "d".to_string()).unwrap();
    let before = rows(&db);
    let r = db.add_col("x".to_string(), "d".to_string());
    assert_eq!(r, Err(DataStoreError::DuplicateColumn("x".to_string())));
    assert_eq!(rows(&db), before);
    assert_eq!(db.header_cells().len(), 3);
}

#[test]
fn add_col_on_empty_store_changes_nothing() {
    let mut db = ColumnDB::new("e.db");
    db.add_col("x".to_string(), "d".to_string()).unwrap();
    assert_eq!(db.len(), 0);
}

#[test]
fn select_row_bounds() {
    let db = people();
    let r = db.select(Some(0..3), None);
    match r {
        Err(DataStoreError::InvalidSelectionRange { expected, found }) => {
            assert_eq!(expected, "row range within 0..2");
            assert_eq!(found, "end of range 3");
        }
        _ => panic!("expected a refused range"),
    }
    let all = db.select(Some(0..2), None).unwrap();
    assert_eq!(rows(&all), rows(&db));
    let none = db.select(None, None).unwrap();
    assert_eq!(rows(&none), rows(&db));
}

#[test]
fn select_slice_and_key_column() {
    let mut db = people();
    db.add_row("r2".to_string(), s(&["Bob", "7"])).unwrap();
    let sel = db.select(Some(1..3), Some(s(&["key", "age", "name"]))).unwrap();
    assert_eq!(
        rows(&sel),
        vec![("r1".to_string(), s(&["30", "Alice"])), ("r2".to_string(), s(&["7", "Bob"]))]
    );
    let empty = db.select(Some(2..1), None).unwrap();
    assert_eq!(empty.len(), 0);
}

#[test]
fn select_rejects_unknown_columns() {
    let db = people();
    match db.select(None, Some(s(&["bogus", "age", "nope"]))) {
        Err(DataStoreError::InvalidSelectionRange { expected, found }) => {
            assert_eq!(expected, "Valid column names from header: [\"name\", \"age\"]");
            assert_eq!(found, "Missing columns: [\"bogus\", \"nope\"]");
            assert!(found.contains("bogus"));
        }
        _ => panic!("expected a refused selection"),
    }
}

#[test]
fn text_round_trip() {
    let mut db = people();
    db.add_row("r2".to_string(), s(&["Bob", ""])).unwrap();
    db.add_col("city".to_string(), "Oslo".to_string()).unwrap();
    db.delete_row("r1").unwrap();
    let text = db.to_text();
    assert_eq!(text, "h0:name,age,city\nr2:Bob,,Oslo\n");
    let back = ColumnDB::from_text("people.db", &text);
    assert_eq!(rows(&back), rows(&db));
}

#[test]
fn load_text_lines() {
    let back = ColumnDB::from_text("f.db", "a:1,2\r\nno colon here\nb:x:y\n\na:3");
    assert_eq!(
        rows(&back),
        vec![("a".to_string(), s(&["3"])), ("b".to_string(), s(&["x:y"]))]
    );
    assert_eq!(ColumnDB::from_text("f.db", "").len(), 0);
    assert_eq!(rows(&ColumnDB::from_text("f.db", "k:")), vec![("k".to_string(), s(&[""]))]);
}
