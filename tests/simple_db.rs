use columndb::simple_db::SimpleDB;

fn pairs(db: &SimpleDB) -> Vec<(String, String)> {
    db.data.iter().map(|(k, v)| (k.clone(), v.clone())).collect()
}

fn p(k: &str, v: &str) -> (String, String) {
    (k.to_string(), v.to_string())
}

#[test]
fn simple_insert_get_replace() {
    let mut db = SimpleDB::new("s.db");
    db.insert("b", "2");
    db.insert("a", "1");
    db.insert("b", "3");
    assert_eq!(db.get("b"), Some(&"3".to_string()));
    assert_eq!(db.get("zz"), None);
    assert_eq!(pairs(&db), vec![p("b", "3"), p("a", "1")]);
    assert_eq!(db.filename(), "s.db");
}

#[test]
fn simple_delete() {
    let mut db = SimpleDB::new("s.db");
    db.insert("a", "1");
    db.insert("b", "2");
    db.insert("c", "3");
    db.delete("a").unwrap();
    assert_eq!(pairs(&db), vec![p("b", "2"), p("c", "3")]);
    assert_eq!(
        db.delete("a"),
        Err("Key 'a' does not exist in the database".to_string())
    );
    assert_eq!(db.len(), 2);
}

#[test]
fn simple_sort_by_key() {
    let mut db = SimpleDB::new("s.db");
    db.insert("pear", "1");
    db.insert("apple", "9");
    db.insert("apples", "2");
    db.insert("Zed", "5");
    db.sort_by_key().unwrap();
    assert_eq!(
        pairs(&db),
        vec![p("Zed", "5"), p("apple", "9"), p("apples", "2"), p("pear", "1")]
    );
}

#[test]
fn simple_sort_by_value_is_stable() {
    let mut db = SimpleDB::new("s.db");
    db.insert("a", "y");
    db.insert("b", "x");
    db.insert("c", "y");
    db.insert("d", "w");
    db.sort_by_value().unwrap();
    assert_eq!(
        pairs(&db),
        vec![p("d", "w"), p("b", "x"), p("a", "y"), p("c", "y")]
    );
}

#[test]
fn simple_sort_empty_is_refused() {
    let mut db = SimpleDB::new("s.db");
    assert_eq!(
        db.sort_by_key(),
        Err("Database is empty. No sorting needed.".to_string())
    );
    assert_eq!(
        db.sort_by_value(),
        Err("Database is empty. No sorting needed.".to_string())
    );
}

#[test]
fn simple_text_round_trip() {
    let mut db = SimpleDB::new("s.db");
    db.insert("a", "1:2");
    db.insert("b", "");
    let text = db.to_text();
    assert_eq!(text, "a:1:2\nb:\n");
    let back = SimpleDB::from_text("s.db", &text);
    assert_eq!(pairs(&back), pairs(&db));
    let odd = SimpleDB::from_text("s.db", "x:1\r\nnothing\nx:2");
    assert_eq!(pairs(&odd), vec![p("x", "2")]);
}
