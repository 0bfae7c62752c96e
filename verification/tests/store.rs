use rust_db::db::{Database, DatabaseError};
use rust_db::table::Table;

fn pairs(kvs: &[(&str, &str)]) -> Vec<(String, String)> {
    kvs.iter().map(|(k, v)| (k.to_string(), v.to_string())).collect()
}

#[test]
fn test_end_to_end() {
    let mut db = Database::new();

    db.create_table("employees").unwrap();

    db.add_column("employees", "name").unwrap();
    db.add_column("employees", "position").unwrap();

    let data = pairs(&[("name", "Alice"), ("position", "Engineer")]);
    db.insert_row("employees", "1001", data).unwrap();

    let row = db.get_row("employees", "1001").unwrap();
    assert_eq!(row.get("name").unwrap(), "Alice");

    let lines = db.save_table("employees").unwrap();
    let csv_contents = lines.join("\n");
    assert!(csv_contents.contains("row_id,name,position"));
    assert!(csv_contents.contains("1001,Alice,Engineer"));
}

#[test]
fn create_table_twice_fails_and_leaves_catalog_unchanged() {
    let mut db = Database::new();
    db.create_table("t").unwrap();
    db.add_column("t", "a").unwrap();
    db.insert_row("t", "1", pairs(&[("a", "x")])).unwrap();

    let err = db.create_table("t").unwrap_err();
    assert!(matches!(err, DatabaseError::TableAlreadyExists(ref n) if n == "t"));

    assert!(db.check_table("t"));
    let row = db.get_row("t", "1").unwrap();
    assert_eq!(row.get("a").unwrap(), "x");
}

#[test]
fn insert_filters_unknown_columns() {
    let mut db = Database::new();
    db.create_table("t").unwrap();
    db.add_column("t", "a").unwrap();

    db.insert_row("t", "1", pairs(&[("a", "x"), ("b", "y")])).unwrap();

    let row = db.get_row("t", "1").unwrap();
    assert_eq!(row.get("a").unwrap(), "x");
    assert!(row.get("b").is_none());
}

#[test]
fn update_row_evolves_schema_and_rejects_missing_row() {
    let mut db = Database::new();
    db.create_table("t").unwrap();
    db.add_column("t", "a").unwrap();
    db.insert_row("t", "1", pairs(&[("a", "x")])).unwrap();

    db.update_row("t", "1", "c", "5").unwrap();
    let row = db.get_row("t", "1").unwrap();
    assert_eq!(row.get("c").unwrap(), "5");
    assert_eq!(row.get("a").unwrap(), "x");

    // The new column is now part of the schema: a later insert may use it.
    db.insert_row("t", "2", pairs(&[("c", "7")])).unwrap();
    assert_eq!(db.get_row("t", "2").unwrap().get("c").unwrap(), "7");

    let err = db.update_row("t", "nope", "c", "5").unwrap_err();
    assert!(matches!(err, DatabaseError::RowDoesNotExist(ref r, ref t) if r == "nope" && t == "t"));
}

#[test]
fn missing_table_is_an_error_everywhere() {
    let mut db = Database::new();
    assert!(matches!(
        db.get_row("ghost", "1"),
        Err(DatabaseError::TableDoesNotExist(ref n)) if n == "ghost"
    ));
    assert!(matches!(
        db.insert_row("ghost", "1", pairs(&[("a", "x")])),
        Err(DatabaseError::TableDoesNotExist(_))
    ));
    assert!(matches!(
        db.update_row("ghost", "1", "a", "x"),
        Err(DatabaseError::TableDoesNotExist(_))
    ));
    assert!(matches!(db.delete_row("ghost", "1"), Err(DatabaseError::TableDoesNotExist(_))));
    assert!(matches!(db.save_table("ghost"), Err(DatabaseError::TableDoesNotExist(_))));
    assert!(matches!(db.add_column("ghost", "a"), Err(DatabaseError::TableDoesNotExist(_))));
}

#[test]
fn missing_row_is_an_error_on_read() {
    let mut db = Database::new();
    db.create_table("t").unwrap();
    assert!(matches!(
        db.get_row("t", "1"),
        Err(DatabaseError::RowDoesNotExist(ref r, ref t)) if r == "1" && t == "t"
    ));
}

#[test]
fn delete_row_reports_whether_a_row_was_there() {
    let mut db = Database::new();
    db.create_table("t").unwrap();
    db.add_column("t", "a").unwrap();
    db.insert_row("t", "1", pairs(&[("a", "x")])).unwrap();

    assert!(db.delete_row("t", "1").unwrap());
    assert!(!db.delete_row("t", "1").unwrap());
    assert!(matches!(db.get_row("t", "1"), Err(DatabaseError::RowDoesNotExist(_, _))));
}

#[test]
fn insert_merges_into_existing_row() {
    let mut db = Database::new();
    db.create_table("t").unwrap();
    db.add_column("t", "a").unwrap();
    db.add_column("t", "b").unwrap();
    db.insert_row("t", "1", pairs(&[("a", "x")])).unwrap();
    db.insert_row("t", "1", pairs(&[("b", "y")])).unwrap();

    let row = db.get_row("t", "1").unwrap();
    assert_eq!(row.get("a").unwrap(), "x");
    assert_eq!(row.get("b").unwrap(), "y");

    // Later values win for the same column.
    db.insert_row("t", "1", pairs(&[("a", "z")])).unwrap();
    assert_eq!(db.get_row("t", "1").unwrap().get("a").unwrap(), "z");
}

#[test]
fn table_methods_work_standalone() {
    let mut t = Table::new();
    t.add_column("a");
    t.add_column("a");
    let filtered = t.insert_row("1", &pairs(&[("a", "x"), ("zz", "q")]));
    assert_eq!(filtered, pairs(&[("a", "x")]));
    assert_eq!(t.get_row("1").unwrap().get("a").unwrap(), "x");
    assert!(t.get_row("2").is_none());
    assert!(t.delete_row("1"));
    assert!(!t.delete_row("1"));
    assert_eq!(t.get_table().size(), 0);
}

#[test]
fn save_table_sorts_columns_and_pads_missing_values() {
    let mut db = Database::new();
    db.create_table("t").unwrap();
    db.add_column("t", "b").unwrap();
    db.add_column("t", "a").unwrap();
    db.insert_row("t", "2", pairs(&[("b", "y")])).unwrap();
    db.insert_row("t", "1", pairs(&[("a", "x"), ("b", "y")])).unwrap();

    let lines = db.save_table("t").unwrap();
    assert_eq!(lines, vec!["row_id,a,b", "1,x,y", "2,,y"]);
}

#[test]
fn save_of_empty_table_is_header_only() {
    let mut db = Database::new();
    db.create_table("t").unwrap();
    let lines = db.save_table("t").unwrap();
    assert_eq!(lines, vec!["row_id"]);
}
