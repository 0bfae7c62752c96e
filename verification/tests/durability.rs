use rust_db::commands::{CmdResult, Create_Table, Save_table};
use rust_db::segment::{decode_segment, encode_segment};
use rust_db::csv::load_table_from_lines;
use rust_db::db::Database;
use rust_db::wal::{decode_entry, encode_entry, WalEntry};

fn pairs(kvs: &[(&str, &str)]) -> Vec<(String, String)> {
    kvs.iter().map(|(k, v)| (k.to_string(), v.to_string())).collect()
}

fn sample_db() -> Database {
    let mut db = Database::new();
    db.create_table("t").unwrap();
    db.add_column("t", "a").unwrap();
    db.add_column("t", "b").unwrap();
    db.insert_row("t", "1", pairs(&[("a", "x"), ("b", "y")])).unwrap();
    db.update_row("t", "1", "c", "5").unwrap();
    db.insert_row("t", "2", pairs(&[("a", "q")])).unwrap();
    db.delete_row("t", "2").unwrap();
    db
}

fn row_snapshot(db: &Database, table: &str, id: &str, cols: &[&str]) -> Vec<Option<String>> {
    match db.get_row(table, id) {
        Ok(row) => cols.iter().map(|c| row.get(c).cloned()).collect(),
        Err(_) => vec![],
    }
}

#[test]
fn replaying_the_wal_twice_equals_replaying_it_once() {
    let mut db = sample_db();
    let mut fresh1 = Database::new();
    let lines = db.persist_wal();
    fresh1.load_wal(&lines).unwrap();
    let once_r1 = row_snapshot(&fresh1, "t", "1", &["a", "b", "c"]);
    let once_r2 = row_snapshot(&fresh1, "t", "2", &["a", "b", "c"]);

    // A second replay of the same pending log must change nothing.
    fresh1.flush_wal().unwrap();
    assert_eq!(row_snapshot(&fresh1, "t", "1", &["a", "b", "c"]), once_r1);
    assert_eq!(row_snapshot(&fresh1, "t", "2", &["a", "b", "c"]), once_r2);
}

#[test]
fn crash_after_append_recovers_the_same_state() {
    // The WAL is appended on every mutation; losing the process before any
    // flush and replaying the durable lines rebuilds the same table.
    let mut db = sample_db();
    let lines = db.persist_wal();
    let expected_r1 = row_snapshot(&db, "t", "1", &["a", "b", "c"]);
    drop(db);

    let mut recovered = Database::new();
    recovered.load_wal(&lines).unwrap();
    assert_eq!(row_snapshot(&recovered, "t", "1", &["a", "b", "c"]), expected_r1);
    assert!(recovered.get_row("t", "2").is_err());
}

#[test]
fn wal_lines_round_trip_values_with_separators() {
    // Values carrying the field separator survive the line format because
    // the payload is self-delimiting.
    let mut db = Database::new();
    db.create_table("t").unwrap();
    db.add_column("t", "a").unwrap();
    db.insert_row("t", "1", pairs(&[("a", "x:y,z\"w")])).unwrap();
    db.update_row("t", "1", "b", "p:q").unwrap();

    let lines = db.persist_wal();
    let mut recovered = Database::new();
    recovered.load_wal(&lines).unwrap();
    let row = recovered.get_row("t", "1").unwrap();
    assert_eq!(row.get("a").unwrap(), "x:y,z\"w");
    assert_eq!(row.get("b").unwrap(), "p:q");
}

#[test]
fn encode_then_decode_returns_the_entry() {
    let e = WalEntry::InsertRow {
        table: "t".to_string(),
        row_id: "1".to_string(),
        data: pairs(&[("a", "x:y"), ("b", "")]),
    };
    let line = encode_entry(&e);
    match decode_entry(&line) {
        Some(WalEntry::InsertRow { table, row_id, data }) => {
            assert_eq!(table, "t");
            assert_eq!(row_id, "1");
            assert_eq!(data, pairs(&[("a", "x:y"), ("b", "")]));
        },
        other => panic!("decoded to the wrong entry: {:?}", other.is_some()),
    }

    let u = WalEntry::UpdateRow {
        table: "t".to_string(),
        row_id: "1".to_string(),
        column: "c".to_string(),
        value: "v:1,2".to_string(),
    };
    match decode_entry(&encode_entry(&u)) {
        Some(WalEntry::UpdateRow { table, row_id, column, value }) => {
            assert_eq!((table.as_str(), row_id.as_str()), ("t", "1"));
            assert_eq!((column.as_str(), value.as_str()), ("c", "v:1,2"));
        },
        _ => panic!("update entry did not survive the round trip"),
    }
}

#[test]
fn encoded_lines_have_the_documented_shape() {
    let c = WalEntry::CreateTable { table: "t".to_string() };
    assert_eq!(encode_entry(&c), "create_table:t");

    let a = WalEntry::AddColumn { table: "t".to_string(), column: "age".to_string() };
    assert_eq!(encode_entry(&a), "add_column:t:age");

    // The payload is canonical JSON: keys sorted, values quoted and escaped.
    let i = WalEntry::InsertRow {
        table: "t".to_string(),
        row_id: "1".to_string(),
        data: pairs(&[("b", "2"), ("a", "1")]),
    };
    assert_eq!(encode_entry(&i), "insert_row:t:1:{\"a\":\"1\",\"b\":\"2\"}");

    let u = WalEntry::UpdateRow {
        table: "t".to_string(),
        row_id: "1".to_string(),
        column: "c".to_string(),
        value: "x\ny".to_string(),
    };
    assert_eq!(encode_entry(&u), "update_row:t:1:c:\"x\\ny\"");

    let d = WalEntry::DeleteRow { table: "t".to_string(), row_id: "1".to_string() };
    assert_eq!(encode_entry(&d), "delete_row:t:1");
}

#[test]
fn decode_rejects_unknown_lines() {
    assert!(decode_entry("nonsense").is_none());
    assert!(decode_entry("create_table").is_none());
    assert!(decode_entry("insert_row:t:1:not json").is_none());
}

#[test]
fn commit_clears_the_pending_log() {
    let mut db = sample_db();
    let n = db.persist_wal().len();
    let archive = db.commit_wal();
    assert_eq!(archive.len(), n);
    assert!(db.persist_wal().is_empty());
    // The applied state is untouched by committing.
    assert_eq!(db.get_row("t", "1").unwrap().get("c").unwrap(), "5");
    db.clear_wal().unwrap();
    assert!(db.persist_wal().is_empty());
}

#[test]
fn flush_is_invisible_to_readers() {
    let mut db = Database::new();
    db.create_table("t").unwrap();
    db.add_column("t", "a").unwrap();
    for i in 0..4 {
        let id = format!("r{}", i);
        let val = format!("v{}", i);
        db.insert_row("t", &id, pairs(&[("a", &val)])).unwrap();
    }
    db.flush_table("t").unwrap();
    for i in 0..4 {
        let id = format!("r{}", i);
        let val = format!("v{}", i);
        let row = db.get_row("t", &id).unwrap();
        assert_eq!(row.get("a").unwrap(), &val);
    }
}

#[test]
fn buffer_flushes_itself_past_the_threshold() {
    // The default threshold is five buffered rows; the sixth insert finds a
    // flushed buffer, and every row stays readable throughout.
    let mut db = Database::new();
    db.create_table("t").unwrap();
    db.add_column("t", "a").unwrap();
    for i in 0..12 {
        let id = format!("r{:02}", i);
        let val = format!("v{}", i);
        db.insert_row("t", &id, pairs(&[("a", &val)])).unwrap();
    }
    for i in 0..12 {
        let id = format!("r{:02}", i);
        let val = format!("v{}", i);
        assert_eq!(db.get_row("t", &id).unwrap().get("a").unwrap(), &val);
    }
}

#[test]
fn compaction_keeps_the_newest_version_of_a_row() {
    let mut db = Database::new();
    db.create_table("t").unwrap();
    db.add_column("t", "x").unwrap();
    // Segment A (older) holds "1" -> {x: 1}.
    db.insert_row("t", "1", pairs(&[("x", "1")])).unwrap();
    db.flush_table("t").unwrap();
    // Segment B (newer) holds "1" -> {x: 2}.
    db.insert_row("t", "1", pairs(&[("x", "2")])).unwrap();
    db.flush_table("t").unwrap();

    db.compact_table("t").unwrap();
    assert_eq!(db.get_row("t", "1").unwrap().get("x").unwrap(), "2");

    // Compacting again, with a single segment left, changes nothing.
    db.compact_table("t").unwrap();
    assert_eq!(db.get_row("t", "1").unwrap().get("x").unwrap(), "2");
}

#[test]
fn segment_file_round_trip() {
    let mut db = Database::new();
    db.create_table("t").unwrap();
    db.add_column("t", "a").unwrap();
    db.add_column("t", "b").unwrap();
    db.insert_row("t", "r1", pairs(&[("a", "v=1"), ("b", "x:y")])).unwrap();
    db.insert_row("t", "r2", pairs(&[("a", "v2")])).unwrap();
    db.flush_table("t").unwrap();

    let seg = &db.tables[0].1.store.segs[0];
    let lines = encode_segment(seg);
    assert_eq!(lines, vec!["r1:a=v=1,b=x:y", "r2:a=v2"]);

    let decoded = decode_segment(&lines, seg.seq_no).unwrap();
    assert_eq!(decoded.seq_no, seg.seq_no);
    let r1 = decoded.get("r1").unwrap();
    assert_eq!(r1.get("a").unwrap(), "v=1");
    assert_eq!(r1.get("b").unwrap(), "x:y");
    assert_eq!(decoded.get("r2").unwrap().get("a").unwrap(), "v2");
    assert!(decoded.get("r3").is_none());

    // A file whose lines are out of order is not a segment.
    let bad = vec!["r2:a=v2".to_string(), "r1:a=v1".to_string()];
    assert!(decode_segment(&bad, 0).is_none());
    // A line without a pair separator is not a segment row.
    let bad2 = vec!["r1:garbage".to_string()];
    assert!(decode_segment(&bad2, 0).is_none());
}

#[test]
fn export_import_round_trip() {
    let mut db = Database::new();
    db.create_table("t").unwrap();
    db.add_column("t", "b").unwrap();
    db.add_column("t", "a").unwrap();
    db.insert_row("t", "1", pairs(&[("a", "x")])).unwrap();
    db.insert_row("t", "2", pairs(&[("a", "p"), ("b", "q")])).unwrap();
    db.flush_table("t").unwrap();
    db.insert_row("t", "3", pairs(&[("b", "r")])).unwrap();

    let lines = db.save_table("t").unwrap();
    assert_eq!(lines[0], "row_id,a,b");

    let t2 = load_table_from_lines(&lines).unwrap();
    let r1 = t2.get_row("1").unwrap();
    assert_eq!(r1.get("a").unwrap(), "x");
    assert_eq!(r1.get("b").unwrap(), "");
    let r2 = t2.get_row("2").unwrap();
    assert_eq!(r2.get("a").unwrap(), "p");
    assert_eq!(r2.get("b").unwrap(), "q");
    let r3 = t2.get_row("3").unwrap();
    assert_eq!(r3.get("a").unwrap(), "");
    assert_eq!(r3.get("b").unwrap(), "r");
    assert!(t2.get_row("4").is_none());
}

#[test]
fn import_of_nothing_is_refused() {
    let lines: Vec<String> = Vec::new();
    assert!(load_table_from_lines(&lines).is_none());
}

#[test]
fn commands_drive_the_store() {
    let mut db = Database::new();
    let mut create = Create_Table::new();
    let cols = vec!["name".to_string(), "position".to_string()];
    create.create_table_with_columns("employees", &cols, &mut db);
    assert!(matches!(create.res_message, CmdResult::Success(ref m) if m == "employees"));

    create.create_table("employees", &mut db);
    assert!(matches!(create.res_message, CmdResult::Failure(_)));

    db.insert_row("employees", "1001", pairs(&[("name", "Alice"), ("position", "Engineer")]))
        .unwrap();

    let mut save = Save_table::new();
    let lines = save.save_table("employees", "employees.csv", &db).unwrap();
    assert_eq!(lines[0], "row_id,name,position");
    assert_eq!(lines[1], "1001,Alice,Engineer");
    assert!(matches!(save.res_message, CmdResult::Success(ref m) if m == "employees, employees.csv"));

    let mut other = Save_table::new();
    assert!(other.save_table("ghost", "x.csv", &db).is_none());
    assert!(matches!(other.res_message, CmdResult::Failure(_)));
}
