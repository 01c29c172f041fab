use lines_db::db::{Error, LineDb};
use lines_db::formats::{ColonKeyFormat, ParityPathFormat};

#[test]
fn fresh_store_is_empty() {
    let db = LineDb::<ColonKeyFormat>::new();
    assert_eq!(db.count(), 0);
    assert!(db.ordered_scan().is_empty());
}

#[test]
fn first_insert_reports_no_repeat() {
    let mut db = LineDb::<ColonKeyFormat>::new();
    let r = db.insert("alpha:one").unwrap();
    assert_eq!(r, None);
    assert_eq!(db.count(), 1);
}

#[test]
fn identical_reinsert_is_duplicate_not_collision() {
    let mut db = LineDb::<ColonKeyFormat>::new();
    assert_eq!(db.insert("alpha:one").unwrap(), None);
    // Re-inserting the identical line must report a duplicate, never a
    // collision, and again on every further try.
    assert_eq!(db.insert("alpha:one").unwrap(), Some(None));
    assert_eq!(db.insert("alpha:one").unwrap(), Some(None));
    assert_eq!(db.count(), 1);
}

#[test]
fn differing_reinsert_is_collision_with_old_value() {
    let mut db = LineDb::<ColonKeyFormat>::new();
    assert_eq!(db.insert("alpha:one").unwrap(), None);
    let r = db.insert("alpha:two").unwrap();
    assert_eq!(r, Some(Some(String::from("alpha:one"))));
    // Last write wins: a further identical insert of the new value is a
    // duplicate of it.
    assert_eq!(db.insert("alpha:two").unwrap(), Some(None));
    assert_eq!(db.count(), 1);
}

#[test]
fn insert_without_colon_is_format_error() {
    let mut db = LineDb::<ColonKeyFormat>::new();
    assert!(matches!(db.insert("no delimiter here"), Err(Error::Format(_))));
    assert!(matches!(db.insert(":empty key"), Err(Error::Format(_))));
    assert_eq!(db.count(), 0);
}

#[test]
fn ordered_scan_is_ascending_by_key() {
    let mut db = LineDb::<ColonKeyFormat>::new();
    db.insert("pear:3").unwrap();
    db.insert("apple:1").unwrap();
    db.insert("mango:2").unwrap();
    let scan = db.ordered_scan();
    let keys: Vec<&[u8]> = scan.iter().map(|(k, _)| k.as_slice()).collect();
    assert_eq!(keys, vec![b"apple".as_slice(), b"mango".as_slice(), b"pear".as_slice()]);
    let values: Vec<&str> = scan.iter().map(|(_, v)| v.as_str()).collect();
    assert_eq!(values, vec!["apple:1", "mango:2", "pear:3"]);
}

#[test]
fn write_plan_groups_contiguous_paths() {
    let mut db = LineDb::<ColonKeyFormat>::new();
    db.insert("zebra:1").unwrap();
    db.insert("apple:2").unwrap();
    db.insert("beet:3").unwrap();
    let plan = db.write_plan().unwrap();
    assert_eq!(plan.files.len(), 2);
    assert_eq!(plan.files[0].0, "low.txt");
    assert_eq!(plan.files[0].1, vec!["apple:2".to_string(), "beet:3".to_string()]);
    assert_eq!(plan.files[1].0, "high.txt");
    assert_eq!(plan.files[1].1, vec!["zebra:1".to_string()]);
}

#[test]
fn write_plan_counts_sum_to_distinct_keys() {
    // With a contiguous capability and no collisions, every line lands in
    // exactly one output file and the counts add up to the key count.
    let mut db = LineDb::<ColonKeyFormat>::new();
    let lines = ["a:1", "b:2", "c:3", "n:4", "p:5"];
    for line in lines {
        assert_eq!(db.insert(line).unwrap(), None);
    }
    let plan = db.write_plan().unwrap();
    let report = plan.report();
    assert_eq!(report.line_count(), db.count());
    assert_eq!(report.line_count(), 5);
    assert_eq!(report.file_count(), 2);
    let total: usize = plan.files.iter().map(|(_, ls)| ls.len()).sum();
    assert_eq!(total, 5);
}

#[test]
fn reappearing_path_fails_write_back() {
    // Keys b, c, d alternate between the parity buckets, so the `even`
    // path reappears after `odd` was seen: write-back must refuse.
    let mut db = LineDb::<ParityPathFormat>::new();
    db.insert("b:1").unwrap();
    db.insert("c:2").unwrap();
    db.insert("d:3").unwrap();
    match db.write_plan() {
        Err(Error::InvalidPath(path, key)) => {
            assert_eq!(path, "even.txt");
            assert_eq!(key, b"d".to_vec());
        }
        other => panic!("expected InvalidPath, got {:?}", other.map(|p| p.files)),
    }
}

#[test]
fn contiguous_parity_store_writes_back() {
    // The parity capability is fine as long as the keys it actually sees
    // keep each bucket contiguous.
    let mut db = LineDb::<ParityPathFormat>::new();
    db.insert("b:1").unwrap();
    db.insert("d:2").unwrap();
    let plan = db.write_plan().unwrap();
    assert_eq!(plan.files.len(), 1);
    assert_eq!(plan.files[0].0, "even.txt");
}

#[test]
fn empty_store_plans_no_files() {
    let db = LineDb::<ColonKeyFormat>::new();
    let plan = db.write_plan().unwrap();
    assert!(plan.files.is_empty());
    let report = plan.report();
    assert_eq!(report.file_count(), 0);
    assert_eq!(report.line_count(), 0);
}

#[test]
fn zstd_file_name_joins_extension() {
    assert_eq!(lines_db::db::zstd_file_name("file.txt"), "file.txt.zst");
    assert_eq!(lines_db::db::zstd_file_name("file"), "file.zst");
    assert_eq!(lines_db::db::zstd_file_name("file."), "file.zst");
    assert_eq!(lines_db::db::zstd_file_name("dir/data.json"), "dir/data.json.zst");
}
