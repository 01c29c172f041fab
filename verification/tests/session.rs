use lines_db::db::LineDb;
use lines_db::formats::ColonKeyFormat;
use lines_db::report::RunReport;
use lines_db::session::{ingest_lines, sort_paths, Error, FileOrder};

fn sized(paths: &[(&str, u64)]) -> Vec<(String, u64)> {
    paths.iter().map(|(p, s)| (p.to_string(), *s)).collect()
}

#[test]
fn by_name_sorts_lexicographically() {
    let mut paths = sized(&[("b/2.txt", 0), ("a/9.txt", 0), ("a/10.txt", 0)]);
    sort_paths(&mut paths, FileOrder::ByName);
    let names: Vec<&str> = paths.iter().map(|(p, _)| p.as_str()).collect();
    assert_eq!(names, vec!["a/10.txt", "a/9.txt", "b/2.txt"]);
}

#[test]
fn by_size_interspersed_on_six_sizes() {
    // Sizes [1,2,3,4,5,6] must come out as [1,2,3,6,5,4]: the lower half
    // ascending, the upper half reversed.
    let mut paths = sized(&[("p4", 4), ("p1", 1), ("p6", 6), ("p2", 2), ("p5", 5), ("p3", 3)]);
    sort_paths(&mut paths, FileOrder::BySizeInterspersed);
    let sizes: Vec<u64> = paths.iter().map(|(_, s)| *s).collect();
    assert_eq!(sizes, vec![1, 2, 3, 6, 5, 4]);
    let names: Vec<&str> = paths.iter().map(|(p, _)| p.as_str()).collect();
    assert_eq!(names, vec!["p1", "p2", "p3", "p6", "p5", "p4"]);
}

#[test]
fn by_size_interspersed_on_odd_count() {
    // With five files the lower half holds floor(5/2) = 2 entries.
    let mut paths = sized(&[("p3", 3), ("p5", 5), ("p1", 1), ("p4", 4), ("p2", 2)]);
    sort_paths(&mut paths, FileOrder::BySizeInterspersed);
    let sizes: Vec<u64> = paths.iter().map(|(_, s)| *s).collect();
    assert_eq!(sizes, vec![1, 2, 5, 4, 3]);
}

#[test]
fn sort_paths_on_empty_list() {
    let mut paths: Vec<(String, u64)> = Vec::new();
    sort_paths(&mut paths, FileOrder::ByName);
    assert!(paths.is_empty());
    sort_paths(&mut paths, FileOrder::BySizeInterspersed);
    assert!(paths.is_empty());
}

#[test]
fn ingest_tags_repeats_with_location() {
    let mut db = LineDb::<ColonKeyFormat>::new();
    let lines: Vec<String> =
        ["a:1", "b:1", "a:1", "a:2"].iter().map(|s| s.to_string()).collect();
    let reps = ingest_lines(&mut db, "input/one.txt", &lines).unwrap();
    assert_eq!(reps.len(), 2);
    // Line 3 re-inserted a:1 identically: a duplicate.
    assert_eq!(reps[0].location.path, "input/one.txt");
    assert_eq!(reps[0].location.line_number, 3);
    assert!(!reps[0].is_collision());
    // Line 4 replaced it: a collision carrying old and new value.
    assert_eq!(reps[1].location.line_number, 4);
    assert!(reps[1].is_collision());
    let rep = reps[1].replacement.as_ref().unwrap();
    assert_eq!(rep.old_value, "a:1");
    assert_eq!(rep.new_value, "a:2");
}

#[test]
fn ingest_aborts_on_underivable_key() {
    let mut db = LineDb::<ColonKeyFormat>::new();
    let lines: Vec<String> =
        ["a:1", "not a record", "b:1"].iter().map(|s| s.to_string()).collect();
    match ingest_lines(&mut db, "bad.txt", &lines) {
        Err(Error::KeyParsing(_, path, line_number)) => {
            assert_eq!(path, "bad.txt");
            assert_eq!(line_number, 2);
        }
        other => panic!("expected KeyParsing, got {:?}", other),
    }
    // The insert before the failure stays committed.
    assert_eq!(db.count(), 1);
}

#[test]
fn run_report_counts_duplicates_and_collisions() {
    // Five unique keys, three duplicate events, two collision events.
    let mut db = LineDb::<ColonKeyFormat>::new();
    let lines: Vec<String> = [
        "a:1", "b:1", "c:1", "d:1", "e:1", // five unique keys
        "a:1", "b:1", "c:1", // three duplicates
        "d:9", "e:9", // two collisions
    ]
    .iter()
    .map(|s| s.to_string())
    .collect();
    let repeats = ingest_lines(&mut db, "in.txt", &lines).unwrap();
    let write_report = db.write_plan().unwrap().report();
    let report = RunReport { repeats, write_report };
    assert_eq!(report.duplicate_count(), 3);
    assert_eq!(report.collision_count(), 2);
    assert_eq!(report.repeats.len(), 5);
}

#[test]
fn parallel_disjoint_ingest_loses_nothing() {
    // Four workers ingest one hundred files with pairwise disjoint keys;
    // whatever the interleaving, no insert is lost.
    let runtime = tokio::runtime::Builder::new_multi_thread()
        .worker_threads(4)
        .build()
        .unwrap();
    let db = std::sync::Arc::new(std::sync::Mutex::new(LineDb::<ColonKeyFormat>::new()));
    runtime.block_on(async {
        let pool = std::sync::Arc::new(tokio::sync::Semaphore::new(4));
        let mut handles = Vec::new();
        for f in 0..100u32 {
            let db = db.clone();
            let pool = pool.clone();
            handles.push(tokio::spawn(async move {
                let _slot = pool.acquire().await.unwrap();
                // An artificial delay point, to vary the interleaving.
                for _ in 0..(f % 7) {
                    tokio::task::yield_now().await;
                }
                let lines: Vec<String> =
                    (0..3).map(|i| format!("f{:03}k{}:value", f, i)).collect();
                let mut store = db.lock().unwrap();
                let reps =
                    ingest_lines(&mut store, &format!("file{}.txt", f), &lines).unwrap();
                assert!(reps.is_empty());
            }));
        }
        for handle in handles {
            handle.await.unwrap();
        }
    });
    assert_eq!(db.lock().unwrap().count(), 300);
}

#[test]
fn disjoint_files_lose_no_insert() {
    // One hundred files with pairwise disjoint keys: the final store
    // cardinality is the sum of unique keys over all files.
    let mut db = LineDb::<ColonKeyFormat>::new();
    let mut expected = 0usize;
    for f in 0..100 {
        let lines: Vec<String> =
            (0..3).map(|i| format!("f{:03}k{}:value{}", f, i, i)).collect();
        let reps = ingest_lines(&mut db, &format!("file{}.txt", f), &lines).unwrap();
        assert!(reps.is_empty());
        expected += 3;
    }
    assert_eq!(db.count(), expected);
}
