use lines_db::report::{RunReport, WriteReport};
use lines_db::{Location, Repeat, Replacement};

fn repeat(path: &str, line_number: usize, replacement: Option<(&str, &str)>) -> Repeat {
    Repeat {
        location: Location::new(path, line_number),
        replacement: replacement.map(|(old_value, new_value)| Replacement {
            old_value: old_value.to_string(),
            new_value: new_value.to_string(),
        }),
    }
}

#[test]
fn location_new_keeps_its_parts() {
    let loc = Location::new("dir/file.txt", 7);
    assert_eq!(loc.path, "dir/file.txt");
    assert_eq!(loc.line_number, 7);
}

#[test]
fn repeat_is_collision_follows_replacement() {
    assert!(!repeat("f", 1, None).is_collision());
    assert!(repeat("f", 1, Some(("old", "new"))).is_collision());
}

#[test]
fn write_report_counts() {
    let report = WriteReport::new(vec![
        ("b.txt".to_string(), 2usize),
        ("a.txt".to_string(), 3usize),
    ]);
    assert_eq!(report.file_count(), 2);
    assert_eq!(report.line_count(), 5);
}

#[test]
fn write_report_file_counts_sorted_by_path() {
    let report = WriteReport::new(vec![
        ("c.txt".to_string(), 1usize),
        ("a.txt".to_string(), 2usize),
        ("b.txt".to_string(), 3usize),
    ]);
    let listed = report.file_counts();
    assert_eq!(
        listed,
        vec![
            ("a.txt".to_string(), 2usize),
            ("b.txt".to_string(), 3usize),
            ("c.txt".to_string(), 1usize),
        ]
    );
}

#[test]
fn empty_write_report() {
    let report = WriteReport::new(Vec::new());
    assert_eq!(report.file_count(), 0);
    assert_eq!(report.line_count(), 0);
    assert!(report.file_counts().is_empty());
}

#[test]
fn run_report_counts_split_repeats() {
    let repeats = vec![
        repeat("a", 1, None),
        repeat("a", 2, Some(("x", "y"))),
        repeat("b", 1, None),
        repeat("b", 2, None),
        repeat("b", 3, Some(("u", "v"))),
    ];
    let report = RunReport { repeats, write_report: WriteReport::new(Vec::new()) };
    assert_eq!(report.duplicate_count(), 3);
    assert_eq!(report.collision_count(), 2);
}

#[test]
fn run_report_counts_on_no_repeats() {
    let report = RunReport { repeats: Vec::new(), write_report: WriteReport::new(Vec::new()) };
    assert_eq!(report.duplicate_count(), 0);
    assert_eq!(report.collision_count(), 0);
}
