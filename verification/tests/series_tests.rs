use git_patcher::series::{
    check_entry, entry_path, parse_series_entries, relative_path, EntryCheck, PatchSeries,
    SeriesError,
};

fn ok(relative: &str) -> EntryCheck {
    EntryCheck { inside: true, exists: true, relative: relative.to_string() }
}

fn series(names: &[&str]) -> PatchSeries {
    PatchSeries::new("/p".to_string(), names.iter().map(|n| ok(n)).collect()).unwrap()
}

#[test]
fn entries_are_trimmed_and_blank_lines_skipped() {
    let e = parse_series_entries("0001-a.patch\n\n   \n  0002-b.patch  \r\n0003-c.patch");
    assert_eq!(e, vec!["0001-a.patch", "0002-b.patch", "0003-c.patch"]);
}

#[test]
fn entries_of_empty_content() {
    assert!(parse_series_entries("").is_empty());
    assert!(parse_series_entries("\n\n\t\n").is_empty());
}

#[test]
fn unicode_white_space_is_trimmed() {
    let e = parse_series_entries("\u{3000}x\u{a0}\n\u{2028}y z\u{85}\n");
    assert_eq!(e, vec!["x", "y z"]);
}

#[test]
fn lone_carriage_return_does_not_end_a_line() {
    let e = parse_series_entries("a\rb\n");
    assert_eq!(e, vec!["a\rb"]);
}

#[test]
fn new_reports_first_failing_entry() {
    let checks = vec![
        ok("a"),
        EntryCheck { inside: true, exists: false, relative: "b".to_string() },
        EntryCheck { inside: false, exists: true, relative: "c".to_string() },
    ];
    assert_eq!(PatchSeries::new("/p".to_string(), checks).err(), Some(SeriesError::NotFound(1)));
    let checks = vec![
        ok("a"),
        EntryCheck { inside: false, exists: false, relative: "b".to_string() },
    ];
    assert_eq!(PatchSeries::new("/p".to_string(), checks).err(), Some(SeriesError::OutsideDir(1)));
}

#[test]
fn new_keeps_relative_names_in_order() {
    let s = series(&["a", "b"]);
    assert_eq!(s.len(), 2);
    assert_eq!(s.get(0), "a");
    assert_eq!(s.get(1), "b");
    assert_eq!(s.patches_dir(), "/p");
}

#[test]
fn push_and_consume_are_first_in_first_out() {
    let mut s = series(&["a"]);
    s.push_patch("/p/b".to_string(), true).unwrap();
    assert_eq!(s.push_patch("/p/c".to_string(), false), Err(SeriesError::PushMissing));
    assert_eq!(s.len(), 2);
    assert_eq!(s.get(1), "b");
    assert_eq!(s.consume_patch(), Some("/p/a".to_string()));
    assert_eq!(s.consume_patch(), Some("/p/b".to_string()));
    assert_eq!(s.consume_patch(), None);
    assert_eq!(s.len(), 0);
}

#[test]
fn content_lists_each_patch_on_a_line() {
    let s = series(&["0001-a.patch", "0002-b.patch"]);
    assert_eq!(s.series_content(), Ok("0001-a.patch\n0002-b.patch\n".to_string()));
    assert_eq!(series(&[]).series_content(), Ok(String::new()));
}

#[test]
fn content_reads_back_to_the_same_entries() {
    let names = ["x.patch", "sub/y.patch", "z z.patch"];
    let s = series(&names);
    assert_eq!(parse_series_entries(&s.series_content().unwrap()), names);
}

#[test]
fn padded_name_does_not_read_back_unchanged() {
    let s = series(&[" a"]);
    assert_eq!(parse_series_entries(&s.series_content().unwrap()), vec!["a"]);
}

#[test]
fn entry_joins_the_patches_directory() {
    assert_eq!(entry_path("/p", "a.patch"), "/p/a.patch");
    assert_eq!(entry_path("/p", "sub/b.patch"), "/p/sub/b.patch");
}

#[test]
fn entry_inside_keeps_its_relative_name() {
    let c = check_entry("/p", "sub/a.patch", true);
    assert!(c.inside);
    assert!(c.exists);
    assert_eq!(c.relative, "sub/a.patch");
}

#[test]
fn absolute_entry_leads_out_of_the_directory() {
    let c = check_entry("/p", "/etc/a.patch", false);
    assert!(!c.inside);
    assert!(!c.exists);
    assert_eq!(c.relative, "/etc/a.patch");
}

#[test]
fn parent_components_are_not_resolved() {
    // Path::starts_with compares components, so "/p/../x" still starts with "/p".
    let c = check_entry("/p", "../escape.patch", true);
    assert!(c.inside);
    assert_eq!(c.relative, "../escape.patch");
}

#[test]
fn relative_path_inside_and_outside() {
    assert_eq!(relative_path("/p", "/p/x/y.patch"), Some("x/y.patch".to_string()));
    assert_eq!(relative_path("/p", "/q/y.patch"), None);
    assert_eq!(relative_path("/p", "/pq/y.patch"), None);
}

#[test]
fn from_entries_reports_first_failure() {
    let listed = vec![
        ("a".to_string(), true),
        ("/elsewhere/b".to_string(), true),
        ("c".to_string(), false),
    ];
    assert_eq!(
        PatchSeries::from_entries("/p".to_string(), &listed).err(),
        Some(SeriesError::OutsideDir(1))
    );
    let listed = vec![("a".to_string(), true), ("c".to_string(), false)];
    assert_eq!(
        PatchSeries::from_entries("/p".to_string(), &listed).err(),
        Some(SeriesError::NotFound(1))
    );
}

#[test]
fn from_entries_keeps_names_in_order() {
    let listed = vec![("b.patch".to_string(), true), ("sub/a.patch".to_string(), true)];
    let s = PatchSeries::from_entries("/p".to_string(), &listed).unwrap();
    assert_eq!(s.len(), 2);
    assert_eq!(s.get(0), "b.patch");
    assert_eq!(s.get(1), "sub/a.patch");
    assert_eq!(s.series_content(), Ok("b.patch\nsub/a.patch\n".to_string()));
}

#[test]
fn patch_pushed_from_outside_blocks_saving_until_consumed() {
    let mut s = series(&["a"]);
    s.push_patch("/elsewhere/b.patch".to_string(), true).unwrap();
    s.push_patch("/p/c.patch".to_string(), true).unwrap();
    assert_eq!(s.get(1), "/elsewhere/b.patch");
    assert_eq!(s.file(1), "/elsewhere/b.patch");
    assert_eq!(s.file(2), "/p/c.patch");
    assert_eq!(s.series_content(), Err(SeriesError::OutsideDir(1)));
    assert_eq!(s.consume_patch(), Some("/p/a".to_string()));
    assert_eq!(s.consume_patch(), Some("/elsewhere/b.patch".to_string()));
    assert_eq!(s.series_content(), Ok("c.patch\n".to_string()));
}

#[test]
fn saved_series_reloads_to_the_same_names() {
    let s = series(&["0001-a.patch", "sub/0002-b.patch"]);
    let entries = parse_series_entries(&s.series_content().unwrap());
    let listed: Vec<(String, bool)> = entries.into_iter().map(|e| (e, true)).collect();
    let again = PatchSeries::from_entries("/p".to_string(), &listed).unwrap();
    assert_eq!(again.len(), 2);
    assert_eq!(again.get(0), s.get(0));
    assert_eq!(again.get(1), s.get(1));
}
