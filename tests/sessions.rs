use flight_data::sessions::{file_stem, has_session_extension, is_session_file, list_sessions, DirectoryEntry};

fn file(name: &str, created: i128) -> DirectoryEntry {
    DirectoryEntry { name: Some(name.to_string()), is_file: true, created: Some(created) }
}

fn dir(name: &str, created: i128) -> DirectoryEntry {
    DirectoryEntry { name: Some(name.to_string()), is_file: false, created: Some(created) }
}

fn strings(v: &[&str]) -> Vec<String> {
    v.iter().map(|s| s.to_string()).collect()
}

#[test]
fn mixed_directory_lists_csv_newest_first() {
    let entries = vec![file("a.csv", 100), file("b.csv", 200), file("c.txt", 300), dir("d", 400)];
    assert_eq!(list_sessions(&entries, 1_000), strings(&["b", "a"]));
}

#[test]
fn directory_without_session_files_lists_nothing() {
    let entries = vec![file("notes.txt", 1), dir("logs", 2), file("image.png", 3), dir("x.csv", 4)];
    assert_eq!(list_sessions(&entries, 10), Vec::<String>::new());
}

#[test]
fn empty_directory_lists_nothing() {
    assert_eq!(list_sessions(&Vec::new(), 0), Vec::<String>::new());
}

#[test]
fn distinct_times_order_most_recent_first() {
    let entries = vec![
        file("mid.csv", 50),
        file("old.csv", -20),
        file("new.csv", 900),
        file("older.csv", -30),
    ];
    assert_eq!(list_sessions(&entries, 0), strings(&["new", "mid", "old", "older"]));
}

#[test]
fn listing_twice_gives_the_same_result() {
    let entries = vec![file("x.csv", 7), file("y.csv", 3), file("z.txt", 9)];
    let first = list_sessions(&entries, 100);
    let second = list_sessions(&entries, 5_000);
    assert_eq!(first, second);
    assert_eq!(first, strings(&["x", "y"]));
}

#[test]
fn extension_match_is_case_sensitive() {
    let entries = vec![file("data.CSV", 1), file("data.csv", 2), file("other.Csv", 3)];
    assert_eq!(list_sessions(&entries, 0), strings(&["data"]));
    assert!(!has_session_extension("data.CSV"));
    assert!(has_session_extension("data.csv"));
}

#[test]
fn file_without_extension_is_excluded() {
    let entries = vec![file("data", 1), file(".csv", 2), file("csv", 3), file("data.", 4)];
    assert_eq!(list_sessions(&entries, 0), Vec::<String>::new());
}

#[test]
fn unknown_creation_time_counts_as_now() {
    let unknown = DirectoryEntry { name: Some("fresh.csv".to_string()), is_file: true, created: None };
    let entries = vec![file("a.csv", 10), unknown, file("b.csv", 30)];
    assert_eq!(list_sessions(&entries, 20), strings(&["b", "fresh", "a"]));
    assert_eq!(list_sessions(&entries, 40), strings(&["fresh", "b", "a"]));
}

#[test]
fn equal_times_list_later_entry_first() {
    let entries = vec![file("first.csv", 5), file("second.csv", 5), file("third.csv", 5)];
    assert_eq!(list_sessions(&entries, 0), strings(&["third", "second", "first"]));
}

#[test]
fn undecodable_name_is_dropped() {
    let entries = vec![DirectoryEntry { name: None, is_file: true, created: Some(3) }, file("ok.csv", 1)];
    assert_eq!(list_sessions(&entries, 0), strings(&["ok"]));
    assert!(!is_session_file(&entries[0]));
}

#[test]
fn stem_drops_only_the_last_extension() {
    assert_eq!(file_stem("flight.2024.csv"), "flight.2024");
    assert_eq!(list_sessions(&vec![file("run.1.csv", 1)], 0), strings(&["run.1"]));
}

#[test]
fn stem_of_names_without_extension() {
    assert_eq!(file_stem("data"), "data");
    assert_eq!(file_stem(".hidden"), ".hidden");
    assert_eq!(file_stem(".."), "..");
    assert_eq!(file_stem("trail."), "trail");
    assert_eq!(file_stem("vol\u{e9}.csv"), "vol\u{e9}");
}

#[test]
fn directory_named_like_session_is_excluded() {
    assert!(!is_session_file(&dir("run.csv", 1)));
    assert!(is_session_file(&file("run.csv", 1)));
}
