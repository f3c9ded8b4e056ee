use rs_backup::entries::{get_directory_entries, DirectoryEntries, ListedEntry};

fn text(value: &str) -> String {
    String::from(value)
}

fn listed(path: Option<&str>, is_file: bool, is_dir: bool) -> ListedEntry {
    ListedEntry { path: path.map(String::from), is_file, is_dir }
}

#[test]
fn listing_is_split_into_files_and_directories() {
    let listing = vec![
        listed(Some("/s/a.txt"), true, false),
        listed(Some("/s/sub"), false, true),
        listed(Some("/s/b.txt"), true, false),
        listed(Some("/s/other"), false, true),
    ];
    let entries = get_directory_entries(&text("/s"), &listing);
    assert_eq!(entries.path, "/s");
    assert_eq!(entries.file_paths, vec![text("/s/a.txt"), text("/s/b.txt")]);
    assert_eq!(entries.directory_paths, vec![text("/s/sub"), text("/s/other")]);
}

#[test]
fn entry_without_text_path_is_skipped() {
    let listing = vec![
        listed(None, true, false),
        listed(Some("/s/a.txt"), true, false),
        listed(None, false, true),
    ];
    let entries = get_directory_entries(&text("/s"), &listing);
    assert_eq!(entries.file_paths, vec![text("/s/a.txt")]);
    assert!(entries.directory_paths.is_empty());
}

#[test]
fn entry_that_is_neither_is_left_out() {
    let listing = vec![listed(Some("/s/socket"), false, false)];
    let entries = get_directory_entries(&text("/s"), &listing);
    assert!(entries.file_paths.is_empty());
    assert!(entries.directory_paths.is_empty());
}

#[test]
fn entry_that_is_both_goes_to_both() {
    let listing = vec![listed(Some("/s/odd"), true, true)];
    let entries = get_directory_entries(&text("/s"), &listing);
    assert_eq!(entries.file_paths, vec![text("/s/odd")]);
    assert_eq!(entries.directory_paths, vec![text("/s/odd")]);
}

#[test]
fn empty_listing_gives_empty_snapshot() {
    let entries = get_directory_entries(&text("/s"), &Vec::new());
    assert_eq!(entries, DirectoryEntries::empty(text("/s")));
    assert_eq!(entries.path, "/s");
    assert!(entries.file_paths.is_empty());
    assert!(entries.directory_paths.is_empty());
}
