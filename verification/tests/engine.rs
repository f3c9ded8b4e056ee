use rs_backup::entries::DirectoryEntries;
use rs_backup::executer::{contains_path, BackUpExecuter};
use rs_backup::protocol::{MirrorError, Request, Response};
use rs_backup::timestamp::Timestamp;

fn text(value: &str) -> String {
    String::from(value)
}

fn texts(values: &[&str]) -> Vec<String> {
    values.iter().map(|value| String::from(*value)).collect()
}

fn entries(path: &str, files: &[&str], directories: &[&str]) -> Response {
    Response::Entries(DirectoryEntries {
        path: text(path),
        file_paths: texts(files),
        directory_paths: texts(directories),
    })
}

fn at(seconds: i64) -> Timestamp {
    Timestamp { seconds, nanoseconds: 0 }
}

fn scan(path: &str) -> Request {
    Request::ScanDirectory { path: text(path) }
}

fn probe(path: &str) -> Request {
    Request::Exists { path: text(path) }
}

fn copy(source: &str, destination: &str) -> Request {
    Request::CopyFile { source: text(source), destination: text(destination) }
}

fn stamp(source: &str, destination: &str) -> Request {
    Request::SetModifiedTime { source: text(source), destination: text(destination) }
}

fn started() -> BackUpExecuter {
    let mut executer = BackUpExecuter::new();
    let first = executer.execute(&text("/data/src"), &text("/data/dst"));
    assert_eq!(first, scan("/data/src"));
    executer
}

/// An engine that has listed a root with the given files and awaits the
/// answer on whether the destination directory exists.
fn at_directory(files: &[&str]) -> BackUpExecuter {
    let mut executer = started();
    let request = executer.resume(entries("/data/src", files, &[]));
    assert_eq!(request, probe("/data/dst/src"));
    executer
}

/// An engine that awaits the answer on whether the destination of the one
/// file `/data/src/a.txt` exists.
fn at_file_probe() -> BackUpExecuter {
    let mut executer = at_directory(&["/data/src/a.txt"]);
    assert_eq!(
        executer.resume(Response::Exists(false)),
        Request::CreateDirectories { path: text("/data/dst/src") }
    );
    assert_eq!(executer.resume(Response::Done), probe("/data/dst/src/a.txt"));
    executer
}

#[test]
fn execute_asks_for_the_source_root() {
    let mut executer = BackUpExecuter::new();
    assert!(!executer.is_running());
    let first = executer.execute(&text("/data/src"), &text("/data/dst"));
    assert_eq!(first, scan("/data/src"));
    assert!(executer.is_running());
    assert!(!first.is_final());
}

#[test]
fn resume_without_a_run_is_refused() {
    let mut executer = BackUpExecuter::new();
    assert_eq!(executer.resume(Response::Done), Request::Failed(MirrorError::NotRunning));
    assert!(!executer.is_running());
}

#[test]
fn empty_root_with_missing_destination_is_created_and_done() {
    let mut executer = at_directory(&[]);
    assert_eq!(
        executer.resume(Response::Exists(false)),
        Request::CreateDirectories { path: text("/data/dst/src") }
    );
    let last = executer.resume(Response::Done);
    assert_eq!(last, Request::Finished);
    assert!(last.is_final());
    assert!(!executer.is_running());
}

#[test]
fn resume_after_the_end_is_refused() {
    let mut executer = at_directory(&[]);
    executer.resume(Response::Exists(false));
    assert_eq!(executer.resume(Response::Done), Request::Finished);
    assert_eq!(executer.resume(Response::Done), Request::Failed(MirrorError::NotRunning));
}

#[test]
fn subdirectories_are_listed_before_the_directory_is_reconciled() {
    let mut executer = started();
    assert_eq!(
        executer.resume(entries("/data/src", &[], &["/data/src/x", "/data/src/y"])),
        scan("/data/src/x")
    );
    assert_eq!(executer.resume(entries("/data/src/x", &[], &[])), scan("/data/src/y"));
    assert_eq!(executer.resume(entries("/data/src/y", &[], &[])), probe("/data/dst/src"));
}

#[test]
fn directories_are_taken_first_come_first() {
    let mut executer = started();
    executer.resume(entries("/data/src", &[], &["/data/src/x", "/data/src/y"]));
    executer.resume(entries("/data/src/x", &[], &["/data/src/x/deep"]));
    assert_eq!(executer.resume(entries("/data/src/y", &[], &[])), probe("/data/dst/src"));
    executer.resume(Response::Exists(false));
    // The root is done: x has waited longest, and its subdirectory is listed first.
    assert_eq!(executer.resume(Response::Done), scan("/data/src/x/deep"));
    assert_eq!(executer.resume(entries("/data/src/x/deep", &[], &[])), probe("/data/dst/src/x"));
    executer.resume(Response::Exists(false));
    assert_eq!(executer.resume(Response::Done), probe("/data/dst/src/y"));
    executer.resume(Response::Exists(false));
    assert_eq!(executer.resume(Response::Done), probe("/data/dst/src/x/deep"));
    executer.resume(Response::Exists(false));
    assert_eq!(executer.resume(Response::Done), Request::Finished);
}

#[test]
fn existing_destination_is_listed_and_pruned() {
    let mut executer = at_directory(&["/data/src/a.txt"]);
    assert_eq!(executer.resume(Response::Exists(true)), scan("/data/dst/src"));
    let listing = entries(
        "/data/dst/src",
        &["/data/dst/src/stale.txt", "/data/dst/src/a.txt", "/data/dst/src/old.txt"],
        &[],
    );
    assert_eq!(
        executer.resume(listing),
        Request::RemoveFile { path: text("/data/dst/src/stale.txt") }
    );
    assert_eq!(
        executer.resume(Response::Done),
        Request::RemoveFile { path: text("/data/dst/src/old.txt") }
    );
    assert_eq!(executer.resume(Response::Done), probe("/data/dst/src/a.txt"));
}

#[test]
fn destination_without_extraneous_files_goes_on_to_the_files() {
    let mut executer = at_directory(&["/data/src/a.txt"]);
    executer.resume(Response::Exists(true));
    let listing = entries("/data/dst/src", &["/data/dst/src/a.txt"], &["/data/dst/src/keep"]);
    assert_eq!(executer.resume(listing), probe("/data/dst/src/a.txt"));
}

#[test]
fn find_extraneous_keeps_the_order_of_the_listing() {
    let mut executer = at_directory(&["/data/src/a.txt", "/data/src/b.txt"]);
    executer.resume(Response::Exists(true));
    let found = executer.find_extraneous(&texts(&[
        "/data/dst/src/z.txt",
        "/data/dst/src/b.txt",
        "/data/dst/src/y.txt",
        "/data/dst/src/a.txt",
    ]));
    assert_eq!(found, Some(texts(&["/data/dst/src/z.txt", "/data/dst/src/y.txt"])));
}

#[test]
fn find_extraneous_refuses_a_path_not_below_the_destination() {
    let mut executer = at_directory(&["/data/src/a.txt"]);
    executer.resume(Response::Exists(true));
    assert_eq!(executer.find_extraneous(&texts(&["/data/dst/src/a.txt", "/data/dst"])), None);
    assert_eq!(executer.find_extraneous(&texts(&[])), Some(Vec::new()));
}

#[test]
fn missing_destination_file_is_copied_and_stamped() {
    let mut executer = at_file_probe();
    assert_eq!(
        executer.resume(Response::Exists(false)),
        copy("/data/src/a.txt", "/data/dst/src/a.txt")
    );
    assert_eq!(executer.resume(Response::Done), stamp("/data/src/a.txt", "/data/dst/src/a.txt"));
    assert_eq!(executer.resume(Response::Done), Request::Finished);
}

#[test]
fn existing_destination_file_has_its_times_read() {
    let mut executer = at_file_probe();
    assert_eq!(
        executer.resume(Response::Exists(true)),
        Request::ReadTimes {
            source: text("/data/src/a.txt"),
            destination: text("/data/dst/src/a.txt")
        }
    );
}

#[test]
fn newer_source_is_copied() {
    let mut executer = at_file_probe();
    executer.resume(Response::Exists(true));
    assert_eq!(
        executer.resume(Response::Times { source: at(200), destination: at(100) }),
        copy("/data/src/a.txt", "/data/dst/src/a.txt")
    );
}

#[test]
fn source_of_equal_time_is_skipped() {
    let mut executer = at_file_probe();
    executer.resume(Response::Exists(true));
    assert_eq!(
        executer.resume(Response::Times { source: at(100), destination: at(100) }),
        Request::Finished
    );
}

#[test]
fn older_source_is_skipped() {
    let mut executer = at_file_probe();
    executer.resume(Response::Exists(true));
    assert_eq!(
        executer.resume(Response::Times { source: at(100), destination: at(150) }),
        Request::Finished
    );
}

#[test]
fn nanoseconds_make_a_source_newer() {
    let mut executer = at_file_probe();
    executer.resume(Response::Exists(true));
    let source = Timestamp { seconds: 100, nanoseconds: 1 };
    assert_eq!(
        executer.resume(Response::Times { source, destination: at(100) }),
        copy("/data/src/a.txt", "/data/dst/src/a.txt")
    );
}

#[test]
fn files_are_taken_in_the_order_of_the_listing() {
    let mut executer = at_directory(&["/data/src/b.txt", "/data/src/a.txt"]);
    executer.resume(Response::Exists(false));
    assert_eq!(executer.resume(Response::Done), probe("/data/dst/src/b.txt"));
    executer.resume(Response::Exists(false));
    executer.resume(Response::Done);
    assert_eq!(executer.resume(Response::Done), probe("/data/dst/src/a.txt"));
}

#[test]
fn failed_root_scan_gives_scan_failed() {
    let mut executer = started();
    assert_eq!(executer.resume(Response::Failed), Request::Failed(MirrorError::ScanFailed));
    assert!(!executer.is_running());
}

#[test]
fn failed_subdirectory_scan_gives_scan_failed() {
    let mut executer = started();
    executer.resume(entries("/data/src", &[], &["/data/src/x"]));
    assert_eq!(executer.resume(Response::Failed), Request::Failed(MirrorError::ScanFailed));
}

#[test]
fn failed_destination_scan_gives_scan_failed() {
    let mut executer = at_directory(&[]);
    executer.resume(Response::Exists(true));
    assert_eq!(executer.resume(Response::Failed), Request::Failed(MirrorError::ScanFailed));
}

#[test]
fn failed_creation_gives_create_failed() {
    let mut executer = at_directory(&[]);
    executer.resume(Response::Exists(false));
    assert_eq!(executer.resume(Response::Failed), Request::Failed(MirrorError::CreateFailed));
}

#[test]
fn failed_removal_gives_remove_failed() {
    let mut executer = at_directory(&[]);
    executer.resume(Response::Exists(true));
    executer.resume(entries("/data/dst/src", &["/data/dst/src/stale.txt"], &[]));
    assert_eq!(executer.resume(Response::Failed), Request::Failed(MirrorError::RemoveFailed));
}

#[test]
fn failed_time_reading_gives_metadata_failed() {
    let mut executer = at_file_probe();
    executer.resume(Response::Exists(true));
    assert_eq!(executer.resume(Response::Failed), Request::Failed(MirrorError::MetadataFailed));
}

#[test]
fn failed_copy_gives_copy_failed() {
    let mut executer = at_file_probe();
    executer.resume(Response::Exists(false));
    assert_eq!(executer.resume(Response::Failed), Request::Failed(MirrorError::CopyFailed));
}

#[test]
fn failed_time_setting_gives_metadata_failed() {
    let mut executer = at_file_probe();
    executer.resume(Response::Exists(false));
    executer.resume(Response::Done);
    assert_eq!(executer.resume(Response::Failed), Request::Failed(MirrorError::MetadataFailed));
}

#[test]
fn response_of_the_wrong_kind_gives_unexpected_response() {
    let mut executer = started();
    assert_eq!(
        executer.resume(Response::Exists(true)),
        Request::Failed(MirrorError::UnexpectedResponse)
    );
    let mut executer = at_directory(&[]);
    assert_eq!(executer.resume(Response::Done), Request::Failed(MirrorError::UnexpectedResponse));
    let mut executer = at_directory(&[]);
    assert_eq!(
        executer.resume(Response::Failed),
        Request::Failed(MirrorError::UnexpectedResponse)
    );
    let mut executer = at_file_probe();
    assert_eq!(
        executer.resume(entries("/data/src", &[], &[])),
        Request::Failed(MirrorError::UnexpectedResponse)
    );
}

#[test]
fn directory_too_short_for_the_frame_gives_path_outside_frame() {
    let mut executer = started();
    assert_eq!(
        executer.resume(entries("/data", &[], &[])),
        Request::Failed(MirrorError::PathOutsideFrame)
    );
}

#[test]
fn file_too_short_for_the_frame_gives_path_outside_frame() {
    let mut executer = at_directory(&["/x"]);
    executer.resume(Response::Exists(false));
    assert_eq!(executer.resume(Response::Done), Request::Failed(MirrorError::PathOutsideFrame));
}

#[test]
fn destination_file_not_below_the_root_gives_path_outside_frame() {
    let mut executer = at_directory(&[]);
    executer.resume(Response::Exists(true));
    assert_eq!(
        executer.resume(entries("/data/dst/src", &["/data/dst"], &[])),
        Request::Failed(MirrorError::PathOutsideFrame)
    );
}

#[test]
fn execute_abandons_a_run_under_way() {
    let mut executer = at_file_probe();
    let first = executer.execute(&text("/home/a"), &text("/home/b"));
    assert_eq!(first, scan("/home/a"));
    assert_eq!(executer.resume(entries("/home/a", &[], &[])), probe("/home/b/a"));
}

#[test]
fn initialize_abandons_a_run_under_way() {
    let mut executer = at_file_probe();
    executer.initialize(&text("/home/a"), &text("/home/b"));
    assert!(!executer.is_running());
    assert_eq!(executer.resume(Response::Done), Request::Failed(MirrorError::NotRunning));
}

#[test]
fn destination_and_source_paths_correspond() {
    let executer = started();
    let placed = executer.destination_of(&text("/data/src/sub/b.txt"));
    assert_eq!(placed, "/data/dst/src/sub/b.txt");
    assert_eq!(executer.source_of(&placed), "/data/src/sub/b.txt");
}

#[test]
fn roots_that_share_part_of_a_name_keep_the_whole_name() {
    let mut executer = BackUpExecuter::new();
    executer.execute(&text("/a/src"), &text("/a/sink"));
    let placed = executer.destination_of(&text("/a/src/x.txt"));
    assert_eq!(placed, "/a/sink/src/x.txt");
    assert_eq!(executer.source_of(&placed), "/a/src/x.txt");
}

#[test]
fn contains_path_compares_whole_paths() {
    let paths = texts(&["/s/a.txt", "/s/b.txt"]);
    assert!(contains_path(&paths, &text("/s/b.txt")));
    assert!(!contains_path(&paths, &text("/s/b")));
    assert!(!contains_path(&Vec::new(), &text("/s/b.txt")));
}

#[test]
fn destination_that_extends_the_source_name_is_told_apart() {
    let mut executer = BackUpExecuter::new();
    executer.execute(&text("/home/docs"), &text("/home/docs.old"));
    let placed = executer.destination_of(&text("/home/docs/x.txt"));
    assert_eq!(placed, "/home/docs.old/docs/x.txt");
    assert_eq!(executer.source_of(&placed), "/home/docs/x.txt");
}

#[test]
fn roots_in_different_trees_keep_the_whole_source_path() {
    let mut executer = BackUpExecuter::new();
    executer.execute(&text("/home/me"), &text("/mnt/copy"));
    let placed = executer.destination_of(&text("/home/me/notes.txt"));
    assert_eq!(placed, "/mnt/copy/home/me/notes.txt");
    assert_eq!(executer.source_of(&placed), "/home/me/notes.txt");
}

#[test]
fn relative_roots_without_common_start_lose_a_character() {
    let mut executer = BackUpExecuter::new();
    executer.execute(&text("src"), &text("dst"));
    assert_eq!(executer.get_common_removed_path(&text("src/a.txt")), "rc/a.txt");
    assert_eq!(executer.destination_of(&text("src/a.txt")), "dst/rc/a.txt");
}
