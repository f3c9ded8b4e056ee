use rs_backup::entries::{get_directory_entries, ListedEntry};
use rs_backup::executer::BackUpExecuter;
use rs_backup::protocol::{MirrorError, Request, Response};
use rs_backup::timestamp::Timestamp;
use std::collections::BTreeMap;

/// The modification time that the tree gives to a file when it is written.
const NOW: i64 = 1_000_000;

#[derive(Clone, Debug, PartialEq)]
enum Node {
    Directory,
    File { content: String, modified: Timestamp },
}

/// A file system in memory that answers the engine's requests.
#[derive(Clone, Debug, PartialEq)]
struct Tree {
    nodes: BTreeMap<String, Node>,
    unreadable: Vec<String>,
    copies: usize,
    removals: usize,
    scanned: Vec<String>,
    changed: Vec<String>,
}

fn at(seconds: i64) -> Timestamp {
    Timestamp { seconds, nanoseconds: 0 }
}

fn parent(path: &str) -> &str {
    match path.rfind('/') {
        Some(0) => "/",
        Some(index) => &path[..index],
        None => "",
    }
}

impl Tree {
    fn new() -> Tree {
        let mut nodes = BTreeMap::new();
        nodes.insert(String::from("/"), Node::Directory);
        Tree {
            nodes,
            unreadable: Vec::new(),
            copies: 0,
            removals: 0,
            scanned: Vec::new(),
            changed: Vec::new(),
        }
    }

    fn directory(mut self, path: &str) -> Tree {
        self.create_directories(path);
        self
    }

    fn file(mut self, path: &str, content: &str, seconds: i64) -> Tree {
        self.create_directories(parent(path));
        self.nodes.insert(
            String::from(path),
            Node::File { content: String::from(content), modified: at(seconds) },
        );
        self
    }

    fn locked(mut self, path: &str) -> Tree {
        self.unreadable.push(String::from(path));
        self
    }

    fn create_directories(&mut self, path: &str) -> bool {
        let mut current = path;
        let mut missing = Vec::new();
        while !current.is_empty() && current != "/" {
            match self.nodes.get(current) {
                Some(Node::Directory) => break,
                Some(_) => return false,
                None => missing.push(String::from(current)),
            }
            current = parent(current);
        }
        for directory in missing {
            self.nodes.insert(directory, Node::Directory);
        }
        true
    }

    fn content(&self, path: &str) -> Option<(String, i64)> {
        match self.nodes.get(path) {
            Some(Node::File { content, modified }) => Some((content.clone(), modified.seconds)),
            _ => None,
        }
    }

    fn is_directory(&self, path: &str) -> bool {
        self.nodes.get(path) == Some(&Node::Directory)
    }

    fn modified(&self, path: &str) -> Option<Timestamp> {
        match self.nodes.get(path) {
            Some(Node::File { modified, .. }) => Some(*modified),
            _ => None,
        }
    }

    fn scan(&self, path: &str) -> Response {
        if self.unreadable.iter().any(|locked| locked == path) || !self.is_directory(path) {
            return Response::Failed;
        }
        let mut listing = Vec::new();
        for (child, node) in &self.nodes {
            if child != "/" && parent(child) == path {
                listing.push(ListedEntry {
                    path: Some(child.clone()),
                    is_file: *node != Node::Directory,
                    is_dir: *node == Node::Directory,
                });
            }
        }
        Response::Entries(get_directory_entries(&String::from(path), &listing))
    }

    fn answer(&mut self, request: &Request) -> Response {
        match request {
            Request::ScanDirectory { path } => self.scanned.push(path.clone()),
            Request::CreateDirectories { path } | Request::RemoveFile { path } => {
                self.changed.push(path.clone())
            }
            Request::CopyFile { destination, .. }
            | Request::SetModifiedTime { destination, .. } => self.changed.push(destination.clone()),
            _ => {}
        }
        match request {
            Request::ScanDirectory { path } => self.scan(path),
            Request::Exists { path } => Response::Exists(self.nodes.contains_key(path)),
            Request::CreateDirectories { path } => {
                if self.create_directories(path) {
                    Response::Done
                } else {
                    Response::Failed
                }
            }
            Request::RemoveFile { path } => match self.nodes.get(path) {
                Some(Node::File { .. }) => {
                    self.nodes.remove(path);
                    self.removals += 1;
                    Response::Done
                }
                _ => Response::Failed,
            },
            Request::ReadTimes { source, destination } => {
                match (self.modified(source), self.modified(destination)) {
                    (Some(source), Some(destination)) => Response::Times { source, destination },
                    _ => Response::Failed,
                }
            }
            Request::CopyFile { source, destination } => {
                if self.is_directory(destination) || !self.is_directory(parent(destination)) {
                    return Response::Failed;
                }
                match self.content(source) {
                    Some((content, _)) => {
                        self.nodes.insert(
                            destination.clone(),
                            Node::File { content, modified: at(NOW) },
                        );
                        self.copies += 1;
                        Response::Done
                    }
                    None => Response::Failed,
                }
            }
            Request::SetModifiedTime { source, destination } => {
                match (self.modified(source), self.nodes.get_mut(destination)) {
                    (Some(time), Some(Node::File { modified, .. })) => {
                        *modified = time;
                        Response::Done
                    }
                    _ => Response::Failed,
                }
            }
            Request::Finished | Request::Failed(_) => unreachable!(),
        }
    }

    /// Runs the engine on this tree until its request is final.
    fn mirror(&mut self, source: &str, destination: &str) -> Request {
        let mut executer = BackUpExecuter::new();
        let mut request = executer.execute(&String::from(source), &String::from(destination));
        while !request.is_final() {
            let response = self.answer(&request);
            request = executer.resume(response);
        }
        assert!(!executer.is_running());
        request
    }
}

const SOURCE: &str = "/data/src";
const DESTINATION: &str = "/data/dst";

#[test]
fn mirrors_a_tree_into_an_empty_destination() {
    let mut tree = Tree::new()
        .file("/data/src/a.txt", "hello", 100)
        .file("/data/src/sub/b.txt", "world", 200)
        .directory("/data/dst");
    assert_eq!(tree.mirror(SOURCE, DESTINATION), Request::Finished);
    assert_eq!(tree.content("/data/dst/src/a.txt"), Some((String::from("hello"), 100)));
    assert_eq!(tree.content("/data/dst/src/sub/b.txt"), Some((String::from("world"), 200)));
    assert_eq!(tree.copies, 2);
    assert_eq!(tree.removals, 0);
    // The source is as it was.
    assert_eq!(tree.content("/data/src/a.txt"), Some((String::from("hello"), 100)));
    assert_eq!(tree.content("/data/src/sub/b.txt"), Some((String::from("world"), 200)));
}

#[test]
fn mirrors_into_a_destination_root_that_is_missing() {
    let mut tree = Tree::new().file("/data/src/a.txt", "hello", 100);
    assert_eq!(tree.mirror(SOURCE, DESTINATION), Request::Finished);
    assert!(tree.is_directory("/data/dst"));
    assert_eq!(tree.content("/data/dst/src/a.txt"), Some((String::from("hello"), 100)));
}

#[test]
fn keeps_a_newer_destination_file_and_deletes_a_stale_one() {
    let mut tree = Tree::new()
        .file("/data/src/a.txt", "source", 100)
        .file("/data/dst/src/a.txt", "destination", 150)
        .file("/data/dst/src/stale.txt", "stale", 50);
    assert_eq!(tree.mirror(SOURCE, DESTINATION), Request::Finished);
    assert_eq!(tree.content("/data/dst/src/a.txt"), Some((String::from("destination"), 150)));
    assert_eq!(tree.content("/data/dst/src/stale.txt"), None);
    assert_eq!(tree.copies, 0);
    assert_eq!(tree.removals, 1);
}

#[test]
fn unreadable_subdirectory_fails_and_keeps_what_was_copied() {
    let mut tree = Tree::new()
        .file("/data/src/a.txt", "hello", 100)
        .file("/data/src/sub/b.txt", "world", 200)
        .directory("/data/src/sub/locked")
        .locked("/data/src/sub/locked")
        .directory("/data/dst");
    assert_eq!(tree.mirror(SOURCE, DESTINATION), Request::Failed(MirrorError::ScanFailed));
    assert_eq!(tree.content("/data/dst/src/a.txt"), Some((String::from("hello"), 100)));
    assert_eq!(tree.content("/data/dst/src/sub/b.txt"), None);
}

#[test]
fn unreadable_child_of_the_root_fails_before_any_copy() {
    let mut tree = Tree::new()
        .file("/data/src/a.txt", "hello", 100)
        .directory("/data/src/locked")
        .locked("/data/src/locked")
        .directory("/data/dst");
    assert_eq!(tree.mirror(SOURCE, DESTINATION), Request::Failed(MirrorError::ScanFailed));
    assert_eq!(tree.copies, 0);
    assert!(!tree.is_directory("/data/dst/src"));
}

#[test]
fn missing_source_root_fails() {
    let mut tree = Tree::new().directory("/data/dst");
    assert_eq!(tree.mirror(SOURCE, DESTINATION), Request::Failed(MirrorError::ScanFailed));
    assert_eq!(tree.nodes, Tree::new().directory("/data/dst").nodes);
}

#[test]
fn second_run_changes_nothing_and_copies_nothing() {
    let mut tree = Tree::new()
        .file("/data/src/a.txt", "hello", 100)
        .file("/data/src/sub/b.txt", "world", 200)
        .directory("/data/src/empty")
        .file("/data/dst/src/stale.txt", "stale", 50);
    assert_eq!(tree.mirror(SOURCE, DESTINATION), Request::Finished);
    assert_eq!(tree.copies, 2);
    assert_eq!(tree.removals, 1);
    let after_first = tree.clone();
    assert_eq!(tree.mirror(SOURCE, DESTINATION), Request::Finished);
    assert_eq!(tree.nodes, after_first.nodes);
    assert_eq!(tree.changed, after_first.changed);
    assert_eq!((tree.copies, tree.removals), (2, 1));
}

#[test]
fn every_source_file_arrives_with_content_and_time() {
    let mut tree = Tree::new()
        .file("/data/src/a.txt", "one", 10)
        .file("/data/src/b.txt", "two", 20)
        .file("/data/src/x/c.txt", "three", 30)
        .file("/data/src/x/y/d.txt", "four", 40)
        .file("/data/src/z/e.txt", "five", 50);
    assert_eq!(tree.mirror(SOURCE, DESTINATION), Request::Finished);
    assert_eq!(tree.content("/data/dst/src/a.txt"), Some((String::from("one"), 10)));
    assert_eq!(tree.content("/data/dst/src/b.txt"), Some((String::from("two"), 20)));
    assert_eq!(tree.content("/data/dst/src/x/c.txt"), Some((String::from("three"), 30)));
    assert_eq!(tree.content("/data/dst/src/x/y/d.txt"), Some((String::from("four"), 40)));
    assert_eq!(tree.content("/data/dst/src/z/e.txt"), Some((String::from("five"), 50)));
    assert_eq!(tree.copies, 5);
}

#[test]
fn extraneous_files_are_deleted_at_every_level() {
    let mut tree = Tree::new()
        .file("/data/src/a.txt", "one", 10)
        .file("/data/src/x/c.txt", "three", 30)
        .file("/data/dst/src/gone.txt", "old", 5)
        .file("/data/dst/src/x/gone.txt", "old", 5)
        .file("/data/dst/src/x/c.txt", "three", 30);
    assert_eq!(tree.mirror(SOURCE, DESTINATION), Request::Finished);
    assert_eq!(tree.content("/data/dst/src/gone.txt"), None);
    assert_eq!(tree.content("/data/dst/src/x/gone.txt"), None);
    assert_eq!(tree.content("/data/dst/src/x/c.txt"), Some((String::from("three"), 30)));
    assert_eq!(tree.removals, 2);
    assert_eq!(tree.copies, 1);
}

#[test]
fn files_in_directories_the_source_lacks_are_left() {
    let mut tree = Tree::new()
        .file("/data/src/a.txt", "one", 10)
        .file("/data/dst/src/only/here.txt", "kept", 5)
        .file("/data/dst/elsewhere.txt", "kept", 5);
    assert_eq!(tree.mirror(SOURCE, DESTINATION), Request::Finished);
    assert_eq!(tree.content("/data/dst/src/only/here.txt"), Some((String::from("kept"), 5)));
    assert_eq!(tree.content("/data/dst/elsewhere.txt"), Some((String::from("kept"), 5)));
    assert_eq!(tree.removals, 0);
}

#[test]
fn older_destination_file_is_overwritten() {
    let mut tree = Tree::new()
        .file("/data/src/a.txt", "new", 100)
        .file("/data/dst/src/a.txt", "old", 99);
    assert_eq!(tree.mirror(SOURCE, DESTINATION), Request::Finished);
    assert_eq!(tree.content("/data/dst/src/a.txt"), Some((String::from("new"), 100)));
    assert_eq!(tree.copies, 1);
}

#[test]
fn destination_file_of_equal_time_is_left_even_if_it_differs() {
    let mut tree = Tree::new()
        .file("/data/src/a.txt", "source", 100)
        .file("/data/dst/src/a.txt", "different", 100);
    assert_eq!(tree.mirror(SOURCE, DESTINATION), Request::Finished);
    assert_eq!(tree.content("/data/dst/src/a.txt"), Some((String::from("different"), 100)));
    assert_eq!(tree.copies, 0);
}

#[test]
fn empty_directories_are_created() {
    let mut tree = Tree::new()
        .directory("/data/src")
        .directory("/data/src/empty")
        .directory("/data/src/x/y/z");
    assert_eq!(tree.mirror(SOURCE, DESTINATION), Request::Finished);
    assert!(tree.is_directory("/data/dst/src"));
    assert!(tree.is_directory("/data/dst/src/empty"));
    assert!(tree.is_directory("/data/dst/src/x"));
    assert!(tree.is_directory("/data/dst/src/x/y"));
    assert!(tree.is_directory("/data/dst/src/x/y/z"));
    assert_eq!(tree.copies, 0);
}

#[test]
fn leftover_destination_directories_are_not_removed() {
    let mut tree = Tree::new().directory("/data/src").directory("/data/dst/src/leftover");
    assert_eq!(tree.mirror(SOURCE, DESTINATION), Request::Finished);
    assert!(tree.is_directory("/data/dst/src/leftover"));
}

#[test]
fn file_in_the_place_of_a_destination_directory_fails_the_scan() {
    let mut tree = Tree::new()
        .file("/data/src/a.txt", "one", 10)
        .file("/data/dst/src", "not a directory", 5);
    assert_eq!(tree.mirror(SOURCE, DESTINATION), Request::Failed(MirrorError::ScanFailed));
}

#[test]
fn directory_in_the_place_of_a_destination_file_fails() {
    let mut tree = Tree::new()
        .file("/data/src/a.txt", "one", 10)
        .directory("/data/dst/src/a.txt");
    assert_eq!(tree.mirror(SOURCE, DESTINATION), Request::Failed(MirrorError::MetadataFailed));
}

#[test]
fn unrelated_roots_fall_back_to_an_empty_frame() {
    let mut tree = Tree::new().file("/src/a.txt", "one", 10);
    assert_eq!(tree.mirror("/src", "/dst"), Request::Finished);
    // The frame is empty, so the logical path starts after the first character.
    assert_eq!(tree.content("/dst/src/a.txt"), Some((String::from("one"), 10)));
}

#[test]
fn second_run_in_an_empty_frame_is_quiet() {
    // The roots share the leading separator only, so their frame is empty.
    let mut tree = Tree::new()
        .file("/home/me/a.txt", "one", 10)
        .file("/mnt/copy/home/me/stale.txt", "old", 5);
    assert_eq!(tree.mirror("/home/me", "/mnt/copy"), Request::Finished);
    assert_eq!((tree.copies, tree.removals), (1, 1));
    assert_eq!(tree.mirror("/home/me", "/mnt/copy"), Request::Finished);
    assert_eq!((tree.copies, tree.removals), (1, 1));
    assert_eq!(tree.content("/mnt/copy/home/me/a.txt"), Some((String::from("one"), 10)));
    assert_eq!(tree.content("/mnt/copy/home/me/stale.txt"), None);
}

#[test]
fn newer_destination_file_is_kept_in_an_empty_frame() {
    let mut tree = Tree::new()
        .file("/src/a.txt", "source", 100)
        .file("/dst/src/a.txt", "destination", 150);
    assert_eq!(tree.mirror("/src", "/dst"), Request::Finished);
    assert_eq!(tree.content("/dst/src/a.txt"), Some((String::from("destination"), 150)));
    assert_eq!((tree.copies, tree.removals), (0, 0));
}

#[test]
fn newer_destination_file_is_replaced_where_the_roots_share_no_separator() {
    let mut tree = Tree::new()
        .file("src/a.txt", "source", 100)
        .file("dst/rc/a.txt", "destination", 150);
    assert_eq!(tree.mirror("src", "dst"), Request::Finished);
    assert_eq!(tree.content("dst/rc/a.txt"), Some((String::from("source"), 100)));
    assert_eq!((tree.copies, tree.removals), (1, 1));
}

#[test]
fn roots_that_share_no_separator_are_copied_again_on_a_second_run() {
    let mut tree = Tree::new().file("src/a.txt", "one", 10);
    assert_eq!(tree.mirror("src", "dst"), Request::Finished);
    assert_eq!(tree.content("dst/rc/a.txt"), Some((String::from("one"), 10)));
    assert_eq!(tree.mirror("src", "dst"), Request::Finished);
    assert_eq!((tree.copies, tree.removals), (2, 1));
}

#[test]
fn roots_that_part_inside_a_name_are_mirrored_like_any_others() {
    let mut tree = Tree::new()
        .file("/a/src/x.txt", "one", 10)
        .file("/a/sink/src/stale.txt", "old", 5);
    assert_eq!(tree.mirror("/a/src", "/a/sink"), Request::Finished);
    assert_eq!(tree.content("/a/sink/src/x.txt"), Some((String::from("one"), 10)));
    assert_eq!(tree.content("/a/sink/src/stale.txt"), None);
    assert_eq!(tree.mirror("/a/src", "/a/sink"), Request::Finished);
    assert_eq!((tree.copies, tree.removals), (1, 1));
}

#[test]
fn destination_named_after_the_source_is_mirrored_like_any_other() {
    let mut tree = Tree::new()
        .file("/home/docs/a.txt", "one", 10)
        .file("/home/docs/sub/b.txt", "two", 20)
        .file("/home/docs.old/docs/a.txt", "newer", 30);
    assert_eq!(tree.mirror("/home/docs", "/home/docs.old"), Request::Finished);
    assert_eq!(tree.content("/home/docs.old/docs/a.txt"), Some((String::from("newer"), 30)));
    assert_eq!(tree.content("/home/docs.old/docs/sub/b.txt"), Some((String::from("two"), 20)));
    assert_eq!(tree.content("/home/docs/a.txt"), Some((String::from("one"), 10)));
    assert_eq!(tree.mirror("/home/docs", "/home/docs.old"), Request::Finished);
    assert_eq!((tree.copies, tree.removals), (1, 0));
}

#[test]
fn third_run_is_as_quiet_as_the_second() {
    let mut tree = Tree::new()
        .file("/data/src/a.txt", "hello", 100)
        .file("/data/src/sub/b.txt", "world", 200)
        .file("/data/dst/src/a.txt", "newer", 300);
    assert_eq!(tree.mirror(SOURCE, DESTINATION), Request::Finished);
    let after_first = tree.clone();
    assert_eq!(tree.mirror(SOURCE, DESTINATION), Request::Finished);
    assert_eq!(tree.mirror(SOURCE, DESTINATION), Request::Finished);
    assert_eq!(tree.nodes, after_first.nodes);
    assert_eq!(tree.changed, after_first.changed);
    assert_eq!(tree.content("/data/dst/src/a.txt"), Some((String::from("newer"), 300)));
    assert_eq!(tree.copies, 1);
}

#[test]
fn every_source_directory_is_listed_once() {
    let mut tree = Tree::new()
        .file("/data/src/a.txt", "one", 10)
        .file("/data/src/x/c.txt", "three", 30)
        .file("/data/src/x/y/d.txt", "four", 40)
        .directory("/data/src/z")
        .directory("/data/dst/src/x");
    assert_eq!(tree.mirror(SOURCE, DESTINATION), Request::Finished);
    let mut scanned = tree.scanned.clone();
    scanned.sort();
    assert_eq!(
        scanned,
        vec![
            String::from("/data/dst/src"),
            String::from("/data/dst/src/x"),
            String::from("/data/src"),
            String::from("/data/src/x"),
            String::from("/data/src/x/y"),
            String::from("/data/src/z"),
        ]
    );
}

#[test]
fn every_change_lies_in_the_mirror_tree() {
    let mut tree = Tree::new()
        .file("/data/src/a.txt", "one", 10)
        .file("/data/src/x/c.txt", "three", 30)
        .file("/data/dst/src/stale.txt", "old", 5)
        .file("/data/dst/src/a.txt", "older", 5);
    assert_eq!(tree.mirror(SOURCE, DESTINATION), Request::Finished);
    assert_eq!(tree.changed.len(), 6);
    assert!(tree.changed.iter().all(|path| path.starts_with("/data/dst/src")));
    assert!(!tree.changed.iter().any(|path| path.starts_with("/data/src")));
}
