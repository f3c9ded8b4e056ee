use rs_backup::executer::BackUpExecuter;
use rs_backup::path::{char_len, common_prefix, head_to, join_paths, shared_prefix, tail_from};

fn text(value: &str) -> String {
    String::from(value)
}

#[test]
fn shared_prefix_counts_matching_leading_characters() {
    assert_eq!(shared_prefix(&text("/data/src"), &text("/data/dst")), 6);
    assert_eq!(shared_prefix(&text("/data/src"), &text("/data/src")), 9);
    assert_eq!(shared_prefix(&text("/a/b"), &text("/a/bc")), 4);
    assert_eq!(shared_prefix(&text("src"), &text("dst")), 0);
    assert_eq!(shared_prefix(&text(""), &text("/data")), 0);
}

#[test]
fn shared_prefix_stops_at_first_difference() {
    assert_eq!(shared_prefix(&text("abXde"), &text("abYde")), 2);
}

#[test]
fn shared_prefix_counts_characters_not_bytes() {
    assert_eq!(shared_prefix(&text("/é/src"), &text("/é/dst")), 3);
    assert_eq!(char_len(&text("/é/src")), 6);
}

#[test]
fn common_path_ends_before_the_separator_at_which_the_roots_part() {
    assert_eq!(common_prefix(&text("/data/src"), &text("/data/dst")), "/data");
    assert_eq!(common_prefix(&text("data/src"), &text("data/dst")), "data");
    assert_eq!(common_prefix(&text("/a/b/c"), &text("/a/b/d")), "/a/b");
}

#[test]
fn common_path_is_cut_back_to_the_last_shared_separator() {
    assert_eq!(common_prefix(&text("/a/src"), &text("/a/sink")), "/a");
    assert_eq!(common_prefix(&text("/a/b"), &text("/a/bc")), "/a");
    assert_eq!(common_prefix(&text("/home/docs"), &text("/home/docs.old")), "/home");
    assert_eq!(common_prefix(&text("/a/b"), &text("/a/b/c")), "/a");
    assert_eq!(common_prefix(&text("/a/b"), &text("/a/b")), "/a");
}

#[test]
fn common_path_of_roots_without_shared_separator_is_empty() {
    assert_eq!(common_prefix(&text("src"), &text("dst")), "");
    assert_eq!(common_prefix(&text("src"), &text("sink")), "");
    assert_eq!(common_prefix(&text("C:/src"), &text("D:/dst")), "");
    assert_eq!(common_prefix(&text(""), &text("/data")), "");
}

#[test]
fn common_path_of_roots_that_share_the_leading_separator_only_is_empty() {
    assert_eq!(common_prefix(&text("/src"), &text("/dst")), "");
    assert_eq!(common_prefix(&text("/home/me"), &text("/mnt/copy")), "");
}

#[test]
fn common_path_keeps_whole_characters() {
    assert_eq!(common_prefix(&text("/é/src"), &text("/é/dst")), "/é");
}

#[test]
fn head_and_tail_split_a_text() {
    assert_eq!(head_to(&text("/data/src"), 5), "/data");
    assert_eq!(tail_from(&text("/data/src"), 6), "src");
    assert_eq!(head_to(&text("abc"), 0), "");
    assert_eq!(tail_from(&text("abc"), 3), "");
}

#[test]
fn join_puts_one_separator_between() {
    assert_eq!(join_paths(&text("/data/dst"), &text("src/a.txt")), "/data/dst/src/a.txt");
}

#[test]
fn join_adds_a_separator_after_a_separator_too() {
    assert_eq!(join_paths(&text("/data/"), &text("src")), "/data//src");
}

#[test]
fn join_of_empty_base_begins_with_a_separator() {
    assert_eq!(join_paths(&text(""), &text("src/a.txt")), "/src/a.txt");
}

#[test]
fn join_keeps_the_base_before_a_rest_that_begins_with_a_separator() {
    assert_eq!(join_paths(&text("/data/dst"), &text("/x")), "/data/dst//x");
}

#[test]
fn join_gives_back_what_was_stripped() {
    let path = text("/data/src/a.txt");
    let frame = head_to(&path, 5);
    let logical = tail_from(&path, 6);
    assert_eq!(join_paths(&frame, &logical), path);
}

#[test]
fn join_of_empty_rest_ends_in_separator() {
    assert_eq!(join_paths(&text("/data/dst"), &text("")), "/data/dst/");
}

#[test]
fn new_executer_has_empty_frame() {
    let executer = BackUpExecuter::new();
    assert!(!executer.is_running());
    assert_eq!(executer.get_common_added_path(&text("src/a.txt")), "/src/a.txt");
}

#[test]
fn initialize_computes_the_frame() {
    let mut executer = BackUpExecuter::new();
    executer.initialize(&text("/data/src"), &text("/data/dst"));
    assert!(!executer.is_running());
    assert_eq!(executer.get_common_added_path(&text("src/a.txt")), "/data/src/a.txt");
    assert_eq!(executer.get_common_removed_path(&text("/data/src/a.txt")), "src/a.txt");
}

#[test]
fn removed_path_of_shortest_input_is_empty() {
    let mut executer = BackUpExecuter::new();
    executer.initialize(&text("/data/src"), &text("/data/dst"));
    assert_eq!(executer.get_common_removed_path(&text("/data/")), "");
}

#[test]
fn added_and_removed_paths_are_inverse_in_the_frame() {
    let mut executer = BackUpExecuter::new();
    executer.initialize(&text("/data/src"), &text("/data/dst"));
    let path = text("/data/src/sub/b.txt");
    let logical = executer.get_common_removed_path(&path);
    assert_eq!(logical, "src/sub/b.txt");
    assert_eq!(executer.get_common_added_path(&logical), path);
}

#[test]
fn added_and_removed_paths_are_inverse_in_an_empty_frame() {
    let mut executer = BackUpExecuter::new();
    executer.initialize(&text("/home/me"), &text("/mnt/copy"));
    let path = text("/home/me/notes.txt");
    let logical = executer.get_common_removed_path(&path);
    assert_eq!(logical, "home/me/notes.txt");
    assert_eq!(executer.get_common_added_path(&logical), path);
}
