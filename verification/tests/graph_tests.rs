use jj_ryu::graph::{build_change_graph, build_segments_from_changes};
use jj_ryu::types::{Bookmark, LogEntry};

fn make_log_entry(commit_id: &str, change_id: &str, bookmarks: Vec<&str>) -> LogEntry {
    LogEntry {
        commit_id: commit_id.to_string(),
        change_id: change_id.to_string(),
        author_name: "Test".to_string(),
        author_email: "test@test.com".to_string(),
        description_first_line: format!("Commit {commit_id}"),
        parents: vec!["parent".to_string()],
        local_bookmarks: bookmarks.into_iter().map(String::from).collect(),
        remote_bookmarks: vec![],
        is_working_copy: false,
        authored_at: 1_700_000_000_000,
        committed_at: 1_700_000_000_000,
    }
}

fn make_bookmark(name: &str, commit_id: &str, change_id: &str) -> Bookmark {
    Bookmark {
        name: name.to_string(),
        commit_id: commit_id.to_string(),
        change_id: change_id.to_string(),
        has_remote: false,
        is_synced: false,
    }
}

#[test]
fn test_single_bookmark_segment() {
    // trunk <- commit1 (feat-a) <- commit2 (@), newest first
    let changes = vec![
        make_log_entry("commit2", "change2", vec![]),
        make_log_entry("commit1", "change1", vec!["feat-a"]),
    ];
    let bookmarks = vec![make_bookmark("feat-a", "commit1", "change1")];

    let (segments, by_name) = build_segments_from_changes(&changes, &bookmarks);

    assert_eq!(segments.len(), 1);
    assert_eq!(segments[0].bookmarks[0].name, "feat-a");
    assert_eq!(segments[0].changes.len(), 2);
    assert_eq!(by_name.len(), 1);
}

#[test]
fn test_two_bookmark_stack() {
    // trunk <- c1 (feat-a) <- c2 (feat-b) <- c3 (@), newest first
    let changes = vec![
        make_log_entry("c3", "ch3", vec![]),
        make_log_entry("c2", "ch2", vec!["feat-b"]),
        make_log_entry("c1", "ch1", vec!["feat-a"]),
    ];
    let bookmarks =
        vec![make_bookmark("feat-a", "c1", "ch1"), make_bookmark("feat-b", "c2", "ch2")];

    let (segments, _) = build_segments_from_changes(&changes, &bookmarks);

    assert_eq!(segments.len(), 2);
    assert_eq!(segments[0].bookmarks[0].name, "feat-a");
    assert_eq!(segments[1].bookmarks[0].name, "feat-b");
    assert_eq!(segments[0].changes.len(), 1);
    assert_eq!(segments[0].changes[0].commit_id, "c1");
    assert_eq!(segments[1].changes.len(), 2);
    assert_eq!(segments[1].changes[0].commit_id, "c3");
    assert_eq!(segments[1].changes[1].commit_id, "c2");
}

#[test]
fn test_graph_of_empty_range() {
    let bookmarks = vec![make_bookmark("feat-a", "c1", "ch1")];
    let graph = build_change_graph(&[], &bookmarks);
    assert!(graph.stack.is_none());
    assert!(graph.bookmarks.is_empty());
    assert_eq!(graph.excluded_bookmark_count, 0);
}

#[test]
fn test_graph_without_bookmarked_commit_has_no_stack() {
    let changes =
        vec![make_log_entry("c2", "ch2", vec![]), make_log_entry("c1", "ch1", vec![])];
    let bookmarks = vec![make_bookmark("elsewhere", "c9", "ch9")];
    let graph = build_change_graph(&changes, &bookmarks);
    assert!(graph.stack.is_none());
    assert_eq!(graph.excluded_bookmark_count, 0);
    assert!(graph.bookmarks.contains_key("elsewhere"));
}

#[test]
fn test_graph_with_merge_commit_is_excluded() {
    let mut merge = make_log_entry("c2", "ch2", vec!["feat-b"]);
    merge.parents = vec!["left".to_string(), "right".to_string()];
    let changes = vec![merge, make_log_entry("c1", "ch1", vec!["feat-a"])];
    let bookmarks =
        vec![make_bookmark("feat-a", "c1", "ch1"), make_bookmark("feat-b", "c2", "ch2")];
    let graph = build_change_graph(&changes, &bookmarks);
    assert!(graph.stack.is_none());
    assert_eq!(graph.excluded_bookmark_count, 1);
    assert!(graph.bookmarks.is_empty());
}

#[test]
fn test_graph_drops_commits_below_lowest_tip() {
    let changes = vec![
        make_log_entry("c3", "ch3", vec!["feat-a"]),
        make_log_entry("c2", "ch2", vec![]),
        make_log_entry("c1", "ch1", vec![]),
    ];
    let bookmarks = vec![make_bookmark("feat-a", "c3", "ch3")];
    let graph = build_change_graph(&changes, &bookmarks);
    let stack = graph.stack.unwrap();
    assert_eq!(stack.segments.len(), 1);
    assert_eq!(stack.segments[0].changes.len(), 1);
    assert_eq!(stack.segments[0].changes[0].commit_id, "c3");
}

#[test]
fn test_graph_passes_over_unknown_bookmark_names() {
    // "ghost" points at c2 but is no local bookmark: c2 closes no segment
    // and joins the segment of the next tip below.
    let changes = vec![
        make_log_entry("c3", "ch3", vec!["feat-b", "feat-b2"]),
        make_log_entry("c2", "ch2", vec!["ghost"]),
        make_log_entry("c1", "ch1", vec!["feat-a"]),
    ];
    let bookmarks = vec![
        make_bookmark("feat-a", "c1", "ch1"),
        make_bookmark("feat-b", "c3", "ch3"),
        make_bookmark("feat-b2", "c3", "ch3"),
    ];
    let graph = build_change_graph(&changes, &bookmarks);
    let stack = graph.stack.unwrap();
    assert_eq!(stack.segments.len(), 2);
    assert_eq!(stack.segments[0].bookmarks.len(), 1);
    assert_eq!(stack.segments[0].changes.len(), 2);
    assert_eq!(stack.segments[0].changes[0].commit_id, "c2");
    assert_eq!(stack.segments[0].changes[1].commit_id, "c1");
    assert_eq!(stack.segments[1].bookmarks.len(), 2);
    assert_eq!(stack.segments[1].bookmarks[0].name, "feat-b");
    assert_eq!(stack.segments[1].bookmarks[1].name, "feat-b2");
    assert_eq!(graph.bookmarks.len(), 3);
}
