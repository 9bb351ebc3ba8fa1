use jj_ryu::name_map::NameMap;
use jj_ryu::submit::{
    analyze_submission, create_narrowed_segments, generate_pr_title, get_base_branch,
    has_temporary_marker, is_temporary_bookmark, select_bookmark_for_segment,
};
use jj_ryu::types::{
    Bookmark, BookmarkSegment, BranchStack, ChangeGraph, LogEntry, NarrowedBookmarkSegment,
};
use jj_ryu::Error;

fn make_bookmark(name: &str) -> Bookmark {
    Bookmark {
        name: name.to_string(),
        commit_id: format!("{name}_commit"),
        change_id: format!("{name}_change"),
        has_remote: false,
        is_synced: false,
    }
}

fn make_log_entry(desc: &str, bookmarks: &[&str]) -> LogEntry {
    LogEntry {
        commit_id: format!("{desc}_commit"),
        change_id: format!("{desc}_change"),
        author_name: "Test".to_string(),
        author_email: "test@example.com".to_string(),
        description_first_line: desc.to_string(),
        parents: vec![],
        local_bookmarks: bookmarks.iter().map(ToString::to_string).collect(),
        remote_bookmarks: vec![],
        is_working_copy: false,
        authored_at: 0,
        committed_at: 0,
    }
}

fn make_bookmark_with_ids(name: &str, commit_id: &str, change_id: &str) -> Bookmark {
    Bookmark {
        name: name.to_string(),
        commit_id: commit_id.to_string(),
        change_id: change_id.to_string(),
        has_remote: false,
        is_synced: false,
    }
}

fn make_log_entry_with_ids(
    desc: &str,
    commit_id: &str,
    change_id: &str,
    bookmarks: &[&str],
) -> LogEntry {
    LogEntry {
        commit_id: commit_id.to_string(),
        change_id: change_id.to_string(),
        author_name: "Test Author".to_string(),
        author_email: "test@example.com".to_string(),
        description_first_line: desc.to_string(),
        parents: vec![],
        local_bookmarks: bookmarks.iter().map(ToString::to_string).collect(),
        remote_bookmarks: vec![],
        is_working_copy: false,
        authored_at: 0,
        committed_at: 0,
    }
}

fn make_linear_stack(names: &[&str]) -> ChangeGraph {
    let mut bookmarks = NameMap::new();
    let mut segments = Vec::new();

    for name in names {
        let change_id = format!("{name}_change");
        let commit_id = format!("{name}_commit");

        let bm = make_bookmark_with_ids(name, &commit_id, &change_id);
        let log_entry = make_log_entry_with_ids(
            &format!("Commit for {name}"),
            &commit_id,
            &change_id,
            &[name],
        );

        bookmarks.insert(name.to_string(), bm.clone());

        segments.push(BookmarkSegment { bookmarks: vec![bm], changes: vec![log_entry] });
    }

    ChangeGraph { bookmarks, stack: Some(BranchStack { segments }), excluded_bookmark_count: 0 }
}

fn make_multi_bookmark_segment(names: &[&str]) -> ChangeGraph {
    let change_id = "shared_change".to_string();
    let commit_id = "shared_commit".to_string();

    let mut bookmarks = NameMap::new();
    for name in names {
        bookmarks.insert(name.to_string(), make_bookmark_with_ids(name, &commit_id, &change_id));
    }

    let log_entry = make_log_entry_with_ids("Shared commit", &commit_id, &change_id, names);

    let segment = BookmarkSegment {
        bookmarks: names
            .iter()
            .map(|n| make_bookmark_with_ids(n, &commit_id, &change_id))
            .collect(),
        changes: vec![log_entry],
    };

    ChangeGraph {
        bookmarks,
        stack: Some(BranchStack { segments: vec![segment] }),
        excluded_bookmark_count: 0,
    }
}

fn two_bookmark_graph() -> ChangeGraph {
    let bm1 = make_bookmark("feat-a");
    let bm2 = make_bookmark("feat-b");

    let stack = BranchStack {
        segments: vec![
            BookmarkSegment {
                bookmarks: vec![bm1.clone()],
                changes: vec![make_log_entry("First change", &["feat-a"])],
            },
            BookmarkSegment {
                bookmarks: vec![bm2.clone()],
                changes: vec![make_log_entry("Second change", &["feat-b"])],
            },
        ],
    };

    let mut bookmarks = NameMap::new();
    bookmarks.insert("feat-a".to_string(), bm1);
    bookmarks.insert("feat-b".to_string(), bm2);
    ChangeGraph { bookmarks, stack: Some(stack), excluded_bookmark_count: 0 }
}

#[test]
fn test_analyze_submission_finds_target() {
    let graph = two_bookmark_graph();

    let analysis = analyze_submission(&graph, Some("feat-b")).unwrap();
    assert_eq!(analysis.target_bookmark, "feat-b");
    assert_eq!(analysis.segments.len(), 2);
    assert_eq!(analysis.segments[0].bookmark.name, "feat-a");
    assert_eq!(analysis.segments[1].bookmark.name, "feat-b");
}

#[test]
fn test_analyze_submission_no_target_uses_leaf() {
    let graph = two_bookmark_graph();

    let analysis = analyze_submission(&graph, None).unwrap();
    assert_eq!(analysis.target_bookmark, "feat-b");
    assert_eq!(analysis.segments.len(), 2);
}

#[test]
fn test_analyze_submission_no_stack() {
    let graph = ChangeGraph::default();
    let result = analyze_submission(&graph, None);
    assert!(matches!(result, Err(Error::NoStack(_))));
}

#[test]
fn test_analyze_submission_bookmark_not_found() {
    let bm1 = make_bookmark("feat-a");

    let stack = BranchStack {
        segments: vec![BookmarkSegment {
            bookmarks: vec![bm1.clone()],
            changes: vec![make_log_entry("First change", &["feat-a"])],
        }],
    };

    let mut bookmarks = NameMap::new();
    bookmarks.insert("feat-a".to_string(), bm1);
    let graph = ChangeGraph { bookmarks, stack: Some(stack), excluded_bookmark_count: 0 };

    let result = analyze_submission(&graph, Some("nonexistent"));
    assert!(matches!(result, Err(Error::BookmarkNotFound(_))));
}

#[test]
fn test_get_base_branch_first() {
    let segments = vec![NarrowedBookmarkSegment { bookmark: make_bookmark("feat-a"), changes: vec![] }];

    let base = get_base_branch("feat-a", &segments, "main").unwrap();
    assert_eq!(base, "main");
}

#[test]
fn test_get_base_branch_stacked() {
    let segments = vec![
        NarrowedBookmarkSegment { bookmark: make_bookmark("feat-a"), changes: vec![] },
        NarrowedBookmarkSegment { bookmark: make_bookmark("feat-b"), changes: vec![] },
    ];

    let base = get_base_branch("feat-b", &segments, "main").unwrap();
    assert_eq!(base, "feat-a");
}

#[test]
fn test_get_base_branch_unknown_bookmark() {
    let segments = vec![NarrowedBookmarkSegment { bookmark: make_bookmark("feat-a"), changes: vec![] }];
    match get_base_branch("feat-z", &segments, "main") {
        Err(Error::BookmarkNotFound(name)) => assert_eq!(name, "feat-z"),
        other => panic!("Expected BookmarkNotFound error, got: {other:?}"),
    }
    match generate_pr_title("feat-z", &segments) {
        Err(Error::BookmarkNotFound(name)) => assert_eq!(name, "feat-z"),
        other => panic!("Expected BookmarkNotFound error, got: {other:?}"),
    }
}

#[test]
fn test_generate_pr_title() {
    let segments = vec![NarrowedBookmarkSegment {
        bookmark: make_bookmark("feat-a"),
        changes: vec![make_log_entry("Add cool feature", &["feat-a"])],
    }];

    let title = generate_pr_title("feat-a", &segments).unwrap();
    assert_eq!(title, "Add cool feature");
}

#[test]
fn test_generate_pr_title_empty_fallback() {
    let segments = vec![NarrowedBookmarkSegment {
        bookmark: make_bookmark("feat-a"),
        changes: vec![make_log_entry("", &["feat-a"])],
    }];

    let title = generate_pr_title("feat-a", &segments).unwrap();
    assert_eq!(title, "feat-a");
}

#[test]
fn test_generate_pr_title_without_changes() {
    let segments = vec![NarrowedBookmarkSegment { bookmark: make_bookmark("feat-a"), changes: vec![] }];
    assert_eq!(generate_pr_title("feat-a", &segments).unwrap(), "feat-a");
}

#[test]
fn test_generate_pr_title_uses_root_commit() {
    let segments = vec![NarrowedBookmarkSegment {
        bookmark: make_bookmark("feat-a"),
        changes: vec![
            make_log_entry("Fix typo in feature", &["feat-a"]),
            make_log_entry("Add tests for feature", &[]),
            make_log_entry("Implement cool feature", &[]),
        ],
    }];

    let title = generate_pr_title("feat-a", &segments).unwrap();
    assert_eq!(title, "Implement cool feature");
}

#[test]
fn test_select_bookmark_single() {
    let segment = BookmarkSegment { bookmarks: vec![make_bookmark("feat-a")], changes: vec![] };

    let selected = select_bookmark_for_segment(&segment, None);
    assert_eq!(selected.name, "feat-a");
}

#[test]
fn test_select_bookmark_prefers_target() {
    let segment = BookmarkSegment {
        bookmarks: vec![make_bookmark("feat-a"), make_bookmark("feat-b")],
        changes: vec![],
    };

    let selected = select_bookmark_for_segment(&segment, Some("feat-b"));
    assert_eq!(selected.name, "feat-b");
}

#[test]
fn test_select_bookmark_excludes_wip() {
    let segment = BookmarkSegment {
        bookmarks: vec![make_bookmark("feat-a-wip"), make_bookmark("feat-a")],
        changes: vec![],
    };

    let selected = select_bookmark_for_segment(&segment, None);
    assert_eq!(selected.name, "feat-a");
}

#[test]
fn test_select_bookmark_excludes_tmp() {
    let segment = BookmarkSegment {
        bookmarks: vec![make_bookmark("tmp-test"), make_bookmark("feature")],
        changes: vec![],
    };

    let selected = select_bookmark_for_segment(&segment, None);
    assert_eq!(selected.name, "feature");
}

#[test]
fn test_select_bookmark_excludes_backup() {
    let segment = BookmarkSegment {
        bookmarks: vec![make_bookmark("feat-backup"), make_bookmark("feat")],
        changes: vec![],
    };

    let selected = select_bookmark_for_segment(&segment, None);
    assert_eq!(selected.name, "feat");
}

#[test]
fn test_select_bookmark_excludes_old_suffix() {
    let segment = BookmarkSegment {
        bookmarks: vec![make_bookmark("feat-old"), make_bookmark("feat")],
        changes: vec![],
    };

    let selected = select_bookmark_for_segment(&segment, None);
    assert_eq!(selected.name, "feat");
}

#[test]
fn test_select_bookmark_prefers_shorter() {
    let segment = BookmarkSegment {
        bookmarks: vec![make_bookmark("feature-implementation"), make_bookmark("feat")],
        changes: vec![],
    };

    let selected = select_bookmark_for_segment(&segment, None);
    assert_eq!(selected.name, "feat");
}

#[test]
fn analysis_test_select_bookmark_alphabetical_tiebreaker() {
    let segment = BookmarkSegment {
        bookmarks: vec![make_bookmark("beta1"), make_bookmark("alpha")],
        changes: vec![],
    };

    let selected = select_bookmark_for_segment(&segment, None);
    assert_eq!(selected.name, "alpha");
}

#[test]
fn test_select_bookmark_prefers_shorter_over_alphabetical() {
    let segment = BookmarkSegment {
        bookmarks: vec![make_bookmark("alpha"), make_bookmark("beta")],
        changes: vec![],
    };

    let selected = select_bookmark_for_segment(&segment, None);
    assert_eq!(selected.name, "beta");
}

#[test]
fn test_select_bookmark_all_temporary_falls_back() {
    let segment = BookmarkSegment {
        bookmarks: vec![make_bookmark("wip-a"), make_bookmark("tmp-b")],
        changes: vec![],
    };

    let selected = select_bookmark_for_segment(&segment, None);
    assert_eq!(selected.name, "tmp-b");
}

#[test]
fn test_select_bookmark_temporary_target_wins() {
    // The requested target is taken even where it looks temporary.
    let segment = BookmarkSegment {
        bookmarks: vec![make_bookmark("feat"), make_bookmark("feat-wip")],
        changes: vec![],
    };
    assert_eq!(select_bookmark_for_segment(&segment, Some("feat-wip")).name, "feat-wip");
    // A target that is no candidate changes nothing.
    assert_eq!(select_bookmark_for_segment(&segment, Some("other")).name, "feat");
}

#[test]
fn test_select_bookmark_byte_order_and_length() {
    // Length counts bytes: "é" is two bytes long.
    let segment = BookmarkSegment {
        bookmarks: vec![make_bookmark("é"), make_bookmark("zz"), make_bookmark("ab")],
        changes: vec![],
    };
    assert_eq!(select_bookmark_for_segment(&segment, None).name, "ab");
    let segment = BookmarkSegment {
        bookmarks: vec![make_bookmark("B"), make_bookmark("a"), make_bookmark("A")],
        changes: vec![],
    };
    assert_eq!(select_bookmark_for_segment(&segment, None).name, "A");
}

#[test]
fn test_is_temporary_bookmark() {
    assert!(is_temporary_bookmark("feat-wip"));
    assert!(is_temporary_bookmark("WIP-feature"));
    assert!(is_temporary_bookmark("wip/test"));
    assert!(is_temporary_bookmark("tmp-test"));
    assert!(is_temporary_bookmark("temp-feature"));
    assert!(is_temporary_bookmark("my-backup"));
    assert!(is_temporary_bookmark("feat-old"));
    assert!(is_temporary_bookmark("feat_old"));

    assert!(!is_temporary_bookmark("feature"));
    assert!(!is_temporary_bookmark("my-feat"));
    assert!(!is_temporary_bookmark("gold-feature"));
}

#[test]
fn test_temporary_marker_on_lowercase_names() {
    assert!(has_temporary_marker("swipe"));
    assert!(has_temporary_marker("x_old"));
    assert!(has_temporary_marker("backup"));
    assert!(!has_temporary_marker("WIP"));
    assert!(!has_temporary_marker("old-feature"));
    assert!(!has_temporary_marker(""));
    assert!(is_temporary_bookmark("TeMp"));
    assert!(!is_temporary_bookmark("w-i-p"));
}

#[test]
fn test_create_narrowed_segments_pairs_by_position() {
    let graph = make_linear_stack(&["feat-a", "feat-b"]);
    let analysis = analyze_submission(&graph, None).unwrap();
    let resolved = vec![make_bookmark("other-a"), make_bookmark("other-b")];
    let segments = create_narrowed_segments(&resolved, &analysis).unwrap();
    assert_eq!(segments.len(), 2);
    assert_eq!(segments[0].bookmark.name, "other-a");
    assert_eq!(segments[0].changes[0].description_first_line, "Commit for feat-a");
    assert_eq!(segments[1].bookmark.name, "other-b");
    assert_eq!(segments[1].changes[0].description_first_line, "Commit for feat-b");

    let too_many = vec![make_bookmark("x"), make_bookmark("y"), make_bookmark("z")];
    match create_narrowed_segments(&too_many, &analysis) {
        Err(Error::Internal(message)) => assert_eq!(message, "No segment at index 2"),
        other => panic!("Expected Internal error, got: {other:?}"),
    }
}

#[test]
fn test_analyze_middle_of_stack() {
    let graph = make_linear_stack(&["feat-a", "feat-b", "feat-c"]);
    let result = analyze_submission(&graph, Some("feat-b")).unwrap();

    assert_eq!(result.target_bookmark, "feat-b");
    assert_eq!(result.segments.len(), 2);
    assert_eq!(result.segments[0].bookmark.name, "feat-a");
    assert_eq!(result.segments[1].bookmark.name, "feat-b");
}

#[test]
fn test_analyze_root_of_stack() {
    let graph = make_linear_stack(&["feat-a", "feat-b", "feat-c"]);
    let result = analyze_submission(&graph, Some("feat-a")).unwrap();

    assert_eq!(result.segments.len(), 1);
    assert_eq!(result.segments[0].bookmark.name, "feat-a");
}

#[test]
fn test_analyze_leaf_of_stack() {
    let graph = make_linear_stack(&["feat-a", "feat-b", "feat-c"]);
    let result = analyze_submission(&graph, Some("feat-c")).unwrap();

    assert_eq!(result.segments.len(), 3);
    assert_eq!(result.segments[2].bookmark.name, "feat-c");
}

#[test]
fn test_get_base_branch_three_level_stack() {
    let graph = make_linear_stack(&["feat-a", "feat-b", "feat-c"]);
    let analysis = analyze_submission(&graph, Some("feat-c")).unwrap();

    assert_eq!(get_base_branch("feat-a", &analysis.segments, "main").unwrap(), "main");
    assert_eq!(get_base_branch("feat-b", &analysis.segments, "main").unwrap(), "feat-a");
    assert_eq!(get_base_branch("feat-c", &analysis.segments, "main").unwrap(), "feat-b");
}

#[test]
fn test_generate_pr_title_uses_root_commit_description() {
    let graph = make_linear_stack(&["feat-a"]);
    let analysis = analyze_submission(&graph, Some("feat-a")).unwrap();

    let title = generate_pr_title("feat-a", &analysis.segments).unwrap();
    assert_eq!(title, "Commit for feat-a");
}

#[test]
fn test_analyze_nonexistent_bookmark_error_type() {
    let graph = make_linear_stack(&["feat-a", "feat-b"]);
    let result = analyze_submission(&graph, Some("nonexistent"));

    match result {
        Err(Error::BookmarkNotFound(name)) => assert_eq!(name, "nonexistent"),
        other => panic!("Expected BookmarkNotFound error, got: {other:?}"),
    }
}

#[test]
fn test_analyze_multi_bookmark_segment_selects_target() {
    let graph = make_multi_bookmark_segment(&["feat-a", "feat-b"]);
    let analysis = analyze_submission(&graph, Some("feat-b")).unwrap();

    assert_eq!(analysis.segments.len(), 1);
    assert_eq!(analysis.segments[0].bookmark.name, "feat-b");
}

#[test]
fn test_select_bookmark_prefers_shorter_name() {
    let graph = make_multi_bookmark_segment(&["feature-auth", "auth"]);
    let segment = &graph.stack.as_ref().unwrap().segments[0];
    let selected = select_bookmark_for_segment(segment, None);
    assert_eq!(selected.name, "auth");
}

#[test]
fn test_select_bookmark_filters_temporary() {
    let graph = make_multi_bookmark_segment(&["wip-feature", "feature"]);
    let segment = &graph.stack.as_ref().unwrap().segments[0];
    let selected = select_bookmark_for_segment(segment, None);
    assert_eq!(selected.name, "feature");
}

#[test]
fn test_select_bookmark_filters_temp_suffix() {
    let graph = make_multi_bookmark_segment(&["auth-old", "auth"]);
    let segment = &graph.stack.as_ref().unwrap().segments[0];
    let selected = select_bookmark_for_segment(segment, None);
    assert_eq!(selected.name, "auth");
}

#[test]
fn test_select_bookmark_all_temporary_uses_shortest() {
    let graph = make_multi_bookmark_segment(&["wip-auth-feature", "tmp-auth"]);
    let segment = &graph.stack.as_ref().unwrap().segments[0];
    let selected = select_bookmark_for_segment(segment, None);
    assert_eq!(selected.name, "tmp-auth");
}

#[test]
fn unit_tests_test_select_bookmark_alphabetical_tiebreaker() {
    let graph = make_multi_bookmark_segment(&["bbb", "aaa"]);
    let segment = &graph.stack.as_ref().unwrap().segments[0];
    let selected = select_bookmark_for_segment(segment, None);
    assert_eq!(selected.name, "aaa");
}

#[test]
fn test_select_bookmark_single_returns_it() {
    let graph = make_linear_stack(&["solo"]);
    let segment = &graph.stack.as_ref().unwrap().segments[0];
    let selected = select_bookmark_for_segment(segment, None);
    assert_eq!(selected.name, "solo");
}

#[test]
fn test_analyze_10_level_deep_stack() {
    let names: Vec<String> = (0..10).map(|i| format!("feat-{i}")).collect();
    let name_refs: Vec<&str> = names.iter().map(String::as_str).collect();
    let graph = make_linear_stack(&name_refs);
    let analysis = analyze_submission(&graph, Some("feat-9")).unwrap();

    assert_eq!(analysis.segments.len(), 10);
    assert_eq!(analysis.segments[0].bookmark.name, "feat-0");
    assert_eq!(analysis.segments[9].bookmark.name, "feat-9");
}

#[test]
fn test_analyze_renames_target_to_chosen_bookmark() {
    // The leaf has two candidates; without a target the shorter one is
    // chosen and becomes the target of the analysis.
    let mut graph = make_linear_stack(&["feat-a"]);
    graph.stack.as_mut().unwrap().segments.push(BookmarkSegment {
        bookmarks: vec![make_bookmark("feature-b"), make_bookmark("b")],
        changes: vec![make_log_entry("Leaf", &["feature-b", "b"])],
    });
    let analysis = analyze_submission(&graph, None).unwrap();
    assert_eq!(analysis.target_bookmark, "b");
    assert_eq!(analysis.segments.len(), 2);
    let analysis = analyze_submission(&graph, Some("feature-b")).unwrap();
    assert_eq!(analysis.target_bookmark, "feature-b");
}

#[test]
fn test_analyze_empty_stack_is_no_stack() {
    let graph = ChangeGraph {
        bookmarks: NameMap::new(),
        stack: Some(BranchStack { segments: vec![] }),
        excluded_bookmark_count: 0,
    };
    match analyze_submission(&graph, None) {
        Err(Error::NoStack(message)) => assert_eq!(message, "Stack has no segments"),
        other => panic!("Expected NoStack error, got: {other:?}"),
    }
    match analyze_submission(&ChangeGraph::default(), Some("x")) {
        Err(Error::NoStack(message)) => assert_eq!(
            message,
            "No bookmarks found between trunk and working copy. Create a bookmark with: jj bookmark create <name>"
        ),
        other => panic!("Expected NoStack error, got: {other:?}"),
    }
}
