use jj_ryu::name_map::NameMap;
use jj_ryu::submit::{
    analyze_submission, apply_plan_options, build_analysis, create_submission_plan,
    filter_plan_to_selection, filter_to_tracked, only_scope_parent, require_tracking,
    validate_options, validate_selection, ExecutionStep, SubmissionPlan, SubmitOptions,
    SubmitScope,
};
use jj_ryu::types::{
    Bookmark, BookmarkSegment, BranchStack, ChangeGraph, LogEntry, PullRequest,
};
use jj_ryu::Error;

fn make_bookmark(name: &str) -> Bookmark {
    Bookmark {
        name: name.to_string(),
        commit_id: format!("{name}_commit"),
        change_id: format!("{name}_change"),
        has_remote: false,
        is_synced: false,
    }
}

fn make_change(name: &str) -> LogEntry {
    LogEntry {
        commit_id: format!("{name}_commit"),
        change_id: format!("{name}_change"),
        author_name: "Test Author".to_string(),
        author_email: "test@example.com".to_string(),
        description_first_line: format!("Commit for {name}"),
        parents: vec![],
        local_bookmarks: vec![name.to_string()],
        remote_bookmarks: vec![],
        is_working_copy: false,
        authored_at: 0,
        committed_at: 0,
    }
}

fn make_linear_stack(names: &[&str]) -> ChangeGraph {
    let mut bookmarks = NameMap::new();
    let mut segments = Vec::new();
    for name in names {
        bookmarks.insert(name.to_string(), make_bookmark(name));
        segments.push(BookmarkSegment {
            bookmarks: vec![make_bookmark(name)],
            changes: vec![make_change(name)],
        });
    }
    ChangeGraph { bookmarks, stack: Some(BranchStack { segments }), excluded_bookmark_count: 0 }
}

fn make_pr(number: u64, bookmark: &str, base: &str, is_draft: bool) -> PullRequest {
    PullRequest {
        number,
        html_url: format!("https://github.com/test/repo/pull/{number}"),
        base_ref: base.to_string(),
        head_ref: bookmark.to_string(),
        title: format!("PR for {bookmark}"),
        node_id: None,
        is_draft,
    }
}

fn scope(scope: SubmitScope) -> SubmitOptions<'static> {
    SubmitOptions { scope, ..SubmitOptions::default() }
}

fn names(analysis: &jj_ryu::submit::SubmissionAnalysis) -> Vec<&str> {
    analysis.segments.iter().map(|s| s.bookmark.name.as_str()).collect()
}

fn descriptions(plan: &SubmissionPlan) -> Vec<String> {
    plan.execution_steps.iter().map(ExecutionStep::description).collect()
}

#[test]
fn test_default_scope_is_the_plain_analysis() {
    let graph = make_linear_stack(&["feat-a", "feat-b", "feat-c"]);
    let analysis = build_analysis(&graph, Some("feat-b"), &SubmitOptions::default(), false).unwrap();
    assert_eq!(names(&analysis), vec!["feat-a", "feat-b"]);
    assert_eq!(analysis.target_bookmark, "feat-b");
    assert_eq!(SubmitScope::default(), SubmitScope::Default);
}

#[test]
fn test_upto_scope_truncates() {
    let graph = make_linear_stack(&["feat-a", "feat-b", "feat-c"]);
    let options = SubmitOptions {
        scope: SubmitScope::Upto,
        upto_bookmark: Some("feat-b"),
        ..SubmitOptions::default()
    };
    let analysis = build_analysis(&graph, None, &options, false).unwrap();
    assert_eq!(names(&analysis), vec!["feat-a", "feat-b"]);
    assert_eq!(analysis.target_bookmark, "feat-b");

    let unknown = SubmitOptions { upto_bookmark: Some("feat-z"), ..options };
    match build_analysis(&graph, None, &unknown, false) {
        Err(Error::InvalidArgument(message)) => {
            assert_eq!(message, "Bookmark 'feat-z' not found in stack");
        }
        other => panic!("Expected InvalidArgument error, got: {other:?}"),
    }
    match build_analysis(&graph, None, &scope(SubmitScope::Upto), false) {
        Err(Error::InvalidArgument(message)) => {
            assert_eq!(message, "--upto requires a bookmark name");
        }
        other => panic!("Expected InvalidArgument error, got: {other:?}"),
    }
}

#[test]
fn test_only_scope_needs_the_parent_pr() {
    let graph = make_linear_stack(&["feat-a", "feat-b"]);
    let analysis = analyze_submission(&graph, Some("feat-b")).unwrap();
    assert_eq!(only_scope_parent(&analysis), Some("feat-a".to_string()));

    match build_analysis(&graph, Some("feat-b"), &scope(SubmitScope::Only), false) {
        Err(Error::InvalidArgument(message)) => {
            assert_eq!(
                message,
                "Cannot use --only: parent bookmark 'feat-a' has no PR. Use --upto instead."
            );
            assert!(message.contains("feat-a"));
            assert!(message.contains("upto"));
        }
        other => panic!("Expected InvalidArgument error, got: {other:?}"),
    }

    let analysis = build_analysis(&graph, Some("feat-b"), &scope(SubmitScope::Only), true).unwrap();
    assert_eq!(names(&analysis), vec!["feat-b"]);
    assert_eq!(analysis.target_bookmark, "feat-b");

    // The lowest bookmark has no parent to ask for.
    let root = analyze_submission(&graph, Some("feat-a")).unwrap();
    assert_eq!(only_scope_parent(&root), None);
    let analysis = build_analysis(&graph, Some("feat-a"), &scope(SubmitScope::Only), false).unwrap();
    assert_eq!(names(&analysis), vec!["feat-a"]);
}

#[test]
fn test_stack_scope_extends_to_the_leaf() {
    let graph = make_linear_stack(&["feat-a", "feat-b", "feat-c"]);
    let analysis = build_analysis(&graph, Some("feat-b"), &scope(SubmitScope::Stack), false).unwrap();
    assert_eq!(names(&analysis), vec!["feat-b", "feat-c"]);
    assert_eq!(analysis.target_bookmark, "feat-c");
    let analysis = build_analysis(&graph, None, &scope(SubmitScope::Stack), false).unwrap();
    assert_eq!(names(&analysis), vec!["feat-c"]);
}

#[test]
fn test_scope_passes_analysis_errors_on() {
    let graph = make_linear_stack(&["feat-a"]);
    assert!(matches!(
        build_analysis(&graph, Some("nope"), &scope(SubmitScope::Stack), true),
        Err(Error::BookmarkNotFound(_))
    ));
    assert!(matches!(
        build_analysis(&ChangeGraph::default(), None, &scope(SubmitScope::Only), true),
        Err(Error::NoStack(_))
    ));
}

#[test]
fn test_scope_suffixes() {
    assert_eq!(SubmitScope::Default.suffix(), "");
    assert_eq!(SubmitScope::Upto.suffix(), " (--upto)");
    assert_eq!(SubmitScope::Only.suffix(), " (--only)");
    assert_eq!(SubmitScope::Stack.suffix(), " (--stack)");
}

#[test]
fn test_draft_and_publish_exclude_each_other() {
    let options = SubmitOptions { draft: true, publish: true, ..SubmitOptions::default() };
    match validate_options(&options) {
        Err(Error::InvalidArgument(message)) => {
            assert_eq!(message, "Cannot use --draft and --publish together");
        }
        other => panic!("Expected InvalidArgument error, got: {other:?}"),
    }
    assert!(validate_options(&SubmitOptions { draft: true, ..SubmitOptions::default() }).is_ok());
    assert!(validate_options(&SubmitOptions { publish: true, ..SubmitOptions::default() }).is_ok());
}

#[test]
fn test_tracking_filters() {
    assert!(matches!(require_tracking(&[], false), Err(Error::Tracking(_))));
    assert!(require_tracking(&[], true).is_ok());
    assert!(require_tracking(&["a".to_string()], false).is_ok());

    let graph = make_linear_stack(&["feat-a", "feat-b", "feat-c"]);
    let analysis = analyze_submission(&graph, None).unwrap();
    let followed = vec!["feat-c".to_string(), "feat-a".to_string()];
    let filtered = filter_to_tracked(analysis.clone(), &followed, false).unwrap();
    assert_eq!(names(&filtered), vec!["feat-a", "feat-c"]);
    assert_eq!(filtered.target_bookmark, "feat-c");
    let all = filter_to_tracked(analysis.clone(), &followed, true).unwrap();
    assert_eq!(names(&all), vec!["feat-a", "feat-b", "feat-c"]);
    match filter_to_tracked(analysis, &["other".to_string()], false) {
        Err(Error::Tracking(message)) => assert_eq!(
            message,
            "No tracked bookmarks in submission scope. Use 'ryu track' to track bookmarks, or 'ryu submit --all'."
        ),
        other => panic!("Expected Tracking error, got: {other:?}"),
    }
}

#[test]
fn test_selection_must_be_contiguous() {
    let graph = make_linear_stack(&["feat-a", "feat-b", "feat-c", "feat-d"]);
    let analysis = analyze_submission(&graph, None).unwrap();
    assert_eq!(validate_selection(&analysis, &[1, 2]).unwrap(), vec!["feat-b", "feat-c"]);
    assert_eq!(validate_selection(&analysis, &[]).unwrap(), Vec::<String>::new());
    assert_eq!(validate_selection(&analysis, &[3]).unwrap(), vec!["feat-d"]);
    match validate_selection(&analysis, &[0, 3]) {
        Err(Error::InvalidArgument(message)) => assert_eq!(
            message,
            "Cannot submit - selection has gap at 'feat-b'. Stacked PRs must be contiguous."
        ),
        other => panic!("Expected InvalidArgument error, got: {other:?}"),
    }
    match validate_selection(&analysis, &[3, 0, 1]) {
        Err(Error::InvalidArgument(message)) => assert!(message.contains("'feat-c'")),
        other => panic!("Expected InvalidArgument error, got: {other:?}"),
    }
}

fn three_step_plan() -> SubmissionPlan {
    let graph = make_linear_stack(&["feat-a", "feat-b"]);
    let analysis = analyze_submission(&graph, None).unwrap();
    let mut existing = NameMap::new();
    existing.insert("feat-a".to_string(), make_pr(1, "feat-a", "develop", true));
    create_submission_plan(&analysis, existing, "origin", "main").unwrap()
}

#[test]
fn test_plan_options_update_only() {
    let mut plan = three_step_plan();
    assert_eq!(
        descriptions(&plan),
        vec![
            "push feat-a",
            "push feat-b",
            "update feat-a (PR #1) develop → main",
            "create PR feat-b → feat-a (Commit for feat-b)",
        ]
    );
    apply_plan_options(&mut plan, &SubmitOptions { update_only: true, ..SubmitOptions::default() });
    assert_eq!(descriptions(&plan), vec!["push feat-a", "update feat-a (PR #1) develop → main"]);
    assert_eq!(plan.segments.len(), 2);
}

#[test]
fn test_plan_options_draft_and_publish() {
    let mut plan = three_step_plan();
    apply_plan_options(&mut plan, &SubmitOptions { draft: true, ..SubmitOptions::default() });
    assert_eq!(
        descriptions(&plan).last().unwrap(),
        "create PR feat-b → feat-a (Commit for feat-b) [draft]"
    );

    let mut plan = three_step_plan();
    apply_plan_options(&mut plan, &SubmitOptions { publish: true, ..SubmitOptions::default() });
    assert_eq!(
        descriptions(&plan),
        vec![
            "push feat-a",
            "push feat-b",
            "update feat-a (PR #1) develop → main",
            "create PR feat-b → feat-a (Commit for feat-b)",
            "publish PR #1 (feat-a)",
        ]
    );
    assert_eq!(plan.count_publishes(), 1);

    // With both options the drafts are published and nothing is marked.
    let mut plan = three_step_plan();
    apply_plan_options(
        &mut plan,
        &SubmitOptions { draft: true, publish: true, ..SubmitOptions::default() },
    );
    assert!(!descriptions(&plan).iter().any(|line| line.contains("[draft]")));
    assert_eq!(plan.count_publishes(), 1);

    let mut plan = three_step_plan();
    apply_plan_options(&mut plan, &SubmitOptions::default());
    assert_eq!(descriptions(&plan).len(), 4);
}

#[test]
fn test_filter_plan_to_selection() {
    let mut plan = three_step_plan();
    filter_plan_to_selection(&mut plan, &["feat-b".to_string()]);
    assert_eq!(
        descriptions(&plan),
        vec!["push feat-b", "create PR feat-b → feat-a (Commit for feat-b)"]
    );
    assert_eq!(plan.segments.len(), 1);
    assert_eq!(plan.segments[0].bookmark.name, "feat-b");
    assert_eq!(plan.existing_prs.len(), 1);
}

#[test]
fn test_no_stack_gives_no_plan() {
    // A range without bookmarked commits has no stack; nothing is planned
    // and nothing fails before the analysis is asked for.
    let changes = vec![make_change("c1")];
    let mut unbookmarked = changes;
    unbookmarked[0].local_bookmarks.clear();
    let graph = jj_ryu::graph::build_change_graph(&unbookmarked, &[make_bookmark("elsewhere")]);
    assert!(graph.stack.is_none());
    assert_eq!(graph.excluded_bookmark_count, 0);
    assert!(matches!(analyze_submission(&graph, None), Err(Error::NoStack(_))));
}

#[test]
fn test_replanning_after_a_successful_run_is_empty() {
    // A platform that starts empty; the run creates both pull requests and
    // pushes both bookmarks. Planning again on what the run left behind
    // finds nothing to do.
    let graph = make_linear_stack(&["feat-a", "feat-b"]);
    let analysis = analyze_submission(&graph, None).unwrap();
    let plan = create_submission_plan(&analysis, NameMap::new(), "origin", "main").unwrap();
    assert_eq!(plan.execution_steps.len(), 4);

    let mut result = jj_ryu::submit::SubmissionResult::new();
    let mut prs = plan.existing_prs.clone();
    let mut next_number = 1;
    for step in &plan.execution_steps {
        let outcome = match step {
            ExecutionStep::Push(bookmark) => jj_ryu::submit::execute_push(bookmark, Ok(())),
            ExecutionStep::CreatePr(create) => {
                let pr = make_pr(next_number, &create.bookmark.name, &create.base_branch, false);
                next_number += 1;
                jj_ryu::submit::execute_create_pr(create, Ok(pr))
            }
            other => panic!("unexpected step {other:?}"),
        };
        assert!(jj_ryu::submit::record_outcome(&mut result, &mut prs, step, outcome));
    }
    assert!(result.success);
    assert_eq!(result.pushed_bookmarks, vec!["feat-a", "feat-b"]);
    assert_eq!(result.created_prs.len(), 2);

    let mut synced = make_linear_stack(&["feat-a", "feat-b"]);
    for segment in &mut synced.stack.as_mut().unwrap().segments {
        segment.bookmarks[0].has_remote = true;
        segment.bookmarks[0].is_synced = true;
    }
    let analysis = analyze_submission(&synced, None).unwrap();
    let again = create_submission_plan(&analysis, prs, "origin", "main").unwrap();
    assert!(again.is_empty());
    assert_eq!(again.existing_prs.len(), 2);
}

#[test]
fn test_checks_on_what_is_handed_in() {
    let graph = make_linear_stack(&["feat-a", "feat-b"]);
    assert!(graph.is_well_formed());
    assert!(ChangeGraph::default().is_well_formed());
    let mut broken = make_linear_stack(&["feat-a", "feat-b"]);
    broken.stack.as_mut().unwrap().segments[1].bookmarks.clear();
    assert!(!broken.is_well_formed());

    let analysis = analyze_submission(&graph, None).unwrap();
    assert!(analysis.has_distinct_bookmarks());
    let mut doubled = analysis.clone();
    doubled.segments.push(analysis.segments[0].clone());
    assert!(!doubled.has_distinct_bookmarks());
}
