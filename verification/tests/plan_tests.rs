use jj_ryu::name_map::NameMap;
use jj_ryu::submit::{
    build_execution_nodes, build_execution_steps, collect_constraints, create_submission_plan,
    resolve_constraints, topo_sort_steps, ExecutionConstraint, ExecutionNode, ExecutionStep,
    NodeRegistry, PrBaseUpdate, PrToCreate, PushRef, StepKind, SubmissionAnalysis,
    SubmissionPlan, UpdateRef,
};
use jj_ryu::types::{Bookmark, LogEntry, NarrowedBookmarkSegment, PullRequest};
use jj_ryu::Error;

fn make_bookmark(name: &str, has_remote: bool, is_synced: bool) -> Bookmark {
    Bookmark {
        name: name.to_string(),
        commit_id: format!("{name}_commit"),
        change_id: format!("{name}_change"),
        has_remote,
        is_synced,
    }
}

fn make_segment(name: &str) -> NarrowedBookmarkSegment {
    NarrowedBookmarkSegment { bookmark: make_bookmark(name, false, false), changes: vec![] }
}

fn make_pr(number: u64, bookmark: &str, base: &str) -> PullRequest {
    PullRequest {
        number,
        html_url: format!("https://github.com/test/test/pull/{number}"),
        base_ref: base.to_string(),
        head_ref: bookmark.to_string(),
        title: format!("PR for {bookmark}"),
        node_id: Some(format!("PR_node_{number}")),
        is_draft: false,
    }
}

fn make_update(
    bookmark: &Bookmark,
    current_base: &str,
    expected_base: &str,
    pr_number: u64,
) -> PrBaseUpdate {
    PrBaseUpdate {
        bookmark: bookmark.clone(),
        current_base: current_base.to_string(),
        expected_base: expected_base.to_string(),
        pr: make_pr(pr_number, &bookmark.name, current_base),
    }
}

fn make_create(bookmark: &Bookmark, base_branch: &str) -> PrToCreate {
    PrToCreate {
        bookmark: bookmark.clone(),
        base_branch: base_branch.to_string(),
        title: format!("Add {}", bookmark.name),
        draft: false,
    }
}

fn find_step_index(
    steps: &[ExecutionStep],
    predicate: impl Fn(&ExecutionStep) -> bool,
) -> Option<usize> {
    steps.iter().position(predicate)
}

fn descriptions(steps: &[ExecutionStep]) -> Vec<String> {
    steps.iter().map(ExecutionStep::description).collect()
}

fn make_change(description: &str) -> LogEntry {
    LogEntry {
        commit_id: format!("{description}_commit"),
        change_id: format!("{description}_change"),
        author_name: "Test Author".to_string(),
        author_email: "test@example.com".to_string(),
        description_first_line: description.to_string(),
        parents: vec![],
        local_bookmarks: vec![],
        remote_bookmarks: vec![],
        is_working_copy: false,
        authored_at: 0,
        committed_at: 0,
    }
}

/// An analysis of a linear stack in which every segment has one commit
/// described as "Commit for <name>".
fn make_analysis(bookmarks: Vec<Bookmark>) -> SubmissionAnalysis {
    let target = bookmarks.last().map(|b| b.name.clone()).unwrap_or_default();
    SubmissionAnalysis {
        target_bookmark: target,
        segments: bookmarks
            .into_iter()
            .map(|bookmark| {
                let change = make_change(&format!("Commit for {}", bookmark.name));
                NarrowedBookmarkSegment { bookmark, changes: vec![change] }
            })
            .collect(),
    }
}

fn unsynced(names: &[&str]) -> Vec<Bookmark> {
    names.iter().map(|name| make_bookmark(name, false, false)).collect()
}

fn pr_map(prs: Vec<PullRequest>) -> NameMap<PullRequest> {
    let mut map = NameMap::new();
    for pr in prs {
        map.insert(pr.head_ref.clone(), pr);
    }
    map
}

#[test]
fn test_bookmark_needs_push() {
    let bm1 = make_bookmark("feat-a", false, false);
    assert!(!bm1.has_remote || !bm1.is_synced);
    assert!(bm1.needs_push());

    let bm2 = make_bookmark("feat-b", true, false);
    assert!(!bm2.has_remote || !bm2.is_synced);
    assert!(bm2.needs_push());

    let bm3 = make_bookmark("feat-c", true, true);
    assert!(bm3.has_remote && bm3.is_synced);
    assert!(!bm3.needs_push());
}

#[test]
fn test_pr_to_create_structure() {
    let pr_create = PrToCreate {
        bookmark: make_bookmark("feat-a", false, false),
        base_branch: "main".to_string(),
        title: "Add feature A".to_string(),
        draft: false,
    };

    assert_eq!(pr_create.bookmark.name, "feat-a");
    assert_eq!(pr_create.base_branch, "main");
    assert_eq!(pr_create.title, "Add feature A");
    assert!(!pr_create.draft);
}

#[test]
fn test_execution_steps_simple_push_order() {
    let segments = vec![make_segment("a"), make_segment("b")];
    let pushes = vec![make_bookmark("a", false, false), make_bookmark("b", false, false)];

    let (_constraints, steps) = build_execution_steps(&segments, &pushes, &[], &[], &[]).unwrap();

    let push_a = find_step_index(&steps, |s| matches!(s, ExecutionStep::Push(b) if b.name == "a"));
    let push_b = find_step_index(&steps, |s| matches!(s, ExecutionStep::Push(b) if b.name == "b"));

    assert!(push_a.unwrap() < push_b.unwrap(), "pushes should follow stack order");
}

#[test]
fn test_execution_steps_push_before_create() {
    let bm_a = make_bookmark("a", false, false);
    let segments = vec![make_segment("a")];
    let pushes = vec![bm_a.clone()];
    let creates = vec![make_create(&bm_a, "main")];

    let (_constraints, steps) =
        build_execution_steps(&segments, &pushes, &[], &creates, &[]).unwrap();

    let push_a =
        find_step_index(&steps, |s| matches!(s, ExecutionStep::Push(b) if b.name == "a")).unwrap();
    let create_a = find_step_index(
        &steps,
        |s| matches!(s, ExecutionStep::CreatePr(c) if c.bookmark.name == "a"),
    )
    .unwrap();

    assert!(push_a < create_a, "push must happen before create");
}

#[test]
fn test_execution_steps_create_order_follows_stack() {
    let bm_a = make_bookmark("a", false, false);
    let bm_b = make_bookmark("b", false, false);
    let segments = vec![make_segment("a"), make_segment("b")];
    let pushes = vec![bm_a.clone(), bm_b.clone()];
    let creates = vec![make_create(&bm_a, "main"), make_create(&bm_b, "a")];

    let (_constraints, steps) =
        build_execution_steps(&segments, &pushes, &[], &creates, &[]).unwrap();

    let create_a = find_step_index(
        &steps,
        |s| matches!(s, ExecutionStep::CreatePr(c) if c.bookmark.name == "a"),
    )
    .unwrap();
    let create_b = find_step_index(
        &steps,
        |s| matches!(s, ExecutionStep::CreatePr(c) if c.bookmark.name == "b"),
    )
    .unwrap();

    assert!(create_a < create_b, "creates should follow stack order");
    assert_eq!(
        descriptions(&steps),
        vec!["push a", "push b", "create PR a → main (Add a)", "create PR b → a (Add b)"]
    );
}

#[test]
fn test_execution_steps_swap_order() {
    // The stack was a -> b and is now b -> a.
    let bm_a = make_bookmark("a", false, false);
    let bm_b = make_bookmark("b", false, false);

    let segments = vec![make_segment("b"), make_segment("a")];
    let pushes = vec![bm_a.clone(), bm_b.clone()];
    let updates = vec![make_update(&bm_b, "a", "main", 2), make_update(&bm_a, "main", "b", 1)];

    let (_constraints, steps) =
        build_execution_steps(&segments, &pushes, &updates, &[], &[]).unwrap();

    let retarget_b = find_step_index(
        &steps,
        |s| matches!(s, ExecutionStep::UpdateBase(u) if u.bookmark.name == "b"),
    )
    .unwrap();
    let retarget_a = find_step_index(
        &steps,
        |s| matches!(s, ExecutionStep::UpdateBase(u) if u.bookmark.name == "a"),
    )
    .unwrap();
    let push_a =
        find_step_index(&steps, |s| matches!(s, ExecutionStep::Push(b) if b.name == "a")).unwrap();
    let push_b =
        find_step_index(&steps, |s| matches!(s, ExecutionStep::Push(b) if b.name == "b")).unwrap();

    assert!(retarget_b < push_a, "b must move off a before pushing a");
    assert!(push_b < push_a, "push order should follow new stack (b before a)");
    assert!(push_b < retarget_a, "a moves onto b after b is pushed");
    assert_eq!(
        descriptions(&steps),
        vec![
            "push b",
            "update b (PR #2) a → main",
            "push a",
            "update a (PR #1) main → b",
        ]
    );
}

#[test]
fn plan_test_plan_is_empty() {
    let plan = SubmissionPlan {
        segments: vec![],
        constraints: vec![],
        execution_steps: vec![],
        existing_prs: NameMap::new(),
        remote: "origin".to_string(),
        default_branch: "main".to_string(),
    };

    assert!(plan.is_empty());
    assert_eq!(plan.count_pushes(), 0);
    assert_eq!(plan.count_creates(), 0);
}

#[test]
fn plan_test_plan_counts() {
    let bm = make_bookmark("a", false, false);
    let plan = SubmissionPlan {
        segments: vec![make_segment("a")],
        constraints: vec![],
        execution_steps: vec![
            ExecutionStep::Push(bm.clone()),
            ExecutionStep::CreatePr(make_create(&bm, "main")),
        ],
        existing_prs: NameMap::new(),
        remote: "origin".to_string(),
        default_branch: "main".to_string(),
    };

    assert!(!plan.is_empty());
    assert_eq!(plan.count_pushes(), 1);
    assert_eq!(plan.count_creates(), 1);
    assert_eq!(plan.count_updates(), 0);
    assert_eq!(plan.count_publishes(), 0);
}

#[test]
fn test_plan_new_stack_no_existing_prs() {
    let analysis = make_analysis(unsynced(&["feat-a", "feat-b"]));

    let plan = create_submission_plan(&analysis, NameMap::new(), "origin", "main").unwrap();

    assert_eq!(plan.count_creates(), 2);
    assert_eq!(plan.count_updates(), 0);

    let creates: Vec<_> = plan
        .execution_steps
        .iter()
        .filter_map(|s| match s {
            ExecutionStep::CreatePr(c) => Some(c),
            _ => None,
        })
        .collect();

    assert_eq!(creates[0].bookmark.name, "feat-a");
    assert_eq!(creates[0].base_branch, "main");
    assert_eq!(creates[1].bookmark.name, "feat-b");
    assert_eq!(creates[1].base_branch, "feat-a");

    // Greenfield stack: both pushes, then both creations, titled by the commits.
    assert_eq!(
        descriptions(&plan.execution_steps),
        vec![
            "push feat-a",
            "push feat-b",
            "create PR feat-a → main (Commit for feat-a)",
            "create PR feat-b → feat-a (Commit for feat-b)",
        ]
    );
    assert_eq!(plan.remote, "origin");
    assert_eq!(plan.default_branch, "main");
    assert_eq!(plan.segments.len(), 2);
}

#[test]
fn test_plan_update_existing_pr_base() {
    let analysis = make_analysis(unsynced(&["feat-a", "feat-b"]));
    let existing = pr_map(vec![make_pr(123, "feat-b", "main")]);

    let plan = create_submission_plan(&analysis, existing, "origin", "main").unwrap();

    assert_eq!(plan.count_creates(), 1);
    assert_eq!(plan.count_updates(), 1);

    let update = plan
        .execution_steps
        .iter()
        .find_map(|s| match s {
            ExecutionStep::UpdateBase(u) => Some(u),
            _ => None,
        })
        .expect("should have update step");

    assert_eq!(update.bookmark.name, "feat-b");
    assert_eq!(update.current_base, "main");
    assert_eq!(update.expected_base, "feat-a");
}

#[test]
fn test_plan_all_prs_exist_correct_base() {
    let analysis = make_analysis(unsynced(&["feat-a", "feat-b"]));
    let existing = pr_map(vec![make_pr(1, "feat-a", "main"), make_pr(2, "feat-b", "feat-a")]);

    let plan = create_submission_plan(&analysis, existing, "origin", "main").unwrap();

    assert_eq!(plan.count_creates(), 0);
    assert_eq!(plan.count_updates(), 0);
    assert_eq!(plan.existing_prs.len(), 2);
}

#[test]
fn test_plan_synced_bookmark_not_in_push_list() {
    let analysis = make_analysis(vec![make_bookmark("feat-a", true, true)]);

    let plan = create_submission_plan(&analysis, NameMap::new(), "origin", "main").unwrap();

    assert_eq!(plan.count_pushes(), 0);
}

#[test]
fn test_plan_unsynced_bookmark_in_push_list() {
    let analysis = make_analysis(unsynced(&["feat-a"]));

    let plan = create_submission_plan(&analysis, NameMap::new(), "origin", "main").unwrap();

    assert_eq!(plan.count_pushes(), 1);

    let push = plan
        .execution_steps
        .iter()
        .find_map(|s| match s {
            ExecutionStep::Push(b) => Some(b),
            _ => None,
        })
        .expect("should have push step");

    assert_eq!(push.name, "feat-a");
}

#[test]
fn test_plan_has_remote_true_but_not_synced_needs_push() {
    let analysis = make_analysis(vec![make_bookmark("feat-a", true, false)]);

    let plan = create_submission_plan(&analysis, NameMap::new(), "origin", "main").unwrap();

    assert_eq!(plan.count_pushes(), 1);
}

#[test]
fn test_plan_multiple_base_updates_needed() {
    let analysis = make_analysis(unsynced(&["feat-a", "feat-b", "feat-c"]));
    let existing = pr_map(vec![
        make_pr(1, "feat-a", "main"),
        make_pr(2, "feat-b", "main"),
        make_pr(3, "feat-c", "main"),
    ]);

    let plan = create_submission_plan(&analysis, existing, "origin", "main").unwrap();

    assert_eq!(plan.count_creates(), 0);
    assert_eq!(plan.count_updates(), 2);

    let updates: Vec<_> = plan
        .execution_steps
        .iter()
        .filter_map(|s| match s {
            ExecutionStep::UpdateBase(u) => Some(u),
            _ => None,
        })
        .collect();

    assert_eq!(updates[0].bookmark.name, "feat-b");
    assert_eq!(updates[0].expected_base, "feat-a");
    assert_eq!(updates[1].bookmark.name, "feat-c");
    assert_eq!(updates[1].expected_base, "feat-b");
}

#[test]
fn test_base_correction_plan() {
    // Both pull requests exist; the upper one sits on the wrong base.
    let analysis =
        make_analysis(vec![make_bookmark("feat-a", true, true), make_bookmark("feat-b", true, true)]);
    let existing = pr_map(vec![make_pr(1, "feat-a", "main"), make_pr(2, "feat-b", "main")]);

    let plan = create_submission_plan(&analysis, existing, "origin", "main").unwrap();

    assert_eq!(descriptions(&plan.execution_steps), vec!["update feat-b (PR #2) main → feat-a"]);
    assert_eq!(plan.count_creates(), 0);
    assert_eq!(plan.count_pushes(), 0);
}

#[test]
fn test_swap_scenario_retarget_before_push() {
    // The pull requests were made for feat-a -> feat-b; the stack is now
    // feat-b -> feat-a and the platform still reports the former bases.
    let analysis = make_analysis(unsynced(&["feat-b", "feat-a"]));
    let existing = pr_map(vec![make_pr(1, "feat-a", "main"), make_pr(2, "feat-b", "feat-a")]);

    let plan = create_submission_plan(&analysis, existing, "origin", "main").unwrap();
    let steps = &plan.execution_steps;

    assert!(plan.count_updates() >= 1);
    assert!(plan.count_pushes() >= 1);
    let update_b = find_step_index(
        steps,
        |s| matches!(s, ExecutionStep::UpdateBase(u) if u.bookmark.name == "feat-b"),
    )
    .unwrap();
    let update_a = find_step_index(
        steps,
        |s| matches!(s, ExecutionStep::UpdateBase(u) if u.bookmark.name == "feat-a"),
    )
    .unwrap();
    let push_a =
        find_step_index(steps, |s| matches!(s, ExecutionStep::Push(b) if b.name == "feat-a"))
            .unwrap();
    let push_b =
        find_step_index(steps, |s| matches!(s, ExecutionStep::Push(b) if b.name == "feat-b"))
            .unwrap();
    assert!(update_b < push_a);
    assert!(push_b < push_a);
    assert!(push_b < update_a);
    assert_eq!(
        descriptions(steps),
        vec![
            "push feat-b",
            "update feat-b (PR #2) feat-a → main",
            "push feat-a",
            "update feat-a (PR #1) main → feat-b",
        ]
    );
}

#[test]
fn test_three_level_swap_middle_to_root() {
    // Was a -> b -> c, is b -> a -> c.
    let analysis = make_analysis(unsynced(&["feat-b", "feat-a", "feat-c"]));
    let existing = pr_map(vec![
        make_pr(1, "feat-a", "main"),
        make_pr(2, "feat-b", "feat-a"),
        make_pr(3, "feat-c", "feat-b"),
    ]);
    let plan = create_submission_plan(&analysis, existing, "origin", "main").unwrap();
    assert!(!plan.is_empty(), "plan should have operations after swap");
    assert_eq!(
        descriptions(&plan.execution_steps),
        vec![
            "push feat-b",
            "update feat-b (PR #2) feat-a → main",
            "push feat-a",
            "push feat-c",
            "update feat-a (PR #1) main → feat-b",
            "update feat-c (PR #3) feat-b → feat-a",
        ]
    );
}
#[test]
fn test_push_order_follows_stack_structure() {
    let analysis = make_analysis(unsynced(&["feat-a", "feat-b", "feat-c", "feat-d"]));
    let plan = create_submission_plan(&analysis, NameMap::new(), "origin", "main").unwrap();
    assert_eq!(plan.count_pushes(), 4, "all 4 bookmarks need push");
    let steps = &plan.execution_steps;
    let push = |name: &str| {
        find_step_index(steps, |s| matches!(s, ExecutionStep::Push(b) if b.name == name)).unwrap()
    };
    assert!(push("feat-a") < push("feat-b"));
    assert!(push("feat-b") < push("feat-c"));
    assert!(push("feat-c") < push("feat-d"));
}
#[test]
fn test_create_order_respects_stack_for_comment_linking() {
    let analysis = make_analysis(unsynced(&["feat-a", "feat-b", "feat-c"]));
    let plan = create_submission_plan(&analysis, NameMap::new(), "origin", "main").unwrap();
    assert_eq!(plan.count_creates(), 3);
    let steps = &plan.execution_steps;
    let create = |name: &str| {
        find_step_index(
            steps,
            |s| matches!(s, ExecutionStep::CreatePr(c) if c.bookmark.name == name),
        )
        .unwrap()
    };
    assert!(create("feat-a") < create("feat-b"));
    assert!(create("feat-b") < create("feat-c"));
}
#[test]
fn test_push_before_create_constraint() {
    let analysis = make_analysis(unsynced(&["feat-a"]));
    let plan = create_submission_plan(&analysis, NameMap::new(), "origin", "main").unwrap();
    assert_eq!(plan.count_pushes(), 1);
    assert_eq!(plan.count_creates(), 1);
    assert_eq!(
        descriptions(&plan.execution_steps),
        vec!["push feat-a", "create PR feat-a → main (Commit for feat-a)"]
    );
}
#[test]
fn test_push_before_retarget_constraint() {
    let analysis = make_analysis(unsynced(&["feat-a", "feat-b"]));
    let existing = pr_map(vec![make_pr(2, "feat-b", "main")]);
    let plan = create_submission_plan(&analysis, existing, "origin", "main").unwrap();
    let steps = &plan.execution_steps;
    let push_a =
        find_step_index(steps, |s| matches!(s, ExecutionStep::Push(b) if b.name == "feat-a"))
            .unwrap();
    let update_b = find_step_index(
        steps,
        |s| matches!(s, ExecutionStep::UpdateBase(u) if u.bookmark.name == "feat-b"),
    )
    .unwrap();
    assert!(push_a < update_b);
}
#[test]
fn test_partial_existing_prs_mixed_operations() {
    let analysis = make_analysis(unsynced(&["feat-a", "feat-b", "feat-c"]));
    let existing = pr_map(vec![make_pr(1, "feat-a", "main"), make_pr(2, "feat-b", "main")]);
    let plan = create_submission_plan(&analysis, existing, "origin", "main").unwrap();
    assert_eq!(plan.count_pushes(), 3);
    assert_eq!(plan.count_updates(), 1);
    assert_eq!(plan.count_creates(), 1);
    assert_eq!(
        descriptions(&plan.execution_steps),
        vec![
            "push feat-a",
            "push feat-b",
            "push feat-c",
            "update feat-b (PR #2) main → feat-a",
            "create PR feat-c → feat-b (Commit for feat-c)",
        ]
    );
}

#[test]
fn test_constraints_skip_synced_bookmarks() {
    let analysis = make_analysis(unsynced(&["feat-a", "feat-b"]));
    let existing = pr_map(vec![make_pr(1, "feat-a", "main"), make_pr(2, "feat-b", "feat-a")]);
    let plan = create_submission_plan(&analysis, existing, "origin", "main").unwrap();
    assert_eq!(plan.count_creates(), 0);
    assert_eq!(plan.count_updates(), 0);
    assert_eq!(descriptions(&plan.execution_steps), vec!["push feat-a", "push feat-b"]);
}

#[test]
fn test_obligations_on_absent_pushes_are_passed_over() {
    // feat-a is in step with its remote: no push of it, and the obligations
    // that name its push are passed over.
    let analysis = make_analysis(vec![
        make_bookmark("feat-a", true, true),
        make_bookmark("feat-b", false, false),
    ]);
    let plan = create_submission_plan(&analysis, NameMap::new(), "origin", "main").unwrap();
    assert_eq!(plan.count_pushes(), 1);
    assert_eq!(
        descriptions(&plan.execution_steps),
        vec![
            "push feat-b",
            "create PR feat-a → main (Commit for feat-a)",
            "create PR feat-b → feat-a (Commit for feat-b)",
        ]
    );
    assert_eq!(plan.constraints.len(), 4);
}
#[test]
fn test_all_prs_exist_correct_bases() {
    let analysis = make_analysis(unsynced(&["feat-a", "feat-b", "feat-c"]));
    let existing = pr_map(vec![
        make_pr(1, "feat-a", "main"),
        make_pr(2, "feat-b", "feat-a"),
        make_pr(3, "feat-c", "feat-b"),
    ]);
    let plan = create_submission_plan(&analysis, existing, "origin", "main").unwrap();
    assert_eq!(plan.count_creates(), 0, "no PRs to create");
    assert_eq!(plan.count_updates(), 0, "no bases to update");
    assert_eq!(plan.existing_prs.len(), 3, "all PRs tracked");
}

#[test]
fn test_synced_stack_with_correct_prs_needs_nothing() {
    let analysis =
        make_analysis(vec![make_bookmark("feat-a", true, true), make_bookmark("feat-b", true, true)]);
    let existing = pr_map(vec![make_pr(1, "feat-a", "main"), make_pr(2, "feat-b", "feat-a")]);
    let plan = create_submission_plan(&analysis, existing, "origin", "main").unwrap();
    assert!(plan.is_empty());
    assert_eq!(plan.execution_steps.len(), 0);
}

#[test]
fn test_draft_pr_in_stack() {
    let analysis = make_analysis(unsynced(&["feat-a", "feat-b"]));
    let mut draft = make_pr(1, "feat-a", "main");
    draft.is_draft = true;
    let plan = create_submission_plan(&analysis, pr_map(vec![draft]), "origin", "main").unwrap();
    // The draft is known, and planning alone does not publish it.
    assert_eq!(plan.existing_prs.len(), 1);
    assert!(plan.existing_prs.get("feat-a").unwrap().is_draft);
    assert_eq!(plan.count_publishes(), 0);
}
#[test]
fn test_ten_level_stack_ordering() {
    let names: Vec<String> = (0..10).map(|i| format!("feat-{i}")).collect();
    let refs: Vec<&str> = names.iter().map(String::as_str).collect();
    let analysis = make_analysis(unsynced(&refs));
    assert_eq!(analysis.segments.len(), 10);
    let plan = create_submission_plan(&analysis, NameMap::new(), "origin", "main").unwrap();
    assert_eq!(plan.count_pushes(), 10);
    assert_eq!(plan.count_creates(), 10);
    let steps = &plan.execution_steps;
    assert_eq!(steps.len(), 20);
    let mut prev_push = None;
    let mut prev_create = None;
    for name in &names {
        let push =
            find_step_index(steps, |s| matches!(s, ExecutionStep::Push(b) if &b.name == name))
                .unwrap();
        let create = find_step_index(
            steps,
            |s| matches!(s, ExecutionStep::CreatePr(c) if &c.bookmark.name == name),
        )
        .unwrap();
        assert!(push < create);
        if let Some(prev) = prev_push {
            assert!(prev < push);
        }
        if let Some(prev) = prev_create {
            assert!(prev < create);
        }
        prev_push = Some(push);
        prev_create = Some(create);
    }
}

#[test]
fn test_constraint_display_formatting() {
    let analysis = make_analysis(unsynced(&["feat-a", "feat-b"]));
    let existing = pr_map(vec![make_pr(2, "feat-b", "main")]);
    let plan = create_submission_plan(&analysis, existing, "origin", "main").unwrap();

    assert!(!plan.constraints.is_empty(), "should have constraints");
    for constraint in &plan.constraints {
        let display = constraint.description();
        assert!(!display.is_empty());
        assert!(display.contains("→"), "constraint display should contain arrow: {display}");
    }
    let texts: Vec<String> = plan.constraints.iter().map(|c| c.description()).collect();
    assert_eq!(
        texts,
        vec![
            "Push(feat-a) → Push(feat-b)",
            "Push(feat-a) → UpdateBase(feat-b)",
            "Push(feat-a) → CreatePr(feat-a)",
            "CreatePr(feat-a) → CreatePr(feat-b)",
        ]
    );
}

#[test]
fn test_collected_constraints_for_swap() {
    let segments = vec![make_segment("b"), make_segment("a")];
    let bm_a = make_bookmark("a", false, false);
    let bm_b = make_bookmark("b", false, false);
    let updates = vec![make_update(&bm_b, "a", "main", 2), make_update(&bm_a, "main", "b", 1)];
    let constraints = collect_constraints(&segments, &updates, &[]);
    let texts: Vec<String> = constraints.iter().map(|c| c.description()).collect();
    assert_eq!(
        texts,
        vec![
            "Push(b) → Push(a)",
            "Push(main) → UpdateBase(b)",
            "Push(b) → UpdateBase(a)",
            "UpdateBase(b) → Push(a)",
            "CreatePr(b) → CreatePr(a)",
        ]
    );
}

#[test]
fn test_cycle_between_push_and_update_is_detected() {
    // Two obligations that contradict each other: push a before the change
    // of base for a, and the change of base for a before the push of a.
    let bm_a = make_bookmark("a", false, false);
    let segments = vec![make_segment("a")];
    let pushes = vec![bm_a.clone()];
    let updates = vec![make_update(&bm_a, "old", "main", 1)];
    let (nodes, registry) = build_execution_nodes(&segments, &pushes, &updates, &[], &[]);
    assert_eq!(nodes.len(), 2);
    assert_eq!(registry.len(), 2);
    let constraints = vec![
        ExecutionConstraint::PushBeforeRetarget {
            base: PushRef("a".to_string()),
            pr: UpdateRef("a".to_string()),
        },
        ExecutionConstraint::RetargetBeforePush {
            pr: UpdateRef("a".to_string()),
            old_base: PushRef("a".to_string()),
        },
    ];
    let edges = resolve_constraints(&constraints, &registry);
    assert_eq!(edges, vec![vec![1], vec![0]]);
    match topo_sort_steps(&nodes, &edges) {
        Err(Error::SchedulerCycle { message, cycle_nodes }) => {
            assert_eq!(
                message,
                "Dependency cycle in execution plan - this is a bug in jj-ryu, please report it"
            );
            assert_eq!(cycle_nodes, vec!["push a", "update a (PR #1) old → main"]);
        }
        other => panic!("Expected SchedulerCycle error, got: {other:?}"),
    }
}

#[test]
fn test_cycle_error_lists_nodes_behind_the_cycle() {
    // 0 -> 1 -> 2 -> 1, 2 -> 3: only node 0 can run.
    let nodes: Vec<ExecutionNode> = ["n0", "n1", "n2", "n3"]
        .iter()
        .enumerate()
        .map(|(order, name)| ExecutionNode {
            step: ExecutionStep::Push(make_bookmark(name, false, false)),
            order,
        })
        .collect();
    let edges = vec![vec![1], vec![2], vec![1, 3], vec![]];
    match topo_sort_steps(&nodes, &edges) {
        Err(Error::SchedulerCycle { cycle_nodes, .. }) => {
            assert_eq!(cycle_nodes, vec!["push n1", "push n2", "push n3"]);
        }
        other => panic!("Expected SchedulerCycle error, got: {other:?}"),
    }
}

#[test]
fn test_sort_breaks_ties_by_rank_then_index() {
    let make = |name: &str, order: usize| ExecutionNode {
        step: ExecutionStep::Push(make_bookmark(name, false, false)),
        order,
    };
    // No edges: ranks decide, and the index among equal ranks.
    let nodes = vec![make("c", 2), make("a", 0), make("b1", 1), make("b2", 1)];
    let edges = vec![vec![], vec![], vec![], vec![]];
    let steps = topo_sort_steps(&nodes, &edges).unwrap();
    assert_eq!(descriptions(&steps), vec!["push a", "push b1", "push b2", "push c"]);
    // An edge overrides the ranks; a repeated edge counts like one.
    let edges = vec![vec![1, 1], vec![], vec![], vec![]];
    let steps = topo_sort_steps(&nodes, &edges).unwrap();
    assert_eq!(descriptions(&steps), vec!["push b1", "push b2", "push c", "push a"]);
    assert!(topo_sort_steps(&[], &[]).unwrap().is_empty());
}

#[test]
fn test_push_order_with_a_synced_bookmark_between() {
    // A hole in the pushes and a swap below it: the push of the upper
    // bookmark is ready first and runs first.
    let segments =
        vec![make_segment("x"), make_segment("a"), make_segment("m"), make_segment("b")];
    let pushes = vec![make_bookmark("a", false, false), make_bookmark("b", false, false)];
    let updates = vec![make_update(&make_bookmark("x", true, true), "a", "main", 1)];
    let (_, steps) = build_execution_steps(&segments, &pushes, &updates, &[], &[]).unwrap();
    assert_eq!(descriptions(&steps), vec!["push b", "update x (PR #1) a → main", "push a"]);
}

#[test]
fn test_registry_keeps_kinds_apart() {
    let mut registry = NodeRegistry::new();
    registry.register_push("a", 0);
    registry.register_update("a", 1);
    registry.register_create("b", 2);
    registry.register_publish("a", 3);
    assert_eq!(registry.len(), 4);
    assert_eq!(registry.lookup(StepKind::Push, "a"), Some(0));
    assert_eq!(registry.lookup(StepKind::UpdateBase, "a"), Some(1));
    assert_eq!(registry.lookup(StepKind::CreatePr, "a"), None);
    assert_eq!(registry.lookup(StepKind::CreatePr, "b"), Some(2));
    assert_eq!(registry.lookup(StepKind::PublishPr, "a"), Some(3));
    registry.register_push("a", 4);
    assert_eq!(registry.len(), 4);
    assert_eq!(registry.lookup(StepKind::Push, "a"), Some(4));
    let constraint = ExecutionConstraint::PushBeforeRetarget {
        base: PushRef("a".to_string()),
        pr: UpdateRef("a".to_string()),
    };
    assert_eq!(constraint.resolve(&registry), Some((4, 1)));
    let unresolved = ExecutionConstraint::PushOrder {
        parent: PushRef("a".to_string()),
        child: PushRef("zzz".to_string()),
    };
    assert_eq!(unresolved.resolve(&registry), None);
}

#[test]
fn test_nodes_are_made_in_phases() {
    let segments = vec![make_segment("a"), make_segment("b")];
    let pushes = vec![
        make_bookmark("b", false, false),
        make_bookmark("z", false, false),
        make_bookmark("a", false, false),
        make_bookmark("z", true, false),
    ];
    let bm_a = make_bookmark("a", false, false);
    let bm_b = make_bookmark("b", false, false);
    let updates = vec![make_update(&bm_b, "main", "a", 2)];
    let creates = vec![make_create(&bm_a, "main")];
    let publishes = vec![make_pr(9, "q", "main")];
    let (nodes, registry) =
        build_execution_nodes(&segments, &pushes, &updates, &creates, &publishes);
    let texts: Vec<String> = nodes.iter().map(|n| n.step.description()).collect();
    assert_eq!(
        texts,
        vec![
            "push a",
            "push b",
            "push z",
            "update b (PR #2) main → a",
            "create PR a → main (Add a)",
            "publish PR #9 (q)",
        ]
    );
    let orders: Vec<usize> = nodes.iter().map(|n| n.order).collect();
    assert_eq!(orders, vec![0, 1, 2, 3, 4, 5]);
    assert_eq!(registry.len(), 6);
    assert_eq!(registry.lookup(StepKind::PublishPr, "q"), Some(5));
    // Of two bookmarks called z the first is pushed.
    match &nodes[2].step {
        ExecutionStep::Push(bookmark) => assert!(!bookmark.has_remote),
        other => panic!("unexpected step {other:?}"),
    }
}

#[test]
fn test_planning_twice_gives_the_same_steps() {
    let analysis = make_analysis(unsynced(&["feat-b", "feat-a", "feat-c"]));
    let prs = vec![make_pr(1, "feat-a", "main"), make_pr(2, "feat-b", "feat-a")];
    let first = create_submission_plan(&analysis, pr_map(prs.clone()), "origin", "main").unwrap();
    let second = create_submission_plan(&analysis, pr_map(prs), "origin", "main").unwrap();
    assert_eq!(descriptions(&first.execution_steps), descriptions(&second.execution_steps));
    let first_constraints: Vec<String> = first.constraints.iter().map(|c| c.description()).collect();
    let second_constraints: Vec<String> =
        second.constraints.iter().map(|c| c.description()).collect();
    assert_eq!(first_constraints, second_constraints);
}

#[test]
fn test_default_branch_among_the_bookmarks_can_contradict() {
    // The stack holds a bookmark called like the default branch. The pull
    // request of x sits on a and belongs on main: it has to move before a
    // is pushed, after main is pushed, and main is pushed after a.
    let analysis = make_analysis(unsynced(&["x", "a", "main"]));
    let existing = pr_map(vec![make_pr(1, "x", "a")]);
    match create_submission_plan(&analysis, existing, "origin", "main") {
        Err(Error::SchedulerCycle { cycle_nodes, .. }) => {
            assert_eq!(
                cycle_nodes,
                vec![
                    "push a",
                    "push main",
                    "update x (PR #1) a → main",
                    "create PR a → x (Commit for a)",
                    "create PR main → a (Commit for main)",
                ]
            );
        }
        other => panic!("Expected SchedulerCycle error, got: {other:?}"),
    }
}
