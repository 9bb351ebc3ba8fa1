use jj_ryu::name_map::NameMap;
use jj_ryu::submit::{
    execute_create_pr, execute_publish_pr, execute_push, execute_update_base,
    format_step_for_dry_run, record_outcome, report_dry_run, step_announcement, step_request,
    ExecutionStep, PrBaseUpdate, PrToCreate, StepOutcome, StepRequest, SubmissionPlan,
    SubmissionResult,
};
use jj_ryu::types::{Bookmark, NarrowedBookmarkSegment, PullRequest};
use jj_ryu::Error;

fn make_pr(number: u64, bookmark: &str) -> PullRequest {
    PullRequest {
        number,
        html_url: format!("https://github.com/test/test/pull/{number}"),
        base_ref: "main".to_string(),
        head_ref: bookmark.to_string(),
        title: format!("PR for {bookmark}"),
        node_id: Some(format!("PR_node_{number}")),
        is_draft: false,
    }
}

fn make_bookmark(name: &str) -> Bookmark {
    Bookmark {
        name: name.to_string(),
        commit_id: format!("{name}_commit"),
        change_id: format!("{name}_change"),
        has_remote: false,
        is_synced: false,
    }
}

fn empty_plan(steps: Vec<ExecutionStep>, segments: Vec<NarrowedBookmarkSegment>) -> SubmissionPlan {
    SubmissionPlan {
        segments,
        constraints: vec![],
        execution_steps: steps,
        existing_prs: NameMap::new(),
        remote: "origin".to_string(),
        default_branch: "main".to_string(),
    }
}

#[test]
fn test_submission_result_new() {
    let result = SubmissionResult::new();
    assert!(result.success);
    assert!(result.errors.is_empty());
}

#[test]
fn test_submission_result_fail() {
    let mut result = SubmissionResult::new();
    result.fail("something went wrong".to_string());

    assert!(!result.success);
    assert_eq!(result.errors.len(), 1);
    assert_eq!(result.errors[0], "something went wrong");
}

#[test]
fn test_submission_result_soft_fail() {
    let mut result = SubmissionResult::new();
    result.soft_fail("minor issue".to_string());

    assert!(result.success);
    assert_eq!(result.errors.len(), 1);
}

#[test]
fn test_step_outcome_success_without_pr() {
    let outcome = StepOutcome::Success(None);
    assert!(matches!(outcome, StepOutcome::Success(None)));
}

#[test]
fn test_step_outcome_success_with_pr() {
    let pr = make_pr(1, "feat-a");
    let outcome = StepOutcome::Success(Some(("feat-a".to_string(), pr)));
    assert!(matches!(outcome, StepOutcome::Success(Some(_))));
}

#[test]
fn test_step_outcome_fatal_error() {
    let outcome = StepOutcome::FatalError("boom".to_string());
    assert!(matches!(outcome, StepOutcome::FatalError(_)));
}

#[test]
fn test_step_outcome_soft_error() {
    let outcome = StepOutcome::SoftError("minor".to_string());
    assert!(matches!(outcome, StepOutcome::SoftError(_)));
}

#[test]
fn test_format_step_push() {
    let bm = make_bookmark("feat-a");
    let step = ExecutionStep::Push(bm);
    let output = format_step_for_dry_run(&step, "origin");
    assert_eq!(output, "  → push feat-a to origin");
}

#[test]
fn test_format_step_create_pr() {
    let bm = make_bookmark("feat-a");
    let create = PrToCreate {
        bookmark: bm,
        base_branch: "main".to_string(),
        title: "Add feature".to_string(),
        draft: false,
    };
    let step = ExecutionStep::CreatePr(create);
    let output = format_step_for_dry_run(&step, "origin");
    assert_eq!(output, "  → create PR feat-a → main (Add feature)");
}

#[test]
fn test_format_step_create_pr_draft() {
    let bm = make_bookmark("feat-a");
    let create = PrToCreate {
        bookmark: bm,
        base_branch: "main".to_string(),
        title: "Add feature".to_string(),
        draft: true,
    };
    let step = ExecutionStep::CreatePr(create);
    let output = format_step_for_dry_run(&step, "origin");
    assert!(output.contains("[draft]"));
    assert_eq!(output, "  → create PR feat-a → main (Add feature) [draft]");
}

#[test]
fn test_format_step_update_base() {
    let bm = make_bookmark("feat-b");
    let update = PrBaseUpdate {
        bookmark: bm,
        current_base: "main".to_string(),
        expected_base: "feat-a".to_string(),
        pr: make_pr(42, "feat-b"),
    };
    let step = ExecutionStep::UpdateBase(update);
    let output = format_step_for_dry_run(&step, "origin");
    assert_eq!(output, "  → update feat-b (PR #42) main → feat-a");
}

#[test]
fn test_format_step_publish() {
    let pr = make_pr(99, "feat-a");
    let step = ExecutionStep::PublishPr(pr);
    let output = format_step_for_dry_run(&step, "origin");
    assert_eq!(output, "  → publish PR #99 (feat-a)");
}

#[test]
fn execute_test_plan_is_empty() {
    let plan = empty_plan(vec![], vec![]);
    assert!(plan.is_empty());
}

#[test]
fn execute_test_plan_counts() {
    let bm = make_bookmark("feat-a");
    let plan = empty_plan(
        vec![
            ExecutionStep::Push(bm.clone()),
            ExecutionStep::CreatePr(PrToCreate {
                bookmark: bm.clone(),
                base_branch: "main".to_string(),
                title: "Add feat-a".to_string(),
                draft: false,
            }),
        ],
        vec![NarrowedBookmarkSegment { bookmark: bm, changes: vec![] }],
    );

    assert!(!plan.is_empty());
    assert_eq!(plan.count_pushes(), 1);
    assert_eq!(plan.count_creates(), 1);
    assert_eq!(plan.count_updates(), 0);
    assert_eq!(plan.count_publishes(), 0);
}

#[test]
fn test_dry_run_report_of_empty_plan() {
    let plan = empty_plan(vec![], vec![]);
    assert_eq!(report_dry_run(&plan), vec!["Nothing to do - already in sync".to_string()]);
}

#[test]
fn test_dry_run_report_lists_steps() {
    let plan = empty_plan(
        vec![
            ExecutionStep::Push(make_bookmark("feat-a")),
            ExecutionStep::PublishPr(make_pr(7, "feat-a")),
        ],
        vec![],
    );
    assert_eq!(
        report_dry_run(&plan),
        vec![
            "Would execute:".to_string(),
            "  → push feat-a to origin".to_string(),
            "  → publish PR #7 (feat-a)".to_string(),
        ]
    );
}

#[test]
fn test_step_descriptions() {
    assert_eq!(ExecutionStep::Push(make_bookmark("a")).description(), "push a");
    assert_eq!(ExecutionStep::PublishPr(make_pr(0, "a")).description(), "publish PR #0 (a)");
    assert_eq!(
        ExecutionStep::PublishPr(make_pr(18446744073709551615, "a")).description(),
        "publish PR #18446744073709551615 (a)"
    );
    assert_eq!(ExecutionStep::PublishPr(make_pr(1005, "x")).bookmark_name(), "x");
}

#[test]
fn test_step_requests() {
    let update = PrBaseUpdate {
        bookmark: make_bookmark("feat-b"),
        current_base: "main".to_string(),
        expected_base: "feat-a".to_string(),
        pr: make_pr(42, "feat-b"),
    };
    match step_request(&ExecutionStep::UpdateBase(update.clone()), "origin") {
        StepRequest::UpdatePrBase { number, new_base } => {
            assert_eq!(number, 42);
            assert_eq!(new_base, "feat-a");
        }
        other => panic!("unexpected request {other:?}"),
    }
    match step_request(&ExecutionStep::Push(make_bookmark("feat-a")), "upstream") {
        StepRequest::Push { bookmark, remote } => {
            assert_eq!(bookmark, "feat-a");
            assert_eq!(remote, "upstream");
        }
        other => panic!("unexpected request {other:?}"),
    }
    let create = PrToCreate {
        bookmark: make_bookmark("feat-a"),
        base_branch: "main".to_string(),
        title: "Add A".to_string(),
        draft: true,
    };
    match step_request(&ExecutionStep::CreatePr(create.clone()), "origin") {
        StepRequest::CreatePr { head, base, title, draft } => {
            assert_eq!(head, "feat-a");
            assert_eq!(base, "main");
            assert_eq!(title, "Add A");
            assert!(draft);
        }
        other => panic!("unexpected request {other:?}"),
    }
    assert_eq!(
        step_announcement(&ExecutionStep::UpdateBase(update)),
        Some("Updating feat-b base: main → feat-a".to_string())
    );
    assert_eq!(
        step_announcement(&ExecutionStep::CreatePr(create)),
        Some("Creating PR for feat-a (base: main) [draft]".to_string())
    );
    assert_eq!(
        step_announcement(&ExecutionStep::PublishPr(make_pr(3, "feat-c"))),
        Some("Publishing PR #3 (feat-c)".to_string())
    );
    assert_eq!(step_announcement(&ExecutionStep::Push(make_bookmark("feat-a"))), None);
}

#[test]
fn test_outcomes_of_answers() {
    let bm = make_bookmark("feat-a");
    assert!(matches!(execute_push(&bm, Ok(())), StepOutcome::Success(None)));
    match execute_push(&bm, Err(Error::Git("rejected".to_string()))) {
        StepOutcome::FatalError(message) => {
            assert_eq!(message, "Failed to push feat-a: git operation failed: rejected");
        }
        other => panic!("unexpected outcome {other:?}"),
    }
    let update = PrBaseUpdate {
        bookmark: make_bookmark("feat-b"),
        current_base: "main".to_string(),
        expected_base: "feat-a".to_string(),
        pr: make_pr(42, "feat-b"),
    };
    match execute_update_base(&update, Err(Error::Platform("no".to_string()))) {
        StepOutcome::FatalError(message) => {
            assert_eq!(message, "Failed to update PR base for feat-b: platform error: no");
        }
        other => panic!("unexpected outcome {other:?}"),
    }
    match execute_update_base(&update, Ok(make_pr(42, "feat-b"))) {
        StepOutcome::Success(Some((bookmark, pr))) => {
            assert_eq!(bookmark, "feat-b");
            assert_eq!(pr.number, 42);
        }
        other => panic!("unexpected outcome {other:?}"),
    }
    let create = PrToCreate {
        bookmark: make_bookmark("feat-a"),
        base_branch: "main".to_string(),
        title: "Add A".to_string(),
        draft: false,
    };
    match execute_create_pr(&create, Err(Error::Platform("no".to_string()))) {
        StepOutcome::FatalError(message) => {
            assert_eq!(message, "Failed to create PR for feat-a: platform error: no");
        }
        other => panic!("unexpected outcome {other:?}"),
    }
    match execute_publish_pr(&make_pr(9, "feat-a"), Err(Error::Platform("no".to_string()))) {
        StepOutcome::SoftError(message) => {
            assert_eq!(message, "Failed to publish PR #9: platform error: no");
        }
        other => panic!("unexpected outcome {other:?}"),
    }
    match execute_publish_pr(&make_pr(9, "feat-a"), Ok(make_pr(9, "feat-a"))) {
        StepOutcome::Success(Some((bookmark, _))) => assert_eq!(bookmark, "feat-a"),
        other => panic!("unexpected outcome {other:?}"),
    }
}

#[test]
fn test_publish_failure_is_soft() {
    // A push followed by a publication that the platform refuses.
    let push = ExecutionStep::Push(make_bookmark("feat-a"));
    let publish = ExecutionStep::PublishPr(make_pr(1, "feat-a"));
    let mut result = SubmissionResult::new();
    let mut prs: NameMap<PullRequest> = NameMap::new();
    prs.insert("feat-a".to_string(), make_pr(1, "feat-a"));

    let pushed = execute_push(&make_bookmark("feat-a"), Ok(()));
    assert!(record_outcome(&mut result, &mut prs, &push, pushed));
    let refused =
        execute_publish_pr(&make_pr(1, "feat-a"), Err(Error::Platform("publish failed".to_string())));
    assert!(record_outcome(&mut result, &mut prs, &publish, refused));

    assert!(result.success);
    assert_eq!(result.pushed_bookmarks, vec!["feat-a".to_string()]);
    assert_eq!(
        result.errors,
        vec!["Failed to publish PR #1: platform error: publish failed".to_string()]
    );
    assert!(result.updated_prs.is_empty());
    assert!(!prs.is_empty());
}

#[test]
fn test_fatal_outcome_stops_and_fails() {
    let create = PrToCreate {
        bookmark: make_bookmark("feat-a"),
        base_branch: "main".to_string(),
        title: "Add A".to_string(),
        draft: false,
    };
    let step = ExecutionStep::CreatePr(create.clone());
    let mut result = SubmissionResult::new();
    let mut prs: NameMap<PullRequest> = NameMap::new();
    let outcome = execute_create_pr(&create, Err(Error::Platform("down".to_string())));
    assert!(!record_outcome(&mut result, &mut prs, &step, outcome));
    assert!(!result.success);
    assert_eq!(result.errors.len(), 1);
    assert!(result.created_prs.is_empty());
    assert!(prs.is_empty());
}

#[test]
fn test_recorded_pull_requests() {
    let create = PrToCreate {
        bookmark: make_bookmark("feat-a"),
        base_branch: "main".to_string(),
        title: "Add A".to_string(),
        draft: false,
    };
    let update = PrBaseUpdate {
        bookmark: make_bookmark("feat-b"),
        current_base: "main".to_string(),
        expected_base: "feat-a".to_string(),
        pr: make_pr(2, "feat-b"),
    };
    let mut result = SubmissionResult::new();
    let mut prs: NameMap<PullRequest> = NameMap::new();
    prs.insert("feat-b".to_string(), make_pr(2, "feat-b"));

    let created = execute_create_pr(&create, Ok(make_pr(1, "feat-a")));
    assert!(record_outcome(&mut result, &mut prs, &ExecutionStep::CreatePr(create), created));
    let mut moved = make_pr(2, "feat-b");
    moved.base_ref = "feat-a".to_string();
    let updated = execute_update_base(&update, Ok(moved));
    assert!(record_outcome(&mut result, &mut prs, &ExecutionStep::UpdateBase(update), updated));

    assert_eq!(result.created_prs.len(), 1);
    assert_eq!(result.created_prs[0].number, 1);
    assert_eq!(result.updated_prs.len(), 1);
    assert_eq!(result.updated_prs[0].base_ref, "feat-a");
    assert_eq!(prs.len(), 2);
    assert_eq!(prs.get("feat-b").unwrap().base_ref, "feat-a");
    assert_eq!(prs.get("feat-a").unwrap().number, 1);
    assert_eq!(prs.name_at(0), "feat-b");
}
