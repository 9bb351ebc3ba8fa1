//! Phase 3: what each answer of the workspace and the platform does to the
//! result of a submission.

use crate::error::{Error, ErrorView};
use crate::name_map::NameMap;
use crate::submit::plan::{
    ExecutionStep, PlanView, PrBaseUpdate, PrBaseUpdateView, PrToCreate, PrToCreateView,
    StepView, SubmissionPlan,
};
use crate::text::{clone_texts, decimal, decimal_text, join};
use crate::types::{pr_views, Bookmark, BookmarkView, PullRequest, PullRequestView};
use vstd::prelude::*;

verus! {

/// The result of a submission, built up step by step.
#[derive(Debug)]
pub struct SubmissionResult {
    /// Whether no step failed fatally.
    pub success: bool,
    /// The pull requests that were created.
    pub created_prs: Vec<PullRequest>,
    /// The pull requests that were retargeted or published.
    pub updated_prs: Vec<PullRequest>,
    /// The bookmarks that were pushed.
    pub pushed_bookmarks: Vec<String>,
    /// The errors that occurred, in order.
    pub errors: Vec<String>,
}

/// The view of a [`SubmissionResult`].
pub struct ResultView {
    pub success: bool,
    pub created_prs: Seq<PullRequestView>,
    pub updated_prs: Seq<PullRequestView>,
    pub pushed_bookmarks: Seq<Seq<char>>,
    pub errors: Seq<Seq<char>>,
}

impl ResultView {
    /// The result before anything has happened.
    pub open spec fn fresh() -> ResultView {
        ResultView {
            success: true,
            created_prs: Seq::empty(),
            updated_prs: Seq::empty(),
            pushed_bookmarks: Seq::empty(),
            errors: Seq::empty(),
        }
    }

    /// The result after a fatal error.
    pub open spec fn failed(self, error: Seq<char>) -> ResultView {
        ResultView { success: false, errors: self.errors.push(error), ..self }
    }

    /// The result after an error that does not stop the submission.
    pub open spec fn warned(self, error: Seq<char>) -> ResultView {
        ResultView { errors: self.errors.push(error), ..self }
    }
}

impl View for SubmissionResult {
    type V = ResultView;

    open spec fn view(&self) -> ResultView {
        ResultView {
            success: self.success,
            created_prs: self.created_prs.deep_view(),
            updated_prs: self.updated_prs.deep_view(),
            pushed_bookmarks: self.pushed_bookmarks.deep_view(),
            errors: self.errors.deep_view(),
        }
    }
}

/// Copies a list of pull requests.
pub fn clone_prs(list: &Vec<PullRequest>) -> (r: Vec<PullRequest>)
    ensures
        r.deep_view() == list.deep_view(),
{
    let mut r: Vec<PullRequest> = Vec::new();
    let mut i: usize = 0;
    while i < list.len()
        invariant
            i <= list.len(),
            r.len() == i,
            forall|k: int| 0 <= k < i ==> r@[k]@ == list@[k]@,
        decreases list.len() - i,
    {
        r.push(list[i].clone());
        i += 1;
    }
    assert(r.deep_view() =~= list.deep_view());
    r
}

impl Clone for SubmissionResult {
    fn clone(&self) -> (r: Self)
        ensures
            r@ == self@,
    {
        SubmissionResult {
            success: self.success,
            created_prs: clone_prs(&self.created_prs),
            updated_prs: clone_prs(&self.updated_prs),
            pushed_bookmarks: clone_texts(&self.pushed_bookmarks),
            errors: clone_texts(&self.errors),
        }
    }
}

impl Default for SubmissionResult {
    fn default() -> (r: Self)
        ensures
            r@ == (ResultView { success: false, ..ResultView::fresh() }),
    {
        let r = SubmissionResult {
            success: false,
            created_prs: Vec::new(),
            updated_prs: Vec::new(),
            pushed_bookmarks: Vec::new(),
            errors: Vec::new(),
        };
        assert(r.created_prs.deep_view() =~= Seq::empty());
        assert(r.updated_prs.deep_view() =~= Seq::empty());
        assert(r.pushed_bookmarks.deep_view() =~= Seq::empty());
        assert(r.errors.deep_view() =~= Seq::empty());
        r
    }
}

impl SubmissionResult {
    /// A result that reports success and holds nothing else.
    pub fn new() -> (r: Self)
        ensures
            r@ == ResultView::fresh(),
    {
        let r = SubmissionResult {
            success: true,
            created_prs: Vec::new(),
            updated_prs: Vec::new(),
            pushed_bookmarks: Vec::new(),
            errors: Vec::new(),
        };
        assert(r.created_prs.deep_view() =~= Seq::empty());
        assert(r.updated_prs.deep_view() =~= Seq::empty());
        assert(r.pushed_bookmarks.deep_view() =~= Seq::empty());
        assert(r.errors.deep_view() =~= Seq::empty());
        r
    }

    /// Records a fatal error: the submission has failed.
    pub fn fail(&mut self, error: String)
        ensures
            final(self)@ == old(self)@.failed(error@),
    {
        let ghost before = self.errors.deep_view();
        self.errors.push(error);
        self.success = false;
        assert(self.errors.deep_view() =~= before.push(error@));
    }

    /// Records an error that does not stop the submission.
    pub fn soft_fail(&mut self, error: String)
        ensures
            final(self)@ == old(self)@.warned(error@),
    {
        let ghost before = self.errors.deep_view();
        self.errors.push(error);
        assert(self.errors.deep_view() =~= before.push(error@));
    }
}

/// How one step ended.
#[derive(Debug)]
pub enum StepOutcome {
    /// The step succeeded; where it touched a pull request, the bookmark
    /// and the request as it is now.
    Success(Option<(String, PullRequest)>),
    /// The step failed and the submission stops.
    FatalError(String),
    /// The step failed and the submission goes on.
    SoftError(String),
}

/// The view of a [`StepOutcome`].
pub enum OutcomeView {
    Success(Option<(Seq<char>, PullRequestView)>),
    FatalError(Seq<char>),
    SoftError(Seq<char>),
}

impl View for StepOutcome {
    type V = OutcomeView;

    open spec fn view(&self) -> OutcomeView {
        match self {
            StepOutcome::Success(Some((bookmark, pr))) => OutcomeView::Success(
                Some((bookmark@, pr@)),
            ),
            StepOutcome::Success(None) => OutcomeView::Success(None),
            StepOutcome::FatalError(message) => OutcomeView::FatalError(message@),
            StepOutcome::SoftError(message) => OutcomeView::SoftError(message@),
        }
    }
}

/// What the workspace or the platform is asked to do for a step.
#[derive(Debug)]
pub enum StepRequest {
    /// Push a bookmark to a remote.
    Push { bookmark: String, remote: String },
    /// Move a pull request onto another base.
    UpdatePrBase { number: u64, new_base: String },
    /// Create a pull request.
    CreatePr { head: String, base: String, title: String, draft: bool },
    /// Publish a draft.
    PublishPr { number: u64 },
}

/// The view of a [`StepRequest`].
pub enum RequestView {
    Push { bookmark: Seq<char>, remote: Seq<char> },
    UpdatePrBase { number: u64, new_base: Seq<char> },
    CreatePr { head: Seq<char>, base: Seq<char>, title: Seq<char>, draft: bool },
    PublishPr { number: u64 },
}

impl View for StepRequest {
    type V = RequestView;

    open spec fn view(&self) -> RequestView {
        match self {
            StepRequest::Push { bookmark, remote } => RequestView::Push {
                bookmark: bookmark@,
                remote: remote@,
            },
            StepRequest::UpdatePrBase { number, new_base } => RequestView::UpdatePrBase {
                number: *number,
                new_base: new_base@,
            },
            StepRequest::CreatePr { head, base, title, draft } => RequestView::CreatePr {
                head: head@,
                base: base@,
                title: title@,
                draft: *draft,
            },
            StepRequest::PublishPr { number } => RequestView::PublishPr { number: *number },
        }
    }
}

/// What a step asks of the workspace or the platform.
pub open spec fn request_of(step: StepView, remote: Seq<char>) -> RequestView {
    match step {
        StepView::Push(bookmark) => RequestView::Push { bookmark: bookmark.name, remote },
        StepView::UpdateBase(update) => RequestView::UpdatePrBase {
            number: update.pr.number,
            new_base: update.expected_base,
        },
        StepView::CreatePr(create) => RequestView::CreatePr {
            head: create.bookmark.name,
            base: create.base_branch,
            title: create.title,
            draft: create.draft,
        },
        StepView::PublishPr(pr) => RequestView::PublishPr { number: pr.number },
    }
}

/// What a step asks of the workspace or the platform.
pub fn step_request(step: &ExecutionStep, remote: &str) -> (r: StepRequest)
    ensures
        r@ == request_of(step@, remote@),
{
    match step {
        ExecutionStep::Push(bookmark) => StepRequest::Push {
            bookmark: bookmark.name.clone(),
            remote: String::from_str(remote),
        },
        ExecutionStep::UpdateBase(update) => StepRequest::UpdatePrBase {
            number: update.pr.number,
            new_base: update.expected_base.clone(),
        },
        ExecutionStep::CreatePr(create) => StepRequest::CreatePr {
            head: create.bookmark.name.clone(),
            base: create.base_branch.clone(),
            title: create.title.clone(),
            draft: create.draft,
        },
        ExecutionStep::PublishPr(pr) => StepRequest::PublishPr { number: pr.number },
    }
}

/// What is announced before a step runs; pushes are announced otherwise.
pub open spec fn announcement_of(step: StepView) -> Option<Seq<char>> {
    match step {
        StepView::Push(bookmark) => None,
        StepView::UpdateBase(update) => Some(
            "Updating "@ + update.bookmark.name + " base: "@ + update.current_base + " → "@
                + update.expected_base,
        ),
        StepView::CreatePr(create) => Some(
            "Creating PR for "@ + create.bookmark.name + " (base: "@ + create.base_branch + ")"@
                + if create.draft {
                " [draft]"@
            } else {
                Seq::<char>::empty()
            },
        ),
        StepView::PublishPr(pr) => Some(
            "Publishing PR #"@ + decimal_text(pr.number as nat) + " ("@ + pr.head_ref + ")"@,
        ),
    }
}

/// What is announced before a step runs.
pub fn step_announcement(step: &ExecutionStep) -> (r: Option<String>)
    ensures
        r.deep_view() == announcement_of(step@),
{
    match step {
        ExecutionStep::Push(_) => None,
        ExecutionStep::UpdateBase(update) => {
            let mut r = String::from_str("Updating ");
            r.append(update.bookmark.name.as_str());
            r.append(" base: ");
            r.append(update.current_base.as_str());
            r.append(" → ");
            r.append(update.expected_base.as_str());
            Some(r)
        },
        ExecutionStep::CreatePr(create) => {
            let mut r = String::from_str("Creating PR for ");
            r.append(create.bookmark.name.as_str());
            r.append(" (base: ");
            r.append(create.base_branch.as_str());
            r.append(")");
            if create.draft {
                r.append(" [draft]");
            } else {
                assert(r@ + Seq::<char>::empty() =~= r@);
            }
            Some(r)
        },
        ExecutionStep::PublishPr(pr) => {
            let number = decimal(pr.number);
            let mut r = String::from_str("Publishing PR #");
            r.append(number.as_str());
            r.append(" (");
            r.append(pr.head_ref.as_str());
            r.append(")");
            Some(r)
        },
    }
}

/// The outcome of a push: success, or a fatal error that names the bookmark.
pub open spec fn push_outcome(bookmark: BookmarkView, answer: Result<(), ErrorView>)
    -> OutcomeView {
    match answer {
        Ok(_) => OutcomeView::Success(None),
        Err(error) => OutcomeView::FatalError(
            "Failed to push "@ + bookmark.name + ": "@ + error.text(),
        ),
    }
}

/// The outcome of a change of base: the request as it is now, or a fatal
/// error that names the bookmark.
pub open spec fn update_outcome(update: PrBaseUpdateView, answer: Result<PullRequestView, ErrorView>)
    -> OutcomeView {
    match answer {
        Ok(pr) => OutcomeView::Success(Some((update.bookmark.name, pr))),
        Err(error) => OutcomeView::FatalError(
            "Failed to update PR base for "@ + update.bookmark.name + ": "@ + error.text(),
        ),
    }
}

/// The outcome of a creation: the new request, or a fatal error that names
/// the bookmark.
pub open spec fn create_outcome(create: PrToCreateView, answer: Result<PullRequestView, ErrorView>)
    -> OutcomeView {
    match answer {
        Ok(pr) => OutcomeView::Success(Some((create.bookmark.name, pr))),
        Err(error) => OutcomeView::FatalError(
            "Failed to create PR for "@ + create.bookmark.name + ": "@ + error.text(),
        ),
    }
}

/// The outcome of a publication: the request as it is now, or an error
/// that does not stop the submission.
pub open spec fn publish_outcome(pr: PullRequestView, answer: Result<PullRequestView, ErrorView>)
    -> OutcomeView {
    match answer {
        Ok(updated) => OutcomeView::Success(Some((pr.head_ref, updated))),
        Err(error) => OutcomeView::SoftError(
            "Failed to publish PR #"@ + decimal_text(pr.number as nat) + ": "@ + error.text(),
        ),
    }
}

/// The view of the workspace's answer to a push.
pub open spec fn push_answer_view(answer: Result<(), Error>) -> Result<(), ErrorView> {
    match answer {
        Ok(_) => Ok(()),
        Err(error) => Err(error@),
    }
}

/// The view of the platform's answer to a request about a pull request.
pub open spec fn pr_answer_view(answer: Result<PullRequest, Error>) -> Result<
    PullRequestView,
    ErrorView,
> {
    match answer {
        Ok(pr) => Ok(pr@),
        Err(error) => Err(error@),
    }
}

/// `a`, `b`, `c` and `d` in a row.
fn join4(a: &str, b: &str, c: &str, d: &str) -> (r: String)
    ensures
        r@ == a@ + b@ + c@ + d@,
{
    let mut r = String::from_str(a);
    r.append(b);
    r.append(c);
    r.append(d);
    r
}

/// Turns the workspace's answer to a push into the outcome of the step. A
/// push that fails is fatal.
pub fn execute_push(bookmark: &Bookmark, answer: Result<(), Error>) -> (r: StepOutcome)
    ensures
        r@ == push_outcome(bookmark@, push_answer_view(answer)),
{
    match answer {
        Ok(_) => StepOutcome::Success(None),
        Err(error) => StepOutcome::FatalError(
            join4("Failed to push ", bookmark.name.as_str(), ": ", error.message().as_str()),
        ),
    }
}

/// Turns the platform's answer to a change of base into the outcome of the
/// step. A change of base that fails is fatal.
pub fn execute_update_base(update: &PrBaseUpdate, answer: Result<PullRequest, Error>) -> (r:
    StepOutcome)
    ensures
        r@ == update_outcome(update@, pr_answer_view(answer)),
{
    match answer {
        Ok(pr) => StepOutcome::Success(Some((update.bookmark.name.clone(), pr))),
        Err(error) => StepOutcome::FatalError(
            join4(
                "Failed to update PR base for ",
                update.bookmark.name.as_str(),
                ": ",
                error.message().as_str(),
            ),
        ),
    }
}

/// Turns the platform's answer to a creation into the outcome of the step.
/// A creation that fails is fatal.
pub fn execute_create_pr(create: &PrToCreate, answer: Result<PullRequest, Error>) -> (r:
    StepOutcome)
    ensures
        r@ == create_outcome(create@, pr_answer_view(answer)),
{
    match answer {
        Ok(pr) => StepOutcome::Success(Some((create.bookmark.name.clone(), pr))),
        Err(error) => StepOutcome::FatalError(
            join4(
                "Failed to create PR for ",
                create.bookmark.name.as_str(),
                ": ",
                error.message().as_str(),
            ),
        ),
    }
}

/// Turns the platform's answer to a publication into the outcome of the
/// step. A publication that fails does not stop the submission.
pub fn execute_publish_pr(pr: &PullRequest, answer: Result<PullRequest, Error>) -> (r:
    StepOutcome)
    ensures
        r@ == publish_outcome(pr@, pr_answer_view(answer)),
{
    match answer {
        Ok(updated) => StepOutcome::Success(Some((pr.head_ref.clone(), updated))),
        Err(error) => {
            let number = decimal(pr.number);
            StepOutcome::SoftError(
                join4("Failed to publish PR #", number.as_str(), ": ", error.message().as_str()),
            )
        },
    }
}

/// Where a submission stands: its result so far, and the pull request of
/// each bookmark as far as it is known.
pub struct Progress {
    pub result: ResultView,
    pub prs: Map<Seq<char>, PullRequestView>,
    pub stopped: bool,
}

/// Where a submission stands after `outcome` of `step`.
///
/// A pull request that comes back is remembered under its bookmark, and
/// listed as created or as updated by the kind of the step. A push that
/// succeeds is listed. A fatal error is recorded, fails the submission and
/// stops it; any other error is recorded and nothing else.
pub open spec fn after_outcome(before: Progress, step: StepView, outcome: OutcomeView) -> Progress {
    match outcome {
        OutcomeView::Success(Some((bookmark, pr))) => Progress {
            result: match step {
                StepView::CreatePr(_) => ResultView {
                    created_prs: before.result.created_prs.push(pr),
                    ..before.result
                },
                StepView::UpdateBase(_) => ResultView {
                    updated_prs: before.result.updated_prs.push(pr),
                    ..before.result
                },
                StepView::PublishPr(_) => ResultView {
                    updated_prs: before.result.updated_prs.push(pr),
                    ..before.result
                },
                StepView::Push(_) => before.result,
            },
            prs: before.prs.insert(bookmark, pr),
            stopped: before.stopped,
        },
        OutcomeView::Success(None) => Progress {
            result: match step {
                StepView::Push(bookmark) => ResultView {
                    pushed_bookmarks: before.result.pushed_bookmarks.push(bookmark.name),
                    ..before.result
                },
                _ => before.result,
            },
            ..before
        },
        OutcomeView::FatalError(message) => Progress {
            result: before.result.failed(message),
            stopped: true,
            ..before
        },
        OutcomeView::SoftError(message) => Progress {
            result: before.result.warned(message),
            ..before
        },
    }
}

/// Records the outcome of a step in the result and in the map of known
/// pull requests. Returns whether the submission goes on.
pub fn record_outcome(
    result: &mut SubmissionResult,
    bookmark_to_pr: &mut NameMap<PullRequest>,
    step: &ExecutionStep,
    outcome: StepOutcome,
) -> (go_on: bool)
    ensures
        (Progress {
            result: final(result)@,
            prs: pr_views(final(bookmark_to_pr)@),
            stopped: !go_on,
        }) == after_outcome(
            Progress { result: old(result)@, prs: pr_views(old(bookmark_to_pr)@), stopped: false },
            step@,
            outcome@,
        ),
{
    let ghost before_prs = pr_views(bookmark_to_pr@);
    match outcome {
        StepOutcome::Success(Some((bookmark, pr))) => {
            match step {
                ExecutionStep::CreatePr(_) => {
                    let ghost list = result.created_prs.deep_view();
                    result.created_prs.push(pr.clone());
                    assert(result.created_prs.deep_view() =~= list.push(pr@));
                },
                ExecutionStep::UpdateBase(_) => {
                    let ghost list = result.updated_prs.deep_view();
                    result.updated_prs.push(pr.clone());
                    assert(result.updated_prs.deep_view() =~= list.push(pr@));
                },
                ExecutionStep::PublishPr(_) => {
                    let ghost list = result.updated_prs.deep_view();
                    result.updated_prs.push(pr.clone());
                    assert(result.updated_prs.deep_view() =~= list.push(pr@));
                },
                ExecutionStep::Push(_) => {},
            }
            let ghost name = bookmark@;
            let ghost view = pr@;
            bookmark_to_pr.insert(bookmark, pr);
            assert(pr_views(bookmark_to_pr@) =~= before_prs.insert(name, view));
            true
        },
        StepOutcome::Success(None) => {
            match step {
                ExecutionStep::Push(bookmark) => {
                    let ghost list = result.pushed_bookmarks.deep_view();
                    result.pushed_bookmarks.push(bookmark.name.clone());
                    assert(result.pushed_bookmarks.deep_view() =~= list.push(bookmark@.name));
                },
                _ => {},
            }
            true
        },
        StepOutcome::FatalError(message) => {
            result.fail(message);
            false
        },
        StepOutcome::SoftError(message) => {
            result.soft_fail(message);
            true
        },
    }
}

/// Where a submission stands after the outcomes of its first `count`
/// steps. Once it has stopped, nothing more is recorded.
pub open spec fn after_outcomes(
    start: Progress,
    steps: Seq<StepView>,
    outcomes: Seq<OutcomeView>,
    count: nat,
) -> Progress
    decreases count,
{
    if count == 0 {
        start
    } else {
        let before = after_outcomes(start, steps, outcomes, (count - 1) as nat);
        if before.stopped {
            before
        } else {
            after_outcome(before, steps[count - 1], outcomes[count - 1])
        }
    }
}

/// The beginning of a submission: nothing has happened, and the pull
/// requests that exist are known.
pub open spec fn beginning(plan: PlanView) -> Progress {
    Progress { result: ResultView::fresh(), prs: plan.existing_prs, stopped: false }
}

/// A submission stops and fails exactly if an outcome is fatal; errors of
/// any other kind leave its success untouched. No error is ever forgotten.
pub proof fn lemma_only_fatal_outcomes_fail(
    start: Progress,
    steps: Seq<StepView>,
    outcomes: Seq<OutcomeView>,
    count: nat,
)
    requires
        start.result.success,
        !start.stopped,
        count <= outcomes.len(),
    ensures
        after_outcomes(start, steps, outcomes, count).stopped == exists|i: int|
            0 <= i < count && (#[trigger] outcomes[i]) is FatalError,
        after_outcomes(start, steps, outcomes, count).result.success == !after_outcomes(
            start,
            steps,
            outcomes,
            count,
        ).stopped,
        start.result.errors.len() <= after_outcomes(
            start,
            steps,
            outcomes,
            count,
        ).result.errors.len(),
        after_outcomes(start, steps, outcomes, count).result.errors.take(
            start.result.errors.len() as int,
        ) == start.result.errors,
    decreases count,
{
    if count > 0 {
        let shorter = (count - 1) as nat;
        lemma_only_fatal_outcomes_fail(start, steps, outcomes, shorter);
        let before = after_outcomes(start, steps, outcomes, shorter);
        let after = after_outcomes(start, steps, outcomes, count);
        if before.stopped {
            let i = choose|i: int| 0 <= i < shorter && (#[trigger] outcomes[i]) is FatalError;
            assert(0 <= i < count);
        } else {
            if outcomes[count - 1] is FatalError {
            } else {
                if exists|i: int| 0 <= i < count && (#[trigger] outcomes[i]) is FatalError {
                    let i = choose|i: int| 0 <= i < count && (#[trigger] outcomes[i]) is FatalError;
                    assert(0 <= i < shorter);
                }
            }
        }
        assert(after.result.errors.take(start.result.errors.len() as int)
            =~= before.result.errors.take(start.result.errors.len() as int));
    } else {
        assert(start.result.errors.take(start.result.errors.len() as int)
            =~= start.result.errors);
    }
}

/// The line that a dry run shows for a step.
pub open spec fn dry_run_line(step: StepView, remote: Seq<char>) -> Seq<char> {
    match step {
        StepView::Push(bookmark) => "  → push "@ + bookmark.name + " to "@ + remote,
        _ => "  → "@ + step.text(),
    }
}

/// The line that a dry run shows for a step. A push names its remote.
pub fn format_step_for_dry_run(step: &ExecutionStep, remote: &str) -> (r: String)
    ensures
        r@ == dry_run_line(step@, remote@),
{
    match step {
        ExecutionStep::Push(bookmark) => join4(
            "  → push ",
            bookmark.name.as_str(),
            " to ",
            remote,
        ),
        _ => join("  → ", step.description().as_str()),
    }
}

/// What a dry run reports for a plan: one line for each step under a
/// heading, or a single line where there is nothing to do.
pub open spec fn dry_run_report(plan: PlanView) -> Seq<Seq<char>> {
    if plan.execution_steps.len() == 0 {
        seq!["Nothing to do - already in sync"@]
    } else {
        seq!["Would execute:"@] + plan.execution_steps.map_values(
            |step: StepView| dry_run_line(step, plan.remote),
        )
    }
}

/// What a dry run reports for a plan.
pub fn report_dry_run(plan: &SubmissionPlan) -> (lines: Vec<String>)
    ensures
        lines.deep_view() == dry_run_report(plan@),
{
    let mut lines: Vec<String> = Vec::new();
    if plan.execution_steps.len() == 0 {
        lines.push(String::from_str("Nothing to do - already in sync"));
        assert(lines.deep_view() =~= dry_run_report(plan@));
        return lines;
    }
    lines.push(String::from_str("Would execute:"));
    let mut i: usize = 0;
    while i < plan.execution_steps.len()
        invariant
            i <= plan.execution_steps.len(),
            lines.len() == i + 1,
            lines@[0]@ == "Would execute:"@,
            forall|k: int|
                0 <= k < i ==> lines@[k + 1]@ == dry_run_line(
                    plan.execution_steps@[k]@,
                    plan.remote@,
                ),
        decreases plan.execution_steps.len() - i,
    {
        lines.push(format_step_for_dry_run(&plan.execution_steps[i], plan.remote.as_str()));
        i += 1;
    }
    assert(lines.deep_view() =~= dry_run_report(plan@));
    lines
}

} // verus!
