//! Phase 2, the values: what a plan is made of.

use crate::name_map::NameMap;
use crate::text::{decimal, decimal_text};
use crate::types::{
    clone_narrowed, clone_pr_map, pr_views, Bookmark, BookmarkView, NarrowedBookmarkSegment,
    NarrowedSegmentView, PullRequest, PullRequestView,
};
use vstd::prelude::*;

verus! {

/// A pull request that has to be created.
#[derive(Debug)]
pub struct PrToCreate {
    /// The bookmark that the request is for.
    pub bookmark: Bookmark,
    /// The branch it is based on: the bookmark below, or the default branch.
    pub base_branch: String,
    /// Its title.
    pub title: String,
    /// Whether it is created as a draft.
    pub draft: bool,
}

/// The view of a [`PrToCreate`].
pub struct PrToCreateView {
    pub bookmark: BookmarkView,
    pub base_branch: Seq<char>,
    pub title: Seq<char>,
    pub draft: bool,
}

impl View for PrToCreate {
    type V = PrToCreateView;

    open spec fn view(&self) -> PrToCreateView {
        PrToCreateView {
            bookmark: self.bookmark@,
            base_branch: self.base_branch@,
            title: self.title@,
            draft: self.draft,
        }
    }
}

impl DeepView for PrToCreate {
    type V = PrToCreateView;

    open spec fn deep_view(&self) -> PrToCreateView {
        self@
    }
}

impl Clone for PrToCreate {
    fn clone(&self) -> (r: Self)
        ensures
            r@ == self@,
    {
        PrToCreate {
            bookmark: self.bookmark.clone(),
            base_branch: self.base_branch.clone(),
            title: self.title.clone(),
            draft: self.draft,
        }
    }
}

/// A pull request whose base has to change.
#[derive(Debug)]
pub struct PrBaseUpdate {
    /// The bookmark that the request is for.
    pub bookmark: Bookmark,
    /// The base that the platform reports.
    pub current_base: String,
    /// The base that the stack calls for.
    pub expected_base: String,
    /// The request as it exists.
    pub pr: PullRequest,
}

/// The view of a [`PrBaseUpdate`].
pub struct PrBaseUpdateView {
    pub bookmark: BookmarkView,
    pub current_base: Seq<char>,
    pub expected_base: Seq<char>,
    pub pr: PullRequestView,
}

impl View for PrBaseUpdate {
    type V = PrBaseUpdateView;

    open spec fn view(&self) -> PrBaseUpdateView {
        PrBaseUpdateView {
            bookmark: self.bookmark@,
            current_base: self.current_base@,
            expected_base: self.expected_base@,
            pr: self.pr@,
        }
    }
}

impl DeepView for PrBaseUpdate {
    type V = PrBaseUpdateView;

    open spec fn deep_view(&self) -> PrBaseUpdateView {
        self@
    }
}

impl Clone for PrBaseUpdate {
    fn clone(&self) -> (r: Self)
        ensures
            r@ == self@,
    {
        PrBaseUpdate {
            bookmark: self.bookmark.clone(),
            current_base: self.current_base.clone(),
            expected_base: self.expected_base.clone(),
            pr: self.pr.clone(),
        }
    }
}

/// One operation of a plan.
#[derive(Debug)]
pub enum ExecutionStep {
    /// Push a bookmark to the remote.
    Push(Bookmark),
    /// Change the base of a pull request.
    UpdateBase(PrBaseUpdate),
    /// Create a pull request.
    CreatePr(PrToCreate),
    /// Publish a draft pull request.
    PublishPr(PullRequest),
}

/// The four kinds of operation.
#[derive(Debug, Clone, Copy, PartialEq, Eq, Structural)]
pub enum StepKind {
    Push,
    UpdateBase,
    CreatePr,
    PublishPr,
}

/// The view of an [`ExecutionStep`].
pub enum StepView {
    Push(BookmarkView),
    UpdateBase(PrBaseUpdateView),
    CreatePr(PrToCreateView),
    PublishPr(PullRequestView),
}

impl StepView {
    /// The name of the bookmark that the operation is about.
    pub open spec fn bookmark_name(self) -> Seq<char> {
        match self {
            StepView::Push(bookmark) => bookmark.name,
            StepView::UpdateBase(update) => update.bookmark.name,
            StepView::CreatePr(create) => create.bookmark.name,
            StepView::PublishPr(pr) => pr.head_ref,
        }
    }

    /// The kind of the operation.
    pub open spec fn kind(self) -> StepKind {
        match self {
            StepView::Push(_) => StepKind::Push,
            StepView::UpdateBase(_) => StepKind::UpdateBase,
            StepView::CreatePr(_) => StepKind::CreatePr,
            StepView::PublishPr(_) => StepKind::PublishPr,
        }
    }

    /// The operation in words.
    pub open spec fn text(self) -> Seq<char> {
        match self {
            StepView::Push(bookmark) => "push "@ + bookmark.name,
            StepView::UpdateBase(update) => "update "@ + update.bookmark.name + " (PR #"@
                + decimal_text(update.pr.number as nat) + ") "@ + update.current_base + " → "@
                + update.expected_base,
            StepView::CreatePr(create) => "create PR "@ + create.bookmark.name + " → "@
                + create.base_branch + " ("@ + create.title + ")"@ + if create.draft {
                " [draft]"@
            } else {
                Seq::<char>::empty()
            },
            StepView::PublishPr(pr) => "publish PR #"@ + decimal_text(pr.number as nat) + " ("@
                + pr.head_ref + ")"@,
        }
    }
}

impl View for ExecutionStep {
    type V = StepView;

    open spec fn view(&self) -> StepView {
        match self {
            ExecutionStep::Push(bookmark) => StepView::Push(bookmark@),
            ExecutionStep::UpdateBase(update) => StepView::UpdateBase(update@),
            ExecutionStep::CreatePr(create) => StepView::CreatePr(create@),
            ExecutionStep::PublishPr(pr) => StepView::PublishPr(pr@),
        }
    }
}

impl DeepView for ExecutionStep {
    type V = StepView;

    open spec fn deep_view(&self) -> StepView {
        self@
    }
}

impl Clone for ExecutionStep {
    fn clone(&self) -> (r: Self)
        ensures
            r@ == self@,
    {
        match self {
            ExecutionStep::Push(bookmark) => ExecutionStep::Push(bookmark.clone()),
            ExecutionStep::UpdateBase(update) => ExecutionStep::UpdateBase(update.clone()),
            ExecutionStep::CreatePr(create) => ExecutionStep::CreatePr(create.clone()),
            ExecutionStep::PublishPr(pr) => ExecutionStep::PublishPr(pr.clone()),
        }
    }
}

impl ExecutionStep {
    /// The name of the bookmark that the operation is about.
    pub fn bookmark_name(&self) -> (r: &str)
        ensures
            r@ == self@.bookmark_name(),
    {
        match self {
            ExecutionStep::Push(bookmark) => bookmark.name.as_str(),
            ExecutionStep::UpdateBase(update) => update.bookmark.name.as_str(),
            ExecutionStep::CreatePr(create) => create.bookmark.name.as_str(),
            ExecutionStep::PublishPr(pr) => pr.head_ref.as_str(),
        }
    }

    /// The kind of the operation.
    pub fn kind(&self) -> (r: StepKind)
        ensures
            r == self@.kind(),
    {
        match self {
            ExecutionStep::Push(_) => StepKind::Push,
            ExecutionStep::UpdateBase(_) => StepKind::UpdateBase,
            ExecutionStep::CreatePr(_) => StepKind::CreatePr,
            ExecutionStep::PublishPr(_) => StepKind::PublishPr,
        }
    }

    /// The operation in words.
    pub fn description(&self) -> (r: String)
        ensures
            r@ == self@.text(),
    {
        match self {
            ExecutionStep::Push(bookmark) => {
                let mut r = String::from_str("push ");
                r.append(bookmark.name.as_str());
                r
            },
            ExecutionStep::UpdateBase(update) => {
                let number = decimal(update.pr.number);
                let mut r = String::from_str("update ");
                r.append(update.bookmark.name.as_str());
                r.append(" (PR #");
                r.append(number.as_str());
                r.append(") ");
                r.append(update.current_base.as_str());
                r.append(" → ");
                r.append(update.expected_base.as_str());
                r
            },
            ExecutionStep::CreatePr(create) => {
                let mut r = String::from_str("create PR ");
                r.append(create.bookmark.name.as_str());
                r.append(" → ");
                r.append(create.base_branch.as_str());
                r.append(" (");
                r.append(create.title.as_str());
                r.append(")");
                if create.draft {
                    r.append(" [draft]");
                } else {
                    assert(r@ + Seq::<char>::empty() =~= r@);
                }
                r
            },
            ExecutionStep::PublishPr(pr) => {
                let number = decimal(pr.number);
                let mut r = String::from_str("publish PR #");
                r.append(number.as_str());
                r.append(" (");
                r.append(pr.head_ref.as_str());
                r.append(")");
                r
            },
        }
    }
}

/// Copies a list of steps.
pub fn clone_steps(steps: &Vec<ExecutionStep>) -> (r: Vec<ExecutionStep>)
    ensures
        r.deep_view() == steps.deep_view(),
{
    let mut r: Vec<ExecutionStep> = Vec::new();
    let mut i: usize = 0;
    while i < steps.len()
        invariant
            i <= steps.len(),
            r.len() == i,
            forall|k: int| 0 <= k < i ==> r@[k]@ == steps@[k]@,
        decreases steps.len() - i,
    {
        r.push(steps[i].clone());
        i += 1;
    }
    assert(r.deep_view() =~= steps.deep_view());
    r
}

/// The name of a bookmark, standing for the push of that bookmark.
#[derive(Debug, PartialEq, Eq, Hash)]
pub struct PushRef(pub String);

/// The name of a bookmark, standing for the change of base of its pull request.
#[derive(Debug, PartialEq, Eq, Hash)]
pub struct UpdateRef(pub String);

/// The name of a bookmark, standing for the creation of its pull request.
#[derive(Debug, PartialEq, Eq, Hash)]
pub struct CreateRef(pub String);

impl View for PushRef {
    type V = Seq<char>;

    open spec fn view(&self) -> Seq<char> {
        self.0@
    }
}

impl View for UpdateRef {
    type V = Seq<char>;

    open spec fn view(&self) -> Seq<char> {
        self.0@
    }
}

impl View for CreateRef {
    type V = Seq<char>;

    open spec fn view(&self) -> Seq<char> {
        self.0@
    }
}

impl Clone for PushRef {
    fn clone(&self) -> (r: Self)
        ensures
            r@ == self@,
    {
        PushRef(self.0.clone())
    }
}

impl Clone for UpdateRef {
    fn clone(&self) -> (r: Self)
        ensures
            r@ == self@,
    {
        UpdateRef(self.0.clone())
    }
}

impl Clone for CreateRef {
    fn clone(&self) -> (r: Self)
        ensures
            r@ == self@,
    {
        CreateRef(self.0.clone())
    }
}

/// An ordering obligation between two operations. Each variant names its two
/// ends by bookmark; the kinds of the ends belong to the variant, so that no
/// obligation between ill-matched kinds can be written down. An obligation
/// may name an operation that the plan does not hold.
#[derive(Debug)]
#[allow(inconsistent_fields)]
pub enum ExecutionConstraint {
    /// Push the parent bookmark before the child.
    PushOrder {
        /// Pushed first.
        parent: PushRef,
        /// Pushed second.
        child: PushRef,
    },
    /// Push the new base before the request is retargeted to it.
    PushBeforeRetarget {
        /// The base to push.
        base: PushRef,
        /// The request to retarget.
        pr: UpdateRef,
    },
    /// Retarget the request before its former base, which has moved above
    /// it in the stack, is pushed.
    RetargetBeforePush {
        /// The request to retarget first.
        pr: UpdateRef,
        /// The former base, pushed after.
        old_base: PushRef,
    },
    /// Push the bookmark before its request is created.
    PushBeforeCreate {
        /// The bookmark to push.
        push: PushRef,
        /// The request to create.
        create: CreateRef,
    },
    /// Create the parent's request before the child's.
    CreateOrder {
        /// Created first.
        parent: CreateRef,
        /// Created second.
        child: CreateRef,
    },
}

/// The view of an [`ExecutionConstraint`].
#[allow(inconsistent_fields)]
pub enum ConstraintView {
    PushOrder { parent: Seq<char>, child: Seq<char> },
    PushBeforeRetarget { base: Seq<char>, pr: Seq<char> },
    RetargetBeforePush { pr: Seq<char>, old_base: Seq<char> },
    PushBeforeCreate { push: Seq<char>, create: Seq<char> },
    CreateOrder { parent: Seq<char>, child: Seq<char> },
}

impl ConstraintView {
    /// The kind and name of the operation that comes first.
    pub open spec fn first(self) -> (StepKind, Seq<char>) {
        match self {
            ConstraintView::PushOrder { parent, child } => (StepKind::Push, parent),
            ConstraintView::PushBeforeRetarget { base, pr } => (StepKind::Push, base),
            ConstraintView::RetargetBeforePush { pr, old_base } => (StepKind::UpdateBase, pr),
            ConstraintView::PushBeforeCreate { push, create } => (StepKind::Push, push),
            ConstraintView::CreateOrder { parent, child } => (StepKind::CreatePr, parent),
        }
    }

    /// The kind and name of the operation that comes second.
    pub open spec fn second(self) -> (StepKind, Seq<char>) {
        match self {
            ConstraintView::PushOrder { parent, child } => (StepKind::Push, child),
            ConstraintView::PushBeforeRetarget { base, pr } => (StepKind::UpdateBase, pr),
            ConstraintView::RetargetBeforePush { pr, old_base } => (StepKind::Push, old_base),
            ConstraintView::PushBeforeCreate { push, create } => (StepKind::CreatePr, create),
            ConstraintView::CreateOrder { parent, child } => (StepKind::CreatePr, child),
        }
    }

    /// The obligation in words.
    pub open spec fn text(self) -> Seq<char> {
        match self {
            ConstraintView::PushOrder { parent, child } => "Push("@ + parent + ") → Push("@
                + child + ")"@,
            ConstraintView::PushBeforeRetarget { base, pr } => "Push("@ + base
                + ") → UpdateBase("@ + pr + ")"@,
            ConstraintView::RetargetBeforePush { pr, old_base } => "UpdateBase("@ + pr
                + ") → Push("@ + old_base + ")"@,
            ConstraintView::PushBeforeCreate { push, create } => "Push("@ + push
                + ") → CreatePr("@ + create + ")"@,
            ConstraintView::CreateOrder { parent, child } => "CreatePr("@ + parent
                + ") → CreatePr("@ + child + ")"@,
        }
    }
}

impl View for ExecutionConstraint {
    type V = ConstraintView;

    open spec fn view(&self) -> ConstraintView {
        match self {
            ExecutionConstraint::PushOrder { parent, child } => ConstraintView::PushOrder {
                parent: parent@,
                child: child@,
            },
            ExecutionConstraint::PushBeforeRetarget {
                base,
                pr,
            } => ConstraintView::PushBeforeRetarget { base: base@, pr: pr@ },
            ExecutionConstraint::RetargetBeforePush {
                pr,
                old_base,
            } => ConstraintView::RetargetBeforePush { pr: pr@, old_base: old_base@ },
            ExecutionConstraint::PushBeforeCreate {
                push,
                create,
            } => ConstraintView::PushBeforeCreate { push: push@, create: create@ },
            ExecutionConstraint::CreateOrder { parent, child } => ConstraintView::CreateOrder {
                parent: parent@,
                child: child@,
            },
        }
    }
}

impl DeepView for ExecutionConstraint {
    type V = ConstraintView;

    open spec fn deep_view(&self) -> ConstraintView {
        self@
    }
}

impl Clone for ExecutionConstraint {
    fn clone(&self) -> (r: Self)
        ensures
            r@ == self@,
    {
        match self {
            ExecutionConstraint::PushOrder { parent, child } => ExecutionConstraint::PushOrder {
                parent: parent.clone(),
                child: child.clone(),
            },
            ExecutionConstraint::PushBeforeRetarget {
                base,
                pr,
            } => ExecutionConstraint::PushBeforeRetarget { base: base.clone(), pr: pr.clone() },
            ExecutionConstraint::RetargetBeforePush {
                pr,
                old_base,
            } => ExecutionConstraint::RetargetBeforePush {
                pr: pr.clone(),
                old_base: old_base.clone(),
            },
            ExecutionConstraint::PushBeforeCreate {
                push,
                create,
            } => ExecutionConstraint::PushBeforeCreate {
                push: push.clone(),
                create: create.clone(),
            },
            ExecutionConstraint::CreateOrder {
                parent,
                child,
            } => ExecutionConstraint::CreateOrder { parent: parent.clone(), child: child.clone() },
        }
    }
}

/// `a`, `b`, `c`, `d` and `e` in a row.
fn join5(a: &str, b: &str, c: &str, d: &str, e: &str) -> (r: String)
    ensures
        r@ == a@ + b@ + c@ + d@ + e@,
{
    let mut r = String::from_str(a);
    r.append(b);
    r.append(c);
    r.append(d);
    r.append(e);
    r
}

impl ExecutionConstraint {
    /// The obligation in words.
    pub fn description(&self) -> (r: String)
        ensures
            r@ == self@.text(),
    {
        match self {
            ExecutionConstraint::PushOrder { parent, child } => join5(
                "Push(",
                parent.0.as_str(),
                ") → Push(",
                child.0.as_str(),
                ")",
            ),
            ExecutionConstraint::PushBeforeRetarget { base, pr } => join5(
                "Push(",
                base.0.as_str(),
                ") → UpdateBase(",
                pr.0.as_str(),
                ")",
            ),
            ExecutionConstraint::RetargetBeforePush { pr, old_base } => join5(
                "UpdateBase(",
                pr.0.as_str(),
                ") → Push(",
                old_base.0.as_str(),
                ")",
            ),
            ExecutionConstraint::PushBeforeCreate { push, create } => join5(
                "Push(",
                push.0.as_str(),
                ") → CreatePr(",
                create.0.as_str(),
                ")",
            ),
            ExecutionConstraint::CreateOrder { parent, child } => join5(
                "CreatePr(",
                parent.0.as_str(),
                ") → CreatePr(",
                child.0.as_str(),
                ")",
            ),
        }
    }
}

/// Copies a list of constraints.
pub fn clone_constraints(list: &Vec<ExecutionConstraint>) -> (r: Vec<ExecutionConstraint>)
    ensures
        r.deep_view() == list.deep_view(),
{
    let mut r: Vec<ExecutionConstraint> = Vec::new();
    let mut i: usize = 0;
    while i < list.len()
        invariant
            i <= list.len(),
            r.len() == i,
            forall|k: int| 0 <= k < i ==> r@[k]@ == list@[k]@,
        decreases list.len() - i,
    {
        r.push(list[i].clone());
        i += 1;
    }
    assert(r.deep_view() =~= list.deep_view());
    r
}

/// What has to be done to make the remote reflect the local stack.
#[derive(Debug)]
pub struct SubmissionPlan {
    /// The segments that are submitted, trunk first.
    pub segments: Vec<NarrowedBookmarkSegment>,
    /// The ordering obligations that were collected (for display).
    pub constraints: Vec<ExecutionConstraint>,
    /// The operations, in the order in which they are carried out.
    pub execution_steps: Vec<ExecutionStep>,
    /// The pull requests that exist already, by bookmark name.
    pub existing_prs: NameMap<PullRequest>,
    /// The remote to push to.
    pub remote: String,
    /// The default branch of the repository.
    pub default_branch: String,
}

/// The view of a [`SubmissionPlan`].
pub struct PlanView {
    pub segments: Seq<NarrowedSegmentView>,
    pub constraints: Seq<ConstraintView>,
    pub execution_steps: Seq<StepView>,
    pub existing_prs: Map<Seq<char>, PullRequestView>,
    pub remote: Seq<char>,
    pub default_branch: Seq<char>,
}

/// How many steps of `steps` are of kind `kind`.
pub open spec fn count_kind(steps: Seq<StepView>, kind: StepKind) -> nat
    decreases steps.len(),
{
    if steps.len() == 0 {
        0
    } else {
        count_kind(steps.drop_last(), kind) + if steps.last().kind() == kind {
            1nat
        } else {
            0nat
        }
    }
}

/// A count of steps is at most the number of steps.
pub proof fn lemma_count_kind_bounded(steps: Seq<StepView>, kind: StepKind)
    ensures
        count_kind(steps, kind) <= steps.len(),
    decreases steps.len(),
{
    if steps.len() > 0 {
        lemma_count_kind_bounded(steps.drop_last(), kind);
    }
}

impl View for SubmissionPlan {
    type V = PlanView;

    open spec fn view(&self) -> PlanView {
        PlanView {
            segments: self.segments.deep_view(),
            constraints: self.constraints.deep_view(),
            execution_steps: self.execution_steps.deep_view(),
            existing_prs: pr_views(self.existing_prs@),
            remote: self.remote@,
            default_branch: self.default_branch@,
        }
    }
}

impl Clone for SubmissionPlan {
    fn clone(&self) -> (r: Self)
        ensures
            r@ == self@,
            r.existing_prs.names() == self.existing_prs.names(),
    {
        SubmissionPlan {
            segments: clone_narrowed(&self.segments),
            constraints: clone_constraints(&self.constraints),
            execution_steps: clone_steps(&self.execution_steps),
            existing_prs: clone_pr_map(&self.existing_prs),
            remote: self.remote.clone(),
            default_branch: self.default_branch.clone(),
        }
    }
}

impl SubmissionPlan {
    /// Whether there is nothing to do.
    pub fn is_empty(&self) -> (r: bool)
        ensures
            r == (self@.execution_steps.len() == 0),
    {
        self.execution_steps.len() == 0
    }

    /// How many steps are of kind `kind`.
    fn count(&self, kind: StepKind) -> (n: usize)
        ensures
            n == count_kind(self@.execution_steps, kind),
    {
        let ghost steps = self@.execution_steps;
        let mut n: usize = 0;
        let mut i: usize = 0;
        assert(steps.take(0) =~= Seq::empty());
        while i < self.execution_steps.len()
            invariant
                steps == self@.execution_steps,
                i <= self.execution_steps.len(),
                n <= i,
                n == count_kind(steps.take(i as int), kind),
            decreases self.execution_steps.len() - i,
        {
            proof {
                assert(steps.take(i + 1).drop_last() =~= steps.take(i as int));
                assert(steps.take(i + 1).last() == self.execution_steps@[i as int]@);
            }
            if self.execution_steps[i].kind() == kind {
                n += 1;
            }
            i += 1;
        }
        assert(steps.take(i as int) =~= steps);
        n
    }

    /// The number of pushes.
    pub fn count_pushes(&self) -> (n: usize)
        ensures
            n == count_kind(self@.execution_steps, StepKind::Push),
    {
        self.count(StepKind::Push)
    }

    /// The number of pull requests to create.
    pub fn count_creates(&self) -> (n: usize)
        ensures
            n == count_kind(self@.execution_steps, StepKind::CreatePr),
    {
        self.count(StepKind::CreatePr)
    }

    /// The number of base changes.
    pub fn count_updates(&self) -> (n: usize)
        ensures
            n == count_kind(self@.execution_steps, StepKind::UpdateBase),
    {
        self.count(StepKind::UpdateBase)
    }

    /// The number of drafts to publish.
    pub fn count_publishes(&self) -> (n: usize)
        ensures
            n == count_kind(self@.execution_steps, StepKind::PublishPr),
    {
        self.count(StepKind::PublishPr)
    }
}

} // verus!
