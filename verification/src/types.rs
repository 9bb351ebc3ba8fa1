//! The data that the engine works on, each with its mathematical view.

use crate::name_map::NameMap;
use crate::text::{clone_optional_text, clone_texts};
use vstd::prelude::*;

verus! {

/// A named pointer to a commit, with what is known of its remote twin.
#[derive(Debug, PartialEq, Eq)]
pub struct Bookmark {
    /// Bookmark name.
    pub name: String,
    /// Commit identifier (hex).
    pub commit_id: String,
    /// Change identifier (hex).
    pub change_id: String,
    /// Whether the bookmark is tracked on a remote.
    pub has_remote: bool,
    /// Whether the tracked remote points at the local commit.
    pub is_synced: bool,
}

/// The view of a [`Bookmark`].
pub struct BookmarkView {
    pub name: Seq<char>,
    pub commit_id: Seq<char>,
    pub change_id: Seq<char>,
    pub has_remote: bool,
    pub is_synced: bool,
}

impl BookmarkView {
    /// A bookmark has to be pushed unless the remote already holds its commit.
    pub open spec fn needs_push(self) -> bool {
        !self.has_remote || !self.is_synced
    }
}

impl View for Bookmark {
    type V = BookmarkView;

    open spec fn view(&self) -> BookmarkView {
        BookmarkView {
            name: self.name@,
            commit_id: self.commit_id@,
            change_id: self.change_id@,
            has_remote: self.has_remote,
            is_synced: self.is_synced,
        }
    }
}

impl DeepView for Bookmark {
    type V = BookmarkView;

    open spec fn deep_view(&self) -> BookmarkView {
        self@
    }
}

impl Clone for Bookmark {
    fn clone(&self) -> (r: Self)
        ensures
            r@ == self@,
    {
        Bookmark {
            name: self.name.clone(),
            commit_id: self.commit_id.clone(),
            change_id: self.change_id.clone(),
            has_remote: self.has_remote,
            is_synced: self.is_synced,
        }
    }
}

impl Bookmark {
    /// Whether the bookmark must be pushed before its pull request is touched.
    pub fn needs_push(&self) -> (r: bool)
        ensures
            r == self@.needs_push(),
    {
        !self.has_remote || !self.is_synced
    }
}

/// Copies a list of bookmarks.
pub fn clone_bookmarks(list: &Vec<Bookmark>) -> (r: Vec<Bookmark>)
    ensures
        r.deep_view() == list.deep_view(),
{
    let mut r: Vec<Bookmark> = Vec::new();
    let mut i: usize = 0;
    while i < list.len()
        invariant
            i <= list.len(),
            r.len() == i,
            forall|k: int| 0 <= k < i ==> r@[k]@ == list@[k]@,
        decreases list.len() - i,
    {
        r.push(list[i].clone());
        i += 1;
    }
    assert(r.deep_view() =~= list.deep_view());
    r
}

/// One commit of the range between trunk and the working copy.
#[derive(Debug, PartialEq, Eq)]
pub struct LogEntry {
    /// Commit identifier (hex).
    pub commit_id: String,
    /// Change identifier (hex).
    pub change_id: String,
    /// Author name.
    pub author_name: String,
    /// Author email.
    pub author_email: String,
    /// First line of the description.
    pub description_first_line: String,
    /// Identifiers of the parent commits.
    pub parents: Vec<String>,
    /// Local bookmarks that point at this commit.
    pub local_bookmarks: Vec<String>,
    /// Remote bookmarks that point at this commit, as `name@remote`.
    pub remote_bookmarks: Vec<String>,
    /// Whether this is the working-copy commit.
    pub is_working_copy: bool,
    /// When the commit was authored, in milliseconds since the epoch.
    pub authored_at: i64,
    /// When the commit was committed, in milliseconds since the epoch.
    pub committed_at: i64,
}

/// The view of a [`LogEntry`].
pub struct LogEntryView {
    pub commit_id: Seq<char>,
    pub change_id: Seq<char>,
    pub author_name: Seq<char>,
    pub author_email: Seq<char>,
    pub description_first_line: Seq<char>,
    pub parents: Seq<Seq<char>>,
    pub local_bookmarks: Seq<Seq<char>>,
    pub remote_bookmarks: Seq<Seq<char>>,
    pub is_working_copy: bool,
    pub authored_at: i64,
    pub committed_at: i64,
}

impl LogEntryView {
    /// A commit with two or more parents.
    pub open spec fn is_merge(self) -> bool {
        self.parents.len() > 1
    }

    /// A commit that at least one local bookmark points at.
    pub open spec fn is_bookmarked(self) -> bool {
        self.local_bookmarks.len() > 0
    }
}

impl View for LogEntry {
    type V = LogEntryView;

    open spec fn view(&self) -> LogEntryView {
        LogEntryView {
            commit_id: self.commit_id@,
            change_id: self.change_id@,
            author_name: self.author_name@,
            author_email: self.author_email@,
            description_first_line: self.description_first_line@,
            parents: self.parents.deep_view(),
            local_bookmarks: self.local_bookmarks.deep_view(),
            remote_bookmarks: self.remote_bookmarks.deep_view(),
            is_working_copy: self.is_working_copy,
            authored_at: self.authored_at,
            committed_at: self.committed_at,
        }
    }
}

impl DeepView for LogEntry {
    type V = LogEntryView;

    open spec fn deep_view(&self) -> LogEntryView {
        self@
    }
}

impl Clone for LogEntry {
    fn clone(&self) -> (r: Self)
        ensures
            r@ == self@,
    {
        LogEntry {
            commit_id: self.commit_id.clone(),
            change_id: self.change_id.clone(),
            author_name: self.author_name.clone(),
            author_email: self.author_email.clone(),
            description_first_line: self.description_first_line.clone(),
            parents: clone_texts(&self.parents),
            local_bookmarks: clone_texts(&self.local_bookmarks),
            remote_bookmarks: clone_texts(&self.remote_bookmarks),
            is_working_copy: self.is_working_copy,
            authored_at: self.authored_at,
            committed_at: self.committed_at,
        }
    }
}

/// Copies a list of commits.
pub fn clone_changes(list: &Vec<LogEntry>) -> (r: Vec<LogEntry>)
    ensures
        r.deep_view() == list.deep_view(),
{
    let mut r: Vec<LogEntry> = Vec::new();
    let mut i: usize = 0;
    while i < list.len()
        invariant
            i <= list.len(),
            r.len() == i,
            forall|k: int| 0 <= k < i ==> r@[k]@ == list@[k]@,
        decreases list.len() - i,
    {
        r.push(list[i].clone());
        i += 1;
    }
    assert(r.deep_view() =~= list.deep_view());
    r
}

/// A run of commits whose tip carries one or more bookmarks.
#[derive(Debug)]
pub struct BookmarkSegment {
    /// The bookmarks that point at the tip.
    pub bookmarks: Vec<Bookmark>,
    /// The commits of the run, newest first.
    pub changes: Vec<LogEntry>,
}

/// The view of a [`BookmarkSegment`].
pub struct BookmarkSegmentView {
    pub bookmarks: Seq<BookmarkView>,
    pub changes: Seq<LogEntryView>,
}

impl BookmarkSegmentView {
    /// The names of the candidate bookmarks, in order.
    pub open spec fn names(self) -> Seq<Seq<char>> {
        self.bookmarks.map_values(|b: BookmarkView| b.name)
    }

    /// Whether a bookmark called `name` points at the tip.
    pub open spec fn has_name(self, name: Seq<char>) -> bool {
        exists|i: int| 0 <= i < self.bookmarks.len() && #[trigger] self.bookmarks[i].name == name
    }
}

impl View for BookmarkSegment {
    type V = BookmarkSegmentView;

    open spec fn view(&self) -> BookmarkSegmentView {
        BookmarkSegmentView {
            bookmarks: self.bookmarks.deep_view(),
            changes: self.changes.deep_view(),
        }
    }
}

impl DeepView for BookmarkSegment {
    type V = BookmarkSegmentView;

    open spec fn deep_view(&self) -> BookmarkSegmentView {
        self@
    }
}

impl Clone for BookmarkSegment {
    fn clone(&self) -> (r: Self)
        ensures
            r@ == self@,
    {
        BookmarkSegment {
            bookmarks: clone_bookmarks(&self.bookmarks),
            changes: clone_changes(&self.changes),
        }
    }
}

/// A segment for which one bookmark has been chosen.
#[derive(Debug)]
pub struct NarrowedBookmarkSegment {
    /// The chosen bookmark.
    pub bookmark: Bookmark,
    /// The commits of the run, newest first.
    pub changes: Vec<LogEntry>,
}

/// The view of a [`NarrowedBookmarkSegment`].
pub struct NarrowedSegmentView {
    pub bookmark: BookmarkView,
    pub changes: Seq<LogEntryView>,
}

impl View for NarrowedBookmarkSegment {
    type V = NarrowedSegmentView;

    open spec fn view(&self) -> NarrowedSegmentView {
        NarrowedSegmentView { bookmark: self.bookmark@, changes: self.changes.deep_view() }
    }
}

impl DeepView for NarrowedBookmarkSegment {
    type V = NarrowedSegmentView;

    open spec fn deep_view(&self) -> NarrowedSegmentView {
        self@
    }
}

impl Clone for NarrowedBookmarkSegment {
    fn clone(&self) -> (r: Self)
        ensures
            r@ == self@,
    {
        NarrowedBookmarkSegment {
            bookmark: self.bookmark.clone(),
            changes: clone_changes(&self.changes),
        }
    }
}

/// Copies a list of narrowed segments.
pub fn clone_narrowed(list: &Vec<NarrowedBookmarkSegment>) -> (r: Vec<NarrowedBookmarkSegment>)
    ensures
        r.deep_view() == list.deep_view(),
{
    let mut r: Vec<NarrowedBookmarkSegment> = Vec::new();
    let mut i: usize = 0;
    while i < list.len()
        invariant
            i <= list.len(),
            r.len() == i,
            forall|k: int| 0 <= k < i ==> r@[k]@ == list@[k]@,
        decreases list.len() - i,
    {
        r.push(list[i].clone());
        i += 1;
    }
    assert(r.deep_view() =~= list.deep_view());
    r
}

/// The segments of one stack, from trunk (index 0) to leaf (last).
#[derive(Debug)]
pub struct BranchStack {
    /// The segments, trunk first.
    pub segments: Vec<BookmarkSegment>,
}

/// The view of a [`BranchStack`].
pub struct BranchStackView {
    pub segments: Seq<BookmarkSegmentView>,
}

impl BranchStackView {
    /// Every segment has at least one candidate bookmark.
    pub open spec fn well_formed(self) -> bool {
        forall|i: int| 0 <= i < self.segments.len() ==> (#[trigger] self.segments[i]).bookmarks.len() > 0
    }
}

impl View for BranchStack {
    type V = BranchStackView;

    open spec fn view(&self) -> BranchStackView {
        BranchStackView { segments: self.segments.deep_view() }
    }
}

impl DeepView for BranchStack {
    type V = BranchStackView;

    open spec fn deep_view(&self) -> BranchStackView {
        self@
    }
}

impl Clone for BranchStack {
    fn clone(&self) -> (r: Self)
        ensures
            r@ == self@,
    {
        let mut segments: Vec<BookmarkSegment> = Vec::new();
        let mut i: usize = 0;
        while i < self.segments.len()
            invariant
                i <= self.segments.len(),
                segments.len() == i,
                forall|k: int| 0 <= k < i ==> segments@[k]@ == self.segments@[k]@,
            decreases self.segments.len() - i,
        {
            segments.push(self.segments[i].clone());
            i += 1;
        }
        assert(segments.deep_view() =~= self.segments.deep_view());
        BranchStack { segments }
    }
}

/// The projection of the workspace: every local bookmark by name, the stack
/// between trunk and the working copy if there is one, and a flag for
/// bookmarks left out because of a merge commit.
#[derive(Debug)]
pub struct ChangeGraph {
    /// Every local bookmark, by name.
    pub bookmarks: NameMap<Bookmark>,
    /// The stack from trunk to the working copy, if any commit in it is bookmarked.
    pub stack: Option<BranchStack>,
    /// Non-zero when a merge commit in the range kept the stack from being built.
    pub excluded_bookmark_count: usize,
}

/// The view of a [`ChangeGraph`].
pub struct ChangeGraphView {
    pub bookmarks: Map<Seq<char>, BookmarkView>,
    pub stack: Option<BranchStackView>,
    pub excluded_bookmark_count: usize,
}

/// The bookmarks of a name map, each by its view.
pub open spec fn bookmark_views(bookmarks: Map<Seq<char>, Bookmark>) -> Map<
    Seq<char>,
    BookmarkView,
> {
    bookmarks.map_values(|b: Bookmark| b@)
}

impl ChangeGraphView {
    /// The stack, where there is one, is well formed.
    pub open spec fn well_formed(self) -> bool {
        self.stack matches Some(stack) ==> stack.well_formed()
    }
}

impl View for ChangeGraph {
    type V = ChangeGraphView;

    open spec fn view(&self) -> ChangeGraphView {
        ChangeGraphView {
            bookmarks: bookmark_views(self.bookmarks@),
            stack: self.stack.deep_view(),
            excluded_bookmark_count: self.excluded_bookmark_count,
        }
    }
}

impl ChangeGraph {
    /// Whether every segment of the stack has a bookmark at its tip.
    pub fn is_well_formed(&self) -> (r: bool)
        ensures
            r == self@.well_formed(),
    {
        match &self.stack {
            None => true,
            Some(stack) => {
                let ghost segments = stack@.segments;
                let mut i: usize = 0;
                while i < stack.segments.len()
                    invariant
                        self.stack == Some(*stack),
                        segments == stack@.segments,
                        i <= stack.segments.len(),
                        forall|k: int| 0 <= k < i ==> (#[trigger] segments[k]).bookmarks.len() > 0,
                    decreases stack.segments.len() - i,
                {
                    assert(segments[i as int].bookmarks.len()
                        == stack.segments@[i as int].bookmarks@.len());
                    if stack.segments[i].bookmarks.len() == 0 {
                        assert(self@.stack == Some(stack@));
                        return false;
                    }
                    i += 1;
                }
                true
            },
        }
    }
}

impl Default for ChangeGraph {
    fn default() -> (r: Self)
        ensures
            r@.bookmarks == Map::<Seq<char>, BookmarkView>::empty(),
            r@.stack is None,
            r@.excluded_bookmark_count == 0,
    {
        let r = ChangeGraph { bookmarks: NameMap::new(), stack: None, excluded_bookmark_count: 0 };
        assert(r@.bookmarks =~= Map::<Seq<char>, BookmarkView>::empty());
        r
    }
}

/// A pull request (or merge request) on the hosting platform.
#[derive(Debug, PartialEq, Eq)]
pub struct PullRequest {
    /// Number of the request.
    pub number: u64,
    /// Web address of the request.
    pub html_url: String,
    /// Name of the base branch.
    pub base_ref: String,
    /// Name of the head branch.
    pub head_ref: String,
    /// Title.
    pub title: String,
    /// Platform-specific node identifier, where there is one.
    pub node_id: Option<String>,
    /// Whether the request is a draft.
    pub is_draft: bool,
}

/// The view of a [`PullRequest`].
pub struct PullRequestView {
    pub number: u64,
    pub html_url: Seq<char>,
    pub base_ref: Seq<char>,
    pub head_ref: Seq<char>,
    pub title: Seq<char>,
    pub node_id: Option<Seq<char>>,
    pub is_draft: bool,
}

impl View for PullRequest {
    type V = PullRequestView;

    open spec fn view(&self) -> PullRequestView {
        PullRequestView {
            number: self.number,
            html_url: self.html_url@,
            base_ref: self.base_ref@,
            head_ref: self.head_ref@,
            title: self.title@,
            node_id: self.node_id.deep_view(),
            is_draft: self.is_draft,
        }
    }
}

impl DeepView for PullRequest {
    type V = PullRequestView;

    open spec fn deep_view(&self) -> PullRequestView {
        self@
    }
}

impl Clone for PullRequest {
    fn clone(&self) -> (r: Self)
        ensures
            r@ == self@,
    {
        PullRequest {
            number: self.number,
            html_url: self.html_url.clone(),
            base_ref: self.base_ref.clone(),
            head_ref: self.head_ref.clone(),
            title: self.title.clone(),
            node_id: clone_optional_text(&self.node_id),
            is_draft: self.is_draft,
        }
    }
}

/// The pull requests of a name map, each by its view.
pub open spec fn pr_views(prs: Map<Seq<char>, PullRequest>) -> Map<Seq<char>, PullRequestView> {
    prs.map_values(|pr: PullRequest| pr@)
}

/// Copies a map of pull requests, keeping the order of its names.
pub fn clone_pr_map(prs: &NameMap<PullRequest>) -> (r: NameMap<PullRequest>)
    ensures
        r.well_formed(),
        r.names() == prs.names(),
        pr_views(r@) == pr_views(prs@),
{
    let r = prs.clone();
    proof {
        prs.lemma_well_formed();
        r.lemma_well_formed();
        assert forall|name: Seq<char>| r@.contains_key(name) implies r@[name]@ == prs@[name]@ by {
            let i = r.names().index_of(name);
            assert(r.names()[i] == name);
            assert(cloned(prs.values()[i], r.values()[i]));
        }
        assert(pr_views(r@) =~= pr_views(prs@));
    }
    r
}

/// A comment on a pull request.
#[derive(Debug, PartialEq, Eq)]
pub struct PrComment {
    /// Identifier of the comment.
    pub id: u64,
    /// Text of the comment.
    pub body: String,
}

/// The view of a [`PrComment`].
pub struct PrCommentView {
    pub id: u64,
    pub body: Seq<char>,
}

impl View for PrComment {
    type V = PrCommentView;

    open spec fn view(&self) -> PrCommentView {
        PrCommentView { id: self.id, body: self.body@ }
    }
}

impl DeepView for PrComment {
    type V = PrCommentView;

    open spec fn deep_view(&self) -> PrCommentView {
        self@
    }
}

impl Clone for PrComment {
    fn clone(&self) -> (r: Self)
        ensures
            r@ == self@,
    {
        PrComment { id: self.id, body: self.body.clone() }
    }
}

/// A git remote.
#[derive(Debug, PartialEq, Eq)]
pub struct GitRemote {
    /// Name of the remote, such as `origin`.
    pub name: String,
    /// Address of the remote.
    pub url: String,
}

/// The view of a [`GitRemote`].
pub struct GitRemoteView {
    pub name: Seq<char>,
    pub url: Seq<char>,
}

impl View for GitRemote {
    type V = GitRemoteView;

    open spec fn view(&self) -> GitRemoteView {
        GitRemoteView { name: self.name@, url: self.url@ }
    }
}

impl DeepView for GitRemote {
    type V = GitRemoteView;

    open spec fn deep_view(&self) -> GitRemoteView {
        self@
    }
}

impl Clone for GitRemote {
    fn clone(&self) -> (r: Self)
        ensures
            r@ == self@,
    {
        GitRemote { name: self.name.clone(), url: self.url.clone() }
    }
}

/// The kind of hosting platform.
#[derive(Debug, Clone, Copy, PartialEq, Eq, Structural)]
pub enum Platform {
    /// GitHub or GitHub Enterprise.
    GitHub,
    /// GitLab, hosted or self-hosted.
    GitLab,
}

impl Platform {
    /// The platform's name as shown to users.
    pub open spec fn label(self) -> Seq<char> {
        match self {
            Platform::GitHub => "GitHub"@,
            Platform::GitLab => "GitLab"@,
        }
    }

    /// The platform's name as shown to users.
    pub fn name(&self) -> (r: String)
        ensures
            r@ == self.label(),
    {
        match self {
            Platform::GitHub => String::from_str("GitHub"),
            Platform::GitLab => String::from_str("GitLab"),
        }
    }
}

/// Where a repository lives on its platform.
#[derive(Debug)]
pub struct PlatformConfig {
    /// Kind of platform.
    pub platform: Platform,
    /// Owner of the repository (a user, an organisation or a group path).
    pub owner: String,
    /// Name of the repository.
    pub repo: String,
    /// Host, where it is not the platform's public one.
    pub host: Option<String>,
}

/// The view of a [`PlatformConfig`].
pub struct PlatformConfigView {
    pub platform: Platform,
    pub owner: Seq<char>,
    pub repo: Seq<char>,
    pub host: Option<Seq<char>>,
}

impl View for PlatformConfig {
    type V = PlatformConfigView;

    open spec fn view(&self) -> PlatformConfigView {
        PlatformConfigView {
            platform: self.platform,
            owner: self.owner@,
            repo: self.repo@,
            host: self.host.deep_view(),
        }
    }
}

impl Clone for PlatformConfig {
    fn clone(&self) -> (r: Self)
        ensures
            r@ == self@,
    {
        PlatformConfig {
            platform: self.platform,
            owner: self.owner.clone(),
            repo: self.repo.clone(),
            host: clone_optional_text(&self.host),
        }
    }
}

} // verus!
