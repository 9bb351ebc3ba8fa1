//! The errors that the engine reports.

use crate::text::{clone_texts, join, wrap};
use vstd::prelude::*;

verus! {

/// What can go wrong while a stack is analysed, planned or submitted.
#[derive(Debug)]
pub enum Error {
    /// The workspace could not be loaded or used.
    Workspace(String),
    /// Data from the workspace could not be parsed.
    Parse(String),
    /// No bookmark of this name exists.
    BookmarkNotFound(String),
    /// No bookmarked commit lies between trunk and the working copy.
    NoStack(String),
    /// No remote points at a supported platform.
    NoSupportedRemotes,
    /// The remote that was asked for does not exist.
    RemoteNotFound(String),
    /// Authentication failed.
    Auth(String),
    /// The GitHub API reported an error.
    GitHubApi(String),
    /// The GitLab API reported an error.
    GitLabApi(String),
    /// A merge commit lies in the history of this bookmark.
    MergeCommitDetected(String),
    /// A revset could not be evaluated.
    Revset(String),
    /// A git operation failed.
    Git(String),
    /// The configuration is invalid.
    Config(String),
    /// The hosting platform reported an error.
    Platform(String),
    /// The engine reached a state it should not reach.
    Internal(String),
    /// The dependencies among the planned operations form a cycle.
    SchedulerCycle {
        /// Description for humans.
        message: String,
        /// Descriptions of the operations that could not be scheduled.
        cycle_nodes: Vec<String>,
    },
    /// An argument or a combination of options is not acceptable.
    InvalidArgument(String),
    /// The tracking state could not be read or written.
    Tracking(String),
}

/// The view of an [`Error`].
pub enum ErrorView {
    Workspace(Seq<char>),
    Parse(Seq<char>),
    BookmarkNotFound(Seq<char>),
    NoStack(Seq<char>),
    NoSupportedRemotes,
    RemoteNotFound(Seq<char>),
    Auth(Seq<char>),
    GitHubApi(Seq<char>),
    GitLabApi(Seq<char>),
    MergeCommitDetected(Seq<char>),
    Revset(Seq<char>),
    Git(Seq<char>),
    Config(Seq<char>),
    Platform(Seq<char>),
    Internal(Seq<char>),
    SchedulerCycle { message: Seq<char>, cycle_nodes: Seq<Seq<char>> },
    InvalidArgument(Seq<char>),
    Tracking(Seq<char>),
}

impl ErrorView {
    /// The sentence shown to the user.
    pub open spec fn text(self) -> Seq<char> {
        match self {
            ErrorView::Workspace(m) => "workspace error: "@ + m,
            ErrorView::Parse(m) => "parse error: "@ + m,
            ErrorView::BookmarkNotFound(n) => "bookmark '"@ + n + "' not found"@,
            ErrorView::NoStack(m) => m,
            ErrorView::NoSupportedRemotes => "no supported remotes found (GitHub/GitLab)"@,
            ErrorView::RemoteNotFound(n) => "remote '"@ + n + "' not found"@,
            ErrorView::Auth(m) => "authentication failed: "@ + m,
            ErrorView::GitHubApi(m) => "GitHub API error: "@ + m,
            ErrorView::GitLabApi(m) => "GitLab API error: "@ + m,
            ErrorView::MergeCommitDetected(n) => "merge commit detected in bookmark '"@ + n
                + "' history - rebasing required"@,
            ErrorView::Revset(m) => "revset error: "@ + m,
            ErrorView::Git(m) => "git operation failed: "@ + m,
            ErrorView::Config(m) => "invalid configuration: "@ + m,
            ErrorView::Platform(m) => "platform error: "@ + m,
            ErrorView::Internal(m) => "internal error: "@ + m,
            ErrorView::SchedulerCycle { message, cycle_nodes } => "scheduler cycle detected: "@
                + message,
            ErrorView::InvalidArgument(m) => "invalid argument: "@ + m,
            ErrorView::Tracking(m) => "tracking error: "@ + m,
        }
    }
}

impl View for Error {
    type V = ErrorView;

    open spec fn view(&self) -> ErrorView {
        match self {
            Error::Workspace(m) => ErrorView::Workspace(m@),
            Error::Parse(m) => ErrorView::Parse(m@),
            Error::BookmarkNotFound(n) => ErrorView::BookmarkNotFound(n@),
            Error::NoStack(m) => ErrorView::NoStack(m@),
            Error::NoSupportedRemotes => ErrorView::NoSupportedRemotes,
            Error::RemoteNotFound(n) => ErrorView::RemoteNotFound(n@),
            Error::Auth(m) => ErrorView::Auth(m@),
            Error::GitHubApi(m) => ErrorView::GitHubApi(m@),
            Error::GitLabApi(m) => ErrorView::GitLabApi(m@),
            Error::MergeCommitDetected(n) => ErrorView::MergeCommitDetected(n@),
            Error::Revset(m) => ErrorView::Revset(m@),
            Error::Git(m) => ErrorView::Git(m@),
            Error::Config(m) => ErrorView::Config(m@),
            Error::Platform(m) => ErrorView::Platform(m@),
            Error::Internal(m) => ErrorView::Internal(m@),
            Error::SchedulerCycle { message, cycle_nodes } => ErrorView::SchedulerCycle {
                message: message@,
                cycle_nodes: cycle_nodes.deep_view(),
            },
            Error::InvalidArgument(m) => ErrorView::InvalidArgument(m@),
            Error::Tracking(m) => ErrorView::Tracking(m@),
        }
    }
}

impl Error {
    /// The sentence shown to the user.
    pub fn message(&self) -> (r: String)
        ensures
            r@ == self@.text(),
    {
        match self {
            Error::Workspace(m) => join("workspace error: ", m.as_str()),
            Error::Parse(m) => join("parse error: ", m.as_str()),
            Error::BookmarkNotFound(n) => wrap("bookmark '", n.as_str(), "' not found"),
            Error::NoStack(m) => m.clone(),
            Error::NoSupportedRemotes => String::from_str(
                "no supported remotes found (GitHub/GitLab)",
            ),
            Error::RemoteNotFound(n) => wrap("remote '", n.as_str(), "' not found"),
            Error::Auth(m) => join("authentication failed: ", m.as_str()),
            Error::GitHubApi(m) => join("GitHub API error: ", m.as_str()),
            Error::GitLabApi(m) => join("GitLab API error: ", m.as_str()),
            Error::MergeCommitDetected(n) => wrap(
                "merge commit detected in bookmark '",
                n.as_str(),
                "' history - rebasing required",
            ),
            Error::Revset(m) => join("revset error: ", m.as_str()),
            Error::Git(m) => join("git operation failed: ", m.as_str()),
            Error::Config(m) => join("invalid configuration: ", m.as_str()),
            Error::Platform(m) => join("platform error: ", m.as_str()),
            Error::Internal(m) => join("internal error: ", m.as_str()),
            Error::SchedulerCycle { message, cycle_nodes } => join(
                "scheduler cycle detected: ",
                message.as_str(),
            ),
            Error::InvalidArgument(m) => join("invalid argument: ", m.as_str()),
            Error::Tracking(m) => join("tracking error: ", m.as_str()),
        }
    }
}

impl Clone for Error {
    fn clone(&self) -> (r: Self)
        ensures
            r@ == self@,
    {
        match self {
            Error::Workspace(m) => Error::Workspace(m.clone()),
            Error::Parse(m) => Error::Parse(m.clone()),
            Error::BookmarkNotFound(n) => Error::BookmarkNotFound(n.clone()),
            Error::NoStack(m) => Error::NoStack(m.clone()),
            Error::NoSupportedRemotes => Error::NoSupportedRemotes,
            Error::RemoteNotFound(n) => Error::RemoteNotFound(n.clone()),
            Error::Auth(m) => Error::Auth(m.clone()),
            Error::GitHubApi(m) => Error::GitHubApi(m.clone()),
            Error::GitLabApi(m) => Error::GitLabApi(m.clone()),
            Error::MergeCommitDetected(n) => Error::MergeCommitDetected(n.clone()),
            Error::Revset(m) => Error::Revset(m.clone()),
            Error::Git(m) => Error::Git(m.clone()),
            Error::Config(m) => Error::Config(m.clone()),
            Error::Platform(m) => Error::Platform(m.clone()),
            Error::Internal(m) => Error::Internal(m.clone()),
            Error::SchedulerCycle { message, cycle_nodes } => Error::SchedulerCycle {
                message: message.clone(),
                cycle_nodes: clone_texts(cycle_nodes),
            },
            Error::InvalidArgument(m) => Error::InvalidArgument(m.clone()),
            Error::Tracking(m) => Error::Tracking(m.clone()),
        }
    }
}

} // verus!
