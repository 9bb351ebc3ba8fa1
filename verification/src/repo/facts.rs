//! What is read off the answers of the workspace: the synchronisation
//! facts of a bookmark, the default branch, the trunk, the first line of a
//! description.

use crate::text::{chars_of, same_text, starts_with_text, text_starts_with};
use vstd::prelude::*;

verus! {

/// The name under which a git-backed workspace lists its own git
/// repository among the remotes. It is no remote to push to.
pub const LOCAL_GIT_REMOTE: &'static str = "git";

/// The trunk where no remote says what its head is: the newest of the
/// usual trunk bookmarks on the usual remotes, or the root.
pub const DEFAULT_TRUNK_ALIAS: &'static str =
    "latest(\n        remote_bookmarks(exact:\"main\", exact:\"origin\") |\n        remote_bookmarks(exact:\"master\", exact:\"origin\") |\n        remote_bookmarks(exact:\"trunk\", exact:\"origin\") |\n        remote_bookmarks(exact:\"main\", exact:\"upstream\") |\n        remote_bookmarks(exact:\"master\", exact:\"upstream\") |\n        remote_bookmarks(exact:\"trunk\", exact:\"upstream\") |\n        root()\n    )";

/// Where a remote has a bookmark: the remote's name and the commit that
/// the bookmark points at there, if it points at one commit.
#[derive(Debug)]
pub struct RemoteTarget {
    /// Name of the remote.
    pub remote: String,
    /// The commit (hex), where the remote bookmark points at one.
    pub commit_id: Option<String>,
}

/// The view of a [`RemoteTarget`].
pub struct RemoteTargetView {
    pub remote: Seq<char>,
    pub commit_id: Option<Seq<char>>,
}

impl View for RemoteTarget {
    type V = RemoteTargetView;

    open spec fn view(&self) -> RemoteTargetView {
        RemoteTargetView { remote: self.remote@, commit_id: self.commit_id.deep_view() }
    }
}

impl DeepView for RemoteTarget {
    type V = RemoteTargetView;

    open spec fn deep_view(&self) -> RemoteTargetView {
        self@
    }
}

/// The bookmark is on a remote other than the workspace's own git
/// repository.
pub open spec fn on_a_remote(targets: Seq<RemoteTargetView>) -> bool {
    exists|i: int| 0 <= i < targets.len() && (#[trigger] targets[i]).remote != LOCAL_GIT_REMOTE@
}

/// On such a remote the bookmark points at `commit_id`.
pub open spec fn in_step_with_a_remote(targets: Seq<RemoteTargetView>, commit_id: Seq<char>)
    -> bool {
    exists|i: int|
        0 <= i < targets.len() && (#[trigger] targets[i]).remote != LOCAL_GIT_REMOTE@
            && targets[i].commit_id == Some(commit_id)
}

/// The synchronisation facts of a bookmark that points at `commit_id`
/// locally: whether it is on a remote, and whether a remote has it at the
/// same commit. The workspace's own git repository does not count.
pub fn sync_facts(targets: &[RemoteTarget], commit_id: &str) -> (r: (bool, bool))
    ensures
        r.0 == on_a_remote(targets.deep_view()),
        r.1 == in_step_with_a_remote(targets.deep_view(), commit_id@),
{
    let ghost views = targets.deep_view();
    let mut has_remote = false;
    let mut is_synced = false;
    let mut i: usize = 0;
    while i < targets.len()
        invariant
            views == targets.deep_view(),
            i <= targets.len(),
            has_remote == exists|k: int|
                0 <= k < i && (#[trigger] views[k]).remote != LOCAL_GIT_REMOTE@,
            is_synced == exists|k: int|
                0 <= k < i && (#[trigger] views[k]).remote != LOCAL_GIT_REMOTE@
                    && views[k].commit_id == Some(commit_id@),
        decreases targets.len() - i,
    {
        let target = &targets[i];
        assert(views[i as int] == target@);
        let ghost had_remote = has_remote;
        let ghost was_synced = is_synced;
        let counts = !same_text(target.remote.as_str(), LOCAL_GIT_REMOTE);
        let same = match &target.commit_id {
            Some(id) => same_text(id.as_str(), commit_id),
            None => false,
        };
        assert(same == (views[i as int].commit_id == Some(commit_id@)));
        if counts {
            has_remote = true;
            if same {
                is_synced = true;
            }
        }
        proof {
            if had_remote {
                let k = choose|k: int|
                    0 <= k < i && (#[trigger] views[k]).remote != LOCAL_GIT_REMOTE@;
                assert(0 <= k < i + 1);
            }
            if was_synced {
                let k = choose|k: int|
                    0 <= k < i && (#[trigger] views[k]).remote != LOCAL_GIT_REMOTE@
                        && views[k].commit_id == Some(commit_id@);
                assert(0 <= k < i + 1);
            }
        }
        i += 1;
    }
    (has_remote, is_synced)
}

/// The prefix of the branches of a remote among the git references.
pub open spec fn remote_prefix(remote: Seq<char>) -> Seq<char> {
    "refs/remotes/"@ + remote + "/"@
}

/// The branch that the head of a remote points at, read off the name of
/// the reference that the head stands for.
pub open spec fn head_branch(target: Seq<char>, remote: Seq<char>) -> Option<Seq<char>> {
    if text_starts_with(target, remote_prefix(remote)) {
        Some(target.subrange(remote_prefix(remote).len() as int, target.len() as int))
    } else {
        None
    }
}

/// Reads the default branch off the reference that the head of a remote
/// stands for: `refs/remotes/origin/main` gives `main` for `origin`.
pub fn branch_of_remote_head(target: &str, remote: &str) -> (r: Option<String>)
    ensures
        r.deep_view() == head_branch(target@, remote@),
{
    let mut prefix = String::from_str("refs/remotes/");
    prefix.append(remote);
    prefix.append("/");
    if !starts_with_text(target, prefix.as_str()) {
        return None;
    }
    let all = chars_of(target);
    let skip = chars_of(prefix.as_str()).len();
    let branch = target.substring_char(skip, all.len());
    Some(String::from_str(branch))
}

/// The trunk of a repository whose remote `remote` has its head at `branch`.
pub open spec fn trunk_alias_text(branch: Seq<char>, remote: Seq<char>) -> Seq<char> {
    "remote_bookmarks(exact:\""@ + branch + "\", exact:\""@ + remote + "\")"@
}

/// The revset for the trunk of a repository: the head of the remote where
/// one is known, the usual candidates otherwise.
pub fn trunk_alias(remote_head: Option<(&str, &str)>) -> (r: String)
    ensures
        r@ == match remote_head {
            Some((branch, remote)) => trunk_alias_text(branch@, remote@),
            None => DEFAULT_TRUNK_ALIAS@,
        },
{
    match remote_head {
        Some((branch, remote)) => {
            let mut r = String::from_str("remote_bookmarks(exact:\"");
            r.append(branch);
            r.append("\", exact:\"");
            r.append(remote);
            r.append("\")");
            r
        },
        None => String::from_str(DEFAULT_TRUNK_ALIAS),
    }
}

/// The default branch where no remote says what it is: the first of
/// `main`, `master` and `trunk` that is a local bookmark, and `main` where
/// none is.
pub fn fallback_default_branch(has_main: bool, has_master: bool, has_trunk: bool) -> (r: String)
    ensures
        r@ == if has_main {
            "main"@
        } else if has_master {
            "master"@
        } else if has_trunk {
            "trunk"@
        } else {
            "main"@
        },
{
    if has_main {
        String::from_str("main")
    } else if has_master {
        String::from_str("master")
    } else if has_trunk {
        String::from_str("trunk")
    } else {
        String::from_str("main")
    }
}

/// Position `i` ends the first line of `text`: it holds the first line
/// feed, or it is the end of a text without one.
pub open spec fn ends_first_line(text: Seq<char>, i: int) -> bool {
    &&& 0 <= i <= text.len()
    &&& i < text.len() ==> text[i] == '\n'
    &&& forall|j: int| 0 <= j < i ==> text[j] != '\n'
}

/// The first line of `text`, without the line feed that ends it and
/// without a carriage return before that.
pub open spec fn first_line_of(text: Seq<char>) -> Seq<char> {
    let end = choose|i: int| ends_first_line(text, i);
    if 0 < end < text.len() && text[end - 1] == '\r' {
        text.subrange(0, end - 1)
    } else {
        text.subrange(0, end)
    }
}

/// The first line of a description.
pub fn first_line(text: &str) -> (r: String)
    ensures
        r@ == first_line_of(text@),
{
    let all = chars_of(text);
    let mut end: usize = 0;
    while end < all.len() && all[end] != '\n'
        invariant
            all@ == text@,
            end <= all.len(),
            forall|j: int| 0 <= j < end ==> all@[j] != '\n',
        decreases all.len() - end,
    {
        end += 1;
    }
    proof {
        assert(ends_first_line(text@, end as int));
        let c = choose|i: int| ends_first_line(text@, i);
        assert(ends_first_line(text@, c));
        if c < end {
            assert(text@[c] == '\n');
        }
        if end < c {
            assert(text@[end as int] == '\n');
        }
        assert(c == end);
    }
    let cut = if end > 0 && end < all.len() && all[end - 1] == '\r' {
        end - 1
    } else {
        end
    };
    String::from_str(text.substring_char(0, cut))
}

/// How a description is shown in a listing: a stand-in for an empty
/// one, and one of more than fifty characters cut to forty-seven with three
/// dots behind them.
pub open spec fn shown_description(text: Seq<char>) -> Seq<char> {
    if text.len() == 0 {
        "(no description)"@
    } else if text.len() > 50 {
        text.subrange(0, 47) + "..."@
    } else {
        text
    }
}

/// How a description is shown in a listing.
pub fn display_description(text: &str) -> (r: String)
    ensures
        r@ == shown_description(text@),
{
    let count = text.unicode_len();
    if count == 0 {
        String::from_str("(no description)")
    } else if count > 50 {
        let mut r = String::from_str(text.substring_char(0, 47));
        r.append("...");
        r
    } else {
        String::from_str(text)
    }
}

/// The first eight characters of an identifier, or all of a shorter one.
pub fn short_id(id: &str) -> (r: String)
    ensures
        r@ == id@.subrange(0, if id@.len() < 8 {
            id@.len() as int
        } else {
            8
        }),
{
    let count = id.unicode_len();
    let end = if count < 8 {
        count
    } else {
        8
    };
    String::from_str(id.substring_char(0, end))
}

} // verus!
