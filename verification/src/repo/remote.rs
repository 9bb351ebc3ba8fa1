//! The choice of the remote to push to.

use crate::error::{Error, ErrorView};
use crate::submit::analysis::optional_text;
use crate::text::same_text;
use crate::types::{GitRemote, GitRemoteView};
use vstd::prelude::*;

verus! {

/// The names of the remotes, in order.
pub open spec fn remote_names(remotes: Seq<GitRemoteView>) -> Seq<Seq<char>> {
    remotes.map_values(|r: GitRemoteView| r.name)
}

/// The remote to push to: the one asked for, if it exists; else the only
/// remote; else `origin` if there is one; else the first.
pub open spec fn selected_remote(remotes: Seq<GitRemoteView>, specified: Option<Seq<char>>)
    -> Result<Seq<char>, ErrorView> {
    if remotes.len() == 0 {
        Err(ErrorView::NoSupportedRemotes)
    } else {
        match specified {
            Some(name) => if remote_names(remotes).contains(name) {
                Ok(name)
            } else {
                Err(ErrorView::RemoteNotFound(name))
            },
            None => if remotes.len() > 1 && remote_names(remotes).contains("origin"@) {
                Ok("origin"@)
            } else {
                Ok(remotes[0].name)
            },
        }
    }
}

/// Whether one of the remotes is called `name`.
fn has_remote(remotes: &[GitRemote], name: &str) -> (r: bool)
    ensures
        r == remote_names(remotes.deep_view()).contains(name@),
{
    let ghost names = remote_names(remotes.deep_view());
    let mut i: usize = 0;
    while i < remotes.len()
        invariant
            names == remote_names(remotes.deep_view()),
            i <= remotes.len(),
            forall|k: int| 0 <= k < i ==> names[k] != name@,
        decreases remotes.len() - i,
    {
        if same_text(remotes[i].name.as_str(), name) {
            assert(names[i as int] == name@);
            return true;
        }
        i += 1;
    }
    false
}

/// Chooses the remote to push to: the one asked for, if it exists; else
/// the only remote; else `origin` if there is one; else the first.
pub fn select_remote(remotes: &[GitRemote], specified: Option<&str>) -> (r: Result<String, Error>)
    ensures
        match r {
            Ok(name) => selected_remote(remotes.deep_view(), optional_text(specified)) == Ok::<
                Seq<char>,
                ErrorView,
            >(name@),
            Err(error) => selected_remote(remotes.deep_view(), optional_text(specified)) == Err::<
                Seq<char>,
                ErrorView,
            >(error@),
        },
{
    if remotes.len() == 0 {
        return Err(Error::NoSupportedRemotes);
    }
    if let Some(name) = specified {
        if !has_remote(remotes, name) {
            return Err(Error::RemoteNotFound(String::from_str(name)));
        }
        return Ok(String::from_str(name));
    }
    if remotes.len() == 1 {
        return Ok(remotes[0].name.clone());
    }
    if has_remote(remotes, "origin") {
        Ok(String::from_str("origin"))
    } else {
        Ok(remotes[0].name.clone())
    }
}

} // verus!
