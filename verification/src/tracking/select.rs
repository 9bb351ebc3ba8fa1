//! Which bookmarks a request to track or to untrack is about.

use crate::text::is_among;
use crate::tracking::state::{TrackingState, TrackingView};
use vstd::prelude::*;

verus! {

/// The options of a request to track bookmarks.
#[derive(Debug)]
pub struct TrackOptions {
    /// Track every bookmark of the stack.
    pub all: bool,
    /// Track again what is tracked already.
    pub force: bool,
    /// The remote to submit to.
    pub remote: Option<String>,
}

/// The options of a request to untrack bookmarks.
#[derive(Debug, Clone, Copy)]
pub struct UntrackOptions {
    /// Untrack every tracked bookmark.
    pub all: bool,
}

/// What becomes of one bookmark that was named in a request.
#[derive(Debug, Clone, Copy, PartialEq, Eq, Structural)]
pub enum Verdict {
    /// The request applies to the bookmark.
    Accepted,
    /// The bookmark is not part of the stack.
    NotInStack,
    /// The bookmark is tracked already, and the request does not force.
    AlreadyTracked,
    /// The bookmark is not tracked.
    NotTracked,
}

/// What becomes of a bookmark that is to be tracked.
pub open spec fn track_verdict(
    available: Seq<Seq<char>>,
    state: TrackingView,
    name: Seq<char>,
    force: bool,
) -> Verdict {
    if !available.contains(name) {
        Verdict::NotInStack
    } else if state.is_tracked(name) && !force {
        Verdict::AlreadyTracked
    } else {
        Verdict::Accepted
    }
}

/// What becomes of a bookmark that is to be untracked.
pub open spec fn untrack_verdict(state: TrackingView, name: Seq<char>) -> Verdict {
    if state.is_tracked(name) {
        Verdict::Accepted
    } else {
        Verdict::NotTracked
    }
}

/// Decides for a bookmark of the stack, or one that was named, whether it
/// gets tracked: it has to be part of the stack, and unless the request
/// forces, it must not be tracked yet.
pub fn judge_for_tracking(
    available: &[String],
    state: &TrackingState,
    name: &str,
    options: &TrackOptions,
) -> (r: Verdict)
    ensures
        r == track_verdict(available.deep_view(), state@, name@, options.force),
{
    if !is_among(available, name) {
        Verdict::NotInStack
    } else if state.is_tracked(name) && !options.force {
        Verdict::AlreadyTracked
    } else {
        Verdict::Accepted
    }
}

/// Decides for a bookmark that was named whether it gets untracked: it has
/// to be tracked.
pub fn judge_for_untracking(state: &TrackingState, name: &str, options: &UntrackOptions) -> (r:
    Verdict)
    ensures
        r == untrack_verdict(state@, name@),
{
    if state.is_tracked(name) {
        Verdict::Accepted
    } else {
        Verdict::NotTracked
    }
}

/// The names among `names` that the verdict `wanted` falls on, in order.
pub open spec fn names_judged(
    names: Seq<Seq<char>>,
    verdict: spec_fn(Seq<char>) -> Verdict,
    wanted: Verdict,
) -> Seq<Seq<char>>
    decreases names.len(),
{
    if names.len() == 0 {
        Seq::empty()
    } else {
        let rest = names_judged(names.drop_last(), verdict, wanted);
        if verdict(names.last()) == wanted {
            rest.push(names.last())
        } else {
            rest
        }
    }
}

/// The bookmarks that a request tracks: of `candidates` those that are
/// part of the stack and, unless the request forces, not tracked yet.
pub fn bookmarks_to_track(
    available: &[String],
    state: &TrackingState,
    candidates: &[String],
    options: &TrackOptions,
) -> (r: Vec<String>)
    ensures
        r.deep_view() == names_judged(
            candidates.deep_view(),
            |name: Seq<char>| track_verdict(available.deep_view(), state@, name, options.force),
            Verdict::Accepted,
        ),
{
    let ghost names = candidates.deep_view();
    let ghost verdict = |name: Seq<char>|
        track_verdict(available.deep_view(), state@, name, options.force);
    let mut r: Vec<String> = Vec::new();
    let mut i: usize = 0;
    assert(names.take(0) =~= Seq::empty());
    assert(r.deep_view() =~= Seq::empty());
    while i < candidates.len()
        invariant
            names == candidates.deep_view(),
            verdict == (|name: Seq<char>|
                track_verdict(available.deep_view(), state@, name, options.force)),
            i <= candidates.len(),
            r.deep_view() == names_judged(names.take(i as int), verdict, Verdict::Accepted),
        decreases candidates.len() - i,
    {
        proof {
            assert(names.take(i + 1).drop_last() =~= names.take(i as int));
            assert(names.take(i + 1).last() == candidates@[i as int]@);
        }
        let judged = judge_for_tracking(available, state, candidates[i].as_str(), options);
        assert(judged == verdict(candidates@[i as int]@));
        if judged == Verdict::Accepted {
            let ghost before = r.deep_view();
            r.push(candidates[i].clone());
            assert(r.deep_view() =~= before.push(candidates@[i as int]@));
        }
        i += 1;
    }
    assert(names.take(i as int) =~= names);
    r
}

/// The bookmarks that a request untracks: of `candidates` those that are
/// tracked.
pub fn bookmarks_to_untrack(
    state: &TrackingState,
    candidates: &[String],
    options: &UntrackOptions,
) -> (r: Vec<String>)
    ensures
        r.deep_view() == names_judged(
            candidates.deep_view(),
            |name: Seq<char>| untrack_verdict(state@, name),
            Verdict::Accepted,
        ),
{
    let ghost names = candidates.deep_view();
    let ghost verdict = |name: Seq<char>| untrack_verdict(state@, name);
    let mut r: Vec<String> = Vec::new();
    let mut i: usize = 0;
    assert(names.take(0) =~= Seq::empty());
    assert(r.deep_view() =~= Seq::empty());
    while i < candidates.len()
        invariant
            names == candidates.deep_view(),
            verdict == (|name: Seq<char>| untrack_verdict(state@, name)),
            i <= candidates.len(),
            r.deep_view() == names_judged(names.take(i as int), verdict, Verdict::Accepted),
        decreases candidates.len() - i,
    {
        proof {
            assert(names.take(i + 1).drop_last() =~= names.take(i as int));
            assert(names.take(i + 1).last() == candidates@[i as int]@);
        }
        let judged = judge_for_untracking(state, candidates[i].as_str(), options);
        assert(judged == verdict(candidates@[i as int]@));
        if judged == Verdict::Accepted {
            let ghost before = r.deep_view();
            r.push(candidates[i].clone());
            assert(r.deep_view() =~= before.push(candidates@[i as int]@));
        }
        i += 1;
    }
    assert(names.take(i as int) =~= names);
    r
}

} // verus!
