//! The pull requests that are known for bookmarks. The cache can be thrown
//! away: the next submission rebuilds it.

use crate::text::{join, same_text};
use crate::types::{PullRequest, PullRequestView};
use vstd::prelude::*;

verus! {

/// The version of the cache file.
pub const PR_CACHE_VERSION: u32 = 1;

/// The comment at the head of the cache file.
pub const PR_CACHE_HEADER: &'static str =
    "# PR association cache - regenerated from platform API on submit\n# Safe to delete; will be rebuilt on next submit\n\n";

/// The pull request that is known for a bookmark.
#[derive(Debug, PartialEq, Eq)]
pub struct CachedPr {
    /// Name of the bookmark.
    pub bookmark: String,
    /// Number of the pull request.
    pub number: u64,
    /// Web address of the pull request.
    pub url: String,
    /// The remote that the bookmark was pushed to.
    pub remote: String,
    /// When the entry was written, in milliseconds since the epoch.
    pub updated_at: i64,
}

/// The view of a [`CachedPr`].
pub struct CachedPrView {
    pub bookmark: Seq<char>,
    pub number: u64,
    pub url: Seq<char>,
    pub remote: Seq<char>,
    pub updated_at: i64,
}

impl View for CachedPr {
    type V = CachedPrView;

    open spec fn view(&self) -> CachedPrView {
        CachedPrView {
            bookmark: self.bookmark@,
            number: self.number,
            url: self.url@,
            remote: self.remote@,
            updated_at: self.updated_at,
        }
    }
}

impl DeepView for CachedPr {
    type V = CachedPrView;

    open spec fn deep_view(&self) -> CachedPrView {
        self@
    }
}

impl Clone for CachedPr {
    fn clone(&self) -> (r: Self)
        ensures
            r@ == self@,
    {
        CachedPr {
            bookmark: self.bookmark.clone(),
            number: self.number,
            url: self.url.clone(),
            remote: self.remote.clone(),
            updated_at: self.updated_at,
        }
    }
}

/// The cached pull requests.
#[derive(Debug)]
pub struct PrCache {
    /// Version of the file format.
    pub version: u32,
    /// The entries, in the order in which their bookmarks were first seen.
    pub prs: Vec<CachedPr>,
}

/// The view of a [`PrCache`].
pub struct PrCacheView {
    pub version: u32,
    pub prs: Seq<CachedPrView>,
}

impl PrCacheView {
    /// The bookmarks of the entries, in order.
    pub open spec fn bookmarks(self) -> Seq<Seq<char>> {
        self.prs.map_values(|p: CachedPrView| p.bookmark)
    }

    /// Whether there is an entry for `bookmark`.
    pub open spec fn has(self, bookmark: Seq<char>) -> bool {
        self.bookmarks().contains(bookmark)
    }
}

/// The entries whose bookmark `keep` accepts, in order.
pub open spec fn entries_where(prs: Seq<CachedPrView>, keep: spec_fn(Seq<char>) -> bool) -> Seq<
    CachedPrView,
>
    decreases prs.len(),
{
    if prs.len() == 0 {
        Seq::empty()
    } else {
        let rest = entries_where(prs.drop_last(), keep);
        if keep(prs.last().bookmark) {
            rest.push(prs.last())
        } else {
            rest
        }
    }
}

/// Keeping some entries keeps all of them exactly if all are accepted, and
/// what is kept is accepted.
pub proof fn lemma_entries_where(prs: Seq<CachedPrView>, keep: spec_fn(Seq<char>) -> bool)
    ensures
        entries_where(prs, keep).len() <= prs.len(),
        entries_where(prs, keep).len() < prs.len() <==> exists|i: int|
            0 <= i < prs.len() && !keep((#[trigger] prs[i]).bookmark),
        forall|i: int|
            0 <= i < entries_where(prs, keep).len() ==> keep(
                (#[trigger] entries_where(prs, keep)[i]).bookmark,
            ),
    decreases prs.len(),
{
    if prs.len() > 0 {
        let shorter = prs.drop_last();
        lemma_entries_where(shorter, keep);
        if exists|i: int| 0 <= i < shorter.len() && !keep((#[trigger] shorter[i]).bookmark) {
            let i = choose|i: int| 0 <= i < shorter.len() && !keep((#[trigger] shorter[i]).bookmark);
            assert(!keep(prs[i].bookmark));
        }
        if !keep(prs.last().bookmark) {
            assert(!keep(prs[prs.len() - 1].bookmark));
        }
        if exists|i: int| 0 <= i < prs.len() && !keep((#[trigger] prs[i]).bookmark) {
            let i = choose|i: int| 0 <= i < prs.len() && !keep((#[trigger] prs[i]).bookmark);
            if i < shorter.len() {
                assert(!keep(shorter[i].bookmark));
            }
        }
    }
}

/// Whether `text` is among `texts`.
fn has_text(texts: &[&str], text: &str) -> (r: bool)
    ensures
        r == texts.deep_view().contains(text@),
{
    let mut j: usize = 0;
    while j < texts.len()
        invariant
            j <= texts.len(),
            forall|k: int| 0 <= k < j ==> texts.deep_view()[k] != text@,
        decreases texts.len() - j,
    {
        if same_text(texts[j], text) {
            assert(texts.deep_view()[j as int] == text@);
            return true;
        }
        j += 1;
    }
    false
}

impl View for PrCache {
    type V = PrCacheView;

    open spec fn view(&self) -> PrCacheView {
        PrCacheView { version: self.version, prs: self.prs.deep_view() }
    }
}

impl Clone for PrCache {
    fn clone(&self) -> (r: Self)
        ensures
            r@ == self@,
    {
        let mut prs: Vec<CachedPr> = Vec::new();
        let mut i: usize = 0;
        while i < self.prs.len()
            invariant
                i <= self.prs.len(),
                prs.len() == i,
                forall|k: int| 0 <= k < i ==> prs@[k]@ == self.prs@[k]@,
            decreases self.prs.len() - i,
        {
            prs.push(self.prs[i].clone());
            i += 1;
        }
        assert(prs.deep_view() =~= self.prs.deep_view());
        PrCache { version: self.version, prs }
    }
}

impl Default for PrCache {
    fn default() -> (r: Self)
        ensures
            r@.version == 0,
            r@.prs.len() == 0,
    {
        PrCache { version: 0, prs: Vec::new() }
    }
}

impl PrCache {
    /// An empty cache of today's version.
    pub fn new() -> (r: Self)
        ensures
            r@.version == PR_CACHE_VERSION,
            r@.prs.len() == 0,
    {
        PrCache { version: PR_CACHE_VERSION, prs: Vec::new() }
    }

    /// The position of the first entry for `bookmark`.
    fn position(&self, bookmark: &str) -> (r: Option<usize>)
        ensures
            match r {
                Some(i) => crate::text::is_first_position(self@.bookmarks(), bookmark@, i as int),
                None => !self@.has(bookmark@),
            },
    {
        let ghost names = self@.bookmarks();
        let mut i: usize = 0;
        while i < self.prs.len()
            invariant
                names == self@.bookmarks(),
                i <= self.prs.len(),
                forall|k: int| 0 <= k < i ==> names[k] != bookmark@,
            decreases self.prs.len() - i,
        {
            if same_text(self.prs[i].bookmark.as_str(), bookmark) {
                return Some(i);
            }
            i += 1;
        }
        None
    }

    /// The first entry for `bookmark`.
    pub fn get(&self, bookmark: &str) -> (r: Option<&CachedPr>)
        ensures
            match r {
                Some(entry) => self@.has(bookmark@) && entry@
                    == self@.prs[crate::text::first_position(self@.bookmarks(), bookmark@)],
                None => !self@.has(bookmark@),
            },
    {
        match self.position(bookmark) {
            Some(i) => Some(&self.prs[i]),
            None => None,
        }
    }

    /// Writes the entry for `bookmark`: the first entry for it is replaced,
    /// and where there is none the entry goes to the end. The entry is
    /// stamped with `updated_at`, the time that the caller read.
    pub fn upsert(&mut self, bookmark: &str, pr: &PullRequest, remote: &str, updated_at: i64)
        ensures
            final(self)@.version == old(self)@.version,
            final(self)@.has(bookmark@),
            ({
                let at = if old(self)@.has(bookmark@) {
                    crate::text::first_position(old(self)@.bookmarks(), bookmark@)
                } else {
                    old(self)@.prs.len() as int
                };
                let entry = final(self)@.prs[at];
                &&& entry.bookmark == bookmark@
                &&& entry.number == pr@.number
                &&& entry.url == pr@.html_url
                &&& entry.remote == remote@
                &&& entry.updated_at == updated_at
                &&& final(self)@.prs == if old(self)@.has(bookmark@) {
                    old(self)@.prs.update(at, entry)
                } else {
                    old(self)@.prs.push(entry)
                }
            }),
    {
        let entry = CachedPr {
            bookmark: String::from_str(bookmark),
            number: pr.number,
            url: pr.html_url.clone(),
            remote: String::from_str(remote),
            updated_at,
        };
        let ghost before = self.prs.deep_view();
        match self.position(bookmark) {
            Some(i) => {
                self.prs.set(i, entry);
                assert(self.prs.deep_view() =~= before.update(i as int, entry@));
                assert(self@.bookmarks()[i as int] == bookmark@);
            },
            None => {
                self.prs.push(entry);
                assert(self.prs.deep_view() =~= before.push(entry@));
                assert(self@.bookmarks()[before.len() as int] == bookmark@);
            },
        }
    }

    /// Removes every entry for `bookmark`. Returns whether there was one.
    pub fn remove(&mut self, bookmark: &str) -> (removed: bool)
        ensures
            final(self)@.version == old(self)@.version,
            final(self)@.prs == entries_where(
                old(self)@.prs,
                |name: Seq<char>| name != bookmark@,
            ),
            removed == old(self)@.has(bookmark@),
            !final(self)@.has(bookmark@),
    {
        let ghost before = self.prs.deep_view();
        let ghost keep = |name: Seq<char>| name != bookmark@;
        let mut kept: Vec<CachedPr> = Vec::new();
        let mut all: Vec<CachedPr> = Vec::new();
        core::mem::swap(&mut all, &mut self.prs);
        let count = all.len();
        let mut i: usize = 0;
        assert(before.take(0) =~= Seq::empty());
        assert(kept.deep_view() =~= Seq::empty());
        while i < all.len()
            invariant
                all.deep_view() == before,
                count == all.len(),
                keep == (|name: Seq<char>| name != bookmark@),
                i <= all.len(),
                kept.deep_view() == entries_where(before.take(i as int), keep),
            decreases all.len() - i,
        {
            proof {
                assert(before.take(i + 1).drop_last() =~= before.take(i as int));
                assert(before.take(i + 1).last() == all@[i as int]@);
            }
            if !same_text(all[i].bookmark.as_str(), bookmark) {
                let ghost list = kept.deep_view();
                kept.push(all[i].clone());
                assert(kept.deep_view() =~= list.push(all@[i as int]@));
            }
            i += 1;
        }
        proof {
            assert(before.take(i as int) =~= before);
            lemma_entries_where(before, keep);
            assert(kept.deep_view().len() == kept.len());
            if old(self)@.has(bookmark@) {
                let k = choose|k: int|
                    0 <= k < old(self)@.bookmarks().len() && old(self)@.bookmarks()[k]
                        == bookmark@;
                assert(!keep(before[k].bookmark));
            }
            if exists|k: int| 0 <= k < before.len() && !keep((#[trigger] before[k]).bookmark) {
                let k = choose|k: int|
                    0 <= k < before.len() && !keep((#[trigger] before[k]).bookmark);
                assert(old(self)@.bookmarks()[k] == bookmark@);
            }
        }
        let removed = kept.len() < count;
        self.prs = kept;
        proof {
            if self@.has(bookmark@) {
                let k = choose|k: int|
                    0 <= k < self@.bookmarks().len() && self@.bookmarks()[k] == bookmark@;
                assert(keep(self@.prs[k].bookmark));
            }
        }
        removed
    }

    /// Keeps the entries whose bookmark is among `bookmarks` and removes
    /// the others.
    pub fn retain_bookmarks(&mut self, bookmarks: &[&str])
        ensures
            final(self)@.version == old(self)@.version,
            final(self)@.prs == entries_where(
                old(self)@.prs,
                |name: Seq<char>| bookmarks.deep_view().contains(name),
            ),
    {
        let ghost before = self.prs.deep_view();
        let ghost wanted = bookmarks.deep_view();
        let ghost keep = |name: Seq<char>| wanted.contains(name);
        let mut kept: Vec<CachedPr> = Vec::new();
        let mut all: Vec<CachedPr> = Vec::new();
        core::mem::swap(&mut all, &mut self.prs);
        let mut i: usize = 0;
        assert(before.take(0) =~= Seq::empty());
        assert(kept.deep_view() =~= Seq::empty());
        while i < all.len()
            invariant
                all.deep_view() == before,
                wanted == bookmarks.deep_view(),
                keep == (|name: Seq<char>| wanted.contains(name)),
                i <= all.len(),
                kept.deep_view() == entries_where(before.take(i as int), keep),
            decreases all.len() - i,
        {
            proof {
                assert(before.take(i + 1).drop_last() =~= before.take(i as int));
                assert(before.take(i + 1).last() == all@[i as int]@);
            }
            let found = has_text(bookmarks, all[i].bookmark.as_str());
            if found {
                let ghost list = kept.deep_view();
                kept.push(all[i].clone());
                assert(kept.deep_view() =~= list.push(all@[i as int]@));
            }
            i += 1;
        }
        assert(before.take(i as int) =~= before);
        self.prs = kept;
    }

    /// The cache as it is saved: the same entries under today's version.
    pub fn stamped(&self) -> (r: Self)
        ensures
            r@.version == PR_CACHE_VERSION,
            r@.prs == self@.prs,
    {
        let mut r = self.clone();
        r.version = PR_CACHE_VERSION;
        r
    }
}

/// The text of the cache file: the header comment, then the cache as it
/// was serialised.
pub fn pr_cache_file_text(serialised: &str) -> (r: String)
    ensures
        r@ == PR_CACHE_HEADER@ + serialised@,
{
    join(PR_CACHE_HEADER, serialised)
}

} // verus!
