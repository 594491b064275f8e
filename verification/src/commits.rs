//! The ordered list of revisions a provider reports for the current
//! branch.

use vstd::prelude::*;
use crate::commit::{Commit, CommitView};

verus! {

/// The views of a sequence of commits.
pub open spec fn commit_views(s: Seq<Commit>) -> Seq<CommitView> {
    s.map_values(|c: Commit| c@)
}

/// An ordered list of revisions, most recent first.
#[derive(Debug, Clone, PartialEq, Eq)]
pub struct Commits {
    pub commits: Vec<Commit>,
}

impl View for Commits {
    type V = Seq<CommitView>;

    open spec fn view(&self) -> Seq<CommitView> {
        commit_views(self.commits@)
    }
}

impl Commits {
    /// The list holding the given revisions, in the given order.
    pub fn new(commits: Vec<Commit>) -> (r: Commits)
        ensures
            r@ == commit_views(commits@),
    {
        Commits { commits }
    }

    /// The revisions, in order.
    pub fn items(&self) -> (r: &Vec<Commit>)
        ensures
            r@ == self.commits@,
    {
        &self.commits
    }

    /// How many revisions the list holds.
    pub fn len(&self) -> (r: usize)
        ensures
            r == self@.len(),
    {
        self.commits.len()
    }

    /// A copy with the same view.
    pub fn duplicate(&self) -> (r: Commits)
        ensures
            r@ == self@,
    {
        let mut commits: Vec<Commit> = Vec::new();
        let mut i: usize = 0;
        while i < self.commits.len()
            invariant
                i <= self.commits@.len(),
                commits@.len() == i,
                forall|k: int| 0 <= k < i ==> (#[trigger] commits@[k])@ == self.commits@[k]@,
            decreases self.commits@.len() - i,
        {
            commits.push(self.commits[i].duplicate());
            i = i + 1;
        }
        proof {
            assert(commit_views(commits@) =~= commit_views(self.commits@));
        }
        Commits { commits }
    }
}

} // verus!
