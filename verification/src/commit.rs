//! One revision of a tracked history: its identifier, timestamp, and
//! parent identifiers.

use vstd::prelude::*;
use crate::hash;

verus! {

/// What a commit denotes.
#[verifier::ext_equal]
pub struct CommitView {
    pub id: Seq<char>,
    pub stamp: int,
    pub parents: Seq<Seq<char>>,
}

/// A revision: an identifier, a timestamp in seconds, and the
/// identifiers of its parents.
#[derive(Debug, Clone, PartialEq, Eq)]
pub struct Commit {
    pub hash: hash::Hash,
    pub timestamp: i64,
    pub parents: Vec<hash::Hash>,
}

/// The views of a sequence of identifiers.
pub open spec fn hash_views(s: Seq<hash::Hash>) -> Seq<Seq<char>> {
    s.map_values(|h: hash::Hash| h@)
}

impl View for Commit {
    type V = CommitView;

    open spec fn view(&self) -> CommitView {
        CommitView {
            id: self.hash@,
            stamp: self.timestamp as int,
            parents: hash_views(self.parents@),
        }
    }
}

impl Commit {
    /// A revision with the given identifier, parents, and timestamp.
    pub fn new(hash: hash::Hash, parents: Vec<hash::Hash>, timestamp: i64) -> (r: Commit)
        ensures
            r@ == (CommitView {
                id: hash@,
                stamp: timestamp as int,
                parents: hash_views(parents@),
            }),
    {
        Commit { hash, timestamp, parents }
    }

    /// The identifier of this revision.
    pub fn hash(&self) -> (r: hash::Hash)
        ensures
            r@ == self@.id,
    {
        self.hash.duplicate()
    }

    /// The timestamp of this revision, in seconds.
    pub fn timestamp(&self) -> (r: i64)
        ensures
            r as int == self@.stamp,
    {
        self.timestamp
    }

    /// The identifiers of this revision's parents.
    pub fn parents(&self) -> (r: Vec<hash::Hash>)
        ensures
            hash_views(r@) == self@.parents,
    {
        let mut r: Vec<hash::Hash> = Vec::new();
        let mut i: usize = 0;
        while i < self.parents.len()
            invariant
                i <= self.parents@.len(),
                r@.len() == i,
                forall|k: int| 0 <= k < i ==> r@[k] == self.parents@[k],
            decreases self.parents@.len() - i,
        {
            r.push(self.parents[i].duplicate());
            i = i + 1;
        }
        proof {
            assert(hash_views(r@) =~= hash_views(self.parents@));
        }
        r
    }

    /// A copy with the same view.
    pub fn duplicate(&self) -> (r: Commit)
        ensures
            r@ == self@,
            r.hash == self.hash,
            r.timestamp == self.timestamp,
            r.parents@ == self.parents@,
    {
        let mut parents: Vec<hash::Hash> = Vec::new();
        let mut i: usize = 0;
        while i < self.parents.len()
            invariant
                i <= self.parents@.len(),
                parents@.len() == i,
                forall|k: int| 0 <= k < i ==> parents@[k] == self.parents@[k],
            decreases self.parents@.len() - i,
        {
            parents.push(self.parents[i].duplicate());
            i = i + 1;
        }
        proof {
            assert(parents@ =~= self.parents@);
        }
        let r = Commit { hash: self.hash.duplicate(), timestamp: self.timestamp, parents };
        proof {
            assert(r@ =~= self@);
        }
        r
    }
}

} // verus!
