//! The version-history provider seam: the contract a provider meets, an
//! in-memory provider built from literal tables, and the fail-fast
//! combination of per-parent comparisons.

use vstd::prelude::*;
use crate::changed_file::ChangedFile;
use crate::commit::Commit;
use crate::commits::Commits;
use crate::delta::Delta;
use crate::hash;

verus! {

/// Why a history could not be read.
#[derive(Debug, Clone, PartialEq, Eq)]
pub enum Error {
    LibGit2(String),
}

impl Error {
    /// An equal copy.
    pub fn duplicate(&self) -> (r: Error)
        ensures
            r == *self,
    {
        match self {
            Error::LibGit2(m) => Error::LibGit2(m.clone()),
        }
    }
}

/// A source of revisions, and of the files each revision changed
/// relative to its parents.
pub trait Repository {
    /// The revisions of the current branch, most recent first.
    fn commits_in_current_branch(&self) -> (r: Result<Commits, Error>);

    /// The delta of one revision: its identifier and timestamp, and the
    /// union of the changed-file sets against each of its parents.
    fn compare_with_parent(&self, commit: &Commit) -> (r: Result<Delta, Error>)
        ensures
            r matches Ok(d) ==> d.wf() && d@.id == commit@.id && d@.stamp == commit@.stamp,
    ;
}

/// The changed files recorded against one revision identifier, in
/// recording order.
pub open spec fn matching(s: Seq<(hash::Hash, ChangedFile)>, h: Seq<char>) -> Seq<ChangedFile>
    decreases s.len(),
{
    if s.len() == 0 {
        Seq::empty()
    } else if s.last().0@ == h {
        matching(s.drop_last(), h).push(s.last().1)
    } else {
        matching(s.drop_last(), h)
    }
}

/// Picks out of a change table every file recorded against the given
/// revision.
pub fn changes_for(changes: &Vec<(hash::Hash, ChangedFile)>, commit: &Commit) -> (r: Vec<
    ChangedFile,
>)
    ensures
        r@ == matching(changes@, commit@.id),
{
    let mut r: Vec<ChangedFile> = Vec::new();
    let mut i: usize = 0;
    proof {
        assert(changes@.subrange(0, 0) =~= Seq::<(hash::Hash, ChangedFile)>::empty());
    }
    while i < changes.len()
        invariant
            i <= changes@.len(),
            r@ == matching(changes@.subrange(0, i as int), commit@.id),
        decreases changes@.len() - i,
    {
        if changes[i].0.same_as(&commit.hash) {
            r.push(changes[i].1.duplicate());
        }
        i = i + 1;
        proof {
            let cur = changes@.subrange(0, i as int);
            assert(cur.drop_last() =~= changes@.subrange(0, i - 1));
            assert(cur.last() == changes@[i - 1]);
        }
    }
    proof {
        assert(changes@.subrange(0, changes@.len() as int) =~= changes@);
    }
    r
}

/// A provider built from a literal table of revisions and changes; it
/// never fails.
#[derive(Debug)]
pub struct InMemory {
    pub commits: Commits,
    pub changes: Vec<(hash::Hash, ChangedFile)>,
}

impl InMemory {
    /// A provider answering from the given tables.
    pub fn new(commits: Commits, changes: Vec<(hash::Hash, ChangedFile)>) -> (r: InMemory)
        ensures
            r.commits == commits,
            r.changes == changes,
    {
        InMemory { commits, changes }
    }
}

impl Repository for InMemory {
    fn commits_in_current_branch(&self) -> (r: Result<Commits, Error>)
        ensures
            r matches Ok(c) && c@ == self.commits@,
    {
        Ok(self.commits.duplicate())
    }

    fn compare_with_parent(&self, commit: &Commit) -> (r: Result<Delta, Error>)
        ensures
            r matches Ok(d) && d@.files == crate::delta::file_views(
                matching(self.changes@, commit@.id),
            ).to_set(),
    {
        let files = changes_for(&self.changes, commit);
        Ok(Delta::new(commit.hash(), commit.timestamp(), files))
    }
}

/// Whether every per-parent comparison succeeded.
pub open spec fn all_ok(s: Seq<Result<Vec<ChangedFile>, Error>>) -> bool {
    forall|i: int| 0 <= i < s.len() ==> (#[trigger] s[i]) is Ok
}

/// The concatenation of every successful comparison's files.
pub open spec fn combined(s: Seq<Result<Vec<ChangedFile>, Error>>) -> Seq<ChangedFile>
    decreases s.len(),
{
    if s.len() == 0 {
        Seq::empty()
    } else {
        combined(s.drop_last()) + (match s.last() {
            Ok(v) => v@,
            Err(_) => Seq::empty(),
        })
    }
}

/// Joins per-parent comparisons fail-fast: the first failure aborts the
/// whole comparison; otherwise every parent's files are kept together.
pub fn flatten_or_first_err(results: &Vec<Result<Vec<ChangedFile>, Error>>) -> (r: Result<
    Vec<ChangedFile>,
    Error,
>)
    ensures
        (r is Ok) <==> all_ok(results@),
        r matches Ok(v) ==> v@ == combined(results@),
        r matches Err(e) ==> exists|i: int|
            0 <= i < results@.len() && (#[trigger] results@[i]) == Err::<Vec<ChangedFile>, Error>(
                e,
            ) && (forall|j: int| 0 <= j < i ==> results@[j] is Ok),
{
    let mut acc: Vec<ChangedFile> = Vec::new();
    let mut i: usize = 0;
    proof {
        assert(results@.subrange(0, 0) =~= Seq::<Result<Vec<ChangedFile>, Error>>::empty());
    }
    while i < results.len()
        invariant
            i <= results@.len(),
            forall|j: int| 0 <= j < i ==> (#[trigger] results@[j]) is Ok,
            acc@ == combined(results@.subrange(0, i as int)),
        decreases results@.len() - i,
    {
        match &results[i] {
            Err(e) => {
                let failure = e.duplicate();
                proof {
                    assert(results@[i as int] == Err::<Vec<ChangedFile>, Error>(failure));
                }
                return Err(failure);
            },
            Ok(v) => {
                let mut k: usize = 0;
                let ghost before = acc@;
                while k < v.len()
                    invariant
                        k <= v@.len(),
                        acc@ == before + v@.subrange(0, k as int),
                    decreases v@.len() - k,
                {
                    acc.push(v[k].duplicate());
                    k = k + 1;
                    proof {
                        assert(before + v@.subrange(0, k as int) =~= (before + v@.subrange(
                            0,
                            k - 1,
                        )).push(v@[k - 1]));
                    }
                }
                proof {
                    assert(v@.subrange(0, v@.len() as int) =~= v@);
                }
            },
        }
        i = i + 1;
        proof {
            let cur = results@.subrange(0, i as int);
            assert(cur.drop_last() =~= results@.subrange(0, i - 1));
            assert(cur.last() == results@[i - 1]);
        }
    }
    proof {
        assert(results@.subrange(0, results@.len() as int) =~= results@);
    }
    Ok(acc)
}

} // verus!
