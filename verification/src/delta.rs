//! One unit of change: an identifier, a timestamp, and the set of files
//! it touched, kept as a duplicate-free sorted vector.

use vstd::prelude::*;
use crate::changed_file::ChangedFile;
use crate::file_name::{
    FileName,
    name_lt,
    prefixed,
    strictly_sorted,
    lemma_name_trichotomy,
    lemma_name_transitive,
    lemma_sorted_canonical,
};
use crate::hash;
use crate::text::TextOrder;

verus! {

/// The views of a sequence of changed files.
pub open spec fn file_views(s: Seq<ChangedFile>) -> Seq<FileName> {
    s.map_values(|c: ChangedFile| c@)
}

/// What a unit of change denotes: its identifier, its timestamp in
/// seconds, and the set of file names it touched.
#[verifier::ext_equal]
pub struct DeltaView {
    pub id: Seq<char>,
    pub stamp: int,
    pub files: Set<FileName>,
}

/// A unit of change. The file vector is kept strictly sorted, so a delta
/// value determines, and is determined by, its view.
#[derive(Debug, Clone, PartialEq, Eq)]
pub struct Delta {
    pub changes: Vec<ChangedFile>,
    pub timestamp: i64,
    pub hash: hash::Hash,
}

impl View for Delta {
    type V = DeltaView;

    open spec fn view(&self) -> DeltaView {
        DeltaView {
            id: self.hash@,
            stamp: self.timestamp as int,
            files: file_views(self.changes@).to_set(),
        }
    }
}

/// Places a file in a sorted duplicate-free vector, keeping it sorted; a
/// file already present is not added again.
pub(crate) fn insert_file(v: &mut Vec<ChangedFile>, f: ChangedFile)
    requires
        strictly_sorted(file_views(old(v)@)),
    ensures
        strictly_sorted(file_views(final(v)@)),
        file_views(final(v)@).to_set() == file_views(old(v)@).to_set().insert(f@),
{
    let ghost ov = file_views(v@);
    let mut i: usize = 0;
    loop
        invariant
            i <= v@.len(),
            v@ == old(v)@,
            strictly_sorted(file_views(v@)),
            forall|k: int| 0 <= k < i ==> name_lt(file_views(v@)[k], f@),
        ensures
            i <= v@.len(),
            v@ == old(v)@,
            forall|k: int| 0 <= k < i ==> name_lt(file_views(v@)[k], f@),
            i < v@.len() ==> !name_lt(file_views(v@)[i as int], f@),
        decreases v@.len() - i,
    {
        if i == v.len() {
            break ;
        }
        match v[i].compare(&f) {
            TextOrder::Before => {
                i = i + 1;
            },
            TextOrder::Same => {
                proof {
                    lemma_name_trichotomy(v@[i as int]@, f@);
                }
                break ;
            },
            TextOrder::After => {
                proof {
                    lemma_name_trichotomy(v@[i as int]@, f@);
                }
                break ;
            },
        }
    }
    if i < v.len() && v[i].same_as(&f) {
        proof {
            assert(ov[i as int] == f@);
            assert(ov.to_set().contains(f@));
            assert(file_views(v@).to_set() =~= ov.to_set().insert(f@));
        }
    } else {
        proof {
            if i < v@.len() {
                lemma_name_trichotomy(ov[i as int], f@);
            }
        }
        v.insert(i, f);
        proof {
            let nv = file_views(v@);
            assert(v@ == old(v)@.insert(i as int, f));
            assert forall|p: int, q: int| 0 <= p < q < nv.len() implies name_lt(nv[p], nv[q]) by {
                if q < i {
                    assert(nv[p] == ov[p] && nv[q] == ov[q]);
                } else if p > i {
                    assert(nv[p] == ov[p - 1] && nv[q] == ov[q - 1]);
                } else if p < i && q == i {
                    assert(nv[p] == ov[p]);
                } else if p == i {
                    assert(nv[q] == ov[q - 1]);
                    if q - 1 > i {
                        lemma_name_transitive(f@, ov[i as int], ov[q - 1]);
                    }
                } else {
                    assert(p < i && q > i);
                    assert(nv[p] == ov[p] && nv[q] == ov[q - 1]);
                    if q - 1 == i {
                        lemma_name_transitive(ov[p], f@, ov[q - 1]);
                    } else {
                        lemma_name_transitive(ov[p], ov[i as int], ov[q - 1]);
                    }
                }
            }
            assert(nv.to_set() =~= ov.to_set().insert(f@)) by {
                assert forall|x: FileName| nv.to_set().contains(x) implies ov.to_set().insert(
                    f@,
                ).contains(x) by {
                    let k = choose|k: int| 0 <= k < nv.len() && nv[k] == x;
                    if k < i {
                        assert(ov[k] == x);
                    } else if k > i {
                        assert(ov[k - 1] == x);
                    }
                }
                assert forall|x: FileName| ov.to_set().insert(f@).contains(x) implies nv.to_set()
                    .contains(x) by {
                    if x == f@ {
                        assert(nv[i as int] == x);
                    } else {
                        let k = choose|k: int| 0 <= k < ov.len() && ov[k] == x;
                        if k < i {
                            assert(nv[k] == x);
                        } else {
                            assert(nv[k + 1] == x);
                        }
                    }
                }
            }
        }
    }
}

/// Folds the given files into a sorted duplicate-free vector.
pub(crate) fn insert_all(v: &mut Vec<ChangedFile>, files: &Vec<ChangedFile>)
    requires
        strictly_sorted(file_views(old(v)@)),
    ensures
        strictly_sorted(file_views(final(v)@)),
        file_views(final(v)@).to_set() == file_views(old(v)@).to_set().union(
            file_views(files@).to_set(),
        ),
{
    let ghost base = file_views(old(v)@).to_set();
    let mut j: usize = 0;
    while j < files.len()
        invariant
            j <= files@.len(),
            strictly_sorted(file_views(v@)),
            file_views(v@).to_set() == base.union(
                file_views(files@.subrange(0, j as int)).to_set(),
            ),
        decreases files@.len() - j,
    {
        proof {
            assert(file_views(files@.subrange(0, 0)).to_set() =~= Set::<FileName>::empty());
        }
        let f = files[j].duplicate();
        insert_file(v, f);
        j = j + 1;
        proof {
            let pre = file_views(files@.subrange(0, j - 1));
            let cur = file_views(files@.subrange(0, j as int));
            assert(cur.to_set() =~= pre.to_set().insert(files@[j - 1]@)) by {
                assert forall|x: FileName| cur.to_set().contains(x) implies pre.to_set().insert(
                    files@[j - 1]@,
                ).contains(x) by {
                    let k = choose|k: int| 0 <= k < cur.len() && cur[k] == x;
                    if k < j - 1 {
                        assert(pre[k] == x);
                    }
                }
                assert forall|x: FileName|
                    pre.to_set().insert(files@[j - 1]@).contains(x) implies cur.to_set().contains(
                    x,
                ) by {
                    if x == files@[j - 1]@ {
                        assert(cur[j - 1] == x);
                    } else {
                        let k = choose|k: int| 0 <= k < pre.len() && pre[k] == x;
                        assert(cur[k] == x);
                    }
                }
            }
            assert(file_views(v@).to_set() =~= base.union(cur.to_set()));
        }
    }
    proof {
        assert(files@.subrange(0, files@.len() as int) =~= files@);
        if files@.len() == 0 {
            assert(file_views(files@.subrange(0, 0)).to_set() =~= Set::<FileName>::empty());
            assert(file_views(v@).to_set() =~= base.union(file_views(files@).to_set()));
        }
    }
}

impl Delta {
    /// The sorted vector holds no duplicates.
    pub open spec fn wf(&self) -> bool {
        strictly_sorted(file_views(self.changes@))
    }

    /// A unit of change with the given identifier, timestamp, and files;
    /// duplicate files are collapsed.
    pub fn new(hash: hash::Hash, timestamp: i64, changes: Vec<ChangedFile>) -> (r: Delta)
        ensures
            r.wf(),
            r@ == (DeltaView {
                id: hash@,
                stamp: timestamp as int,
                files: file_views(changes@).to_set(),
            }),
    {
        let mut sorted: Vec<ChangedFile> = Vec::new();
        insert_all(&mut sorted, &changes);
        proof {
            assert(file_views(sorted@).to_set() =~= file_views(changes@).to_set());
        }
        Delta { changes: sorted, timestamp, hash }
    }

    /// The identifier of this unit.
    pub fn hash(&self) -> (r: hash::Hash)
        ensures
            r@ == self@.id,
    {
        self.hash.duplicate()
    }

    /// The timestamp of this unit, in seconds.
    pub fn timestamp(&self) -> (r: i64)
        ensures
            r as int == self@.stamp,
    {
        self.timestamp
    }

    /// An equal copy.
    pub fn duplicate(&self) -> (r: Delta)
        ensures
            r@ == self@,
            r.changes@.len() == self.changes@.len(),
            file_views(r.changes@) == file_views(self.changes@),
            self.wf() ==> r.wf(),
    {
        let mut changes: Vec<ChangedFile> = Vec::new();
        let mut i: usize = 0;
        while i < self.changes.len()
            invariant
                i <= self.changes@.len(),
                changes@.len() == i,
                forall|k: int| 0 <= k < i ==> changes@[k] == self.changes@[k],
            decreases self.changes@.len() - i,
        {
            changes.push(self.changes[i].duplicate());
            i = i + 1;
        }
        let r = Delta { changes, timestamp: self.timestamp, hash: self.hash.duplicate() };
        proof {
            assert(file_views(r.changes@) =~= file_views(self.changes@));
            assert(r@ =~= self@);
        }
        r
    }

    /// Whether two units are the same in identifier, timestamp and files.
    pub fn same_as(&self, other: &Delta) -> (r: bool)
        requires
            self.wf(),
            other.wf(),
        ensures
            r == (self@ == other@),
    {
        if !self.hash.same_as(&other.hash) {
            return false;
        }
        if self.timestamp != other.timestamp {
            return false;
        }
        if self.changes.len() != other.changes.len() {
            proof {
                assert(file_views(self.changes@).len() != file_views(other.changes@).len());
                lemma_sorted_canonical_contra(
                    file_views(self.changes@),
                    file_views(other.changes@),
                );
            }
            return false;
        }
        let mut i: usize = 0;
        while i < self.changes.len()
            invariant
                i <= self.changes@.len(),
                self.changes@.len() == other.changes@.len(),
                self.wf(),
                other.wf(),
                forall|k: int|
                    0 <= k < i ==> file_views(self.changes@)[k] == file_views(other.changes@)[k],
            decreases self.changes@.len() - i,
        {
            if !self.changes[i].same_as(&other.changes[i]) {
                proof {
                    assert(file_views(self.changes@)[i as int] != file_views(other.changes@)[
                        i as int
                    ]);
                    lemma_sorted_canonical_contra(
                        file_views(self.changes@),
                        file_views(other.changes@),
                    );
                }
                return false;
            }
            i = i + 1;
        }
        proof {
            assert(file_views(self.changes@) =~= file_views(other.changes@));
            assert(self@ =~= other@);
        }
        true
    }

    /// The combined unit: this unit's identifier and timestamp, and the
    /// union of both file sets.
    pub fn merge(&self, other: &Delta) -> (r: Delta)
        requires
            self.wf(),
            other.wf(),
        ensures
            r.wf(),
            r@ == (DeltaView {
                id: self@.id,
                stamp: self@.stamp,
                files: self@.files.union(other@.files),
            }),
    {
        let mut changes = self.duplicate().changes;
        insert_all(&mut changes, &other.changes);
        Delta { changes, timestamp: self.timestamp, hash: self.hash.duplicate() }
    }

    /// The same unit with every file carrying the given prefix in place of
    /// whatever prefix it had.
    pub fn add_str_prefix(&self, prefix: &str) -> (r: Delta)
        requires
            self.wf(),
        ensures
            r.wf(),
            r@ == (DeltaView {
                id: self@.id,
                stamp: self@.stamp,
                files: prefixed(self@.files, prefix@),
            }),
    {
        let mut changes: Vec<ChangedFile> = Vec::new();
        let mut j: usize = 0;
        proof {
            assert(file_views(changes@).to_set() =~= prefixed(
                file_views(self.changes@.subrange(0, 0)).to_set(),
                prefix@,
            ));
        }
        while j < self.changes.len()
            invariant
                j <= self.changes@.len(),
                strictly_sorted(file_views(changes@)),
                file_views(changes@).to_set() == prefixed(
                    file_views(self.changes@.subrange(0, j as int)).to_set(),
                    prefix@,
                ),
            decreases self.changes@.len() - j,
        {
            let f = self.changes[j].add_prefix(prefix);
            let ghost before = file_views(changes@).to_set();
            insert_file(&mut changes, f);
            j = j + 1;
            proof {
                let pre = file_views(self.changes@.subrange(0, j - 1)).to_set();
                let cur = file_views(self.changes@.subrange(0, j as int)).to_set();
                let x = self.changes@[j - 1]@;
                assert(cur =~= pre.insert(x)) by {
                    assert forall|y: FileName| cur.contains(y) implies pre.insert(x).contains(
                        y,
                    ) by {
                        let k = choose|k: int|
                            0 <= k < j && #[trigger] file_views(
                                self.changes@.subrange(0, j as int),
                            )[k] == y;
                        if k < j - 1 {
                            assert(file_views(self.changes@.subrange(0, j - 1))[k] == y);
                        }
                    }
                    assert forall|y: FileName| pre.insert(x).contains(y) implies cur.contains(
                        y,
                    ) by {
                        if y == x {
                            assert(file_views(self.changes@.subrange(0, j as int))[j - 1] == y);
                        } else {
                            let k = choose|k: int|
                                0 <= k < j - 1 && #[trigger] file_views(
                                    self.changes@.subrange(0, j - 1),
                                )[k] == y;
                            assert(file_views(self.changes@.subrange(0, j as int))[k] == y);
                        }
                    }
                }
                assert(file_views(changes@).to_set() =~= prefixed(cur, prefix@)) by {
                    assert forall|y: FileName|
                        file_views(changes@).to_set().contains(y) implies prefixed(
                        cur,
                        prefix@,
                    ).contains(y) by {
                        if before.contains(y) {
                            let n = choose|n: FileName|
                                #[trigger] pre.contains(n) && y == (FileName {
                                    prefix: Some(prefix@),
                                    path: n.path,
                                });
                            assert(cur.contains(n));
                        } else {
                            assert(y == f@);
                            assert(cur.contains(x));
                        }
                    }
                    assert forall|y: FileName| prefixed(cur, prefix@).contains(y) implies file_views(
                        changes@,
                    ).to_set().contains(y) by {
                        let n = choose|n: FileName|
                            #[trigger] cur.contains(n) && y == (FileName {
                                prefix: Some(prefix@),
                                path: n.path,
                            });
                        if pre.contains(n) {
                            assert(prefixed(pre, prefix@).contains(y));
                        } else {
                            assert(n == x);
                            assert(y == f@);
                        }
                    }
                }
            }
        }
        proof {
            assert(self.changes@.subrange(0, self.changes@.len() as int) =~= self.changes@);
        }
        Delta { changes, timestamp: self.timestamp, hash: self.hash.duplicate() }
    }

    /// The changed files, in their sorted order.
    pub fn files(&self) -> (r: Vec<ChangedFile>)
        ensures
            r@.len() == self.changes@.len(),
            forall|k: int| 0 <= k < r@.len() ==> r@[k] == self.changes@[k],
    {
        let mut r: Vec<ChangedFile> = Vec::new();
        let mut i: usize = 0;
        while i < self.changes.len()
            invariant
                i <= self.changes@.len(),
                r@.len() == i,
                forall|k: int| 0 <= k < i ==> r@[k] == self.changes@[k],
            decreases self.changes@.len() - i,
        {
            r.push(self.changes[i].duplicate());
            i = i + 1;
        }
        r
    }
}

/// Merging two units reads the same both ways round: the merged file
/// set is the union of the two.
pub proof fn lemma_merge_changes_commutative(a: DeltaView, b: DeltaView)
    ensures
        a.files.union(b.files) == b.files.union(a.files),
{
    assert(a.files.union(b.files) =~= b.files.union(a.files));
}

/// Merging associates: folding the same units under one key in any
/// grouping yields one and the same file set.
pub proof fn lemma_merge_changes_associative(a: DeltaView, b: DeltaView, c: DeltaView)
    ensures
        a.files.union(b.files).union(c.files) == a.files.union(b.files.union(c.files)),
{
    assert(a.files.union(b.files).union(c.files) =~= a.files.union(b.files.union(c.files)));
}

/// Two strictly sorted sequences that differ have different element sets.
proof fn lemma_sorted_canonical_contra(a: Seq<FileName>, b: Seq<FileName>)
    requires
        strictly_sorted(a),
        strictly_sorted(b),
        a != b,
    ensures
        a.to_set() != b.to_set(),
{
    if a.to_set() == b.to_set() {
        lemma_sorted_canonical(a, b);
    }
}

} // verus!
