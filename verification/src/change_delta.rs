//! The set of file paths changed by one unit of change, kept as a
//! duplicate-free sorted vector.

use vstd::prelude::*;
use crate::changed_file_path::ChangedFilePath;
use crate::file_name::{
    FileName,
    name_lt,
    prefixed,
    strictly_sorted,
    lemma_name_trichotomy,
    lemma_name_transitive,
};
use crate::text::TextOrder;

verus! {

/// The views of a sequence of changed file paths.
pub open spec fn path_views(s: Seq<ChangedFilePath>) -> Seq<FileName> {
    s.map_values(|c: ChangedFilePath| c@)
}

/// A set of changed file paths. The vector is kept strictly sorted, so a
/// set of paths has exactly one representation.
#[derive(Debug, Clone, PartialEq, Eq)]
pub struct ChangeDelta {
    pub changes: Vec<ChangedFilePath>,
}

impl View for ChangeDelta {
    type V = Set<FileName>;

    open spec fn view(&self) -> Set<FileName> {
        path_views(self.changes@).to_set()
    }
}

/// Places a path in a sorted duplicate-free vector, keeping it sorted;
/// a path already present is not added again.
pub(crate) fn insert_path(v: &mut Vec<ChangedFilePath>, f: ChangedFilePath)
    requires
        strictly_sorted(path_views(old(v)@)),
    ensures
        strictly_sorted(path_views(final(v)@)),
        path_views(final(v)@).to_set() == path_views(old(v)@).to_set().insert(f@),
{
    let ghost ov = path_views(v@);
    let mut i: usize = 0;
    loop
        invariant
            i <= v@.len(),
            v@ == old(v)@,
            strictly_sorted(path_views(v@)),
            forall|k: int| 0 <= k < i ==> name_lt(path_views(v@)[k], f@),
        ensures
            i <= v@.len(),
            v@ == old(v)@,
            forall|k: int| 0 <= k < i ==> name_lt(path_views(v@)[k], f@),
            i < v@.len() ==> !name_lt(path_views(v@)[i as int], f@),
        decreases v@.len() - i,
    {
        if i == v.len() {
            break ;
        }
        match v[i].compare(&f) {
            TextOrder::Before => {
                i = i + 1;
            },
            TextOrder::Same => {
                proof {
                    lemma_name_trichotomy(v@[i as int]@, f@);
                }
                break ;
            },
            TextOrder::After => {
                proof {
                    lemma_name_trichotomy(v@[i as int]@, f@);
                }
                break ;
            },
        }
    }
    if i < v.len() && v[i].same_as(&f) {
        proof {
            assert(ov[i as int] == f@);
            assert(ov.to_set().contains(f@));
            assert(path_views(v@).to_set() =~= ov.to_set().insert(f@));
        }
    } else {
        proof {
            if i < v@.len() {
                lemma_name_trichotomy(ov[i as int], f@);
            }
        }
        v.insert(i, f);
        proof {
            let nv = path_views(v@);
            assert(v@ == old(v)@.insert(i as int, f));
            assert forall|p: int, q: int| 0 <= p < q < nv.len() implies name_lt(nv[p], nv[q]) by {
                if q < i {
                    assert(nv[p] == ov[p] && nv[q] == ov[q]);
                } else if p > i {
                    assert(nv[p] == ov[p - 1] && nv[q] == ov[q - 1]);
                } else if p < i && q == i {
                    assert(nv[p] == ov[p]);
                } else if p == i {
                    assert(nv[q] == ov[q - 1]);
                    if q - 1 > i {
                        lemma_name_transitive(f@, ov[i as int], ov[q - 1]);
                    }
                } else {
                    assert(p < i && q > i);
                    assert(nv[p] == ov[p] && nv[q] == ov[q - 1]);
                    if q - 1 == i {
                        lemma_name_transitive(ov[p], f@, ov[q - 1]);
                    } else {
                        lemma_name_transitive(ov[p], ov[i as int], ov[q - 1]);
                    }
                }
            }
            assert(nv.to_set() =~= ov.to_set().insert(f@)) by {
                assert forall|x: FileName| nv.to_set().contains(x) implies ov.to_set().insert(
                    f@,
                ).contains(x) by {
                    let k = choose|k: int| 0 <= k < nv.len() && nv[k] == x;
                    if k < i {
                        assert(ov[k] == x);
                    } else if k > i {
                        assert(ov[k - 1] == x);
                    }
                }
                assert forall|x: FileName| ov.to_set().insert(f@).contains(x) implies nv.to_set()
                    .contains(x) by {
                    if x == f@ {
                        assert(nv[i as int] == x);
                    } else {
                        let k = choose|k: int| 0 <= k < ov.len() && ov[k] == x;
                        if k < i {
                            assert(nv[k] == x);
                        } else {
                            assert(nv[k + 1] == x);
                        }
                    }
                }
            }
        }
    }
}

impl ChangeDelta {
    /// The sorted vector holds no duplicates.
    pub open spec fn wf(&self) -> bool {
        strictly_sorted(path_views(self.changes@))
    }

    /// The set of the given paths, duplicates collapsed.
    pub fn from_paths(paths: Vec<ChangedFilePath>) -> (r: ChangeDelta)
        ensures
            r.wf(),
            r@ == path_views(paths@).to_set(),
    {
        let mut changes: Vec<ChangedFilePath> = Vec::new();
        let mut j: usize = 0;
        proof {
            assert(path_views(changes@).to_set() =~= path_views(paths@.subrange(0, 0)).to_set());
        }
        while j < paths.len()
            invariant
                j <= paths@.len(),
                strictly_sorted(path_views(changes@)),
                path_views(changes@).to_set() == path_views(paths@.subrange(0, j as int)).to_set(),
            decreases paths@.len() - j,
        {
            let f = paths[j].duplicate();
            insert_path(&mut changes, f);
            j = j + 1;
            proof {
                let pre = path_views(paths@.subrange(0, j - 1));
                let cur = path_views(paths@.subrange(0, j as int));
                assert(cur.to_set() =~= pre.to_set().insert(paths@[j - 1]@)) by {
                    assert forall|x: FileName| cur.to_set().contains(x) implies pre.to_set().insert(
                        paths@[j - 1]@,
                    ).contains(x) by {
                        let k = choose|k: int| 0 <= k < cur.len() && cur[k] == x;
                        if k < j - 1 {
                            assert(pre[k] == x);
                        }
                    }
                    assert forall|x: FileName|
                        pre.to_set().insert(paths@[j - 1]@).contains(x) implies cur.to_set()
                        .contains(x) by {
                        if x == paths@[j - 1]@ {
                            assert(cur[j - 1] == x);
                        } else {
                            let k = choose|k: int| 0 <= k < pre.len() && pre[k] == x;
                            assert(cur[k] == x);
                        }
                    }
                }
            }
        }
        proof {
            assert(paths@.subrange(0, paths@.len() as int) =~= paths@);
        }
        ChangeDelta { changes }
    }

    /// The set of the given path texts, none carrying a prefix.
    pub fn from_strs(paths: Vec<&str>) -> (r: ChangeDelta)
        ensures
            r.wf(),
            r@ == paths@.map_values(|s: &str| FileName { prefix: None, path: s@ }).to_set(),
    {
        let mut named: Vec<ChangedFilePath> = Vec::new();
        let mut j: usize = 0;
        while j < paths.len()
            invariant
                j <= paths@.len(),
                named@.len() == j,
                forall|k: int|
                    0 <= k < j ==> named@[k]@ == (FileName {
                        prefix: None,
                        path: paths@[k]@,
                    }),
            decreases paths@.len() - j,
        {
            named.push(ChangedFilePath::new(paths[j]));
            j = j + 1;
        }
        let r = ChangeDelta::from_paths(named);
        proof {
            assert(path_views(named@) =~= paths@.map_values(
                |s: &str| FileName { prefix: None, path: s@ },
            ));
        }
        r
    }

    /// Whether the given path is one of the changed paths.
    pub fn contains(&self, item: &ChangedFilePath) -> (r: bool)
        ensures
            r == self@.contains(item@),
    {
        let mut i: usize = 0;
        while i < self.changes.len()
            invariant
                i <= self.changes@.len(),
                forall|k: int| 0 <= k < i ==> path_views(self.changes@)[k] != item@,
            decreases self.changes@.len() - i,
        {
            if self.changes[i].same_as(item) {
                proof {
                    assert(path_views(self.changes@)[i as int] == item@);
                }
                return true;
            }
            i = i + 1;
        }
        proof {
            if self@.contains(item@) {
                let k = choose|k: int|
                    0 <= k < path_views(self.changes@).len() && path_views(self.changes@)[k]
                        == item@;
            }
        }
        false
    }

    /// The same set of paths, every one carrying the given prefix in place
    /// of whatever prefix it had.
    pub fn add_prefix(&self, prefix: &str) -> (r: ChangeDelta)
        requires
            self.wf(),
        ensures
            r.wf(),
            r@ == prefixed(self@, prefix@),
    {
        let mut changes: Vec<ChangedFilePath> = Vec::new();
        let mut j: usize = 0;
        proof {
            assert(path_views(changes@).to_set() =~= prefixed(
                path_views(self.changes@.subrange(0, 0)).to_set(),
                prefix@,
            ));
        }
        while j < self.changes.len()
            invariant
                j <= self.changes@.len(),
                strictly_sorted(path_views(changes@)),
                path_views(changes@).to_set() == prefixed(
                    path_views(self.changes@.subrange(0, j as int)).to_set(),
                    prefix@,
                ),
            decreases self.changes@.len() - j,
        {
            let f = self.changes[j].add_prefix(prefix);
            let ghost before = path_views(changes@).to_set();
            insert_path(&mut changes, f);
            j = j + 1;
            proof {
                let pre = path_views(self.changes@.subrange(0, j - 1)).to_set();
                let cur = path_views(self.changes@.subrange(0, j as int)).to_set();
                let x = self.changes@[j - 1]@;
                assert(cur =~= pre.insert(x)) by {
                    assert forall|y: FileName| cur.contains(y) implies pre.insert(x).contains(
                        y,
                    ) by {
                        let k = choose|k: int|
                            0 <= k < j && #[trigger] path_views(
                                self.changes@.subrange(0, j as int),
                            )[k] == y;
                        if k < j - 1 {
                            assert(path_views(self.changes@.subrange(0, j - 1))[k] == y);
                        }
                    }
                    assert forall|y: FileName| pre.insert(x).contains(y) implies cur.contains(
                        y,
                    ) by {
                        if y == x {
                            assert(path_views(self.changes@.subrange(0, j as int))[j - 1] == y);
                        } else {
                            let k = choose|k: int|
                                0 <= k < j - 1 && #[trigger] path_views(
                                    self.changes@.subrange(0, j - 1),
                                )[k] == y;
                            assert(path_views(self.changes@.subrange(0, j as int))[k] == y);
                        }
                    }
                }
                assert(path_views(changes@).to_set() =~= prefixed(cur, prefix@)) by {
                    assert forall|y: FileName|
                        path_views(changes@).to_set().contains(y) implies prefixed(
                        cur,
                        prefix@,
                    ).contains(y) by {
                        if before.contains(y) {
                            let n = choose|n: FileName|
                                #[trigger] pre.contains(n) && y == (FileName {
                                    prefix: Some(prefix@),
                                    path: n.path,
                                });
                            assert(cur.contains(n));
                        } else {
                            assert(y == f@);
                            assert(cur.contains(x));
                        }
                    }
                    assert forall|y: FileName| prefixed(cur, prefix@).contains(y) implies path_views(
                        changes@,
                    ).to_set().contains(y) by {
                        let n = choose|n: FileName|
                            #[trigger] cur.contains(n) && y == (FileName {
                                prefix: Some(prefix@),
                                path: n.path,
                            });
                        if pre.contains(n) {
                            assert(prefixed(pre, prefix@).contains(y));
                        } else {
                            assert(n == x);
                            assert(y == f@);
                        }
                    }
                }
            }
        }
        proof {
            assert(self.changes@.subrange(0, self.changes@.len() as int) =~= self.changes@);
        }
        ChangeDelta { changes }
    }

    /// The changed paths, in their sorted order.
    pub fn files(&self) -> (r: Vec<ChangedFilePath>)
        ensures
            r@.len() == self.changes@.len(),
            forall|k: int| 0 <= k < r@.len() ==> r@[k] == self.changes@[k],
    {
        let mut r: Vec<ChangedFilePath> = Vec::new();
        let mut i: usize = 0;
        while i < self.changes.len()
            invariant
                i <= self.changes@.len(),
                r@.len() == i,
                forall|k: int| 0 <= k < i ==> r@[k] == self.changes@[k],
            decreases self.changes@.len() - i,
        {
            r.push(self.changes[i].duplicate());
            i = i + 1;
        }
        r
    }
}

} // verus!
