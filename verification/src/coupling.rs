//! The coupling calculator: for every unordered pair of files that ever
//! changed in the same unit, the counts behind its coupling score.

use vstd::prelude::*;
use vstd::multiset::Multiset;
use crate::changed_file::ChangedFile;
use crate::delta::{DeltaView, file_views};
use crate::file_name::{FileName, name_lt, lemma_name_trichotomy, lemma_name_transitive, strictly_sorted};
use crate::statistics::{
    Statistics,
    StatsView,
    delta_set,
    files_touched,
    together_count,
    total_count,
    lemma_pair_counts,
    lemma_file_map_contains,
    lemma_file_map_index,
};
use crate::text::TextOrder;

verus! {

/// The canonical arrangement of a pair: the smaller file name first.
pub open spec fn canonical(a: FileName, b: FileName) -> (FileName, FileName) {
    if name_lt(b, a) {
        (b, a)
    } else {
        (a, b)
    }
}

/// Strict lexicographic order on canonical pairs.
pub open spec fn pair_lt(a: (FileName, FileName), b: (FileName, FileName)) -> bool {
    name_lt(a.0, b.0) || (a.0 == b.0 && name_lt(a.1, b.1))
}

/// An unordered pair of distinct files, stored with the smaller name
/// first so that both orders of the same two files give one key.
#[derive(Debug, Clone, PartialEq, Eq)]
pub struct Key {
    pub left: ChangedFile,
    pub right: ChangedFile,
}

impl View for Key {
    type V = (FileName, FileName);

    open spec fn view(&self) -> (FileName, FileName) {
        (self.left@, self.right@)
    }
}

impl Key {
    /// The canonical key of a pair, whichever way round it is given.
    pub fn new(left: ChangedFile, right: ChangedFile) -> (r: Key)
        ensures
            r@ == canonical(left@, right@),
    {
        match left.compare(&right) {
            TextOrder::After => Key { left: right, right: left },
            TextOrder::Before => {
                proof {
                    lemma_name_trichotomy(left@, right@);
                }
                Key { left, right }
            },
            TextOrder::Same => {
                proof {
                    lemma_name_trichotomy(left@, right@);
                }
                Key { left, right }
            },
        }
    }
}

/// One emitted statistic: how often the pair changed together, and in
/// how many units either of the two appeared. The score the report
/// shows is `together / total`, so these two counts carry it exactly.
#[derive(Debug, Clone, PartialEq, Eq)]
pub struct CouplingStat {
    pub key: Key,
    pub together: usize,
    pub total: usize,
}

/// A truthful emitted statistic: both files were touched, the key is
/// canonical with distinct files, the counts are the pair's counts, and
/// `1 <= together <= total` — so the score `together / total` lies in
/// (0, 1].
pub open spec fn stat_sound(v: StatsView, st: CouplingStat) -> bool {
    &&& files_touched(v).contains(st.key@.0)
    &&& files_touched(v).contains(st.key@.1)
    &&& name_lt(st.key@.0, st.key@.1)
    &&& st.together == together_count(v, st.key@.0, st.key@.1)
    &&& st.total == total_count(v, st.key@.0, st.key@.1)
    &&& 1 <= st.together <= st.total
}

/// The ranked result set: one statistic per coupled pair, keyed in
/// canonical order. An empty result is a valid "no coupling found".
#[derive(Debug, Clone, PartialEq, Eq)]
pub struct CouplingResult {
    pub result: Vec<CouplingStat>,
}

impl CouplingResult {
    /// Whether no pair ever changed together.
    pub fn is_empty(&self) -> (r: bool)
        ensures
            r == (self.result@.len() == 0),
    {
        self.result.is_empty()
    }

    /// The number of coupled pairs.
    pub fn len(&self) -> (r: usize)
        ensures
            r == self.result@.len(),
    {
        self.result.len()
    }
}

/// Presentation order: higher rank first, where a record's rank measure
/// `score × total` equals its together count exactly (score is
/// `together / total`), and records of equal rank keep canonical key
/// order.
pub open spec fn rank_le(a: CouplingStat, b: CouplingStat) -> bool {
    ||| a.together > b.together
    ||| (a.together == b.together && (pair_lt(a.key@, b.key@) || a.key@ == b.key@))
}

/// `pair_lt` is a strict total order on pairs.
pub proof fn lemma_pair_trichotomy(a: (FileName, FileName), b: (FileName, FileName))
    ensures
        pair_lt(a, b) || a == b || pair_lt(b, a),
        pair_lt(a, b) ==> a != b && !pair_lt(b, a),
        a == b ==> !pair_lt(a, b) && !pair_lt(b, a),
{
    lemma_name_trichotomy(a.0, b.0);
    lemma_name_trichotomy(a.1, b.1);
}

/// Any two records are ordered one way or the other.
pub proof fn lemma_rank_total(a: CouplingStat, b: CouplingStat)
    ensures
        rank_le(a, b) || rank_le(b, a),
{
    lemma_pair_trichotomy(a.key@, b.key@);
}

/// The rank order is transitive.
pub proof fn lemma_rank_transitive(a: CouplingStat, b: CouplingStat, c: CouplingStat)
    requires
        rank_le(a, b),
        rank_le(b, c),
    ensures
        rank_le(a, c),
{
    if a.together == b.together && b.together == c.together {
        if pair_lt(a.key@, b.key@) && pair_lt(b.key@, c.key@) {
            if name_lt(a.key@.0, b.key@.0) && name_lt(b.key@.0, c.key@.0) {
                lemma_name_transitive(a.key@.0, b.key@.0, c.key@.0);
            } else if a.key@.0 == b.key@.0 && b.key@.0 == c.key@.0 {
                lemma_name_transitive(a.key@.1, b.key@.1, c.key@.1);
            }
        }
    }
}

impl Key {
    /// An equal copy.
    pub fn duplicate(&self) -> (r: Key)
        ensures
            r == *self,
    {
        let r = Key { left: self.left.duplicate(), right: self.right.duplicate() };
        proof {
            assert(r == *self);
        }
        r
    }
}

impl CouplingStat {
    /// An equal copy.
    pub fn duplicate(&self) -> (r: CouplingStat)
        ensures
            r == *self,
    {
        let r = CouplingStat {
            key: self.key.duplicate(),
            together: self.together,
            total: self.total,
        };
        proof {
            assert(r == *self);
        }
        r
    }
}

/// Whether one record comes no later than another in presentation order.
fn rank_le_exec(a: &CouplingStat, b: &CouplingStat) -> (r: bool)
    ensures
        r == rank_le(*a, *b),
{
    if a.together > b.together {
        true
    } else if a.together < b.together {
        false
    } else {
        match a.key.left.compare(&b.key.left) {
            TextOrder::Before => {
                proof {
                    assert(name_lt(a.key@.0, b.key@.0));
                    assert(rank_le(*a, *b));
                }
                true
            },
            TextOrder::After => {
                proof {
                    lemma_name_trichotomy(a.key@.0, b.key@.0);
                    assert(!rank_le(*a, *b));
                }
                false
            },
            TextOrder::Same => {
                match a.key.right.compare(&b.key.right) {
                    TextOrder::After => {
                        proof {
                            lemma_name_trichotomy(a.key@.1, b.key@.1);
                            lemma_name_trichotomy(a.key@.0, b.key@.0);
                            assert(!rank_le(*a, *b));
                        }
                        false
                    },
                    TextOrder::Before => {
                        proof {
                            assert(rank_le(*a, *b));
                        }
                        true
                    },
                    TextOrder::Same => {
                        proof {
                            assert(a.key@ == b.key@);
                            assert(rank_le(*a, *b));
                        }
                        true
                    },
                }
            },
        }
    }
}

impl CouplingResult {
    /// The records in presentation order: rank measure `score × total`
    /// (that is, the together count) descending, ties in canonical key
    /// order. The records themselves are exactly those of the result.
    pub fn ranked(&self) -> (r: Vec<CouplingStat>)
        ensures
            r@.to_multiset() == self.result@.to_multiset(),
            forall|p: int, q: int|
                0 <= p < q < r@.len() ==> rank_le(#[trigger] r@[p], #[trigger] r@[q]),
    {
        broadcast use vstd::seq_lib::group_to_multiset_ensures;

        let mut work: Vec<CouplingStat> = Vec::new();
        let mut i: usize = 0;
        while i < self.result.len()
            invariant
                i <= self.result@.len(),
                work@.len() == i,
                forall|k: int| 0 <= k < i ==> work@[k] == self.result@[k],
            decreases self.result@.len() - i,
        {
            work.push(self.result[i].duplicate());
            i = i + 1;
        }
        proof {
            broadcast use vstd::seq_lib::group_to_multiset_ensures;

            assert(work@ =~= self.result@);
            assert(Multiset::<CouplingStat>::empty().add(work@.to_multiset())
                =~= self.result@.to_multiset());
        }
        let mut out: Vec<CouplingStat> = Vec::new();
        while work.len() > 0
            invariant
                out@.to_multiset().add(work@.to_multiset()) == self.result@.to_multiset(),
                forall|p: int, q: int|
                    0 <= p < q < out@.len() ==> rank_le(#[trigger] out@[p], #[trigger] out@[q]),
                forall|p: int, k: int|
                    0 <= p < out@.len() && 0 <= k < work@.len() ==> rank_le(
                        #[trigger] out@[p],
                        #[trigger] work@[k],
                    ),
            decreases work@.len(),
        {
            let mut m: usize = 0;
            let mut k: usize = 1;
            while k < work.len()
                invariant
                    0 < work@.len(),
                    m < k <= work@.len(),
                    forall|t: int| 0 <= t < k ==> rank_le(work@[m as int], #[trigger] work@[t]),
                decreases work@.len() - k,
            {
                if rank_le_exec(&work[k], &work[m]) {
                    proof {
                        assert forall|t: int| 0 <= t < k + 1 implies rank_le(
                            work@[k as int],
                            #[trigger] work@[t],
                        ) by {
                            if t < k {
                                lemma_rank_transitive(work@[k as int], work@[m as int], work@[t]);
                            }
                        }
                    }
                    m = k;
                } else {
                    proof {
                        lemma_rank_total(work@[k as int], work@[m as int]);
                    }
                }
                k = k + 1;
            }
            let ghost old_out = out@;
            let ghost old_work = work@;
            let chosen = work.remove(m);
            out.push(chosen);
            proof {
                broadcast use vstd::seq_lib::group_to_multiset_ensures;

                assert(out@ == old_out.push(chosen));
                assert(old_out.push(chosen).to_multiset() =~= old_out.to_multiset().insert(chosen));
                assert(work@ == old_work.remove(m as int));
                assert(old_work.remove(m as int).to_multiset() =~= old_work.to_multiset().remove(
                    old_work[m as int],
                ));
                assert(out@.to_multiset() =~= old_out.to_multiset().insert(chosen));
                assert(work@.to_multiset() =~= old_work.to_multiset().remove(chosen));
                assert(old_work.contains(chosen)) by {
                    assert(old_work[m as int] == chosen);
                }
                assert(old_work.to_multiset().count(chosen) > 0);
                assert(out@.to_multiset().add(work@.to_multiset()) =~= old_out.to_multiset().add(
                    old_work.to_multiset(),
                ));
                assert forall|p: int, k2: int|
                    0 <= p < out@.len() && 0 <= k2 < work@.len() implies rank_le(
                    #[trigger] out@[p],
                    #[trigger] work@[k2],
                ) by {
                    if k2 < m {
                        assert(work@[k2] == old_work[k2]);
                    } else {
                        assert(work@[k2] == old_work[k2 + 1]);
                    }
                    if p < old_out.len() {
                        assert(out@[p] == old_out[p]);
                    } else {
                        assert(out@[p] == chosen);
                    }
                }
            }
        }
        proof {
            broadcast use vstd::seq_lib::group_to_multiset_ensures;

            assert(work@.to_multiset() =~= Multiset::<CouplingStat>::empty());
            assert(out@.to_multiset() =~= self.result@.to_multiset());
        }
        out
    }
}

/// A pair reads the same whichever way round it is given: the canonical
/// key collapses both orders onto one record, and both counts are
/// symmetric.
pub proof fn lemma_pair_symmetric(v: StatsView, a: FileName, b: FileName)
    ensures
        canonical(a, b) == canonical(b, a),
        together_count(v, a, b) == together_count(v, b, a),
        total_count(v, a, b) == total_count(v, b, a),
{
    lemma_name_trichotomy(a, b);
    assert(delta_set(v, a).intersect(delta_set(v, b)) =~= delta_set(v, b).intersect(
        delta_set(v, a),
    ));
    assert(delta_set(v, a).union(delta_set(v, b)) =~= delta_set(v, b).union(delta_set(v, a)));
}

/// Every delta set a well-formed index holds is finite.
pub proof fn lemma_delta_sets_finite(s: &Statistics)
    requires
        s.rep_wf(),
    ensures
        forall|f: FileName| (#[trigger] delta_set(s@, f)).finite(),
{
    broadcast use vstd::seq_lib::seq_to_set_is_finite;

    assert forall|f: FileName| (#[trigger] delta_set(s@, f)).finite() by {
        if s@.by_file.dom().contains(f) {
            lemma_file_map_contains(s.change_to_delta@, f);
            let i = choose|i: int|
                0 <= i < s.change_to_delta@.len() && (#[trigger] s.change_to_delta@[i]).0@ == f;
            lemma_file_map_index(s.change_to_delta@, i);
        }
    }
}

impl Statistics {
    /// The canonical key and the two counts for one pair of files.
    pub(crate) fn deltas_containing(&self, item: &ChangedFile, other_file: &ChangedFile) -> (r: (
        Key,
        usize,
        usize,
    ))
        requires
            self.wf(),
        ensures
            r.0@ == canonical(item@, other_file@),
            r.1 == together_count(self@, item@, other_file@),
            r.2 == total_count(self@, item@, other_file@),
            r.1 <= r.2,
    {
        proof {
            lemma_delta_sets_finite(self);
            lemma_pair_counts(self@, item@, other_file@);
        }
        (
            Key::new(item.duplicate(), other_file.duplicate()),
            self.deltas_containing_both(item, other_file),
            self.deltas_containing_either(item, other_file),
        )
    }

    /// Keeps a statistic only when the pair ever changed together: a
    /// pair whose together count is zero is never emitted.
    pub(crate) fn insert_with_new_coupling_item(
        acc: Vec<CouplingStat>,
        key: Key,
        together: usize,
        total: usize,
    ) -> (r: Vec<CouplingStat>)
        ensures
            together > 0 ==> r@ == acc@.push(CouplingStat { key, together, total }),
            together == 0 ==> r@ == acc@,
    {
        let mut r = acc;
        if together > 0 {
            r.push(CouplingStat { key, together, total });
        }
        r
    }
}

/// The statistic of the pair at positions `x < y` of the sorted file
/// vector, which is emitted only when the two ever changed together.
pub open spec fn is_pair_stat(
    v: StatsView,
    cs: Seq<ChangedFile>,
    x: int,
    y: int,
    st: CouplingStat,
) -> bool {
    &&& 0 <= x < y < cs.len()
    &&& st.key@ == (cs[x]@, cs[y]@)
    &&& st.together == together_count(v, cs[x]@, cs[y]@)
    &&& st.total == total_count(v, cs[x]@, cs[y]@)
    &&& 1 <= st.together <= st.total
}

impl Statistics {
    /// Appends the statistics of every coupled pair whose first file
    /// stands at position `i` of the sorted file vector, in rising order
    /// of the second position, which is reported alongside.
    pub(crate) fn add_statistic(
        &self,
        changes: &Vec<ChangedFile>,
        acc: Vec<CouplingStat>,
        i: usize,
    ) -> (res: (Vec<CouplingStat>, Ghost<Seq<int>>))
        requires
            self.wf(),
            strictly_sorted(file_views(changes@)),
            i < changes@.len(),
        ensures
            ({
                let r = res.0@;
                let ys = res.1@;
                &&& r.len() == acc@.len() + ys.len()
                &&& forall|p: int| 0 <= p < acc@.len() ==> r[p] == acc@[p]
                &&& forall|p: int| 0 <= p < ys.len() ==> i < #[trigger] ys[p] < changes@.len()
                &&& forall|p: int, q: int| 0 <= p < q < ys.len() ==> ys[p] < ys[q]
                &&& forall|p: int|
                    0 <= p < ys.len() ==> is_pair_stat(
                        self@,
                        changes@,
                        i as int,
                        ys[p],
                        #[trigger] r[acc@.len() + p],
                    )
                &&& forall|y: int|
                    i < y < changes@.len() && together_count(
                        self@,
                        changes@[i as int]@,
                        (#[trigger] changes@[y])@,
                    ) > 0 ==> ys.contains(y)
            }),
    {
        let ghost vi = changes@[i as int]@;
        let n: usize = changes.len();
        let mut r = acc;
        let ghost mut ys: Seq<int> = Seq::empty();
        let mut j: usize = i + 1;
        while j < n
            invariant
                self.wf(),
                strictly_sorted(file_views(changes@)),
                i < j <= changes@.len(),
                n == changes@.len(),
                vi == changes@[i as int]@,
                r@.len() == acc@.len() + ys.len(),
                forall|p: int| 0 <= p < acc@.len() ==> r@[p] == acc@[p],
                forall|p: int| 0 <= p < ys.len() ==> i < #[trigger] ys[p] < j,
                forall|p: int, q: int| 0 <= p < q < ys.len() ==> ys[p] < ys[q],
                forall|p: int|
                    0 <= p < ys.len() ==> is_pair_stat(
                        self@,
                        changes@,
                        i as int,
                        ys[p],
                        #[trigger] r@[acc@.len() + p],
                    ),
                forall|y: int|
                    i < y < j && together_count(self@, vi, (#[trigger] changes@[y])@) > 0
                        ==> ys.contains(y),
            decreases n - j,
        {
            let ghost old_r = r@;
            let ghost old_ys = ys;
            let (key, count, total) = self.deltas_containing(&changes[i], &changes[j]);
            let ghost vj = changes@[j as int]@;
            proof {
                assert(file_views(changes@)[i as int] == vi);
                assert(file_views(changes@)[j as int] == vj);
                assert(name_lt(vi, vj));
                lemma_name_trichotomy(vi, vj);
                assert(key@ == (vi, vj));
            }
            r = Statistics::insert_with_new_coupling_item(r, key, count, total);
            proof {
                if count > 0 {
                    ys = ys.push(j as int);
                    assert(is_pair_stat(self@, changes@, i as int, j as int, r@[old_r.len() as int]));
                }
            }
            j = j + 1;
            proof {
                assert forall|y: int|
                    i < y < j && together_count(self@, vi, (#[trigger] changes@[y])@)
                        > 0 implies ys.contains(y) by {
                    if y < j - 1 {
                        let p = choose|p: int| 0 <= p < old_ys.len() && old_ys[p] == y;
                        assert(ys[p] == y);
                    } else {
                        assert(count > 0);
                        assert(ys[ys.len() - 1] == y);
                    }
                }
            }
        }
        (r, Ghost(ys))
    }

    /// One statistic for every unordered pair of distinct files that
    /// ever changed in the same unit, in canonical key order: a sound
    /// table (every record true of the index, every together count at
    /// least one) that misses no coupled pair.
    pub fn coupling(&self) -> (r: CouplingResult)
        requires
            self.wf(),
        ensures
            forall|p: int|
                0 <= p < r.result@.len() ==> stat_sound(self@, #[trigger] r.result@[p]),
            forall|p: int, q: int|
                0 <= p < q < r.result@.len() ==> pair_lt(
                    (#[trigger] r.result@[p]).key@,
                    (#[trigger] r.result@[q]).key@,
                ),
            forall|a: FileName, b: FileName|
                files_touched(self@).contains(a) && files_touched(self@).contains(b) && a != b
                    && together_count(self@, a, b) > 0 ==> exists|p: int|
                    0 <= p < r.result@.len() && (#[trigger] r.result@[p]).key@ == canonical(a, b),
    {
        let changes = self.changed_files();
        let n: usize = changes.len();
        let mut result: Vec<CouplingStat> = Vec::new();
        let ghost mut pairs: Seq<(int, int)> = Seq::empty();
        let mut i: usize = 0;
        while i < n
            invariant
                self.wf(),
                strictly_sorted(file_views(changes@)),
                file_views(changes@).to_set() == files_touched(self@),
                i <= n,
                n == changes@.len(),
                result@.len() == pairs.len(),
                forall|p: int|
                    0 <= p < pairs.len() ==> 0 <= (#[trigger] pairs[p]).0 < i && pairs[p].0
                        < pairs[p].1 < changes@.len(),
                forall|p: int, q: int|
                    0 <= p < q < pairs.len() ==> (#[trigger] pairs[p]).0 < (
                    #[trigger] pairs[q]).0 || (pairs[p].0 == pairs[q].0 && pairs[p].1
                        < pairs[q].1),
                forall|p: int|
                    0 <= p < pairs.len() ==> is_pair_stat(
                        self@,
                        changes@,
                        (#[trigger] pairs[p]).0,
                        pairs[p].1,
                        result@[p],
                    ),
                forall|x: int, y: int|
                    0 <= x < y < changes@.len() && x < i && together_count(
                        self@,
                        (#[trigger] changes@[x])@,
                        (#[trigger] changes@[y])@,
                    ) > 0 ==> pairs.contains((x, y)),
            decreases n - i,
        {
            let ghost old_result = result@;
            let ghost old_pairs = pairs;
            let res = self.add_statistic(&changes, result, i);
            result = res.0;
            proof {
                let ys = res.1@;
                pairs = pairs + ys.map_values(|y: int| (i as int, y));
                assert forall|p: int|
                    0 <= p < pairs.len() implies 0 <= (#[trigger] pairs[p]).0 < i + 1 && pairs[p].0
                    < pairs[p].1 < changes@.len() by {
                    if p >= old_pairs.len() {
                        assert(pairs[p] == (i as int, ys[p - old_pairs.len()]));
                    }
                }
                assert forall|p: int|
                    0 <= p < pairs.len() implies is_pair_stat(
                    self@,
                    changes@,
                    (#[trigger] pairs[p]).0,
                    pairs[p].1,
                    result@[p],
                ) by {
                    if p < old_pairs.len() {
                        assert(result@[p] == old_result[p]);
                        assert(pairs[p] == old_pairs[p]);
                    } else {
                        assert(pairs[p] == (i as int, ys[p - old_pairs.len()]));
                        assert(is_pair_stat(
                            self@,
                            changes@,
                            i as int,
                            ys[p - old_pairs.len()],
                            result@[old_pairs.len() + (p - old_pairs.len())],
                        ));
                    }
                }
            }
            i = i + 1;
            proof {
                let ys = res.1@;
                assert forall|x: int, y: int|
                    0 <= x < y < changes@.len() && x < i && together_count(
                        self@,
                        (#[trigger] changes@[x])@,
                        (#[trigger] changes@[y])@,
                    ) > 0 implies pairs.contains((x, y)) by {
                    if x < i - 1 {
                        let p = choose|p: int| 0 <= p < old_pairs.len() && old_pairs[p] == (x, y);
                        assert(pairs[p] == (x, y));
                    } else {
                        assert(ys.contains(y));
                        let q = choose|q: int| 0 <= q < ys.len() && ys[q] == y;
                        assert(pairs[old_pairs.len() + q] == (x, y));
                    }
                }
            }
        }
        proof {
            assert forall|p: int, q: int|
                0 <= p < q < result@.len() implies pair_lt(
                (#[trigger] result@[p]).key@,
                (#[trigger] result@[q]).key@,
            ) by {
                let (x1, y1) = pairs[p];
                let (x2, y2) = pairs[q];
                assert(file_views(changes@)[x1] == changes@[x1]@);
                assert(file_views(changes@)[x2] == changes@[x2]@);
                assert(file_views(changes@)[y1] == changes@[y1]@);
                assert(file_views(changes@)[y2] == changes@[y2]@);
                if x1 < x2 {
                    assert(name_lt(changes@[x1]@, changes@[x2]@));
                } else {
                    assert(x1 == x2 && y1 < y2);
                    assert(changes@[x1]@ == changes@[x2]@);
                    assert(name_lt(changes@[y1]@, changes@[y2]@));
                }
            }
            assert forall|p: int|
                0 <= p < result@.len() implies stat_sound(self@, #[trigger] result@[p]) by {
                let (x, y) = pairs[p];
                assert(file_views(changes@)[x] == changes@[x]@);
                assert(file_views(changes@)[y] == changes@[y]@);
                assert(file_views(changes@).to_set().contains(changes@[x]@));
                assert(file_views(changes@).to_set().contains(changes@[y]@));
                assert(name_lt(changes@[x]@, changes@[y]@));
            }
            assert forall|a: FileName, b: FileName|
                files_touched(self@).contains(a) && files_touched(self@).contains(b) && a != b
                    && together_count(self@, a, b) > 0 implies exists|p: int|
                0 <= p < result@.len() && (#[trigger] result@[p]).key@ == canonical(a, b) by {
                lemma_delta_sets_finite(self);
                lemma_pair_counts(self@, a, b);
                lemma_name_trichotomy(a, b);
                let c = canonical(a, b).0;
                let d = canonical(a, b).1;
                assert(name_lt(c, d));
                lemma_pair_counts(self@, c, d);
                assert(together_count(self@, c, d) > 0);
                assert(file_views(changes@).to_set().contains(c));
                assert(file_views(changes@).to_set().contains(d));
                let x = choose|x: int|
                    0 <= x < file_views(changes@).len() && file_views(changes@)[x] == c;
                let y = choose|y: int|
                    0 <= y < file_views(changes@).len() && file_views(changes@)[y] == d;
                assert(changes@[x]@ == c && changes@[y]@ == d);
                lemma_name_trichotomy(c, d);
                if y < x {
                    assert(name_lt(file_views(changes@)[y], file_views(changes@)[x]));
                }
                assert(x < y);
                assert(pairs.contains((x, y)));
                let p = choose|p: int| 0 <= p < pairs.len() && pairs[p] == (x, y);
                assert(result@[p].key@ == canonical(a, b));
            }
        }
        CouplingResult { result }
    }
}

} // verus!
