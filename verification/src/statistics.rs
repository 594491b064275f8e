//! The coupling index: every unit of change keyed by its aggregation
//! identifier, and every file mapped to the set of units that touched it.

use vstd::prelude::*;
use crate::changed_file::ChangedFile;
use crate::delta::{Delta, DeltaView, file_views};
use crate::file_name::{FileName, lemma_name_trichotomy, name_lt, strictly_sorted};
use crate::hash;

verus! {

/// How raw deltas collapse into statistical units: one unit per delta
/// identifier, or one unit per fixed time window, whose width is given in
/// seconds.
#[derive(Clone, Copy, Debug, PartialEq, Eq)]
pub enum Strategy {
    Hash,
    CommitTime(i64),
}

impl Strategy {
    /// A usable grouping policy: a time window must be positive.
    pub open spec fn wf(&self) -> bool {
        match *self {
            Strategy::Hash => true,
            Strategy::CommitTime(window) => window > 0,
        }
    }
}

/// The start of the bucket a timestamp falls in: the timestamp rounded
/// down to a multiple of the window width.
pub open spec fn bucket_start(ts: int, window: int) -> int
    recommends
        window > 0,
{
    ts - (ts % window)
}

/// Rounds a timestamp down to the start of its bucket.
pub fn truncate_timestamp(ts: i64, window: i64) -> (r: i64)
    requires
        window > 0,
        i64::MIN + window <= ts,
    ensures
        r as int == bucket_start(ts as int, window as int),
        r <= ts < r + window,
        r as int % window as int == 0,
{
    let rem: i64 = match ts.checked_rem_euclid(window) {
        Some(rem) => rem,
        None => 0,
    };
    proof {
        vstd::arithmetic::div_mod::lemma_fundamental_div_mod(ts as int, window as int);
        vstd::arithmetic::div_mod::lemma_mod_multiples_basic(
            ts as int / window as int,
            window as int,
        );
        assert((ts as int / window as int) * window as int == window as int * (ts as int
            / window as int)) by (nonlinear_arith);
    }
    ts - rem
}

/// The views of a sequence of deltas.
pub open spec fn delta_views(s: Seq<Delta>) -> Seq<DeltaView> {
    s.map_values(|d: Delta| d@)
}

/// The map an association vector of deltas denotes: later entries win.
pub open spec fn key_map(s: Seq<(hash::Hash, Delta)>) -> Map<Seq<char>, DeltaView>
    decreases s.len(),
{
    if s.len() == 0 {
        Map::empty()
    } else {
        key_map(s.drop_last()).insert(s.last().0@, s.last().1@)
    }
}

/// The map an association vector of delta sets denotes.
pub open spec fn file_map(s: Seq<(ChangedFile, Vec<Delta>)>) -> Map<FileName, Set<DeltaView>>
    decreases s.len(),
{
    if s.len() == 0 {
        Map::empty()
    } else {
        file_map(s.drop_last()).insert(s.last().0@, delta_views(s.last().1@).to_set())
    }
}

/// What the index denotes: a map from aggregation key to its (possibly
/// merged) unit, and a map from each file to the set of units recorded
/// against it.
#[verifier::ext_equal]
pub struct StatsView {
    pub by_key: Map<Seq<char>, DeltaView>,
    pub by_file: Map<FileName, Set<DeltaView>>,
}

/// Every file of every keyed unit is on record: the unit is among the
/// sets held for each of its files.
pub open spec fn index_invariant(v: StatsView) -> bool {
    forall|k: Seq<char>, f: FileName|
        v.by_key.dom().contains(k) && #[trigger] v.by_key[k].files.contains(f)
            ==> v.by_file.dom().contains(f) && v.by_file[f].contains(v.by_key[k])
}

/// The coupling index, built by folding deltas in arrival order.
#[derive(Debug)]
pub struct Statistics {
    pub hash_to_delta: Vec<(hash::Hash, Delta)>,
    pub change_to_delta: Vec<(ChangedFile, Vec<Delta>)>,
}

impl View for Statistics {
    type V = StatsView;

    open spec fn view(&self) -> StatsView {
        StatsView { by_key: key_map(self.hash_to_delta@), by_file: file_map(self.change_to_delta@) }
    }
}

impl Statistics {
    /// The vectors are real association vectors: keys occur once, every
    /// delta is well formed, and no set holds a unit twice.
    pub open spec fn rep_wf(&self) -> bool {
        &&& forall|i: int, j: int|
            0 <= i < j < self.hash_to_delta@.len() ==> (#[trigger] self.hash_to_delta@[i].0)@ != (
            #[trigger] self.hash_to_delta@[j].0)@
        &&& forall|i: int|
            0 <= i < self.hash_to_delta@.len() ==> (#[trigger] self.hash_to_delta@[i].1).wf()
        &&& forall|i: int, j: int|
            0 <= i < j < self.change_to_delta@.len() ==> (#[trigger] self.change_to_delta@[i].0)@
                != (#[trigger] self.change_to_delta@[j].0)@
        &&& forall|i: int, j: int|
            0 <= i < self.change_to_delta@.len() && 0 <= j < self.change_to_delta@[i].1@.len()
                ==> (#[trigger] self.change_to_delta@[i].1@[j]).wf()
        &&& forall|i: int|
            0 <= i < self.change_to_delta@.len() ==> (#[trigger] delta_views(
                self.change_to_delta@[i].1@,
            )).no_duplicates()
    }

    /// A well-formed index: a sound representation that denotes maps
    /// satisfying the index invariant.
    pub open spec fn wf(&self) -> bool {
        self.rep_wf() && index_invariant(self@)
    }
}

impl Default for Statistics {
    /// The empty index.
    fn default() -> (r: Statistics)
        ensures
            r.wf(),
            r@.by_key == Map::<Seq<char>, DeltaView>::empty(),
            r@.by_file == Map::<FileName, Set<DeltaView>>::empty(),
    {
        Statistics { hash_to_delta: Vec::new(), change_to_delta: Vec::new() }
    }
}

/// A key is in the map exactly when some entry carries it.
pub proof fn lemma_key_map_contains(s: Seq<(hash::Hash, Delta)>, k: Seq<char>)
    ensures
        key_map(s).dom().contains(k) <==> exists|i: int|
            0 <= i < s.len() && (#[trigger] s[i]).0@ == k,
    decreases s.len(),
{
    if s.len() > 0 {
        lemma_key_map_contains(s.drop_last(), k);
        if key_map(s).dom().contains(k) {
            if s.last().0@ != k {
                let i = choose|i: int| 0 <= i < s.drop_last().len() && (#[trigger] s.drop_last()[i]).0@ == k;
                assert(s[i].0@ == k);
            }
        }
        if exists|i: int| 0 <= i < s.len() && (#[trigger] s[i]).0@ == k {
            let i = choose|i: int| 0 <= i < s.len() && (#[trigger] s[i]).0@ == k;
            if i < s.len() - 1 {
                assert(s.drop_last()[i].0@ == k);
            }
        }
    }
}

/// With distinct keys, each entry gives its key's value.
pub proof fn lemma_key_map_index(s: Seq<(hash::Hash, Delta)>, i: int)
    requires
        forall|p: int, q: int|
            0 <= p < q < s.len() ==> (#[trigger] s[p]).0@ != (#[trigger] s[q]).0@,
        0 <= i < s.len(),
    ensures
        key_map(s).dom().contains(s[i].0@),
        key_map(s)[s[i].0@] == s[i].1@,
    decreases s.len(),
{
    if i == s.len() - 1 {
    } else {
        assert(s.drop_last()[i] == s[i]);
        lemma_key_map_index(s.drop_last(), i);
        assert(s.last().0@ != s[i].0@);
    }
}

/// Replacing the entry that carries a key re-denotes as a map insert.
pub proof fn lemma_key_map_update(s: Seq<(hash::Hash, Delta)>, i: int, p: (hash::Hash, Delta))
    requires
        forall|x: int, y: int|
            0 <= x < y < s.len() ==> (#[trigger] s[x]).0@ != (#[trigger] s[y]).0@,
        0 <= i < s.len(),
        p.0@ == s[i].0@,
    ensures
        key_map(s.update(i, p)) == key_map(s).insert(p.0@, p.1@),
    decreases s.len(),
{
    let u = s.update(i, p);
    if i == s.len() - 1 {
        assert(u.drop_last() =~= s.drop_last());
        assert(key_map(u) =~= key_map(s).insert(p.0@, p.1@));
    } else {
        assert(u.drop_last() =~= s.drop_last().update(i, p));
        lemma_key_map_update(s.drop_last(), i, p);
        assert(s.drop_last()[i] == s[i]);
        assert(s.last().0@ != p.0@);
        assert(key_map(u) =~= key_map(s).insert(p.0@, p.1@));
    }
}

/// A file is in the map exactly when some entry carries it.
pub proof fn lemma_file_map_contains(s: Seq<(ChangedFile, Vec<Delta>)>, f: FileName)
    ensures
        file_map(s).dom().contains(f) <==> exists|i: int|
            0 <= i < s.len() && (#[trigger] s[i]).0@ == f,
    decreases s.len(),
{
    if s.len() > 0 {
        lemma_file_map_contains(s.drop_last(), f);
        if file_map(s).dom().contains(f) {
            if s.last().0@ != f {
                let i = choose|i: int| 0 <= i < s.drop_last().len() && (#[trigger] s.drop_last()[i]).0@ == f;
                assert(s[i].0@ == f);
            }
        }
        if exists|i: int| 0 <= i < s.len() && (#[trigger] s[i]).0@ == f {
            let i = choose|i: int| 0 <= i < s.len() && (#[trigger] s[i]).0@ == f;
            if i < s.len() - 1 {
                assert(s.drop_last()[i].0@ == f);
            }
        }
    }
}

/// With distinct files, each entry gives its file's delta set.
pub proof fn lemma_file_map_index(s: Seq<(ChangedFile, Vec<Delta>)>, i: int)
    requires
        forall|p: int, q: int|
            0 <= p < q < s.len() ==> (#[trigger] s[p]).0@ != (#[trigger] s[q]).0@,
        0 <= i < s.len(),
    ensures
        file_map(s).dom().contains(s[i].0@),
        file_map(s)[s[i].0@] == delta_views(s[i].1@).to_set(),
    decreases s.len(),
{
    if i == s.len() - 1 {
    } else {
        assert(s.drop_last()[i] == s[i]);
        lemma_file_map_index(s.drop_last(), i);
        assert(s.last().0@ != s[i].0@);
    }
}

/// Replacing the entry that carries a file re-denotes as a map insert.
pub proof fn lemma_file_map_update(
    s: Seq<(ChangedFile, Vec<Delta>)>,
    i: int,
    p: (ChangedFile, Vec<Delta>),
)
    requires
        forall|x: int, y: int|
            0 <= x < y < s.len() ==> (#[trigger] s[x]).0@ != (#[trigger] s[y]).0@,
        0 <= i < s.len(),
        p.0@ == s[i].0@,
    ensures
        file_map(s.update(i, p)) == file_map(s).insert(p.0@, delta_views(p.1@).to_set()),
    decreases s.len(),
{
    let u = s.update(i, p);
    if i == s.len() - 1 {
        assert(u.drop_last() =~= s.drop_last());
        assert(file_map(u) =~= file_map(s).insert(p.0@, delta_views(p.1@).to_set()));
    } else {
        assert(u.drop_last() =~= s.drop_last().update(i, p));
        lemma_file_map_update(s.drop_last(), i, p);
        assert(s.drop_last()[i] == s[i]);
        assert(s.last().0@ != p.0@);
        assert(file_map(u) =~= file_map(s).insert(p.0@, delta_views(p.1@).to_set()));
    }
}

/// The set of units a file maps to, empty when the file is unknown.
pub open spec fn delta_set(v: StatsView, f: FileName) -> Set<DeltaView> {
    if v.by_file.dom().contains(f) {
        v.by_file[f]
    } else {
        Set::empty()
    }
}

/// The aggregation key of one incoming delta and the effective unit
/// recorded under it: the delta itself under identity grouping; under
/// time-window grouping, the delta rewritten to its bucket's canonical
/// identifier, or merged into the bucket's existing unit.
pub open spec fn effective(v: StatsView, d: DeltaView, strategy: Strategy) -> (Seq<char>, DeltaView) {
    match strategy {
        Strategy::Hash => (d.id, d),
        Strategy::CommitTime(window) => {
            let start = bucket_start(d.stamp, window as int);
            let k = crate::hash::dec_int(start);
            if v.by_key.dom().contains(k) {
                (
                    k,
                    DeltaView {
                        id: v.by_key[k].id,
                        stamp: v.by_key[k].stamp,
                        files: v.by_key[k].files.union(d.files),
                    },
                )
            } else {
                (k, DeltaView { id: k, stamp: start, files: d.files })
            }
        },
    }
}

/// The file map after one effective unit is recorded against a set of
/// files: each of those files gains the unit; no other entry moves.
pub open spec fn files_added(
    m: Map<FileName, Set<DeltaView>>,
    fs: Set<FileName>,
    g: DeltaView,
) -> Map<FileName, Set<DeltaView>> {
    Map::new(
        |f: FileName| m.dom().contains(f) || fs.contains(f),
        |f: FileName|
            if fs.contains(f) {
                (if m.dom().contains(f) {
                    m[f]
                } else {
                    Set::empty()
                }).insert(g)
            } else {
                m[f]
            },
    )
}

/// The index after one delta is folded in: the effective unit replaces
/// its key's entry, and is recorded against each of its files.
pub open spec fn folded(v: StatsView, d: DeltaView, strategy: Strategy) -> StatsView {
    let (k, g) = effective(v, d, strategy);
    StatsView {
        by_key: v.by_key.insert(k, g),
        by_file: files_added(v.by_file, g.files, g),
    }
}

/// Folding keeps the index invariant.
proof fn lemma_folded_invariant(v: StatsView, d: DeltaView, strategy: Strategy)
    requires
        index_invariant(v),
    ensures
        index_invariant(folded(v, d, strategy)),
{
    let (k, g) = effective(v, d, strategy);
    let w = folded(v, d, strategy);
    assert forall|k2: Seq<char>, f: FileName|
        w.by_key.dom().contains(k2) && #[trigger] w.by_key[k2].files.contains(f) implies w.by_file
        .dom().contains(f) && w.by_file[f].contains(w.by_key[k2]) by {
        if k2 == k {
            assert(w.by_key[k2] == g);
            assert(g.files.contains(f));
        } else {
            assert(w.by_key[k2] == v.by_key[k2]);
            assert(v.by_key[k2].files.contains(f));
        }
    }
}

/// Looks an aggregation key up in the key vector.
fn key_find(v: &Vec<(hash::Hash, Delta)>, k: &hash::Hash) -> (r: Option<usize>)
    requires
        forall|p: int, q: int|
            0 <= p < q < v@.len() ==> (#[trigger] v@[p]).0@ != (#[trigger] v@[q]).0@,
    ensures
        match r {
            Some(i) => i < v@.len() && v@[i as int].0@ == k@ && key_map(v@).dom().contains(k@)
                && key_map(v@)[k@] == v@[i as int].1@,
            None => !key_map(v@).dom().contains(k@),
        },
{
    let mut i: usize = 0;
    while i < v.len()
        invariant
            i <= v@.len(),
            forall|p: int, q: int|
                0 <= p < q < v@.len() ==> (#[trigger] v@[p]).0@ != (#[trigger] v@[q]).0@,
            forall|p: int| 0 <= p < i ==> (#[trigger] v@[p]).0@ != k@,
        decreases v@.len() - i,
    {
        if v[i].0.same_as(k) {
            proof {
                lemma_key_map_index(v@, i as int);
            }
            return Some(i);
        }
        i = i + 1;
    }
    proof {
        lemma_key_map_contains(v@, k@);
    }
    None
}

/// Looks a file up in the file vector.
fn file_find(v: &Vec<(ChangedFile, Vec<Delta>)>, f: &ChangedFile) -> (r: Option<usize>)
    requires
        forall|p: int, q: int|
            0 <= p < q < v@.len() ==> (#[trigger] v@[p]).0@ != (#[trigger] v@[q]).0@,
    ensures
        match r {
            Some(i) => i < v@.len() && v@[i as int].0@ == f@ && file_map(v@).dom().contains(f@)
                && file_map(v@)[f@] == delta_views(v@[i as int].1@).to_set(),
            None => !file_map(v@).dom().contains(f@),
        },
{
    let mut i: usize = 0;
    while i < v.len()
        invariant
            i <= v@.len(),
            forall|p: int, q: int|
                0 <= p < q < v@.len() ==> (#[trigger] v@[p]).0@ != (#[trigger] v@[q]).0@,
            forall|p: int| 0 <= p < i ==> (#[trigger] v@[p]).0@ != f@,
        decreases v@.len() - i,
    {
        if v[i].0.same_as(f) {
            proof {
                lemma_file_map_index(v@, i as int);
            }
            return Some(i);
        }
        i = i + 1;
    }
    proof {
        lemma_file_map_contains(v@, f@);
    }
    None
}

/// The files touched by the units a key vector holds.
pub open spec fn keys_files(s: Seq<(hash::Hash, Delta)>) -> Set<FileName> {
    Set::new(
        |f: FileName|
            exists|i: int| 0 <= i < s.len() && (#[trigger] s[i]).1@.files.contains(f),
    )
}

/// The union of the files of all keyed units: every file the index has
/// seen in a unit that still stands.
pub open spec fn files_touched(v: StatsView) -> Set<FileName> {
    Set::new(
        |f: FileName|
            exists|k: Seq<char>|
                #[trigger] v.by_key.dom().contains(k) && v.by_key[k].files.contains(f),
    )
}

/// With distinct keys, the vector and its map touch the same files.
proof fn lemma_keys_files_touched(s: Seq<(hash::Hash, Delta)>)
    requires
        forall|p: int, q: int|
            0 <= p < q < s.len() ==> (#[trigger] s[p]).0@ != (#[trigger] s[q]).0@,
    ensures
        keys_files(s) == files_touched(
            StatsView { by_key: key_map(s), by_file: Map::empty() },
        ),
{
    let v = StatsView { by_key: key_map(s), by_file: Map::empty() };
    assert forall|f: FileName| keys_files(s).contains(f) implies files_touched(v).contains(f) by {
        let i = choose|i: int| 0 <= i < s.len() && (#[trigger] s[i]).1@.files.contains(f);
        lemma_key_map_index(s, i);
        assert(v.by_key.dom().contains(s[i].0@) && v.by_key[s[i].0@].files.contains(f));
    }
    assert forall|f: FileName| files_touched(v).contains(f) implies keys_files(s).contains(f) by {
        let k = choose|k: Seq<char>|
            #[trigger] v.by_key.dom().contains(k) && v.by_key[k].files.contains(f);
        lemma_key_map_contains(s, k);
        let i = choose|i: int| 0 <= i < s.len() && (#[trigger] s[i]).0@ == k;
        lemma_key_map_index(s, i);
        assert(s[i].1@.files.contains(f));
    }
    assert(keys_files(s) =~= files_touched(v));
}

impl Statistics {
    /// Every file any standing unit touched, in sorted order without
    /// duplicates.
    pub fn changed_files(&self) -> (r: Vec<ChangedFile>)
        requires
            self.wf(),
        ensures
            strictly_sorted(file_views(r@)),
            file_views(r@).to_set() == files_touched(self@),
    {
        let mut r: Vec<ChangedFile> = Vec::new();
        let mut i: usize = 0;
        proof {
            assert(file_views(r@).to_set() =~= keys_files(self.hash_to_delta@.subrange(0, 0)));
        }
        while i < self.hash_to_delta.len()
            invariant
                i <= self.hash_to_delta@.len(),
                self.wf(),
                strictly_sorted(file_views(r@)),
                file_views(r@).to_set() == keys_files(self.hash_to_delta@.subrange(0, i as int)),
            decreases self.hash_to_delta@.len() - i,
        {
            let from = self.hash_to_delta[i].1.files();
            proof {
                assert(file_views(from@) =~= file_views(self.hash_to_delta@[i as int].1.changes@));
            }
            crate::delta::insert_all(&mut r, &from);
            i = i + 1;
            proof {
                let pre = keys_files(self.hash_to_delta@.subrange(0, i - 1));
                let cur = keys_files(self.hash_to_delta@.subrange(0, i as int));
                assert(file_views(r@).to_set() =~= cur) by {
                    assert forall|f: FileName| file_views(r@).to_set().contains(f) implies cur
                        .contains(f) by {
                        if pre.contains(f) {
                            let k = choose|k: int|
                                0 <= k < i - 1 && (#[trigger] self.hash_to_delta@.subrange(
                                    0,
                                    i - 1,
                                )[k]).1@.files.contains(f);
                            assert((self.hash_to_delta@.subrange(0, i as int)[k]).1@.files
                                .contains(f));
                        } else {
                            assert((self.hash_to_delta@.subrange(0, i as int)[i - 1]).1@.files
                                .contains(f));
                        }
                    }
                    assert forall|f: FileName| cur.contains(f) implies file_views(r@).to_set()
                        .contains(f) by {
                        let k = choose|k: int|
                            0 <= k < i && (#[trigger] self.hash_to_delta@.subrange(0, i as int)[k])
                                .1@.files.contains(f);
                        if k < i - 1 {
                            assert((self.hash_to_delta@.subrange(0, i - 1)[k]).1@.files.contains(
                                f,
                            ));
                        }
                    }
                }
            }
        }
        proof {
            assert(self.hash_to_delta@.subrange(0, self.hash_to_delta@.len() as int)
                =~= self.hash_to_delta@);
            lemma_keys_files_touched(self.hash_to_delta@);
            assert(files_touched(
                StatsView { by_key: key_map(self.hash_to_delta@), by_file: Map::empty() },
            ) =~= files_touched(self@));
        }
        r
    }
}

/// How many units contain both files: the size of the intersection of
/// their delta sets.
pub open spec fn together_count(v: StatsView, a: FileName, b: FileName) -> nat {
    delta_set(v, a).intersect(delta_set(v, b)).len()
}

/// How many units contain at least one of the two files: the size of the
/// union of their delta sets.
pub open spec fn total_count(v: StatsView, a: FileName, b: FileName) -> nat {
    delta_set(v, a).union(delta_set(v, b)).len()
}

/// Both counts read the same whichever way round the pair is given, and
/// a pair's together count never exceeds its total count.
pub proof fn lemma_pair_counts(v: StatsView, a: FileName, b: FileName)
    requires
        delta_set(v, a).finite(),
        delta_set(v, b).finite(),
    ensures
        together_count(v, a, b) == together_count(v, b, a),
        total_count(v, a, b) == total_count(v, b, a),
        together_count(v, a, b) <= total_count(v, a, b),
{
    let sa = delta_set(v, a);
    let sb = delta_set(v, b);
    assert(sa.intersect(sb) =~= sb.intersect(sa));
    assert(sa.union(sb) =~= sb.union(sa));
    assert(sa.intersect(sb).subset_of(sa.union(sb)));
    vstd::set_lib::lemma_set_union_finite_iff(sa, sb);
    vstd::set_lib::lemma_len_subset(sa.intersect(sb), sa.union(sb));
}

/// Counts the units that appear in both vectors.
fn count_intersection(a: &Vec<Delta>, b: &Vec<Delta>) -> (r: usize)
    requires
        forall|k: int| 0 <= k < a@.len() ==> (#[trigger] a@[k]).wf(),
        forall|k: int| 0 <= k < b@.len() ==> (#[trigger] b@[k]).wf(),
        delta_views(a@).no_duplicates(),
    ensures
        r == delta_views(a@).to_set().intersect(delta_views(b@).to_set()).len(),
{
    broadcast use vstd::seq_lib::seq_to_set_is_finite;

    let ghost bs = delta_views(b@).to_set();
    let mut count: usize = 0;
    let mut i: usize = 0;
    proof {
        assert(delta_views(a@.subrange(0, 0)).to_set().intersect(bs) =~= Set::<
            DeltaView,
        >::empty());
    }
    while i < a.len()
        invariant
            i <= a@.len(),
            count <= i,
            forall|k: int| 0 <= k < a@.len() ==> (#[trigger] a@[k]).wf(),
            forall|k: int| 0 <= k < b@.len() ==> (#[trigger] b@[k]).wf(),
            delta_views(a@).no_duplicates(),
            bs == delta_views(b@).to_set(),
            count == delta_views(a@.subrange(0, i as int)).to_set().intersect(bs).len(),
        decreases a@.len() - i,
    {
        let ghost pre = delta_views(a@.subrange(0, i as int)).to_set();
        let ghost x = a@[i as int]@;
        proof {
            assert(delta_views(a@.subrange(0, i + 1)).to_set() =~= pre.insert(x)) by {
                assert forall|y: DeltaView|
                    delta_views(a@.subrange(0, i + 1)).to_set().contains(y) implies pre.insert(
                    x,
                ).contains(y) by {
                    let k = choose|k: int|
                        0 <= k <= i && #[trigger] delta_views(a@.subrange(0, i + 1))[k] == y;
                    if k < i {
                        assert(delta_views(a@.subrange(0, i as int))[k] == y);
                    }
                }
                assert forall|y: DeltaView| pre.insert(x).contains(y) implies delta_views(
                    a@.subrange(0, i + 1),
                ).to_set().contains(y) by {
                    if y == x {
                        assert(delta_views(a@.subrange(0, i + 1))[i as int] == y);
                    } else {
                        let k = choose|k: int|
                            0 <= k < i && #[trigger] delta_views(a@.subrange(0, i as int))[k] == y;
                        assert(delta_views(a@.subrange(0, i + 1))[k] == y);
                    }
                }
            }
            assert(!pre.contains(x)) by {
                if pre.contains(x) {
                    let k = choose|k: int|
                        0 <= k < i && #[trigger] delta_views(a@.subrange(0, i as int))[k] == x;
                    assert(delta_views(a@)[k] == x);
                    assert(delta_views(a@)[i as int] == x);
                }
            }
            assert(pre.intersect(bs).finite());
        }
        if contains_delta(b, &a[i]) {
            proof {
                assert(pre.insert(x).intersect(bs) =~= pre.intersect(bs).insert(x));
                assert(!pre.intersect(bs).contains(x));
            }
            count = count + 1;
        } else {
            proof {
                assert(pre.insert(x).intersect(bs) =~= pre.intersect(bs));
            }
        }
        i = i + 1;
    }
    proof {
        assert(a@.subrange(0, a@.len() as int) =~= a@);
    }
    count
}

/// Counts the units that appear in at least one of the two vectors.
fn count_union(a: &Vec<Delta>, b: &Vec<Delta>) -> (r: usize)
    requires
        forall|k: int| 0 <= k < a@.len() ==> (#[trigger] a@[k]).wf(),
        forall|k: int| 0 <= k < b@.len() ==> (#[trigger] b@[k]).wf(),
        delta_views(a@).no_duplicates(),
        delta_views(b@).no_duplicates(),
    ensures
        r == delta_views(a@).to_set().union(delta_views(b@).to_set()).len(),
{
    broadcast use vstd::seq_lib::seq_to_set_is_finite;

    let ghost as_ = delta_views(a@).to_set();
    let mut joined = duplicate_deltas(a);
    proof {
        assert(delta_views(joined@) =~= delta_views(a@));
        assert(delta_views(joined@).to_set() =~= as_.union(
            delta_views(b@.subrange(0, 0)).to_set(),
        ));
    }
    let mut j: usize = 0;
    while j < b.len()
        invariant
            j <= b@.len(),
            forall|k: int| 0 <= k < b@.len() ==> (#[trigger] b@[k]).wf(),
            forall|k: int| 0 <= k < joined@.len() ==> (#[trigger] joined@[k]).wf(),
            delta_views(b@).no_duplicates(),
            delta_views(joined@).no_duplicates(),
            as_ == delta_views(a@).to_set(),
            delta_views(joined@).to_set() == as_.union(
                delta_views(b@.subrange(0, j as int)).to_set(),
            ),
        decreases b@.len() - j,
    {
        let ghost pre = delta_views(b@.subrange(0, j as int)).to_set();
        let ghost x = b@[j as int]@;
        proof {
            assert(delta_views(b@.subrange(0, j + 1)).to_set() =~= pre.insert(x)) by {
                assert forall|y: DeltaView|
                    delta_views(b@.subrange(0, j + 1)).to_set().contains(y) implies pre.insert(
                    x,
                ).contains(y) by {
                    let k = choose|k: int|
                        0 <= k <= j && #[trigger] delta_views(b@.subrange(0, j + 1))[k] == y;
                    if k < j {
                        assert(delta_views(b@.subrange(0, j as int))[k] == y);
                    }
                }
                assert forall|y: DeltaView| pre.insert(x).contains(y) implies delta_views(
                    b@.subrange(0, j + 1),
                ).to_set().contains(y) by {
                    if y == x {
                        assert(delta_views(b@.subrange(0, j + 1))[j as int] == y);
                    } else {
                        let k = choose|k: int|
                            0 <= k < j && #[trigger] delta_views(b@.subrange(0, j as int))[k] == y;
                        assert(delta_views(b@.subrange(0, j + 1))[k] == y);
                    }
                }
            }
        }
        if !contains_delta(&joined, &b[j]) {
            let ghost before = delta_views(joined@);
            joined.push(b[j].duplicate());
            proof {
                assert(delta_views(joined@).drop_last() =~= before);
                assert(delta_views(joined@).to_set() =~= before.to_set().insert(x)) by {
                    assert forall|y: DeltaView|
                        delta_views(joined@).to_set().contains(y) implies before.to_set().insert(
                        x,
                    ).contains(y) by {
                        let k = choose|k: int|
                            0 <= k < delta_views(joined@).len() && delta_views(joined@)[k] == y;
                        if k < before.len() {
                            assert(before[k] == y);
                        }
                    }
                    assert forall|y: DeltaView|
                        before.to_set().insert(x).contains(y) implies delta_views(joined@).to_set()
                        .contains(y) by {
                        if y == x {
                            assert(delta_views(joined@)[delta_views(joined@).len() - 1] == y);
                        } else {
                            let k = choose|k: int| 0 <= k < before.len() && before[k] == y;
                            assert(delta_views(joined@)[k] == y);
                        }
                    }
                }
                assert(delta_views(joined@).no_duplicates()) by {
                    assert forall|p: int, q: int|
                        0 <= p < q < delta_views(joined@).len() implies delta_views(joined@)[p]
                        != delta_views(joined@)[q] by {
                        if q < before.len() {
                            assert(before[p] == delta_views(joined@)[p]);
                            assert(before[q] == delta_views(joined@)[q]);
                        } else {
                            assert(delta_views(joined@)[q] == x);
                            assert(before[p] == delta_views(joined@)[p]);
                            assert(before.to_set().contains(before[p]));
                        }
                    }
                }
            }
        } else {
            proof {
                assert(delta_views(joined@).to_set().insert(x) =~= delta_views(joined@).to_set());
            }
        }
        j = j + 1;
        proof {
            assert(delta_views(joined@).to_set() =~= as_.union(
                delta_views(b@.subrange(0, j as int)).to_set(),
            ));
        }
    }
    proof {
        assert(b@.subrange(0, b@.len() as int) =~= b@);
        delta_views(joined@).unique_seq_to_set();
    }
    joined.len()
}

impl Statistics {
    /// How many units hold both files.
    pub(crate) fn deltas_containing_both(&self, item: &ChangedFile, other_file: &ChangedFile) -> (r:
        usize)
        requires
            self.wf(),
        ensures
            r == together_count(self@, item@, other_file@),
    {
        broadcast use vstd::seq_lib::seq_to_set_is_finite;

        match (
            file_find(&self.change_to_delta, item),
            file_find(&self.change_to_delta, other_file),
        ) {
            (Some(i), Some(j)) => count_intersection(
                &self.change_to_delta[i].1,
                &self.change_to_delta[j].1,
            ),
            _ => {
                proof {
                    assert(delta_set(self@, item@).intersect(delta_set(self@, other_file@)) =~= Set::<
                        DeltaView,
                    >::empty());
                }
                0
            },
        }
    }

    /// How many units hold at least one of the two files.
    pub(crate) fn deltas_containing_either(
        &self,
        item: &ChangedFile,
        other_file: &ChangedFile,
    ) -> (r: usize)
        requires
            self.wf(),
        ensures
            r == total_count(self@, item@, other_file@),
    {
        broadcast use vstd::seq_lib::seq_to_set_is_finite;

        match (
            file_find(&self.change_to_delta, item),
            file_find(&self.change_to_delta, other_file),
        ) {
            (Some(i), Some(j)) => count_union(&self.change_to_delta[i].1, &self.change_to_delta[j].1),
            (Some(i), None) => {
                proof {
                    assert(delta_set(self@, item@).union(delta_set(self@, other_file@))
                        =~= delta_views(self.change_to_delta@[i as int].1@).to_set());
                    delta_views(self.change_to_delta@[i as int].1@).unique_seq_to_set();
                }
                self.change_to_delta[i].1.len()
            },
            (None, Some(j)) => {
                proof {
                    assert(delta_set(self@, item@).union(delta_set(self@, other_file@))
                        =~= delta_views(self.change_to_delta@[j as int].1@).to_set());
                    delta_views(self.change_to_delta@[j as int].1@).unique_seq_to_set();
                }
                self.change_to_delta[j].1.len()
            },
            (None, None) => {
                proof {
                    assert(delta_set(self@, item@).union(delta_set(self@, other_file@)) =~= Set::<
                        DeltaView,
                    >::empty());
                }
                0
            },
        }
    }
}

/// Replaces one entry of the key vector.
fn key_set(v: &mut Vec<(hash::Hash, Delta)>, i: usize, p: (hash::Hash, Delta))
    requires
        i < old(v)@.len(),
    ensures
        final(v)@ == old(v)@.update(i as int, p),
{
    v.remove(i);
    v.insert(i, p);
    proof {
        assert(final(v)@ =~= old(v)@.update(i as int, p));
    }
}

/// Replaces one entry of the file vector.
fn file_set(v: &mut Vec<(ChangedFile, Vec<Delta>)>, i: usize, p: (ChangedFile, Vec<Delta>))
    requires
        i < old(v)@.len(),
    ensures
        final(v)@ == old(v)@.update(i as int, p),
{
    v.remove(i);
    v.insert(i, p);
    proof {
        assert(final(v)@ =~= old(v)@.update(i as int, p));
    }
}

/// An elementwise copy of a delta vector.
fn duplicate_deltas(v: &Vec<Delta>) -> (r: Vec<Delta>)
    ensures
        r@.len() == v@.len(),
        forall|k: int| 0 <= k < v@.len() ==> (#[trigger] r@[k])@ == v@[k]@,
        forall|k: int| 0 <= k < v@.len() ==> (#[trigger] v@[k]).wf() ==> r@[k].wf(),
{
    let mut r: Vec<Delta> = Vec::new();
    let mut i: usize = 0;
    while i < v.len()
        invariant
            i <= v@.len(),
            r@.len() == i,
            forall|k: int| 0 <= k < i ==> (#[trigger] r@[k])@ == v@[k]@,
            forall|k: int| 0 <= k < i ==> (#[trigger] v@[k]).wf() ==> r@[k].wf(),
        decreases v@.len() - i,
    {
        r.push(v[i].duplicate());
        i = i + 1;
    }
    r
}

/// Whether a unit equal to the given one is in the vector.
fn contains_delta(v: &Vec<Delta>, d: &Delta) -> (r: bool)
    requires
        forall|k: int| 0 <= k < v@.len() ==> (#[trigger] v@[k]).wf(),
        d.wf(),
    ensures
        r == delta_views(v@).to_set().contains(d@),
{
    let mut i: usize = 0;
    while i < v.len()
        invariant
            i <= v@.len(),
            forall|k: int| 0 <= k < v@.len() ==> (#[trigger] v@[k]).wf(),
            d.wf(),
            forall|k: int| 0 <= k < i ==> delta_views(v@)[k] != d@,
        decreases v@.len() - i,
    {
        if v[i].same_as(d) {
            proof {
                assert(delta_views(v@)[i as int] == d@);
            }
            return true;
        }
        i = i + 1;
    }
    proof {
        if delta_views(v@).to_set().contains(d@) {
            let k = choose|k: int| 0 <= k < delta_views(v@).len() && delta_views(v@)[k] == d@;
        }
    }
    false
}

impl Statistics {
    /// Folds one delta into the index under the given strategy: the
    /// effective unit replaces its aggregation key's entry and is
    /// recorded against every file it touches.
    pub fn add_delta(self, delta: &Delta, strategy: &Strategy) -> (r: Statistics)
        requires
            self.wf(),
            delta.wf(),
            strategy.wf(),
            match *strategy {
                Strategy::Hash => true,
                Strategy::CommitTime(window) => i64::MIN + window <= delta.timestamp,
            },
        ensures
            r.wf(),
            r@ == folded(self@, delta@, *strategy),
    {
        let ghost v0 = self@;
        let mut hash_to_delta = self.hash_to_delta;
        let mut change_to_delta = self.change_to_delta;
        let (key, grouped): (hash::Hash, Delta) = match strategy {
            Strategy::Hash => (delta.hash(), delta.duplicate()),
            Strategy::CommitTime(window) => {
                let start = truncate_timestamp(delta.timestamp, *window);
                let k = hash::Hash::from_timestamp(start);
                match key_find(&hash_to_delta, &k) {
                    None => {
                        let copied = delta.files();
                        proof {
                            assert(crate::delta::file_views(copied@) =~= crate::delta::file_views(
                                delta.changes@,
                            ));
                        }
                        let g = Delta::new(k.duplicate(), start, copied);
                        (k, g)
                    },
                    Some(i) => {
                        let existing = hash_to_delta[i].1.duplicate();
                        (k, existing.merge(delta))
                    },
                }
            },
        };
        proof {
            assert((key@, grouped@) == effective(v0, delta@, *strategy));
        }
        let ghost g = grouped@;
        match key_find(&hash_to_delta, &key) {
            Some(i) => {
                let pair = (key, grouped.duplicate());
                proof {
                    lemma_key_map_update(hash_to_delta@, i as int, pair);
                }
                key_set(&mut hash_to_delta, i, pair);
            },
            None => {
                proof {
                    lemma_key_map_contains(hash_to_delta@, key@);
                }
                let pair = (key, grouped.duplicate());
                hash_to_delta.push(pair);
                proof {
                    assert(hash_to_delta@.drop_last() =~= self.hash_to_delta@);
                }
            },
        }
        proof {
            assert(key_map(hash_to_delta@) == v0.by_key.insert(key@, g));
        }
        let files = grouped.files();
        proof {
            assert(crate::delta::file_views(files@) =~= crate::delta::file_views(grouped.changes@));
        }
        let ghost m0 = v0.by_file;
        let mut fi: usize = 0;
        proof {
            assert(file_map(change_to_delta@) =~= files_added(
                m0,
                crate::delta::file_views(files@.subrange(0, 0)).to_set(),
                g,
            ));
        }
        while fi < files.len()
            invariant
                fi <= files@.len(),
                grouped.wf(),
                g == grouped@,
                forall|k: int| 0 <= k < files@.len() ==> #[trigger] files@[k]@ == grouped.changes@[k]@,
                files@.len() == grouped.changes@.len(),
                forall|p: int, q: int|
                    0 <= p < q < change_to_delta@.len() ==> (#[trigger] change_to_delta@[p]).0@ != (
                    #[trigger] change_to_delta@[q]).0@,
                forall|p: int, q: int|
                    0 <= p < change_to_delta@.len() && 0 <= q < change_to_delta@[p].1@.len() ==> (
                    #[trigger] change_to_delta@[p].1@[q]).wf(),
                forall|p: int|
                    0 <= p < change_to_delta@.len() ==> (#[trigger] delta_views(
                        change_to_delta@[p].1@,
                    )).no_duplicates(),
                file_map(change_to_delta@) == files_added(
                    m0,
                    crate::delta::file_views(files@.subrange(0, fi as int)).to_set(),
                    g,
                ),
            decreases files@.len() - fi,
        {
            let f = &files[fi];
            let ghost mold = file_map(change_to_delta@);
            let ghost base = if mold.dom().contains(f@) {
                mold[f@]
            } else {
                Set::<DeltaView>::empty()
            };
            match file_find(&change_to_delta, f) {
                None => {
                    let mut single: Vec<Delta> = Vec::new();
                    single.push(grouped.duplicate());
                    proof {
                        assert(delta_views(single@).to_set() =~= Set::<DeltaView>::empty().insert(
                            g,
                        )) by {
                            assert(delta_views(single@)[0] == g);
                            assert forall|x: DeltaView|
                                delta_views(single@).to_set().contains(x) implies x == g by {
                                let k = choose|k: int|
                                    0 <= k < delta_views(single@).len() && delta_views(single@)[k]
                                        == x;
                            }
                        }
                        assert(delta_views(single@).no_duplicates());
                        lemma_file_map_contains(change_to_delta@, f@);
                    }
                    let ghost single_set = delta_views(single@).to_set();
                    let ghost old_tail = change_to_delta@;
                    let entry = (f.duplicate(), single);
                    change_to_delta.push(entry);
                    proof {
                        assert(change_to_delta@.drop_last() =~= old_tail);
                        assert(file_map(change_to_delta@) == mold.insert(f@, single_set));
                        assert(single_set =~= base.insert(g));
                        assert(file_map(change_to_delta@) == mold.insert(f@, base.insert(g)));
                    }
                },
                Some(i) => {
                    let already = contains_delta(&change_to_delta[i].1, &grouped);
                    if !already {
                        let mut inner = duplicate_deltas(&change_to_delta[i].1);
                        inner.push(grouped.duplicate());
                        proof {
                            let ghost os = delta_views(change_to_delta@[i as int].1@);
                            assert(delta_views(inner@).drop_last() =~= os);
                            assert(delta_views(inner@).to_set() =~= os.to_set().insert(g)) by {
                                assert forall|x: DeltaView|
                                    delta_views(inner@).to_set().contains(x) implies os.to_set()
                                    .insert(g).contains(x) by {
                                    let k = choose|k: int|
                                        0 <= k < delta_views(inner@).len() && delta_views(inner@)[k]
                                            == x;
                                    if k < os.len() {
                                        assert(os[k] == x);
                                    }
                                }
                                assert forall|x: DeltaView|
                                    os.to_set().insert(g).contains(x) implies delta_views(inner@)
                                    .to_set().contains(x) by {
                                    if x == g {
                                        assert(delta_views(inner@)[delta_views(inner@).len() - 1]
                                            == x);
                                    } else {
                                        let k = choose|k: int| 0 <= k < os.len() && os[k] == x;
                                        assert(delta_views(inner@)[k] == x);
                                    }
                                }
                            }
                            assert(delta_views(inner@).no_duplicates()) by {
                                assert forall|p: int, q: int|
                                    0 <= p < q < delta_views(inner@).len() implies delta_views(
                                    inner@,
                                )[p] != delta_views(inner@)[q] by {
                                    if q < os.len() {
                                        assert(os[p] == delta_views(inner@)[p]);
                                        assert(os[q] == delta_views(inner@)[q]);
                                    } else {
                                        assert(delta_views(inner@)[q] == g);
                                        assert(os[p] == delta_views(inner@)[p]);
                                        assert(os.to_set().contains(os[p]));
                                    }
                                }
                            }
                        }
                        let entry = (change_to_delta[i].0.duplicate(), inner);
                        proof {
                            lemma_file_map_update(change_to_delta@, i as int, entry);
                            assert(delta_views(change_to_delta@[i as int].1@).to_set() == base);
                        }
                        file_set(&mut change_to_delta, i, entry);
                        proof {
                            assert(file_map(change_to_delta@) == mold.insert(f@, base.insert(g)));
                        }
                    } else {
                        proof {
                            let held = delta_views(change_to_delta@[i as int].1@).to_set();
                            lemma_file_map_index(change_to_delta@, i as int);
                            assert(held == base);
                            assert(base.insert(g) =~= base);
                            assert(mold.insert(f@, base.insert(g)) =~= mold);
                            assert(file_map(change_to_delta@) == mold.insert(f@, base.insert(g)));
                        }
                    }
                },
            }
            fi = fi + 1;
            proof {
                let pre = crate::delta::file_views(files@.subrange(0, fi - 1)).to_set();
                let cur = crate::delta::file_views(files@.subrange(0, fi as int)).to_set();
                let x = files@[fi - 1]@;
                assert(!pre.contains(x)) by {
                    if pre.contains(x) {
                        let k = choose|k: int|
                            0 <= k < fi - 1 && #[trigger] crate::delta::file_views(
                                files@.subrange(0, fi - 1),
                            )[k] == x;
                        assert(crate::delta::file_views(grouped.changes@)[k] == x);
                        assert(crate::delta::file_views(grouped.changes@)[fi - 1] == x);
                        assert(name_lt(x, x));
                        lemma_name_trichotomy(x, x);
                    }
                }
                assert(cur =~= pre.insert(x)) by {
                    assert forall|y: FileName| cur.contains(y) implies pre.insert(x).contains(
                        y,
                    ) by {
                        let k = choose|k: int|
                            0 <= k < fi && #[trigger] crate::delta::file_views(
                                files@.subrange(0, fi as int),
                            )[k] == y;
                        if k < fi - 1 {
                            assert(crate::delta::file_views(files@.subrange(0, fi - 1))[k] == y);
                        }
                    }
                    assert forall|y: FileName| pre.insert(x).contains(y) implies cur.contains(
                        y,
                    ) by {
                        if y == x {
                            assert(crate::delta::file_views(files@.subrange(0, fi as int))[fi - 1]
                                == y);
                        } else {
                            let k = choose|k: int|
                                0 <= k < fi - 1 && #[trigger] crate::delta::file_views(
                                    files@.subrange(0, fi - 1),
                                )[k] == y;
                            assert(crate::delta::file_views(files@.subrange(0, fi as int))[k] == y);
                        }
                    }
                }
                let m1 = file_map(change_to_delta@);
                assert(m1 == mold.insert(x, base.insert(g)));
                assert forall|y: FileName| files_added(m0, cur, g).dom().contains(y) implies m1.dom()
                    .contains(y) && m1[y] =~= files_added(m0, cur, g)[y] by {
                    if y == x {
                        assert(m1[y] == base.insert(g));
                    } else {
                        assert(m1[y] == mold[y]);
                        assert(mold[y] == files_added(m0, pre, g)[y]);
                        assert(cur.contains(y) == pre.contains(y));
                    }
                }
                assert forall|y: FileName| m1.dom().contains(y) implies files_added(
                    m0,
                    cur,
                    g,
                ).dom().contains(y) by {
                    if y != x {
                        assert(mold.dom().contains(y));
                    }
                }
                assert(m1 =~~= files_added(m0, cur, g));
            }
        }
        proof {
            assert(files@.subrange(0, files@.len() as int) =~= files@);
            assert(crate::delta::file_views(files@).to_set() =~= g.files);
        }
        let r = Statistics { hash_to_delta, change_to_delta };
        proof {
            assert(r@ =~= folded(v0, delta@, *strategy));
            lemma_folded_invariant(v0, delta@, *strategy);
        }
        r
    }
}

} // verus!
