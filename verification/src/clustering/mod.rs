//! Sets of clusters: every cluster holds values that stand for the same
//! thing, and a value is placed in the cluster whose members score highest
//! against it.

pub mod games;
pub mod text;

use vstd::prelude::*;
use crate::value::ValueEq;

verus! {

/// A group of values that stand for the same thing, in the order they joined.
#[derive(Clone, Debug)]
pub struct Cluster<T> {
    values: Vec<T>,
}

/// An ordered list of clusters; a value's cluster index is its position.
#[derive(Clone, Debug)]
pub struct ClusterSet<T> {
    clusters: Vec<Cluster<T>>,
}

impl<T: View> View for Cluster<T> {
    type V = Seq<T::V>;

    closed spec fn view(&self) -> Seq<T::V> {
        self.values@.map_values(|v: T| v@)
    }
}

impl<T: View> View for ClusterSet<T> {
    type V = Seq<Seq<T::V>>;

    closed spec fn view(&self) -> Seq<Seq<T::V>> {
        self.clusters@.map_values(|c: Cluster<T>| c@)
    }
}

/// Whether some cluster holds `v`.
pub open spec fn set_contains<V>(cs: Seq<Seq<V>>, v: V) -> bool {
    exists|i: int| 0 <= i < cs.len() && #[trigger] cs[i].contains(v)
}

/// The index of the last cluster that holds `v`, if any.
pub open spec fn cluster_index_of<V>(cs: Seq<Seq<V>>, v: V) -> Option<int>
    decreases cs.len(),
{
    if cs.len() == 0 {
        None
    } else if cs.last().contains(v) {
        Some(cs.len() - 1)
    } else {
        cluster_index_of(cs.drop_last(), v)
    }
}

/// No value occurs twice, within a cluster or across clusters.
pub open spec fn distinct_members<V>(cs: Seq<Seq<V>>) -> bool {
    forall|i: int, p: int, j: int, q: int|
        0 <= i < cs.len() && 0 <= j < cs.len() && 0 <= p < cs[i].len() && 0 <= q < cs[j].len()
            && #[trigger] cs[i][p] == #[trigger] cs[j][q] ==> i == j && p == q
}

/// Every cluster has at least one member.
pub open spec fn no_empty_cluster<V>(cs: Seq<Seq<V>>) -> bool {
    forall|i: int| 0 <= i < cs.len() ==> #[trigger] cs[i].len() > 0
}

pub proof fn lemma_cluster_index_of<V>(cs: Seq<Seq<V>>, v: V)
    ensures
        cluster_index_of(cs, v) is Some <==> set_contains(cs, v),
        cluster_index_of(cs, v) matches Some(i) ==> {
            &&& 0 <= i < cs.len()
            &&& cs[i].contains(v)
            &&& forall|j: int| i < j < cs.len() ==> !(#[trigger] cs[j].contains(v))
        },
    decreases cs.len(),
{
    if cs.len() > 0 {
        lemma_cluster_index_of(cs.drop_last(), v);
        if !cs.last().contains(v) {
            if set_contains(cs, v) {
                let i = choose|i: int| 0 <= i < cs.len() && #[trigger] cs[i].contains(v);
                assert(cs.drop_last()[i].contains(v));
            }
            if set_contains(cs.drop_last(), v) {
                let i = choose|i: int| 0 <= i < cs.drop_last().len() && #[trigger] cs.drop_last()[i].contains(v);
                assert(cs[i].contains(v));
            }
            if let Some(i) = cluster_index_of(cs.drop_last(), v) {
                assert(cs[i] == cs.drop_last()[i]);
                assert forall|j: int| i < j < cs.len() implies !(#[trigger] cs[j].contains(v)) by {
                    if j < cs.len() - 1 {
                        assert(cs[j] == cs.drop_last()[j]);
                    }
                }
            }
        }
    }
}

impl<T: View> Cluster<T> {
    /// An empty cluster.
    pub fn new() -> (r: Self)
        ensures
            r@ == Seq::<T::V>::empty(),
    {
        let r = Cluster { values: Vec::new() };
        assert(r@ =~= Seq::<T::V>::empty());
        r
    }

    /// A cluster holding `values`, in order.
    pub fn from_values(values: Vec<T>) -> (r: Self)
        ensures
            r@ == values@.map_values(|v: T| v@),
    {
        Cluster { values }
    }

    /// The members, in the order they joined.
    pub fn into_values(self) -> (r: Vec<T>)
        ensures
            r@.map_values(|v: T| v@) == self@,
    {
        self.values
    }

    /// Whether the cluster has no member.
    pub fn is_empty(&self) -> (r: bool)
        ensures
            r == (self@.len() == 0),
    {
        self.values.len() == 0
    }

    /// The number of members.
    pub fn len(&self) -> (r: usize)
        ensures
            r == self@.len(),
    {
        self.values.len()
    }

    /// The members, in the order they joined.
    pub fn iter(&self) -> (r: &[T])
        ensures
            r@.map_values(|v: T| v@) == self@,
    {
        self.values.as_slice()
    }

    /// The members, in the order they joined.
    pub fn as_slice(&self) -> (r: &[T])
        ensures
            r@.map_values(|v: T| v@) == self@,
    {
        self.values.as_slice()
    }
}

impl<T: View> Default for Cluster<T> {
    fn default() -> (r: Self)
        ensures
            r@.len() == 0,
    {
        Cluster { values: Vec::new() }
    }
}

impl<T: View> Default for ClusterSet<T> {
    fn default() -> (r: Self)
        ensures
            r@.len() == 0,
    {
        ClusterSet { clusters: Vec::new() }
    }
}

impl<T: View> ClusterSet<T> {
    /// An empty set of clusters.
    pub fn new() -> (r: Self)
        ensures
            r@ == Seq::<Seq<T::V>>::empty(),
            distinct_members(r@),
            no_empty_cluster(r@),
    {
        let r = ClusterSet { clusters: Vec::new() };
        assert(r@ =~= Seq::<Seq<T::V>>::empty());
        r
    }

    /// A set made of the given clusters, in order.
    pub fn from_clusters(clusters: Vec<Cluster<T>>) -> (r: Self)
        ensures
            r@ == clusters@.map_values(|c: Cluster<T>| c@),
    {
        ClusterSet { clusters }
    }

    /// The clusters, in order.
    pub fn into_clusters(self) -> (r: Vec<Cluster<T>>)
        ensures
            r@.map_values(|c: Cluster<T>| c@) == self@,
    {
        self.clusters
    }

    /// Whether the set has no cluster.
    pub fn is_empty(&self) -> (r: bool)
        ensures
            r == (self@.len() == 0),
    {
        self.clusters.len() == 0
    }

    /// The number of clusters.
    pub fn len(&self) -> (r: usize)
        ensures
            r == self@.len(),
    {
        self.clusters.len()
    }

    /// The clusters, in order; a cluster's position is its index.
    pub fn clusters(&self) -> (r: &[Cluster<T>])
        ensures
            r@.map_values(|c: Cluster<T>| c@) == self@,
    {
        self.clusters.as_slice()
    }

    /// The range of cluster indices, `0..len`.
    pub fn cluster_indices(&self) -> (r: std::ops::Range<usize>)
        ensures
            r.start == 0,
            r.end == self@.len(),
    {
        0..self.clusters.len()
    }

    /// The cluster at `index`.
    pub fn cluster(&self, index: usize) -> (r: &Cluster<T>)
        requires
            index < self@.len(),
        ensures
            r@ == self@[index as int],
    {
        &self.clusters[index]
    }

    /// Adds a new, empty cluster at the end and gives its index.
    pub fn append_new_cluster(&mut self) -> (r: usize)
        ensures
            r == old(self)@.len(),
            final(self)@ == old(self)@.push(Seq::<T::V>::empty()),
            distinct_members(old(self)@) ==> distinct_members(final(self)@),
    {
        let c = Cluster { values: Vec::new() };
        assert(c@ =~= Seq::<T::V>::empty());
        self.clusters.push(c);
        assert(self@ =~= old(self)@.push(Seq::<T::V>::empty()));
        proof {
            let o = old(self)@;
            let r = self@;
            if distinct_members(o) {
                assert forall|i: int, p: int, j: int, q: int|
                    0 <= i < r.len() && 0 <= j < r.len() && 0 <= p < r[i].len() && 0 <= q < r[j].len()
                        && #[trigger] r[i][p] == #[trigger] r[j][q] implies i == j && p == q by {
                    assert(i < o.len() && j < o.len());
                    assert(r[i][p] == o[i][p] && r[j][q] == o[j][q]);
                }
            }
        }
        self.clusters.len() - 1
    }
}

impl<T: ValueEq> ClusterSet<T> {
    /// The index of the cluster that holds `value`: the last such cluster,
    /// or `None` when no cluster holds it.
    pub fn get_cluster_index(&self, value: &T) -> (r: Option<usize>)
        ensures
            match r {
                Some(i) => cluster_index_of(self@, value@) == Some(i as int),
                None => cluster_index_of(self@, value@) is None,
            },
            distinct_members(self@) ==> forall|i: int|
                #![trigger self@[i]]
                0 <= i < self@.len() ==> (r == Some(i as usize) <==> self@[i].contains(value@)),
    {
        proof {
            if distinct_members(self@) {
                lemma_index_in_distinct_set(self@, value@);
            }
        }
        let n = self.clusters.len();
        let mut i: usize = n;
        assert(self@.take(n as int) =~= self@);
        while i > 0
            invariant
                i <= n,
                n == self@.len(),
                cluster_index_of(self@, value@) == cluster_index_of(self@.take(i as int), value@),
            decreases i,
        {
            let ghost pre = self@.take(i as int);
            assert(pre.drop_last() =~= self@.take(i - 1));
            let cluster = &self.clusters[i - 1];
            let mut p: usize = 0;
            while p < cluster.values.len()
                invariant
                    0 < i <= n,
                    n == self@.len(),
                    pre == self@.take(i as int),
                    cluster_index_of(self@, value@) == cluster_index_of(pre, value@),
                    p <= cluster.values@.len(),
                    cluster@ == self@[i - 1],
                    forall|q: int| 0 <= q < p ==> cluster.values@[q]@ != value@,
                decreases cluster.values@.len() - p,
            {
                if cluster.values[p].eq_value(value) {
                    assert(cluster@[p as int] == value@);
                    assert(pre.last().contains(value@));
                    return Some(i - 1);
                }
                p = p + 1;
            }
            assert(!pre.last().contains(value@)) by {
                if pre.last().contains(value@) {
                    let q = choose|q: int| 0 <= q < pre.last().len() && pre.last()[q] == value@;
                    assert(cluster.values@[q]@ == value@);
                }
            }
            i = i - 1;
        }
        assert(self@.take(0) =~= Seq::<Seq<T::V>>::empty());
        None
    }

    /// Whether some cluster holds `value`.
    pub fn contains(&self, value: &T) -> (r: bool)
        ensures
            r == set_contains(self@, value@),
    {
        proof {
            lemma_cluster_index_of(self@, value@);
        }
        self.get_cluster_index(value).is_some()
    }

    /// Adds `value` at the end of the cluster at `cluster_index`; the value
    /// must not be in the set yet.
    pub fn add_to_cluster(&mut self, cluster_index: usize, value: T)
        requires
            cluster_index < old(self)@.len(),
            !set_contains(old(self)@, value@),
        ensures
            final(self)@ == old(self)@.update(
                cluster_index as int,
                old(self)@[cluster_index as int].push(value@),
            ),
            distinct_members(old(self)@) ==> distinct_members(final(self)@)
                && cluster_index_of(final(self)@, value@) == Some(cluster_index as int),
    {
        let mut cluster = Cluster { values: Vec::new() };
        std::mem::swap(&mut cluster, &mut self.clusters[cluster_index]);
        let ghost old_view = cluster@;
        cluster.values.push(value);
        assert(cluster@ =~= old_view.push(value@));
        self.clusters.set(cluster_index, cluster);
        assert(self@ =~= old(self)@.update(
            cluster_index as int,
            old(self)@[cluster_index as int].push(value@),
        ));
        proof {
            if distinct_members(old(self)@) {
                lemma_added_value_found_in_its_cluster(old(self)@, cluster_index as int, value@);
            }
        }
    }
}


/// The largest score of a row (0 for an empty row).
pub open spec fn seq_max(s: Seq<u64>) -> u64
    decreases s.len(),
{
    if s.len() == 0 {
        0
    } else if s.len() == 1 {
        s[0]
    } else {
        let m = seq_max(s.drop_last());
        if s.last() > m {
            s.last()
        } else {
            m
        }
    }
}

/// How well a value matches a cluster: its best score against a member, or
/// `empty_score` when the cluster has no member.
pub open spec fn cluster_score(row: Seq<u64>, empty_score: u64) -> u64 {
    if row.len() == 0 {
        empty_score
    } else {
        seq_max(row)
    }
}

/// The position of the last largest element (0 for an empty sequence).
pub open spec fn last_argmax(s: Seq<u64>) -> int
    decreases s.len(),
{
    if s.len() <= 1 {
        0
    } else {
        let b = last_argmax(s.drop_last());
        if s.last() >= s[b] {
            s.len() - 1
        } else {
            b
        }
    }
}

/// The score of every cluster, given the scores of its members.
pub open spec fn cluster_scores(rows: Seq<Seq<u64>>, empty_score: u64) -> Seq<u64> {
    rows.map_values(|r: Seq<u64>| cluster_score(r, empty_score))
}

/// The cluster a new value joins: the last cluster with the highest score,
/// when that score is above the threshold; `None` when the value starts a
/// cluster of its own.
pub open spec fn chosen_cluster(rows: Seq<Seq<u64>>, empty_score: u64, threshold: u64) -> Option<int> {
    if rows.len() == 0 {
        None
    } else {
        let scores = cluster_scores(rows, empty_score);
        let b = last_argmax(scores);
        if scores[b] > threshold {
            Some(b)
        } else {
            None
        }
    }
}

/// The clusters after placing `item`: unchanged when the item is `present`
/// already, else the item joins the chosen cluster or starts a new one at
/// the end.
pub open spec fn place<A>(
    cs: Seq<Seq<A>>,
    item: A,
    present: bool,
    rows: Seq<Seq<u64>>,
    empty_score: u64,
    threshold: u64,
) -> Seq<Seq<A>> {
    if present {
        cs
    } else {
        match chosen_cluster(rows, empty_score, threshold) {
            Some(b) => cs.update(b, cs[b].push(item)),
            None => cs.push(seq![item]),
        }
    }
}

/// The score rows held in a vector of vectors.
pub open spec fn rows_of(v: Seq<Vec<u64>>) -> Seq<Seq<u64>> {
    v.map_values(|r: Vec<u64>| r@)
}

proof fn lemma_seq_max_push(s: Seq<u64>, x: u64)
    ensures
        seq_max(s.push(x)) == if s.len() == 0 || x > seq_max(s) { x } else { seq_max(s) },
{
    assert(s.push(x).drop_last() =~= s);
}

proof fn lemma_last_argmax_push(s: Seq<u64>, x: u64)
    requires
        s.len() > 0,
        0 <= last_argmax(s) < s.len(),
    ensures
        last_argmax(s.push(x)) == if x >= s[last_argmax(s)] { s.len() as int } else { last_argmax(s) },
        0 <= last_argmax(s.push(x)) < s.len() + 1,
{
    assert(s.push(x).drop_last() =~= s);
}

/// The score of a cluster from the scores of its members.
fn row_score(row: &Vec<u64>, empty_score: u64) -> (r: u64)
    ensures
        r == cluster_score(row@, empty_score),
{
    if row.len() == 0 {
        return empty_score;
    }
    let mut m = row[0];
    let mut i: usize = 1;
    assert(row@.take(1) =~= seq![row@[0]]);
    while i < row.len()
        invariant
            1 <= i <= row@.len(),
            m == seq_max(row@.take(i as int)),
        decreases row@.len() - i,
    {
        proof {
            lemma_seq_max_push(row@.take(i as int), row@[i as int]);
            assert(row@.take(i as int).push(row@[i as int]) =~= row@.take(i + 1));
        }
        if row[i] > m {
            m = row[i];
        }
        i = i + 1;
    }
    assert(row@.take(row@.len() as int) =~= row@);
    m
}

/// The cluster a new value joins, given the scores of every cluster's
/// members against it.
fn best_cluster(rows: &Vec<Vec<u64>>, empty_score: u64, threshold: u64) -> (r: Option<usize>)
    ensures
        match r {
            Some(b) => chosen_cluster(rows_of(rows@), empty_score, threshold) == Some(b as int)
                && b < rows@.len(),
            None => chosen_cluster(rows_of(rows@), empty_score, threshold) is None,
        },
{
    let n = rows.len();
    if n == 0 {
        return None;
    }
    let ghost scores = cluster_scores(rows_of(rows@), empty_score);
    let mut best: usize = 0;
    let mut best_score = row_score(&rows[0], empty_score);
    let mut c: usize = 1;
    assert(scores.take(1) =~= seq![scores[0]]);
    while c < n
        invariant
            n == rows@.len(),
            scores == cluster_scores(rows_of(rows@), empty_score),
            1 <= c <= n,
            best < c,
            best == last_argmax(scores.take(c as int)),
            best_score == scores[best as int],
        decreases n - c,
    {
        let sc = row_score(&rows[c], empty_score);
        proof {
            assert(scores.take(c as int)[best as int] == scores[best as int]);
            lemma_last_argmax_push(scores.take(c as int), scores[c as int]);
            assert(scores.take(c as int).push(scores[c as int]) =~= scores.take(c + 1));
        }
        if sc >= best_score {
            best = c;
            best_score = sc;
        }
        c = c + 1;
    }
    assert(scores.take(n as int) =~= scores);
    if best_score > threshold {
        Some(best)
    } else {
        None
    }
}

/// Places `value` in `set`: nothing changes when a cluster holds it already;
/// else it joins the last cluster with the highest score, when that score is
/// above `threshold`, or starts a new cluster at the end. `scores[c][p]`
/// is the score of `value` against member `p` of cluster `c`, and
/// `empty_score` that against a cluster without members; scores are compared
/// only by their order.
pub fn add_to_correct_cluster_set<T: ValueEq>(
    set: &mut ClusterSet<T>,
    value: T,
    scores: &Vec<Vec<u64>>,
    empty_score: u64,
    threshold: u64,
)
    requires
        scores@.len() == old(set)@.len(),
    ensures
        final(set)@ == place(
            old(set)@,
            value@,
            set_contains(old(set)@, value@),
            rows_of(scores@),
            empty_score,
            threshold,
        ),
        set_contains(final(set)@, value@),
        distinct_members(old(set)@) ==> distinct_members(final(set)@),
        distinct_members(old(set)@) && no_empty_cluster(old(set)@) ==> no_empty_cluster(final(set)@),
{
    proof {
        if distinct_members(set@) {
            lemma_place_keeps_partition(set@, value@, rows_of(scores@), empty_score, threshold);
        }
        lemma_place_contains(set@, value@, rows_of(scores@), empty_score, threshold);
    }
    if set.contains(&value) {
        return;
    }
    match best_cluster(scores, empty_score, threshold) {
        Some(b) => {
            set.add_to_cluster(b, value);
        },
        None => {
            let ghost before = set@;
            let idx = set.append_new_cluster();
            assert(!set_contains(set@, value@)) by {
                if set_contains(set@, value@) {
                    let i = choose|i: int| 0 <= i < set@.len() && #[trigger] set@[i].contains(value@);
                    if i < before.len() {
                        assert(before[i] == set@[i]);
                    }
                }
            }
            set.add_to_cluster(idx, value);
            assert(set@ =~= before.push(seq![value@]));
        },
    }
}

/// Placing a value that is not yet in the clusters keeps every value in
/// exactly one cluster and no cluster empty, puts the value in a cluster,
/// adds no other value, and only ever extends the existing clusters.
pub proof fn lemma_place_keeps_partition<V>(
    cs: Seq<Seq<V>>,
    v: V,
    rows: Seq<Seq<u64>>,
    empty_score: u64,
    threshold: u64,
)
    requires
        distinct_members(cs),
        rows.len() == cs.len(),
    ensures
        ({
            let r = place(cs, v, set_contains(cs, v), rows, empty_score, threshold);
            &&& distinct_members(r)
            &&& no_empty_cluster(cs) ==> no_empty_cluster(r)
            &&& set_contains(r, v)
            &&& forall|x: V| #[trigger] set_contains(r, x) <==> set_contains(cs, x) || x == v
            &&& r.len() >= cs.len()
            &&& forall|i: int| 0 <= i < cs.len() ==> #[trigger] r[i].take(cs[i].len() as int) == cs[i]
        }),
{
    let present = set_contains(cs, v);
    let r = place(cs, v, present, rows, empty_score, threshold);
    if present {
        assert forall|i: int| 0 <= i < cs.len() implies #[trigger] r[i].take(cs[i].len() as int) == cs[i] by {
            assert(r[i].take(cs[i].len() as int) =~= cs[i]);
        }
        return;
    }
    lemma_chosen_cluster_in_range(rows, empty_score, threshold);
    match chosen_cluster(rows, empty_score, threshold) {
        Some(b) => {
            assert forall|i: int, p: int, j: int, q: int|
                0 <= i < r.len() && 0 <= j < r.len() && 0 <= p < r[i].len() && 0 <= q < r[j].len()
                    && #[trigger] r[i][p] == #[trigger] r[j][q] implies i == j && p == q by {
                if i == b && p == cs[b].len() {
                    if !(j == b && q == cs[b].len()) {
                        assert(cs[j][q] == r[j][q]);
                        assert(cs[j].contains(v));
                    }
                } else if j == b && q == cs[b].len() {
                    assert(cs[i][p] == r[i][p]);
                    assert(cs[i].contains(v));
                } else {
                    assert(cs[i][p] == r[i][p]);
                    assert(cs[j][q] == r[j][q]);
                }
            }
            if no_empty_cluster(cs) {
                assert forall|i: int| 0 <= i < r.len() implies #[trigger] r[i].len() > 0 by {
                    assert(cs[i].len() > 0);
                }
            }
            assert(r[b][cs[b].len() as int] == v);
            assert(r[b].contains(v));
            assert(set_contains(r, v));
            assert forall|x: V| #[trigger] set_contains(r, x) <==> set_contains(cs, x) || x == v by {
                if set_contains(r, x) {
                    let i = choose|i: int| 0 <= i < r.len() && #[trigger] r[i].contains(x);
                    let p = choose|p: int| 0 <= p < r[i].len() && r[i][p] == x;
                    if !(i == b && p == cs[b].len()) {
                        assert(cs[i][p] == x);
                        assert(cs[i].contains(x));
                    }
                }
                if set_contains(cs, x) {
                    let i = choose|i: int| 0 <= i < cs.len() && #[trigger] cs[i].contains(x);
                    let p = choose|p: int| 0 <= p < cs[i].len() && cs[i][p] == x;
                    assert(r[i][p] == x);
                    assert(r[i].contains(x));
                }
            }
            assert forall|i: int| 0 <= i < cs.len() implies #[trigger] r[i].take(cs[i].len() as int) == cs[i] by {
                assert(r[i].take(cs[i].len() as int) =~= cs[i]);
            }
        },
        None => {
            let n = cs.len() as int;
            assert forall|i: int, p: int, j: int, q: int|
                0 <= i < r.len() && 0 <= j < r.len() && 0 <= p < r[i].len() && 0 <= q < r[j].len()
                    && #[trigger] r[i][p] == #[trigger] r[j][q] implies i == j && p == q by {
                if i == n {
                    if j != n {
                        assert(cs[j][q] == r[j][q]);
                        assert(cs[j].contains(v));
                    }
                } else if j == n {
                    assert(cs[i][p] == r[i][p]);
                    assert(cs[i].contains(v));
                } else {
                    assert(cs[i][p] == r[i][p]);
                    assert(cs[j][q] == r[j][q]);
                }
            }
            if no_empty_cluster(cs) {
                assert forall|i: int| 0 <= i < r.len() implies #[trigger] r[i].len() > 0 by {
                    if i < n {
                        assert(cs[i].len() > 0);
                    }
                }
            }
            assert(r[n][0] == v);
            assert(r[n].contains(v));
            assert forall|x: V| #[trigger] set_contains(r, x) <==> set_contains(cs, x) || x == v by {
                if set_contains(r, x) {
                    let i = choose|i: int| 0 <= i < r.len() && #[trigger] r[i].contains(x);
                    if i < n {
                        assert(cs[i].contains(x));
                    } else {
                        let p = choose|p: int| 0 <= p < r[i].len() && r[i][p] == x;
                    }
                }
                if set_contains(cs, x) {
                    let i = choose|i: int| 0 <= i < cs.len() && #[trigger] cs[i].contains(x);
                    assert(r[i] == cs[i]);
                    assert(r[i].contains(x));
                }
                if x == v {
                    assert(r[n].contains(x));
                }
            }
            assert forall|i: int| 0 <= i < cs.len() implies #[trigger] r[i].take(cs[i].len() as int) == cs[i] by {
                assert(r[i].take(cs[i].len() as int) =~= cs[i]);
            }
        },
    }
}

proof fn lemma_last_argmax_in_range(s: Seq<u64>)
    ensures
        s.len() > 0 ==> 0 <= last_argmax(s) < s.len(),
    decreases s.len(),
{
    if s.len() > 1 {
        lemma_last_argmax_in_range(s.drop_last());
    }
}

proof fn lemma_chosen_cluster_in_range(rows: Seq<Seq<u64>>, empty_score: u64, threshold: u64)
    ensures
        chosen_cluster(rows, empty_score, threshold) matches Some(b) ==> 0 <= b < rows.len(),
{
    lemma_last_argmax_in_range(cluster_scores(rows, empty_score));
}


/// Clusters of data positions, as integers.
pub open spec fn index_view(m: Seq<Vec<usize>>) -> Seq<Seq<int>> {
    m.map_values(|c: Vec<usize>| c@.map_values(|x: usize| x as int))
}

/// The values at the positions held by each cluster.
pub open spec fn member_views<V>(ics: Seq<Seq<int>>, vals: Seq<V>) -> Seq<Seq<V>> {
    ics.map_values(|c: Seq<int>| c.map_values(|m: int| vals[m]))
}

/// The scores in `row` at the positions held by each cluster.
pub open spec fn member_rows(ics: Seq<Seq<int>>, row: Seq<u64>) -> Seq<Seq<u64>> {
    ics.map_values(|c: Seq<int>| c.map_values(|m: int| row[m]))
}

/// The clusters of positions after the first `k` values of `vals` have been
/// placed one after the other, each scored against the members by `scores`.
pub open spec fn greedy_indices<V>(
    vals: Seq<V>,
    scores: Seq<Seq<u64>>,
    threshold: u64,
    k: nat,
) -> Seq<Seq<int>>
    decreases k,
{
    if k == 0 {
        seq![]
    } else {
        let prev = greedy_indices(vals, scores, threshold, (k - 1) as nat);
        let i = k - 1;
        place(
            prev,
            i,
            set_contains(member_views(prev, vals), vals[i]),
            member_rows(prev, scores[i]),
            0,
            threshold,
        )
    }
}

/// The clusters of values that placing every value of `vals` in turn gives.
pub open spec fn greedy_clusters<V>(vals: Seq<V>, scores: Seq<Seq<u64>>, threshold: u64) -> Seq<Seq<V>> {
    member_views(greedy_indices(vals, scores, threshold, vals.len()), vals)
}

proof fn lemma_member_views_place<V>(
    ics: Seq<Seq<int>>,
    i: int,
    present: bool,
    rows: Seq<Seq<u64>>,
    threshold: u64,
    vals: Seq<V>,
)
    requires
        rows.len() == ics.len(),
    ensures
        member_views(place(ics, i, present, rows, 0, threshold), vals) == place(
            member_views(ics, vals),
            vals[i],
            present,
            rows,
            0,
            threshold,
        ),
{
    lemma_chosen_cluster_in_range(rows, 0, threshold);
    let l = member_views(place(ics, i, present, rows, 0, threshold), vals);
    let r = place(member_views(ics, vals), vals[i], present, rows, 0, threshold);
    if !present {
        match chosen_cluster(rows, 0, threshold) {
            Some(b) => {
                assert forall|c: int| 0 <= c < l.len() implies l[c] =~= r[c] by {}
            },
            None => {
                assert forall|c: int| 0 <= c < l.len() implies l[c] =~= r[c] by {}
            },
        }
    }
    assert(l =~= r);
}

/// The scores in `row` of the members of every cluster.
fn member_score_rows(members: &Vec<Vec<usize>>, row: &Vec<u64>) -> (r: Vec<Vec<u64>>)
    requires
        forall|c: int, p: int|
            0 <= c < members@.len() && 0 <= p < members@[c]@.len() ==> #[trigger] members@[c]@[p] < row@.len(),
    ensures
        rows_of(r@) == member_rows(index_view(members@), row@),
{
    let ghost target = member_rows(index_view(members@), row@);
    let mut rows: Vec<Vec<u64>> = Vec::new();
    let mut c: usize = 0;
    while c < members.len()
        invariant
            c <= members@.len(),
            target == member_rows(index_view(members@), row@),
            forall|c: int, p: int|
                0 <= c < members@.len() && 0 <= p < members@[c]@.len() ==> #[trigger] members@[c]@[p] < row@.len(),
            rows_of(rows@) == target.take(c as int),
        decreases members@.len() - c,
    {
        let cluster = &members[c];
        let mut scored: Vec<u64> = Vec::new();
        let mut p: usize = 0;
        while p < cluster.len()
            invariant
                c < members@.len(),
                cluster == members@[c as int],
                p <= cluster@.len(),
                forall|c: int, p: int|
                    0 <= c < members@.len() && 0 <= p < members@[c]@.len() ==> #[trigger] members@[c]@[p] < row@.len(),
                scored@ == cluster@.take(p as int).map_values(|m: usize| row@[m as int]),
            decreases cluster@.len() - p,
        {
            let m = cluster[p];
            assert(members@[c as int]@[p as int] < row@.len());
            scored.push(row[m]);
            assert(scored@ =~= cluster@.take(p + 1).map_values(|m: usize| row@[m as int]));
            p = p + 1;
        }
        let ghost before = rows_of(rows@);
        rows.push(scored);
        assert(cluster@.take(cluster@.len() as int) =~= cluster@);
        assert(rows_of(rows@) =~= before.push(scored@));
        assert(scored@ =~= target[c as int]);
        assert(target.take(c + 1) =~= target.take(c as int).push(target[c as int]));
        c = c + 1;
    }
    assert(target.take(members@.len() as int) =~= target);
    rows
}

/// Groups `data` into clusters: the values are placed one after the other,
/// in order, as `add_to_correct_cluster_set` places a value, with
/// `scores[i][j]` the score of `data[i]` against `data[j]`. Values that are
/// in a cluster already are skipped.
pub fn cluster_data<T: ValueEq>(data: Vec<T>, scores: &Vec<Vec<u64>>, threshold: u64) -> (r: ClusterSet<T>)
    requires
        scores@.len() == data@.len(),
        forall|i: int| 0 <= i < scores@.len() ==> #[trigger] scores@[i]@.len() == data@.len(),
    ensures
        r@ == greedy_clusters(data@.map_values(|v: T| v@), rows_of(scores@), threshold),
        distinct_members(r@),
        no_empty_cluster(r@),
        forall|x: T::V| #[trigger] set_contains(r@, x) <==> data@.map_values(|v: T| v@).contains(x),
{
    let n = data.len();
    let ghost vals = data@.map_values(|v: T| v@);
    let ghost sc = rows_of(scores@);
    let mut set: ClusterSet<T> = ClusterSet::new();
    let mut members: Vec<Vec<usize>> = Vec::new();
    let mut k: usize = 0;
    assert(index_view(members@) =~= Seq::<Seq<int>>::empty());
    assert(member_views(index_view(members@), vals) =~= set@);
    while k < n
        invariant
            n == data@.len(),
            vals == data@.map_values(|v: T| v@),
            sc == rows_of(scores@),
            scores@.len() == n,
            forall|i: int| 0 <= i < scores@.len() ==> #[trigger] scores@[i]@.len() == n,
            k <= n,
            index_view(members@) == greedy_indices(vals, sc, threshold, k as nat),
            set@ == member_views(index_view(members@), vals),
            members@.len() == set@.len(),
            forall|c: int, p: int|
                0 <= c < members@.len() && 0 <= p < members@[c]@.len() ==> #[trigger] members@[c]@[p] < k,
            distinct_members(set@),
            no_empty_cluster(set@),
            forall|x: T::V| #[trigger] set_contains(set@, x) <==> vals.take(k as int).contains(x),
        decreases n - k,
    {
        let value = data[k].clone_value();
        let ghost prev = index_view(members@);
        let ghost before = set@;
        assert(scores@[k as int]@.len() == n);
        let rows = member_score_rows(&members, &scores[k]);
        assert(sc[k as int] == scores@[k as int]@);
        assert(rows_of(rows@).len() == set@.len());
        proof {
            lemma_place_keeps_partition(before, value@, rows_of(rows@), 0, threshold);
            lemma_member_views_place(prev, k as int, set_contains(before, value@), rows_of(rows@), threshold, vals);
            assert(vals[k as int] == value@);
        }
        let present = set.contains(&value);
        if !present {
            match best_cluster(&rows, 0, threshold) {
                Some(b) => {
                    set.add_to_cluster(b, value);
                    let mut grown: Vec<usize> = Vec::new();
                    std::mem::swap(&mut grown, &mut members[b]);
                    let ghost old_members = grown@;
                    grown.push(k);
                    members.set(b, grown);
                    assert(index_view(members@) =~= prev.update(b as int, prev[b as int].push(k as int))) by {
                        assert(index_view(members@)[b as int] =~= prev[b as int].push(k as int));
                    }
                },
                None => {
                    let idx = set.append_new_cluster();
                    assert(!set_contains(set@, value@)) by {
                        if set_contains(set@, value@) {
                            let i = choose|i: int| 0 <= i < set@.len() && #[trigger] set@[i].contains(value@);
                            if i < before.len() {
                                assert(before[i] == set@[i]);
                            }
                        }
                    }
                    set.add_to_cluster(idx, value);
                    assert(set@ =~= before.push(seq![value@]));
                    members.push(vec![k]);
                    assert(index_view(members@) =~= prev.push(seq![k as int])) by {
                        assert(index_view(members@)[prev.len() as int] =~= seq![k as int]);
                    }
                },
            }
        }
        let ghost seen = vals.take(k as int);
        let ghost seen_next = vals.take(k + 1);
        assert(seen_next =~= seen.push(vals[k as int]));
        assert forall|x: T::V| #[trigger] set_contains(set@, x) <==> seen_next.contains(x) by {
            if seen.contains(x) {
                let j = choose|j: int| 0 <= j < seen.len() && seen[j] == x;
                assert(seen_next[j] == x);
            }
            if seen_next.contains(x) && x != value@ {
                let j = choose|j: int| 0 <= j < seen_next.len() && seen_next[j] == x;
                assert(seen[j] == x);
            }
            if x == value@ {
                assert(seen_next[k as int] == x);
            }
        }
        assert forall|c: int, p: int|
            0 <= c < members@.len() && 0 <= p < members@[c]@.len() implies #[trigger] members@[c]@[p] < k + 1 by {
            if c < prev.len() && p < prev[c].len() {
                assert(index_view(members@)[c][p] == members@[c]@[p] as int);
                assert(prev[c][p] < k);
            } else {
                assert(index_view(members@)[c][p] == members@[c]@[p] as int);
            }
        }
        k = k + 1;
    }
    assert(vals.take(n as int) =~= vals);
    set
}


/// What `add_to_cluster` writes, `get_cluster_index` reads back: after a
/// value that was in no cluster joins cluster `i`, its cluster index is `i`,
/// every value is still in exactly one cluster, and no other value was
/// added.
pub proof fn lemma_added_value_found_in_its_cluster<V>(cs: Seq<Seq<V>>, i: int, v: V)
    requires
        distinct_members(cs),
        !set_contains(cs, v),
        0 <= i < cs.len(),
    ensures
        ({
            let r = cs.update(i, cs[i].push(v));
            &&& cluster_index_of(r, v) == Some(i)
            &&& distinct_members(r)
            &&& forall|x: V| #[trigger] set_contains(r, x) <==> set_contains(cs, x) || x == v
        }),
{
    let r = cs.update(i, cs[i].push(v));
    assert(r[i][cs[i].len() as int] == v);
    assert(r[i].contains(v));
    assert forall|a: int, p: int, b: int, q: int|
        0 <= a < r.len() && 0 <= b < r.len() && 0 <= p < r[a].len() && 0 <= q < r[b].len()
            && #[trigger] r[a][p] == #[trigger] r[b][q] implies a == b && p == q by {
        if a == i && p == cs[i].len() {
            if !(b == i && q == cs[i].len()) {
                assert(cs[b][q] == r[b][q]);
                assert(cs[b].contains(v));
            }
        } else if b == i && q == cs[i].len() {
            assert(cs[a][p] == r[a][p]);
            assert(cs[a].contains(v));
        } else {
            assert(cs[a][p] == r[a][p]);
            assert(cs[b][q] == r[b][q]);
        }
    }
    assert forall|x: V| #[trigger] set_contains(r, x) <==> set_contains(cs, x) || x == v by {
        if set_contains(r, x) {
            let a = choose|a: int| 0 <= a < r.len() && #[trigger] r[a].contains(x);
            let p = choose|p: int| 0 <= p < r[a].len() && r[a][p] == x;
            if !(a == i && p == cs[i].len()) {
                assert(cs[a][p] == x);
                assert(cs[a].contains(x));
            }
        }
        if set_contains(cs, x) {
            let a = choose|a: int| 0 <= a < cs.len() && #[trigger] cs[a].contains(x);
            let p = choose|p: int| 0 <= p < cs[a].len() && cs[a][p] == x;
            assert(r[a][p] == x);
            assert(r[a].contains(x));
        }
    }
    lemma_cluster_index_of(r, v);
    if let Some(j) = cluster_index_of(r, v) {
        if j != i {
            let p = choose|p: int| 0 <= p < r[j].len() && r[j][p] == v;
            assert(r[i][cs[i].len() as int] == r[j][p]);
        }
    }
}


/// In a set where no value occurs twice, the cluster index of a value is
/// the one cluster that holds it.
pub proof fn lemma_index_in_distinct_set<V>(cs: Seq<Seq<V>>, v: V)
    requires
        distinct_members(cs),
    ensures
        forall|i: int|
            #![trigger cs[i]]
            cluster_index_of(cs, v) == Some(i) <==> 0 <= i < cs.len() && cs[i].contains(v),
{
    lemma_cluster_index_of(cs, v);
    assert forall|i: int| #![trigger cs[i]] cluster_index_of(cs, v) == Some(i) <==> 0 <= i < cs.len() && cs[i].contains(v) by {
        if 0 <= i < cs.len() && cs[i].contains(v) {
            if let Some(j) = cluster_index_of(cs, v) {
                if j != i {
                    let p = choose|p: int| 0 <= p < cs[i].len() && cs[i][p] == v;
                    let q = choose|q: int| 0 <= q < cs[j].len() && cs[j][q] == v;
                    assert(cs[i][p] == cs[j][q]);
                }
            }
        }
    }
}

/// After placing a value, some cluster holds it.
proof fn lemma_place_contains<V>(cs: Seq<Seq<V>>, v: V, rows: Seq<Seq<u64>>, empty_score: u64, threshold: u64)
    requires
        rows.len() == cs.len(),
    ensures
        set_contains(place(cs, v, set_contains(cs, v), rows, empty_score, threshold), v),
{
    let r = place(cs, v, set_contains(cs, v), rows, empty_score, threshold);
    if !set_contains(cs, v) {
        lemma_chosen_cluster_in_range(rows, empty_score, threshold);
        match chosen_cluster(rows, empty_score, threshold) {
            Some(b) => {
                assert(r[b][cs[b].len() as int] == v);
                assert(r[b].contains(v));
            },
            None => {
                assert(r[cs.len() as int][0] == v);
                assert(r[cs.len() as int].contains(v));
            },
        }
    }
}


/// A change made to a cluster set: `append_new_cluster`, or `add_to_cluster`
/// of a value at a cluster index.
pub enum SetStep<V> {
    Append,
    Add(int, V),
}

/// The clusters reached from an empty set by the steps, in order, as
/// `append_new_cluster` and `add_to_cluster` change them; `None` when an
/// `add_to_cluster` step would be refused (index out of range, or value
/// already present).
pub open spec fn apply_steps<V>(steps: Seq<SetStep<V>>) -> Option<Seq<Seq<V>>>
    decreases steps.len(),
{
    if steps.len() == 0 {
        Some(seq![])
    } else {
        match apply_steps(steps.drop_last()) {
            None => None,
            Some(cs) => match steps.last() {
                SetStep::Append => Some(cs.push(seq![])),
                SetStep::Add(i, v) => if 0 <= i < cs.len() && !set_contains(cs, v) {
                    Some(cs.update(i, cs[i].push(v)))
                } else {
                    None
                },
            },
        }
    }
}

/// The clusters reached by any sequence of steps hold no value twice.
proof fn lemma_reachable_sets_distinct<V>(steps: Seq<SetStep<V>>)
    ensures
        apply_steps(steps) matches Some(cs) ==> distinct_members(cs),
    decreases steps.len(),
{
    if steps.len() == 0 {
        assert(apply_steps(steps) == Some(Seq::<Seq<V>>::empty()));
    } else {
        lemma_reachable_sets_distinct(steps.drop_last());
        if let Some(cs) = apply_steps(steps.drop_last()) {
            match steps.last() {
                SetStep::Append => {
                    let r = cs.push(seq![]);
                    assert(apply_steps(steps) == Some(r));
                    assert forall|i: int, p: int, j: int, q: int|
                        0 <= i < r.len() && 0 <= j < r.len() && 0 <= p < r[i].len() && 0 <= q < r[j].len()
                            && #[trigger] r[i][p] == #[trigger] r[j][q] implies i == j && p == q by {
                        assert(i < cs.len() && j < cs.len());
                        assert(r[i][p] == cs[i][p] && r[j][q] == cs[j][q]);
                    }
                },
                SetStep::Add(i, v) => {
                    if 0 <= i < cs.len() && !set_contains(cs, v) {
                        assert(apply_steps(steps) == Some(cs.update(i, cs[i].push(v))));
                        lemma_added_value_found_in_its_cluster(cs, i, v);
                    }
                },
            }
        }
    }
}

/// Every cluster set reached from `ClusterSet::new` by `append_new_cluster`
/// and accepted `add_to_cluster` calls holds each value at most once, and
/// the cluster index of a value is exactly the cluster that holds it.
pub proof fn lemma_reachable_sets_keep_values_unique<V>(steps: Seq<SetStep<V>>, cs: Seq<Seq<V>>)
    requires
        apply_steps(steps) == Some(cs),
    ensures
        distinct_members(cs),
        forall|v: V, i: int|
            #![trigger cluster_index_of(cs, v), cs[i]]
            cluster_index_of(cs, v) == Some(i) <==> 0 <= i < cs.len() && cs[i].contains(v),
{
    lemma_reachable_sets_distinct(steps);
    assert forall|v: V, i: int|
        #![trigger cluster_index_of(cs, v), cs[i]]
        cluster_index_of(cs, v) == Some(i) <==> 0 <= i < cs.len() && cs[i].contains(v) by {
        lemma_index_in_distinct_set(cs, v);
    }
}

proof fn lemma_seq_max_is_max(s: Seq<u64>)
    requires
        s.len() > 0,
    ensures
        s.contains(seq_max(s)),
        forall|i: int| 0 <= i < s.len() ==> #[trigger] s[i] <= seq_max(s),
    decreases s.len(),
{
    if s.len() == 1 {
        assert(s[0] == seq_max(s));
    } else {
        let d = s.drop_last();
        lemma_seq_max_is_max(d);
        assert(d.push(s.last()) =~= s);
        lemma_seq_max_push(d, s.last());
        let j = choose|j: int| 0 <= j < d.len() && d[j] == seq_max(d);
        assert(s[j] == d[j]);
        assert(s[s.len() - 1] == s.last());
        assert forall|i: int| 0 <= i < s.len() implies #[trigger] s[i] <= seq_max(s) by {
            if i < d.len() {
                assert(s[i] == d[i]);
            }
        }
    }
}

proof fn lemma_last_argmax_is_max(s: Seq<u64>)
    requires
        s.len() > 0,
    ensures
        0 <= last_argmax(s) < s.len(),
        forall|i: int| 0 <= i < s.len() ==> #[trigger] s[i] <= s[last_argmax(s)],
    decreases s.len(),
{
    if s.len() > 1 {
        let d = s.drop_last();
        lemma_last_argmax_is_max(d);
        assert(s[last_argmax(d)] == d[last_argmax(d)]);
        assert forall|i: int| 0 <= i < s.len() implies #[trigger] s[i] <= s[last_argmax(s)] by {
            if i < d.len() {
                assert(s[i] == d[i]);
            }
        }
    }
}

/// The score of every cluster is at least the score of every member of
/// every cluster.
proof fn lemma_best_cluster_score(rows: Seq<Seq<u64>>, empty_score: u64)
    requires
        rows.len() > 0,
    ensures
        ({
            let scores = cluster_scores(rows, empty_score);
            let b = last_argmax(scores);
            &&& 0 <= b < rows.len()
            &&& forall|c: int, p: int|
                0 <= c < rows.len() && 0 <= p < rows[c].len() ==> #[trigger] rows[c][p] <= scores[b]
            &&& forall|c: int| 0 <= c < rows.len() && rows[c].len() == 0 ==> empty_score <= #[trigger] scores[b]
        }),
{
    let scores = cluster_scores(rows, empty_score);
    lemma_last_argmax_is_max(scores);
    let b = last_argmax(scores);
    assert forall|c: int, p: int|
        0 <= c < rows.len() && 0 <= p < rows[c].len() implies #[trigger] rows[c][p] <= scores[b] by {
        lemma_seq_max_is_max(rows[c]);
        assert(scores[c] == seq_max(rows[c]));
    }
    assert forall|c: int| 0 <= c < rows.len() && rows[c].len() == 0 implies empty_score <= #[trigger] scores[b] by {
        assert(scores[c] == empty_score);
    }
}

/// A value that scores above the threshold against some member of some
/// cluster joins an existing cluster, never a new one: the cluster `b` it
/// joins has a score `s`, its best member score (or `empty_score` when it has
/// no member), and no member of any cluster scores above `s`. The result
/// names `b` and `s`.
pub proof fn lemma_place_joins_best_scoring_cluster<A>(
    cs: Seq<Seq<A>>,
    item: A,
    rows: Seq<Seq<u64>>,
    empty_score: u64,
    threshold: u64,
    c: int,
    p: int,
) -> (joined: (int, u64))
    requires
        rows.len() == cs.len(),
        0 <= c < rows.len(),
        0 <= p < rows[c].len(),
        rows[c][p] > threshold,
    ensures
        ({
            let (b, s) = joined;
            &&& 0 <= b < cs.len()
            &&& place(cs, item, false, rows, empty_score, threshold) == cs.update(b, cs[b].push(item))
            &&& if rows[b].len() == 0 {
                s == empty_score
            } else {
                &&& rows[b].contains(s)
                &&& forall|q: int| 0 <= q < rows[b].len() ==> #[trigger] rows[b][q] <= s
            }
            &&& forall|c2: int, p2: int|
                0 <= c2 < rows.len() && 0 <= p2 < rows[c2].len() ==> #[trigger] rows[c2][p2] <= s
        }),
{
    lemma_best_cluster_score(rows, empty_score);
    let scores = cluster_scores(rows, empty_score);
    let b = last_argmax(scores);
    let s = scores[b];
    assert(rows[c][p] <= s);
    assert(chosen_cluster(rows, empty_score, threshold) == Some(b));
    if rows[b].len() > 0 {
        lemma_seq_max_is_max(rows[b]);
    }
    (b, s)
}

/// A value that scores at most the threshold against every member of every
/// cluster, and against an empty cluster, starts a new cluster at the end.
pub proof fn lemma_place_starts_cluster_when_nothing_matches<A>(
    cs: Seq<Seq<A>>,
    item: A,
    rows: Seq<Seq<u64>>,
    empty_score: u64,
    threshold: u64,
)
    requires
        rows.len() == cs.len(),
        forall|c: int, p: int| 0 <= c < rows.len() && 0 <= p < rows[c].len() ==> #[trigger] rows[c][p] <= threshold,
        (exists|c: int| 0 <= c < rows.len() && #[trigger] rows[c].len() == 0) ==> empty_score <= threshold,
    ensures
        place(cs, item, false, rows, empty_score, threshold) == cs.push(seq![item]),
{
    if rows.len() > 0 {
        let scores = cluster_scores(rows, empty_score);
        lemma_last_argmax_is_max(scores);
        let b = last_argmax(scores);
        if rows[b].len() == 0 {
            assert(scores[b] == empty_score);
        } else {
            lemma_seq_max_is_max(rows[b]);
            let q = choose|q: int| 0 <= q < rows[b].len() && rows[b][q] == seq_max(rows[b]);
            assert(rows[b][q] <= threshold);
        }
    }
}

/// While `cluster_data` groups values, a value that is in no cluster yet and
/// scores above the threshold against some member of some cluster joins an
/// existing cluster: one holding a member against which it scores at least
/// as high as against any member of any cluster.
pub proof fn lemma_grouped_value_joins_matching_cluster<V>(
    vals: Seq<V>,
    scores: Seq<Seq<u64>>,
    threshold: u64,
    k: nat,
    c: int,
    p: int,
)
    requires
        k < vals.len(),
        0 <= c < greedy_indices(vals, scores, threshold, k).len(),
        0 <= p < greedy_indices(vals, scores, threshold, k)[c].len(),
        scores[k as int][greedy_indices(vals, scores, threshold, k)[c][p]] > threshold,
        !set_contains(member_views(greedy_indices(vals, scores, threshold, k), vals), vals[k as int]),
    ensures
        ({
            let prev = greedy_indices(vals, scores, threshold, k);
            exists|b: int, q: int|
                #![trigger prev[b][q]]
                {
                    &&& 0 <= b < prev.len()
                    &&& 0 <= q < prev[b].len()
                    &&& greedy_indices(vals, scores, threshold, k + 1) == prev.update(b, prev[b].push(k as int))
                    &&& forall|c2: int, p2: int|
                        0 <= c2 < prev.len() && 0 <= p2 < prev[c2].len() ==> #[trigger] scores[k as int][prev[c2][p2]]
                            <= scores[k as int][prev[b][q]]
                }
        }),
{
    let prev = greedy_indices(vals, scores, threshold, k);
    let rows = member_rows(prev, scores[k as int]);
    assert(greedy_indices(vals, scores, threshold, k + 1) == place(prev, k as int, false, rows, 0, threshold));
    assert(rows[c][p] == scores[k as int][prev[c][p]]);
    let (b, s) = lemma_place_joins_best_scoring_cluster(prev, k as int, rows, 0, threshold, c, p);
    assert(rows[c][p] <= s);
    assert(rows[b].len() > 0);
    let q = choose|q: int| 0 <= q < rows[b].len() && rows[b][q] == s;
    assert(rows[b][q] == scores[k as int][prev[b][q]]);
    assert forall|c2: int, p2: int|
        0 <= c2 < prev.len() && 0 <= p2 < prev[c2].len() implies #[trigger] scores[k as int][prev[c2][p2]]
            <= scores[k as int][prev[b][q]] by {
        assert(rows[c2][p2] == scores[k as int][prev[c2][p2]]);
    }
}

/// While `cluster_data` groups values, a value that is in no cluster yet and
/// scores at most the threshold against every member of every cluster
/// starts a new cluster of its own.
pub proof fn lemma_grouped_value_starts_cluster<V>(
    vals: Seq<V>,
    scores: Seq<Seq<u64>>,
    threshold: u64,
    k: nat,
)
    requires
        k < vals.len(),
        forall|c: int, p: int|
            0 <= c < greedy_indices(vals, scores, threshold, k).len()
                && 0 <= p < greedy_indices(vals, scores, threshold, k)[c].len()
                ==> #[trigger] scores[k as int][greedy_indices(vals, scores, threshold, k)[c][p]] <= threshold,
        !set_contains(member_views(greedy_indices(vals, scores, threshold, k), vals), vals[k as int]),
    ensures
        greedy_indices(vals, scores, threshold, k + 1) == greedy_indices(vals, scores, threshold, k).push(
            seq![k as int],
        ),
{
    let prev = greedy_indices(vals, scores, threshold, k);
    let rows = member_rows(prev, scores[k as int]);
    assert(greedy_indices(vals, scores, threshold, k + 1) == place(prev, k as int, false, rows, 0, threshold));
    assert forall|c: int, p: int| 0 <= c < rows.len() && 0 <= p < rows[c].len() implies #[trigger] rows[c][p] <= threshold by {
        assert(rows[c][p] == scores[k as int][prev[c][p]]);
    }
    lemma_place_starts_cluster_when_nothing_matches(prev, k as int, rows, 0, threshold);
}

} // verus!

