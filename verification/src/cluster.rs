//! Greedy nearest-pair spatial clustering over 3-D integer points.
//!
//! Points are fused pairwise in ascending order of squared Euclidean
//! distance (ties broken by pair-generation order) up to an edge budget,
//! by a size-biased union of clusters. The cluster store is modelled by
//! an ownership map (point index to cluster id), per-id member counts and
//! the count of active (non-empty) clusters; every operation is pinned to
//! a spec-level model of that state.

use vstd::prelude::*;
use crate::parsing::{
    int_str_val, is_int_str, parse_i64, seq_views, spec_lines, spec_split, split_bytes,
    split_lines,
};

verus! {

/// Largest coordinate magnitude the engine accepts, so that squared
/// distances and coordinate products stay inside `i64`.
pub const COORD_LIMIT: i64 = 100_000_000;

/// Largest point count the bounded-budget summary accepts, so that a
/// product of three cluster sizes stays inside `i64`.
pub const MAX_POINTS: usize = 2_000_000;

/// Edge budget of the bounded-budget summary mode.
pub const SUMMARY_BUDGET: usize = 1_000;

/// Edge budget of the full-connectivity search mode.
pub const FULL_BUDGET: usize = 1_000_000;

/// Failure conditions of the clustering engine.
#[derive(Clone, Copy, PartialEq, Eq, Structural, Debug)]
pub enum SolveError {
    /// A line of the input did not parse as three in-range integers.
    MalformedInput,
    /// Fewer than three clusters were active after the budget was consumed.
    InsufficientClusters,
    /// The budget ran out before full connectivity was reached.
    BudgetExceeded,
}

/// An immutable 3-D integer point, identified by its input position.
#[derive(Clone, Copy, PartialEq, Eq, Structural, Debug)]
pub struct Point {
    pub x: i64,
    pub y: i64,
    pub z: i64,
}

/// An unordered candidate pair: squared distance and the two point
/// indices, with `a < b` by generation.
#[derive(Clone, Copy, PartialEq, Eq, Structural, Debug)]
pub struct Edge {
    pub d2: i64,
    pub a: usize,
    pub b: usize,
}

pub open spec fn point_ok(p: Point) -> bool {
    &&& -COORD_LIMIT <= p.x <= COORD_LIMIT
    &&& -COORD_LIMIT <= p.y <= COORD_LIMIT
    &&& -COORD_LIMIT <= p.z <= COORD_LIMIT
}

pub open spec fn points_ok(pts: Seq<Point>) -> bool {
    forall|i: int| 0 <= i < pts.len() ==> point_ok(#[trigger] pts[i])
}

pub open spec fn sq(x: int) -> int {
    x * x
}

/// Squared Euclidean distance between two points.
pub open spec fn spec_dist2(a: Point, b: Point) -> int {
    sq(a.x - b.x) + sq(a.y - b.y) + sq(a.z - b.z)
}

// ---------------------------------------------------------------------------
// Counting helpers over the ownership map and the size table.
// ---------------------------------------------------------------------------

/// How many points the ownership map assigns to cluster `c`.
pub open spec fn count_of(s: Seq<usize>, c: int) -> int
    decreases s.len(),
{
    if s.len() == 0 {
        0
    } else {
        count_of(s.drop_last(), c) + if s.last() as int == c {
            1int
        } else {
            0int
        }
    }
}

/// How many entries of the size table are positive: the active clusters.
pub open spec fn count_pos(s: Seq<int>) -> int
    decreases s.len(),
{
    if s.len() == 0 {
        0
    } else {
        count_pos(s.drop_last()) + if s.last() > 0 {
            1int
        } else {
            0int
        }
    }
}

/// The positive entries of the size table, in index order: the sizes of
/// the active clusters.
pub open spec fn positives(s: Seq<int>) -> Seq<int>
    decreases s.len(),
{
    if s.len() == 0 {
        Seq::<int>::empty()
    } else if s.last() > 0 {
        positives(s.drop_last()).push(s.last())
    } else {
        positives(s.drop_last())
    }
}

/// Every point of cluster `drop` re-owned to cluster `keep`.
pub open spec fn retarget(s: Seq<usize>, drop: usize, keep: usize) -> Seq<usize> {
    s.map_values(
        |c: usize|
            if c == drop {
                keep
            } else {
                c
            },
    )
}

pub proof fn lemma_count_of_le_len(s: Seq<usize>, c: int)
    ensures
        0 <= count_of(s, c) <= s.len(),
    decreases s.len(),
{
    if s.len() > 0 {
        lemma_count_of_le_len(s.drop_last(), c);
    }
}

/// Two distinct clusters together own at most all the points.
pub proof fn lemma_count_of_two(s: Seq<usize>, a: int, b: int)
    requires
        a != b,
    ensures
        count_of(s, a) + count_of(s, b) <= s.len(),
    decreases s.len(),
{
    if s.len() > 0 {
        lemma_count_of_two(s.drop_last(), a, b);
        lemma_count_of_le_len(s.drop_last(), a);
        lemma_count_of_le_len(s.drop_last(), b);
    }
}

/// The cluster owning any point has at least one member.
pub proof fn lemma_count_of_member(s: Seq<usize>, p: int)
    requires
        0 <= p < s.len(),
    ensures
        count_of(s, s[p] as int) >= 1,
    decreases s.len(),
{
    lemma_count_of_le_len(s.drop_last(), s[p] as int);
    if p < s.len() - 1 {
        assert(s.drop_last()[p] == s[p]);
        lemma_count_of_member(s.drop_last(), p);
    }
}

pub proof fn lemma_count_retarget(s: Seq<usize>, drop: usize, keep: usize, c: int)
    requires
        drop != keep,
    ensures
        count_of(retarget(s, drop, keep), c) == if c == keep as int {
            count_of(s, keep as int) + count_of(s, drop as int)
        } else if c == drop as int {
            0int
        } else {
            count_of(s, c)
        },
    decreases s.len(),
{
    if s.len() == 0 {
        assert(retarget(s, drop, keep) =~= Seq::<usize>::empty());
    } else {
        lemma_count_retarget(s.drop_last(), drop, keep, c);
        assert(retarget(s, drop, keep).drop_last() =~= retarget(s.drop_last(), drop, keep));
        assert(retarget(s, drop, keep).last() == (if s.last() == drop {
            keep
        } else {
            s.last()
        }));
    }
}

pub proof fn lemma_count_pos_update(s: Seq<int>, i: int, v: int)
    requires
        0 <= i < s.len(),
    ensures
        count_pos(s.update(i, v)) == count_pos(s) - (if s[i] > 0 {
            1int
        } else {
            0int
        }) + (if v > 0 {
            1int
        } else {
            0int
        }),
    decreases s.len(),
{
    let t = s.update(i, v);
    if i == s.len() - 1 {
        assert(t.drop_last() =~= s.drop_last());
        assert(t.last() == v);
    } else {
        assert(t.drop_last() =~= s.drop_last().update(i, v));
        assert(t.last() == s.last());
        lemma_count_pos_update(s.drop_last(), i, v);
    }
}

pub proof fn lemma_count_pos_at(s: Seq<int>, i: int)
    requires
        0 <= i < s.len(),
        s[i] > 0,
    ensures
        count_pos(s) >= 1,
    decreases s.len(),
{
    if i < s.len() - 1 {
        assert(s.drop_last()[i] == s[i]);
        lemma_count_pos_at(s.drop_last(), i);
    } else {
        lemma_count_pos_nonneg(s.drop_last());
    }
}

pub proof fn lemma_count_pos_nonneg(s: Seq<int>)
    ensures
        count_pos(s) >= 0,
    decreases s.len(),
{
    if s.len() > 0 {
        lemma_count_pos_nonneg(s.drop_last());
    }
}

/// `count_pos` counts exactly the entries that `positives` keeps.
pub proof fn lemma_positives_len(s: Seq<int>)
    ensures
        positives(s).len() == count_pos(s),
    decreases s.len(),
{
    if s.len() > 0 {
        lemma_positives_len(s.drop_last());
    }
}

pub proof fn lemma_positives_bounded(s: Seq<int>, bound: int)
    requires
        forall|i: int| 0 <= i < s.len() ==> #[trigger] s[i] <= bound,
    ensures
        forall|j: int| 0 <= j < positives(s).len() ==> 0 < #[trigger] positives(s)[j] <= bound,
    decreases s.len(),
{
    if s.len() > 0 {
        assert(forall|i: int|
            0 <= i < s.drop_last().len() ==> #[trigger] s.drop_last()[i] <= bound);
        lemma_positives_bounded(s.drop_last(), bound);
        if s.last() > 0 {
            let p = positives(s.drop_last());
            assert(s.last() <= bound);
            assert(positives(s) == p.push(s.last()));
            assert(forall|j: int|
                0 <= j < p.len() ==> #[trigger] p.push(s.last())[j] == p[j]);
        }
    }
}

pub proof fn lemma_count_identity(n: int, c: int)
    requires
        0 <= n <= usize::MAX,
    ensures
        count_of(Seq::new(n as nat, |i: int| i as usize), c) == if 0 <= c < n {
            1int
        } else {
            0int
        },
    decreases n,
{
    if n > 0 {
        let s = Seq::new(n as nat, |i: int| i as usize);
        assert(s.drop_last() =~= Seq::new((n - 1) as nat, |i: int| i as usize));
        assert(s.last() == (n - 1) as usize);
        lemma_count_identity(n - 1, c);
    }
}

pub proof fn lemma_count_pos_ones(n: int)
    requires
        0 <= n,
    ensures
        count_pos(Seq::new(n as nat, |i: int| 1int)) == n,
    decreases n,
{
    if n > 0 {
        let s = Seq::new(n as nat, |i: int| 1int);
        assert(s.drop_last() =~= Seq::new((n - 1) as nat, |i: int| 1int));
        lemma_count_pos_ones(n - 1);
    }
}

// ---------------------------------------------------------------------------
// The spec-level model of the cluster store, and merging on it.
// ---------------------------------------------------------------------------

/// Ghost model of the store: ownership map, member count per cluster id,
/// and the number of active clusters.
pub struct Model {
    pub owner: Seq<usize>,
    pub csize: Seq<int>,
    pub active: int,
}

/// Well-formedness: the ownership map is total over the points, every id
/// in range; the size table records exactly how many points each id owns;
/// the active count is the number of non-empty clusters. Together these
/// say the clusters partition the point set.
pub open spec fn model_wf(m: Model) -> bool {
    &&& m.csize.len() == m.owner.len()
    &&& forall|p: int| 0 <= p < m.owner.len() ==> (#[trigger] m.owner[p]) < m.owner.len()
    &&& forall|c: int|
        0 <= c < m.csize.len() ==> #[trigger] m.csize[c] == count_of(m.owner, c)
    &&& m.active == count_pos(m.csize)
}

/// A cluster id that currently owns at least one point.
pub open spec fn valid_live_cluster(m: Model, c: usize) -> bool {
    (c as int) < m.csize.len() && m.csize[c as int] > 0
}

/// The id that survives a merge: the larger cluster, ties favouring the
/// first-named id.
pub open spec fn spec_survivor(m: Model, ca: usize, cb: usize) -> usize {
    if ca == cb {
        ca
    } else if m.csize[ca as int] >= m.csize[cb as int] {
        ca
    } else {
        cb
    }
}

/// Merging two clusters: a no-op when they are the same; otherwise the
/// smaller is absorbed into the larger, its points re-owned, its size
/// moved, and the active count drops by exactly one.
pub open spec fn spec_merge(m: Model, ca: usize, cb: usize) -> Model {
    if ca == cb {
        m
    } else {
        let keep = spec_survivor(m, ca, cb);
        let dropped = if keep == ca {
            cb
        } else {
            ca
        };
        Model {
            owner: retarget(m.owner, dropped, keep),
            csize: m.csize.update(keep as int, m.csize[keep as int] + m.csize[dropped as int])
                .update(dropped as int, 0),
            active: m.active - 1,
        }
    }
}

/// Merging preserves well-formedness, keeps the point set fixed, and
/// changes the active count by exactly one on a real merge and not at all
/// on a no-op.
pub proof fn lemma_spec_merge_wf(m: Model, ca: usize, cb: usize)
    requires
        model_wf(m),
        valid_live_cluster(m, ca),
        valid_live_cluster(m, cb),
    ensures
        model_wf(spec_merge(m, ca, cb)),
        spec_merge(m, ca, cb).owner.len() == m.owner.len(),
        spec_merge(m, ca, cb).csize.len() == m.csize.len(),
        ca != cb ==> spec_merge(m, ca, cb).active == m.active - 1,
        ca == cb ==> spec_merge(m, ca, cb) == m,
        valid_live_cluster(spec_merge(m, ca, cb), spec_survivor(m, ca, cb)),
{
    if ca != cb {
        let keep = spec_survivor(m, ca, cb);
        let dropped = if keep == ca {
            cb
        } else {
            ca
        };
        let m2 = spec_merge(m, ca, cb);
        assert forall|c: int| 0 <= c < m2.csize.len() implies #[trigger] m2.csize[c] == count_of(
            m2.owner,
            c,
        ) by {
            lemma_count_retarget(m.owner, dropped, keep, c);
        }
        lemma_count_pos_update(m.csize, keep as int, m.csize[keep as int] + m.csize[dropped as int]);
        lemma_count_pos_update(
            m.csize.update(keep as int, m.csize[keep as int] + m.csize[dropped as int]),
            dropped as int,
            0,
        );
    }
}

/// Law: merging is idempotent under repetition. After clusters `ca` and
/// `cb` are merged, every point that belonged to either now finds the one
/// surviving cluster, so presenting the same pair again asks to merge a
/// cluster with itself, which is the no-op case of `spec_merge` and
/// leaves the state, in particular the active count, unchanged.
pub proof fn lemma_merge_idempotent(m: Model, ca: usize, cb: usize, p: int, q: int)
    requires
        model_wf(m),
        valid_live_cluster(m, ca),
        valid_live_cluster(m, cb),
        0 <= p < m.owner.len(),
        0 <= q < m.owner.len(),
        m.owner[p] == ca || m.owner[p] == cb,
        m.owner[q] == ca || m.owner[q] == cb,
    ensures
        spec_merge(m, ca, cb).owner[p] == spec_merge(m, ca, cb).owner[q],
        spec_merge(spec_merge(m, ca, cb), spec_merge(m, ca, cb).owner[p], spec_merge(m, ca, cb).owner[q])
            == spec_merge(m, ca, cb),
        spec_merge(spec_merge(m, ca, cb), spec_merge(m, ca, cb).owner[p], spec_merge(m, ca, cb).owner[q]).active
            == spec_merge(m, ca, cb).active,
{
}

// ---------------------------------------------------------------------------
// The executable cluster store.
// ---------------------------------------------------------------------------

/// Union-find style cluster store: ownership map, member count per
/// cluster id, and the count of active clusters.
pub struct ClusterStore {
    pub owner: Vec<usize>,
    pub csize: Vec<usize>,
    pub active: usize,
}

impl ClusterStore {
    /// The spec-level model of this store.
    pub open spec fn model(self) -> Model {
        Model {
            owner: self.owner@,
            csize: self.csize@.map_values(|x: usize| x as int),
            active: self.active as int,
        }
    }

    pub open spec fn wf(self) -> bool {
        model_wf(self.model())
    }

    pub open spec fn n(self) -> int {
        self.owner@.len() as int
    }

    /// `n` singleton clusters, one per point, all active.
    pub fn new(n: usize) -> (st: ClusterStore)
        ensures
            st.wf(),
            st.n() == n,
            st.model().owner == Seq::new(n as nat, |i: int| i as usize),
            st.model().csize == Seq::new(n as nat, |i: int| 1int),
            st.model().active == n,
    {
        let mut owner: Vec<usize> = Vec::new();
        let mut csize: Vec<usize> = Vec::new();
        let mut p: usize = 0;
        while p < n
            invariant
                p <= n,
                owner@ =~= Seq::new(p as nat, |i: int| i as usize),
                csize@ =~= Seq::new(p as nat, |i: int| 1usize),
            decreases n - p,
        {
            owner.push(p);
            csize.push(1);
            p = p + 1;
        }
        let st = ClusterStore { owner, csize, active: n };
        proof {
            assert(st.model().owner =~= Seq::new(n as nat, |i: int| i as usize));
            assert(st.model().csize =~= Seq::new(n as nat, |i: int| 1int));
            assert forall|c: int| 0 <= c < st.model().csize.len() implies #[trigger] st.model().csize[c]
                == count_of(st.model().owner, c) by {
                lemma_count_identity(n as int, c);
            }
            lemma_count_pos_ones(n as int);
        }
        st
    }

    /// The cluster currently owning point `p`: a single map lookup.
    pub fn find(&self, p: usize) -> (c: usize)
        requires
            self.wf(),
            (p as int) < self.n(),
        ensures
            c == self.model().owner[p as int],
            valid_live_cluster(self.model(), c),
    {
        proof {
            lemma_count_of_member(self.model().owner, p as int);
        }
        self.owner[p]
    }

    /// The number of clusters that still own at least one point.
    pub fn active_cluster_count(&self) -> (r: usize)
        requires
            self.wf(),
        ensures
            r as int == self.model().active,
    {
        self.active
    }

    /// The sizes of all active clusters, in cluster-id order.
    pub fn cluster_sizes(&self) -> (r: Vec<usize>)
        requires
            self.wf(),
        ensures
            r@.map_values(|x: usize| x as int) == positives(self.model().csize),
    {
        let mut r: Vec<usize> = Vec::new();
        let mut c: usize = 0;
        let n = self.csize.len();
        proof {
            assert(self.model().csize.take(0) =~= Seq::<int>::empty());
            assert(r@.map_values(|x: usize| x as int) =~= positives(self.model().csize.take(0)));
        }
        while c < n
            invariant
                c <= n,
                n == self.csize@.len(),
                self.wf(),
                r@.map_values(|x: usize| x as int) == positives(self.model().csize.take(c as int)),
            decreases n - c,
        {
            let ghost pre = self.model().csize.take(c as int);
            proof {
                assert(self.model().csize.take(c as int + 1).drop_last() =~= pre);
                assert(self.model().csize.take(c as int + 1).last() == self.model().csize[c as int]);
            }
            if self.csize[c] > 0 {
                let ghost oldr = r@;
                r.push(self.csize[c]);
                proof {
                    assert(r@.map_values(|x: usize| x as int) =~= oldr.map_values(|x: usize| x as int)
                        .push(self.model().csize[c as int]));
                }
            }
            c = c + 1;
        }
        proof {
            assert(self.model().csize.take(n as int) =~= self.model().csize);
        }
        r
    }

    /// Merges the clusters `ca` and `cb`: a no-op when equal, otherwise
    /// the smaller is absorbed into the larger and the active count drops
    /// by one. Returns the surviving cluster id.
    pub fn merge(&mut self, ca: usize, cb: usize) -> (surv: usize)
        requires
            old(self).wf(),
            valid_live_cluster(old(self).model(), ca),
            valid_live_cluster(old(self).model(), cb),
        ensures
            final(self).wf(),
            final(self).model() == spec_merge(old(self).model(), ca, cb),
            surv == spec_survivor(old(self).model(), ca, cb),
            final(self).n() == old(self).n(),
    {
        proof {
            lemma_spec_merge_wf(old(self).model(), ca, cb);
        }
        if ca == cb {
            return ca;
        }
        let keep: usize = if self.csize[ca] >= self.csize[cb] {
            ca
        } else {
            cb
        };
        let dropped: usize = if keep == ca {
            cb
        } else {
            ca
        };
        let n = self.owner.len();
        let ghost old_owner = self.owner@;
        let mut j: usize = 0;
        while j < n
            invariant
                j <= n,
                n == self.owner@.len(),
                self.csize@ == old(self).csize@,
                self.active == old(self).active,
                forall|p: int|
                    0 <= p < j ==> #[trigger] self.owner@[p] == (if old_owner[p] == dropped {
                        keep
                    } else {
                        old_owner[p]
                    }),
                forall|p: int| j <= p < n ==> #[trigger] self.owner@[p] == old_owner[p],
            decreases n - j,
        {
            if self.owner[j] == dropped {
                self.owner.set(j, keep);
            }
            j = j + 1;
        }
        proof {
            assert(self.owner@ =~= retarget(old_owner, dropped, keep));
            lemma_count_of_two(old_owner, keep as int, dropped as int);
        }
        let sk = self.csize[keep];
        let sd = self.csize[dropped];
        self.csize.set(keep, sk + sd);
        self.csize.set(dropped, 0);
        proof {
            lemma_count_pos_at(old(self).model().csize, keep as int);
        }
        self.active = self.active - 1;
        proof {
            assert(self.model().csize =~= old(self).model().csize.update(
                keep as int,
                old(self).model().csize[keep as int] + old(self).model().csize[dropped as int],
            ).update(dropped as int, 0));
            assert(self.model() == spec_merge(old(self).model(), ca, cb));
        }
        keep
    }
}

// ---------------------------------------------------------------------------
// The driver model: processing a ranked edge list through the store.
// ---------------------------------------------------------------------------

pub open spec fn edges_valid(edges: Seq<Edge>, n: int) -> bool {
    forall|k: int|
        0 <= k < edges.len() ==> ((#[trigger] edges[k]).a as int) < n && (edges[k].b as int) < n
}

/// The initial store model: one singleton cluster per point.
pub open spec fn init_model(n: int) -> Model {
    Model {
        owner: Seq::new(n as nat, |i: int| i as usize),
        csize: Seq::new(n as nat, |i: int| 1int),
        active: n,
    }
}

pub proof fn lemma_init_model_wf(n: int)
    requires
        0 <= n <= usize::MAX,
    ensures
        model_wf(init_model(n)),
        init_model(n).owner.len() == n,
        init_model(n).csize.len() == n,
{
    let m = init_model(n);
    assert forall|c: int| 0 <= c < m.csize.len() implies #[trigger] m.csize[c] == count_of(
        m.owner,
        c,
    ) by {
        lemma_count_identity(n, c);
    }
    lemma_count_pos_ones(n);
}

/// The store model after the first `k` ranked edges have been processed:
/// each edge merges the clusters currently owning its two endpoints (a
/// no-op when they already share one).
pub open spec fn drive(m: Model, edges: Seq<Edge>, k: int) -> Model
    decreases k,
{
    if k <= 0 {
        m
    } else {
        let prev = drive(m, edges, k - 1);
        spec_merge(prev, prev.owner[edges[k - 1].a as int], prev.owner[edges[k - 1].b as int])
    }
}

/// Law: after any prefix of the ranked edge list the ownership map is
/// still a valid partition of the points — every point owned by a live
/// in-range cluster, the size table counting members exactly, and the
/// active count equal to the number of non-empty clusters.
pub proof fn lemma_drive_wf(m: Model, edges: Seq<Edge>, k: int)
    requires
        model_wf(m),
        edges_valid(edges, m.owner.len() as int),
        0 <= k <= edges.len(),
    ensures
        model_wf(drive(m, edges, k)),
        drive(m, edges, k).owner.len() == m.owner.len(),
        drive(m, edges, k).csize.len() == m.csize.len(),
    decreases k,
{
    if k > 0 {
        lemma_drive_wf(m, edges, k - 1);
        let prev = drive(m, edges, k - 1);
        let e = edges[k - 1];
        lemma_count_of_member(prev.owner, e.a as int);
        lemma_count_of_member(prev.owner, e.b as int);
        lemma_spec_merge_wf(prev, prev.owner[e.a as int], prev.owner[e.b as int]);
    }
}

/// Law: in a well-formed store the clusters are a valid partition of
/// the point set — the ownership map is total over the points, every
/// point's cluster is live, and the size table counts that cluster's
/// members exactly, so no point is missing or double-counted.
pub proof fn lemma_partition_valid(m: Model, p: int)
    requires
        model_wf(m),
        0 <= p < m.owner.len(),
    ensures
        valid_live_cluster(m, m.owner[p]),
        m.csize[m.owner[p] as int] == count_of(m.owner, m.owner[p] as int),
        count_of(m.owner, m.owner[p] as int) >= 1,
{
    lemma_count_of_member(m.owner, p);
}

/// Law: the active-cluster count is monotonically non-increasing over
/// the run, and each processed edge lowers it by exactly one (when its
/// endpoints were in different clusters) or not at all (when the edge
/// was a wasted attempt within one cluster).
pub proof fn lemma_drive_active_monotone(m: Model, edges: Seq<Edge>, j: int, k: int)
    requires
        model_wf(m),
        edges_valid(edges, m.owner.len() as int),
        0 <= j <= k <= edges.len(),
    ensures
        drive(m, edges, k).active <= drive(m, edges, j).active,
        drive(m, edges, j).active - drive(m, edges, k).active <= k - j,
    decreases k - j,
{
    if j < k {
        lemma_drive_active_monotone(m, edges, j, k - 1);
        lemma_drive_wf(m, edges, k - 1);
        let prev = drive(m, edges, k - 1);
        let e = edges[k - 1];
        lemma_count_of_member(prev.owner, e.a as int);
        lemma_count_of_member(prev.owner, e.b as int);
        lemma_spec_merge_wf(prev, prev.owner[e.a as int], prev.owner[e.b as int]);
    }
}

// ---------------------------------------------------------------------------
// Pairwise distance generation and edge ranking.
// ---------------------------------------------------------------------------

pub proof fn lemma_sq_bound(d: int)
    requires
        -200_000_000 <= d <= 200_000_000,
    ensures
        0 <= sq(d) <= 40_000_000_000_000_000,
{
    assert(0 <= d * d <= 40_000_000_000_000_000) by (nonlinear_arith)
        requires
            -200_000_000 <= d <= 200_000_000,
    ;
}

/// Squared Euclidean distance between two bounded points; integer
/// arithmetic only, no square root.
pub fn dist2(a: Point, b: Point) -> (r: i64)
    requires
        point_ok(a),
        point_ok(b),
    ensures
        r as int == spec_dist2(a, b),
        r >= 0,
{
    proof {
        lemma_sq_bound(a.x - b.x);
        lemma_sq_bound(a.y - b.y);
        lemma_sq_bound(a.z - b.z);
    }
    let dx = a.x - b.x;
    let dy = a.y - b.y;
    let dz = a.z - b.z;
    dx * dx + dy * dy + dz * dz
}

pub open spec fn mk_edge(pts: Seq<Point>, i: int, j: int) -> Edge {
    Edge { d2: spec_dist2(pts[i], pts[j]) as i64, a: i as usize, b: j as usize }
}

/// The candidate edges (i, j), (i, j+1), ..., (i, n-1), in order.
pub open spec fn edges_row(pts: Seq<Point>, i: int, j: int) -> Seq<Edge>
    decreases pts.len() - j,
{
    if j < 0 || j >= pts.len() {
        Seq::<Edge>::empty()
    } else {
        seq![mk_edge(pts, i, j)] + edges_row(pts, i, j + 1)
    }
}

pub open spec fn edges_from(pts: Seq<Point>, i: int) -> Seq<Edge>
    decreases pts.len() - i,
{
    if i < 0 || i >= pts.len() {
        Seq::<Edge>::empty()
    } else {
        edges_row(pts, i, i + 1) + edges_from(pts, i + 1)
    }
}

/// All unordered point pairs with their squared distances, in generation
/// order: outer loop over the first index, inner over the larger second.
pub open spec fn all_edges(pts: Seq<Point>) -> Seq<Edge> {
    edges_from(pts, 0)
}

pub proof fn lemma_edges_row_valid(pts: Seq<Point>, i: int, j: int)
    requires
        0 <= i < pts.len(),
        pts.len() <= usize::MAX,
        i < j,
    ensures
        edges_valid(edges_row(pts, i, j), pts.len() as int),
        forall|k: int|
            0 <= k < edges_row(pts, i, j).len() ==> ((#[trigger] edges_row(pts, i, j)[k]).a as int)
                == i && (edges_row(pts, i, j)[k].b as int) > i,
    decreases pts.len() - j,
{
    if 0 <= j < pts.len() {
        lemma_edges_row_valid(pts, i, j + 1);
    }
}

pub proof fn lemma_edges_from_valid(pts: Seq<Point>, i: int)
    requires
        0 <= i,
        pts.len() <= usize::MAX,
    ensures
        edges_valid(edges_from(pts, i), pts.len() as int),
    decreases pts.len() - i,
{
    if i < pts.len() {
        lemma_edges_row_valid(pts, i, i + 1);
        lemma_edges_from_valid(pts, i + 1);
    }
}

/// A permutation of a valid edge list is valid.
pub proof fn lemma_perm_valid(a: Seq<Edge>, b: Seq<Edge>, n: int)
    requires
        edges_valid(a, n),
        b.to_multiset() == a.to_multiset(),
    ensures
        edges_valid(b, n),
{
    broadcast use vstd::seq_lib::group_to_multiset_ensures;

    assert forall|k: int| 0 <= k < b.len() implies ((#[trigger] b[k]).a as int) < n && (b[k].b
        as int) < n by {
        assert(b.to_multiset().contains(b[k]));
        assert(a.contains(b[k]));
    }
}

/// The ranking order: ascending squared distance, ties broken by the
/// generation order of the pair (first index, then second).
pub open spec fn edge_le(x: Edge, y: Edge) -> bool {
    ||| x.d2 < y.d2
    ||| (x.d2 == y.d2 && (x.a < y.a || (x.a == y.a && x.b <= y.b)))
}

pub open spec fn edge_leq() -> spec_fn(Edge, Edge) -> bool {
    |x: Edge, y: Edge| edge_le(x, y)
}

pub proof fn lemma_edge_le_total()
    ensures
        vstd::relations::total_ordering(edge_leq()),
{
}

/// The ranked edge list: the unique ascending ordering of the candidate
/// pairs. Sortedness plus permutation pins it completely, because no two
/// candidates share distance and both indices; this is the same list a
/// stable sort on distance alone produces, since the candidates are
/// generated in index order.
pub open spec fn ranked_edges(pts: Seq<Point>) -> Seq<Edge> {
    all_edges(pts).sort_by(edge_leq())
}

/// Law: processing order is deterministic. Any two rankings of the same
/// candidate list that satisfy the ranking contract — sorted by the
/// ranking order and a permutation of the candidates — are equal, so two
/// runs over the same input and budget present the same edges in the
/// same order and perform the same merges.
pub proof fn lemma_ranking_deterministic(base: Seq<Edge>, r1: Seq<Edge>, r2: Seq<Edge>)
    requires
        vstd::relations::sorted_by(r1, edge_leq()),
        r1.to_multiset() == base.to_multiset(),
        vstd::relations::sorted_by(r2, edge_leq()),
        r2.to_multiset() == base.to_multiset(),
    ensures
        r1 == r2,
{
    lemma_edge_le_total();
    vstd::seq_lib::lemma_sorted_unique(r1, r2, edge_leq());
    assert(r1 =~= r2);
}

fn edge_le_exec(x: &Edge, y: &Edge) -> (r: bool)
    ensures
        r == edge_le(*x, *y),
{
    if x.d2 != y.d2 {
        x.d2 < y.d2
    } else if x.a != y.a {
        x.a < y.a
    } else {
        x.b <= y.b
    }
}

/// Generates every unordered pair of distinct points with its squared
/// distance, in index order (i before j, smaller i first).
pub fn gen_edges(pts: &Vec<Point>) -> (r: Vec<Edge>)
    requires
        points_ok(pts@),
    ensures
        r@ == all_edges(pts@),
{
    let n = pts.len();
    let mut r: Vec<Edge> = Vec::new();
    let mut i: usize = 0;
    proof {
        assert(r@ + edges_from(pts@, 0) =~= edges_from(pts@, 0));
    }
    while i < n
        invariant
            i <= n,
            n == pts@.len(),
            points_ok(pts@),
            r@ + edges_from(pts@, i as int) == all_edges(pts@),
        decreases n - i,
    {
        let mut j: usize = i + 1;
        proof {
            assert(edges_from(pts@, i as int) =~= edges_row(pts@, i as int, i as int + 1)
                + edges_from(pts@, i as int + 1));
            assert((r@ + edges_row(pts@, i as int, i as int + 1)) + edges_from(pts@, i as int + 1)
                =~= r@ + edges_from(pts@, i as int));
        }
        while j < n
            invariant
                i < j,
                j <= n,
                i < n,
                n == pts@.len(),
                points_ok(pts@),
                (r@ + edges_row(pts@, i as int, j as int)) + edges_from(pts@, i as int + 1)
                    == all_edges(pts@),
            decreases n - j,
        {
            let e = Edge { d2: dist2(pts[i], pts[j]), a: i, b: j };
            proof {
                assert(e == mk_edge(pts@, i as int, j as int));
                assert(edges_row(pts@, i as int, j as int) =~= seq![mk_edge(pts@, i as int, j as int)]
                    + edges_row(pts@, i as int, j as int + 1));
            }
            let ghost r0 = r@;
            r.push(e);
            proof {
                assert((r@ + edges_row(pts@, i as int, j as int + 1)) + edges_from(
                    pts@,
                    i as int + 1,
                ) =~= (r0 + edges_row(pts@, i as int, j as int)) + edges_from(pts@, i as int + 1));
            }
            j = j + 1;
        }
        proof {
            assert(edges_row(pts@, i as int, n as int) =~= Seq::<Edge>::empty());
            assert(r@ + edges_from(pts@, i as int + 1) =~= (r@ + edges_row(pts@, i as int, n as int))
                + edges_from(pts@, i as int + 1));
        }
        i = i + 1;
    }
    proof {
        assert(edges_from(pts@, n as int) =~= Seq::<Edge>::empty());
        assert(r@ =~= r@ + edges_from(pts@, n as int));
    }
    r
}

fn edge_insert_pos(r: &Vec<Edge>, e: &Edge) -> (p: usize)
    ensures
        p <= r@.len(),
        forall|q: int| 0 <= q < p ==> edge_le(#[trigger] r@[q], *e),
        (p as int) < r@.len() ==> !edge_le(r@[p as int], *e),
{
    let mut p: usize = 0;
    while p < r.len()
        invariant
            p <= r@.len(),
            forall|q: int| 0 <= q < p ==> edge_le(#[trigger] r@[q], *e),
        decreases r@.len() - p,
    {
        if !edge_le_exec(&r[p], e) {
            return p;
        }
        p = p + 1;
    }
    p
}

/// Sorts the candidate edges ascending by the ranking order. Together
/// with the permutation clause this pins the result: it is the stable
/// distance ordering with generation-order tie-break.
pub fn rank_edges(edges: &Vec<Edge>) -> (r: Vec<Edge>)
    ensures
        vstd::relations::sorted_by(r@, edge_leq()),
        r@.to_multiset() == edges@.to_multiset(),
{
    broadcast use vstd::seq_lib::group_to_multiset_ensures;

    let n = edges.len();
    let mut r: Vec<Edge> = Vec::new();
    let mut i: usize = 0;
    proof {
        assert(edges@.take(0) =~= Seq::<Edge>::empty());
        assert(r@.to_multiset() =~= edges@.take(0).to_multiset());
    }
    while i < n
        invariant
            i <= n,
            n == edges@.len(),
            vstd::relations::sorted_by(r@, edge_leq()),
            r@.to_multiset() == edges@.take(i as int).to_multiset(),
        decreases n - i,
    {
        let e = edges[i];
        let p = edge_insert_pos(&r, &e);
        let ghost r0 = r@;
        r.insert(p, e);
        proof {
            let r1 = r0.insert(p as int, e);
            assert(r@ == r1);
            assert(r1 =~= r0.take(p as int).push(e) + r0.skip(p as int));
            assert(forall|k: int| 0 <= k < p ==> r1[k] == r0[k]);
            assert(r1[p as int] == e);
            assert(forall|k: int| p < k < r1.len() ==> r1[k] == r0[k - 1]);
            assert forall|u: int, v: int| 0 <= u < v < r1.len() implies edge_leq()(r1[u], r1[v]) by {
                if v < p as int {
                    assert(edge_leq()(r0[u], r0[v]));
                } else if u < p as int && v == p as int {
                    assert(edge_le(r0[u], e));
                } else if u < p as int && v > p as int {
                    if u < v - 1 {
                        assert(edge_leq()(r0[u], r0[v - 1]));
                    }
                    assert(edge_le(r0[u], e));
                    assert(!edge_le(r0[p as int], e));
                    assert(edge_leq()(r0[p as int], r0[v - 1]) || p as int == v - 1);
                } else if u == p as int {
                    assert(!edge_le(r0[p as int], e));
                    if (p as int) < v - 1 {
                        assert(edge_leq()(r0[p as int], r0[v - 1]));
                    }
                } else {
                    assert(edge_leq()(r0[u - 1], r0[v - 1]));
                }
            }
            assert(vstd::relations::sorted_by(r1, edge_leq()));
            assert(edges@.take(i as int + 1) =~= edges@.take(i as int).push(e));
            vstd::seq_lib::to_multiset_insert(r0, p as int, e);
            vstd::seq_lib::to_multiset_build(edges@.take(i as int), e);
            assert(r1.to_multiset() =~= r0.to_multiset().insert(e));
            assert(edges@.take(i as int + 1).to_multiset() =~= edges@.take(
                i as int,
            ).to_multiset().insert(e));
        }
        i = i + 1;
    }
    proof {
        assert(edges@.take(n as int) =~= edges@);
    }
    r
}

// ---------------------------------------------------------------------------
// Sorting the final cluster sizes.
// ---------------------------------------------------------------------------

pub open spec fn int_leq() -> spec_fn(int, int) -> bool {
    |x: int, y: int| x <= y
}

pub open spec fn to_ints(s: Seq<usize>) -> Seq<int> {
    s.map_values(|x: usize| x as int)
}

pub proof fn lemma_int_le_total()
    ensures
        vstd::relations::total_ordering(int_leq()),
{
}

/// The active-cluster sizes in ascending order.
pub open spec fn sorted_sizes(csize: Seq<int>) -> Seq<int> {
    positives(csize).sort_by(int_leq())
}

/// Product of the three largest active-cluster sizes.
pub open spec fn top3_product(csize: Seq<int>) -> int {
    let s = sorted_sizes(csize);
    s[s.len() - 3] * s[s.len() - 2] * s[s.len() - 1]
}

fn usize_insert_pos(r: &Vec<usize>, e: usize) -> (p: usize)
    ensures
        p <= r@.len(),
        forall|q: int| 0 <= q < p ==> (#[trigger] r@[q]) <= e,
        (p as int) < r@.len() ==> !(r@[p as int] <= e),
{
    let mut p: usize = 0;
    while p < r.len()
        invariant
            p <= r@.len(),
            forall|q: int| 0 <= q < p ==> (#[trigger] r@[q]) <= e,
        decreases r@.len() - p,
    {
        if r[p] > e {
            return p;
        }
        p = p + 1;
    }
    p
}

/// Sorts a list of sizes ascending.
fn sort_usize(v: &Vec<usize>) -> (r: Vec<usize>)
    ensures
        vstd::relations::sorted_by(to_ints(r@), int_leq()),
        to_ints(r@).to_multiset() == to_ints(v@).to_multiset(),
        r@.len() == v@.len(),
{
    broadcast use vstd::seq_lib::group_to_multiset_ensures;

    let n = v.len();
    let mut r: Vec<usize> = Vec::new();
    let mut i: usize = 0;
    proof {
        assert(to_ints(v@.take(0)) =~= Seq::<int>::empty());
        assert(to_ints(r@) =~= Seq::<int>::empty());
        assert(to_ints(r@).to_multiset() =~= to_ints(v@.take(0)).to_multiset());
    }
    while i < n
        invariant
            i <= n,
            n == v@.len(),
            r@.len() == i,
            vstd::relations::sorted_by(to_ints(r@), int_leq()),
            to_ints(r@).to_multiset() == to_ints(v@.take(i as int)).to_multiset(),
        decreases n - i,
    {
        let e = v[i];
        let p = usize_insert_pos(&r, e);
        let ghost r0 = r@;
        r.insert(p, e);
        proof {
            let m0 = to_ints(r0);
            let m1 = to_ints(r0.insert(p as int, e));
            assert(r@ == r0.insert(p as int, e));
            assert(m1 =~= m0.insert(p as int, e as int));
            assert(forall|k: int| 0 <= k < p ==> m1[k] == m0[k]);
            assert(m1[p as int] == e as int);
            assert(forall|k: int| p < k < m1.len() ==> m1[k] == m0[k - 1]);
            assert forall|u: int, x: int| 0 <= u < x < m1.len() implies int_leq()(m1[u], m1[x]) by {
                if x < p as int {
                    assert(int_leq()(m0[u], m0[x]));
                } else if u < p as int && x == p as int {
                    assert(r0[u] <= e);
                } else if u < p as int && x > p as int {
                    if u < x - 1 {
                        assert(int_leq()(m0[u], m0[x - 1]));
                    }
                    assert(r0[u] <= e);
                    assert(!(r0[p as int] <= e));
                } else if u == p as int {
                    assert(!(r0[p as int] <= e));
                    if (p as int) < x - 1 {
                        assert(int_leq()(m0[p as int], m0[x - 1]));
                    }
                } else {
                    assert(int_leq()(m0[u - 1], m0[x - 1]));
                }
            }
            assert(to_ints(v@.take(i as int + 1)) =~= to_ints(v@.take(i as int)).push(e as int));
            vstd::seq_lib::to_multiset_insert(m0, p as int, e as int);
            vstd::seq_lib::to_multiset_build(to_ints(v@.take(i as int)), e as int);
            assert(m1.to_multiset() =~= m0.to_multiset().insert(e as int));
        }
        i = i + 1;
    }
    proof {
        assert(v@.take(n as int) =~= v@);
        assert(to_ints(v@.take(n as int)) =~= to_ints(v@));
    }
    r
}

// ---------------------------------------------------------------------------
// The two driver modes.
// ---------------------------------------------------------------------------

/// What the bounded-budget summary returns: the store is driven through
/// the ranked edges up to the budget; with at least three clusters left
/// the result is the product of the three largest sizes, and otherwise
/// the run is refused.
pub open spec fn summary_spec(pts: Seq<Point>, budget: int, r: Result<i64, SolveError>) -> bool {
    let edges = ranked_edges(pts);
    let limit = if budget <= edges.len() {
        budget
    } else {
        edges.len() as int
    };
    let m = drive(init_model(pts.len() as int), edges, limit);
    match r {
        Ok(v) => m.active >= 3 && v as int == top3_product(m.csize),
        Err(e) => e == SolveError::InsufficientClusters && m.active < 3,
    }
}

/// What the full-connectivity search returns: the first processed edge
/// whose merge leaves a single active cluster yields the product of the
/// x-coordinates of its two endpoints; if the budget runs out first (or
/// there was never more than one point) the search is refused.
pub open spec fn full_spec(pts: Seq<Point>, budget: int, r: Result<i64, SolveError>) -> bool {
    let edges = ranked_edges(pts);
    let limit = if budget <= edges.len() {
        budget
    } else {
        edges.len() as int
    };
    let m0 = init_model(pts.len() as int);
    match r {
        Ok(v) => exists|k: int|
            1 <= k <= limit && (#[trigger] drive(m0, edges, k)).active == 1 && drive(
                m0,
                edges,
                k - 1,
            ).active != 1 && v as int == pts[edges[k - 1].a as int].x * pts[edges[k - 1].b
                as int].x,
        Err(e) => e == SolveError::BudgetExceeded && (pts.len() <= 1 || drive(
            m0,
            edges,
            limit,
        ).active != 1),
    }
}

/// Ranks the candidate edges of `points` and returns them, pinned to the
/// spec-level ranking.
fn ranked_of(points: &Vec<Point>) -> (r: Vec<Edge>)
    requires
        points_ok(points@),
    ensures
        r@ == ranked_edges(points@),
        edges_valid(r@, points@.len() as int),
{
    let n = points.len();
    proof {
        assert(points@.len() == n as int);
    }
    let edges0 = gen_edges(points);
    let re = rank_edges(&edges0);
    proof {
        lemma_edge_le_total();
        all_edges(points@).lemma_sort_by_ensures(edge_leq());
        vstd::seq_lib::lemma_sorted_unique(re@, ranked_edges(points@), edge_leq());
        assert(re@ =~= ranked_edges(points@));
        lemma_edges_from_valid(points@, 0);
        lemma_perm_valid(all_edges(points@), re@, points@.len() as int);
    }
    re
}

/// Bounded-budget summary mode: process the ranked edges up to `budget`
/// merge attempts, then report the product of the three largest final
/// cluster sizes, or refuse with `InsufficientClusters` when fewer than
/// three clusters remain active.
pub fn summarize(points: &Vec<Point>, budget: usize) -> (r: Result<i64, SolveError>)
    requires
        points_ok(points@),
        points@.len() <= MAX_POINTS as int,
    ensures
        summary_spec(points@, budget as int, r),
{
    broadcast use vstd::seq_lib::group_to_multiset_ensures;

    let n = points.len();
    let re = ranked_of(points);
    let mut store = ClusterStore::new(n);
    let ghost m0 = init_model(n as int);
    proof {
        lemma_init_model_wf(n as int);
        assert(store.model() == m0);
    }
    let limit = if budget <= re.len() {
        budget
    } else {
        re.len()
    };
    let mut t: usize = 0;
    while t < limit
        invariant
            t <= limit,
            limit <= re@.len(),
            n == points@.len(),
            re@ == ranked_edges(points@),
            edges_valid(re@, n as int),
            store.wf(),
            store.n() == n as int,
            store.model() == drive(m0, re@, t as int),
            m0 == init_model(n as int),
            model_wf(m0),
            m0.owner.len() == n as int,
        decreases limit - t,
    {
        let e = re[t];
        let ca = store.find(e.a);
        let cb = store.find(e.b);
        let _surv = store.merge(ca, cb);
        t = t + 1;
    }
    let ghost m = drive(m0, re@, limit as int);
    let sizes = store.cluster_sizes();
    let sorted = sort_usize(&sizes);
    let ghost ss = sorted_sizes(m.csize);
    proof {
        lemma_drive_wf(m0, re@, limit as int);
        lemma_int_le_total();
        positives(m.csize).lemma_sort_by_ensures(int_leq());
        assert(to_ints(sizes@) =~= positives(m.csize));
        vstd::seq_lib::lemma_sorted_unique(to_ints(sorted@), ss, int_leq());
        assert(to_ints(sorted@) =~= ss);
        lemma_positives_len(m.csize);
        assert(ss.len() == m.active);
        assert forall|c: int| 0 <= c < m.csize.len() implies #[trigger] m.csize[c] <= n as int by {
            lemma_count_of_le_len(m.owner, c);
        }
        lemma_positives_bounded(m.csize, n as int);
        assert forall|j: int| 0 <= j < ss.len() implies 0 < #[trigger] ss[j] <= n as int by {
            assert(ss.to_multiset().contains(ss[j]));
            assert(positives(m.csize).contains(ss[j]));
        }
    }
    if sorted.len() < 3 {
        return Err(SolveError::InsufficientClusters);
    }
    let l = sorted.len();
    let a = sorted[l - 3];
    let b = sorted[l - 2];
    let c = sorted[l - 1];
    proof {
        assert(a as int == ss[l - 3]);
        assert(b as int == ss[l - 2]);
        assert(c as int == ss[l - 1]);
        assert(0 <= a as int * (b as int) <= 4_000_000_000_000) by (nonlinear_arith)
            requires
                0 <= a as int <= 2_000_000,
                0 <= b as int <= 2_000_000,
        ;
        assert(0 <= (a as int * (b as int)) * (c as int) <= 8_000_000_000_000_000_000)
            by (nonlinear_arith)
            requires
                0 <= a as int * (b as int) <= 4_000_000_000_000,
                0 <= c as int <= 2_000_000,
        ;
    }
    let ab: i64 = (a as i64) * (b as i64);
    let abc: i64 = ab * (c as i64);
    Ok(abc)
}

/// Full-connectivity search mode: process the ranked edges until one
/// active cluster remains, reporting the product of the x-coordinates of
/// the pair whose merge completed the connection, or refuse with
/// `BudgetExceeded` when the budget runs out first.
pub fn find_full_connection(points: &Vec<Point>, budget: usize) -> (r: Result<i64, SolveError>)
    requires
        points_ok(points@),
    ensures
        full_spec(points@, budget as int, r),
{
    let n = points.len();
    if n <= 1 {
        return Err(SolveError::BudgetExceeded);
    }
    let re = ranked_of(points);
    let mut store = ClusterStore::new(n);
    let ghost m0 = init_model(n as int);
    proof {
        lemma_init_model_wf(n as int);
        assert(store.model() == m0);
    }
    let limit = if budget <= re.len() {
        budget
    } else {
        re.len()
    };
    let mut t: usize = 0;
    while t < limit
        invariant
            t <= limit,
            limit <= re@.len(),
            limit as int == (if budget as int <= re@.len() {
                budget as int
            } else {
                re@.len() as int
            }),
            n == points@.len(),
            n >= 2,
            points_ok(points@),
            re@ == ranked_edges(points@),
            edges_valid(re@, n as int),
            store.wf(),
            store.n() == n as int,
            store.model() == drive(m0, re@, t as int),
            m0 == init_model(n as int),
            model_wf(m0),
            m0.owner.len() == n as int,
            drive(m0, re@, t as int).active != 1,
        decreases limit - t,
    {
        let e = re[t];
        let ca = store.find(e.a);
        let cb = store.find(e.b);
        let _surv = store.merge(ca, cb);
        if store.active_cluster_count() == 1 {
            let pa = points[e.a];
            let pb = points[e.b];
            proof {
                assert(-10_000_000_000_000_000 <= pa.x as int * (pb.x as int)
                    <= 10_000_000_000_000_000) by (nonlinear_arith)
                    requires
                        -100_000_000 <= pa.x as int <= 100_000_000,
                        -100_000_000 <= pb.x as int <= 100_000_000,
                ;
            }
            let v: i64 = pa.x * pb.x;
            proof {
                let k = t as int + 1;
                let edgesg = ranked_edges(points@);
                let limitg: int = if budget as int <= edgesg.len() {
                    budget as int
                } else {
                    edgesg.len() as int
                };
                assert(re@ == edgesg);
                assert(limit as int == limitg);
                assert(1 <= k <= limitg);
                assert(drive(m0, edgesg, k).active == 1);
                assert(drive(m0, edgesg, k - 1).active != 1);
                assert(v as int == points@[edgesg[k - 1].a as int].x * points@[edgesg[k - 1].b
                    as int].x);
                assert(exists|kk: int|
                    1 <= kk <= limitg && (#[trigger] drive(m0, edgesg, kk)).active == 1 && drive(
                        m0,
                        edgesg,
                        kk - 1,
                    ).active != 1 && v as int == points@[edgesg[kk - 1].a as int].x
                        * points@[edgesg[kk - 1].b as int].x);
            }
            return Ok(v);
        }
        t = t + 1;
    }
    Err(SolveError::BudgetExceeded)
}

// ---------------------------------------------------------------------------
// Loading a point set from line-oriented text.
// ---------------------------------------------------------------------------

pub open spec fn line_fields(l: Seq<u8>) -> Seq<Seq<u8>> {
    spec_split(l, 44)
}

/// An in-range integer field.
pub open spec fn field_ok(f: Seq<u8>) -> bool {
    is_int_str(f) && -COORD_LIMIT <= int_str_val(f) <= COORD_LIMIT as int
}

/// A point line: exactly three comma-separated in-range integers.
pub open spec fn line_ok(l: Seq<u8>) -> bool {
    &&& line_fields(l).len() == 3
    &&& field_ok(line_fields(l)[0])
    &&& field_ok(line_fields(l)[1])
    &&& field_ok(line_fields(l)[2])
}

pub open spec fn line_point(l: Seq<u8>) -> Point {
    Point {
        x: int_str_val(line_fields(l)[0]) as i64,
        y: int_str_val(line_fields(l)[1]) as i64,
        z: int_str_val(line_fields(l)[2]) as i64,
    }
}

/// Every non-empty line is a well-formed point line.
pub open spec fn lines_all_ok(lines: Seq<Seq<u8>>) -> bool {
    forall|i: int| 0 <= i < lines.len() ==> ((#[trigger] lines[i]).len() == 0 || line_ok(lines[i]))
}

/// One point per non-empty line, in line order.
pub open spec fn points_of(lines: Seq<Seq<u8>>) -> Seq<Point>
    decreases lines.len(),
{
    if lines.len() == 0 {
        Seq::<Point>::empty()
    } else if lines.last().len() == 0 {
        points_of(lines.drop_last())
    } else {
        points_of(lines.drop_last()).push(line_point(lines.last()))
    }
}

pub proof fn lemma_points_of_ok(lines: Seq<Seq<u8>>)
    requires
        lines_all_ok(lines),
    ensures
        points_ok(points_of(lines)),
        points_of(lines).len() <= lines.len(),
    decreases lines.len(),
{
    if lines.len() > 0 {
        assert(forall|i: int|
            0 <= i < lines.drop_last().len() ==> ((#[trigger] lines.drop_last()[i]).len() == 0
                || line_ok(lines.drop_last()[i])));
        lemma_points_of_ok(lines.drop_last());
        if lines.last().len() != 0 {
            assert(line_ok(lines.last()));
            let p = line_point(lines.last());
            assert(point_ok(p));
            assert(forall|i: int|
                0 <= i < points_of(lines.drop_last()).len() ==> point_ok(
                    #[trigger] points_of(lines.drop_last()).push(p)[i],
                ));
        }
    }
}

/// Parses the input document: one point per non-empty line, each line
/// three comma-separated integers with magnitude at most `COORD_LIMIT`.
/// Fails with `MalformedInput`, returning no partial point set, exactly
/// when some non-empty line is not of that form.
pub fn load_points(input: &[u8]) -> (r: Result<Vec<Point>, SolveError>)
    ensures
        match r {
            Ok(pts) => lines_all_ok(spec_lines(input@)) && pts@ == points_of(spec_lines(input@)),
            Err(e) => e == SolveError::MalformedInput && !lines_all_ok(spec_lines(input@)),
        },
{
    let lines = split_lines(input);
    let ghost lv = spec_lines(input@);
    let mut pts: Vec<Point> = Vec::new();
    let mut i: usize = 0;
    proof {
        assert(lv.take(0) =~= Seq::<Seq<u8>>::empty());
        assert(pts@ =~= points_of(lv.take(0)));
    }
    while i < lines.len()
        invariant
            i <= lines@.len(),
            seq_views(lines@) == spec_lines(input@),
            pts@ == points_of(spec_lines(input@).take(i as int)),
            forall|j: int|
                0 <= j < i ==> ((#[trigger] spec_lines(input@)[j]).len() == 0 || line_ok(
                    spec_lines(input@)[j],
                )),
        decreases lines@.len() - i,
    {
        let ghost lvv = spec_lines(input@);
        proof {
            assert(lvv.take(i as int + 1).drop_last() =~= lvv.take(i as int));
            assert(lvv.take(i as int + 1).last() == lvv[i as int]);
            assert(lines@[i as int]@ == lvv[i as int]);
        }
        let line = &lines[i];
        if line.len() > 0 {
            let fields = split_bytes(line.as_slice(), 44);
            proof {
                assert(seq_views(fields@) == line_fields(lvv[i as int]));
            }
            if fields.len() != 3 {
                proof {
                    assert(!line_ok(lvv[i as int]));
                    assert(!(lvv[i as int].len() == 0 || line_ok(lvv[i as int])));
                }
                return Err(SolveError::MalformedInput);
            }
            proof {
                assert(fields@[0]@ == line_fields(lvv[i as int])[0]);
                assert(fields@[1]@ == line_fields(lvv[i as int])[1]);
                assert(fields@[2]@ == line_fields(lvv[i as int])[2]);
            }
            let x = match parse_i64(fields[0].as_slice()) {
                Some(v) => v,
                None => {
                    return Err(SolveError::MalformedInput);
                },
            };
            let y = match parse_i64(fields[1].as_slice()) {
                Some(v) => v,
                None => {
                    return Err(SolveError::MalformedInput);
                },
            };
            let z = match parse_i64(fields[2].as_slice()) {
                Some(v) => v,
                None => {
                    return Err(SolveError::MalformedInput);
                },
            };
            if x < -COORD_LIMIT || x > COORD_LIMIT || y < -COORD_LIMIT || y > COORD_LIMIT || z
                < -COORD_LIMIT || z > COORD_LIMIT {
                return Err(SolveError::MalformedInput);
            }
            let p = Point { x, y, z };
            proof {
                assert(line_ok(lvv[i as int]));
                assert(p == line_point(lvv[i as int]));
            }
            pts.push(p);
        }
        i = i + 1;
    }
    proof {
        assert(lv.take(lines@.len() as int) =~= lv);
    }
    Ok(pts)
}

/// What `solve` returns: a malformed document (or one beyond the point
/// capacity) is refused, and otherwise the input's points are run
/// through the requested mode with that mode's fixed budget.
pub open spec fn solve_spec(input: Seq<u8>, part2: bool, r: Result<i64, SolveError>) -> bool {
    let lines = spec_lines(input);
    if !lines_all_ok(lines) {
        r == Err::<i64, SolveError>(SolveError::MalformedInput)
    } else {
        let pts = points_of(lines);
        if pts.len() > MAX_POINTS as int {
            r == Err::<i64, SolveError>(SolveError::MalformedInput)
        } else if part2 {
            full_spec(pts, FULL_BUDGET as int, r)
        } else {
            summary_spec(pts, SUMMARY_BUDGET as int, r)
        }
    }
}

/// Runs the clustering engine on an input document: bounded-budget
/// summary mode, or full-connectivity search mode when `part2` is set.
pub fn solve(input: &[u8], part2: bool) -> (r: Result<i64, SolveError>)
    ensures
        solve_spec(input@, part2, r),
{
    let pts = match load_points(input) {
        Ok(p) => p,
        Err(e) => {
            return Err(e);
        },
    };
    proof {
        lemma_points_of_ok(spec_lines(input@));
    }
    if pts.len() > MAX_POINTS {
        return Err(SolveError::MalformedInput);
    }
    if part2 {
        find_full_connection(&pts, FULL_BUDGET)
    } else {
        summarize(&pts, SUMMARY_BUDGET)
    }
}

/// Bounded-budget summary over the document's points.
pub fn solve_part1(input: &[u8]) -> (r: Result<i64, SolveError>)
    ensures
        solve_spec(input@, false, r),
{
    solve(input, false)
}

/// Full-connectivity search over the document's points.
pub fn solve_part2(input: &[u8]) -> (r: Result<i64, SolveError>)
    ensures
        solve_spec(input@, true, r),
{
    solve(input, true)
}

} // verus!
