//! Density-based clustering (DBSCAN) of positions along one axis.
//!
//! Each point carries an index (its place along the axis) and a class: `-1` for a point not
//! yet visited, `0` for noise, and `1, 2, ...` for the clusters.
use vstd::prelude::*;
use vstd::set_lib::{lemma_int_range, lemma_len_subset, set_int_range};

verus! {

/// A point to cluster: its index along the axis and its class.
#[derive(Clone, Copy, Debug)]
pub struct DbscanPt {
    pub index: usize,
    pub class: i8,
}

pub open spec fn abs_int(x: int) -> int {
    if x < 0 {
        -x
    } else {
        x
    }
}

/// Index `b` lies within `eps` of index `pt`: it differs from `pt`, and the difference of
/// the two indices, each taken as an `isize`, is at most `eps` (taken as an `isize`) in
/// absolute value.
pub open spec fn within(b: usize, pt: usize, eps: usize) -> bool {
    &&& b != pt
    &&& abs_int((b as isize) - (pt as isize)) <= (eps as isize)
}

/// The positions among the first `m` whose index lies within `eps` of `pt`, in order.
pub open spec fn near_positions(idx: Seq<usize>, pt: usize, eps: usize, m: int) -> Seq<usize>
    decreases m,
{
    if m <= 0 {
        Seq::empty()
    } else {
        let r = near_positions(idx, pt, eps, m - 1);
        if within(idx[m - 1], pt, eps) {
            r.push((m - 1) as usize)
        } else {
            r
        }
    }
}

pub open spec fn indices_of(pts: Seq<DbscanPt>) -> Seq<usize> {
    pts.map_values(|p: DbscanPt| p.index)
}

pub open spec fn classes_of(pts: Seq<DbscanPt>) -> Seq<i8> {
    pts.map_values(|p: DbscanPt| p.class)
}

/// What clustering is run on: the indices and starting classes of the points, the reach
/// `eps`, and the least number of neighbours `min_pts` of a core point.
pub struct ClusterInput {
    pub idx: Seq<usize>,
    pub init: Seq<i8>,
    pub eps: usize,
    pub min_pts: usize,
}

pub open spec fn input_of(pts: Seq<DbscanPt>, eps: usize, min_pts: usize) -> ClusterInput {
    ClusterInput { idx: indices_of(pts), init: classes_of(pts), eps, min_pts }
}

impl ClusterInput {
    pub open spec fn size(self) -> int {
        self.idx.len() as int
    }

    /// Positions `a` and `b` are neighbours.
    pub open spec fn near(self, a: int, b: int) -> bool {
        &&& 0 <= a < self.size()
        &&& 0 <= b < self.size()
        &&& within(self.idx[b], self.idx[a], self.eps)
    }

    /// The neighbours of position `a`, in order.
    pub open spec fn neighbors(self, a: int) -> Seq<usize> {
        near_positions(self.idx, self.idx[a], self.eps, self.size())
    }

    /// Position `a` has at least `min_pts` neighbours.
    pub open spec fn is_core(self, a: int) -> bool {
        self.neighbors(a).len() >= self.min_pts
    }

    /// A core point that starts unvisited: the points from which clusters grow.
    pub open spec fn seed(self, a: int) -> bool {
        &&& 0 <= a < self.size()
        &&& self.init[a] == -1
        &&& self.is_core(a)
    }

    pub open spec fn step_ok(self, path: Seq<int>, m: int) -> bool {
        self.near(path[m], path[m + 1])
    }

    /// A path of seeds, each one a neighbour of the one before.
    pub open spec fn is_chain(self, path: Seq<int>) -> bool {
        &&& path.len() >= 1
        &&& forall|m: int| 0 <= m < path.len() ==> self.seed(#[trigger] path[m])
        &&& forall|m: int| 0 <= m < path.len() - 1 ==> #[trigger] self.step_ok(path, m)
    }

    /// Seeds `a` and `b` are joined by a path of seeds.
    pub open spec fn linked(self, a: int, b: int) -> bool {
        exists|path: Seq<int>| #[trigger] self.is_chain(path) && path[0] == a && path.last() == b
    }

    /// The lowest seed of its group of linked seeds.
    pub open spec fn leader(self, a: int) -> bool {
        &&& self.seed(a)
        &&& forall|p: int| 0 <= p < a && self.seed(p) ==> !#[trigger] self.linked(p, a)
    }

    pub open spec fn leaders(self) -> Set<int> {
        Set::new(|a: int| 0 <= a < self.size() && self.leader(a))
    }

    /// The number of groups of linked seeds: the number of clusters that clustering finds.
    pub open spec fn cluster_count(self) -> nat {
        self.leaders().len()
    }

    /// The index differences that clustering computes fit an `isize`.
    pub open spec fn offsets_fit(self) -> bool {
        forall|a: int, b: int|
            0 <= a < self.size() && 0 <= b < self.size() && self.init[a] == -1 && self.idx[b]
                != self.idx[a] ==> isize::MIN < (self.idx[b] as isize) - (self.idx[a] as isize)
                <= isize::MAX
    }
}

/// What a finished run leaves in the classes `fin`, with `r` clusters:
/// - a class other than unvisited (`-1`) or noise (`0`) is kept;
/// - every unvisited point has been visited;
/// - the seeds fall in the clusters `1..=r`, two seeds sharing a cluster exactly where a
///   path of seeds joins them, and the clusters are numbered in the order of their lowest
///   seed;
/// - any other point that was unvisited or noise joins the lowest-numbered cluster among
///   its neighbouring seeds, and is noise where it has no neighbouring seed.
pub open spec fn clustered(inp: ClusterInput, fin: Seq<i8>, r: int) -> bool {
    &&& fin.len() == inp.size()
    &&& forall|p: int|
        0 <= p < inp.size() && inp.init[p] != -1 && inp.init[p] != 0 ==> #[trigger] fin[p]
            == inp.init[p]
    &&& forall|p: int| 0 <= p < inp.size() && inp.init[p] == -1 ==> #[trigger] fin[p] != -1
    &&& forall|p: int| #[trigger] inp.seed(p) ==> 1 <= fin[p] <= r
    &&& forall|a: int, b: int|
        inp.seed(a) && inp.seed(b) ==> (fin[a] == fin[b] <==> #[trigger] inp.linked(a, b))
    &&& forall|a: int, b: int|
        #[trigger] inp.leader(a) && #[trigger] inp.leader(b) && a < b ==> fin[a] < fin[b]
    &&& forall|p: int|
        0 <= p < inp.size() && !inp.seed(p) && (inp.init[p] == -1 || inp.init[p] == 0) ==> {
            &&& (#[trigger] fin[p] == 0 || 1 <= fin[p] <= r)
            &&& (fin[p] == 0 <==> forall|q: int| inp.seed(q) ==> !inp.near(q, p))
            &&& (fin[p] >= 1 ==> exists|q: int|
                inp.seed(q) && #[trigger] inp.near(q, p) && fin[q] == fin[p])
            &&& (fin[p] >= 1 ==> forall|q: int|
                inp.seed(q) && #[trigger] inp.near(q, p) ==> fin[q] >= fin[p])
        }
}

// ---------------------------------------------------------------------------------------
// Facts on neighbours and paths
// ---------------------------------------------------------------------------------------

pub proof fn lemma_near_positions(idx: Seq<usize>, pt: usize, eps: usize, m: int)
    requires
        0 <= m <= idx.len(),
        idx.len() <= usize::MAX,
    ensures
        near_positions(idx, pt, eps, m).len() <= m,
        forall|x: int|
            0 <= x < near_positions(idx, pt, eps, m).len() ==> #[trigger] near_positions(
                idx,
                pt,
                eps,
                m,
            )[x] < m,
        forall|b: int|
            0 <= b < m ==> (near_positions(idx, pt, eps, m).contains(b as usize) <==> within(
                idx[b],
                pt,
                eps,
            )),
    decreases m,
{
    if m > 0 {
        lemma_near_positions(idx, pt, eps, m - 1);
        let r = near_positions(idx, pt, eps, m - 1);
        let rp = r.push((m - 1) as usize);
        assert forall|b: int| 0 <= b < m implies (near_positions(idx, pt, eps, m).contains(
            b as usize,
        ) <==> within(idx[b], pt, eps)) by {
            if within(idx[m - 1], pt, eps) {
                assert(near_positions(idx, pt, eps, m) == rp);
                if rp.contains(b as usize) {
                    let x = choose|x: int| 0 <= x < rp.len() && #[trigger] rp[x] == b as usize;
                    if x < r.len() {
                        assert(r[x] == b as usize);
                    }
                }
                if b < m - 1 && r.contains(b as usize) {
                    let x = choose|x: int| 0 <= x < r.len() && #[trigger] r[x] == b as usize;
                    assert(rp[x] == b as usize);
                }
                if b == m - 1 {
                    assert(rp[r.len() as int] == (m - 1) as usize);
                }
            } else {
                if r.contains(b as usize) && b == m - 1 {
                    let x = choose|x: int| 0 <= x < r.len() && #[trigger] r[x] == b as usize;
                    assert(r[x] < m - 1);
                }
            }
        }
    }
}

/// The neighbour relation is symmetric.
pub proof fn lemma_near_symmetric(inp: ClusterInput, a: int, b: int)
    ensures
        inp.near(a, b) == inp.near(b, a),
{
}

proof fn lemma_chain_single(inp: ClusterInput, a: int)
    requires
        inp.seed(a),
    ensures
        inp.linked(a, a),
{
    let path = seq![a];
    assert(inp.is_chain(path));
}

proof fn lemma_linked_extend(inp: ClusterInput, a: int, e: int, w: int)
    requires
        inp.linked(a, e),
        inp.near(e, w),
        inp.seed(w),
    ensures
        inp.linked(a, w),
{
    let path = choose|path: Seq<int>| #[trigger] inp.is_chain(path) && path[0] == a && path.last() == e;
    let p2 = path.push(w);
    assert forall|m: int| 0 <= m < p2.len() implies inp.seed(#[trigger] p2[m]) by {
        if m < path.len() {
            assert(p2[m] == path[m]);
        }
    }
    assert forall|m: int| 0 <= m < p2.len() - 1 implies #[trigger] inp.step_ok(p2, m) by {
        if m < path.len() - 1 {
            assert(inp.step_ok(path, m));
        }
    }
    assert(inp.is_chain(p2));
}

proof fn lemma_linked_reverse(inp: ClusterInput, a: int, b: int)
    requires
        inp.linked(a, b),
    ensures
        inp.linked(b, a),
{
    let path = choose|path: Seq<int>| #[trigger] inp.is_chain(path) && path[0] == a && path.last() == b;
    let r = path.reverse();
    let n = path.len();
    assert forall|m: int| 0 <= m < r.len() implies inp.seed(#[trigger] r[m]) by {
        assert(r[m] == path[n - 1 - m]);
    }
    assert forall|m: int| 0 <= m < r.len() - 1 implies #[trigger] inp.step_ok(r, m) by {
        assert(inp.step_ok(path, n - 2 - m));
        assert(r[m] == path[n - 1 - m]);
        assert(r[m + 1] == path[n - 2 - m]);
    }
    assert(inp.is_chain(r));
    assert(r[0] == b);
    assert(r.last() == a);
}

proof fn lemma_linked_join(inp: ClusterInput, a: int, b: int, c: int)
    requires
        inp.linked(a, b),
        inp.linked(b, c),
    ensures
        inp.linked(a, c),
{
    let p1 = choose|path: Seq<int>| #[trigger] inp.is_chain(path) && path[0] == a && path.last() == b;
    let p2 = choose|path: Seq<int>| #[trigger] inp.is_chain(path) && path[0] == b && path.last() == c;
    let q = p1 + p2.drop_first();
    let n1 = p1.len();
    assert forall|m: int| 0 <= m < q.len() implies inp.seed(#[trigger] q[m]) by {
        if m < n1 {
            assert(q[m] == p1[m]);
        } else {
            assert(q[m] == p2[m - n1 + 1]);
        }
    }
    assert forall|m: int| 0 <= m < q.len() - 1 implies #[trigger] inp.step_ok(q, m) by {
        if m < n1 - 1 {
            assert(inp.step_ok(p1, m));
        } else if m == n1 - 1 {
            assert(inp.step_ok(p2, 0));
            assert(q[m] == p1.last());
            assert(q[m + 1] == p2[1]);
        } else {
            assert(inp.step_ok(p2, m - n1 + 1));
            assert(q[m] == p2[m - n1 + 1]);
            assert(q[m + 1] == p2[m - n1 + 2]);
        }
    }
    assert(inp.is_chain(q));
    if p2.len() == 1 {
        assert(q =~= p1);
    } else {
        assert(q.last() == p2.last());
    }
}

/// Along a path of seeds, a property that passes from each labelled seed to its
/// neighbours reaches the end of the path.
proof fn lemma_chain_reaches(inp: ClusterInput, cls: Seq<i8>, path: Seq<int>, m: int)
    requires
        cls.len() == inp.size(),
        inp.is_chain(path),
        cls[path[0]] != -1,
        forall|c: int, d: int|
            inp.seed(c) && cls[c] != -1 && #[trigger] inp.near(c, d) ==> cls[d] != -1,
        0 <= m < path.len(),
    ensures
        cls[path[m]] != -1,
    decreases m,
{
    if m > 0 {
        lemma_chain_reaches(inp, cls, path, m - 1);
        assert(inp.step_ok(path, m - 1));
        assert(inp.seed(path[m - 1]));
    }
}

/// Along a path of labelled seeds where neighbouring labelled seeds share their class, all
/// seeds share the class of the first.
proof fn lemma_chain_same_class(inp: ClusterInput, cls: Seq<i8>, path: Seq<int>, m: int)
    requires
        cls.len() == inp.size(),
        inp.is_chain(path),
        forall|c: int| inp.seed(c) ==> cls[c] != -1,
        forall|c: int, d: int|
            inp.seed(c) && inp.seed(d) && #[trigger] inp.near(c, d) ==> cls[c] == cls[d],
        0 <= m < path.len(),
    ensures
        cls[path[m]] == cls[path[0]],
    decreases m,
{
    if m > 0 {
        lemma_chain_same_class(inp, cls, path, m - 1);
        assert(inp.step_ok(path, m - 1));
        assert(inp.seed(path[m - 1]));
        assert(inp.seed(path[m]));
    }
}

proof fn lemma_push_contains<A>(s: Seq<A>, v: A)
    ensures
        forall|y: A| #[trigger] s.push(v).contains(y) <==> s.contains(y) || y == v,
{
    assert forall|y: A| #[trigger] s.push(v).contains(y) <==> s.contains(y) || y == v by {
        let sp = s.push(v);
        if sp.contains(y) {
            let t = choose|t: int| 0 <= t < sp.len() && #[trigger] sp[t] == y;
            if t < s.len() {
                assert(s[t] == y);
            }
        }
        if s.contains(y) {
            let t = choose|t: int| 0 <= t < s.len() && #[trigger] s[t] == y;
            assert(sp[t] == y);
        }
        if y == v {
            assert(sp[s.len() as int] == v);
        }
    }
}

// ---------------------------------------------------------------------------------------
// The state of a run
// ---------------------------------------------------------------------------------------

/// The class of position `p` is one that the run can have given it by now, `k` clusters in.
spec fn class_ok(inp: ClusterInput, cls: Seq<i8>, k: int, p: int) -> bool {
    &&& (inp.init[p] != -1 && inp.init[p] != 0 ==> cls[p] == inp.init[p])
    &&& (inp.init[p] == 0 ==> cls[p] == 0 || 1 <= cls[p] <= k)
    &&& (inp.init[p] == -1 ==> cls[p] == -1 || cls[p] == 0 || 1 <= cls[p] <= k)
    &&& (inp.seed(p) ==> cls[p] != 0)
}

/// Cluster `v + 1` was started at the leader `starts[v]`.
spec fn start_ok(inp: ClusterInput, cls: Seq<i8>, starts: Seq<int>, v: int) -> bool {
    &&& inp.leader(starts[v])
    &&& cls[starts[v]] == v + 1
}

/// A labelled seed is linked to the start of its cluster.
spec fn member_ok(inp: ClusterInput, cls: Seq<i8>, starts: Seq<int>, p: int) -> bool {
    inp.seed(p) && cls[p] >= 1 ==> inp.linked(starts[cls[p] - 1], p)
}

/// Neighbouring labelled seeds share their class.
spec fn agree_ok(inp: ClusterInput, cls: Seq<i8>, a: int, b: int) -> bool {
    inp.seed(a) && inp.seed(b) && inp.near(a, b) && cls[a] != -1 && cls[b] != -1 ==> cls[a]
        == cls[b]
}

/// A labelled point that is not a seed has the class of a neighbouring seed, and no
/// neighbouring seed has a lower class.
spec fn border_ok(inp: ClusterInput, cls: Seq<i8>, p: int) -> bool {
    (0 <= p < inp.size() && !inp.seed(p) && (inp.init[p] == -1 || inp.init[p] == 0) && cls[p]
        >= 1) ==> (exists|q: int| inp.seed(q) && #[trigger] inp.near(q, p) && cls[q] == cls[p])
        && (forall|q: int| inp.seed(q) && #[trigger] inp.near(q, p) ==> cls[q] == -1 || cls[q] >= cls[p])
}

spec fn consistent(inp: ClusterInput, cls: Seq<i8>, k: int, starts: Seq<int>) -> bool {
    &&& cls.len() == inp.size()
    &&& inp.init.len() == inp.size()
    &&& inp.size() <= usize::MAX
    &&& 0 <= k <= 127
    &&& starts.len() == k
    &&& forall|p: int| 0 <= p < inp.size() ==> #[trigger] class_ok(inp, cls, k, p)
    &&& forall|v: int| 0 <= v < k ==> #[trigger] start_ok(inp, cls, starts, v)
    &&& forall|u: int, v: int| 0 <= u < v < k ==> starts[u] < starts[v]
    &&& forall|p: int| #[trigger] member_ok(inp, cls, starts, p)
    &&& forall|a: int, b: int| #[trigger] agree_ok(inp, cls, a, b)
    &&& forall|p: int| #[trigger] border_ok(inp, cls, p)
}

/// Every neighbour of `c` has been reached by a cluster.
spec fn closed_at(inp: ClusterInput, cls: Seq<i8>, c: int) -> bool {
    forall|d: int| #[trigger] inp.near(c, d) ==> cls[d] != -1 && cls[d] != 0
}

spec fn seed_closed(inp: ClusterInput, cls: Seq<i8>, c: int) -> bool {
    inp.seed(c) && cls[c] != -1 ==> closed_at(inp, cls, c)
}

/// While cluster `k` grows: each labelled seed is closed, or belongs to cluster `k` and has
/// all its neighbours in the work list `w`.
spec fn seed_closed_or_pending(inp: ClusterInput, cls: Seq<i8>, k: int, w: Seq<usize>, c: int) -> bool {
    inp.seed(c) && cls[c] != -1 ==> closed_at(inp, cls, c) || (cls[c] == k && forall|d: int|
        #[trigger] inp.near(c, d) ==> w.contains(d as usize))
}

spec fn leaders_upto(inp: ClusterInput, k: int, starts: Seq<int>, i: int) -> bool {
    &&& forall|v: int| 0 <= v < k ==> #[trigger] starts[v] < i
    &&& forall|a: int| 0 <= a < i && #[trigger] inp.leader(a) ==> exists|v: int| 0 <= v < k && starts[v] == a
}

spec fn visited_upto(cls: Seq<i8>, i: int) -> bool {
    forall|p: int| 0 <= p < i ==> #[trigger] cls[p] != -1
}

spec fn outer_inv(inp: ClusterInput, cls: Seq<i8>, k: int, starts: Seq<int>, i: int) -> bool {
    &&& 0 <= i <= inp.size()
    &&& consistent(inp, cls, k, starts)
    &&& forall|c: int| #[trigger] seed_closed(inp, cls, c)
    &&& leaders_upto(inp, k, starts, i)
    &&& visited_upto(cls, i)
}

/// Every entry of the work list neighbours a seed of cluster `k`.
spec fn supported(inp: ClusterInput, cls: Seq<i8>, k: int, w: Seq<usize>, m: int) -> bool {
    exists|e: int| inp.seed(e) && cls[e] == k && #[trigger] inp.near(e, w[m] as int)
}

spec fn inner_inv(
    inp: ClusterInput,
    cls: Seq<i8>,
    k: int,
    starts: Seq<int>,
    i: int,
    w: Seq<usize>,
    j: int,
) -> bool {
    &&& 0 <= i < inp.size()
    &&& consistent(inp, cls, k, starts)
    &&& k >= 1
    &&& starts[k - 1] == i
    &&& forall|c: int| #[trigger] seed_closed_or_pending(inp, cls, k, w, c)
    &&& leaders_upto(inp, k, starts, i + 1)
    &&& visited_upto(cls, i + 1)
    &&& 0 <= j <= w.len()
    &&& forall|m: int| 0 <= m < w.len() ==> #[trigger] w[m] < inp.size()
    &&& forall|m: int| 0 <= m < j ==> cls[#[trigger] w[m] as int] != -1 && cls[w[m] as int] != 0
    &&& forall|m: int| 0 <= m < w.len() ==> #[trigger] supported(inp, cls, k, w, m)
}

/// The number of points not yet visited.
spec fn count_unvisited(cls: Seq<i8>) -> nat
    decreases cls.len(),
{
    if cls.len() == 0 {
        0
    } else {
        count_unvisited(cls.drop_last()) + if cls.last() == -1 {
            1nat
        } else {
            0nat
        }
    }
}

proof fn lemma_count_update(cls: Seq<i8>, p: int, v: i8)
    requires
        0 <= p < cls.len(),
        v != -1,
    ensures
        count_unvisited(cls.update(p, v)) + (if cls[p] == -1 {
            1nat
        } else {
            0nat
        }) == count_unvisited(cls),
    decreases cls.len(),
{
    if p == cls.len() - 1 {
        assert(cls.update(p, v).drop_last() =~= cls.drop_last());
    } else {
        lemma_count_update(cls.drop_last(), p, v);
        assert(cls.update(p, v).drop_last() =~= cls.drop_last().update(p, v));
    }
}

/// The leaders form a finite set.
proof fn lemma_leaders_finite(inp: ClusterInput)
    requires
        inp.size() >= 0,
    ensures
        inp.leaders().finite(),
        inp.leaders().len() <= inp.size(),
{
    lemma_int_range(0, inp.size());
    assert(inp.leaders().subset_of(set_int_range(0, inp.size())));
    lemma_len_subset(inp.leaders(), set_int_range(0, inp.size()));
}

/// Distinct leaders, listed in increasing order, are at most as many as all leaders.
proof fn lemma_starts_bounded(inp: ClusterInput, starts: Seq<int>)
    requires
        forall|v: int| 0 <= v < starts.len() ==> #[trigger] inp.leader(starts[v]) && 0 <= starts[v] < inp.size(),
        forall|u: int, v: int| 0 <= u < v < starts.len() ==> starts[u] < starts[v],
    ensures
        starts.len() <= inp.cluster_count(),
        starts.to_set().subset_of(inp.leaders()),
        starts.to_set().len() == starts.len(),
{
    lemma_leaders_finite(inp);
    assert(starts.no_duplicates()) by {
        assert forall|u: int, v: int| 0 <= u < starts.len() && 0 <= v < starts.len() && u != v implies starts[u] != starts[v] by {
            if u < v {
                assert(starts[u] < starts[v]);
            } else {
                assert(starts[v] < starts[u]);
            }
        }
    }
    starts.unique_seq_to_set();
    assert forall|a: int| starts.to_set().contains(a) implies inp.leaders().contains(a) by {
        let v = choose|v: int| 0 <= v < starts.len() && starts[v] == a;
        assert(inp.leader(starts[v]));
    }
    lemma_len_subset(starts.to_set(), inp.leaders());
}

// ---------------------------------------------------------------------------------------
// Steps of a run
// ---------------------------------------------------------------------------------------

/// Passing over a point that was visited already.
proof fn lemma_outer_skip(inp: ClusterInput, cls: Seq<i8>, k: int, starts: Seq<int>, i: int)
    requires
        outer_inv(inp, cls, k, starts, i),
        i < inp.size(),
        cls[i] != -1,
    ensures
        outer_inv(inp, cls, k, starts, i + 1),
{
    assert forall|a: int| 0 <= a < i + 1 && #[trigger] inp.leader(a) implies exists|v: int|
        0 <= v < k && starts[v] == a by {
        if a == i {
            assert(class_ok(inp, cls, k, i));
            assert(member_ok(inp, cls, starts, i));
            let v = cls[i] - 1;
            assert(start_ok(inp, cls, starts, v));
            assert(starts[v] < i);
            assert(inp.linked(starts[v], i));
            assert(false);
        }
    }
}

/// Marking an unvisited point with too few neighbours as noise.
proof fn lemma_outer_noise(inp: ClusterInput, cls: Seq<i8>, k: int, starts: Seq<int>, i: int)
    requires
        outer_inv(inp, cls, k, starts, i),
        i < inp.size(),
        cls[i] == -1,
        !inp.is_core(i),
    ensures
        outer_inv(inp, cls.update(i, 0), k, starts, i + 1),
{
    let c2 = cls.update(i, 0);
    assert(!inp.seed(i));
    assert forall|p: int| 0 <= p < inp.size() implies #[trigger] class_ok(inp, c2, k, p) by {
        assert(class_ok(inp, cls, k, p));
    }
    assert forall|v: int| 0 <= v < k implies #[trigger] start_ok(inp, c2, starts, v) by {
        assert(start_ok(inp, cls, starts, v));
    }
    assert forall|p: int| #[trigger] member_ok(inp, c2, starts, p) by {
        assert(member_ok(inp, cls, starts, p));
    }
    assert forall|a: int, b: int| #[trigger] agree_ok(inp, c2, a, b) by {
        assert(agree_ok(inp, cls, a, b));
    }
    assert forall|p: int| #[trigger] border_ok(inp, c2, p) by {
        assert(border_ok(inp, cls, p));
        if 0 <= p < inp.size() && !inp.seed(p) && (inp.init[p] == -1 || inp.init[p] == 0) && c2[p] >= 1 {
            let q = choose|q: int| inp.seed(q) && #[trigger] inp.near(q, p) && cls[q] == cls[p];
            assert(inp.seed(q) && inp.near(q, p) && c2[q] == c2[p]);
        }
    }
    assert forall|c: int| #[trigger] seed_closed(inp, c2, c) by {
        assert(seed_closed(inp, cls, c));
        if inp.seed(c) && c2[c] != -1 {
            assert forall|d: int| #[trigger] inp.near(c, d) implies c2[d] != -1 && c2[d] != 0 by {
                assert(cls[d] != -1);
            }
        }
    }
    assert(leaders_upto(inp, k, starts, i + 1)) by {
        assert forall|a: int| 0 <= a < i + 1 && #[trigger] inp.leader(a) implies exists|v: int|
            0 <= v < k && starts[v] == a by {
            if a == i {
                assert(false);
            }
        }
    }
}

/// An unvisited core point is a leader: no seed before it is linked to it.
proof fn lemma_new_leader(inp: ClusterInput, cls: Seq<i8>, k: int, starts: Seq<int>, i: int)
    requires
        outer_inv(inp, cls, k, starts, i),
        i < inp.size(),
        cls[i] == -1,
        inp.seed(i),
    ensures
        inp.leader(i),
{
    assert forall|c: int, d: int|
        inp.seed(c) && cls[c] != -1 && #[trigger] inp.near(c, d) implies cls[d] != -1 by {
        assert(seed_closed(inp, cls, c));
    }
    assert forall|p: int| 0 <= p < i && inp.seed(p) implies !#[trigger] inp.linked(p, i) by {
        if inp.linked(p, i) {
            let path = choose|path: Seq<int>| #[trigger] inp.is_chain(path) && path[0] == p && path.last() == i;
            lemma_chain_reaches(inp, cls, path, path.len() - 1);
        }
    }
}

/// Starting cluster `k + 1` at the unvisited core point `i`.
/// An unvisited core point starts one cluster more than there are so far, and the
/// clusters started never outnumber the groups of linked seeds.
proof fn lemma_start_count(inp: ClusterInput, cls: Seq<i8>, k: int, starts: Seq<int>, i: int)
    requires
        outer_inv(inp, cls, k, starts, i),
        i < inp.size(),
        cls[i] == -1,
        inp.is_core(i),
    ensures
        inp.seed(i),
        inp.leader(i),
        k + 1 <= inp.cluster_count(),
{
    assert(class_ok(inp, cls, k, i));
    assert(inp.seed(i));
    lemma_new_leader(inp, cls, k, starts, i);
    let s2 = starts.push(i);
    assert forall|v: int| 0 <= v < s2.len() implies #[trigger] inp.leader(s2[v]) && 0 <= s2[v] < inp.size() by {
        if v < k {
            assert(start_ok(inp, cls, starts, v));
            assert(starts[v] < i);
        }
    }
    assert forall|u: int, v: int| 0 <= u < v < s2.len() implies s2[u] < s2[v] by {
        if v == k {
            assert(starts[u] < i);
        }
    }
    lemma_starts_bounded(inp, s2);
}

proof fn lemma_start(inp: ClusterInput, cls: Seq<i8>, k: int, starts: Seq<int>, i: int)
    requires
        outer_inv(inp, cls, k, starts, i),
        i < inp.size(),
        cls[i] == -1,
        inp.is_core(i),
        k < 127,
    ensures
        inner_inv(inp, cls.update(i, (k + 1) as i8), k + 1, starts.push(i), i, inp.neighbors(i), 0),
{
    lemma_start_count(inp, cls, k, starts, i);
    let s2 = starts.push(i);
    let k2 = k + 1;
    let c2 = cls.update(i, k2 as i8);
    let w = inp.neighbors(i);
    lemma_near_positions(inp.idx, inp.idx[i], inp.eps, inp.size());
    assert forall|p: int| 0 <= p < inp.size() implies #[trigger] class_ok(inp, c2, k2, p) by {
        assert(class_ok(inp, cls, k, p));
    }
    assert forall|v: int| 0 <= v < k2 implies #[trigger] start_ok(inp, c2, s2, v) by {
        if v < k {
            assert(start_ok(inp, cls, starts, v));
            assert(starts[v] < i);
        }
    }
    assert forall|p: int| #[trigger] member_ok(inp, c2, s2, p) by {
        assert(member_ok(inp, cls, starts, p));
        if p == i {
            lemma_chain_single(inp, i);
        } else if inp.seed(p) && c2[p] >= 1 {
            assert(class_ok(inp, cls, k, p));
            assert(s2[c2[p] - 1] == starts[cls[p] - 1]);
        }
    }
    assert forall|a: int, b: int| #[trigger] agree_ok(inp, c2, a, b) by {
        assert(agree_ok(inp, cls, a, b));
        if inp.seed(a) && inp.seed(b) && inp.near(a, b) && c2[a] != -1 && c2[b] != -1 {
            if a == i && b != i {
                assert(seed_closed(inp, cls, b));
                assert(inp.near(b, a));
            } else if b == i && a != i {
                assert(seed_closed(inp, cls, a));
            }
        }
    }
    assert forall|p: int| #[trigger] border_ok(inp, c2, p) by {
        assert(border_ok(inp, cls, p));
        if 0 <= p < inp.size() && !inp.seed(p) && (inp.init[p] == -1 || inp.init[p] == 0) && c2[p] >= 1 {
            assert(class_ok(inp, cls, k, p));
            let q = choose|q: int| inp.seed(q) && #[trigger] inp.near(q, p) && cls[q] == cls[p];
            assert(inp.seed(q) && inp.near(q, p) && c2[q] == c2[p]);
            assert forall|q: int| inp.seed(q) && #[trigger] inp.near(q, p) implies c2[q] == -1 || c2[q] >= c2[p] by {
            }
        }
    }
    assert forall|c: int| #[trigger] seed_closed_or_pending(inp, c2, k2, w, c) by {
        assert(seed_closed(inp, cls, c));
        if c == i {
            assert forall|d: int| #[trigger] inp.near(c, d) implies w.contains(d as usize) by {
            }
        } else if inp.seed(c) && c2[c] != -1 {
            assert forall|d: int| #[trigger] inp.near(c, d) implies c2[d] != -1 && c2[d] != 0 by {
            }
        }
    }
    assert forall|m: int| 0 <= m < w.len() implies #[trigger] supported(inp, c2, k2, w, m) by {
        assert(w.contains(w[m]));
        assert(inp.near(i, w[m] as int));
    }
    assert(leaders_upto(inp, k2, s2, i + 1)) by {
        assert forall|a: int| 0 <= a < i + 1 && #[trigger] inp.leader(a) implies exists|v: int|
            0 <= v < k2 && s2[v] == a by {
            if a == i {
                assert(s2[k] == i);
            } else {
                let v = choose|v: int| 0 <= v < k && starts[v] == a;
                assert(s2[v] == a);
            }
        }
    }
    assert(visited_upto(c2, i + 1));
}

/// Passing over a work-list entry that is already in a cluster, or kept its own class.
proof fn lemma_expand_skip(
    inp: ClusterInput,
    cls: Seq<i8>,
    k: int,
    starts: Seq<int>,
    i: int,
    w: Seq<usize>,
    j: int,
)
    requires
        inner_inv(inp, cls, k, starts, i, w, j),
        j < w.len(),
        cls[w[j] as int] != -1,
        cls[w[j] as int] != 0,
    ensures
        inner_inv(inp, cls, k, starts, i, w, j + 1),
{
}

/// Labelling `q`, which was unvisited or noise, with the growing cluster `k`; where `q` is
/// a core point that was unvisited, the work list grows from `w` to `w2` by its neighbours.
proof fn lemma_expand_label(
    inp: ClusterInput,
    cls: Seq<i8>,
    k: int,
    starts: Seq<int>,
    i: int,
    w: Seq<usize>,
    j: int,
    w2: Seq<usize>,
)
    requires
        inner_inv(inp, cls, k, starts, i, w, j),
        j < w.len(),
        cls[w[j] as int] == -1 || cls[w[j] as int] == 0,
        w2.len() >= w.len(),
        w2.take(w.len() as int) == w,
        forall|x: usize| #[trigger] w2.contains(x) <==> w.contains(x) || (cls[w[j] as int] == -1
            && inp.is_core(w[j] as int) && inp.neighbors(w[j] as int).contains(x)),
    ensures
        inner_inv(inp, cls.update(w[j] as int, k as i8), k, starts, i, w2, j + 1),
{
    let q = w[j] as int;
    let c2 = cls.update(q, k as i8);
    let grows = cls[q] == -1 && inp.is_core(q);
    assert(class_ok(inp, cls, k, q));
    assert(supported(inp, cls, k, w, j));
    let e = choose|e: int| inp.seed(e) && cls[e] == k && #[trigger] inp.near(e, w[j] as int);
    assert(e != q);
    lemma_near_positions(inp.idx, inp.idx[q], inp.eps, inp.size());
    assert forall|m: int| 0 <= m < w.len() implies w2[m] == w[m] by {
        assert(w2.take(w.len() as int)[m] == w[m]);
    }
    assert forall|p: int| 0 <= p < inp.size() implies #[trigger] class_ok(inp, c2, k, p) by {
        assert(class_ok(inp, cls, k, p));
    }
    assert forall|v: int| 0 <= v < k implies #[trigger] start_ok(inp, c2, starts, v) by {
        assert(start_ok(inp, cls, starts, v));
        assert(class_ok(inp, cls, k, starts[v]));
    }
    assert forall|p: int| #[trigger] member_ok(inp, c2, starts, p) by {
        assert(member_ok(inp, cls, starts, p));
        if p == q && inp.seed(q) {
            assert(member_ok(inp, cls, starts, e));
            lemma_linked_extend(inp, starts[k - 1], e, q);
        }
    }
    assert forall|a: int, b: int| #[trigger] agree_ok(inp, c2, a, b) by {
        assert(agree_ok(inp, cls, a, b));
        if inp.seed(a) && inp.seed(b) && inp.near(a, b) && c2[a] != -1 && c2[b] != -1 {
            if a == q && b != q {
                assert(seed_closed_or_pending(inp, cls, k, w, b));
                assert(inp.near(b, a));
            } else if b == q && a != q {
                assert(seed_closed_or_pending(inp, cls, k, w, a));
            }
        }
    }
    assert forall|p: int| #[trigger] border_ok(inp, c2, p) by {
        assert(border_ok(inp, cls, p));
        if 0 <= p < inp.size() && !inp.seed(p) && (inp.init[p] == -1 || inp.init[p] == 0) && c2[p] >= 1 {
            if p == q {
                assert(inp.seed(e) && inp.near(e, p) && c2[e] == c2[p]);
                assert forall|r: int| inp.seed(r) && #[trigger] inp.near(r, p) implies c2[r] == -1 || c2[r] >= c2[p] by {
                    assert(seed_closed_or_pending(inp, cls, k, w, r));
                }
            } else {
                assert(class_ok(inp, cls, k, p));
                let r0 = choose|r: int| inp.seed(r) && #[trigger] inp.near(r, p) && cls[r] == cls[p];
                assert(inp.seed(r0) && inp.near(r0, p) && c2[r0] == c2[p]);
                assert forall|r: int| inp.seed(r) && #[trigger] inp.near(r, p) implies c2[r] == -1 || c2[r] >= c2[p] by {
                }
            }
        }
    }
    assert forall|c: int| #[trigger] seed_closed_or_pending(inp, c2, k, w2, c) by {
        assert(seed_closed_or_pending(inp, cls, k, w, c));
        if inp.seed(c) && c2[c] != -1 {
            if c == q {
                assert(grows);
                assert forall|d: int| #[trigger] inp.near(c, d) implies w2.contains(d as usize) by {
                }
            } else if closed_at(inp, cls, c) {
                assert forall|d: int| #[trigger] inp.near(c, d) implies c2[d] != -1 && c2[d] != 0 by {
                }
            } else {
                assert forall|d: int| #[trigger] inp.near(c, d) implies w2.contains(d as usize) by {
                }
            }
        }
    }
    assert forall|m: int| 0 <= m < w2.len() implies #[trigger] w2[m] < inp.size() by {
        if m >= w.len() {
            assert(w2.contains(w2[m]));
            if w.contains(w2[m]) {
                let t = choose|t: int| 0 <= t < w.len() && #[trigger] w[t] == w2[m];
                assert(w[t] < inp.size());
            }
        }
    }
    assert forall|m: int| 0 <= m < j + 1 implies c2[#[trigger] w2[m] as int] != -1 && c2[w2[m] as int] != 0 by {
        assert(w2[m] == w[m]);
    }
    assert forall|m: int| 0 <= m < w2.len() implies #[trigger] supported(inp, c2, k, w2, m) by {
        if m < w.len() {
            assert(supported(inp, cls, k, w, m));
            assert(w2[m] == w[m]);
            let e1 = choose|e1: int| inp.seed(e1) && cls[e1] == k && #[trigger] inp.near(e1, w[m] as int);
            assert(inp.near(e1, w2[m] as int));
        } else {
            assert(w2.contains(w2[m]));
            if w.contains(w2[m]) {
                let t = choose|t: int| 0 <= t < w.len() && #[trigger] w[t] == w2[m];
                assert(supported(inp, cls, k, w, t));
                let e1 = choose|e1: int| inp.seed(e1) && cls[e1] == k && #[trigger] inp.near(e1, w[t] as int);
                assert(inp.near(e1, w2[m] as int));
            } else {
                assert(inp.neighbors(q).contains(w2[m]));
                let t = choose|t: int| 0 <= t < inp.neighbors(q).len() && #[trigger] inp.neighbors(q)[t] == w2[m];
                assert(inp.neighbors(q)[t] < inp.size());
                assert(inp.near(q, w2[m] as int));
            }
        }
    }
    assert(visited_upto(c2, i + 1));
}

/// When the work list is done, every seed of the new cluster is closed.
proof fn lemma_finish_cluster(
    inp: ClusterInput,
    cls: Seq<i8>,
    k: int,
    starts: Seq<int>,
    i: int,
    w: Seq<usize>,
)
    requires
        inner_inv(inp, cls, k, starts, i, w, w.len() as int),
    ensures
        outer_inv(inp, cls, k, starts, i + 1),
{
    assert forall|c: int| #[trigger] seed_closed(inp, cls, c) by {
        assert(seed_closed_or_pending(inp, cls, k, w, c));
        if inp.seed(c) && cls[c] != -1 && !closed_at(inp, cls, c) {
            assert forall|d: int| #[trigger] inp.near(c, d) implies cls[d] != -1 && cls[d] != 0 by {
                assert(w.contains(d as usize));
                let t = choose|t: int| 0 <= t < w.len() && #[trigger] w[t] == d as usize;
                assert(cls[w[t] as int] != -1);
            }
        }
    }
}

/// The index differences that a query around point `a` computes fit an `isize`.
proof fn lemma_query_fits(inp: ClusterInput, pts: Seq<DbscanPt>, a: int)
    requires
        indices_of(pts) == inp.idx,
        inp.offsets_fit(),
        0 <= a < inp.size(),
        inp.init[a] == -1,
    ensures
        pts.len() == inp.size(),
        pts[a].index == inp.idx[a],
        forall|b: int|
            0 <= b < pts.len() && pts[b].index != pts[a].index ==> isize::MIN < (
            pts[b].index as isize) - (pts[a].index as isize) <= isize::MAX,
{
    assert(pts.len() == indices_of(pts).len());
    assert forall|b: int|
        0 <= b < pts.len() && pts[b].index != pts[a].index implies isize::MIN < (
        pts[b].index as isize) - (pts[a].index as isize) <= isize::MAX by {
        assert(inp.idx[b] == pts[b].index);
        assert(inp.idx[a] == pts[a].index);
    }
}

/// The state at the start of a run.
proof fn lemma_initial(inp: ClusterInput)
    requires
        inp.init.len() == inp.size(),
        inp.size() <= usize::MAX,
    ensures
        outer_inv(inp, inp.init, 0, Seq::empty(), 0),
{
    let cls = inp.init;
    assert forall|p: int| 0 <= p < inp.size() implies #[trigger] class_ok(inp, cls, 0, p) by {
    }
    assert forall|p: int| #[trigger] member_ok(inp, cls, Seq::empty(), p) by {
    }
    assert forall|a: int, b: int| #[trigger] agree_ok(inp, cls, a, b) by {
    }
    assert forall|p: int| #[trigger] border_ok(inp, cls, p) by {
    }
    assert forall|c: int| #[trigger] seed_closed(inp, cls, c) by {
    }
}

/// At the end of a run, the clusters are the groups of linked seeds.
proof fn lemma_final(inp: ClusterInput, cls: Seq<i8>, k: int, starts: Seq<int>)
    requires
        outer_inv(inp, cls, k, starts, inp.size()),
    ensures
        k == inp.cluster_count(),
        clustered(inp, cls, k),
{
    assert forall|v: int| 0 <= v < starts.len() implies #[trigger] inp.leader(starts[v]) && 0 <= starts[v] < inp.size() by {
        assert(start_ok(inp, cls, starts, v));
    }
    lemma_starts_bounded(inp, starts);
    assert(inp.leaders() =~= starts.to_set()) by {
        assert forall|a: int| inp.leaders().contains(a) implies starts.to_set().contains(a) by {
            assert(inp.leader(a));
            let v = choose|v: int| 0 <= v < k && starts[v] == a;
            assert(starts[v] == a);
        }
    }
    assert forall|p: int|
        0 <= p < inp.size() && inp.init[p] != -1 && inp.init[p] != 0 implies #[trigger] cls[p]
            == inp.init[p] by {
        assert(class_ok(inp, cls, k, p));
    }
    assert forall|p: int| #[trigger] inp.seed(p) implies 1 <= cls[p] <= k by {
        assert(class_ok(inp, cls, k, p));
    }
    assert forall|c: int, d: int|
        inp.seed(c) && inp.seed(d) && #[trigger] inp.near(c, d) implies cls[c] == cls[d] by {
        assert(agree_ok(inp, cls, c, d));
    }
    assert forall|a: int, b: int|
        inp.seed(a) && inp.seed(b) implies (cls[a] == cls[b] <==> #[trigger] inp.linked(a, b)) by {
        if cls[a] == cls[b] {
            assert(member_ok(inp, cls, starts, a));
            assert(member_ok(inp, cls, starts, b));
            let st = starts[cls[a] - 1];
            lemma_linked_reverse(inp, st, a);
            lemma_linked_join(inp, a, st, b);
        }
        if inp.linked(a, b) {
            let path = choose|path: Seq<int>| #[trigger] inp.is_chain(path) && path[0] == a && path.last() == b;
            lemma_chain_same_class(inp, cls, path, path.len() - 1);
        }
    }
    assert forall|a: int, b: int|
        #[trigger] inp.leader(a) && #[trigger] inp.leader(b) && a < b implies cls[a] < cls[b] by {
        let va = choose|v: int| 0 <= v < k && starts[v] == a;
        let vb = choose|v: int| 0 <= v < k && starts[v] == b;
        assert(start_ok(inp, cls, starts, va));
        assert(start_ok(inp, cls, starts, vb));
        if va >= vb {
            if va > vb {
                assert(starts[vb] < starts[va]);
            }
        }
    }
    assert forall|p: int|
        0 <= p < inp.size() && !inp.seed(p) && (inp.init[p] == -1 || inp.init[p] == 0) implies {
            &&& (#[trigger] cls[p] == 0 || 1 <= cls[p] <= k)
            &&& (cls[p] == 0 <==> forall|q: int| inp.seed(q) ==> !inp.near(q, p))
            &&& (cls[p] >= 1 ==> exists|q: int|
                inp.seed(q) && #[trigger] inp.near(q, p) && cls[q] == cls[p])
            &&& (cls[p] >= 1 ==> forall|q: int|
                inp.seed(q) && #[trigger] inp.near(q, p) ==> cls[q] >= cls[p])
        } by {
        assert(class_ok(inp, cls, k, p));
        assert(border_ok(inp, cls, p));
        if cls[p] == 0 {
            assert forall|q: int| inp.seed(q) implies !inp.near(q, p) by {
                assert(seed_closed(inp, cls, q));
                assert(class_ok(inp, cls, k, q));
            }
        }
        if cls[p] >= 1 {
            assert forall|q: int| inp.seed(q) && #[trigger] inp.near(q, p) implies cls[q] >= cls[p] by {
                assert(class_ok(inp, cls, k, q));
            }
        }
    }
}

// ---------------------------------------------------------------------------------------
// Executable pieces
// ---------------------------------------------------------------------------------------

/// The positions of the points whose index lies within `eps` of `pt`, in order.
fn range_query(set_vec: &Vec<DbscanPt>, pt: usize, eps: usize) -> (n: Vec<usize>)
    requires
        forall|b: int|
            0 <= b < set_vec@.len() && set_vec@[b].index != pt ==> isize::MIN < (
            set_vec@[b].index as isize) - (pt as isize) <= isize::MAX,
    ensures
        n@ == near_positions(indices_of(set_vec@), pt, eps, set_vec@.len() as int),
{
    let ghost idx = indices_of(set_vec@);
    let mut n: Vec<usize> = Vec::new();
    let mut b: usize = 0;
    while b < set_vec.len()
        invariant
            b <= set_vec@.len(),
            idx == indices_of(set_vec@),
            n@ == near_positions(idx, pt, eps, b as int),
            forall|b: int|
                0 <= b < set_vec@.len() && set_vec@[b].index != pt ==> isize::MIN < (
                set_vec@[b].index as isize) - (pt as isize) <= isize::MAX,
        decreases set_vec.len() - b,
    {
        let x = set_vec[b].index;
        if x != pt {
            let d: isize = (x as isize) - (pt as isize);
            let ad: isize = if d < 0 {
                -d
            } else {
                d
            };
            if ad <= (eps as isize) {
                n.push(b);
            }
        }
        b = b + 1;
    }
    n
}

/// Sets the class of the point at position `p`.
fn set_class(v: &mut Vec<DbscanPt>, p: usize, c: i8)
    requires
        p < old(v)@.len(),
    ensures
        final(v)@.len() == old(v)@.len(),
        indices_of(final(v)@) == indices_of(old(v)@),
        classes_of(final(v)@) == classes_of(old(v)@).update(p as int, c),
{
    let index = v[p].index;
    v.set(p, DbscanPt { index, class: c });
    assert(indices_of(v@) =~= indices_of(old(v)@));
    assert(classes_of(v@) =~= classes_of(old(v)@).update(p as int, c));
}

/// Appends to `w` each element of `extra` that it does not hold yet.
fn merge_new(w: &mut Vec<usize>, extra: &Vec<usize>)
    ensures
        final(w)@.len() <= old(w)@.len() + extra@.len(),
        final(w)@.len() >= old(w)@.len(),
        final(w)@.take(old(w)@.len() as int) == old(w)@,
        forall|x: usize| #[trigger] final(w)@.contains(x) <==> old(w)@.contains(x) || extra@.contains(x),
{
    let ghost w0 = w@;
    let mut i: usize = 0;
    while i < extra.len()
        invariant
            i <= extra@.len(),
            w@.len() <= w0.len() + i,
            w@.take(w0.len() as int) == w0,
            w0.len() <= w@.len(),
            forall|x: usize| #[trigger] w@.contains(x) <==> w0.contains(x) || extra@.take(i as int).contains(x),
        decreases extra.len() - i,
    {
        let x = extra[i];
        let mut found = false;
        let mut k: usize = 0;
        while k < w.len()
            invariant
                k <= w@.len(),
                found <==> exists|t: int| 0 <= t < k && #[trigger] w@[t] == x,
            decreases w.len() - k,
        {
            if w[k] == x {
                found = true;
            }
            k = k + 1;
        }
        let ghost before = w@;
        assert(found <==> before.contains(x));
        if !found {
            w.push(x);
            assert(w@.take(w0.len() as int) =~= before.take(w0.len() as int));
        }
        proof {
            lemma_push_contains(extra@.take(i as int), x);
            assert(extra@.take(i + 1) =~= extra@.take(i as int).push(x));
            if !found {
                lemma_push_contains(before, x);
            }
            assert forall|y: usize| #[trigger] w@.contains(y) <==> w0.contains(y) || extra@.take(
                i + 1,
            ).contains(y) by {
                assert(extra@.take(i + 1).contains(y) <==> extra@.take(i as int).contains(y) || y
                    == x);
                if !found {
                    assert(w@.contains(y) <==> before.contains(y) || y == x);
                }
            }
        }
        i = i + 1;
    }
    assert(extra@.take(i as int) =~= extra@);
}

/// The run of the clustering; `None` where a 128th cluster would start.
fn cluster_points(set_vec: &mut Vec<DbscanPt>, eps: usize, min_pts: usize) -> (r: Option<i8>)
    requires
        input_of(old(set_vec)@, eps, min_pts).offsets_fit(),
    ensures
        r is None ==> input_of(old(set_vec)@, eps, min_pts).cluster_count() > 127,
        r matches Some(n) ==> {
            &&& indices_of(final(set_vec)@) == indices_of(old(set_vec)@)
            &&& n as int == input_of(old(set_vec)@, eps, min_pts).cluster_count()
            &&& clustered(input_of(old(set_vec)@, eps, min_pts), classes_of(final(set_vec)@), n as int)
        },
{
    let ghost inp = input_of(set_vec@, eps, min_pts);
    let ghost mut starts: Seq<int> = Seq::empty();
    let mut class: i8 = 0;
    let n = set_vec.len();
    proof {
        assert(classes_of(set_vec@) == inp.init);
        lemma_initial(inp);
    }
    let mut i: usize = 0;
    while i < n
        invariant
            n == set_vec@.len(),
            n == inp.size(),
            inp == input_of(old(set_vec)@, eps, min_pts),
            inp.eps == eps,
            inp.min_pts == min_pts,
            indices_of(set_vec@) == inp.idx,
            inp.offsets_fit(),
            outer_inv(inp, classes_of(set_vec@), class as int, starts, i as int),
        decreases n - i,
    {
        let ghost cls = classes_of(set_vec@);
        if set_vec[i].class == -1 {
            proof {
                assert(class_ok(inp, cls, class as int, i as int));
                assert(cls[i as int] == set_vec@[i as int].class);
                lemma_query_fits(inp, set_vec@, i as int);
            }
            let index = set_vec[i].index;
            let mut neighbor_set = range_query(set_vec, index, eps);
            assert(neighbor_set@ == inp.neighbors(i as int));
            if neighbor_set.len() < min_pts {
                proof {
                    lemma_outer_noise(inp, cls, class as int, starts, i as int);
                }
                set_class(set_vec, i, 0);
            } else {
                if class == 127 {
                    proof {
                        lemma_start_count(inp, cls, class as int, starts, i as int);
                    }
                    return None;
                }
                proof {
                    lemma_start(inp, cls, class as int, starts, i as int);
                }
                class = class + 1;
                set_class(set_vec, i, class);
                proof {
                    starts = starts.push(i as int);
                }
                let mut j: usize = 0;
                while j < neighbor_set.len()
                    invariant
                        n == set_vec@.len(),
                        n == inp.size(),
                        inp.eps == eps,
                        inp.min_pts == min_pts,
                        indices_of(set_vec@) == inp.idx,
                        inp.offsets_fit(),
                        inner_inv(
                            inp,
                            classes_of(set_vec@),
                            class as int,
                            starts,
                            i as int,
                            neighbor_set@,
                            j as int,
                        ),
                    decreases count_unvisited(classes_of(set_vec@)), neighbor_set.len() - j,
                {
                    let ghost cls1 = classes_of(set_vec@);
                    let ghost w0 = neighbor_set@;
                    let q = neighbor_set[j];
                    proof {
                        assert(q < n);
                        assert(cls1[q as int] == set_vec@[q as int].class);
                        assert(inp.idx[q as int] == set_vec@[q as int].index);
                        assert(class_ok(inp, cls1, class as int, q as int));
                    }
                    let c = set_vec[q].class;
                    if c == 0 {
                        proof {
                            assert(w0.take(w0.len() as int) =~= w0);
                            lemma_expand_label(inp, cls1, class as int, starts, i as int, w0, j as int, w0);
                            lemma_count_update(cls1, q as int, class);
                        }
                        set_class(set_vec, q, class);
                    } else if c == -1 {
                        set_class(set_vec, q, class);
                        proof {
                            lemma_query_fits(inp, set_vec@, q as int);
                        }
                        let qi = set_vec[q].index;
                        let n_set = range_query(set_vec, qi, eps);
                        assert(n_set@ == inp.neighbors(q as int));
                        if n_set.len() >= min_pts {
                            merge_new(&mut neighbor_set, &n_set);
                        } else {
                            assert(neighbor_set@.take(w0.len() as int) =~= w0);
                        }
                        proof {
                            lemma_expand_label(
                                inp,
                                cls1,
                                class as int,
                                starts,
                                i as int,
                                w0,
                                j as int,
                                neighbor_set@,
                            );
                            lemma_count_update(cls1, q as int, class);
                        }
                    } else {
                        proof {
                            lemma_expand_skip(inp, cls1, class as int, starts, i as int, w0, j as int);
                        }
                    }
                    j = j + 1;
                }
                proof {
                    lemma_finish_cluster(inp, classes_of(set_vec@), class as int, starts, i as int, neighbor_set@);
                }
            }
        } else {
            proof {
                lemma_outer_skip(inp, cls, class as int, starts, i as int);
            }
        }
        i = i + 1;
    }
    proof {
        lemma_final(inp, classes_of(set_vec@), class as int, starts);
    }
    Some(class)
}

/// Clusters the points by density.
///
/// Each point that starts unvisited (class `-1`) is visited in order. One with fewer than
/// `min_pts` neighbours (points whose index lies within `eps` of its own) becomes noise
/// (class `0`); one with at least that many starts the next cluster, which takes in every point
/// that a chain of such core points reaches, noise included. Returns the number of clusters.
pub fn dbscan(set_vec: &mut Vec<DbscanPt>, eps: usize, min_pts: usize) -> (r: i8)
    requires
        input_of(old(set_vec)@, eps, min_pts).offsets_fit(),
        input_of(old(set_vec)@, eps, min_pts).cluster_count() <= 127,
    ensures
        indices_of(final(set_vec)@) == indices_of(old(set_vec)@),
        r as int == input_of(old(set_vec)@, eps, min_pts).cluster_count(),
        clustered(input_of(old(set_vec)@, eps, min_pts), classes_of(final(set_vec)@), r as int),
{
    cluster_points(set_vec, eps, min_pts).unwrap()
}

/// Clusters as `dbscan` does where that finds at most 127 clusters; where it would find
/// more, returns `None` and leaves the points as they were.
pub fn try_dbscan(set_vec: &mut Vec<DbscanPt>, eps: usize, min_pts: usize) -> (r: Option<i8>)
    requires
        input_of(old(set_vec)@, eps, min_pts).offsets_fit(),
    ensures
        r is Some <==> input_of(old(set_vec)@, eps, min_pts).cluster_count() <= 127,
        r is None ==> final(set_vec)@ == old(set_vec)@,
        r matches Some(n) ==> {
            &&& indices_of(final(set_vec)@) == indices_of(old(set_vec)@)
            &&& n as int == input_of(old(set_vec)@, eps, min_pts).cluster_count()
            &&& clustered(input_of(old(set_vec)@, eps, min_pts), classes_of(final(set_vec)@), n as int)
        },
{
    let mut work: Vec<DbscanPt> = Vec::new();
    let mut k: usize = 0;
    while k < set_vec.len()
        invariant
            k <= set_vec@.len(),
            work@ == set_vec@.take(k as int),
        decreases set_vec.len() - k,
    {
        work.push(set_vec[k]);
        k = k + 1;
        assert(work@ =~= set_vec@.take(k as int));
    }
    assert(work@ =~= set_vec@);
    match cluster_points(&mut work, eps, min_pts) {
        Some(n) => {
            *set_vec = work;
            Some(n)
        },
        None => None,
    }
}

/// The index of the first point of class `class`, or `usize::MAX` where none has it.
pub open spec fn first_index_of_class(set: Seq<DbscanPt>, class: i8) -> usize
    decreases set.len(),
{
    if set.len() == 0 {
        usize::MAX
    } else if set[0].class == class {
        set[0].index
    } else {
        first_index_of_class(set.drop_first(), class)
    }
}

/// The largest index among the points of class `class`, or 0 where none has it.
pub open spec fn max_index_of_class(set: Seq<DbscanPt>, class: i8) -> usize
    decreases set.len(),
{
    if set.len() == 0 {
        0
    } else {
        let m = max_index_of_class(set.drop_last(), class);
        if set.last().class == class && m < set.last().index {
            set.last().index
        } else {
            m
        }
    }
}

/// The index of the first point of class `class`, or `usize::MAX` where no point has it.
pub fn get_min_index(set: &Vec<DbscanPt>, class: i8) -> (r: usize)
    ensures
        r == first_index_of_class(set@, class),
{
    let mut k: usize = 0;
    assert(set@.skip(0) =~= set@);
    while k < set.len()
        invariant
            k <= set@.len(),
            first_index_of_class(set@, class) == first_index_of_class(set@.skip(k as int), class),
        decreases set.len() - k,
    {
        assert(set@.skip(k as int).drop_first() =~= set@.skip(k + 1));
        if set[k].class == class {
            return set[k].index;
        }
        k = k + 1;
    }
    usize::MAX
}

/// The largest index among the points of class `class`, or 0 where no point has it.
pub fn get_max_index(set: &Vec<DbscanPt>, class: i8) -> (r: usize)
    ensures
        r == max_index_of_class(set@, class),
{
    let mut index: usize = 0;
    let mut k: usize = 0;
    assert(set@.take(0) =~= Seq::<DbscanPt>::empty());
    while k < set.len()
        invariant
            k <= set@.len(),
            index == max_index_of_class(set@.take(k as int), class),
        decreases set.len() - k,
    {
        assert(set@.take(k + 1).drop_last() =~= set@.take(k as int));
        if set[k].class == class {
            if index < set[k].index {
                index = set[k].index;
            }
        }
        k = k + 1;
    }
    assert(set@.take(k as int) =~= set@);
    index
}

proof fn lemma_first_index_found(set: Seq<DbscanPt>, class: i8)
    requires
        exists|k: int| 0 <= k < set.len() && set[k].class == class,
    ensures
        exists|k: int|
            0 <= k < set.len() && set[k].class == class && set[k].index == first_index_of_class(
                set,
                class,
            ),
    decreases set.len(),
{
    if set[0].class != class {
        let k = choose|k: int| 0 <= k < set.len() && set[k].class == class;
        assert(set.drop_first()[k - 1] == set[k]);
        lemma_first_index_found(set.drop_first(), class);
        let j = choose|j: int|
            0 <= j < set.drop_first().len() && set.drop_first()[j].class == class
                && set.drop_first()[j].index == first_index_of_class(set.drop_first(), class);
        assert(set[j + 1] == set.drop_first()[j]);
    }
}

proof fn lemma_max_index_bounds(set: Seq<DbscanPt>, class: i8)
    ensures
        forall|k: int|
            0 <= k < set.len() && set[k].class == class ==> set[k].index <= max_index_of_class(
                set,
                class,
            ),
    decreases set.len(),
{
    if set.len() > 0 {
        lemma_max_index_bounds(set.drop_last(), class);
        assert forall|k: int| 0 <= k < set.len() && set[k].class == class implies set[k].index
            <= max_index_of_class(set, class) by {
            if k < set.len() - 1 {
                assert(set.drop_last()[k] == set[k]);
            }
        }
    }
}

/// Where some point has class `class`, the first index of the class is at most its largest
/// index: the two bound the class's extent.
pub proof fn lemma_class_extent(set: Seq<DbscanPt>, class: i8)
    requires
        exists|k: int| 0 <= k < set.len() && set[k].class == class,
    ensures
        first_index_of_class(set, class) <= max_index_of_class(set, class),
{
    lemma_first_index_found(set, class);
    lemma_max_index_bounds(set, class);
}

/// Clustering a second time changes nothing: the first run visited every point and left
/// no unvisited core point, so the second finds no cluster and keeps every class.
pub proof fn lemma_second_run_keeps_classes(
    pts: Seq<DbscanPt>,
    eps: usize,
    min_pts: usize,
    fin: Seq<DbscanPt>,
    r: int,
    fin2: Seq<i8>,
    r2: int,
)
    requires
        indices_of(fin) == indices_of(pts),
        clustered(input_of(pts, eps, min_pts), classes_of(fin), r),
        r2 == input_of(fin, eps, min_pts).cluster_count(),
        clustered(input_of(fin, eps, min_pts), fin2, r2),
    ensures
        r2 == 0,
        fin2 == classes_of(fin),
{
    let inp1 = input_of(pts, eps, min_pts);
    let inp2 = input_of(fin, eps, min_pts);
    assert(inp2.init == classes_of(fin));
    assert forall|p: int| 0 <= p < inp2.size() implies inp2.init[p] != -1 by {
        assert(inp2.init[p] == classes_of(fin)[p]);
        assert(inp1.idx.len() == inp2.idx.len());
        if inp1.init[p] == -1 {
            assert(classes_of(fin)[p] != -1);
        } else if inp1.init[p] != 0 {
            assert(classes_of(fin)[p] == inp1.init[p]);
        } else {
            if !inp1.seed(p) {
                assert(classes_of(fin)[p] == 0 || 1 <= classes_of(fin)[p] <= r);
            }
        }
    }
    assert(inp2.leaders() =~= Set::<int>::empty()) by {
        assert forall|a: int| !inp2.leaders().contains(a) by {
            if 0 <= a < inp2.size() {
                assert(inp2.init[a] != -1);
            }
        }
    }
    assert forall|p: int| 0 <= p < fin2.len() implies fin2[p] == classes_of(fin)[p] by {
        assert(inp2.init[p] != -1);
        if inp2.init[p] == 0 {
            assert(!inp2.seed(p));
            assert(fin2[p] == 0 || 1 <= fin2[p] <= r2);
        }
    }
    assert(fin2 =~= classes_of(fin));
}

} // verus!
