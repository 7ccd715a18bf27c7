//! Hopcroft–Karp on a dense bipartite graph: left ids `0..nl`, right ids `0..nr`.
//! A partner of `None` plays the part of the guard vertex: "unmatched" when
//! stored as a partner, and the synthetic sink of every augmenting path.
use vstd::prelude::*;

verus! {

/// Layer depth of a vertex that the breadth-first search did not reach.
pub const INF: usize = usize::MAX;

/// Adjacency of the left ids: `adj[u]` lists the right ids next to `u`.
pub struct DenseGraph {
    pub nl: usize,
    pub nr: usize,
    pub adj: Vec<Vec<usize>>,
}

impl DenseGraph {
    pub open spec fn wf(&self) -> bool {
        &&& self.adj@.len() == self.nl
        &&& self.nl < usize::MAX
        &&& forall|u: int, j: int|
            0 <= u < self.nl && 0 <= j < self.adj@[u]@.len() ==> #[trigger] self.adj@[u]@[j]
                < self.nr
    }

    pub open spec fn has_edge(&self, u: int, v: int) -> bool {
        &&& 0 <= u < self.adj@.len()
        &&& exists|j: int| 0 <= j < self.adj@[u]@.len() && #[trigger] self.adj@[u]@[j] == v
    }
}

/// The pairings are inverse to each other and use edges of `g`, except that the
/// right vertex `ex` may still name a left partner that has moved on.
pub open spec fn pairs_ok_except(
    g: &DenseGraph,
    pl: Seq<Option<usize>>,
    pr: Seq<Option<usize>>,
    ex: Option<usize>,
) -> bool {
    &&& pl.len() == g.nl
    &&& pr.len() == g.nr
    &&& forall|u: int|
        0 <= u < pl.len() && (#[trigger] pl[u]) is Some ==> {
            let v = pl[u]->0;
            &&& v < g.nr
            &&& pr[v as int] == Some(u as usize)
            &&& g.has_edge(u, v as int)
        }
    &&& forall|v: int| 0 <= v < pr.len() && (#[trigger] pr[v]) is Some ==> pr[v]->0 < g.nl
    &&& forall|v: int|
        0 <= v < pr.len() && (#[trigger] pr[v]) is Some && ex != Some(v as usize) ==> pl[pr[v]->0 as int]
            == Some(v as usize)
}

pub open spec fn pairs_ok(g: &DenseGraph, pl: Seq<Option<usize>>, pr: Seq<Option<usize>>) -> bool {
    pairs_ok_except(g, pl, pr, None)
}

/// Some shortest augmenting path starts at `u` in the layering `dist`, `dg`:
/// each step goes to a right neighbour whose partner lies one layer deeper,
/// and the last reaches an unmatched right vertex at the guard's depth.
pub open spec fn layered(
    g: &DenseGraph,
    pr: Seq<Option<usize>>,
    dist: Seq<usize>,
    dg: usize,
    u: int,
) -> bool
    decreases dg - dist[u],
{
    if 0 <= u < dist.len() && u < g.adj@.len() && dist[u] < dg {
        exists|j: int|
            0 <= j < g.adj@[u]@.len() && {
                let v = #[trigger] g.adj@[u]@[j];
                &&& 0 <= v < pr.len()
                &&& match pr[v as int] {
                    None => dg == dist[u] + 1,
                    Some(w) => 0 <= w < dist.len() && dist[w as int] == dist[u] + 1 && layered(
                        g,
                        pr,
                        dist,
                        dg,
                        w as int,
                    ),
                }
            }
    } else {
        false
    }
}

/// Raising to `INF` the depth of vertices from which no layered path starts
/// keeps every layered path.
pub proof fn lemma_marks_keep_paths(
    g: &DenseGraph,
    pr: Seq<Option<usize>>,
    d0: Seq<usize>,
    d1: Seq<usize>,
    dg: usize,
    x: int,
)
    requires
        d0.len() == d1.len(),
        forall|y: int| 0 <= y < d0.len() && d1[y] != d0[y] ==> !layered(g, pr, d0, dg, y),
        layered(g, pr, d0, dg, x),
    ensures
        layered(g, pr, d1, dg, x),
    decreases dg - d0[x],
{
    let j = choose|j: int|
        0 <= j < g.adj@[x]@.len() && {
            let v = #[trigger] g.adj@[x]@[j];
            &&& 0 <= v < pr.len()
            &&& match pr[v as int] {
                None => dg == d0[x] + 1,
                Some(w) => 0 <= w < d0.len() && d0[w as int] == d0[x] + 1 && layered(
                    g,
                    pr,
                    d0,
                    dg,
                    w as int,
                ),
            }
        };
    let v = g.adj@[x]@[j];
    if let Some(w) = pr[v as int] {
        lemma_marks_keep_paths(g, pr, d0, d1, dg, w as int);
    }
}

pub open spec fn matched_count(pl: Seq<Option<usize>>) -> nat
    decreases pl.len(),
{
    if pl.len() == 0 {
        0
    } else {
        matched_count(pl.drop_last()) + if pl.last() is Some {
            1nat
        } else {
            0nat
        }
    }
}

pub proof fn lemma_count_bound(pl: Seq<Option<usize>>)
    ensures
        matched_count(pl) <= pl.len(),
    decreases pl.len(),
{
    if pl.len() > 0 {
        lemma_count_bound(pl.drop_last());
    }
}

pub proof fn lemma_count_step(a: Seq<Option<usize>>, b: Seq<Option<usize>>, u: int)
    requires
        a.len() == b.len(),
        0 <= u < a.len(),
        a[u] is None,
        b[u] is Some,
        forall|x: int| 0 <= x < a.len() && x != u ==> (a[x] is Some) == (b[x] is Some),
    ensures
        matched_count(b) == matched_count(a) + 1,
    decreases a.len(),
{
    if u < a.len() - 1 {
        lemma_count_step(a.drop_last(), b.drop_last(), u);
    } else {
        lemma_count_same(a.drop_last(), b.drop_last());
    }
}

pub proof fn lemma_count_same(a: Seq<Option<usize>>, b: Seq<Option<usize>>)
    requires
        a.len() == b.len(),
        forall|x: int| 0 <= x < a.len() ==> (a[x] is Some) == (b[x] is Some),
    ensures
        matched_count(b) == matched_count(a),
    decreases a.len(),
{
    if a.len() > 0 {
        lemma_count_same(a.drop_last(), b.drop_last());
    }
}

/// When the layering found no augmenting path: every unmatched left vertex was
/// reached, and each reached left vertex has only matched right neighbours whose
/// partners were reached too.
pub open spec fn closed(
    g: &DenseGraph,
    pl: Seq<Option<usize>>,
    pr: Seq<Option<usize>>,
    dist: Seq<usize>,
) -> bool {
    &&& forall|u: int| 0 <= u < g.nl && (#[trigger] pl[u]) is None ==> dist[u] < INF
    &&& forall|u: int, j: int|
        0 <= u < g.nl && dist[u] < INF && 0 <= j < g.adj@[u]@.len() ==> {
            let v = #[trigger] g.adj@[u]@[j];
            &&& pr[v as int] is Some
            &&& dist[pr[v as int]->0 as int] < INF
        }
}

/// `x` entered the layering through the edge `adj[p][j]`, whose right end is
/// matched to `x`.
pub open spec fn parent_of(
    g: &DenseGraph,
    pr: Seq<Option<usize>>,
    dist: Seq<usize>,
    x: int,
    p: int,
    j: int,
) -> bool {
    &&& 0 <= p < g.nl
    &&& 0 <= j < g.adj@[p]@.len()
    &&& pr[g.adj@[p]@[j] as int] == Some(x as usize)
    &&& dist[p] + 1 == dist[x]
}

pub proof fn lemma_layered_to_free(
    g: &DenseGraph,
    pl: Seq<Option<usize>>,
    pr: Seq<Option<usize>>,
    dist: Seq<usize>,
    dg: usize,
    x: int,
)
    requires
        g.wf(),
        pairs_ok(g, pl, pr),
        dist.len() == g.nl,
        0 <= x < g.nl,
        layered(g, pr, dist, dg, x),
        forall|y: int|
            0 <= y < g.nl && dist[y] < INF && (#[trigger] pl[y]) is Some ==> exists|p: int, j: int|
                parent_of(g, pr, dist, y, p, j),
    ensures
        exists|u: int| 0 <= u < g.nl && pl[u] is None && layered(g, pr, dist, dg, u),
    decreases dist[x],
{
    if pl[x] is Some {
        let (p, j) = choose|p: int, j: int| parent_of(g, pr, dist, x, p, j);
        let v = g.adj@[p]@[j];
        assert(v < g.nr);
        assert(layered(g, pr, dist, dg, p));
        lemma_layered_to_free(g, pl, pr, dist, dg, p);
    }
}

/// What holds throughout the breadth-first layering.
pub open spec fn bfs_inv(
    g: &DenseGraph,
    pl: Seq<Option<usize>>,
    pr: Seq<Option<usize>>,
    dist: Seq<usize>,
    dg: usize,
    queue: Seq<usize>,
) -> bool {
    &&& g.wf()
    &&& pairs_ok(g, pl, pr)
    &&& dist.len() == g.nl
    &&& queue.len() <= g.nl
    &&& forall|k: int|
        0 <= k < queue.len() ==> #[trigger] queue[k] < g.nl && dist[queue[k] as int] < INF
            && dist[queue[k] as int] <= k
    &&& forall|k1: int, k2: int| 0 <= k1 < k2 < queue.len() ==> queue[k1] != queue[k2]
    &&& forall|x: int|
        0 <= x < g.nl && #[trigger] dist[x] < INF ==> exists|k: int|
            0 <= k < queue.len() && queue[k] == x
    &&& forall|k1: int, k2: int|
        0 <= k1 <= k2 < queue.len() ==> dist[#[trigger] queue[k1] as int] <= dist[#[trigger] queue[k2] as int]
    &&& forall|x: int| 0 <= x < g.nl && (#[trigger] pl[x]) is None ==> dist[x] == 0
    &&& forall|x: int| 0 <= x < g.nl && (#[trigger] pl[x]) is Some ==> dist[x] != 0
    &&& forall|x: int|
        0 <= x < g.nl && dist[x] < INF && (#[trigger] pl[x]) is Some ==> exists|p: int, j: int|
            parent_of(g, pr, dist, x, p, j)
    &&& dg < INF ==> exists|p: int, j: int| guard_parent(g, pr, dist, dg, p, j)
}

/// The guard entered the layering through the edge `adj[p][j]`, whose right
/// end is unmatched.
pub open spec fn guard_parent(
    g: &DenseGraph,
    pr: Seq<Option<usize>>,
    dist: Seq<usize>,
    dg: usize,
    p: int,
    j: int,
) -> bool {
    &&& 0 <= p < g.nl
    &&& 0 <= j < g.adj@[p]@.len()
    &&& pr[g.adj@[p]@[j] as int] is None
    &&& dist[p] + 1 == dg
}

/// If `u` lies above the guard, its `j`-th neighbour leads at most one layer
/// deeper: to the guard when unmatched, else to its partner.
pub open spec fn explored(
    g: &DenseGraph,
    pr: Seq<Option<usize>>,
    dist: Seq<usize>,
    dg: usize,
    u: int,
    j: int,
) -> bool {
    dist[u] < dg ==> match pr[g.adj@[u]@[j] as int] {
        None => dg <= dist[u] + 1,
        Some(w) => dist[w as int] <= dist[u] + 1,
    }
}

/// No depth in the queue, nor the guard's once finite, exceeds `d + 1`.
pub open spec fn capped(dist: Seq<usize>, dg: usize, queue: Seq<usize>, d: int) -> bool {
    &&& forall|k: int| 0 <= k < queue.len() ==> dist[#[trigger] queue[k] as int] <= d + 1
    &&& dg < INF ==> dg <= d + 1
}

/// `xs[0] ys[0] xs[1] ys[1] ...` is an augmenting path over ids: from a free
/// left vertex, along edges, through the partners of the right vertices, to a
/// free right vertex.
pub open spec fn is_dense_augmenting(
    g: &DenseGraph,
    pl: Seq<Option<usize>>,
    pr: Seq<Option<usize>>,
    xs: Seq<int>,
    ys: Seq<int>,
) -> bool {
    &&& xs.len() == ys.len()
    &&& xs.len() > 0
    &&& forall|i: int| 0 <= i < xs.len() ==> 0 <= #[trigger] xs[i] < g.nl && 0 <= ys[i] < g.nr
    &&& pl[xs[0]] is None
    &&& forall|i: int| 0 <= i < xs.len() ==> g.has_edge(#[trigger] xs[i], ys[i])
    &&& forall|i: int| 0 <= i < xs.len() - 1 ==> pr[#[trigger] ys[i]] == Some(xs[i + 1] as usize)
    &&& pr[ys.last()] is None
}

/// Depths are lower bounds: the `i`-th left vertex of an augmenting path lies
/// at most `i` layers deep, as long as `i` is above the guard.
proof fn lemma_depth_bound(
    g: &DenseGraph,
    pl: Seq<Option<usize>>,
    pr: Seq<Option<usize>>,
    dist: Seq<usize>,
    dg: usize,
    xs: Seq<int>,
    ys: Seq<int>,
    i: int,
)
    requires
        g.wf(),
        dist.len() == g.nl,
        is_dense_augmenting(g, pl, pr, xs, ys),
        forall|x: int| 0 <= x < g.nl && (#[trigger] pl[x]) is None ==> dist[x] == 0,
        forall|u: int, j: int|
            0 <= u < g.nl && 0 <= j < g.adj@[u]@.len() ==> #[trigger] explored(g, pr, dist, dg, u, j),
        0 <= i < xs.len(),
        i < dg,
    ensures
        dist[xs[i]] <= i,
    decreases i,
{
    if i > 0 {
        lemma_depth_bound(g, pl, pr, dist, dg, xs, ys, i - 1);
        assert(g.has_edge(xs[i - 1], ys[i - 1]));
        let j = choose|j: int| 0 <= j < g.adj@[xs[i - 1]]@.len() && #[trigger] g.adj@[xs[i - 1]]@[j] == ys[i - 1];
        assert(explored(g, pr, dist, dg, xs[i - 1], j));
    }
}

/// With the guard at depth `dg`, no augmenting path has fewer than `dg` left vertices.
proof fn lemma_shortest(
    g: &DenseGraph,
    pl: Seq<Option<usize>>,
    pr: Seq<Option<usize>>,
    dist: Seq<usize>,
    dg: usize,
    xs: Seq<int>,
    ys: Seq<int>,
)
    requires
        g.wf(),
        dist.len() == g.nl,
        is_dense_augmenting(g, pl, pr, xs, ys),
        forall|x: int| 0 <= x < g.nl && (#[trigger] pl[x]) is None ==> dist[x] == 0,
        forall|u: int, j: int|
            0 <= u < g.nl && 0 <= j < g.adj@[u]@.len() ==> #[trigger] explored(g, pr, dist, dg, u, j),
    ensures
        xs.len() >= dg,
{
    let l = xs.len() - 1;
    if l < dg {
        lemma_depth_bound(g, pl, pr, dist, dg, xs, ys, l);
        assert(g.has_edge(xs[l], ys[l]));
        let j = choose|j: int| 0 <= j < g.adj@[xs[l]]@.len() && #[trigger] g.adj@[xs[l]]@[j] == ys[l];
        assert(explored(g, pr, dist, dg, xs[l], j));
        assert(ys.last() == ys[l]);
    }
}

/// Depths only go from `INF` to finite, and the guard's only once.
pub open spec fn grows(d0: Seq<usize>, dg0: usize, q0: Seq<usize>, d1: Seq<usize>, dg1: usize, q1: Seq<usize>) -> bool {
    &&& d1.len() == d0.len()
    &&& forall|x: int| 0 <= x < d0.len() && d0[x] < INF ==> #[trigger] d1[x] == d0[x]
    &&& dg0 < INF ==> dg1 == dg0
    &&& q0.len() <= q1.len()
    &&& forall|k: int| 0 <= k < q0.len() ==> #[trigger] q1[k] == q0[k]
}

pub proof fn lemma_distinct_len(s: Seq<usize>, n: usize)
    requires
        forall|k: int| 0 <= k < s.len() ==> s[k] < n,
        forall|k1: int, k2: int| 0 <= k1 < k2 < s.len() ==> s[k1] != s[k2],
    ensures
        s.len() <= n,
{
    assert(s.no_duplicates());
    s.unique_seq_to_set();
    let below = Set::new(|x: usize| x < n);
    let f = |i: int| i as usize;
    vstd::set_lib::lemma_int_range(0, n as int);
    assert(vstd::set_lib::set_int_range(0, n as int).map(f) =~= below) by {
        assert forall|x: usize| below.contains(x) implies vstd::set_lib::set_int_range(
            0,
            n as int,
        ).map(f).contains(x) by {
            assert(vstd::set_lib::set_int_range(0, n as int).contains(x as int));
            assert(f(x as int) == x);
        }
    }
    vstd::set_lib::lemma_map_size_bound(vstd::set_lib::set_int_range(0, n as int), below, f);
    vstd::set_lib::lemma_len_subset(s.to_set(), below);
}

/// Pairings, layer depths and the running size of one matching computation.
pub struct Matcher {
    pub pl: Vec<Option<usize>>,
    pub pr: Vec<Option<usize>>,
    pub dist: Vec<usize>,
    pub dg: usize,
    pub size: usize,
}


impl Matcher {
    /// One edge of the layering: from `u` at depth `du` to its `j`-th neighbour.
    fn relax(&mut self, g: &DenseGraph, queue: &mut Vec<usize>, u: usize, du: usize, j: usize)
        requires
            bfs_inv(g, old(self).pl@, old(self).pr@, old(self).dist@, old(self).dg, old(queue)@),
            u < g.nl,
            j < g.adj@[u as int]@.len(),
            du == old(self).dist@[u as int],
            exists|k: int| 0 <= k < old(queue)@.len() && old(queue)@[k] == u && du <= k,
            capped(old(self).dist@, old(self).dg, old(queue)@, du as int),
        ensures
            capped(final(self).dist@, final(self).dg, final(queue)@, du as int),
            final(self).pl@ == old(self).pl@,
            final(self).pr@ == old(self).pr@,
            final(self).size == old(self).size,
            bfs_inv(g, final(self).pl@, final(self).pr@, final(self).dist@, final(self).dg, final(queue)@),
            grows(old(self).dist@, old(self).dg, old(queue)@, final(self).dist@, final(self).dg, final(queue)@),
            explored(g, final(self).pr@, final(self).dist@, final(self).dg, u as int, j as int),
    {
        let ghost pl = self.pl@;
        let ghost pr = self.pr@;
        let ghost d1 = self.dist@;
        let ghost q1 = queue@;
        let v = g.adj[u][j];
        assert(v < g.nr);
        match self.pr[v] {
            None => {
                if self.dg == INF {
                    self.dg = du + 1;
                    assert(guard_parent(g, pr, self.dist@, self.dg, u as int, j as int));
                }
            },
            Some(w) => {
                if self.dist[w] == INF {
                    proof {
                        assert forall|k: int| 0 <= k < queue@.len() implies queue@[k] != w by {
                            assert(d1[queue@[k] as int] < INF);
                        }
                        lemma_distinct_len(queue@.push(w), g.nl);
                    }
                    self.dist.set(w, du + 1);
                    queue.push(w);
                    proof {
                        assert(queue@[queue@.len() - 1] == w);
                        assert(parent_of(g, pr, self.dist@, w as int, u as int, j as int));
                        assert forall|x: int|
                            0 <= x < g.nl && self.dist@[x] < INF && (#[trigger] pl[x]) is Some implies exists|p: int, j: int|
                                parent_of(g, pr, self.dist@, x, p, j) by {
                            if x != w {
                                let (p, jp) = choose|p: int, j: int| parent_of(g, pr, d1, x, p, j);
                                assert(parent_of(g, pr, self.dist@, x, p, jp));
                            }
                        }
                        if self.dg < INF {
                            let (p, jp) = choose|p: int, j: int| guard_parent(g, pr, d1, self.dg, p, j);
                            assert(guard_parent(g, pr, self.dist@, self.dg, p, jp));
                        }
                        assert forall|x: int| 0 <= x < g.nl && #[trigger] self.dist@[x] < INF implies exists|k: int|
                            0 <= k < queue@.len() && queue@[k] == x by {
                            if x != w {
                                let k = choose|k: int| 0 <= k < q1.len() && q1[k] == x;
                                assert(queue@[k] == x);
                            }
                        }
                        assert forall|k: int| 0 <= k < queue@.len() implies #[trigger] queue@[k] < g.nl && self.dist@[queue@[k] as int] < INF
                            && self.dist@[queue@[k] as int] <= k by {
                            if k < q1.len() {
                                assert(q1[k] != w);
                            }
                        }
                    }
                }
            },
        }
    }

    /// Breadth-first layering: unmatched left vertices get depth 0, and a left
    /// vertex explores its neighbours only while its depth is below the guard's.
    /// Returns whether the guard got a finite depth.
    fn bfs(&mut self, g: &DenseGraph) -> (found: bool)
        requires
            g.wf(),
            pairs_ok(g, old(self).pl@, old(self).pr@),
        ensures
            final(self).pl@ == old(self).pl@,
            final(self).pr@ == old(self).pr@,
            final(self).size == old(self).size,
            final(self).dist@.len() == g.nl,
            found == (final(self).dg != INF),
            forall|u: int| 0 <= u < g.nl ==> (final(self).dist@[u] == 0) == (final(self).pl@[u] is None),
            forall|xs: Seq<int>, ys: Seq<int>|
                is_dense_augmenting(g, final(self).pl@, final(self).pr@, xs, ys) ==> xs.len() >= final(self).dg,
            !found ==> closed(g, final(self).pl@, final(self).pr@, final(self).dist@),
            found ==> exists|u: int|
                0 <= u < g.nl && final(self).pl@[u] is None && layered(
                    g,
                    final(self).pr@,
                    final(self).dist@,
                    final(self).dg,
                    u,
                ),
    {
        let ghost pl = self.pl@;
        let ghost pr = self.pr@;
        let mut dist: Vec<usize> = Vec::new();
        let mut queue: Vec<usize> = Vec::new();
        let mut i: usize = 0;
        while i < g.nl
            invariant
                g.wf(),
                pl == self.pl@,
                pairs_ok(g, pl, pr),
                i <= g.nl,
                dist@.len() == i,
                forall|x: int| 0 <= x < i ==> (#[trigger] dist@[x] == 0) == (pl[x] is None),
                forall|x: int| 0 <= x < i ==> (#[trigger] dist@[x] == INF) == (pl[x] is Some),
                forall|k: int|
                    0 <= k < queue@.len() ==> #[trigger] queue@[k] < i && dist@[queue@[k] as int] == 0,
                forall|k1: int, k2: int|
                    0 <= k1 < k2 < queue@.len() ==> queue@[k1] < queue@[k2],
                forall|x: int|
                    0 <= x < i && #[trigger] dist@[x] < INF ==> exists|k: int|
                        0 <= k < queue@.len() && queue@[k] == x,
            decreases g.nl - i,
        {
            let ghost q0 = queue@;
            if self.pl[i].is_none() {
                dist.push(0);
                queue.push(i);
                assert(queue@[queue@.len() - 1] == i);
            } else {
                dist.push(INF);
            }
            proof {
                assert forall|x: int| 0 <= x <= i && #[trigger] dist@[x] < INF implies exists|k: int|
                    0 <= k < queue@.len() && queue@[k] == x by {
                    if x < i {
                        let k = choose|k: int| 0 <= k < q0.len() && q0[k] == x;
                        assert(queue@[k] == x);
                    }
                }
            }
            i += 1;
        }
        self.dist = dist;
        self.dg = INF;
        let mut head: usize = 0;
        proof {
            lemma_distinct_len(queue@, g.nl);
        }
        while head < queue.len()
            invariant
                pl == self.pl@,
                pr == self.pr@,
                pl == old(self).pl@,
                pr == old(self).pr@,
                self.size == old(self).size,
                bfs_inv(g, pl, pr, self.dist@, self.dg, queue@),
                head <= queue@.len(),
                head < queue@.len() ==> capped(self.dist@, self.dg, queue@, self.dist@[queue@[head as int] as int] as int),
                forall|k: int, j: int|
                    0 <= k < head && 0 <= j < g.adj@[queue@[k] as int]@.len() ==> #[trigger] explored(
                        g, pr, self.dist@, self.dg, queue@[k] as int, j),
            decreases g.nl - head,
        {
            let u = queue[head];
            let du = self.dist[u];
            if du < self.dg {
                let n = g.adj[u].len();
                let mut j: usize = 0;
                while j < n
                    invariant
                        pl == self.pl@,
                        pr == self.pr@,
                        pl == old(self).pl@,
                        pr == old(self).pr@,
                        self.size == old(self).size,
                        bfs_inv(g, pl, pr, self.dist@, self.dg, queue@),
                        head < queue@.len(),
                        u == queue@[head as int],
                        n == g.adj@[u as int]@.len(),
                        j <= n,
                        du == self.dist@[u as int],
                        du <= head,
                        capped(self.dist@, self.dg, queue@, du as int),
                        forall|k: int, j: int|
                            0 <= k < head && 0 <= j < g.adj@[queue@[k] as int]@.len() ==> #[trigger] explored(
                                g, pr, self.dist@, self.dg, queue@[k] as int, j),
                        forall|jj: int| 0 <= jj < j ==> #[trigger] explored(g, pr, self.dist@, self.dg, u as int, jj),
                    decreases n - j,
                {
                    let ghost d0 = self.dist@;
                    let ghost dg0 = self.dg;
                    let ghost q0 = queue@;
                    self.relax(g, &mut queue, u, du, j);
                    proof {
                        assert forall|k: int, jj: int|
                            0 <= k < head && 0 <= jj < g.adj@[queue@[k] as int]@.len() implies #[trigger] explored(
                                g, pr, self.dist@, self.dg, queue@[k] as int, jj) by {
                            assert(q0[k] == queue@[k]);
                            assert(explored(g, pr, d0, dg0, q0[k] as int, jj));
                            assert(d0[q0[k] as int] <= k);
                        }
                        assert forall|jj: int| 0 <= jj < j + 1 implies #[trigger] explored(g, pr, self.dist@, self.dg, u as int, jj) by {
                            if jj < j {
                                assert(explored(g, pr, d0, dg0, u as int, jj));
                            }
                        }
                    }
                    j += 1;
                }
            }
            proof {
                if head + 1 < queue@.len() {
                    assert(self.dist@[queue@[head as int] as int] <= self.dist@[queue@[head + 1] as int]);
                }
            }
            head += 1;
        }
        let found = self.dg != INF;
        proof {
            assert forall|u: int, j: int|
                0 <= u < g.nl && 0 <= j < g.adj@[u]@.len() implies #[trigger] explored(g, pr, self.dist@, self.dg, u, j) by {
                if self.dist@[u] < self.dg {
                    let k = choose|k: int| 0 <= k < queue@.len() && queue@[k] == u;
                    assert(explored(g, pr, self.dist@, self.dg, queue@[k] as int, j));
                }
            }
            assert forall|xs: Seq<int>, ys: Seq<int>|
                is_dense_augmenting(g, pl, pr, xs, ys) implies xs.len() >= self.dg by {
                lemma_shortest(g, pl, pr, self.dist@, self.dg, xs, ys);
            }
            assert forall|u: int| 0 <= u < g.nl implies (self.dist@[u] == 0) == (pl[u] is None) by {
                assert(pl[u] is None ==> self.dist@[u] == 0);
                assert(pl[u] is Some ==> self.dist@[u] != 0);
            }
        }
        proof {
            if found {
                let (p, jp) = choose|p: int, j: int| guard_parent(g, pr, self.dist@, self.dg, p, j);
                let v = g.adj@[p]@[jp];
                assert(v < g.nr);
                assert(layered(g, pr, self.dist@, self.dg, p));
                lemma_layered_to_free(g, pl, pr, self.dist@, self.dg, p);
            } else {
                assert forall|u: int, j: int|
                    0 <= u < g.nl && self.dist@[u] < INF && 0 <= j < g.adj@[u]@.len() implies {
                        let v = #[trigger] g.adj@[u]@[j];
                        &&& pr[v as int] is Some
                        &&& self.dist@[pr[v as int]->0 as int] < INF
                    } by {
                    let k = choose|k: int| 0 <= k < queue@.len() && queue@[k] == u;
                    assert(explored(g, pr, self.dist@, self.dg, queue@[k] as int, j));
                    assert(self.dist@[queue@[k] as int] <= k);
                }
            }
        }
        found
    }

    /// Depth-first search for a layered augmenting path from the left vertex `u`;
    /// on success the path is flipped into the matching as the recursion unwinds,
    /// on failure every vertex found to be a dead end gets depth `INF`.
    fn dfs(&mut self, g: &DenseGraph, u: usize) -> (r: bool)
        requires
            g.wf(),
            u < g.nl,
            old(self).dist@.len() == g.nl,
            pairs_ok(g, old(self).pl@, old(self).pr@),
        ensures
            final(self).dg == old(self).dg,
            final(self).size == old(self).size,
            final(self).dist@.len() == g.nl,
            !r ==> final(self).pl@ == old(self).pl@ && final(self).pr@ == old(self).pr@,
            !r ==> !layered(g, old(self).pr@, old(self).dist@, old(self).dg, u as int),
            !r ==> final(self).dist@[u as int] == INF,
            !r ==> forall|x: int|
                0 <= x < g.nl && #[trigger] final(self).dist@[x] != old(self).dist@[x] ==> {
                    &&& final(self).dist@[x] == INF
                    &&& old(self).dist@[x] >= old(self).dist@[u as int]
                    &&& !layered(g, old(self).pr@, old(self).dist@, old(self).dg, x)
                },
            r ==> pairs_ok_except(g, final(self).pl@, final(self).pr@, old(self).pl@[u as int]),
            r ==> final(self).pl@[u as int] is Some,
            r ==> final(self).pl@[u as int] != old(self).pl@[u as int],
            r ==> forall|x: int|
                0 <= x < g.nl && x != u ==> (#[trigger] final(self).pl@[x] is Some) == (
                old(self).pl@[x] is Some),
            r ==> forall|x: int|
                0 <= x < g.nl && #[trigger] final(self).pl@[x] != old(self).pl@[x] ==> old(
                    self,
                ).dist@[x] >= old(self).dist@[u as int],
            r ==> forall|y: int|
                0 <= y < g.nr && #[trigger] final(self).pr@[y] != old(self).pr@[y] ==> {
                    &&& old(self).pr@[y] is None || old(self).dist@[old(self).pr@[y]->0 as int]
                        > old(self).dist@[u as int]
                    &&& final(self).pr@[y] is Some
                    &&& old(self).dist@[final(self).pr@[y]->0 as int] >= old(self).dist@[u as int]
                },
        decreases old(self).dg - old(self).dist@[u as int],
    {
        let du = self.dist[u];
        if du >= self.dg {
            self.dist.set(u, INF);
            return false;
        }
        let ghost d0 = self.dist@;
        let ghost pl0 = self.pl@;
        let ghost pr0 = self.pr@;
        let ghost dg = self.dg;
        let n = g.adj[u].len();
        let mut j: usize = 0;
        while j < n
            invariant
                g.wf(),
                u < g.nl,
                n == g.adj@[u as int]@.len(),
                j <= n,
                self.dg == dg,
                self.size == old(self).size,
                d0 == old(self).dist@,
                d0.len() == g.nl,
                pl0 == old(self).pl@,
                pr0 == old(self).pr@,
                dg == old(self).dg,
                self.dist@.len() == g.nl,
                self.pl@ == pl0,
                self.pr@ == pr0,
                pairs_ok(g, pl0, pr0),
                du == d0[u as int],
                self.dist@[u as int] == du,
                du < dg,
                forall|x: int|
                    0 <= x < g.nl && #[trigger] self.dist@[x] != d0[x] ==> {
                        &&& self.dist@[x] == INF
                        &&& d0[x] > du
                        &&& !layered(g, pr0, d0, dg, x)
                    },
                forall|jj: int|
                    0 <= jj < j ==> match pr0[#[trigger] g.adj@[u as int]@[jj] as int] {
                        None => dg != du + 1,
                        Some(w) => d0[w as int] != du + 1 || !layered(g, pr0, d0, dg, w as int),
                    },
            decreases n - j,
        {
            let v = g.adj[u][j];
            assert(v < g.nr);
            match self.pr[v] {
                None => {
                    if self.dg == du + 1 {
                        self.pr.set(v, Some(u));
                        self.pl.set(u, Some(v));
                        proof {
                            assert(g.has_edge(u as int, v as int));
                        }
                        return true;
                    }
                },
                Some(w) => {
                    if self.dist[w] == du + 1 {
                        let ghost dcur = self.dist@;
                        if self.dfs(g, w) {
                            self.pr.set(v, Some(u));
                            self.pl.set(u, Some(v));
                            proof {
                                assert(g.has_edge(u as int, v as int));
                            }
                            return true;
                        }
                        proof {
                            assert forall|x: int|
                                0 <= x < g.nl && #[trigger] d0[x] != dcur[x]
                                    implies !layered(g, pr0, d0, dg, x) by {}
                            if layered(g, pr0, d0, dg, w as int) {
                                lemma_marks_keep_paths(g, pr0, d0, dcur, dg, w as int);
                            }
                            assert forall|x: int|
                                0 <= x < g.nl && #[trigger] self.dist@[x] != d0[x] implies {
                                    &&& self.dist@[x] == INF
                                    &&& d0[x] > du
                                    &&& !layered(g, pr0, d0, dg, x)
                                } by {
                                if dcur[x] == d0[x] {
                                    if layered(g, pr0, d0, dg, x) {
                                        lemma_marks_keep_paths(g, pr0, d0, dcur, dg, x);
                                    }
                                }
                            }
                        }
                    }
                },
            }
            j += 1;
        }
        proof {
            if layered(g, pr0, d0, dg, u as int) {
                let jj = choose|jj: int|
                    0 <= jj < g.adj@[u as int]@.len() && {
                        let v = #[trigger] g.adj@[u as int]@[jj];
                        &&& 0 <= v < pr0.len()
                        &&& match pr0[v as int] {
                            None => dg == d0[u as int] + 1,
                            Some(w) => 0 <= w < d0.len() && d0[w as int] == d0[u as int] + 1
                                && layered(g, pr0, d0, dg, w as int),
                        }
                    };
                assert(false);
            }
        }
        self.dist.set(u, INF);
        false
    }
}

/// Runs Hopcroft–Karp phases on `g` until no augmenting path is left or, when
/// `bound` is `Some(c)`, until the matching has `c` edges.
pub fn run(g: &DenseGraph, bound: Option<usize>) -> (m: Matcher)
    requires
        g.wf(),
    ensures
        pairs_ok(g, m.pl@, m.pr@),
        m.size == matched_count(m.pl@),
        m.dist@.len() == g.nl,
        bound matches Some(c) ==> m.size <= c,
        (bound matches Some(c) && m.size == c) || closed(g, m.pl@, m.pr@, m.dist@),
{
    let mut pl: Vec<Option<usize>> = Vec::new();
    let mut i: usize = 0;
    while i < g.nl
        invariant
            i <= g.nl,
            pl@.len() == i,
            forall|x: int| 0 <= x < i ==> (#[trigger] pl@[x]) is None,
        decreases g.nl - i,
    {
        pl.push(None);
        i += 1;
    }
    let mut pr: Vec<Option<usize>> = Vec::new();
    let mut i: usize = 0;
    while i < g.nr
        invariant
            i <= g.nr,
            pr@.len() == i,
            forall|x: int| 0 <= x < i ==> (#[trigger] pr@[x]) is None,
        decreases g.nr - i,
    {
        pr.push(None);
        i += 1;
    }
    let mut dist: Vec<usize> = Vec::new();
    let mut i: usize = 0;
    while i < g.nl
        invariant
            i <= g.nl,
            dist@.len() == i,
        decreases g.nl - i,
    {
        dist.push(INF);
        i += 1;
    }
    let mut m = Matcher { pl, pr, dist, dg: INF, size: 0 };
    proof {
        lemma_count_same(Seq::new(g.nl as nat, |x: int| None::<usize>), m.pl@);
        lemma_count_none(g.nl as nat);
    }
    loop
        invariant
            g.wf(),
            pairs_ok(g, m.pl@, m.pr@),
            m.size == matched_count(m.pl@),
            m.dist@.len() == g.nl,
            bound matches Some(c) ==> m.size <= c,
        decreases g.nl - m.size,
    {
        proof {
            lemma_count_bound(m.pl@);
        }
        if reached(bound, m.size) {
            return m;
        }
        if !m.bfs(g) {
            return m;
        }
        let ghost pl0 = m.pl@;
        let ghost pr0 = m.pr@;
        let ghost d0 = m.dist@;
        let ghost dg0 = m.dg;
        let ghost size0 = m.size;
        let mut u: usize = 0;
        while u < g.nl && !reached(bound, m.size)
            invariant
                g.wf(),
                pairs_ok(g, m.pl@, m.pr@),
                m.size == matched_count(m.pl@),
                m.dist@.len() == g.nl,
                bound matches Some(c) ==> m.size <= c,
                bound matches Some(c) ==> size0 < c,
                u <= g.nl,
                size0 <= m.size,
                m.dg == dg0,
                d0.len() == g.nl,
                pl0.len() == g.nl,
                exists|x: int| 0 <= x < g.nl && pl0[x] is None && layered(g, pr0, d0, dg0, x),
                m.size == size0 ==> {
                    &&& m.pl@ == pl0
                    &&& m.pr@ == pr0
                    &&& forall|x: int|
                        0 <= x < g.nl && #[trigger] m.dist@[x] != d0[x] ==> !layered(
                            g,
                            pr0,
                            d0,
                            dg0,
                            x,
                        )
                    &&& forall|x: int|
                        0 <= x < u && (#[trigger] pl0[x]) is None ==> !layered(g, pr0, d0, dg0, x)
                },
            decreases g.nl - u,
        {
            if m.pl[u].is_none() {
                let ghost dcur = m.dist@;
                let ghost plc = m.pl@;
                if m.dfs(g, u) {
                    proof {
                        lemma_count_step(plc, m.pl@, u as int);
                        lemma_count_bound(m.pl@);
                    }
                    m.size = m.size + 1;
                } else {
                    proof {
                        if m.size == size0 {
                            if layered(g, pr0, d0, dg0, u as int) {
                                lemma_marks_keep_paths(g, pr0, d0, dcur, dg0, u as int);
                            }
                            assert forall|x: int|
                                0 <= x < g.nl && #[trigger] m.dist@[x] != d0[x] implies !layered(
                                    g,
                                    pr0,
                                    d0,
                                    dg0,
                                    x,
                                ) by {
                                if dcur[x] == d0[x] && layered(g, pr0, d0, dg0, x) {
                                    lemma_marks_keep_paths(g, pr0, d0, dcur, dg0, x);
                                }
                            }
                        }
                    }
                }
            }
            u += 1;
        }
        proof {
            if m.size == size0 {
                let x = choose|x: int| 0 <= x < g.nl && pl0[x] is None && layered(g, pr0, d0, dg0, x);
                assert(false);
            }
            lemma_count_bound(m.pl@);
        }
    }
}

/// Whether the running size has met the bound, if there is one.
fn reached(bound: Option<usize>, size: usize) -> (r: bool)
    ensures
        r == (bound matches Some(c) && size >= c),
{
    match bound {
        Some(c) => size >= c,
        None => false,
    }
}

proof fn lemma_count_none(n: nat)
    ensures
        matched_count(Seq::new(n, |x: int| None::<usize>)) == 0,
    decreases n,
{
    if n > 0 {
        assert(Seq::new(n, |x: int| None::<usize>).drop_last() =~= Seq::new(
            (n - 1) as nat,
            |x: int| None::<usize>,
        ));
        lemma_count_none((n - 1) as nat);
    }
}

} // verus!
