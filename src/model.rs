//! Matchings of an edge list, stated over labels: the left end of an edge is a
//! left vertex, the right end a right vertex.
use vstd::prelude::*;

verus! {

pub open spec fn left_labels<V>(edges: Seq<(V, V)>) -> Set<V> {
    edges.map_values(|e: (V, V)| e.0).to_set()
}

pub open spec fn right_labels<V>(edges: Seq<(V, V)>) -> Set<V> {
    edges.map_values(|e: (V, V)| e.1).to_set()
}

/// No label is used both as a left and as a right end.
pub open spec fn is_bipartite<V>(edges: Seq<(V, V)>) -> bool {
    forall|i: int, j: int| 0 <= i < edges.len() && 0 <= j < edges.len() ==> edges[i].0 != edges[j].1
}

/// `m` is a set of edges of `edges` in which no left and no right vertex occurs twice.
pub open spec fn is_matching<V>(edges: Seq<(V, V)>, m: Seq<(V, V)>) -> bool {
    &&& forall|i: int| 0 <= i < m.len() ==> edges.contains(#[trigger] m[i])
    &&& forall|i: int, j: int| 0 <= i < j < m.len() ==> m[i].0 != m[j].0 && m[i].1 != m[j].1
}

/// No vertex occurs in two edges of `m`, whichever side it is on.
pub open spec fn vertex_disjoint<V>(m: Seq<(V, V)>) -> bool {
    forall|i: int, j: int|
        0 <= i < m.len() && 0 <= j < m.len() && i != j ==> m[i].0 != m[j].0 && m[i].1 != m[j].1
            && m[i].0 != m[j].1
}

/// `m` is a matching of `edges` and no matching of `edges` is larger.
pub open spec fn is_maximum_matching<V>(edges: Seq<(V, V)>, m: Seq<(V, V)>) -> bool {
    &&& is_matching(edges, m)
    &&& forall|m2: Seq<(V, V)>| is_matching(edges, m2) ==> m2.len() <= m.len()
}

/// `n` is the size of a maximum matching of `edges`.
pub open spec fn is_maximum_size<V>(edges: Seq<(V, V)>, n: nat) -> bool {
    &&& exists|m: Seq<(V, V)>| is_matching(edges, m) && m.len() == n
    &&& forall|m2: Seq<(V, V)>| is_matching(edges, m2) ==> m2.len() <= n
}

/// What the bounded variants return: a matching that has `k` edges or is maximum.
pub open spec fn is_bounded_matching<V>(edges: Seq<(V, V)>, k: nat, m: Seq<(V, V)>) -> bool {
    &&& is_matching(edges, m)
    &&& m.len() <= k
    &&& m.len() == k || is_maximum_matching(edges, m)
}

pub open spec fn is_bounded_size<V>(edges: Seq<(V, V)>, k: nat, n: nat) -> bool {
    exists|m: Seq<(V, V)>| is_bounded_matching(edges, k, m) && m.len() == n
}

pub open spec fn left_free<V>(m: Seq<(V, V)>, x: V) -> bool {
    forall|i: int| 0 <= i < m.len() ==> m[i].0 != x
}

pub open spec fn right_free<V>(m: Seq<(V, V)>, y: V) -> bool {
    forall|i: int| 0 <= i < m.len() ==> m[i].1 != y
}

/// `xs[0] ys[0] xs[1] ys[1] ...` alternates between edges outside and inside
/// `m`, from a free left vertex to a free right vertex.
pub open spec fn is_augmenting_path<V>(
    edges: Seq<(V, V)>,
    m: Seq<(V, V)>,
    xs: Seq<V>,
    ys: Seq<V>,
) -> bool {
    &&& xs.len() == ys.len()
    &&& xs.len() > 0
    &&& left_free(m, xs[0])
    &&& right_free(m, ys.last())
    &&& forall|i: int| 0 <= i < xs.len() ==> edges.contains((xs[i], ys[i]))
    &&& forall|i: int| 0 <= i < xs.len() - 1 ==> m.contains((xs[i + 1], ys[i]))
}

pub open spec fn has_no_augmenting_path<V>(edges: Seq<(V, V)>, m: Seq<(V, V)>) -> bool {
    forall|xs: Seq<V>, ys: Seq<V>| !is_augmenting_path(edges, m, xs, ys)
}

/// `z` is a set of left vertices that holds every free one, and from which every
/// edge leads to a right vertex matched back into `z`. Such a set gives a vertex
/// cover with one vertex of each edge of `m`: the left vertices of `m` outside
/// `z` and the right vertices of `m` matched into `z`.
pub open spec fn is_cover_witness<V>(edges: Seq<(V, V)>, m: Seq<(V, V)>, z: Set<V>) -> bool {
    &&& forall|x: V| left_labels(edges).contains(x) && left_free(m, x) ==> z.contains(x)
    &&& forall|i: int|
        0 <= i < edges.len() && z.contains(#[trigger] edges[i].0) ==> exists|k: int|
            0 <= k < m.len() && m[k].1 == edges[i].1 && z.contains(m[k].0)
}

proof fn lemma_path_in_witness<V>(
    edges: Seq<(V, V)>,
    m: Seq<(V, V)>,
    z: Set<V>,
    xs: Seq<V>,
    ys: Seq<V>,
    i: int,
)
    requires
        is_matching(edges, m),
        is_cover_witness(edges, m, z),
        is_augmenting_path(edges, m, xs, ys),
        0 <= i < xs.len(),
    ensures
        z.contains(xs[i]),
    decreases i,
{
    if i == 0 {
        let idx = choose|idx: int| 0 <= idx < edges.len() && edges[idx] == (xs[0], ys[0]);
        assert(edges.map_values(|e: (V, V)| e.0)[idx] == xs[0]);
    } else {
        lemma_path_in_witness(edges, m, z, xs, ys, i - 1);
        assert(edges.contains((xs[i - 1], ys[i - 1])));
        let idx = choose|idx: int| 0 <= idx < edges.len() && edges[idx] == (xs[i - 1], ys[i - 1]);
        assert(z.contains(edges[idx].0));
        let k = choose|k: int| 0 <= k < m.len() && m[k].1 == edges[idx].1 && z.contains(m[k].0);
        assert(m.contains((xs[i], ys[i - 1])));
        let k2 = choose|k2: int| 0 <= k2 < m.len() && m[k2] == (xs[i], ys[i - 1]);
        if k < k2 {
            assert(m[k].1 != m[k2].1);
        } else if k2 < k {
            assert(m[k2].1 != m[k].1);
        }
    }
}

/// A cover witness rules out every augmenting path.
pub proof fn lemma_witness_no_augmenting_path<V>(edges: Seq<(V, V)>, m: Seq<(V, V)>, z: Set<V>)
    requires
        is_matching(edges, m),
        is_cover_witness(edges, m, z),
    ensures
        has_no_augmenting_path(edges, m),
{
    assert forall|xs: Seq<V>, ys: Seq<V>| !is_augmenting_path(edges, m, xs, ys) by {
        if is_augmenting_path(edges, m, xs, ys) {
            let l = xs.len() - 1;
            lemma_path_in_witness(edges, m, z, xs, ys, l);
            assert(edges.contains((xs[l], ys[l])));
            let idx = choose|idx: int| 0 <= idx < edges.len() && edges[idx] == (xs[l], ys[l]);
            assert(z.contains(edges[idx].0));
            let k = choose|k: int| 0 <= k < m.len() && m[k].1 == edges[idx].1 && z.contains(m[k].0);
            assert(ys.last() == ys[l]);
        }
    }
}

/// The edge of `m` that the cover charges with the edge `e` of another matching.
spec fn charged<V>(m: Seq<(V, V)>, z: Set<V>, e: (V, V)) -> int {
    if z.contains(e.0) {
        choose|k: int| 0 <= k < m.len() && m[k].1 == e.1 && z.contains(m[k].0)
    } else {
        choose|k: int| 0 <= k < m.len() && m[k].0 == e.0
    }
}

/// A matching with a cover witness is maximum.
pub proof fn lemma_witness_maximum<V>(edges: Seq<(V, V)>, m: Seq<(V, V)>, z: Set<V>)
    requires
        is_matching(edges, m),
        is_cover_witness(edges, m, z),
    ensures
        is_maximum_matching(edges, m),
{
    assert forall|m2: Seq<(V, V)>| is_matching(edges, m2) implies m2.len() <= m.len() by {
        let f = |j: int| charged(m, z, m2[j]);
        assert forall|j: int| 0 <= j < m2.len() implies 0 <= #[trigger] f(j) < m.len() && (z.contains(
            m2[j].0,
        ) ==> m[f(j)].1 == m2[j].1 && z.contains(m[f(j)].0)) && (!z.contains(m2[j].0) ==> m[f(
            j,
        )].0 == m2[j].0) by {
            assert(edges.contains(m2[j]));
            let idx = choose|idx: int| 0 <= idx < edges.len() && edges[idx] == m2[j];
            if z.contains(m2[j].0) {
                assert(z.contains(edges[idx].0));
            } else {
                assert(edges.map_values(|e: (V, V)| e.0)[idx] == m2[j].0);
                assert(!left_free(m, m2[j].0));
            }
        }
        let dom = vstd::set_lib::set_int_range(0, m2.len() as int);
        let img = dom.map(f);
        vstd::set_lib::lemma_int_range(0, m2.len() as int);
        vstd::set_lib::lemma_int_range(0, m.len() as int);
        assert(vstd::relations::injective_on(f, dom)) by {
            assert forall|a: int, b: int|
                dom.contains(a) && dom.contains(b) && #[trigger] f(a) == #[trigger] f(b) implies a == b by {
                if a != b {
                    if a < b {
                        assert(m2[a].0 != m2[b].0 && m2[a].1 != m2[b].1);
                    } else {
                        assert(m2[b].0 != m2[a].0 && m2[b].1 != m2[a].1);
                    }
                }
            }
        }
        vstd::set_lib::lemma_map_size(dom, img, f);
        assert(img.subset_of(vstd::set_lib::set_int_range(0, m.len() as int)));
        vstd::set_lib::lemma_len_subset(img, vstd::set_lib::set_int_range(0, m.len() as int));
    }
}

/// A matching has at most as many edges as there are distinct left labels, and
/// as distinct right labels.
pub proof fn lemma_matching_len_bound<V>(edges: Seq<(V, V)>, m: Seq<(V, V)>)
    requires
        is_matching(edges, m),
    ensures
        m.len() <= left_labels(edges).len(),
        m.len() <= right_labels(edges).len(),
{
    let fl = |e: (V, V)| e.0;
    let fr = |e: (V, V)| e.1;
    let ml = m.map_values(fl);
    let mr = m.map_values(fr);
    assert(ml.no_duplicates());
    assert(mr.no_duplicates());
    ml.unique_seq_to_set();
    mr.unique_seq_to_set();
    edges.map_values(fl).lemma_cardinality_of_set();
    edges.map_values(fr).lemma_cardinality_of_set();
    assert(ml.to_set().subset_of(left_labels(edges))) by {
        assert forall|x: V| ml.to_set().contains(x) implies left_labels(edges).contains(x) by {
            let i = choose|i: int| 0 <= i < ml.len() && ml[i] == x;
            assert(edges.contains(m[i]));
            let idx = choose|idx: int| 0 <= idx < edges.len() && edges[idx] == m[i];
            assert(edges.map_values(fl)[idx] == x);
        }
    }
    assert(mr.to_set().subset_of(right_labels(edges))) by {
        assert forall|x: V| mr.to_set().contains(x) implies right_labels(edges).contains(x) by {
            let i = choose|i: int| 0 <= i < mr.len() && mr[i] == x;
            assert(edges.contains(m[i]));
            let idx = choose|idx: int| 0 <= idx < edges.len() && edges[idx] == m[i];
            assert(edges.map_values(fr)[idx] == x);
        }
    }
    vstd::seq_lib::seq_to_set_is_finite(edges.map_values(fl));
    vstd::seq_lib::seq_to_set_is_finite(edges.map_values(fr));
    vstd::set_lib::lemma_len_subset(ml.to_set(), left_labels(edges));
    vstd::set_lib::lemma_len_subset(mr.to_set(), right_labels(edges));
}

/// In a bipartite edge list, the edges of a matching share no vertex at all.
pub proof fn lemma_bipartite_disjoint<V>(edges: Seq<(V, V)>, m: Seq<(V, V)>)
    requires
        is_bipartite(edges),
        is_matching(edges, m),
    ensures
        vertex_disjoint(m),
{
    assert forall|i: int, j: int|
        0 <= i < m.len() && 0 <= j < m.len() && i != j implies m[i].0 != m[j].0 && m[i].1 != m[j].1
        && m[i].0 != m[j].1 by {
        assert(edges.contains(m[i]));
        assert(edges.contains(m[j]));
        let a = choose|a: int| 0 <= a < edges.len() && edges[a] == m[i];
        let b = choose|b: int| 0 <= b < edges.len() && edges[b] == m[j];
        assert(edges[a].0 != edges[b].1);
        if i > j {
            assert(m[j].0 != m[i].0 && m[j].1 != m[i].1);
        }
    }
}

/// The size of a maximum matching is the length of any maximum matching.
pub proof fn lemma_size_consistent<V>(edges: Seq<(V, V)>, m: Seq<(V, V)>, n: nat)
    requires
        is_maximum_matching(edges, m),
        is_maximum_size(edges, n),
    ensures
        m.len() == n,
{
    let w = choose|w: Seq<(V, V)>| is_matching(edges, w) && w.len() == n;
}

/// The size of a maximum matching is at most the number of distinct left
/// labels and at most the number of distinct right labels.
pub proof fn lemma_size_upper_bound<V>(edges: Seq<(V, V)>, n: nat)
    requires
        is_maximum_size(edges, n),
    ensures
        n <= left_labels(edges).len(),
        n <= right_labels(edges).len(),
{
    let w = choose|w: Seq<(V, V)>| is_matching(edges, w) && w.len() == n;
    lemma_matching_len_bound(edges, w);
}

/// A bounded matching has `min(k, n)` edges, where `n` is the size of a
/// maximum matching.
pub proof fn lemma_bound_respected<V>(edges: Seq<(V, V)>, k: nat, b: Seq<(V, V)>, n: nat)
    requires
        is_bounded_matching(edges, k, b),
        is_maximum_size(edges, n),
    ensures
        b.len() == if k < n { k } else { n },
{
    let w = choose|w: Seq<(V, V)>| is_matching(edges, w) && w.len() == n;
}

/// Any two sizes returned for the same edge list agree.
pub proof fn lemma_size_deterministic<V>(edges: Seq<(V, V)>, n1: nat, n2: nat)
    requires
        is_maximum_size(edges, n1),
        is_maximum_size(edges, n2),
    ensures
        n1 == n2,
{
    let w1 = choose|w: Seq<(V, V)>| is_matching(edges, w) && w.len() == n1;
    let w2 = choose|w: Seq<(V, V)>| is_matching(edges, w) && w.len() == n2;
}

/// Adding again an edge that is already in the list leaves the size of a
/// maximum matching unchanged.
pub proof fn lemma_duplicate_edge<V>(edges: Seq<(V, V)>, i: int, n1: nat, n2: nat)
    requires
        0 <= i < edges.len(),
        is_maximum_size(edges, n1),
        is_maximum_size(edges.push(edges[i]), n2),
    ensures
        n1 == n2,
{
    let more = edges.push(edges[i]);
    assert forall|m: Seq<(V, V)>| is_matching(edges, m) <==> is_matching(more, m) by {
        assert forall|e: (V, V)| edges.contains(e) <==> more.contains(e) by {
            if edges.contains(e) {
                let a = choose|a: int| 0 <= a < edges.len() && edges[a] == e;
                assert(more[a] == e);
            }
            if more.contains(e) {
                let a = choose|a: int| 0 <= a < more.len() && more[a] == e;
                if a < edges.len() {
                    assert(edges[a] == e);
                } else {
                    assert(edges[i] == e);
                }
            }
        }
    }
    let w1 = choose|w: Seq<(V, V)>| is_matching(edges, w) && w.len() == n1;
    let w2 = choose|w: Seq<(V, V)>| is_matching(more, w) && w.len() == n2;
}

/// Two maximum matchings of the same edge list, however they were computed,
/// have the same size, and each of their edges is an edge of the list.
pub proof fn lemma_maximum_matchings_agree<V>(edges: Seq<(V, V)>, m1: Seq<(V, V)>, m2: Seq<(V, V)>)
    requires
        is_maximum_matching(edges, m1),
        is_maximum_matching(edges, m2),
    ensures
        m1.len() == m2.len(),
        forall|i: int| 0 <= i < m1.len() ==> edges.contains(#[trigger] m1[i]),
{
}

} // verus!
