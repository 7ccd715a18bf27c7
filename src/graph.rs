//! Relabeling of arbitrary vertex labels onto dense ids, and the adjacency over them.
use std::collections::HashMap;
use std::hash::Hash;

use vstd::prelude::*;

use crate::matcher::DenseGraph;
use crate::model::{left_labels, right_labels};

verus! {

broadcast use vstd::std_specs::hash::group_hash_axioms;

/// The distinct left labels and the distinct right labels of an edge list, and
/// each edge as a pair of ids: positions in `lefts` and in `rights`.
pub struct Labeling<V> {
    pub lefts: Vec<V>,
    pub rights: Vec<V>,
    pub ids: Vec<(usize, usize)>,
}

pub open spec fn labeling_ok<V>(edges: Seq<(V, V)>, lab: &Labeling<V>) -> bool {
    &&& lab.lefts@.no_duplicates()
    &&& lab.rights@.no_duplicates()
    &&& lab.ids@.len() == edges.len()
    &&& lab.lefts@.len() <= edges.len()
    &&& lab.rights@.len() <= edges.len()
    &&& forall|k: int|
        0 <= k < edges.len() ==> {
            let (a, b) = #[trigger] lab.ids@[k];
            &&& a < lab.lefts@.len()
            &&& b < lab.rights@.len()
            &&& lab.lefts@[a as int] == edges[k].0
            &&& lab.rights@[b as int] == edges[k].1
        }
    &&& forall|i: int| 0 <= i < lab.lefts@.len() ==> #[trigger] left_id_used(lab.ids@, i)
    &&& forall|i: int| 0 <= i < lab.rights@.len() ==> #[trigger] right_id_used(lab.ids@, i)
}

pub open spec fn left_id_used(ids: Seq<(usize, usize)>, i: int) -> bool {
    exists|k: int| 0 <= k < ids.len() && #[trigger] ids[k].0 == i
}

pub open spec fn right_id_used(ids: Seq<(usize, usize)>, i: int) -> bool {
    exists|k: int| 0 <= k < ids.len() && #[trigger] ids[k].1 == i
}

/// Id of `x` in `labels`, whose ids `ids` holds; a label not seen before is
/// added with the next id.
fn intern<V: Copy + Eq + Hash>(labels: &mut Vec<V>, ids: &mut HashMap<V, usize>, x: V) -> (i: usize)
    requires
        vstd::std_specs::hash::obeys_key_model::<V>(),
        index_ok(old(labels)@, old(ids)@),
    ensures
        index_ok(final(labels)@, final(ids)@),
        i < final(labels)@.len(),
        final(labels)@[i as int] == x,
        final(labels)@.len() <= old(labels)@.len() + 1,
        old(labels)@.is_prefix_of(final(labels)@),
        final(labels)@.len() > old(labels)@.len() ==> i == old(labels)@.len(),
{
    match ids.get(&x) {
        Some(i) => *i,
        None => {
            let i = labels.len();
            labels.push(x);
            ids.insert(x, i);
            proof {
                assert forall|j: int| 0 <= j < labels@.len() implies ids@.contains_key(labels@[j]) && ids@[labels@[j]] == j by {
                    if j < i {
                        assert(labels@[j] != x);
                    }
                }
            }
            i
        },
    }
}

/// `ids` gives each label its position in `labels`, and nothing else.
pub open spec fn index_ok<V>(labels: Seq<V>, ids: Map<V, usize>) -> bool {
    &&& forall|j: int|
        0 <= j < labels.len() ==> ids.contains_key(#[trigger] labels[j]) && ids[labels[j]] == j
    &&& forall|x: V| #[trigger] ids.contains_key(x) ==> ids[x] < labels.len() && labels[ids[x] as int] == x
}

/// Gives each distinct left label an id, in order of first appearance, and each
/// distinct right label an id of its own; a label on both sides gets one of each.
pub fn relabel<V: Copy + Eq + Hash>(edges: &Vec<(V, V)>) -> (lab: Labeling<V>)
    requires
        vstd::std_specs::hash::obeys_key_model::<V>(),
    ensures
        labeling_ok(edges@, &lab),
{
    let mut lefts: Vec<V> = Vec::new();
    let mut rights: Vec<V> = Vec::new();
    let mut left_ids: HashMap<V, usize> = HashMap::new();
    let mut right_ids: HashMap<V, usize> = HashMap::new();
    let mut ids: Vec<(usize, usize)> = Vec::new();
    let mut k: usize = 0;
    while k < edges.len()
        invariant
            vstd::std_specs::hash::obeys_key_model::<V>(),
            k <= edges@.len(),
            index_ok(lefts@, left_ids@),
            index_ok(rights@, right_ids@),
            labeling_ok(edges@.take(k as int), &Labeling { lefts, rights, ids }),
        decreases edges@.len() - k,
    {
        let ghost e0 = edges@.take(k as int);
        let ghost l0 = lefts@;
        let ghost r0 = rights@;
        let ghost i0 = ids@;
        let (x, y) = edges[k];
        let a = intern(&mut lefts, &mut left_ids, x);
        let b = intern(&mut rights, &mut right_ids, y);
        ids.push((a, b));
        proof {
            let e1 = edges@.take(k + 1);
            assert(e1 =~= e0.push(edges@[k as int]));
            assert(lefts@.no_duplicates()) by {
                assert forall|i: int, j: int| 0 <= i < lefts@.len() && 0 <= j < lefts@.len() && i != j implies lefts@[i] != lefts@[j] by {
                    assert(left_ids@[lefts@[i]] == i);
                    assert(left_ids@[lefts@[j]] == j);
                }
            }
            assert(rights@.no_duplicates()) by {
                assert forall|i: int, j: int| 0 <= i < rights@.len() && 0 <= j < rights@.len() && i != j implies rights@[i] != rights@[j] by {
                    assert(right_ids@[rights@[i]] == i);
                    assert(right_ids@[rights@[j]] == j);
                }
            }
            assert forall|kk: int| 0 <= kk < e1.len() implies {
                let (a, b) = #[trigger] ids@[kk];
                &&& a < lefts@.len()
                &&& b < rights@.len()
                &&& lefts@[a as int] == e1[kk].0
                &&& rights@[b as int] == e1[kk].1
            } by {
                if kk < k {
                    assert(i0[kk] == ids@[kk]);
                    assert(lefts@[i0[kk].0 as int] == l0[i0[kk].0 as int]);
                    assert(rights@[i0[kk].1 as int] == r0[i0[kk].1 as int]);
                }
            }
            assert forall|i: int| 0 <= i < lefts@.len() implies #[trigger] left_id_used(ids@, i) by {
                if i < l0.len() {
                    assert(left_id_used(i0, i));
                    let kk = choose|kk: int| 0 <= kk < i0.len() && #[trigger] i0[kk].0 == i;
                    assert(ids@[kk].0 == i);
                } else {
                    assert(ids@[k as int].0 == i);
                }
            }
            assert forall|i: int| 0 <= i < rights@.len() implies #[trigger] right_id_used(ids@, i) by {
                if i < r0.len() {
                    assert(right_id_used(i0, i));
                    let kk = choose|kk: int| 0 <= kk < i0.len() && #[trigger] i0[kk].1 == i;
                    assert(ids@[kk].1 == i);
                } else {
                    assert(ids@[k as int].1 == i);
                }
            }
        }
        k += 1;
    }
    assert(edges@.take(k as int) =~= edges@);
    Labeling { lefts, rights, ids }
}

/// The ids of a labeling hold the same left and right vertex sets as the labels.
pub proof fn lemma_labeling_sizes<V>(edges: Seq<(V, V)>, lab: &Labeling<V>)
    requires
        labeling_ok(edges, lab),
    ensures
        lab.lefts@.len() == left_labels(edges).len(),
        lab.rights@.len() == right_labels(edges).len(),
        forall|x: V| left_labels(edges).contains(x) <==> lab.lefts@.contains(x),
        forall|y: V| right_labels(edges).contains(y) <==> lab.rights@.contains(y),
{
    let fl = |e: (V, V)| e.0;
    let fr = |e: (V, V)| e.1;
    assert forall|x: V| left_labels(edges).contains(x) <==> lab.lefts@.contains(x) by {
        if left_labels(edges).contains(x) {
            let k = choose|k: int| 0 <= k < edges.len() && edges.map_values(fl)[k] == x;
            assert(lab.lefts@[lab.ids@[k].0 as int] == x);
        }
        if lab.lefts@.contains(x) {
            let i = choose|i: int| 0 <= i < lab.lefts@.len() && lab.lefts@[i] == x;
            assert(left_id_used(lab.ids@, i));
            let k = choose|k: int| 0 <= k < edges.len() && #[trigger] lab.ids@[k].0 == i;
            assert(edges.map_values(fl)[k] == x);
        }
    }
    assert forall|y: V| right_labels(edges).contains(y) <==> lab.rights@.contains(y) by {
        if right_labels(edges).contains(y) {
            let k = choose|k: int| 0 <= k < edges.len() && edges.map_values(fr)[k] == y;
            assert(lab.rights@[lab.ids@[k].1 as int] == y);
        }
        if lab.rights@.contains(y) {
            let i = choose|i: int| 0 <= i < lab.rights@.len() && lab.rights@[i] == y;
            assert(right_id_used(lab.ids@, i));
            let k = choose|k: int| 0 <= k < edges.len() && #[trigger] lab.ids@[k].1 == i;
            assert(edges.map_values(fr)[k] == y);
        }
    }
    assert(lab.lefts@.to_set() =~= left_labels(edges));
    assert(lab.rights@.to_set() =~= right_labels(edges));
    lab.lefts@.unique_seq_to_set();
    lab.rights@.unique_seq_to_set();
}

/// The right end of the id pair `e` is among the neighbours of its left end.
pub open spec fn listed(adj: Seq<Vec<usize>>, e: (usize, usize)) -> bool {
    exists|j: int| 0 <= j < adj[e.0 as int]@.len() && #[trigger] adj[e.0 as int]@[j] == e.1
}

/// Adjacency of the left ids of a labeling: `adj[a]` lists `b` for each edge `(a, b)`.
pub fn dense_graph<V>(lab: &Labeling<V>) -> (g: DenseGraph)
    requires
        lab.lefts@.len() < usize::MAX,
        forall|k: int|
            0 <= k < lab.ids@.len() ==> (#[trigger] lab.ids@[k]).0 < lab.lefts@.len()
                && lab.ids@[k].1 < lab.rights@.len(),
    ensures
        g.wf(),
        g.nl == lab.lefts@.len(),
        g.nr == lab.rights@.len(),
        forall|u: int, v: int|
            0 <= u < g.nl && 0 <= v < g.nr ==> (g.has_edge(u, v) <==> exists|k: int|
                0 <= k < lab.ids@.len() && lab.ids@[k] == (u as usize, v as usize)),
{
    let nl = lab.lefts.len();
    let nr = lab.rights.len();
    let mut adj: Vec<Vec<usize>> = Vec::new();
    let mut i: usize = 0;
    while i < nl
        invariant
            i <= nl,
            adj@.len() == i,
            forall|u: int| 0 <= u < i ==> (#[trigger] adj@[u])@.len() == 0,
        decreases nl - i,
    {
        adj.push(Vec::new());
        i += 1;
    }
    let mut k: usize = 0;
    while k < lab.ids.len()
        invariant
            nl == lab.lefts@.len(),
            nr == lab.rights@.len(),
            nl < usize::MAX,
            k <= lab.ids@.len(),
            adj@.len() == nl,
            forall|k: int|
                0 <= k < lab.ids@.len() ==> (#[trigger] lab.ids@[k]).0 < lab.lefts@.len()
                    && lab.ids@[k].1 < lab.rights@.len(),
            forall|u: int, j: int|
                0 <= u < nl && 0 <= j < adj@[u]@.len() ==> exists|kk: int|
                    0 <= kk < k && lab.ids@[kk] == (u as usize, #[trigger] adj@[u]@[j]),
            forall|kk: int| 0 <= kk < k ==> #[trigger] listed(adj@, lab.ids@[kk]),
        decreases lab.ids@.len() - k,
    {
        let (a, b) = lab.ids[k];
        let ghost adj0 = adj@;
        adj[a].push(b);
        proof {
            assert forall|u: int, j: int|
                0 <= u < nl && 0 <= j < adj@[u]@.len() implies exists|kk: int|
                    0 <= kk < k + 1 && lab.ids@[kk] == (u as usize, #[trigger] adj@[u]@[j]) by {
                if u == a && j == adj0[u]@.len() {
                    assert(lab.ids@[k as int] == (u as usize, adj@[u]@[j]));
                } else {
                    assert(adj@[u]@[j] == adj0[u]@[j]);
                }
            }
            assert forall|kk: int| 0 <= kk < k + 1 implies #[trigger] listed(adj@, lab.ids@[kk]) by {
                if kk == k {
                    assert(adj@[a as int]@[adj0[a as int]@.len() as int] == b);
                } else {
                    assert(listed(adj0, lab.ids@[kk]));
                    let u = lab.ids@[kk].0 as int;
                    let j = choose|j: int| 0 <= j < adj0[u]@.len() && #[trigger] adj0[u]@[j] == lab.ids@[kk].1;
                    assert(adj@[u]@[j] == adj0[u]@[j]);
                }
            }
        }
        k += 1;
    }
    let g = DenseGraph { nl, nr, adj };
    proof {
        assert forall|u: int, j: int|
            0 <= u < g.nl && 0 <= j < g.adj@[u]@.len() implies #[trigger] g.adj@[u]@[j] < g.nr by {
            let kk = choose|kk: int| 0 <= kk < k && lab.ids@[kk] == (u as usize, #[trigger] g.adj@[u]@[j]);
        }
        assert forall|u: int, v: int|
            0 <= u < g.nl && 0 <= v < g.nr implies (g.has_edge(u, v) <==> exists|k: int|
                0 <= k < lab.ids@.len() && lab.ids@[k] == (u as usize, v as usize)) by {
            if g.has_edge(u, v) {
                let j = choose|j: int| 0 <= j < g.adj@[u]@.len() && #[trigger] g.adj@[u]@[j] == v;
                let kk = choose|kk: int| 0 <= kk < k && lab.ids@[kk] == (u as usize, #[trigger] g.adj@[u]@[j]);
            }
            if exists|k: int| 0 <= k < lab.ids@.len() && lab.ids@[k] == (u as usize, v as usize) {
                let kk = choose|k: int| 0 <= k < lab.ids@.len() && lab.ids@[k] == (u as usize, v as usize);
                assert(listed(g.adj@, lab.ids@[kk]));
                let j = choose|j: int|
                    0 <= j < g.adj@[lab.ids@[kk].0 as int]@.len() && #[trigger] g.adj@[lab.ids@[kk].0 as int]@[j]
                        == lab.ids@[kk].1;
            }
        }
    }
    g
}

} // verus!
