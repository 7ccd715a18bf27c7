//! One matching computation: relabel, run the phases, map the result back.
use std::hash::Hash;

use vstd::prelude::*;

use crate::graph::{dense_graph, labeling_ok, lemma_labeling_sizes, relabel, Labeling};
use crate::matcher::{closed, matched_count, pairs_ok, run, DenseGraph, Matcher, INF};
use crate::model::{
    has_no_augmenting_path, is_bounded_matching, is_cover_witness, is_matching,
    is_maximum_matching, lemma_matching_len_bound, lemma_witness_maximum,
    lemma_witness_no_augmenting_path, left_labels,
};

verus! {

/// The matched pairs of `pl`, as labels, in the order of the left ids.
pub open spec fn pairs_of<V>(lefts: Seq<V>, rights: Seq<V>, pl: Seq<Option<usize>>) -> Seq<(V, V)>
    decreases pl.len(),
{
    if pl.len() == 0 {
        Seq::empty()
    } else {
        let rest = pairs_of(lefts, rights, pl.drop_last());
        match pl.last() {
            Some(v) => rest.push((lefts[pl.len() - 1], rights[v as int])),
            None => rest,
        }
    }
}

proof fn lemma_pairs_of<V>(lefts: Seq<V>, rights: Seq<V>, pl: Seq<Option<usize>>)
    requires
        pl.len() <= lefts.len(),
        lefts.no_duplicates(),
        rights.no_duplicates(),
        forall|u: int| 0 <= u < pl.len() && (#[trigger] pl[u]) is Some ==> pl[u]->0 < rights.len(),
        forall|u1: int, u2: int|
            0 <= u1 < pl.len() && 0 <= u2 < pl.len() && (#[trigger] pl[u1]) is Some && pl[u1]
                == #[trigger] pl[u2] ==> u1 == u2,
    ensures
        pairs_of(lefts, rights, pl).len() == matched_count(pl),
        forall|i: int|
            0 <= i < pairs_of(lefts, rights, pl).len() ==> exists|u: int|
                0 <= u < pl.len() && pl[u] is Some && #[trigger] pairs_of(lefts, rights, pl)[i] == (
                lefts[u], rights[pl[u]->0 as int]),
        forall|u: int|
            0 <= u < pl.len() && (#[trigger] pl[u]) is Some ==> pairs_of(lefts, rights, pl).contains(
                (lefts[u], rights[pl[u]->0 as int]),
            ),
        forall|i: int, j: int|
            0 <= i < j < pairs_of(lefts, rights, pl).len() ==> (#[trigger] pairs_of(lefts, rights, pl)[i]).0
                != (#[trigger] pairs_of(lefts, rights, pl)[j]).0 && pairs_of(lefts, rights, pl)[i].1
                != pairs_of(lefts, rights, pl)[j].1,
    decreases pl.len(),
{
    if pl.len() > 0 {
        let pre = pl.drop_last();
        lemma_pairs_of(lefts, rights, pre);
        let rest = pairs_of(lefts, rights, pre);
        let r = pairs_of(lefts, rights, pl);
        let n = pl.len() - 1;
        assert forall|u: int| 0 <= u < pl.len() && (#[trigger] pl[u]) is Some implies r.contains(
            (lefts[u], rights[pl[u]->0 as int]),
        ) by {
            if u < n {
                assert(pre[u] == pl[u]);
                let i = choose|i: int| 0 <= i < rest.len() && rest[i] == (lefts[u], rights[pl[u]->0 as int]);
                assert(r[i] == rest[i]);
            } else {
                assert(r[r.len() - 1] == (lefts[u], rights[pl[u]->0 as int]));
            }
        }
        assert forall|i: int| 0 <= i < r.len() implies exists|u: int|
            0 <= u < pl.len() && pl[u] is Some && #[trigger] r[i] == (lefts[u], rights[pl[u]->0 as int]) by {
            if i < rest.len() {
                let u = choose|u: int|
                    0 <= u < pre.len() && pre[u] is Some && #[trigger] rest[i] == (lefts[u], rights[pre[u]->0 as int]);
                assert(pre[u] == pl[u]);
                assert(r[i] == rest[i]);
            }
        }
        if pl.last() is Some {
            assert forall|i: int| 0 <= i < rest.len() implies rest[i].0 != lefts[n] && rest[i].1 != rights[pl[n]->0 as int] by {
                let u = choose|u: int|
                    0 <= u < pre.len() && pre[u] is Some && #[trigger] rest[i] == (lefts[u], rights[pre[u]->0 as int]);
                assert(pre[u] == pl[u]);
            }
            assert forall|i: int, j: int| 0 <= i < j < r.len() implies (#[trigger] r[i]).0 != (#[trigger] r[j]).0 && r[i].1 != r[j].1 by {
                assert(r[i] == rest[i]);
                if j < rest.len() {
                    assert(r[j] == rest[j]);
                }
            }
        }
    }
}

/// Maps the pairing back to labels.
pub fn collect_pairs<V: Copy>(lab: &Labeling<V>, pl: &Vec<Option<usize>>) -> (r: Vec<(V, V)>)
    requires
        pl@.len() <= lab.lefts@.len(),
        forall|u: int| 0 <= u < pl@.len() && (#[trigger] pl@[u]) is Some ==> pl@[u]->0 < lab.rights@.len(),
    ensures
        r@ == pairs_of(lab.lefts@, lab.rights@, pl@),
{
    let mut r: Vec<(V, V)> = Vec::new();
    let mut u: usize = 0;
    while u < pl.len()
        invariant
            u <= pl@.len(),
            pl@.len() <= lab.lefts@.len(),
            forall|u: int| 0 <= u < pl@.len() && (#[trigger] pl@[u]) is Some ==> pl@[u]->0 < lab.rights@.len(),
            r@ == pairs_of(lab.lefts@, lab.rights@, pl@.take(u as int)),
        decreases pl@.len() - u,
    {
        assert(pl@.take(u + 1).drop_last() =~= pl@.take(u as int));
        if let Some(v) = pl[u] {
            r.push((lab.lefts[u], lab.rights[v]));
        }
        u += 1;
    }
    assert(pl@.take(u as int) =~= pl@);
    r
}

/// The final state of the phases, read over labels.
proof fn lemma_transfer<V>(edges: Seq<(V, V)>, lab: &Labeling<V>, g: &DenseGraph, m: &Matcher)
    requires
        labeling_ok(edges, lab),
        g.wf(),
        g.nl == lab.lefts@.len(),
        g.nr == lab.rights@.len(),
        forall|u: int, v: int|
            0 <= u < g.nl && 0 <= v < g.nr ==> (g.has_edge(u, v) <==> exists|k: int|
                0 <= k < lab.ids@.len() && lab.ids@[k] == (u as usize, v as usize)),
        pairs_ok(g, m.pl@, m.pr@),
        m.dist@.len() == g.nl,
    ensures
        is_matching(edges, pairs_of(lab.lefts@, lab.rights@, m.pl@)),
        pairs_of(lab.lefts@, lab.rights@, m.pl@).len() == matched_count(m.pl@),
        closed(g, m.pl@, m.pr@, m.dist@) ==> is_maximum_matching(edges, pairs_of(lab.lefts@, lab.rights@, m.pl@))
            && has_no_augmenting_path(edges, pairs_of(lab.lefts@, lab.rights@, m.pl@)),
{
    let lefts = lab.lefts@;
    let rights = lab.rights@;
    let pl = m.pl@;
    let pr = m.pr@;
    assert forall|u1: int, u2: int|
        0 <= u1 < pl.len() && 0 <= u2 < pl.len() && (#[trigger] pl[u1]) is Some && pl[u1]
            == #[trigger] pl[u2] implies u1 == u2 by {
        assert(pr[pl[u1]->0 as int] == Some(u1 as usize));
    }
    lemma_pairs_of(lefts, rights, pl);
    let r = pairs_of(lefts, rights, pl);
    assert forall|i: int| 0 <= i < r.len() implies edges.contains(#[trigger] r[i]) by {
        let u = choose|u: int| 0 <= u < pl.len() && pl[u] is Some && #[trigger] r[i] == (lefts[u], rights[pl[u]->0 as int]);
        let v = pl[u]->0 as int;
        assert(g.has_edge(u, v));
        let k = choose|k: int| 0 <= k < lab.ids@.len() && lab.ids@[k] == (u as usize, v as usize);
        assert(lab.ids@[k] == (u as usize, v as usize));
        assert(edges[k] == r[i]);
    }
    if closed(g, pl, pr, m.dist@) {
        let z = Set::new(|x: V| exists|u: int| 0 <= u < g.nl && lefts[u] == x && m.dist@[u] < INF);
        lemma_labeling_sizes(edges, lab);
        assert forall|x: V| left_labels(edges).contains(x) && crate::model::left_free(r, x) implies z.contains(x) by {
            let u = choose|u: int| 0 <= u < lefts.len() && lefts[u] == x;
            if pl[u] is Some {
                let i = choose|i: int| 0 <= i < r.len() && r[i] == (lefts[u], rights[pl[u]->0 as int]);
                assert(r[i].0 == x);
            }
        }
        assert forall|i: int|
            0 <= i < edges.len() && z.contains(#[trigger] edges[i].0) implies exists|k: int|
                0 <= k < r.len() && r[k].1 == edges[i].1 && z.contains(r[k].0) by {
            let (a, b) = lab.ids@[i];
            let u = choose|u: int| 0 <= u < g.nl && lefts[u] == edges[i].0 && m.dist@[u] < INF;
            assert(lefts[a as int] == edges[i].0);
            assert(u == a as int);
            assert(g.has_edge(a as int, b as int));
            let j = choose|j: int| 0 <= j < g.adj@[a as int]@.len() && #[trigger] g.adj@[a as int]@[j] == b as int;
            let w = pr[b as int]->0 as int;
            assert(pl[w] == Some(b));
            let t = choose|t: int| 0 <= t < r.len() && r[t] == (lefts[w], rights[b as int]);
            assert(z.contains(lefts[w]));
        }
        assert(is_cover_witness(edges, r, z));
        lemma_witness_maximum(edges, r, z);
        lemma_witness_no_augmenting_path(edges, r, z);
    }
}

/// Relabels `edges`, runs the phases (up to `bound` matched edges, if given),
/// and returns the labeling with the final state.
pub fn compute<V: Copy + Eq + Hash>(edges: &Vec<(V, V)>, bound: Option<usize>) -> (res: (Labeling<V>, Matcher))
    requires
        vstd::std_specs::hash::obeys_key_model::<V>(),
        edges@.len() < usize::MAX,
    ensures
        labeling_ok(edges@, &res.0),
        res.1.pl@.len() == res.0.lefts@.len(),
        forall|u: int| 0 <= u < res.1.pl@.len() && (#[trigger] res.1.pl@[u]) is Some ==> res.1.pl@[u]->0 < res.0.rights@.len(),
        is_matching(edges@, pairs_of(res.0.lefts@, res.0.rights@, res.1.pl@)),
        res.1.size == pairs_of(res.0.lefts@, res.0.rights@, res.1.pl@).len(),
        bound is None ==> is_maximum_matching(edges@, pairs_of(res.0.lefts@, res.0.rights@, res.1.pl@))
            && has_no_augmenting_path(edges@, pairs_of(res.0.lefts@, res.0.rights@, res.1.pl@)),
        bound matches Some(k) ==> is_bounded_matching(edges@, k as nat, pairs_of(res.0.lefts@, res.0.rights@, res.1.pl@)),
{
    let lab = relabel(edges);
    let g = dense_graph(&lab);
    let cap = match bound {
        Some(k) => {
            let side = if g.nl < g.nr { g.nl } else { g.nr };
            Some(if k < side { k } else { side })
        },
        None => None,
    };
    let m = run(&g, cap);
    proof {
        lemma_transfer(edges@, &lab, &g, &m);
        let r = pairs_of(lab.lefts@, lab.rights@, m.pl@);
        if let Some(k) = bound {
            if !closed(&g, m.pl@, m.pr@, m.dist@) && r.len() != k {
                lemma_labeling_sizes(edges@, &lab);
                assert forall|m2: Seq<(V, V)>| is_matching(edges@, m2) implies m2.len() <= r.len() by {
                    lemma_matching_len_bound(edges@, m2);
                }
            }
        }
    }
    (lab, m)
}

} // verus!
