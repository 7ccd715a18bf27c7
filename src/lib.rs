//! Maximum-cardinality matching in bipartite graphs by Hopcroft–Karp.
//!
//! An edge list holds pairs `(left, right)` of vertex labels; the left end of
//! an edge is a left vertex and the right end a right vertex. Duplicate edges
//! count once. The labels are given dense ids, the phases of breadth-first
//! layering and depth-first augmentation run on those, and the result is
//! mapped back to labels.
//!
//! The validating entry points (`matching`, `matching_size`,
//! `bounded_matching`) ask that no label is used on both sides; the `_mapped`
//! ones accept any edge list and treat a label on the left and the same label
//! on the right as two vertices.
//!
//! Labels are kept in a `std::collections::HashMap` while ids are given, so
//! every entry point asks that the label type hashes and compares by its value
//! (vstd's `obeys_key_model`, which holds of the integer types), and, as a
//! machine limit, that the edge list is shorter than `usize::MAX`.
use std::hash::Hash;

use vstd::prelude::*;

mod graph;
mod matcher;
pub mod model;
mod solve;

use crate::model::{
    has_no_augmenting_path, is_bipartite, is_bounded_matching, is_bounded_size,
    is_maximum_matching, is_maximum_size, lemma_bipartite_disjoint, vertex_disjoint,
};
use crate::solve::{collect_pairs, compute};

verus! {

/// A maximum matching of `edges`, which must be bipartite.
pub fn matching<V: Copy + Eq + Hash>(edges: &Vec<(V, V)>) -> (r: Vec<(V, V)>)
    requires
        vstd::std_specs::hash::obeys_key_model::<V>(),
        edges@.len() < usize::MAX,
        is_bipartite(edges@),
    ensures
        is_maximum_matching(edges@, r@),
        has_no_augmenting_path(edges@, r@),
        vertex_disjoint(r@),
{
    let (lab, m) = compute(edges, None);
    let r = collect_pairs(&lab, &m.pl);
    proof {
        lemma_bipartite_disjoint(edges@, r@);
    }
    r
}

/// The size of a maximum matching of `edges`, which must be bipartite.
pub fn matching_size<V: Copy + Eq + Hash>(edges: &Vec<(V, V)>) -> (n: usize)
    requires
        vstd::std_specs::hash::obeys_key_model::<V>(),
        edges@.len() < usize::MAX,
        is_bipartite(edges@),
    ensures
        is_maximum_size(edges@, n as nat),
{
    let (lab, m) = compute(edges, None);
    m.size
}

/// A maximum matching of `edges`, where a label on the left and the same
/// label on the right are two vertices.
pub fn matching_mapped<V: Copy + Eq + Hash>(edges: &Vec<(V, V)>) -> (r: Vec<(V, V)>)
    requires
        vstd::std_specs::hash::obeys_key_model::<V>(),
        edges@.len() < usize::MAX,
    ensures
        is_maximum_matching(edges@, r@),
        has_no_augmenting_path(edges@, r@),
{
    let (lab, m) = compute(edges, None);
    collect_pairs(&lab, &m.pl)
}

/// The size of a maximum matching of `edges`, sides kept apart as in
/// `matching_mapped`.
pub fn matching_mapped_size<V: Copy + Eq + Hash>(edges: &Vec<(V, V)>) -> (n: usize)
    requires
        vstd::std_specs::hash::obeys_key_model::<V>(),
        edges@.len() < usize::MAX,
    ensures
        is_maximum_size(edges@, n as nat),
{
    let (lab, m) = compute(edges, None);
    m.size
}

/// A matching of the bipartite `edges` with `bound` edges, or a maximum one
/// where no matching has that many: the search stops as soon as the bound is met.
pub fn bounded_matching<V: Copy + Eq + Hash>(edges: &Vec<(V, V)>, bound: usize) -> (r: Vec<(V, V)>)
    requires
        vstd::std_specs::hash::obeys_key_model::<V>(),
        edges@.len() < usize::MAX,
        is_bipartite(edges@),
    ensures
        is_bounded_matching(edges@, bound as nat, r@),
        vertex_disjoint(r@),
{
    let (lab, m) = compute(edges, Some(bound));
    let r = collect_pairs(&lab, &m.pl);
    proof {
        lemma_bipartite_disjoint(edges@, r@);
    }
    r
}

/// As `bounded_matching`, with sides kept apart as in `matching_mapped`.
pub fn bounded_matching_mapped<V: Copy + Eq + Hash>(edges: &Vec<(V, V)>, bound: usize) -> (r: Vec<(V, V)>)
    requires
        vstd::std_specs::hash::obeys_key_model::<V>(),
        edges@.len() < usize::MAX,
    ensures
        is_bounded_matching(edges@, bound as nat, r@),
{
    let (lab, m) = compute(edges, Some(bound));
    collect_pairs(&lab, &m.pl)
}

/// The size of what `bounded_matching_mapped` returns.
pub fn bounded_matching_mapped_size<V: Copy + Eq + Hash>(edges: &Vec<(V, V)>, bound: usize) -> (n: usize)
    requires
        vstd::std_specs::hash::obeys_key_model::<V>(),
        edges@.len() < usize::MAX,
    ensures
        is_bounded_size(edges@, bound as nat, n as nat),
{
    let (lab, m) = compute(edges, Some(bound));
    m.size
}

} // verus!
