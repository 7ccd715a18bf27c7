use fxhash::FxHashSet;
use hopcroft_karp::{
    bounded_matching, bounded_matching_mapped, bounded_matching_mapped_size, matching,
    matching_mapped, matching_mapped_size, matching_size,
};
use rand::{RngCore, SeedableRng};
use rand_chacha::ChaChaRng;

fn assert_valid<V: Copy + Eq + std::fmt::Debug>(edges: &Vec<(V, V)>, res: &Vec<(V, V)>) {
    for (i, e) in res.iter().enumerate() {
        assert!(edges.contains(e), "{:?} is not an input edge", e);
        for f in res.iter().skip(i + 1) {
            assert_ne!(e.0, f.0);
            assert_ne!(e.1, f.1);
        }
    }
}

#[test]
fn test_basic() {
    let edges = vec![(0, 10), (0, 11), (0, 12), (1, 11), (2, 12)];
    let res = matching(&edges);
    assert_eq!(res.len(), 3);
    let expected = vec![(0, 10), (1, 11), (2, 12)];
    assert_eq!(
        res.iter().copied().collect::<FxHashSet<(i32, i32)>>(),
        expected.iter().copied().collect::<FxHashSet<(i32, i32)>>()
    );

    let edges = vec![(0, 10), (0, 11), (0, 12), (0, 13)];
    let res = matching(&edges);
    assert_eq!(res.len(), 1);
    assert!(edges.contains(&res[0]));
}

#[test]
fn test_random_perfect() {
    let n: usize = 100;
    let mut rng = ChaChaRng::from_entropy();

    let mut edges = Vec::default();
    let mut edges_set = FxHashSet::default();
    for u in 0..n {
        edges.push((u, n + u));
        edges_set.insert((n, n + u));
    }

    for _ in 0..2 * n {
        let u = rng.next_u64() as usize % n;
        let v = n + rng.next_u64() as usize % n;
        if !edges_set.contains(&(u, v)) {
            edges.push((u, v));
            edges_set.insert((u, v));
        }
    }

    let res = matching(&edges);
    assert_eq!(res.len(), n);
    assert_eq!(res.len(), matching_size(&edges));
}

#[test]
fn test_random_lopsided() {
    let n: usize = 100;
    let mut rng = ChaChaRng::from_entropy();

    let mut edges = Vec::default();
    let mut edges_set = FxHashSet::default();
    for u in 0..n {
        edges.push((u, n + u));
        edges_set.insert((n, n + u));
    }

    for _ in 0..2 * n {
        let u = rng.next_u64() as usize % n;
        let v = n + rng.next_u64() as usize % (2 * n);
        if !edges_set.contains(&(u, v)) {
            edges.push((u, v));
            edges_set.insert((u, v));
        }
    }

    let res = matching(&edges);
    assert_eq!(res.len(), n);
    assert_eq!(res.len(), matching_size(&edges));
}

#[test]
fn test_edge_cases() {
    let edges: Vec<(u8, u8)> = vec![];
    let res = matching(&edges);
    assert_eq!(res.len(), 0);

    let edges = vec![(0, 1)];
    let res = matching(&edges);
    assert_eq!(res.len(), 1);

    let edges = vec![(0, 1), (0, 1)];
    let res = matching(&edges);
    assert_eq!(res.len(), 1);
}

#[test]
fn test_spiderman() {
    let edges = vec![
        ("spiderman", "doc octopus"),
        ("spiderman", "sandman"),
        ("spiderman", "green goblin"),
        ("silk", "doc octopus"),
        ("silk", "green goblin"),
        ("daredevil", "sandman"),
    ];
    let res = matching(&edges);
    assert_eq!(res.len(), 3);

    let res = matching_mapped(&edges);
    assert_eq!(res.len(), 3);
    assert_valid(&edges, &res);
}

#[test]
fn single_edge_is_returned() {
    let edges = vec![(0u32, 1u32)];
    assert_eq!(matching(&edges), vec![(0, 1)]);
    assert_eq!(matching_mapped(&edges), vec![(0, 1)]);
    assert_eq!(matching_size(&edges), 1);
}

#[test]
fn empty_input_everywhere() {
    let edges: Vec<(u64, u64)> = vec![];
    assert!(matching(&edges).is_empty());
    assert_eq!(matching_size(&edges), 0);
    assert!(matching_mapped(&edges).is_empty());
    assert_eq!(matching_mapped_size(&edges), 0);
    assert!(bounded_matching(&edges, 4).is_empty());
    assert!(bounded_matching_mapped(&edges, 4).is_empty());
    assert_eq!(bounded_matching_mapped_size(&edges, 4), 0);
}

#[test]
fn augmenting_path_is_followed() {
    // A greedy pass that matches 0-10 first must reroute 0 to 11.
    let edges = vec![(0, 10), (0, 11), (1, 10)];
    let res = matching(&edges);
    assert_eq!(res.len(), 2);
    assert_valid(&edges, &res);
    let set: FxHashSet<(i32, i32)> = res.into_iter().collect();
    assert!(set.contains(&(0, 11)) && set.contains(&(1, 10)));
}

#[test]
fn long_chain_needs_several_phases() {
    // The path 0-100-1-101-...: a perfect matching pairs i with 100 + i.
    let n: u32 = 40;
    let mut edges = Vec::new();
    for i in 0..n {
        edges.push((i, 100 + i));
        if i + 1 < n {
            edges.push((i + 1, 100 + i));
        }
    }
    let res = matching(&edges);
    assert_eq!(res.len(), n as usize);
    assert_valid(&edges, &res);
    assert_eq!(matching_mapped_size(&edges), n as usize);
}

#[test]
fn size_agrees_with_matching() {
    let edges = vec![(0, 10), (0, 11), (0, 12), (1, 11), (2, 12), (3, 12)];
    assert_eq!(matching(&edges).len(), matching_size(&edges));
    assert_eq!(matching_mapped(&edges).len(), matching_mapped_size(&edges));
    assert_eq!(matching_size(&edges), 3);
}

#[test]
fn size_bounded_by_smaller_side() {
    let edges = vec![(0, 10), (1, 10), (2, 10), (3, 11), (4, 11)];
    assert_eq!(matching_size(&edges), 2);
    let edges = vec![(0, 10), (0, 11), (0, 12)];
    assert_eq!(matching_size(&edges), 1);
}

#[test]
fn bound_is_respected() {
    let edges = vec![(0, 10), (0, 11), (0, 12), (1, 11), (2, 12)];
    for k in 0..6usize {
        let expected = k.min(3);
        let res = bounded_matching(&edges, k);
        assert_eq!(res.len(), expected);
        assert_valid(&edges, &res);
        let res = bounded_matching_mapped(&edges, k);
        assert_eq!(res.len(), expected);
        assert_valid(&edges, &res);
        assert_eq!(bounded_matching_mapped_size(&edges, k), expected);
    }
}

#[test]
fn bound_above_side_sizes() {
    let edges = vec![(0, 10), (1, 10), (2, 10)];
    assert_eq!(bounded_matching(&edges, usize::MAX).len(), 1);
    assert_eq!(bounded_matching_mapped_size(&edges, 7), 1);
}

#[test]
fn size_is_repeatable() {
    let edges = vec![(5, 1), (5, 2), (6, 2), (7, 3), (7, 1), (8, 3)];
    let first = matching_size(&edges);
    for _ in 0..5 {
        assert_eq!(matching_size(&edges), first);
        assert_eq!(matching(&edges).len(), first);
    }
    assert_eq!(first, 3);
}

#[test]
fn duplicate_edge_changes_nothing() {
    let mut edges = vec![(0, 10), (0, 11), (1, 11)];
    let before = matching_size(&edges);
    edges.push((0, 11));
    assert_eq!(matching_size(&edges), before);
    assert_eq!(before, 2);
}

#[test]
fn mapped_agrees_with_direct() {
    let edges = vec![(0u16, 10u16), (0, 11), (0, 12), (1, 11), (2, 12), (3, 13)];
    let direct = matching(&edges);
    let mapped = matching_mapped(&edges);
    assert_eq!(direct.len(), mapped.len());
    assert_valid(&edges, &mapped);
    assert_eq!(mapped.len(), 4);
}

#[test]
fn mapped_keeps_sides_apart() {
    // Label 1 is a right end and a left end: the mapped variant sees two vertices.
    let edges = vec![(0, 1), (0, 2), (1, 2)];
    let res = matching_mapped(&edges);
    assert_eq!(res.len(), 2);
    assert_valid(&edges, &res);
    assert_eq!(matching_mapped_size(&edges), 2);
}

#[test]
fn sentinel_like_labels() {
    let edges = vec![(usize::MAX, 0usize), (usize::MAX - 1, 0), (usize::MAX - 1, 1)];
    let res = matching(&edges);
    assert_eq!(res.len(), 2);
    assert_valid(&edges, &res);
}

#[test]
fn bipartite_result_shares_no_vertex() {
    let edges = vec![(0, 10), (0, 11), (1, 10), (2, 11), (2, 12)];
    let res = matching(&edges);
    assert_eq!(res.len(), 3);
    for (i, e) in res.iter().enumerate() {
        for (j, f) in res.iter().enumerate() {
            if i != j {
                assert!(e.0 != f.0 && e.1 != f.1 && e.0 != f.1);
            }
        }
    }
}
