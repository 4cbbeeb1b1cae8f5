use aoc_toolkit::dijkstra::{Dijkstra, EdgeList};

// Nodes encode grid cells: (x, y) as x * 2 + y.
fn unit_grid() -> EdgeList {
    EdgeList {
        edges: vec![(0, 1, 2), (0, 1, 1), (2, 1, 3), (1, 1, 3)],
        targets: vec![3],
    }
}

#[test]
fn grid_cheapest_cost_two() {
    let g = unit_grid();
    let r = Dijkstra::find_first(&g, 0);
    assert_eq!(r, Some((2, 3)));
}

#[test]
fn grid_both_tied_paths() {
    let g = unit_grid();
    let r = Dijkstra::find_first_paths(&g, 0);
    let (cost, paths) = r.expect("target must be reachable");
    assert_eq!(cost, 2);
    assert_eq!(paths.len(), 2);
    let a = vec![0u64, 2, 3];
    let b = vec![0u64, 1, 3];
    assert!(paths.contains(&a), "missing path through (1,0)");
    assert!(paths.contains(&b), "missing path through (0,1)");
    assert_ne!(paths[0], paths[1], "a tied path was reported twice");
}

#[test]
fn single_edge_cost_five() {
    let g = EdgeList { edges: vec![(0, 5, 3)], targets: vec![3] };
    assert_eq!(Dijkstra::find_first(&g, 0), Some((5, 3)));
    assert_eq!(Dijkstra::find_all(&g, 0), vec![(5, 3)]);
}

#[test]
fn unreachable_target() {
    let g = EdgeList { edges: vec![(0, 1, 1), (1, 1, 0)], targets: vec![9] };
    assert_eq!(Dijkstra::find_first(&g, 0), None);
    assert_eq!(Dijkstra::find_all(&g, 0), vec![]);
    assert_eq!(Dijkstra::find_first_paths(&g, 0), None);
    assert_eq!(Dijkstra::find_all_paths(&g, 0), vec![]);
}

#[test]
fn all_targets_cost_order() {
    let g = EdgeList {
        edges: vec![(0, 4, 7), (0, 1, 5), (5, 1, 6), (6, 1, 7), (6, 3, 8)],
        targets: vec![6, 7, 8],
    };
    let r = Dijkstra::find_all(&g, 0);
    for w in r.windows(2) {
        assert!(w[0].0 <= w[1].0, "costs out of order: {:?}", r);
    }
    assert_eq!(r.first(), Some(&(2, 6)));
    assert!(r.contains(&(3, 7)));
    assert!(r.contains(&(5, 8)));
}

#[test]
fn rerun_is_identical() {
    let g = unit_grid();
    let first = Dijkstra::find_all_paths(&g, 0);
    let second = Dijkstra::find_all_paths(&g, 0);
    assert_eq!(first.len(), second.len());
    for (a, b) in first.iter().zip(second.iter()) {
        assert_eq!(a.0, b.0);
        assert_eq!(a.1, b.1);
    }
    assert_eq!(Dijkstra::find_all(&g, 0), Dijkstra::find_all(&g, 0));
    assert_eq!(Dijkstra::find_first(&g, 0), Dijkstra::find_first(&g, 0));
}

#[test]
fn all_modes_agree_on_costs() {
    let g = EdgeList {
        edges: vec![(0, 4, 7), (0, 1, 5), (5, 1, 6), (6, 1, 7), (6, 3, 8)],
        targets: vec![6, 7, 8],
    };
    let all = Dijkstra::find_all(&g, 0);
    assert_eq!(all.len(), 3, "every reachable target is reported once");
    for &(cost, node) in all.iter() {
        // every report carries exactly the cost the single-target
        // query finds, and no node is ever reported twice
        let solo = EdgeList { edges: g.edges.clone(), targets: vec![node] };
        let single = Dijkstra::find_first(&solo, 0).expect("reported node must be reachable");
        assert_eq!(single, (cost, node));
        assert_eq!(all.iter().filter(|e| e.1 == node).count(), 1);
    }
    // the first-report mode is the head of the full report
    assert_eq!(Dijkstra::find_first(&g, 0), all.first().copied());
    // the path-enumerating mode reports the same costs in the same
    // order, and each enumerated path closes at the reported cost
    let with_paths = Dijkstra::find_all_paths(&g, 0);
    assert_eq!(with_paths.len(), all.len());
    for (i, (cost, paths)) in with_paths.iter().enumerate() {
        assert_eq!(*cost, all[i].0);
        assert!(!paths.is_empty(), "a reported target lost its paths");
        for p in paths {
            assert_eq!(*p.first().unwrap(), 0);
            assert_eq!(*p.last().unwrap(), all[i].1);
            let walked: u64 = p
                .windows(2)
                .map(|w| {
                    g.edges
                        .iter()
                        .filter(|e| e.0 == w[0] && e.2 == w[1])
                        .map(|e| e.1)
                        .min()
                        .expect("path steps along a real edge")
                })
                .sum();
            assert_eq!(walked, *cost, "path {p:?} does not close at the reported cost");
        }
    }
}

#[test]
fn stop_mode_reports_all_tied_targets() {
    // two distinct targets, both reachable at the same minimal cost:
    // the stopping mode finishes its bucket and reports paths to both
    let g = EdgeList {
        edges: vec![(0, 2, 5), (0, 2, 6), (5, 9, 7), (6, 9, 7)],
        targets: vec![5, 6],
    };
    let (cost, paths) = Dijkstra::find_first_paths(&g, 0).expect("targets are reachable");
    assert_eq!(cost, 2);
    let mut ends: Vec<u64> = paths.iter().map(|p| *p.last().unwrap()).collect();
    ends.sort();
    ends.dedup();
    assert_eq!(ends, vec![5, 6], "a same-cost target was dropped at the stop signal");
}
