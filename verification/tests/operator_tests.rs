use dfpa::pollinators::{
    change_all_critical, change_all_critical_opt, change_multiple, change_multiple_best,
    change_multiple_worst, change_one, change_worst, critical_vertices, criticals_by_conflicts,
    least_conflict_color, least_conflict_color_scan, levy_circ, levy_pop1, try_change_critical,
    Pollinator, CA, CM, CMB, CMW,
};
use dfpa::rng::Prng;
use dfpa::structs::{Coloring, Graph};

fn cycle(n: usize) -> Graph {
    let edges: Vec<(usize, usize)> = (0..n).map(|i| (i, (i + 1) % n)).collect();
    Graph::from_edges(n, &edges, false).unwrap()
}

fn brute_conflicts(g: &Graph, sol: &[usize]) -> Vec<usize> {
    (0..g.len())
        .map(|v| {
            g.neighbors(v)
                .iter()
                .filter(|&&u| sol[u] == sol[v])
                .count()
        })
        .collect()
}

fn assert_faithful(g: &Graph, c: &Coloring) {
    assert_eq!(c.conflicts, brute_conflicts(g, &c.solution));
    let sum: usize = c.conflicts.iter().sum();
    assert_eq!(sum % 2, 0);
    assert_eq!(c.tot_conflicts, sum / 2);
}

#[test]
fn least_conflict_color_picks_smallest_minimizer() {
    // path 0 - 1 - 2; choosing for the middle vertex
    let g = Graph::from_edges(3, &vec![(0, 1), (1, 2)], false).unwrap();
    let sol = vec![1, 1, 2];
    // colours 1 and 2 each clash once; colour 3 is free
    assert_eq!(least_conflict_color(&g, &sol, 1, 3), 3);
    assert_eq!(least_conflict_color_scan(&g, &sol, 1, 3), 3);
    // with only two colours allowed, the smallest minimizer wins
    assert_eq!(least_conflict_color(&g, &sol, 1, 2), 1);
    assert_eq!(least_conflict_color_scan(&g, &sol, 1, 2), 1);
}

#[test]
fn critical_vertices_lists_exactly_the_conflicting() {
    let g = cycle(4);
    let c = Coloring::from_vec(0, vec![1, 1, 2, 3], &g);
    assert_eq!(critical_vertices(&c), vec![0, 1]);
    let proper = Coloring::from_vec(0, vec![1, 2, 1, 2], &g);
    assert!(critical_vertices(&proper).is_empty());
}

// the sorting wrapper really orders by conflict count
#[test]
fn criticals_by_conflicts_is_sorted_and_complete() {
    // a star: the hub clashes with all three leaves
    let g = Graph::from_edges(4, &vec![(0, 1), (0, 2), (0, 3), (1, 2)], false).unwrap();
    let c = Coloring::from_vec(0, vec![1, 1, 1, 1], &g);
    assert_eq!(c.conflicts, vec![3, 2, 2, 1]);
    let sorted = criticals_by_conflicts(&c);
    assert_eq!(sorted.len(), 4);
    assert_eq!(*sorted.first().unwrap(), 3);
    assert_eq!(*sorted.last().unwrap(), 0);
    for w in sorted.windows(2) {
        assert!(c.conflicts[w[0]] <= c.conflicts[w[1]]);
    }
}

#[test]
fn change_all_critical_repairs_a_repairable_coloring() {
    let g = cycle(4);
    let x = Coloring::from_vec(2, vec![1, 1, 2, 2], &g);
    for r in [change_all_critical(&g, &x, 3), change_all_critical_opt(&g, &x, 3)] {
        assert_faithful(&g, &r);
        assert_eq!(r.index, 2);
        // only vertices that were in conflict may move
        for v in 0..4 {
            if r.solution[v] != x.solution[v] {
                assert_ne!(x.conflicts[v], 0);
                assert!((1..=3).contains(&r.solution[v]));
            }
        }
    }
}

#[test]
fn change_one_fixes_one_vertex_completely() {
    // path 0 - 1 - 2, all alike: vertex 0 is the first critical one and
    // colour 2 is free for it
    let g = Graph::from_edges(3, &vec![(0, 1), (1, 2)], false).unwrap();
    let x = Coloring::from_vec(0, vec![1, 1, 1], &g);
    let r = change_one(&g, &x, 3);
    assert_faithful(&g, &r);
    let changed: Vec<usize> = (0..3).filter(|&v| r.solution[v] != x.solution[v]).collect();
    assert_eq!(changed, vec![0]);
    assert_eq!(r.conflicts[0], 0);
}

#[test]
fn change_one_leaves_unrepairable_coloring_alone() {
    // a triangle with two colours: every critical vertex keeps a clash
    let g = cycle(3);
    let x = Coloring::from_vec(0, vec![1, 1, 2], &g);
    let r = change_one(&g, &x, 2);
    assert_eq!(r.solution, x.solution);
}

#[test]
fn change_worst_recolors_a_heaviest_vertex() {
    let g = Graph::from_edges(4, &vec![(0, 1), (0, 2), (0, 3)], false).unwrap();
    let x = Coloring::from_vec(0, vec![1, 1, 1, 1], &g);
    let r = change_worst(&g, &x, 2);
    assert_faithful(&g, &r);
    // the hub holds the maximum conflict count and moves to colour 2
    assert_eq!(r.solution, vec![2, 1, 1, 1]);
    assert_eq!(r.tot_conflicts, 0);
}

#[test]
fn random_subset_operators_keep_bookkeeping_faithful() {
    let g = cycle(7);
    let x = Coloring::from_vec(5, vec![1, 1, 2, 2, 1, 2, 2], &g);
    let mut rng = Prng::seeded(11);
    for _ in 0..30 {
        for r in [
            change_multiple(&mut rng, &g, &x, 3, 150),
            change_multiple_best(&mut rng, &g, &x, 3, 150),
            change_multiple_worst(&mut rng, &g, &x, 3, 150),
            try_change_critical(&mut rng, &g, &x, 3),
        ] {
            assert_faithful(&g, &r);
            assert_eq!(r.index, 5);
            for v in 0..7 {
                if r.solution[v] != x.solution[v] {
                    assert_ne!(x.conflicts[v], 0);
                    assert!((1..=3).contains(&r.solution[v]));
                }
            }
        }
    }
}

#[test]
fn levy_pop1_blends_best_into_other() {
    let g = cycle(6);
    let best = Coloring::from_vec(0, vec![1, 2, 1, 2, 1, 2], &g);
    let other = Coloring::from_vec(4, vec![3, 3, 3, 3, 3, 3], &g);
    let mut rng = Prng::seeded(21);
    let mut saw_blend = false;
    for _ in 0..50 {
        let r = levy_pop1(&g, &mut rng, &best, &other, 150);
        assert_faithful(&g, &r);
        assert_eq!(r.index, 4);
        let mut from_best = 0;
        for v in 0..6 {
            if r.solution[v] == best.solution[v] {
                from_best += 1;
            } else {
                assert_eq!(r.solution[v], other.solution[v]);
            }
        }
        if from_best > 0 {
            saw_blend = true;
        }
    }
    assert!(saw_blend);
}

#[test]
fn levy_circ_keeps_bookkeeping_faithful() {
    let g = cycle(6);
    let x = Coloring::from_vec(1, vec![1, 2, 3, 1, 2, 3], &g);
    let mut rng = Prng::seeded(8);
    for _ in 0..30 {
        let r = levy_circ(&g, &mut rng, &x, 150);
        assert_faithful(&g, &r);
        assert_eq!(r.index, 1);
    }
}

#[test]
fn strategy_variants_expose_global_and_local() {
    let g = cycle(5);
    let best = Coloring::from_vec(0, vec![1, 2, 1, 2, 3], &g);
    let x = Coloring::from_vec(1, vec![1, 1, 1, 1, 1], &g);
    let mut rng = Prng::seeded(77);
    let gl = [
        CM::global(&mut rng, &g, &best, &x, 150),
        CMB::global(&mut rng, &g, &best, &x, 150),
        CA::global(&mut rng, &g, &best, &x, 150),
        CMW::global(&mut rng, &g, &best, &x, 150),
    ];
    for r in gl {
        assert_faithful(&g, &r);
        assert_eq!(r.index, 1);
    }
    let lo = [
        CM::local(&mut rng, &g, &x, 3, 150),
        CMB::local(&mut rng, &g, &x, 3, 150),
        CA::local(&mut rng, &g, &x, 3, 150),
        CMW::local(&mut rng, &g, &x, 3, 150),
    ];
    for r in lo {
        assert_faithful(&g, &r);
        assert_eq!(r.index, 1);
    }
}
