use dfpa::structs::{Coloring, Graph};

fn cycle(n: usize) -> Graph {
    let edges: Vec<(usize, usize)> = (0..n).map(|i| (i, (i + 1) % n)).collect();
    Graph::from_edges(n, &edges, false).unwrap()
}

fn complete(n: usize) -> Graph {
    let mut edges = Vec::new();
    for i in 0..n {
        for j in (i + 1)..n {
            edges.push((i, j));
        }
    }
    Graph::from_edges(n, &edges, false).unwrap()
}

/// Recompute the conflict counts of a solution from scratch.
fn brute_conflicts(g: &Graph, sol: &[usize]) -> Vec<usize> {
    (0..g.len())
        .map(|v| {
            g.neighbors(v)
                .iter()
                .filter(|&&u| sol[u] == sol[v])
                .count()
        })
        .collect()
}

#[test]
fn from_edges_builds_symmetric_dedup_adjacency() {
    let g = Graph::from_edges(3, &vec![(0, 1), (1, 0), (0, 1), (1, 2)], false).unwrap();
    assert_eq!(g.len(), 3);
    let mut n0 = g.neighbors(0).clone();
    n0.sort();
    assert_eq!(n0, vec![1]);
    let mut n1 = g.neighbors(1).clone();
    n1.sort();
    assert_eq!(n1, vec![0, 2]);
    assert_eq!(g.neighbors(2).clone(), vec![1]);
}

#[test]
fn from_edges_simple_keeps_one_direction() {
    let g = Graph::from_edges(2, &vec![(0, 1), (1, 0)], true).unwrap();
    let total: usize = (0..2).map(|v| g.neighbors(v).len()).sum();
    assert_eq!(total, 1);
}

#[test]
fn from_edges_rejects_bad_endpoints_and_loops() {
    assert!(Graph::from_edges(3, &vec![(0, 3)], false).is_none());
    assert!(Graph::from_edges(3, &vec![(1, 1)], false).is_none());
    assert!(Graph::from_edges(3, &vec![(0, 1), (7, 2)], true).is_none());
}

#[test]
fn max_degree_of_star_and_cycle() {
    let star = Graph::from_edges(4, &vec![(0, 1), (0, 2), (0, 3)], false).unwrap();
    assert_eq!(star.max_degree(), 3);
    assert_eq!(cycle(5).max_degree(), 2);
    assert_eq!(complete(4).max_degree(), 3);
}

#[test]
fn populate_gives_wellformed_random_colorings() {
    let g = cycle(6);
    let pop = g.populate(8, 3);
    assert_eq!(pop.len(), 8);
    for (i, c) in pop.iter().enumerate() {
        assert_eq!(c.index, i);
        assert_eq!(c.len(), 6);
        assert!(c.solution.iter().all(|&col| (1..=3).contains(&col)));
        // the conflict bookkeeping of a fresh coloring is faithful
        assert_eq!(c.conflicts, brute_conflicts(&g, &c.solution));
        let sum: usize = c.conflicts.iter().sum();
        assert_eq!(sum % 2, 0);
        assert_eq!(c.tot_conflicts, sum / 2);
    }
}

#[test]
fn coloring_new_draws_colors_in_range() {
    let g = complete(5);
    let mut rng = rand::thread_rng();
    for i in 0..10 {
        let c = Coloring::new(i, &g, 4, &mut rng);
        assert_eq!(c.index, i);
        assert!(c.solution.iter().all(|&col| (1..=4).contains(&col)));
        assert_eq!(c.conflicts, brute_conflicts(&g, &c.solution));
    }
}
