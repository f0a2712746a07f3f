use dfpa::greedy::{dsatur, dsatur2, greedy};
use dfpa::structs::Graph;

fn cycle(n: usize) -> Graph {
    let edges: Vec<(usize, usize)> = (0..n).map(|i| (i, (i + 1) % n)).collect();
    Graph::from_edges(n, &edges, false).unwrap()
}

fn complete(n: usize) -> Graph {
    let mut edges = Vec::new();
    for i in 0..n {
        for j in (i + 1)..n {
            edges.push((i, j));
        }
    }
    Graph::from_edges(n, &edges, false).unwrap()
}

fn assert_proper(g: &Graph, sol: &[usize]) {
    for v in 0..g.len() {
        for &u in g.neighbors(v) {
            assert_ne!(sol[v], sol[u], "edge {}-{} is monochromatic", v, u);
        }
    }
}

#[test]
fn dsatur_colors_odd_cycle_with_three() {
    let g = cycle(5);
    let (k, c) = dsatur(&g);
    assert_proper(&g, &c.solution);
    assert_eq!(c.tot_conflicts, 0);
    assert_eq!(k, 3);
}

#[test]
fn dsatur2_colors_odd_cycle_with_three() {
    let g = cycle(5);
    let (k, c) = dsatur2(&g);
    assert_proper(&g, &c.solution);
    assert_eq!(k, 3);
}

#[test]
fn greedy_variants_respect_max_degree_bound() {
    for g in [cycle(8), complete(5), Graph::from_edges(
        6,
        &vec![(0, 1), (0, 2), (0, 3), (0, 4), (0, 5), (1, 2), (3, 4)],
        false,
    )
    .unwrap()]
    {
        let bound = g.max_degree() + 1;
        for (k, c) in [dsatur(&g), dsatur2(&g), greedy(&g)] {
            assert_proper(&g, &c.solution);
            assert!(k <= bound, "used {} colours, bound {}", k, bound);
            assert_eq!(k, distinct(&c.solution));
            // each vertex carries the smallest colour its neighbours allow:
            // every smaller colour occurs in its neighbourhood
            for v in 0..g.len() {
                for cc in 1..c.solution[v] {
                    assert!(
                        g.neighbors(v).iter().any(|&u| c.solution[u] == cc),
                        "vertex {} skipped colour {}",
                        v,
                        cc
                    );
                }
            }
        }
    }
}

fn distinct(sol: &[usize]) -> usize {
    let mut seen: Vec<usize> = Vec::new();
    for &c in sol {
        if !seen.contains(&c) {
            seen.push(c);
        }
    }
    seen.len()
}

#[test]
fn dsatur_on_complete_graph_uses_all_colors() {
    let g = complete(4);
    let (k, c) = dsatur(&g);
    assert_proper(&g, &c.solution);
    assert_eq!(k, 4);
    let (k2, c2) = dsatur2(&g);
    assert_proper(&g, &c2.solution);
    assert_eq!(k2, 4);
}

#[test]
fn greedy_first_fit_on_bipartite_cycle() {
    let g = cycle(4);
    let (k, c) = greedy(&g);
    assert_proper(&g, &c.solution);
    assert_eq!(k, 2);
}
