use dfpa::greedy::dsatur2;
use dfpa::pollinators::{CA, CM};
use dfpa::rng::Prng;
use dfpa::search::{discrete_fpa, discrete_fpa_with_solution, evolve_individual};
use dfpa::structs::{Graph, Parameters};

fn cycle(n: usize) -> Graph {
    let edges: Vec<(usize, usize)> = (0..n).map(|i| (i, (i + 1) % n)).collect();
    Graph::from_edges(n, &edges, false).unwrap()
}

fn complete(n: usize) -> Graph {
    let mut edges = Vec::new();
    for i in 0..n {
        for j in (i + 1)..n {
            edges.push((i, j));
        }
    }
    Graph::from_edges(n, &edges, false).unwrap()
}

fn assert_proper(g: &Graph, sol: &[usize]) {
    for v in 0..g.len() {
        for &u in g.neighbors(v) {
            assert_ne!(sol[v], sol[u]);
        }
    }
}

// 5-vertex cycle: greedy construction and the search both converge to
// three colours (the odd-cycle lower bound), never two.
#[test]
fn odd_cycle_converges_to_three_colors() {
    let g = cycle(5);
    let (greedy_k, _) = dsatur2(&g);
    assert_eq!(greedy_k, 3);
    let mut rng = Prng::seeded(42);
    // start below the bound: the search must fail at two and report three
    let k = discrete_fpa::<CA>(&g, 3, 2, None, None, &mut rng);
    assert_eq!(k, 3);
}

// complete graph on four vertices: no conflict-free coloring exists with
// three colours; the search converges at four.
#[test]
fn complete_graph_needs_four_colors() {
    let g = complete(4);
    let mut rng = Prng::seeded(7);
    let k = discrete_fpa::<CA>(&g, 3, 3, None, None, &mut rng);
    assert_eq!(k, 4);
}

// 4-cycle (bipartite): the search converges to two colours.
#[test]
fn bipartite_cycle_converges_to_two_colors() {
    let g = cycle(4);
    let mut rng = Prng::seeded(5);
    let (k, sol) = discrete_fpa_with_solution::<CA>(&g, 10, 3, None, Some(2), &mut rng);
    assert_eq!(k, 2);
    let c = sol.expect("a proper coloring must have been found");
    assert_eq!(c.tot_conflicts, 0);
    assert_proper(&g, &c.solution);
    assert!(c.solution.iter().all(|&col| (1..=2).contains(&col)));
}

#[test]
fn search_returns_witness_on_easy_graph() {
    // two disjoint edges: two colours suffice
    let g = Graph::from_edges(4, &vec![(0, 1), (2, 3)], false).unwrap();
    let mut rng = Prng::seeded(100);
    let (k, sol) = discrete_fpa_with_solution::<CM>(&g, 8, 3, None, Some(2), &mut rng);
    assert_eq!(k, 2);
    let c = sol.unwrap();
    assert_proper(&g, &c.solution);
}

// single-threaded deterministic mode: identical seed, identical sequence
// of population states, hence identical results and witnesses.
#[test]
fn identical_seed_gives_identical_search() {
    let g = cycle(5);
    let run = |seed: u64| {
        let mut rng = Prng::seeded(seed);
        discrete_fpa_with_solution::<CA>(&g, 6, 4, None, Some(3), &mut rng)
    };
    let (k1, s1) = run(2024);
    let (k2, s2) = run(2024);
    assert_eq!(k1, k2);
    match (s1, s2) {
        (Some(a), Some(b)) => {
            assert_eq!(a.solution, b.solution);
            assert_eq!(a.conflicts, b.conflicts);
            assert_eq!(a.tot_conflicts, b.tot_conflicts);
            assert_eq!(a.index, b.index);
        },
        (None, None) => {},
        _ => panic!("one run found a witness, the other did not"),
    }
}

// the same determinism at the level of single generation steps
#[test]
fn identical_seed_gives_identical_population_states() {
    let g = cycle(5);
    let params = Parameters::standard();
    let run = |seed: u64| {
        let mut rng = Prng::seeded(seed);
        let mut pop = g.populate_seeded(4, 3, &mut rng);
        let mut states: Vec<Vec<usize>> = Vec::new();
        for _ in 0..10 {
            let best = pop
                .iter()
                .min_by_key(|c| c.tot_conflicts)
                .unwrap()
                .duplicate();
            for x in pop.iter_mut() {
                evolve_individual::<CA>(&g, x, &best, 3, params, &mut rng);
                states.push(x.solution.clone());
            }
        }
        states
    };
    assert_eq!(run(31337), run(31337));
}

#[test]
fn stop_threshold_is_returned_at_once() {
    let g = cycle(5);
    let mut rng = Prng::seeded(9);
    // the target starts below the threshold: the threshold comes back
    let k = discrete_fpa::<CA>(&g, 5, 2, None, Some(3), &mut rng);
    assert_eq!(k, 3);
}

#[test]
fn custom_parameters_are_accepted() {
    let g = cycle(4);
    let params = Parameters {
        lambda_centi: 175,
        switch_num: 2,
        switch_den: 5,
        lifetime_limit: 10,
    };
    let mut rng = Prng::seeded(64);
    let k = discrete_fpa::<CM>(&g, 6, 3, Some(params), Some(2), &mut rng);
    assert_eq!(k, 2);
}
