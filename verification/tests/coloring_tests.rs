use dfpa::structs::{Coloring, Graph};

fn cycle(n: usize) -> Graph {
    let edges: Vec<(usize, usize)> = (0..n).map(|i| (i, (i + 1) % n)).collect();
    Graph::from_edges(n, &edges, false).unwrap()
}

fn brute_conflicts(g: &Graph, sol: &[usize]) -> Vec<usize> {
    (0..g.len())
        .map(|v| {
            g.neighbors(v)
                .iter()
                .filter(|&&u| sol[u] == sol[v])
                .count()
        })
        .collect()
}

#[test]
fn from_vec_counts_conflicts_exactly() {
    // triangle with two vertices sharing a colour
    let g = cycle(3);
    let c = Coloring::from_vec(0, vec![1, 1, 2], &g);
    assert_eq!(c.conflicts, vec![1, 1, 0]);
    assert_eq!(c.tot_conflicts, 1);
    let all_same = Coloring::from_vec(0, vec![5, 5, 5], &g);
    assert_eq!(all_same.conflicts, vec![2, 2, 2]);
    assert_eq!(all_same.tot_conflicts, 3);
}

#[test]
fn get_k_counts_distinct_colors() {
    let g = cycle(4);
    assert_eq!(Coloring::from_vec(0, vec![1, 1, 2, 1], &g).get_k(), 2);
    assert_eq!(Coloring::from_vec(0, vec![4, 3, 2, 1], &g).get_k(), 4);
    assert_eq!(Coloring::from_vec(0, vec![7, 7, 7, 7], &g).get_k(), 1);
}

// A vertex with two conflicting neighbours, recoloured to a colour no
// neighbour uses: its own count drops to zero and each previously
// conflicting neighbour loses exactly one.
#[test]
fn single_recolor_update_matches_expectation() {
    // path 0 - 1 - 2 with all three vertices coloured alike
    let g = Graph::from_edges(3, &vec![(0, 1), (1, 2)], false).unwrap();
    let before = Coloring::from_vec(0, vec![1, 1, 1], &g);
    assert_eq!(before.conflicts, vec![1, 2, 1]);
    let mut after = before.duplicate();
    after.solution[1] = 2;
    after.update_conflicts(1, &before, &g);
    assert_eq!(after.conflicts[1], 0);
    assert_eq!(after.conflicts[0], before.conflicts[0] - 1);
    assert_eq!(after.conflicts[2], before.conflicts[2] - 1);
    assert_eq!(after.tot_conflicts, 0);
    assert_eq!(after.conflicts, brute_conflicts(&g, &after.solution));
}

#[test]
fn single_recolor_update_can_add_conflicts() {
    let g = cycle(5);
    let before = Coloring::from_vec(0, vec![1, 2, 1, 2, 3], &g);
    assert_eq!(before.tot_conflicts, 0);
    let mut after = before.duplicate();
    after.solution[4] = 1;
    after.update_conflicts(4, &before, &g);
    // vertex 4 now clashes with both neighbours 3?  neighbour colours are
    // sol[3] == 2 and sol[0] == 1, so exactly one new conflict appears
    assert_eq!(after.conflicts, brute_conflicts(&g, &after.solution));
    assert_eq!(after.tot_conflicts, 1);
}

// The incremental multi-vertex update agrees with a from-scratch
// recomputation, also when the simultaneously changed vertices are
// mutually adjacent.
#[test]
fn multi_recolor_update_matches_scratch() {
    let g = cycle(6);
    let before = Coloring::from_vec(3, vec![1, 2, 1, 2, 1, 2], &g);
    let mut after = before.duplicate();
    // non-adjacent changes
    after.solution[0] = 2;
    after.solution[2] = 2;
    after.update_multiple_conflicts(&vec![0, 2], &before, &g);
    assert_eq!(after.conflicts, brute_conflicts(&g, &after.solution));
    let sum: usize = after.conflicts.iter().sum();
    assert_eq!(after.tot_conflicts, sum / 2);
    assert_eq!(after.index, 3);
}

#[test]
fn multi_recolor_update_handles_adjacent_changes() {
    let g = cycle(6);
    let before = Coloring::from_vec(0, vec![1, 2, 1, 2, 1, 2], &g);
    let mut after = before.duplicate();
    // vertices 1 and 2 are adjacent and both change at once
    after.solution[1] = 1;
    after.solution[2] = 2;
    after.update_multiple_conflicts(&vec![1, 2], &before, &g);
    assert_eq!(after.conflicts, brute_conflicts(&g, &after.solution));
    let sum: usize = after.conflicts.iter().sum();
    assert_eq!(sum % 2, 0);
    assert_eq!(after.tot_conflicts, sum / 2);
}

#[test]
fn refresh_recomputes_total_from_counts() {
    let g = cycle(4);
    let mut c = Coloring::from_vec(0, vec![1, 1, 1, 1], &g);
    assert_eq!(c.tot_conflicts, 4);
    c.refresh_tot_conflicts();
    assert_eq!(c.tot_conflicts, 4);
}

// The even-sum invariant on a batch of random colorings.
#[test]
fn conflict_sums_are_always_even() {
    let g = cycle(7);
    let pop = g.populate(20, 3);
    for c in &pop {
        let sum: usize = c.conflicts.iter().sum();
        assert_eq!(sum % 2, 0);
        assert_eq!(c.tot_conflicts, sum / 2);
    }
}

#[test]
fn empty_coloring_is_all_zero() {
    let c = Coloring::empty(9, 5);
    assert_eq!(c.index, 9);
    assert_eq!(c.len(), 5);
    assert!(c.solution.iter().all(|&x| x == 0));
    assert!(c.conflicts.iter().all(|&x| x == 0));
    assert_eq!(c.tot_conflicts, 0);
}
