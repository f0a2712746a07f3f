//! Greedy construction heuristics: two saturation-guided variants and a
//! plain first-fit pass.  Each returns a proper coloring together with the
//! number of distinct colours it consumed, which is at most the maximum
//! degree plus one.

use crate::structs::{
    conflicts_at, count_matching, lemma_distinct_bounded, lemma_sum_bounded, proper, Coloring,
    Graph,
};
use vstd::prelude::*;

verus! {

/// Whether colour `cc` occurs among the listed neighbours of `v`.
pub open spec fn color_among_neighbors(g: Graph, sol: Seq<usize>, v: int, cc: usize) -> bool {
    exists|j: int| 0 <= j < g.nbrs(v).len() && sol[(#[trigger] g.nbrs(v)[j]) as int] == cc
}

/// Every colour below a vertex's own occurs among its neighbours: each
/// assignment was the smallest colour its neighbours allowed, so together
/// with properness the colour of every vertex is pinned to the smallest
/// colour absent from its neighbourhood.
pub open spec fn greedy_minimal(g: Graph, sol: Seq<usize>) -> bool {
    forall|v: int, cc: usize|
        0 <= v < g.n() && 1 <= cc < sol[v] ==> #[trigger] color_among_neighbors(g, sol, v, cc)
}

/// Colour 0 stands for "not yet coloured".  A partial assignment is proper
/// so far when no edge joins two coloured vertices of the same colour.
pub open spec fn partial_proper(g: Graph, sol: Seq<usize>) -> bool {
    forall|v: int, j: int|
        0 <= v < g.n() && 0 <= j < g.nbrs(v).len() && sol[v] != 0 && sol[(#[trigger] g.nbrs(
            v,
        )[j]) as int] != 0 ==> sol[g.nbrs(v)[j] as int] != sol[v]
}

/// How many vertices are still uncoloured.
pub open spec fn count_zeros(sol: Seq<usize>) -> int
    decreases sol.len(),
{
    if sol.len() == 0 {
        0
    } else {
        count_zeros(sol.drop_last()) + if sol.last() == 0 {
            1int
        } else {
            0int
        }
    }
}

/// The saturation tally of the listed neighbours: each nonzero colour is
/// counted at the last position where it occurs in the list.
pub open spec fn sat_count(nbrs: Seq<usize>, sol: Seq<usize>) -> int
    decreases nbrs.len(),
{
    if nbrs.len() == 0 {
        0
    } else {
        sat_count(nbrs.drop_last(), sol) + if sol[nbrs.last() as int] != 0 && (forall|j: int|
            0 <= j < nbrs.len() - 1 ==> sol[(#[trigger] nbrs[j]) as int] != sol[nbrs.last() as int])
         {
            1int
        } else {
            0int
        }
    }
}

/// The largest degree, as a spec-level quantity.
pub open spec fn max_deg_upto(g: Graph, v: int) -> int
    decreases v,
{
    if v <= 0 {
        0
    } else if g.nbrs(v - 1).len() > max_deg_upto(g, v - 1) {
        g.nbrs(v - 1).len() as int
    } else {
        max_deg_upto(g, v - 1)
    }
}

pub open spec fn max_deg(g: Graph) -> int {
    max_deg_upto(g, g.n() as int)
}

pub proof fn lemma_max_deg_bounds(g: Graph, v: int)
    requires
        0 <= v < g.n(),
    ensures
        g.nbrs(v).len() <= max_deg(g),
        0 <= max_deg(g),
    decreases g.n() - v,
{
    lemma_max_deg_upto_monotone(g, v + 1, g.n() as int);
}

proof fn lemma_max_deg_upto_monotone(g: Graph, a: int, b: int)
    requires
        1 <= a <= b,
    ensures
        max_deg_upto(g, a) <= max_deg_upto(g, b),
        g.nbrs(a - 1).len() <= max_deg_upto(g, b),
        0 <= max_deg_upto(g, b),
    decreases b - a,
{
    if a < b {
        lemma_max_deg_upto_monotone(g, a + 1, b);
    }
}

pub proof fn lemma_count_zeros_bounds(sol: Seq<usize>)
    ensures
        0 <= count_zeros(sol) <= sol.len(),
    decreases sol.len(),
{
    if sol.len() > 0 {
        lemma_count_zeros_bounds(sol.drop_last());
    }
}

/// Colouring an uncoloured vertex lowers the uncoloured tally by one.
pub proof fn lemma_count_zeros_update(sol: Seq<usize>, i: int, x: usize)
    requires
        0 <= i < sol.len(),
        sol[i] == 0,
        x != 0,
    ensures
        count_zeros(sol.update(i, x)) == count_zeros(sol) - 1,
    decreases sol.len(),
{
    let t = sol.update(i, x);
    if i == sol.len() - 1 {
        assert(t.drop_last() =~= sol.drop_last());
    } else {
        assert(t.drop_last() =~= sol.drop_last().update(i, x));
        assert(t.last() == sol.last());
        lemma_count_zeros_update(sol.drop_last(), i, x);
    }
}

/// The uncoloured tally is zero exactly when every vertex is coloured.
pub proof fn lemma_count_zeros_iff(sol: Seq<usize>)
    ensures
        (count_zeros(sol) == 0) <==> (forall|j: int| 0 <= j < sol.len() ==> (#[trigger] sol[j])
            != 0),
    decreases sol.len(),
{
    lemma_count_zeros_bounds(sol);
    if sol.len() > 0 {
        let rest = sol.drop_last();
        lemma_count_zeros_iff(rest);
        lemma_count_zeros_bounds(rest);
        assert(sol.last() == sol[sol.len() - 1]);
        if count_zeros(sol) == 0 {
            assert forall|j: int| 0 <= j < sol.len() implies (#[trigger] sol[j]) != 0 by {
                if j < sol.len() - 1 {
                    assert(rest[j] == sol[j]);
                }
            }
        } else {
            if forall|j: int| 0 <= j < sol.len() ==> (#[trigger] sol[j]) != 0 {
                assert forall|j: int| 0 <= j < rest.len() implies (#[trigger] rest[j]) != 0 by {
                    assert(rest[j] == sol[j]);
                }
                assert(count_zeros(rest) == 0);
                assert(false);
            }
        }
    }
}

/// How many of the `true` flags sit in `lo .. hi`.
spec fn count_trues(s: Seq<bool>, lo: int, hi: int) -> int
    decreases hi - lo,
{
    if lo >= hi {
        0
    } else {
        count_trues(s, lo, hi - 1) + if s[hi - 1] {
            1int
        } else {
            0int
        }
    }
}

proof fn lemma_count_trues_update(s: Seq<bool>, lo: int, hi: int, i: int)
    requires
        0 <= i < s.len(),
        0 <= lo,
        hi <= s.len(),
    ensures
        lo <= i < hi ==> count_trues(s.update(i, true), lo, hi) == count_trues(s, lo, hi) + (
        if s[i] {
            0int
        } else {
            1int
        }),
        !(lo <= i < hi) ==> count_trues(s.update(i, true), lo, hi) == count_trues(s, lo, hi),
    decreases hi - lo,
{
    if lo < hi {
        lemma_count_trues_update(s, lo, hi - 1, i);
    }
}

proof fn lemma_count_trues_full(s: Seq<bool>, lo: int, hi: int)
    requires
        0 <= lo <= hi <= s.len(),
        forall|cc: int| lo <= cc < hi ==> (#[trigger] s[cc]),
    ensures
        count_trues(s, lo, hi) == hi - lo,
    decreases hi - lo,
{
    if lo < hi {
        lemma_count_trues_full(s, lo, hi - 1);
    }
}

/// The smallest positive colour that no neighbour of `v` carries.  It never
/// exceeds the degree of `v` plus one.
fn min_free_color(g: &Graph, sol: &Vec<usize>, v: usize) -> (col: usize)
    requires
        g.wf(),
        sol@.len() == g.n(),
        v < g.n(),
    ensures
        1 <= col <= g.nbrs(v as int).len() + 1,
        forall|j: int|
            0 <= j < g.nbrs(v as int).len() ==> sol@[(#[trigger] g.nbrs(v as int)[j]) as int]
                != col,
        forall|cc: usize| 1 <= cc < col ==> #[trigger] color_among_neighbors(
            *g,
            sol@,
            v as int,
            cc,
        ),
{
    let nb = g.neighbors(v);
    let deg = nb.len();
    proof {
        assert(g.n() * g.n() + g.n() + 2 <= usize::MAX);
        assert(deg <= g.n());
        assert(deg + 2 <= usize::MAX);
    }
    let mut used: Vec<bool> = Vec::new();
    let mut i: usize = 0;
    while i < deg + 2
        invariant
            i <= deg + 2,
            deg + 2 <= usize::MAX,
            used@.len() == i,
            forall|cc: int| 0 <= cc < i ==> !(#[trigger] used@[cc]),
        decreases deg + 2 - i,
    {
        used.push(false);
        i += 1;
    }
    proof {
        lemma_count_trues_zero(used@, 1, deg as int + 2);
    }
    let mut p: usize = 0;
    while p < deg
        invariant
            p <= deg,
            deg == g.nbrs(v as int).len(),
            nb@ == g.nbrs(v as int),
            g.wf(),
            sol@.len() == g.n(),
            v < g.n(),
            used@.len() == deg + 2,
            count_trues(used@, 1, deg as int + 2) <= p,
            forall|cc: usize|
                1 <= cc <= deg + 1 ==> ((#[trigger] used@[cc as int]) <==> exists|j: int|
                    0 <= j < p && sol@[(#[trigger] g.nbrs(v as int)[j]) as int] == cc),
        decreases deg - p,
    {
        let u = nb[p];
        proof {
            assert(g.nbrs(v as int)[p as int] == u);
            assert(u < g.n());
        }
        let col = sol[u];
        let ghost pre_used = used@;
        if col <= deg + 1 && col >= 1 {
            used[col] = true;
        }
        p += 1;
        proof {
            if 1 <= col && col <= deg + 1 {
                lemma_count_trues_update(pre_used, 1, deg as int + 2, col as int);
            }
            assert forall|cc: usize| 1 <= cc <= deg + 1 implies ((#[trigger] used@[cc as int])
                <==> exists|j: int|
                0 <= j < p && sol@[(#[trigger] g.nbrs(v as int)[j]) as int] == cc) by {
                if used@[cc as int] {
                    if cc == col {
                        assert(sol@[g.nbrs(v as int)[p - 1] as int] == cc);
                    } else {
                        assert(pre_used[cc as int]);
                        let j = choose|j: int|
                            0 <= j < p - 1 && sol@[(#[trigger] g.nbrs(v as int)[j]) as int] == cc;
                        assert(sol@[g.nbrs(v as int)[j] as int] == cc);
                    }
                } else {
                    assert(!pre_used[cc as int]);
                    if exists|j: int|
                        0 <= j < p && sol@[(#[trigger] g.nbrs(v as int)[j]) as int] == cc {
                        let j = choose|j: int|
                            0 <= j < p && sol@[(#[trigger] g.nbrs(v as int)[j]) as int] == cc;
                        if j < p - 1 {
                            assert(exists|jj: int|
                                0 <= jj < p - 1 && sol@[(#[trigger] g.nbrs(v as int)[jj]) as int]
                                    == cc);
                        } else {
                            assert(cc == col);
                        }
                        assert(false);
                    }
                }
            }
        }
    }
    let mut col: usize = 1;
    while col <= deg + 1
        invariant
            1 <= col <= deg + 2,
            deg == g.nbrs(v as int).len(),
            g.wf(),
            sol@.len() == g.n(),
            v < g.n(),
            used@.len() == deg + 2,
            count_trues(used@, 1, deg as int + 2) <= deg,
            forall|cc: usize|
                1 <= cc <= deg + 1 ==> ((#[trigger] used@[cc as int]) <==> exists|j: int|
                    0 <= j < deg && sol@[(#[trigger] g.nbrs(v as int)[j]) as int] == cc),
            forall|cc: int| 1 <= cc < col ==> (#[trigger] used@[cc]),
        decreases deg + 2 - col,
    {
        if !used[col] {
            proof {
                assert forall|j: int| 0 <= j < g.nbrs(v as int).len() implies sol@[(
                #[trigger] g.nbrs(v as int)[j]) as int] != col by {
                    if sol@[g.nbrs(v as int)[j] as int] == col {
                        assert(exists|jj: int|
                            0 <= jj < deg && sol@[(#[trigger] g.nbrs(v as int)[jj]) as int]
                                == col);
                    }
                }
            }
            proof {
                assert forall|cc: usize| 1 <= cc < col implies #[trigger] color_among_neighbors(
                    *g,
                    sol@,
                    v as int,
                    cc,
                ) by {
                    assert(used@[cc as int]);
                }
            }
            return col;
        }
        col += 1;
    }
    proof {
        lemma_count_trues_full(used@, 1, deg as int + 2);
        assert(false);
    }
    1
}

proof fn lemma_count_trues_zero(s: Seq<bool>, lo: int, hi: int)
    requires
        0 <= lo,
        hi <= s.len(),
        forall|cc: int| 0 <= cc < s.len() ==> !(#[trigger] s[cc]),
    ensures
        count_trues(s, lo, hi) == 0,
    decreases hi - lo,
{
    if lo < hi {
        lemma_count_trues_zero(s, lo, hi - 1);
    }
}

/// Give the uncoloured vertex `v` the smallest colour unused among its
/// neighbours, preserving partial properness.
fn color_vertex(g: &Graph, c: &mut Coloring, v: usize)
    requires
        g.full(),
        old(c).solution@.len() == g.n(),
        v < g.n(),
        old(c).solution@[v as int] == 0,
        partial_proper(*g, old(c).solution@),
        greedy_minimal(*g, old(c).solution@),
    ensures
        final(c).solution@ == old(c).solution@.update(
            v as int,
            final(c).solution@[v as int],
        ),
        1 <= final(c).solution@[v as int] <= g.nbrs(v as int).len() + 1,
        partial_proper(*g, final(c).solution@),
        greedy_minimal(*g, final(c).solution@),
        count_zeros(final(c).solution@) == count_zeros(old(c).solution@) - 1,
        final(c).conflicts@ == old(c).conflicts@,
        final(c).tot_conflicts == old(c).tot_conflicts,
        final(c).index == old(c).index,
        final(c).lifetime == old(c).lifetime,
{
    let ghost pre = old(c).solution@;
    let col = min_free_color(g, &c.solution, v);
    c.solution[v] = col;
    proof {
        let cur = c.solution@;
        assert(cur =~= pre.update(v as int, col));
        lemma_count_zeros_update(pre, v as int, col);
        assert forall|w: int, j: int|
            0 <= w < g.n() && 0 <= j < g.nbrs(w).len() && cur[w] != 0 && cur[(#[trigger] g.nbrs(
                w,
            )[j]) as int] != 0 implies cur[g.nbrs(w)[j] as int] != cur[w] by {
            let u = g.nbrs(w)[j] as int;
            if w != v as int && u != v as int {
                assert(pre[w] == cur[w] && pre[u] == cur[u]);
            } else if w == v as int {
                assert(cur[u] == pre[u]);
                assert(pre[(g.nbrs(v as int)[j]) as int] != col);
            } else {
                // u == v: by symmetry v's list holds w, and the new colour
                // avoids every listed neighbour
                assert(g.nbrs(g.nbrs(w)[j] as int).contains(w as usize));
                let q = choose|q: int|
                    0 <= q < g.nbrs(v as int).len() && (#[trigger] g.nbrs(v as int)[q])
                        == w as usize;
                assert(pre[(g.nbrs(v as int)[q]) as int] != col);
            }
        }
        // every colour below an assigned one still occurs next to it: the
        // witnesses carried a nonzero colour, which no update overwrites
        assert forall|w: int, cc: usize|
            0 <= w < g.n() && 1 <= cc < cur[w] implies #[trigger] color_among_neighbors(
            *g,
            cur,
            w,
            cc,
        ) by {
            if w == v as int {
                assert(color_among_neighbors(*g, pre, w, cc));
                let j = choose|j: int|
                    0 <= j < g.nbrs(w).len() && pre[(#[trigger] g.nbrs(w)[j]) as int] == cc;
                assert(g.nbrs(w)[j] != v);
                assert(cur[g.nbrs(w)[j] as int] == cc);
            } else {
                assert(cur[w] == pre[w]);
                assert(color_among_neighbors(*g, pre, w, cc));
                let j = choose|j: int|
                    0 <= j < g.nbrs(w).len() && pre[(#[trigger] g.nbrs(w)[j]) as int] == cc;
                assert(g.nbrs(w)[j] != v);
                assert(cur[g.nbrs(w)[j] as int] == cc);
            }
        }
    }
}


/// The saturation of vertex `i`: the tally of distinct nonzero colours
/// among its neighbours.
fn saturation(g: &Graph, c: &Coloring, i: usize) -> (s: usize)
    requires
        g.wf(),
        c.solution@.len() == g.n(),
        i < g.n(),
    ensures
        s as int == sat_count(g.nbrs(i as int), c.solution@),
{
    let nb = g.neighbors(i);
    let ghost sol = c.solution@;
    let mut s: usize = 0;
    let mut p: usize = 0;
    while p < nb.len()
        invariant
            p <= nb@.len(),
            s <= p,
            g.wf(),
            i < g.n(),
            nb@ == g.nbrs(i as int),
            sol == c.solution@,
            sol.len() == g.n(),
            s as int == sat_count(nb@.take(p as int), sol),
        decreases nb@.len() - p,
    {
        let u = nb[p];
        proof {
            assert(g.nbrs(i as int)[p as int] == u);
            assert(u < g.n());
        }
        let col = c.solution[u];
        let mut fresh = col != 0;
        let mut q: usize = 0;
        while q < p
            invariant
                q <= p,
                p < nb@.len(),
                g.wf(),
                i < g.n(),
                nb@ == g.nbrs(i as int),
                sol == c.solution@,
                sol.len() == g.n(),
                col == sol[nb@[p as int] as int],
                fresh == (col != 0 && forall|j: int|
                    0 <= j < q ==> sol[(#[trigger] nb@[j]) as int] != col),
            decreases p - q,
        {
            let w = nb[q];
            proof {
                assert(g.nbrs(i as int)[q as int] == w);
                assert(w < g.n());
            }
            if c.solution[w] == col {
                fresh = false;
            }
            q += 1;
        }
        proof {
            let t1 = nb@.take(p + 1);
            assert(t1.drop_last() =~= nb@.take(p as int));
            assert(t1.last() == nb@[p as int]);
            assert(sol[t1.last() as int] == col);
            if fresh {
                assert forall|j: int| 0 <= j < t1.len() - 1 implies sol[(#[trigger] t1[j]) as int]
                    != sol[t1.last() as int] by {
                    assert(t1[j] == nb@[j]);
                }
                assert(sat_count(t1, sol) == sat_count(nb@.take(p as int), sol) + 1);
            } else if col == 0 {
                assert(sat_count(t1, sol) == sat_count(nb@.take(p as int), sol));
            } else {
                let j0 = choose|j: int| 0 <= j < p && sol[(#[trigger] nb@[j]) as int] == col;
                assert(t1[j0] == nb@[j0]);
                assert(!(forall|j: int|
                    0 <= j < t1.len() - 1 ==> sol[(#[trigger] t1[j]) as int] != sol[t1.last() as int]));
                assert(sat_count(t1, sol) == sat_count(nb@.take(p as int), sol));
            }
        }
        if fresh {
            s += 1;
        }
        p += 1;
    }
    proof {
        assert(nb@.take(nb@.len() as int) =~= nb@);
    }
    s
}

/// Among the candidate vertices, the one (last in the list) with the most
/// still-uncoloured neighbours.
fn tiebreaker(g: &Graph, c: &Coloring, indexes: &Vec<usize>) -> (v: usize)
    requires
        g.wf(),
        c.solution@.len() == g.n(),
        1 <= indexes@.len(),
        forall|j: int| 0 <= j < indexes@.len() ==> (#[trigger] indexes@[j]) < g.n(),
    ensures
        indexes@.contains(v),
        forall|j: int|
            0 <= j < indexes@.len() ==> count_matching(
                g.nbrs((#[trigger] indexes@[j]) as int),
                c.solution@,
                0,
            ) <= count_matching(g.nbrs(v as int), c.solution@, 0),
{
    let mut v = indexes[0];
    let mut best = crate::structs::count_matching_exec(g.neighbors(v), &c.solution, 0);
    assert(indexes@[0] == v);
    let mut j: usize = 1;
    while j < indexes.len()
        invariant
            1 <= j <= indexes@.len(),
            g.wf(),
            c.solution@.len() == g.n(),
            forall|q: int| 0 <= q < indexes@.len() ==> (#[trigger] indexes@[q]) < g.n(),
            indexes@.contains(v),
            v < g.n(),
            best as int == count_matching(g.nbrs(v as int), c.solution@, 0),
            forall|q: int|
                0 <= q < j ==> count_matching(
                    g.nbrs((#[trigger] indexes@[q]) as int),
                    c.solution@,
                    0,
                ) <= best,
        decreases indexes@.len() - j,
    {
        let i = indexes[j];
        let cnt = crate::structs::count_matching_exec(g.neighbors(i), &c.solution, 0);
        if cnt >= best {
            v = i;
            best = cnt;
            assert(indexes@[j as int] == v);
        }
        j += 1;
    }
    v
}

/// The first still-uncoloured vertex.
fn first_uncolored(c: &Coloring) -> (v: usize)
    requires
        1 <= count_zeros(c.solution@),
    ensures
        v < c.solution@.len(),
        c.solution@[v as int] == 0,
{
    let n = c.solution.len();
    let mut i: usize = 0;
    while i < n
        invariant
            i <= n,
            n == c.solution@.len(),
            1 <= count_zeros(c.solution@),
            forall|j: int| 0 <= j < i ==> (#[trigger] c.solution@[j]) != 0,
        decreases n - i,
    {
        if c.solution[i] == 0 {
            return i;
        }
        i += 1;
    }
    proof {
        lemma_count_zeros_iff(c.solution@);
        assert(false);
    }
    0
}

/// Wrap up a fully coloured, partially-proper assignment: it is proper,
/// its conflict bookkeeping (all zeros) is faithful, and its distinct
/// colour count is bounded by the maximum degree plus one.
proof fn lemma_greedy_result(g: Graph, c: Coloring)
    requires
        g.full(),
        c.solution@.len() == g.n(),
        c.conflicts@.len() == g.n(),
        forall|v: int| 0 <= v < g.n() ==> (#[trigger] c.conflicts@[v]) == 0,
        c.tot_conflicts == 0,
        partial_proper(g, c.solution@),
        count_zeros(c.solution@) == 0,
        forall|v: int|
            0 <= v < g.n() ==> (#[trigger] c.solution@[v]) <= g.nbrs(v).len() + 1,
    ensures
        proper(g, c.solution@),
        c.wf(g),
        forall|v: int| 0 <= v < g.n() ==> 1 <= (#[trigger] c.solution@[v]),
        c.solution@.to_set().len() <= max_deg(g) + 1,
{
    let sol = c.solution@;
    lemma_count_zeros_iff(sol);
    assert forall|v: int, j: int|
        0 <= v < g.n() && 0 <= j < g.nbrs(v).len() implies sol[(#[trigger] g.nbrs(v)[j]) as int]
        != sol[v] by {
        assert(g.nbrs(v)[j] < g.n());
        assert(sol[v] != 0 && sol[g.nbrs(v)[j] as int] != 0);
    }
    assert forall|v: int| 0 <= v < g.n() implies (#[trigger] c.conflicts@[v]) as int
        == conflicts_at(g, sol, v) by {
        lemma_count_zero_of_proper(g, sol, v);
    }
    lemma_sum_bounded(c.conflicts@, 0);
    crate::structs::lemma_sum_nonneg(c.conflicts@);
    if g.n() == 0 {
        assert(sol.to_set() =~= Set::<usize>::empty());
        assert(Set::<usize>::empty().len() == 0);
    } else {
        assert(0 <= max_deg(g)) by {
            lemma_max_deg_bounds(g, 0);
        }
        lemma_max_deg_le_n(g, g.n() as int);
        assert forall|j: int| 0 <= j < sol.len() implies 1 <= (#[trigger] sol[j]) && sol[j]
            < max_deg(g) + 2 by {
            lemma_max_deg_bounds(g, j);
        }
        lemma_distinct_bounded(sol, 1, (max_deg(g) + 2) as usize);
    }
}

/// On a proper assignment every from-scratch conflict count is zero.
proof fn lemma_count_zero_of_proper(g: Graph, sol: Seq<usize>, v: int)
    requires
        g.wf(),
        0 <= v < g.n(),
        proper(g, sol),
    ensures
        conflicts_at(g, sol, v) == 0,
{
    lemma_count_matching_none(g.nbrs(v).len() as int, sol, g, v);
}

proof fn lemma_count_matching_none(p: int, sol: Seq<usize>, g: Graph, v: int)
    requires
        g.wf(),
        0 <= v < g.n(),
        proper(g, sol),
        0 <= p <= g.nbrs(v).len(),
    ensures
        count_matching(g.nbrs(v).take(p), sol, sol[v]) == 0,
        p == g.nbrs(v).len() ==> conflicts_at(g, sol, v) == 0,
    decreases p,
{
    if p > 0 {
        assert(g.nbrs(v).take(p).drop_last() =~= g.nbrs(v).take(p - 1));
        assert(g.nbrs(v).take(p).last() == g.nbrs(v)[p - 1]);
        assert(sol[g.nbrs(v)[p - 1] as int] != sol[v]);
        lemma_count_matching_none(p - 1, sol, g, v);
    }
    if p == g.nbrs(v).len() {
        assert(g.nbrs(v).take(p) =~= g.nbrs(v));
    }
}

proof fn lemma_max_deg_le_n(g: Graph, v: int)
    requires
        0 <= v <= g.n(),
        g.wf(),
    ensures
        max_deg_upto(g, v) <= g.n(),
    decreases v,
{
    if v > 0 {
        lemma_max_deg_le_n(g, v - 1);
    }
}

proof fn lemma_count_zeros_all(sol: Seq<usize>)
    requires
        forall|v: int| 0 <= v < sol.len() ==> (#[trigger] sol[v]) == 0,
    ensures
        count_zeros(sol) == sol.len(),
    decreases sol.len(),
{
    if sol.len() > 0 {
        lemma_count_zeros_all(sol.drop_last());
    }
}

/// Saturation-guided greedy construction: repeatedly colour an uncoloured
/// vertex of maximum saturation (ties broken towards many uncoloured
/// neighbours) with the smallest colour unused among its neighbours.
/// The result is a proper coloring using at most `max_deg + 1` colours.
pub fn dsatur(g: &Graph) -> (r: (usize, Coloring))
    requires
        g.full(),
    ensures
        r.1.wf(*g),
        r.1.tot_conflicts == 0,
        proper(*g, r.1.solution@),
        forall|v: int|
            0 <= v < g.n() ==> 1 <= (#[trigger] r.1.solution@[v]) <= g.nbrs(v).len() + 1,
        r.0 == r.1.solution@.to_set().len(),
        r.0 as int <= max_deg(*g) + 1,
        greedy_minimal(*g, r.1.solution@),
{
    let n = g.len();
    let mut c = Coloring::empty(0, n);
    proof {
        lemma_count_zeros_all(c.solution@);
    }
    let mut step: usize = 0;
    while step < n
        invariant
            step <= n,
            n == g.n(),
            g.full(),
            c.solution@.len() == n,
            c.conflicts@.len() == n,
            forall|v: int| 0 <= v < n ==> (#[trigger] c.conflicts@[v]) == 0,
            c.tot_conflicts == 0,
            c.index == 0,
            c.lifetime == 0,
            partial_proper(*g, c.solution@),
            greedy_minimal(*g, c.solution@),
            count_zeros(c.solution@) == n - step,
            forall|v: int|
                0 <= v < n ==> (#[trigger] c.solution@[v]) <= g.nbrs(v).len() + 1,
        decreases n - step,
    {
        proof {
            lemma_count_zeros_bounds(c.solution@);
        }
        let first = first_uncolored(&c);
        let mut candidates: Vec<usize> = Vec::new();
        candidates.push(first);
        let mut best_sat = saturation(g, &c, first);
        assert(candidates@[0] == first);
        let mut i: usize = first + 1;
        while i < n
            invariant
                i <= n,
                n == g.n(),
                g.full(),
                c.solution@.len() == n,
                first < n,
                c.solution@[first as int] == 0,
                1 <= candidates@.len(),
                forall|j: int|
                    0 <= j < candidates@.len() ==> (#[trigger] candidates@[j]) < n
                        && c.solution@[candidates@[j] as int] == 0,
            decreases n - i,
        {
            if c.solution[i] == 0 {
                let sat = saturation(g, &c, i);
                if sat > best_sat {
                    let mut fresh: Vec<usize> = Vec::new();
                    fresh.push(i);
                    assert(fresh@[0] == i);
                    candidates = fresh;
                    best_sat = sat;
                } else if sat == best_sat {
                    candidates.push(i);
                    assert(candidates@[candidates@.len() - 1] == i);
                }
            }
            i += 1;
        }
        let v = if candidates.len() == 1 {
            candidates[0]
        } else {
            tiebreaker(g, &c, &candidates)
        };
        proof {
            let q = choose|q: int|
                0 <= q < candidates@.len() && (#[trigger] candidates@[q]) == v;
        }
        color_vertex(g, &mut c, v);
        step += 1;
    }
    proof {
        lemma_greedy_result(*g, c);
    }
    let k = c.get_k();
    (k, c)
}

/// The incremental variant: saturation values are kept in a table and only
/// the neighbours of the vertex just coloured are refreshed, so the values
/// used for selection may be stale relative to a full recomputation.  This
/// is a deliberate speed/quality trade-off of the ordering heuristic only;
/// the result is proper all the same.
pub fn dsatur2(g: &Graph) -> (r: (usize, Coloring))
    requires
        g.full(),
    ensures
        r.1.wf(*g),
        r.1.tot_conflicts == 0,
        proper(*g, r.1.solution@),
        forall|v: int|
            0 <= v < g.n() ==> 1 <= (#[trigger] r.1.solution@[v]) <= g.nbrs(v).len() + 1,
        r.0 == r.1.solution@.to_set().len(),
        r.0 as int <= max_deg(*g) + 1,
        greedy_minimal(*g, r.1.solution@),
{
    let n = g.len();
    let mut c = Coloring::empty(0, n);
    let mut saturations: Vec<usize> = Vec::new();
    let mut z: usize = 0;
    while z < n
        invariant
            z <= n,
            saturations@.len() == z,
        decreases n - z,
    {
        saturations.push(0);
        z += 1;
    }
    proof {
        lemma_count_zeros_all(c.solution@);
    }
    let mut step: usize = 0;
    while step < n
        invariant
            step <= n,
            n == g.n(),
            g.full(),
            c.solution@.len() == n,
            c.conflicts@.len() == n,
            saturations@.len() == n,
            forall|v: int| 0 <= v < n ==> (#[trigger] c.conflicts@[v]) == 0,
            c.tot_conflicts == 0,
            c.index == 0,
            c.lifetime == 0,
            partial_proper(*g, c.solution@),
            greedy_minimal(*g, c.solution@),
            count_zeros(c.solution@) == n - step,
            forall|v: int|
                0 <= v < n ==> (#[trigger] c.solution@[v]) <= g.nbrs(v).len() + 1,
        decreases n - step,
    {
        proof {
            lemma_count_zeros_bounds(c.solution@);
        }
        let first = first_uncolored(&c);
        let mut candidates: Vec<usize> = Vec::new();
        candidates.push(first);
        let mut best_sat = saturations[first];
        assert(candidates@[0] == first);
        let mut i: usize = first + 1;
        while i < n
            invariant
                i <= n,
                n == g.n(),
                g.full(),
                c.solution@.len() == n,
                saturations@.len() == n,
                first < n,
                c.solution@[first as int] == 0,
                1 <= candidates@.len(),
                forall|j: int|
                    0 <= j < candidates@.len() ==> (#[trigger] candidates@[j]) < n
                        && c.solution@[candidates@[j] as int] == 0,
            decreases n - i,
        {
            if c.solution[i] == 0 {
                let sat = saturations[i];
                if sat > best_sat {
                    let mut fresh: Vec<usize> = Vec::new();
                    fresh.push(i);
                    assert(fresh@[0] == i);
                    candidates = fresh;
                    best_sat = sat;
                } else if sat == best_sat {
                    candidates.push(i);
                    assert(candidates@[candidates@.len() - 1] == i);
                }
            }
            i += 1;
        }
        let v = if candidates.len() == 1 {
            candidates[0]
        } else {
            tiebreaker(g, &c, &candidates)
        };
        proof {
            let q = choose|q: int|
                0 <= q < candidates@.len() && (#[trigger] candidates@[q]) == v;
        }
        color_vertex(g, &mut c, v);
        let nb = g.neighbors(v);
        let mut p: usize = 0;
        while p < nb.len()
            invariant
                p <= nb@.len(),
                n == g.n(),
                g.full(),
                nb@ == g.nbrs(v as int),
                v < n,
                c.solution@.len() == n,
                saturations@.len() == n,
            decreases nb@.len() - p,
        {
            let u = nb[p];
            proof {
                assert(g.nbrs(v as int)[p as int] == u);
                assert(u < g.n());
            }
            let s = saturation(g, &c, u);
            saturations[u] = s;
            p += 1;
        }
        step += 1;
    }
    proof {
        lemma_greedy_result(*g, c);
    }
    let k = c.get_k();
    (k, c)
}

/// Plain first-fit construction in vertex order, with the same guarantees.
pub fn greedy(g: &Graph) -> (r: (usize, Coloring))
    requires
        g.full(),
    ensures
        r.1.wf(*g),
        r.1.tot_conflicts == 0,
        proper(*g, r.1.solution@),
        forall|v: int|
            0 <= v < g.n() ==> 1 <= (#[trigger] r.1.solution@[v]) <= g.nbrs(v).len() + 1,
        r.0 == r.1.solution@.to_set().len(),
        r.0 as int <= max_deg(*g) + 1,
        greedy_minimal(*g, r.1.solution@),
{
    let n = g.len();
    let mut c = Coloring::empty(0, n);
    proof {
        lemma_count_zeros_all(c.solution@);
    }
    let mut i: usize = 0;
    while i < n
        invariant
            i <= n,
            n == g.n(),
            g.full(),
            c.solution@.len() == n,
            c.conflicts@.len() == n,
            forall|v: int| 0 <= v < n ==> (#[trigger] c.conflicts@[v]) == 0,
            c.tot_conflicts == 0,
            c.index == 0,
            c.lifetime == 0,
            partial_proper(*g, c.solution@),
            greedy_minimal(*g, c.solution@),
            count_zeros(c.solution@) == n - i,
            forall|v: int| 0 <= v < i ==> (#[trigger] c.solution@[v]) != 0,
            forall|v: int|
                0 <= v < n ==> (#[trigger] c.solution@[v]) <= g.nbrs(v).len() + 1,
        decreases n - i,
    {
        assert(c.solution@[i as int] == 0) by {
            if c.solution@[i as int] != 0 {
                lemma_prefix_nonzero_count(c.solution@, i as int);
            }
        }
        color_vertex(g, &mut c, i);
        i += 1;
    }
    proof {
        lemma_greedy_result(*g, c);
    }
    let k = c.get_k();
    (k, c)
}

/// If the first `i + 1` entries are nonzero, fewer than `len - i` zeros
/// remain.
proof fn lemma_prefix_nonzero_count(sol: Seq<usize>, i: int)
    requires
        0 <= i < sol.len(),
        forall|v: int| 0 <= v <= i ==> (#[trigger] sol[v]) != 0,
    ensures
        count_zeros(sol) <= sol.len() - i - 1,
    decreases sol.len(),
{
    if sol.len() - 1 > i {
        lemma_prefix_nonzero_count(sol.drop_last(), i);
    } else {
        assert(sol.last() == sol[sol.len() - 1]);
        let rest = sol.drop_last();
        lemma_count_zeros_iff(rest);
        assert forall|j: int| 0 <= j < rest.len() implies (#[trigger] rest[j]) != 0 by {
            assert(rest[j] == sol[j]);
        }
    }
}

} // verus!
