//! The pollination operators: pure transformations of one or two candidate
//! colorings into a new candidate, with the conflict bookkeeping updated
//! incrementally, and the strategy variants that combine them.

use crate::rng::Prng;
use crate::structs::{
    count_matching, count_matching_exec, lemma_count_matching_bounds, lemma_nonzero_has_critical,
    Coloring, Graph,
};
use vstd::prelude::*;

verus! {

/// The colour in `1 ..= k` with the fewest same-coloured neighbours of
/// `i` under `sol`; the smallest such colour on ties.
pub open spec fn is_least_conflict_color(
    g: Graph,
    sol: Seq<usize>,
    i: int,
    k: usize,
    col: usize,
) -> bool {
    &&& 1 <= col <= k
    &&& forall|cc: usize|
        1 <= cc <= k ==> count_matching(g.nbrs(i), sol, col) <= #[trigger] count_matching(
            g.nbrs(i),
            sol,
            cc,
        )
    &&& forall|cc: usize|
        1 <= cc < col ==> count_matching(g.nbrs(i), sol, col) < #[trigger] count_matching(
            g.nbrs(i),
            sol,
            cc,
        )
}

/// The least-conflict colour is unique: two colours that both minimize
/// with smallest-on-ties are equal.
pub proof fn lemma_least_color_unique(
    g: Graph,
    sol: Seq<usize>,
    i: int,
    k: usize,
    c1: usize,
    c2: usize,
)
    requires
        is_least_conflict_color(g, sol, i, k, c1),
        is_least_conflict_color(g, sol, i, k, c2),
    ensures
        c1 == c2,
{
    if c1 < c2 {
        assert(count_matching(g.nbrs(i), sol, c2) < count_matching(g.nbrs(i), sol, c1));
        assert(count_matching(g.nbrs(i), sol, c1) <= count_matching(g.nbrs(i), sol, c2));
    }
    if c2 < c1 {
        assert(count_matching(g.nbrs(i), sol, c1) < count_matching(g.nbrs(i), sol, c2));
        assert(count_matching(g.nbrs(i), sol, c2) <= count_matching(g.nbrs(i), sol, c1));
    }
}

/// The least-conflict colour, as a spec-level value.
pub open spec fn least_color(g: Graph, sol: Seq<usize>, i: int, k: usize) -> usize {
    choose|col: usize| is_least_conflict_color(g, sol, i, k, col)
}

/// Any colour satisfying the characterization is the spec-level value.
pub proof fn lemma_least_color_is(g: Graph, sol: Seq<usize>, i: int, k: usize, col: usize)
    requires
        is_least_conflict_color(g, sol, i, k, col),
    ensures
        least_color(g, sol, i, k) == col,
{
    assert(exists|c: usize| is_least_conflict_color(g, sol, i, k, c)) by {
        assert(is_least_conflict_color(g, sol, i, k, col));
    }
    lemma_least_color_unique(g, sol, i, k, least_color(g, sol, i, k), col);
}

/// The solution reached by recolouring the listed vertices in order, each
/// to its least-conflict colour against the state reached so far.
pub open spec fn fold_recolor(g: Graph, sol: Seq<usize>, targets: Seq<usize>, k: usize) -> Seq<
    usize,
>
    decreases targets.len(),
{
    if targets.len() == 0 {
        sol
    } else {
        let mid = fold_recolor(g, sol, targets.drop_last(), k);
        mid.update(targets.last() as int, least_color(g, mid, targets.last() as int, k))
    }
}

/// The critical vertices of a conflict table, ascending.
pub open spec fn criticals_of(cf: Seq<usize>) -> Seq<usize>
    decreases cf.len(),
{
    if cf.len() == 0 {
        Seq::empty()
    } else if cf.last() != 0 {
        criticals_of(cf.drop_last()).push((cf.len() - 1) as usize)
    } else {
        criticals_of(cf.drop_last())
    }
}

/// The result is `x` recoloured along a prefix of its ascending critical
/// list, each vertex to the least-conflict colour at its turn.
pub open spec fn least_fold_of_critical_prefix(
    g: Graph,
    x: Coloring,
    r: Coloring,
    k: usize,
    m: int,
) -> bool {
    &&& 0 <= m <= criticals_of(x.conflicts@).len()
    &&& r.solution@ == fold_recolor(g, x.solution@, criticals_of(x.conflicts@).take(m), k)
}

/// A duplicate-free arrangement of exactly the critical vertices, ordered
/// by their conflict counts.
pub open spec fn critical_order(x: Coloring, ord: Seq<usize>, descending: bool) -> bool {
    &&& ord.no_duplicates()
    &&& forall|j: int|
        0 <= j < ord.len() ==> (#[trigger] ord[j]) < x.conflicts@.len() && x.conflicts@[ord[j] as int]
            != 0
    &&& forall|v: int|
        0 <= v < x.conflicts@.len() && (#[trigger] x.conflicts@[v]) != 0 ==> ord.contains(
            v as usize,
        )
    &&& (descending ==> forall|a: int, b: int|
        0 <= a < b < ord.len() ==> x.conflicts@[(#[trigger] ord[a]) as int] >= x.conflicts@[(
        #[trigger] ord[b]) as int])
    &&& (!descending ==> forall|a: int, b: int|
        0 <= a < b < ord.len() ==> x.conflicts@[(#[trigger] ord[a]) as int] <= x.conflicts@[(
        #[trigger] ord[b]) as int])
}

/// The result is `x` recoloured along a prefix of some such ordering.
pub open spec fn least_fold_of_ordered_prefix(
    g: Graph,
    x: Coloring,
    r: Coloring,
    k: usize,
    descending: bool,
    ord: Seq<usize>,
    m: int,
) -> bool {
    &&& critical_order(x, ord, descending)
    &&& 0 <= m <= ord.len()
    &&& r.solution@ == fold_recolor(g, x.solution@, ord.take(m), k)
}

/// Some colour in `1 ..= k` clashes with no neighbour of `v`.
pub open spec fn has_free_color(g: Graph, sol: Seq<usize>, v: int, k: usize) -> bool {
    exists|cc: usize| 1 <= cc <= k && #[trigger] count_matching(g.nbrs(v), sol, cc) == 0
}

/// The result is `x` with the single vertex `v` recoloured to its
/// least-conflict colour.
pub open spec fn single_least_recolor(g: Graph, x: Coloring, r: Coloring, k: usize, v: int) -> bool {
    &&& 0 <= v < g.n()
    &&& forall|u: int| 0 <= u < g.n() && u != v ==> r.solution@[u] == x.solution@[u]
    &&& is_least_conflict_color(g, x.solution@, v, k, r.solution@[v])
}

/// Scan the colours `1 ..= k` in order and keep the first minimizer of
/// same-coloured neighbours, leaving the scan early as soon as a colour
/// with no same-coloured neighbour appears (such a colour is already a
/// smallest minimizer).
pub fn least_conflict_color(g: &Graph, sol: &Vec<usize>, i: usize, k: usize) -> (col: usize)
    requires
        g.wf(),
        sol@.len() == g.n(),
        i < g.n(),
        1 <= k < usize::MAX,
    ensures
        is_least_conflict_color(*g, sol@, i as int, k, col),
{
    let nb = g.neighbors(i);
    let mut best_col: usize = 1;
    let mut best_cnt = count_matching_exec(nb, sol, 1);
    if best_cnt == 0 {
        proof {
            assert forall|c2: usize| 1 <= c2 <= k implies count_matching(
                g.nbrs(i as int),
                sol@,
                1,
            ) <= #[trigger] count_matching(g.nbrs(i as int), sol@, c2) by {
                lemma_count_matching_bounds(g.nbrs(i as int), sol@, c2);
            }
        }
        return 1;
    }
    let mut cc: usize = 2;
    while cc <= k
        invariant
            2 <= cc <= k + 1,
            k < usize::MAX,
            g.wf(),
            sol@.len() == g.n(),
            i < g.n(),
            nb@ == g.nbrs(i as int),
            1 <= best_col < cc,
            1 <= best_cnt,
            best_cnt as int == count_matching(g.nbrs(i as int), sol@, best_col),
            forall|c2: usize|
                1 <= c2 < cc ==> best_cnt <= #[trigger] count_matching(
                    g.nbrs(i as int),
                    sol@,
                    c2,
                ),
            forall|c2: usize|
                1 <= c2 < best_col ==> best_cnt < #[trigger] count_matching(
                    g.nbrs(i as int),
                    sol@,
                    c2,
                ),
        decreases k + 1 - cc,
    {
        let cnt = count_matching_exec(nb, sol, cc);
        if cnt == 0 {
            proof {
                assert forall|c2: usize| 1 <= c2 <= k implies count_matching(
                    g.nbrs(i as int),
                    sol@,
                    cc,
                ) <= #[trigger] count_matching(g.nbrs(i as int), sol@, c2) by {
                    lemma_count_matching_bounds(g.nbrs(i as int), sol@, c2);
                }
            }
            return cc;
        }
        if cnt < best_cnt {
            best_col = cc;
            best_cnt = cnt;
        }
        cc += 1;
    }
    best_col
}

/// The same choice computed by a full scan without the early exit: the
/// result is the identical colour.
pub fn least_conflict_color_scan(g: &Graph, sol: &Vec<usize>, i: usize, k: usize) -> (col: usize)
    requires
        g.wf(),
        sol@.len() == g.n(),
        i < g.n(),
        1 <= k < usize::MAX,
    ensures
        is_least_conflict_color(*g, sol@, i as int, k, col),
{
    let nb = g.neighbors(i);
    let mut best_col: usize = 1;
    let mut best_cnt = count_matching_exec(nb, sol, 1);
    let mut cc: usize = 2;
    while cc <= k
        invariant
            2 <= cc <= k + 1,
            k < usize::MAX,
            g.wf(),
            sol@.len() == g.n(),
            i < g.n(),
            nb@ == g.nbrs(i as int),
            1 <= best_col < cc,
            best_cnt as int == count_matching(g.nbrs(i as int), sol@, best_col),
            forall|c2: usize|
                1 <= c2 < cc ==> best_cnt <= #[trigger] count_matching(
                    g.nbrs(i as int),
                    sol@,
                    c2,
                ),
            forall|c2: usize|
                1 <= c2 < best_col ==> best_cnt < #[trigger] count_matching(
                    g.nbrs(i as int),
                    sol@,
                    c2,
                ),
        decreases k + 1 - cc,
    {
        let cnt = count_matching_exec(nb, sol, cc);
        if cnt < best_cnt {
            best_col = cc;
            best_cnt = cnt;
        }
        cc += 1;
    }
    best_col
}

/// The critical vertices (nonzero conflict count), in ascending order.
pub fn critical_vertices(x: &Coloring) -> (r: Vec<usize>)
    ensures
        r@ == criticals_of(x.conflicts@),
        forall|a: int, b: int| 0 <= a < b < r@.len() ==> r@[a] < r@[b],
        r@.no_duplicates(),
        forall|j: int|
            0 <= j < r@.len() ==> (#[trigger] r@[j]) < x.conflicts@.len() && x.conflicts@[r@[j] as int]
                != 0,
        forall|v: int|
            0 <= v < x.conflicts@.len() && (#[trigger] x.conflicts@[v]) != 0 ==> r@.contains(
                v as usize,
            ),
{
    let n = x.conflicts.len();
    let mut r: Vec<usize> = Vec::new();
    let mut i: usize = 0;
    while i < n
        invariant
            i <= n,
            n == x.conflicts@.len(),
            r@ == criticals_of(x.conflicts@.take(i as int)),
            forall|a: int, b: int| 0 <= a < b < r@.len() ==> r@[a] < r@[b],
            forall|j: int| 0 <= j < r@.len() ==> (#[trigger] r@[j]) < i && x.conflicts@[r@[j] as int] != 0,
            forall|v: int|
                0 <= v < i && (#[trigger] x.conflicts@[v]) != 0 ==> r@.contains(v as usize),
        decreases n - i,
    {
        proof {
            assert(x.conflicts@.take(i + 1).drop_last() =~= x.conflicts@.take(i as int));
            assert(x.conflicts@.take(i + 1).last() == x.conflicts@[i as int]);
        }
        if x.conflicts[i] != 0 {
            let ghost pre = r@;
            r.push(i);
            proof {
                assert(r@ =~= pre.push(i));
                assert(r@[r@.len() - 1] == i);
                assert forall|v: int|
                    0 <= v < i + 1 && (#[trigger] x.conflicts@[v]) != 0 implies r@.contains(
                    v as usize,
                ) by {
                    if v < i {
                        assert(pre.contains(v as usize));
                        let q = choose|q: int|
                            0 <= q < pre.len() && (#[trigger] pre[q]) == v as usize;
                        assert(r@[q] == v as usize);
                    }
                }
            }
        }
        i += 1;
        proof {
            assert forall|v: int|
                0 <= v < i && (#[trigger] x.conflicts@[v]) != 0 implies r@.contains(v as usize)
                by {}
        }
    }
    proof {
        assert(x.conflicts@.take(x.conflicts@.len() as int) =~= x.conflicts@);
        assert forall|a: int, b: int| 0 <= a < b < r@.len() implies r@[a] != r@[b] by {}
        assert(r@.no_duplicates());
    }
    r
}

/// Every entry of a multiset-equal sequence occurs in the other one.
proof fn lemma_perm_contains(v: Seq<(usize, usize)>, r: Seq<(usize, usize)>)
    requires
        r.to_multiset() == v.to_multiset(),
    ensures
        forall|q: int| 0 <= q < r.len() ==> v.contains(#[trigger] r[q]),
        forall|p: int| 0 <= p < v.len() ==> r.contains(#[trigger] v[p]),
{
    broadcast use vstd::seq_lib::group_to_multiset_ensures;

    assert forall|q: int| 0 <= q < r.len() implies v.contains(#[trigger] r[q]) by {
        assert(r.contains(r[q]));
        assert(r.to_multiset().count(r[q]) > 0);
    }
    assert forall|p: int| 0 <= p < v.len() implies r.contains(#[trigger] v[p]) by {
        assert(v.contains(v[p]));
        assert(v.to_multiset().count(v[p]) > 0);
    }
}

/// A permutation of pairs with pairwise-distinct second components again
/// has pairwise-distinct second components.
proof fn lemma_perm_seconds_distinct(v: Seq<(usize, usize)>, r: Seq<(usize, usize)>)
    requires
        r.to_multiset() == v.to_multiset(),
        forall|p1: int, p2: int| 0 <= p1 < p2 < v.len() ==> (#[trigger] v[p1]).1 != (
        #[trigger] v[p2]).1,
    ensures
        forall|q1: int, q2: int| 0 <= q1 < q2 < r.len() ==> (#[trigger] r[q1]).1 != (
        #[trigger] r[q2]).1,
{
    assert(v.no_duplicates()) by {
        assert forall|p1: int, p2: int| 0 <= p1 < p2 < v.len() implies v[p1] != v[p2] by {
            assert(v[p1].1 != v[p2].1);
        }
    }
    v.lemma_multiset_has_no_duplicates();
    broadcast use vstd::seq_lib::group_to_multiset_ensures;

    r.lemma_multiset_has_no_duplicates_conv();
    lemma_perm_contains(v, r);
    assert forall|q1: int, q2: int| 0 <= q1 < q2 < r.len() implies (#[trigger] r[q1]).1 != (
    #[trigger] r[q2]).1 by {
        assert(r[q1] != r[q2]);
        let p1 = choose|p1: int| 0 <= p1 < v.len() && (#[trigger] v[p1]) == r[q1];
        let p2 = choose|p2: int| 0 <= p2 < v.len() && (#[trigger] v[p2]) == r[q2];
        assert(p1 != p2);
        assert(v[p1].1 != v[p2].1);
    }
}

/// The critical vertices ordered by their conflict count, ascending (the
/// order among equal counts is left to the sorting routine).
pub fn criticals_by_conflicts(x: &Coloring) -> (r: Vec<usize>)
    ensures
        r@.no_duplicates(),
        forall|j: int|
            0 <= j < r@.len() ==> (#[trigger] r@[j]) < x.conflicts@.len() && x.conflicts@[r@[j] as int]
                != 0,
        forall|v: int|
            0 <= v < x.conflicts@.len() && (#[trigger] x.conflicts@[v]) != 0 ==> r@.contains(
                v as usize,
            ),
        forall|a: int, b: int|
            0 <= a < b < r@.len() ==> x.conflicts@[(#[trigger] r@[a]) as int] <= x.conflicts@[(
            #[trigger] r@[b]) as int],
{
    let n = x.conflicts.len();
    proof {
        assert(x.conflicts@.len() <= usize::MAX);
    }
    let crit = critical_vertices(x);
    let mut pairs: Vec<(usize, usize)> = Vec::new();
    let mut t: usize = 0;
    while t < crit.len()
        invariant
            t <= crit@.len(),
            forall|j: int|
                0 <= j < crit@.len() ==> (#[trigger] crit@[j]) < x.conflicts@.len()
                    && x.conflicts@[crit@[j] as int] != 0,
            pairs@.len() == t,
            forall|j: int|
                0 <= j < t ==> (#[trigger] pairs@[j]) == (
                x.conflicts@[crit@[j] as int],
                crit@[j],
            ),
        decreases crit@.len() - t,
    {
        let i = crit[t];
        pairs.push((x.conflicts[i], i));
        t += 1;
    }
    let ghost pv = pairs@;
    proof {
        assert(pv.len() == crit@.len());
        assert(forall|j: int|
            0 <= j < pv.len() ==> (#[trigger] pv[j]) == (
            x.conflicts@[crit@[j] as int],
            crit@[j],
        ));
    }
    let sorted = crate::trusted::sort_pairs_by_first(pairs);
    proof {
        assert forall|p1: int, p2: int| 0 <= p1 < p2 < pv.len() implies (#[trigger] pv[p1]).1
            != (#[trigger] pv[p2]).1 by {
            assert(pv[p1].1 == crit@[p1] && pv[p2].1 == crit@[p2]);
        }
        lemma_perm_seconds_distinct(pv, sorted@);
        lemma_perm_contains(pv, sorted@);
    }
    let mut r: Vec<usize> = Vec::new();
    let mut q: usize = 0;
    while q < sorted.len()
        invariant
            q <= sorted@.len(),
            r@.len() == q,
            forall|j: int| 0 <= j < q ==> (#[trigger] r@[j]) == sorted@[j].1,
        decreases sorted@.len() - q,
    {
        let pr = sorted[q];
        r.push(pr.1);
        q += 1;
    }
    proof {
        assert forall|j: int| 0 <= j < r@.len() implies (#[trigger] r@[j]) < x.conflicts@.len()
            && x.conflicts@[r@[j] as int] != 0 && sorted@[j].0 == x.conflicts@[r@[j] as int] by {
            assert(pv.contains(sorted@[j]));
            let p = choose|p: int| 0 <= p < pv.len() && (#[trigger] pv[p]) == sorted@[j];
            assert(pv[p] == (x.conflicts@[crit@[p] as int], crit@[p]));
        }
        assert forall|a: int, b: int| 0 <= a < b < r@.len() implies x.conflicts@[(
        #[trigger] r@[a]) as int] <= x.conflicts@[(#[trigger] r@[b]) as int] by {
            assert(sorted@[a].0 <= sorted@[b].0);
        }
        assert forall|a: int, b: int| 0 <= a < b < r@.len() implies r@[a] != r@[b] by {
            assert(sorted@[a].1 != sorted@[b].1);
        }
        assert(r@.no_duplicates());
        assert forall|v: int|
            0 <= v < x.conflicts@.len() && (#[trigger] x.conflicts@[v]) != 0 implies r@.contains(
            v as usize,
        ) by {
            let crit_r = crit@;
            assert(crit_r.contains(v as usize));
            let j = choose|j: int| 0 <= j < crit_r.len() && (#[trigger] crit_r[j]) == v as usize;
            assert(pv[j] == (x.conflicts@[v], v as usize));
            assert(sorted@.contains(pv[j]));
            let q2 = choose|q2: int| 0 <= q2 < sorted@.len() && (#[trigger] sorted@[q2]) == pv[j];
            assert(r@[q2] == v as usize);
        }
    }
    r
}

/// The first `m` entries (or all of them, when fewer).
pub fn take_prefix(v: &Vec<usize>, m: usize) -> (r: Vec<usize>)
    ensures
        r@ == v@.take(if m <= v@.len() {
            m as int
        } else {
            v@.len() as int
        }),
{
    let lim = if m <= v.len() {
        m
    } else {
        v.len()
    };
    let mut r: Vec<usize> = Vec::new();
    let mut i: usize = 0;
    while i < lim
        invariant
            i <= lim,
            lim <= v@.len(),
            r@ == v@.take(i as int),
        decreases lim - i,
    {
        r.push(v[i]);
        proof {
            assert(r@ =~= v@.take(i + 1));
        }
        i += 1;
    }
    r
}

/// Reverse a list of positions.
pub fn reverse_vec(v: &Vec<usize>) -> (r: Vec<usize>)
    ensures
        r@.len() == v@.len(),
        forall|j: int| 0 <= j < v@.len() ==> (#[trigger] r@[j]) == v@[v@.len() - 1 - j],
{
    let mut r: Vec<usize> = Vec::new();
    let mut i: usize = v.len();
    while i > 0
        invariant
            i <= v@.len(),
            r@.len() == v@.len() - i,
            forall|j: int| 0 <= j < r@.len() ==> (#[trigger] r@[j]) == v@[v@.len() - 1 - j],
        decreases i,
    {
        i -= 1;
        r.push(v[i]);
    }
    r
}

/// Recolour each listed vertex, in order, with its least-conflict colour
/// against the evolving solution.
fn recolor_targets(g: &Graph, new: &mut Coloring, targets: &Vec<usize>, k: usize, shortcut: bool)
    requires
        g.wf(),
        old(new).solution@.len() == g.n(),
        1 <= k < usize::MAX,
        forall|j: int| 0 <= j < targets@.len() ==> (#[trigger] targets@[j]) < g.n(),
    ensures
        final(new).solution@.len() == g.n(),
        forall|v: int|
            0 <= v < g.n() && !targets@.contains(v as usize) ==> (
            #[trigger] final(new).solution@[v]) == old(new).solution@[v],
        forall|v: int|
            0 <= v < g.n() && (#[trigger] final(new).solution@[v]) != old(new).solution@[v]
                ==> targets@.contains(v as usize) && 1 <= final(new).solution@[v] <= k,
        forall|j: int|
            0 <= j < targets@.len() ==> 1 <= (#[trigger] final(new).solution@[targets@[j] as int])
                <= k,
        final(new).solution@ == fold_recolor(*g, old(new).solution@, targets@, k),
        final(new).conflicts@ == old(new).conflicts@,
        final(new).tot_conflicts == old(new).tot_conflicts,
        final(new).index == old(new).index,
        final(new).lifetime == old(new).lifetime,
{
    let mut t: usize = 0;
    while t < targets.len()
        invariant
            t <= targets@.len(),
            g.wf(),
            1 <= k < usize::MAX,
            new.solution@.len() == g.n(),
            forall|j: int| 0 <= j < targets@.len() ==> (#[trigger] targets@[j]) < g.n(),
            forall|v: int|
                0 <= v < g.n() && !targets@.take(t as int).contains(v as usize) ==> (
                #[trigger] new.solution@[v]) == old(new).solution@[v],
            forall|j: int|
                0 <= j < t ==> 1 <= (#[trigger] new.solution@[targets@[j] as int]) <= k
                    || targets@.take(t as int).contains(targets@[j]) == false,
            forall|v: int|
                0 <= v < g.n() && targets@.take(t as int).contains(v as usize) && (
                #[trigger] new.solution@[v]) != old(new).solution@[v] ==> 1 <= new.solution@[v]
                    <= k,
            forall|j: int|
                0 <= j < t ==> 1 <= (#[trigger] new.solution@[targets@[j] as int]) <= k,
            new.solution@ == fold_recolor(*g, old(new).solution@, targets@.take(t as int), k),
            new.conflicts@ == old(new).conflicts@,
            new.tot_conflicts == old(new).tot_conflicts,
            new.index == old(new).index,
            new.lifetime == old(new).lifetime,
        decreases targets@.len() - t,
    {
        let i = targets[t];
        let ghost prefold = new.solution@;
        let col = if shortcut {
            least_conflict_color(g, &new.solution, i, k)
        } else {
            least_conflict_color_scan(g, &new.solution, i, k)
        };
        new.solution[i] = col;
        t += 1;
        proof {
            assert(targets@.take(t as int).drop_last() =~= targets@.take(t - 1));
            assert(targets@.take(t as int).last() == targets@[t - 1]);
            lemma_least_color_is(*g, prefold, i as int, k, col);
            assert(new.solution@ =~= prefold.update(
                i as int,
                least_color(*g, prefold, i as int, k),
            ));
            assert(new.solution@ == fold_recolor(
                *g,
                old(new).solution@,
                targets@.take(t as int),
                k,
            ));
            assert(targets@.take(t as int) =~= targets@.take(t - 1).push(targets@[t - 1]));
            assert(targets@.take(t as int).contains(targets@[t - 1])) by {
                assert(targets@.take(t as int).last() == targets@[t - 1]);
            }
            assert forall|v: int|
                0 <= v < g.n() && !targets@.take(t as int).contains(v as usize) implies (
            #[trigger] new.solution@[v]) == old(new).solution@[v] by {
                assert(!targets@.take(t - 1).contains(v as usize)) by {
                    if targets@.take(t - 1).contains(v as usize) {
                        let q = choose|q: int|
                            0 <= q < t - 1 && (#[trigger] targets@.take(t - 1)[q]) == v as usize;
                        assert(targets@.take(t as int)[q] == v as usize);
                    }
                }
                assert(v != i);
            }
            assert forall|j: int| 0 <= j < t implies 1 <= (
            #[trigger] new.solution@[targets@[j] as int]) <= k by {
                if j < t - 1 && targets@[j] != i {
                }
            }
        }
    }
    proof {
        assert(targets@.take(targets@.len() as int) =~= targets@);
    }
}

/// The containment step for a one-longer prefix.
pub proof fn lemma_take_push(s: Seq<usize>, t: int)
    requires
        0 < t <= s.len(),
    ensures
        s.take(t).contains(s[t - 1]),
        forall|v: usize| #[trigger] s.take(t).contains(v) <==> (s.take(t - 1).contains(v) || v
            == s[t - 1]),
{
    assert(s.take(t) =~= s.take(t - 1).push(s[t - 1]));
    assert(s.take(t).last() == s[t - 1]);
    assert forall|v: usize| #[trigger] s.take(t).contains(v) implies (s.take(t - 1).contains(v)
        || v == s[t - 1]) by {
        let q = choose|q: int| 0 <= q < t && (#[trigger] s.take(t)[q]) == v;
        if q < t - 1 {
            assert(s.take(t - 1)[q] == v);
        }
    }
    assert forall|v: usize| (s.take(t - 1).contains(v) || v == s[t - 1]) implies #[trigger] s.take(
        t,
    ).contains(v) by {
        if s.take(t - 1).contains(v) {
            let q = choose|q: int| 0 <= q < t - 1 && (#[trigger] s.take(t - 1)[q]) == v;
            assert(s.take(t)[q] == v);
        }
    }
}

/// All changes relative to `x` lie within the duplicate-free position set
/// `s`, which is smaller than the vertex count.
pub open spec fn changes_within(g: Graph, x: Coloring, r: Coloring, s: Seq<usize>) -> bool {
    &&& s.no_duplicates()
    &&& s.len() < g.n()
    &&& forall|j: int| 0 <= j < s.len() ==> (#[trigger] s[j]) < g.n()
    &&& forall|v: int|
        0 <= v < g.n() && (#[trigger] r.solution@[v]) != x.solution@[v] ==> s.contains(v as usize)
}

/// Global (biotic) pollination: clone `other`, overwrite a heavy-tail-sized
/// set of distinct random positions with `best`'s colours there, and update
/// the conflict bookkeeping incrementally for exactly those positions.
pub fn levy_pop1(
    g: &Graph,
    rng: &mut Prng,
    best: &Coloring,
    other: &Coloring,
    lambda_centi: u32,
) -> (r: Coloring)
    requires
        g.full(),
        other.wf(*g),
        best.solution@.len() == g.n(),
        1 <= g.n(),
        1 <= lambda_centi <= 100000,
    ensures
        r.wf(*g),
        r.index == other.index,
        r.lifetime == other.lifetime,
        forall|v: int|
            0 <= v < g.n() ==> (#[trigger] r.solution@[v]) == best.solution@[v] || r.solution@[v]
                == other.solution@[v],
        exists|s: Seq<usize>| #[trigger] changes_within(*g, *other, r, s),
{
    let n = best.len();
    let mut offspring = other.duplicate();
    let cutoff = rng.adjusted_levy(n, lambda_centi);
    let indices = rng.sample_distinct(n, cutoff);
    let ghost idx = indices@;
    let mut t: usize = 0;
    while t < indices.len()
        invariant
            t <= idx.len(),
            idx == indices@,
            g.full(),
            other.wf(*g),
            best.solution@.len() == g.n(),
            forall|j: int| 0 <= j < idx.len() ==> (#[trigger] idx[j]) < g.n(),
            offspring.solution@.len() == g.n(),
            offspring.conflicts@ == other.conflicts@,
            offspring.tot_conflicts == other.tot_conflicts,
            offspring.index == other.index,
            offspring.lifetime == other.lifetime,
            forall|v: int|
                0 <= v < g.n() && !idx.take(t as int).contains(v as usize) ==> (
                #[trigger] offspring.solution@[v]) == other.solution@[v],
            forall|v: int|
                0 <= v < g.n() && idx.take(t as int).contains(v as usize) ==> (
                #[trigger] offspring.solution@[v]) == best.solution@[v],
        decreases idx.len() - t,
    {
        let i = indices[t];
        let b = best.solution[i];
        offspring.solution[i] = b;
        t += 1;
        proof {
            lemma_take_push(idx, t as int);
        }
    }
    proof {
        assert(idx.take(idx.len() as int) =~= idx);
    }
    offspring.update_multiple_conflicts(&indices, other, g);
    proof {
        assert(changes_within(*g, *other, offspring, idx));
    }
    offspring
}

/// A cyclic shift of colours along a heavy-tail-sized chain of distinct
/// random positions, with the bookkeeping updated for the whole set.
pub fn levy_circ(g: &Graph, rng: &mut Prng, x: &Coloring, lambda_centi: u32) -> (r: Coloring)
    requires
        g.full(),
        x.wf(*g),
        1 <= g.n(),
        1 <= lambda_centi <= 100000,
    ensures
        r.wf(*g),
        r.index == x.index,
        r.lifetime == x.lifetime,
        exists|s: Seq<usize>| #[trigger] changes_within(*g, *x, r, s),
{
    let n = x.len();
    let mut offspring = x.duplicate();
    let cutoff = rng.adjusted_levy(n, lambda_centi);
    let indices = rng.sample_distinct(n, cutoff);
    let ghost idx = indices@;
    if indices.len() > 0 {
        let mut t: usize = 0;
        while t < indices.len() - 1
            invariant
                1 <= idx.len(),
                t < idx.len(),
                idx == indices@,
                g.full(),
                x.wf(*g),
                idx.no_duplicates(),
                forall|j: int| 0 <= j < idx.len() ==> (#[trigger] idx[j]) < g.n(),
                offspring.solution@.len() == g.n(),
                offspring.conflicts@ == x.conflicts@,
                offspring.tot_conflicts == x.tot_conflicts,
                offspring.index == x.index,
                offspring.lifetime == x.lifetime,
                forall|v: int|
                    0 <= v < g.n() && !idx.contains(v as usize) ==> (
                    #[trigger] offspring.solution@[v]) == x.solution@[v],
            decreases idx.len() - t,
        {
            let j = indices[t + 1];
            let val = offspring.solution[j];
            let i = indices[t];
            offspring.solution[i] = val;
            proof {
                assert(idx.contains(idx[t as int])) by {
                    assert(idx[t as int] == idx[t as int]);
                }
            }
            t += 1;
        }
    }
    offspring.update_multiple_conflicts(&indices, x, g);
    proof {
        assert(changes_within(*g, *x, offspring, idx));
    }
    offspring
}

/// The shared body of the local operators: recolour each target vertex,
/// in order, with its least-conflict colour against the evolving solution
/// (scanning all colours, or leaving early at a conflict-free one), then
/// update the bookkeeping for the whole target set.
fn change_targets(g: &Graph, x: &Coloring, targets: &Vec<usize>, k: usize, shortcut: bool) -> (r:
    Coloring)
    requires
        g.full(),
        x.wf(*g),
        1 <= k < usize::MAX,
        targets@.no_duplicates(),
        forall|j: int|
            0 <= j < targets@.len() ==> (#[trigger] targets@[j]) < g.n() && x.conflicts@[targets@[j] as int]
                != 0,
    ensures
        r.wf(*g),
        r.index == x.index,
        r.lifetime == x.lifetime,
        r.solution@ == fold_recolor(*g, x.solution@, targets@, k),
        forall|v: int|
            0 <= v < g.n() && (#[trigger] r.solution@[v]) != x.solution@[v] ==> x.conflicts@[v]
                != 0 && 1 <= r.solution@[v] <= k,
{
    let mut new = x.duplicate();
    recolor_targets(g, &mut new, targets, k, shortcut);
    new.update_multiple_conflicts(targets, x, g);
    proof {
        assert forall|v: int|
            0 <= v < g.n() && (#[trigger] new.solution@[v]) != x.solution@[v] implies x.conflicts@[v]
            != 0 && 1 <= new.solution@[v] <= k by {
            let q = choose|q: int|
                0 <= q < targets@.len() && (#[trigger] targets@[q]) == v as usize;
        }
    }
    new
}

/// Local pollination over a heavy-tail-sized subset of the critical
/// vertices, taken in ascending vertex order.
pub fn change_multiple(rng: &mut Prng, g: &Graph, x: &Coloring, k: usize, lambda_centi: u32) -> (r:
    Coloring)
    requires
        g.full(),
        x.wf(*g),
        1 <= k < usize::MAX,
        1 <= g.n(),
        1 <= lambda_centi <= 100000,
    ensures
        r.wf(*g),
        r.index == x.index,
        r.lifetime == x.lifetime,
        forall|v: int|
            0 <= v < g.n() && (#[trigger] r.solution@[v]) != x.solution@[v] ==> x.conflicts@[v]
                != 0 && 1 <= r.solution@[v] <= k,
        exists|m: int| #[trigger] least_fold_of_critical_prefix(*g, *x, r, k, m),
{
    let critical = critical_vertices(x);
    let steps = rng.adjusted_levy(x.len(), lambda_centi);
    let indices = take_prefix(&critical, steps);
    proof {
        lemma_prefix_of_list(critical@, indices@);
    }
    let r = change_targets(g, x, &indices, k, true);
    proof {
        assert(least_fold_of_critical_prefix(*g, *x, r, k, indices@.len() as int));
    }
    r
}

/// As `change_multiple`, with the subset drawn from the lowest-conflict
/// critical vertices first.
pub fn change_multiple_best(
    rng: &mut Prng,
    g: &Graph,
    x: &Coloring,
    k: usize,
    lambda_centi: u32,
) -> (r: Coloring)
    requires
        g.full(),
        x.wf(*g),
        1 <= k < usize::MAX,
        1 <= g.n(),
        1 <= lambda_centi <= 100000,
    ensures
        r.wf(*g),
        r.index == x.index,
        r.lifetime == x.lifetime,
        forall|v: int|
            0 <= v < g.n() && (#[trigger] r.solution@[v]) != x.solution@[v] ==> x.conflicts@[v]
                != 0 && 1 <= r.solution@[v] <= k,
        exists|ord: Seq<usize>, m: int| #[trigger] least_fold_of_ordered_prefix(
            *g,
            *x,
            r,
            k,
            false,
            ord,
            m,
        ),
{
    let sorted = criticals_by_conflicts(x);
    let steps = rng.adjusted_levy(x.len(), lambda_centi);
    let indices = take_prefix(&sorted, steps);
    proof {
        lemma_prefix_of_list(sorted@, indices@);
    }
    let r = change_targets(g, x, &indices, k, true);
    proof {
        assert(critical_order(*x, sorted@, false));
        assert(least_fold_of_ordered_prefix(*g, *x, r, k, false, sorted@, indices@.len() as int));
    }
    r
}

/// As `change_multiple`, with the subset drawn from the highest-conflict
/// critical vertices first.
pub fn change_multiple_worst(
    rng: &mut Prng,
    g: &Graph,
    x: &Coloring,
    k: usize,
    lambda_centi: u32,
) -> (r: Coloring)
    requires
        g.full(),
        x.wf(*g),
        1 <= k < usize::MAX,
        1 <= g.n(),
        1 <= lambda_centi <= 100000,
    ensures
        r.wf(*g),
        r.index == x.index,
        r.lifetime == x.lifetime,
        forall|v: int|
            0 <= v < g.n() && (#[trigger] r.solution@[v]) != x.solution@[v] ==> x.conflicts@[v]
                != 0 && 1 <= r.solution@[v] <= k,
        exists|ord: Seq<usize>, m: int| #[trigger] least_fold_of_ordered_prefix(
            *g,
            *x,
            r,
            k,
            true,
            ord,
            m,
        ),
{
    let sorted = criticals_by_conflicts(x);
    let rev = reverse_vec(&sorted);
    proof {
        assert forall|a: int, b: int| 0 <= a < b < rev@.len() implies rev@[a] != rev@[b] by {
            assert(rev@[a] == sorted@[sorted@.len() - 1 - a]);
            assert(rev@[b] == sorted@[sorted@.len() - 1 - b]);
        }
        assert(rev@.no_duplicates());
        assert forall|v: int|
            0 <= v < x.conflicts@.len() && (#[trigger] x.conflicts@[v]) != 0 implies rev@.contains(
            v as usize,
        ) by {
            assert(sorted@.contains(v as usize));
            let q = choose|q: int| 0 <= q < sorted@.len() && (#[trigger] sorted@[q]) == v as usize;
            assert(rev@[sorted@.len() - 1 - q] == v as usize);
        }
        assert(critical_order(*x, rev@, true));
    }
    let steps = rng.adjusted_levy(x.len(), lambda_centi);
    let indices = take_prefix(&rev, steps);
    proof {
        lemma_prefix_of_list(rev@, indices@);
    }
    let r = change_targets(g, x, &indices, k, true);
    proof {
        assert(least_fold_of_ordered_prefix(*g, *x, r, k, true, rev@, indices@.len() as int));
    }
    r
}

/// Repair every critical vertex, choosing each colour by the full scan.
pub fn change_all_critical(g: &Graph, x: &Coloring, k: usize) -> (r: Coloring)
    requires
        g.full(),
        x.wf(*g),
        1 <= k < usize::MAX,
    ensures
        r.wf(*g),
        r.index == x.index,
        r.lifetime == x.lifetime,
        forall|v: int|
            0 <= v < g.n() && (#[trigger] r.solution@[v]) != x.solution@[v] ==> x.conflicts@[v]
                != 0 && 1 <= r.solution@[v] <= k,
        r.solution@ == fold_recolor(*g, x.solution@, criticals_of(x.conflicts@), k),
{
    let critical = critical_vertices(x);
    change_targets(g, x, &critical, k, false)
}

/// Repair every critical vertex, with the early exit at the first
/// conflict-free colour (the chosen colour is provably the same).
pub fn change_all_critical_opt(g: &Graph, x: &Coloring, k: usize) -> (r: Coloring)
    requires
        g.full(),
        x.wf(*g),
        1 <= k < usize::MAX,
    ensures
        r.wf(*g),
        r.index == x.index,
        r.lifetime == x.lifetime,
        forall|v: int|
            0 <= v < g.n() && (#[trigger] r.solution@[v]) != x.solution@[v] ==> x.conflicts@[v]
                != 0 && 1 <= r.solution@[v] <= k,
        r.solution@ == fold_recolor(*g, x.solution@, criticals_of(x.conflicts@), k),
{
    let critical = critical_vertices(x);
    change_targets(g, x, &critical, k, true)
}

/// A prefix of a duplicate-free list of critical vertices is again one.
proof fn lemma_prefix_of_list(full: Seq<usize>, pre: Seq<usize>)
    requires
        full.no_duplicates(),
        exists|m: int| 0 <= m <= full.len() && pre =~= full.take(m),
    ensures
        pre.no_duplicates(),
        forall|j: int| 0 <= j < pre.len() ==> (#[trigger] pre[j]) == full[j],
{
    let m = choose|m: int| 0 <= m <= full.len() && pre =~= full.take(m);
    assert forall|a: int, b: int| 0 <= a < b < pre.len() implies pre[a] != pre[b] by {
        assert(pre[a] == full[a] && pre[b] == full[b]);
    }
}

/// Recolour one random critical vertex with its least-conflict colour and
/// update the bookkeeping for it alone.
pub fn try_change_critical(rng: &mut Prng, g: &Graph, x: &Coloring, k: usize) -> (r: Coloring)
    requires
        g.full(),
        x.wf(*g),
        1 <= k < usize::MAX,
        x.tot_conflicts != 0,
    ensures
        r.wf(*g),
        r.index == x.index,
        r.lifetime == x.lifetime,
        forall|v: int|
            0 <= v < g.n() && (#[trigger] r.solution@[v]) != x.solution@[v] ==> x.conflicts@[v]
                != 0 && 1 <= r.solution@[v] <= k,
        exists|v: int|
            x.conflicts@[v] != 0 && #[trigger] single_least_recolor(*g, *x, r, k, v),
{
    let critical = critical_vertices(x);
    proof {
        lemma_nonzero_has_critical(*g, *x);
        let w = choose|w: int| 0 <= w < g.n() && (#[trigger] x.conflicts@[w]) != 0;
        assert(critical@.contains(w as usize));
        let q = choose|q: int| 0 <= q < critical@.len() && (#[trigger] critical@[q]) == w as usize;
    }
    let pick = rng.below(critical.len() as u64);
    let i = critical[pick as usize];
    let mut new = x.duplicate();
    let col = least_conflict_color(g, &new.solution, i, k);
    new.solution[i] = col;
    new.update_conflicts(i, x, g);
    proof {
        assert(single_least_recolor(*g, *x, new, k, i as int));
    }
    new
}

/// Recolour the vertex with the most conflicts (the last such on ties)
/// with its least-conflict colour, and update the bookkeeping for it.
pub fn change_worst(g: &Graph, x: &Coloring, k: usize) -> (r: Coloring)
    requires
        g.full(),
        x.wf(*g),
        1 <= k < usize::MAX,
        1 <= g.n(),
    ensures
        r.wf(*g),
        r.index == x.index,
        r.lifetime == x.lifetime,
        forall|v: int|
            0 <= v < g.n() && (#[trigger] r.solution@[v]) != x.solution@[v] ==> 1 <= r.solution@[v]
                <= k && (forall|u: int|
                0 <= u < g.n() ==> (#[trigger] x.conflicts@[u]) <= x.conflicts@[v]),
        exists|v: int|
            (forall|u: int| 0 <= u < g.n() ==> (#[trigger] x.conflicts@[u]) <= x.conflicts@[v])
                && #[trigger] single_least_recolor(*g, *x, r, k, v),
{
    let n = x.conflicts.len();
    let mut worst: usize = 0;
    let mut i: usize = 1;
    while i < n
        invariant
            1 <= i <= n,
            n == x.conflicts@.len(),
            worst < i,
            forall|u: int| 0 <= u < i ==> (#[trigger] x.conflicts@[u]) <= x.conflicts@[worst as int],
        decreases n - i,
    {
        if x.conflicts[i] >= x.conflicts[worst] {
            worst = i;
        }
        i += 1;
    }
    let mut new = x.duplicate();
    let col = least_conflict_color(g, &new.solution, worst, k);
    new.solution[worst] = col;
    new.update_conflicts(worst, x, g);
    proof {
        assert(single_least_recolor(*g, *x, new, k, worst as int));
    }
    new
}

/// Recolour the first critical vertex for which a conflict-free colour
/// exists (to the smallest such colour), updating the bookkeeping for it;
/// if no critical vertex has one, hand back an unchanged copy.
pub fn change_one(g: &Graph, x: &Coloring, k: usize) -> (r: Coloring)
    requires
        g.full(),
        x.wf(*g),
        1 <= k < usize::MAX,
    ensures
        r.wf(*g),
        r.index == x.index,
        r.lifetime == x.lifetime,
        forall|v: int|
            0 <= v < g.n() && (#[trigger] r.solution@[v]) != x.solution@[v] ==> x.conflicts@[v]
                != 0 && 1 <= r.solution@[v] <= k && r.conflicts@[v] == 0,
        forall|v1: int, v2: int|
            0 <= v1 < g.n() && 0 <= v2 < g.n() && (#[trigger] r.solution@[v1]) != x.solution@[v1]
                && (#[trigger] r.solution@[v2]) != x.solution@[v2] ==> v1 == v2,
        (exists|v: int|
            0 <= v < g.n() && x.conflicts@[v] != 0 && #[trigger] has_free_color(
                *g,
                x.solution@,
                v,
                k,
            )) ==> exists|v: int| 0 <= v < g.n() && (#[trigger] r.solution@[v]) != x.solution@[v],
{
    let critical = critical_vertices(x);
    let mut t: usize = 0;
    while t < critical.len()
        invariant
            t <= critical@.len(),
            g.full(),
            x.wf(*g),
            1 <= k < usize::MAX,
            forall|j: int|
                0 <= j < critical@.len() ==> (#[trigger] critical@[j]) < g.n()
                    && x.conflicts@[critical@[j] as int] != 0,
            forall|v: int|
                0 <= v < x.conflicts@.len() && (#[trigger] x.conflicts@[v]) != 0
                    ==> critical@.contains(v as usize),
            forall|j: int|
                0 <= j < t ==> !has_free_color(*g, x.solution@, (#[trigger] critical@[j]) as int, k),
        decreases critical@.len() - t,
    {
        let i = critical[t];
        let col = least_conflict_color(g, &x.solution, i, k);
        let cnt = count_matching_exec(g.neighbors(i), &x.solution, col);
        if cnt == 0 {
            let mut new = x.duplicate();
            new.solution[i] = col;
            let ghost mid = new.solution@;
            new.update_conflicts(i, x, g);
            proof {
                assert forall|j: int| 0 <= j < g.nbrs(i as int).len() implies mid[(
                #[trigger] g.nbrs(i as int)[j]) as int] == x.solution@[g.nbrs(i as int)[j] as int]
                    by {
                    assert(g.nbrs(i as int)[j] != i);
                }
                crate::structs::lemma_count_matching_agree(
                    g.nbrs(i as int),
                    mid,
                    x.solution@,
                    col,
                );
                assert(crate::structs::conflicts_at(*g, mid, i as int) == 0);
                // the recoloured vertex really changed: its old colour was
                // in conflict, the new one is conflict-free
                assert(x.conflicts@[i as int] as int == count_matching(
                    g.nbrs(i as int),
                    x.solution@,
                    x.solution@[i as int],
                ));
                assert(col != x.solution@[i as int]);
                assert(new.solution@[i as int] != x.solution@[i as int]);
            }
            return new;
        }
        t += 1;
        proof {
            // every colour of the vertex just examined has a clash
            assert(!has_free_color(*g, x.solution@, critical@[t - 1] as int, k)) by {
                if has_free_color(*g, x.solution@, critical@[t - 1] as int, k) {
                    let cc = choose|cc: usize|
                        1 <= cc <= k && #[trigger] count_matching(
                            g.nbrs(critical@[t - 1] as int),
                            x.solution@,
                            cc,
                        ) == 0;
                }
            }
        }
    }
    proof {
        if exists|v: int|
            0 <= v < g.n() && x.conflicts@[v] != 0 && #[trigger] has_free_color(
                *g,
                x.solution@,
                v,
                k,
            ) {
            let v = choose|v: int|
                0 <= v < g.n() && x.conflicts@[v] != 0 && #[trigger] has_free_color(
                    *g,
                    x.solution@,
                    v,
                    k,
                );
            assert(critical@.contains(v as usize));
            let j = choose|j: int| 0 <= j < critical@.len() && (#[trigger] critical@[j]) == v as usize;
            assert(false);
        }
    }
    x.duplicate()
}

/// A pollination strategy: one global (biotic) and one local (abiotic)
/// operator over candidate colorings.
pub trait Pollinator {
    /// Import a random set of positions from the frozen best candidate
    /// into a copy of `other`.
    fn global(rng: &mut Prng, g: &Graph, best: &Coloring, other: &Coloring, lambda_centi: u32) -> (
        r: Coloring)
        requires
            g.full(),
            other.wf(*g),
            best.solution@.len() == g.n(),
            1 <= g.n(),
            1 <= lambda_centi <= 100000,
        ensures
            r.wf(*g),
            r.index == other.index,
            forall|v: int|
                0 <= v < g.n() ==> (#[trigger] r.solution@[v]) == best.solution@[v]
                    || r.solution@[v] == other.solution@[v],
    ;

    /// Repair a copy of `x` using only its own state.
    fn local(rng: &mut Prng, g: &Graph, x: &Coloring, k: usize, lambda_centi: u32) -> (r: Coloring)
        requires
            g.full(),
            x.wf(*g),
            1 <= k < usize::MAX,
            1 <= g.n(),
            1 <= lambda_centi <= 100000,
        ensures
            r.wf(*g),
            r.index == x.index,
            forall|v: int|
                0 <= v < g.n() && (#[trigger] r.solution@[v]) != x.solution@[v] ==> 1
                    <= r.solution@[v] <= k,
    ;
}

/// Levy-sized local repair over the critical vertices in ascending order.
pub struct CM;

impl Pollinator for CM {
    fn global(rng: &mut Prng, g: &Graph, best: &Coloring, other: &Coloring, lambda_centi: u32) -> (
        r: Coloring) {
        levy_pop1(g, rng, best, other, lambda_centi)
    }

    fn local(rng: &mut Prng, g: &Graph, x: &Coloring, k: usize, lambda_centi: u32) -> (r:
        Coloring) {
        change_multiple(rng, g, x, k, lambda_centi)
    }
}

/// Levy-sized local repair over the lowest-conflict critical vertices.
pub struct CMB;

impl Pollinator for CMB {
    fn global(rng: &mut Prng, g: &Graph, best: &Coloring, other: &Coloring, lambda_centi: u32) -> (
        r: Coloring) {
        levy_pop1(g, rng, best, other, lambda_centi)
    }

    fn local(rng: &mut Prng, g: &Graph, x: &Coloring, k: usize, lambda_centi: u32) -> (r:
        Coloring) {
        change_multiple_best(rng, g, x, k, lambda_centi)
    }
}

/// Local repair of every critical vertex.
pub struct CA;

impl Pollinator for CA {
    fn global(rng: &mut Prng, g: &Graph, best: &Coloring, other: &Coloring, lambda_centi: u32) -> (
        r: Coloring) {
        levy_pop1(g, rng, best, other, lambda_centi)
    }

    fn local(rng: &mut Prng, g: &Graph, x: &Coloring, k: usize, lambda_centi: u32) -> (r:
        Coloring) {
        change_all_critical_opt(g, x, k)
    }
}

/// Levy-sized local repair over the highest-conflict critical vertices.
pub struct CMW;

impl Pollinator for CMW {
    fn global(rng: &mut Prng, g: &Graph, best: &Coloring, other: &Coloring, lambda_centi: u32) -> (
        r: Coloring) {
        levy_pop1(g, rng, best, other, lambda_centi)
    }

    fn local(rng: &mut Prng, g: &Graph, x: &Coloring, k: usize, lambda_centi: u32) -> (r:
        Coloring) {
        change_multiple_worst(rng, g, x, k, lambda_centi)
    }
}


} // verus!
