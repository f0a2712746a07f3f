//! The graph representation, the run parameters, and candidate colorings
//! with their incrementally maintained conflict bookkeeping.

use vstd::prelude::*;

verus! {

/// Immutable per-run configuration of the search.
///
/// All quantities are exact integers: the shape parameter of the
/// heavy-tailed step distribution is kept in hundredths
/// (`lambda_centi == 150` stands for 1.5), and the probability of choosing
/// global over local pollination is the ratio `switch_num / switch_den`.
#[derive(Clone, Copy)]
pub struct Parameters {
    pub lambda_centi: u32,
    pub switch_num: u32,
    pub switch_den: u32,
    pub lifetime_limit: usize,
}

impl Parameters {
    pub open spec fn wf(self) -> bool {
        &&& 1 <= self.lambda_centi <= 100000
        &&& 1 <= self.switch_den
        &&& self.switch_num <= self.switch_den
    }

    /// The standard configuration: lambda 1.5, switch probability 1/5,
    /// stagnation threshold 30 generations.
    pub fn standard() -> (p: Parameters)
        ensures
            p.wf(),
            p.lambda_centi == 150,
            p.switch_num == 1,
            p.switch_den == 5,
            p.lifetime_limit == 30,
    {
        Parameters { lambda_centi: 150, switch_num: 1, switch_den: 5, lifetime_limit: 30 }
    }
}

/// An immutable adjacency structure over the vertices `0 .. n`:
/// for each vertex, a deduplicated list of its neighbours.
pub struct Graph {
    pub content: Vec<Vec<usize>>,
}

impl Graph {
    /// Number of vertices.
    pub open spec fn n(self) -> nat {
        self.content@.len()
    }

    /// The neighbour list of vertex `v`.
    pub open spec fn nbrs(self, v: int) -> Seq<usize> {
        self.content@[v]@
    }

    /// Whether `v` occurs in `u`'s neighbour list.
    pub open spec fn edge(self, u: int, v: int) -> bool {
        self.nbrs(u).contains(v as usize)
    }

    /// Basic shape of the adjacency lists: entries are vertex ids, no
    /// self-loops, no duplicate entries, and the vertex count is small
    /// enough that a sum of per-vertex counts fits in `usize`.
    pub open spec fn wf(self) -> bool {
        &&& self.n() * self.n() + self.n() + 2 <= usize::MAX
        &&& forall|v: int|
            0 <= v < self.n() ==> (#[trigger] self.nbrs(v)).no_duplicates()
        &&& forall|v: int|
            0 <= v < self.n() ==> (#[trigger] self.nbrs(v)).len() <= self.n()
        &&& forall|v: int, j: int|
            0 <= v < self.n() && 0 <= j < self.nbrs(v).len() ==> (#[trigger] self.nbrs(
                v,
            )[j]) < self.n() && self.nbrs(v)[j] != v
    }

    /// Every recorded edge has its reverse recorded too (the standard,
    /// non-"simple" reading mode produces such graphs).
    pub open spec fn symmetric(self) -> bool {
        forall|u: int, j: int|
            0 <= u < self.n() && 0 <= j < self.nbrs(u).len() ==> (#[trigger] self.nbrs(
                self.nbrs(u)[j] as int,
            )).contains(u as usize)
    }

    /// A well-formed symmetric graph, as the conflict bookkeeping needs it.
    pub open spec fn full(self) -> bool {
        self.wf() && self.symmetric()
    }

    pub fn len(&self) -> (n: usize)
        ensures
            n == self.n(),
    {
        self.content.len()
    }

    /// The neighbour list of `v`.
    pub fn neighbors(&self, v: usize) -> (nb: &Vec<usize>)
        requires
            v < self.n(),
        ensures
            nb@ == self.nbrs(v as int),
    {
        &self.content[v]
    }

    /// The largest degree over all vertices.
    pub fn max_degree(&self) -> (d: usize)
        requires
            1 <= self.n(),
        ensures
            forall|v: int| 0 <= v < self.n() ==> (#[trigger] self.nbrs(v)).len() <= d,
            exists|v: int| 0 <= v < self.n() && (#[trigger] self.nbrs(v)).len() == d,
    {
        let mut d: usize = self.content[0].len();
        assert(self.nbrs(0).len() == d);
        let mut i: usize = 1;
        while i < self.content.len()
            invariant
                1 <= i <= self.n(),
                forall|v: int| 0 <= v < i ==> (#[trigger] self.nbrs(v)).len() <= d,
                exists|v: int| 0 <= v < i && (#[trigger] self.nbrs(v)).len() == d,
            decreases self.n() - i,
        {
            if self.content[i].len() > d {
                d = self.content[i].len();
                assert(self.nbrs(i as int).len() == d);
            }
            i += 1;
        }
        d
    }
}

/// How many entries of `nbrs` name a vertex whose colour in `sol` is `c`.
pub open spec fn count_matching(nbrs: Seq<usize>, sol: Seq<usize>, c: usize) -> int
    decreases nbrs.len(),
{
    if nbrs.len() == 0 {
        0
    } else {
        count_matching(nbrs.drop_last(), sol, c) + if sol[nbrs.last() as int] == c {
            1int
        } else {
            0int
        }
    }
}

/// The number of neighbours of `v` that share `v`'s colour under `sol`.
pub open spec fn conflicts_at(g: Graph, sol: Seq<usize>, v: int) -> int {
    count_matching(g.nbrs(v), sol, sol[v])
}

/// The sum of a sequence of counters.
pub open spec fn sum_of(s: Seq<usize>) -> int
    decreases s.len(),
{
    if s.len() == 0 {
        0
    } else {
        sum_of(s.drop_last()) + s.last()
    }
}

/// No edge joins two vertices of the same colour.
pub open spec fn proper(g: Graph, sol: Seq<usize>) -> bool {
    forall|v: int, j: int|
        0 <= v < g.n() && 0 <= j < g.nbrs(v).len() ==> sol[(#[trigger] g.nbrs(v)[j]) as int]
            != sol[v]
}

pub proof fn lemma_count_matching_bounds(nbrs: Seq<usize>, sol: Seq<usize>, c: usize)
    ensures
        0 <= count_matching(nbrs, sol, c) <= nbrs.len(),
    decreases nbrs.len(),
{
    if nbrs.len() > 0 {
        lemma_count_matching_bounds(nbrs.drop_last(), sol, c);
    }
}

/// Counting only looks at the listed positions: solutions that agree there
/// count alike.
pub proof fn lemma_count_matching_agree(
    nbrs: Seq<usize>,
    sol1: Seq<usize>,
    sol2: Seq<usize>,
    c: usize,
)
    requires
        forall|j: int|
            0 <= j < nbrs.len() ==> sol1[(#[trigger] nbrs[j]) as int] == sol2[nbrs[j] as int],
    ensures
        count_matching(nbrs, sol1, c) == count_matching(nbrs, sol2, c),
    decreases nbrs.len(),
{
    if nbrs.len() > 0 {
        assert(nbrs.last() == nbrs[nbrs.len() - 1]);
        lemma_count_matching_agree(nbrs.drop_last(), sol1, sol2, c);
    }
}

/// Changing the colour of one listed vertex `m` moves the count by exactly
/// the flip at `m`.
pub proof fn lemma_count_matching_flip(
    nbrs: Seq<usize>,
    sol1: Seq<usize>,
    sol2: Seq<usize>,
    m: usize,
    c: usize,
)
    requires
        nbrs.no_duplicates(),
        nbrs.contains(m),
        forall|j: int|
            0 <= j < nbrs.len() && nbrs[j] != m ==> sol1[(#[trigger] nbrs[j]) as int]
                == sol2[nbrs[j] as int],
    ensures
        count_matching(nbrs, sol2, c) == count_matching(nbrs, sol1, c) - (if sol1[m as int] == c {
            1int
        } else {
            0int
        }) + (if sol2[m as int] == c {
            1int
        } else {
            0int
        }),
    decreases nbrs.len(),
{
    let rest = nbrs.drop_last();
    assert(nbrs.last() == nbrs[nbrs.len() - 1]);
    if nbrs.last() == m {
        assert(!rest.contains(m)) by {
            if rest.contains(m) {
                let j = choose|j: int| 0 <= j < rest.len() && (#[trigger] rest[j]) == m;
                assert(nbrs[j] == m);
            }
        }
        assert forall|j: int| 0 <= j < rest.len() implies sol1[(#[trigger] rest[j]) as int]
            == sol2[rest[j] as int] by {
            assert(rest[j] == nbrs[j]);
            assert(nbrs[j] != m);
        }
        lemma_count_matching_agree(rest, sol1, sol2, c);
    } else {
        assert(rest.contains(m)) by {
            let j = choose|j: int| 0 <= j < nbrs.len() && (#[trigger] nbrs[j]) == m;
            assert(j < nbrs.len() - 1);
            assert(rest[j] == m);
        }
        lemma_count_matching_flip(rest, sol1, sol2, m, c);
    }
}

pub proof fn lemma_sum_nonneg(s: Seq<usize>)
    ensures
        0 <= sum_of(s),
    decreases s.len(),
{
    if s.len() > 0 {
        lemma_sum_nonneg(s.drop_last());
    }
}

pub proof fn lemma_sum_take_succ(s: Seq<usize>, p: int)
    requires
        0 <= p < s.len(),
    ensures
        sum_of(s.take(p + 1)) == sum_of(s.take(p)) + s[p],
{
    assert(s.take(p + 1).drop_last() =~= s.take(p));
    assert(s.take(p + 1).last() == s[p]);
}

pub proof fn lemma_sum_take_le(s: Seq<usize>, p: int)
    requires
        0 <= p <= s.len(),
    ensures
        sum_of(s.take(p)) <= sum_of(s),
    decreases s.len() - p,
{
    if p == s.len() {
        assert(s.take(p) =~= s);
    } else {
        lemma_sum_take_succ(s, p);
        lemma_sum_take_le(s, p + 1);
    }
}

/// A sequence of counters that are each at most `b` sums to at most
/// `len * b`.
pub proof fn lemma_sum_bounded(s: Seq<usize>, b: int)
    requires
        forall|v: int| 0 <= v < s.len() ==> #[trigger] s[v] <= b,
    ensures
        sum_of(s) <= s.len() * b,
    decreases s.len(),
{
    if s.len() > 0 {
        lemma_sum_bounded(s.drop_last(), b);
        assert(s.last() == s[s.len() - 1]);
        assert((s.len() - 1) * b + b == s.len() * b) by (nonlinear_arith);
    }
}

/// Updating one entry moves the sum by the difference at that entry.
pub proof fn lemma_sum_update(s: Seq<usize>, i: int, v: usize)
    requires
        0 <= i < s.len(),
    ensures
        sum_of(s.update(i, v)) == sum_of(s) - s[i] + v,
    decreases s.len(),
{
    let t = s.update(i, v);
    if i == s.len() - 1 {
        assert(t.drop_last() =~= s.drop_last());
    } else {
        assert(t.drop_last() =~= s.drop_last().update(i, v));
        assert(t.last() == s.last());
        lemma_sum_update(s.drop_last(), i, v);
    }
}

/// One candidate solution: a colour per vertex, the per-vertex conflict
/// counts, their edge total, the stagnation age, and the slot identity.
#[derive(Debug)]
pub struct Coloring {
    pub index: usize,
    pub solution: Vec<usize>,
    pub conflicts: Vec<usize>,
    pub tot_conflicts: usize,
    pub lifetime: usize,
}

impl Coloring {
    /// The conflict bookkeeping is faithful: every per-vertex count equals
    /// the count recomputed from scratch, and the total is half the sum.
    pub open spec fn wf(self, g: Graph) -> bool {
        &&& g.wf()
        &&& self.solution@.len() == g.n()
        &&& self.conflicts@.len() == g.n()
        &&& forall|v: int|
            0 <= v < g.n() ==> (#[trigger] self.conflicts@[v]) as int == conflicts_at(
                g,
                self.solution@,
                v,
            )
        &&& self.tot_conflicts == sum_of(self.conflicts@) / 2
    }

    /// All colours lie in `1 ..= k`.
    pub open spec fn colors_in(self, k: usize) -> bool {
        forall|v: int| 0 <= v < self.solution@.len() ==> 1 <= (#[trigger] self.solution@[v]) <= k
    }

    /// An exact copy (the verified counterpart of cloning).
    pub fn duplicate(&self) -> (c: Coloring)
        ensures
            c.index == self.index,
            c.solution@ == self.solution@,
            c.conflicts@ == self.conflicts@,
            c.tot_conflicts == self.tot_conflicts,
            c.lifetime == self.lifetime,
    {
        let solution = copy_vec(&self.solution);
        let conflicts = copy_vec(&self.conflicts);
        Coloring {
            index: self.index,
            solution,
            conflicts,
            tot_conflicts: self.tot_conflicts,
            lifetime: self.lifetime,
        }
    }

    /// Initialize a coloring from a given solution vector; the conflict
    /// counts are computed from scratch.
    pub fn from_vec(index: usize, solution: Vec<usize>, g: &Graph) -> (c: Coloring)
        requires
            g.wf(),
            solution@.len() == g.n(),
        ensures
            c.wf(*g),
            c.solution@ == solution@,
            c.index == index,
            c.lifetime == 0,
    {
        let conflicts = compute_conflicts(g, &solution);
        proof {
            lemma_conflict_vec_bounded(*g, solution@, conflicts@);
        }
        let tot_conflicts = sum_counters(&conflicts) / 2;
        Coloring { index, solution, conflicts, tot_conflicts, lifetime: 0 }
    }

    /// An all-zero solution of length `n` ("uncoloured" everywhere).
    pub fn empty(index: usize, n: usize) -> (c: Coloring)
        ensures
            c.index == index,
            c.solution@.len() == n,
            c.conflicts@.len() == n,
            forall|v: int| 0 <= v < n ==> (#[trigger] c.solution@[v]) == 0,
            forall|v: int| 0 <= v < n ==> (#[trigger] c.conflicts@[v]) == 0,
            c.tot_conflicts == 0,
            c.lifetime == 0,
    {
        Coloring {
            index,
            solution: zero_vec(n),
            conflicts: zero_vec(n),
            tot_conflicts: 0,
            lifetime: 0,
        }
    }

    /// The length of the coloring.
    pub fn len(&self) -> (n: usize)
        ensures
            n == self.solution@.len(),
    {
        self.solution.len()
    }

    /// Re-calculate the total number of conflicting edges as half the sum
    /// of the per-vertex counts.
    pub fn refresh_tot_conflicts(&mut self)
        requires
            sum_of(old(self).conflicts@) <= usize::MAX,
        ensures
            *final(self) == (Coloring {
                tot_conflicts: (sum_of(old(self).conflicts@) / 2) as usize,
                ..*old(self)
            }),
    {
        self.tot_conflicts = sum_counters(&self.conflicts) / 2;
    }
}

/// When exactly one vertex `m` changed colour, a neighbour `u` of `m`
/// gains or loses exactly the flip at `m`.
pub proof fn lemma_neighbor_delta(
    g: Graph,
    prev_sol: Seq<usize>,
    cur: Seq<usize>,
    m: usize,
    u: usize,
)
    requires
        g.wf(),
        prev_sol.len() == g.n(),
        cur.len() == g.n(),
        m < g.n(),
        u < g.n(),
        u != m,
        g.nbrs(u as int).contains(m),
        forall|v: int| 0 <= v < g.n() && v != m ==> cur[v] == prev_sol[v],
    ensures
        conflicts_at(g, cur, u as int) == conflicts_at(g, prev_sol, u as int) - (if prev_sol[m as int]
            == prev_sol[u as int] {
            1int
        } else {
            0int
        }) + (if cur[m as int] == cur[u as int] {
            1int
        } else {
            0int
        }),
        0 <= conflicts_at(g, cur, u as int) <= g.nbrs(u as int).len(),
        0 <= conflicts_at(g, prev_sol, u as int) <= g.nbrs(u as int).len(),
{
    assert(cur[u as int] == prev_sol[u as int]);
    lemma_count_matching_flip(g.nbrs(u as int), prev_sol, cur, m, prev_sol[u as int]);
    lemma_count_matching_bounds(g.nbrs(u as int), prev_sol, prev_sol[u as int]);
    lemma_count_matching_bounds(g.nbrs(u as int), cur, cur[u as int]);
}

/// When only `m` changed colour, a vertex that is not adjacent to `m`
/// keeps its conflict count.
pub proof fn lemma_nonneighbor_same(
    g: Graph,
    prev_sol: Seq<usize>,
    cur: Seq<usize>,
    m: usize,
    u: usize,
)
    requires
        g.wf(),
        g.symmetric(),
        prev_sol.len() == g.n(),
        cur.len() == g.n(),
        m < g.n(),
        u < g.n(),
        u != m,
        !g.nbrs(m as int).contains(u),
        forall|v: int| 0 <= v < g.n() && v != m ==> cur[v] == prev_sol[v],
    ensures
        conflicts_at(g, cur, u as int) == conflicts_at(g, prev_sol, u as int),
{
    assert(!g.nbrs(u as int).contains(m)) by {
        if g.nbrs(u as int).contains(m) {
            let j = choose|j: int|
                0 <= j < g.nbrs(u as int).len() && g.nbrs(u as int)[j] == m;
            assert(g.nbrs(g.nbrs(u as int)[j] as int).contains(u));
        }
    }
    assert forall|j: int| 0 <= j < g.nbrs(u as int).len() implies prev_sol[(#[trigger] g.nbrs(
        u as int,
    )[j]) as int] == cur[g.nbrs(u as int)[j] as int] by {
        assert(g.nbrs(u as int)[j] != m);
    }
    lemma_count_matching_agree(g.nbrs(u as int), prev_sol, cur, prev_sol[u as int]);
    assert(cur[u as int] == prev_sol[u as int]);
}

impl Coloring {
    /// Efficiently update the conflict counts after the colour of the single
    /// vertex `modified_index` changed relative to the snapshot `prev`:
    /// the changed vertex is recounted from scratch against its neighbours,
    /// each neighbour is adjusted by the flip at the changed vertex, and the
    /// total is refreshed.  The result is exactly the bookkeeping a full
    /// recomputation would give.
    pub fn update_conflicts(&mut self, modified_index: usize, prev: &Coloring, g: &Graph)
        requires
            prev.wf(*g),
            g.symmetric(),
            modified_index < g.n(),
            old(self).solution@.len() == g.n(),
            old(self).conflicts@.len() == g.n(),
            forall|v: int|
                0 <= v < g.n() && v != modified_index ==> old(self).solution@[v]
                    == prev.solution@[v],
            forall|v: int| 0 <= v < g.n() ==> old(self).conflicts@[v] == prev.conflicts@[v],
        ensures
            final(self).wf(*g),
            final(self).solution@ == old(self).solution@,
            final(self).index == old(self).index,
            final(self).lifetime == old(self).lifetime,
    {
        let m = modified_index;
        let ghost cur = self.solution@;
        let ghost prev_sol = prev.solution@;
        self.conflicts[m] = 0;
        let nb = g.neighbors(m);
        let mut p: usize = 0;
        while p < nb.len()
            invariant
                g.wf(),
                g.symmetric(),
                prev.wf(*g),
                m < g.n(),
                nb@ == g.nbrs(m as int),
                p <= nb@.len(),
                cur == self.solution@,
                prev_sol == prev.solution@,
                self.solution@.len() == g.n(),
                self.conflicts@.len() == g.n(),
                self.index == old(self).index,
                self.lifetime == old(self).lifetime,
                forall|v: int| 0 <= v < g.n() && v != m ==> cur[v] == prev_sol[v],
                self.conflicts@[m as int] as int == count_matching(
                    g.nbrs(m as int).take(p as int),
                    cur,
                    cur[m as int],
                ),
                forall|v: int|
                    0 <= v < g.n() && v != m && g.nbrs(m as int).take(p as int).contains(
                        v as usize,
                    ) ==> (#[trigger] self.conflicts@[v]) as int == conflicts_at(*g, cur, v),
                forall|v: int|
                    0 <= v < g.n() && v != m && !g.nbrs(m as int).take(p as int).contains(
                        v as usize,
                    ) ==> (#[trigger] self.conflicts@[v]) == prev.conflicts@[v],
            decreases nb@.len() - p,
        {
            let u = nb[p];
            proof {
                assert(g.nbrs(m as int)[p as int] == u);
                assert(u < g.n() && u != m);
                assert(g.nbrs(g.nbrs(m as int)[p as int] as int).contains(m));
                assert(!g.nbrs(m as int).take(p as int).contains(u)) by {
                    if g.nbrs(m as int).take(p as int).contains(u) {
                        let j = choose|j: int|
                            0 <= j < p && g.nbrs(m as int).take(p as int)[j] == u;
                        assert(g.nbrs(m as int)[j] == g.nbrs(m as int)[p as int]);
                    }
                }
                assert(g.nbrs(m as int).take(p + 1).drop_last() =~= g.nbrs(m as int).take(
                    p as int,
                ));
                assert(g.nbrs(m as int).take(p + 1).last() == u);
                lemma_neighbor_delta(*g, prev_sol, cur, m, u);
                lemma_count_matching_bounds(g.nbrs(m as int).take(p + 1), cur, cur[m as int]);
                lemma_count_matching_bounds(g.nbrs(m as int).take(p as int), cur, cur[m as int]);
            }
            if self.solution[u] == self.solution[m] {
                let t = self.conflicts[m];
                self.conflicts[m] = t + 1;
                if prev.solution[u] != prev.solution[m] {
                    let t2 = self.conflicts[u];
                    self.conflicts[u] = t2 + 1;
                }
            } else if prev.solution[u] == prev.solution[m] {
                let t2 = self.conflicts[u];
                self.conflicts[u] = t2 - 1;
            }
            p += 1;
            proof {
                assert forall|v: int|
                    0 <= v < g.n() && v != m && g.nbrs(m as int).take(p as int).contains(
                        v as usize,
                    ) && v != u implies (#[trigger] self.conflicts@[v]) as int == conflicts_at(
                    *g,
                    cur,
                    v,
                ) by {
                    assert(g.nbrs(m as int).take(p as int) =~= g.nbrs(m as int).take(
                        p - 1,
                    ).push(u));
                    assert(g.nbrs(m as int).take(p - 1).contains(v as usize));
                }
            }
        }
        proof {
            assert(g.nbrs(m as int).take(nb@.len() as int) =~= g.nbrs(m as int));
            assert forall|v: int| 0 <= v < g.n() implies (#[trigger] self.conflicts@[v]) as int
                == conflicts_at(*g, cur, v) by {
                if v == m {
                } else if g.nbrs(m as int).contains(v as usize) {
                } else {
                    lemma_nonneighbor_same(*g, prev_sol, cur, m, v as usize);
                }
            }
            lemma_conflict_vec_bounded(*g, cur, self.conflicts@);
        }
        let ghost pre_cf = self.conflicts@;
        self.refresh_tot_conflicts();
        proof {
            assert(self.conflicts@ == pre_cf);
            assert(self.solution@ == cur);
            lemma_sum_nonneg(pre_cf);
            assert(sum_of(pre_cf) <= usize::MAX);
            assert forall|v: int| 0 <= v < g.n() implies (#[trigger] self.conflicts@[v]) as int
                == conflicts_at(*g, self.solution@, v) by {
                assert(pre_cf[v] as int == conflicts_at(*g, cur, v));
            }
        }
    }
}

/// The snapshot solution with the first `t` changed positions already
/// rewritten to their new colours.
pub open spec fn merged(prev: Seq<usize>, cur: Seq<usize>, indices: Seq<usize>, t: int) -> Seq<
    usize,
> {
    Seq::new(
        prev.len(),
        |v: int|
            if indices.take(t).contains(v as usize) {
                cur[v]
            } else {
                prev[v]
            },
    )
}

/// Membership in the changed set, as a by-vertex lookup table.
fn build_mask(n: usize, indices: &Vec<usize>) -> (mask: Vec<bool>)
    requires
        forall|j: int| 0 <= j < indices@.len() ==> (#[trigger] indices@[j]) < n,
    ensures
        mask@.len() == n,
        forall|v: int| 0 <= v < n ==> (#[trigger] mask@[v]) == indices@.contains(v as usize),
{
    let mut mask: Vec<bool> = Vec::new();
    let mut i: usize = 0;
    while i < n
        invariant
            i <= n,
            mask@.len() == i,
            forall|v: int| 0 <= v < i ==> (#[trigger] mask@[v]) == false,
        decreases n - i,
    {
        mask.push(false);
        i += 1;
    }
    let mut j: usize = 0;
    while j < indices.len()
        invariant
            j <= indices@.len(),
            mask@.len() == n,
            forall|jj: int| 0 <= jj < indices@.len() ==> (#[trigger] indices@[jj]) < n,
            forall|v: int|
                0 <= v < n ==> (#[trigger] mask@[v]) == indices@.take(j as int).contains(
                    v as usize,
                ),
        decreases indices@.len() - j,
    {
        let x = indices[j];
        mask[x] = true;
        proof {
            assert(indices@.take(j + 1) =~= indices@.take(j as int).push(indices@[j as int]));
            assert forall|v: int| 0 <= v < n implies (#[trigger] mask@[v]) == indices@.take(
                j + 1,
            ).contains(v as usize) by {
                if v == x {
                    assert(indices@.take(j + 1).last() == x);
                    assert(indices@.take(j + 1).contains(x));
                } else {
                    assert(indices@.take(j + 1).contains(v as usize) == indices@.take(
                        j as int,
                    ).contains(v as usize)) by {
                        if indices@.take(j + 1).contains(v as usize) {
                            let q = choose|q: int|
                                0 <= q < j + 1 && (#[trigger] indices@.take(j + 1)[q]) == v as usize;
                            assert(q < j);
                            assert(indices@.take(j as int)[q] == v as usize);
                        } else if indices@.take(j as int).contains(v as usize) {
                            let q = choose|q: int|
                                0 <= q < j && (#[trigger] indices@.take(j as int)[q]) == v as usize;
                            assert(indices@.take(j + 1)[q] == v as usize);
                        }
                    }
                }
            }
        }
        j += 1;
    }
    proof {
        assert(indices@.take(indices@.len() as int) =~= indices@);
    }
    mask
}

impl Coloring {
    /// Update the conflict counts after several vertices changed colour at
    /// once relative to the snapshot `prev` (the changed vertices are listed
    /// in `indices`, without repetition): each changed vertex is recounted
    /// from scratch against its neighbours' current colours, each unchanged
    /// neighbour is adjusted by the flips next to it, and the total is
    /// refreshed.  The result is exactly the bookkeeping a full
    /// recomputation would give, also when changed vertices are mutually
    /// adjacent.
    #[verifier::loop_isolation(false)]
    pub fn update_multiple_conflicts(&mut self, indices: &Vec<usize>, prev: &Coloring, g: &Graph)
        requires
            prev.wf(*g),
            g.symmetric(),
            indices@.no_duplicates(),
            forall|j: int| 0 <= j < indices@.len() ==> (#[trigger] indices@[j]) < g.n(),
            old(self).solution@.len() == g.n(),
            old(self).conflicts@.len() == g.n(),
            forall|v: int|
                0 <= v < g.n() && !indices@.contains(v as usize) ==> old(self).solution@[v]
                    == prev.solution@[v],
            forall|v: int| 0 <= v < g.n() ==> old(self).conflicts@[v] == prev.conflicts@[v],
        ensures
            final(self).wf(*g),
            final(self).solution@ == old(self).solution@,
            final(self).index == old(self).index,
            final(self).lifetime == old(self).lifetime,
    {
        let ghost cur = self.solution@;
        let ghost prev_sol = prev.solution@;
        let ghost idx = indices@;
        let mask = build_mask(g.len(), indices);
        proof {
            assert(merged(prev_sol, cur, idx, 0) =~= prev_sol);
            assert forall|v: int| 0 <= v < g.n() && !idx.contains(v as usize) implies (
            #[trigger] self.conflicts@[v]) as int == conflicts_at(
                *g,
                merged(prev_sol, cur, idx, 0),
                v,
            ) by {
                assert(self.conflicts@[v] == prev.conflicts@[v]);
                assert(prev.conflicts@[v] as int == conflicts_at(*g, prev_sol, v));
            }
        }
        let mut t: usize = 0;
        while t < indices.len()
            invariant
                cur == self.solution@,
                self.conflicts@.len() == g.n(),
                self.index == old(self).index,
                self.lifetime == old(self).lifetime,
                t <= idx.len(),
                forall|j: int|
                    0 <= j < t ==> self.conflicts@[(#[trigger] idx[j]) as int] as int
                        == conflicts_at(*g, cur, idx[j] as int),
                forall|j: int|
                    t <= j < idx.len() ==> self.conflicts@[(#[trigger] idx[j]) as int]
                        == prev.conflicts@[idx[j] as int],
                forall|v: int|
                    0 <= v < g.n() && !idx.contains(v as usize) ==> (
                    #[trigger] self.conflicts@[v]) as int == conflicts_at(
                        *g,
                        merged(prev_sol, cur, idx, t as int),
                        v,
                    ),
            decreases idx.len() - t,
        {
            let i = indices[t];
            let nb = g.neighbors(i);
            let ghost mt = merged(prev_sol, cur, idx, t as int);
            let ghost mt1 = merged(prev_sol, cur, idx, t + 1);
            proof {
                assert(idx.take(t + 1) =~= idx.take(t as int).push(idx[t as int]));
                assert(!idx.take(t as int).contains(i)) by {
                    if idx.take(t as int).contains(i) {
                        let q = choose|q: int| 0 <= q < t && (#[trigger] idx.take(t as int)[q]) == i;
                        assert(idx[q] == idx[t as int]);
                    }
                }
                assert(idx.take(t + 1).contains(i)) by {
                    assert(idx.take(t + 1).last() == i);
                }
                // positions other than `i` keep their colour between the two
                // merged snapshots
                assert forall|v: int| 0 <= v < g.n() && v != i implies mt1[v] == mt[v] by {
                    if idx.take(t + 1).contains(v as usize) {
                        let q = choose|q: int|
                            0 <= q < t + 1 && (#[trigger] idx.take(t + 1)[q]) == v as usize;
                        assert(q < t);
                        assert(idx.take(t as int)[q] == v as usize);
                        assert(idx.take(t as int).contains(v as usize));
                    } else {
                        assert(!idx.take(t as int).contains(v as usize)) by {
                            if idx.take(t as int).contains(v as usize) {
                                let q = choose|q: int|
                                    0 <= q < t && (#[trigger] idx.take(t as int)[q]) == v as usize;
                                assert(idx.take(t + 1)[q] == v as usize);
                            }
                        }
                    }
                }
                assert(mt[i as int] == prev_sol[i as int]);
                assert(mt1[i as int] == cur[i as int]);
                // unchanged vertices show the same colour in every snapshot
                assert forall|v: int| 0 <= v < g.n() && !idx.contains(v as usize) implies mt[v]
                    == prev_sol[v] && mt1[v] == prev_sol[v] && cur[v] == prev_sol[v] by {
                    if idx.take(t as int).contains(v as usize) {
                        let q = choose|q: int| 0 <= q < t && (#[trigger] idx.take(t as int)[q]) == v as usize;
                        assert(idx[q] == v as usize);
                    }
                    if idx.take(t + 1).contains(v as usize) {
                        let q = choose|q: int|
                            0 <= q < t + 1 && (#[trigger] idx.take(t + 1)[q]) == v as usize;
                        assert(idx[q] == v as usize);
                    }
                }
            }
            let mut cnt: usize = 0;
            let mut p: usize = 0;
            while p < nb.len()
                invariant
                    cur == self.solution@,
                    self.conflicts@.len() == g.n(),
                    self.index == old(self).index,
                    self.lifetime == old(self).lifetime,
                    p <= nb@.len(),
                    cnt <= p,
                    cnt as int == count_matching(nb@.take(p as int), cur, cur[i as int]),
                    forall|j: int|
                        0 <= j < t ==> self.conflicts@[(#[trigger] idx[j]) as int] as int
                            == conflicts_at(*g, cur, idx[j] as int),
                    forall|j: int|
                        t <= j < idx.len() ==> self.conflicts@[(#[trigger] idx[j]) as int]
                            == prev.conflicts@[idx[j] as int],
                    forall|v: int|
                        0 <= v < g.n() && !idx.contains(v as usize) && nb@.take(
                            p as int,
                        ).contains(v as usize) ==> (#[trigger] self.conflicts@[v]) as int
                            == conflicts_at(*g, mt1, v),
                    forall|v: int|
                        0 <= v < g.n() && !idx.contains(v as usize) && !nb@.take(
                            p as int,
                        ).contains(v as usize) ==> (#[trigger] self.conflicts@[v]) as int
                            == conflicts_at(*g, mt, v),
                decreases nb@.len() - p,
            {
                let u = nb[p];
                proof {
                    assert(g.nbrs(i as int)[p as int] == u);
                    assert(u < g.n() && u != i);
                    assert(g.nbrs(g.nbrs(i as int)[p as int] as int).contains(i));
                    assert(!g.nbrs(i as int).take(p as int).contains(u)) by {
                        if g.nbrs(i as int).take(p as int).contains(u) {
                            let q = choose|q: int|
                                0 <= q < p && (#[trigger] g.nbrs(i as int).take(p as int)[q]) == u;
                            assert(g.nbrs(i as int)[q] == g.nbrs(i as int)[p as int]);
                        }
                    }
                    assert(nb@.take(p + 1).drop_last() =~= nb@.take(p as int));
                    assert(nb@.take(p + 1).last() == u);
                    lemma_count_matching_bounds(nb@.take(p + 1), cur, cur[i as int]);
                    lemma_count_matching_bounds(nb@.take(p as int), cur, cur[i as int]);
                    if !idx.contains(u) {
                        lemma_neighbor_delta(*g, mt, mt1, i, u);
                        assert(mt1[u as int] == cur[u as int] && mt[u as int] == prev_sol[
                            u as int
                        ]);
                        assert(mt1[i as int] == cur[i as int] && mt[i as int] == prev_sol[
                            i as int
                        ]);
                    }
                }
                if self.solution[u] == self.solution[i] {
                    cnt += 1;
                    if !mask[u] && prev.solution[u] != prev.solution[i] {
                        let t2 = self.conflicts[u];
                        self.conflicts[u] = t2 + 1;
                    }
                } else if !mask[u] && prev.solution[u] == prev.solution[i] {
                    let t2 = self.conflicts[u];
                    self.conflicts[u] = t2 - 1;
                }
                p += 1;
                proof {
                    assert forall|v: int|
                        0 <= v < g.n() && !idx.contains(v as usize) && nb@.take(
                            p as int,
                        ).contains(v as usize) && v != u implies (
                    #[trigger] self.conflicts@[v]) as int == conflicts_at(*g, mt1, v) by {
                        assert(nb@.take(p as int) =~= nb@.take(p - 1).push(nb@[p - 1]));
                        assert(nb@.take(p - 1).contains(v as usize));
                    }
                }
            }
            self.conflicts[i] = cnt;
            t += 1;
            proof {
                assert(nb@.take(nb@.len() as int) =~= nb@);
                assert(cnt as int == conflicts_at(*g, cur, i as int));
                // vertices outside the changed set that are not adjacent to
                // `i` carry over from one merged snapshot to the next
                assert forall|v: int|
                    0 <= v < g.n() && !idx.contains(v as usize) implies (
                #[trigger] self.conflicts@[v]) as int == conflicts_at(*g, mt1, v) by {
                    if !nb@.contains(v as usize) {
                        lemma_nonneighbor_same(*g, mt, mt1, i, v as usize);
                    }
                }
                assert forall|j: int|
                    0 <= j < t implies self.conflicts@[(#[trigger] idx[j]) as int] as int
                    == conflicts_at(*g, cur, idx[j] as int) by {
                    if j < t - 1 {
                        assert(idx[j] != idx[t - 1]);
                    }
                }
                assert forall|j: int|
                    t <= j < idx.len() implies self.conflicts@[(#[trigger] idx[j]) as int]
                    == prev.conflicts@[idx[j] as int] by {
                    assert(idx[j] != idx[t - 1]);
                }
            }
        }
        proof {
            let ghost mfull = merged(prev_sol, cur, idx, idx.len() as int);
            assert(idx.take(idx.len() as int) =~= idx);
            assert(mfull =~= cur);
            assert forall|v: int| 0 <= v < g.n() implies (#[trigger] self.conflicts@[v]) as int
                == conflicts_at(*g, cur, v) by {
                if idx.contains(v as usize) {
                    let j = choose|j: int| 0 <= j < idx.len() && (#[trigger] idx[j]) == v as usize;
                    assert(self.conflicts@[(idx[j]) as int] as int == conflicts_at(
                        *g,
                        cur,
                        idx[j] as int,
                    ));
                }
            }
            lemma_conflict_vec_bounded(*g, cur, self.conflicts@);
        }
        let ghost pre_cf = self.conflicts@;
        self.refresh_tot_conflicts();
        proof {
            assert(self.conflicts@ == pre_cf);
            assert(self.solution@ == cur);
            lemma_sum_nonneg(pre_cf);
            assert(sum_of(pre_cf) <= usize::MAX);
            assert forall|v: int| 0 <= v < g.n() implies (#[trigger] self.conflicts@[v]) as int
                == conflicts_at(*g, self.solution@, v) by {
                assert(pre_cf[v] as int == conflicts_at(*g, cur, v));
            }
        }
    }
}

/// A fresh all-zero vector of the given length.
fn zero_vec(n: usize) -> (v: Vec<usize>)
    ensures
        v@.len() == n,
        forall|i: int| 0 <= i < n ==> (#[trigger] v@[i]) == 0,
{
    let mut v: Vec<usize> = Vec::new();
    let mut i: usize = 0;
    while i < n
        invariant
            i <= n,
            v@.len() == i,
            forall|j: int| 0 <= j < i ==> (#[trigger] v@[j]) == 0,
        decreases n - i,
    {
        v.push(0);
        i += 1;
    }
    v
}

/// An element-wise copy.
fn copy_vec(src: &Vec<usize>) -> (v: Vec<usize>)
    ensures
        v@ == src@,
{
    let mut v: Vec<usize> = Vec::new();
    let mut i: usize = 0;
    while i < src.len()
        invariant
            i <= src@.len(),
            v@ == src@.take(i as int),
        decreases src@.len() - i,
    {
        v.push(src[i]);
        assert(v@ =~= src@.take(i + 1));
        i += 1;
    }
    assert(v@ =~= src@);
    v
}

/// How many of the listed vertices have colour `c` under `sol`.
pub fn count_matching_exec(nbrs: &Vec<usize>, sol: &Vec<usize>, c: usize) -> (cnt: usize)
    requires
        forall|j: int| 0 <= j < nbrs@.len() ==> (#[trigger] nbrs@[j]) < sol@.len(),
    ensures
        cnt as int == count_matching(nbrs@, sol@, c),
{
    let mut cnt: usize = 0;
    let mut p: usize = 0;
    while p < nbrs.len()
        invariant
            p <= nbrs@.len(),
            cnt <= p,
            forall|j: int| 0 <= j < nbrs@.len() ==> (#[trigger] nbrs@[j]) < sol@.len(),
            cnt as int == count_matching(nbrs@.take(p as int), sol@, c),
        decreases nbrs@.len() - p,
    {
        proof {
            assert(nbrs@.take(p + 1).drop_last() =~= nbrs@.take(p as int));
            assert(nbrs@.take(p + 1).last() == nbrs@[p as int]);
        }
        if sol[nbrs[p]] == c {
            cnt += 1;
        }
        p += 1;
    }
    assert(nbrs@.take(nbrs@.len() as int) =~= nbrs@);
    cnt
}

/// The from-scratch conflict counts of a whole solution.
pub fn compute_conflicts(g: &Graph, solution: &Vec<usize>) -> (cf: Vec<usize>)
    requires
        g.wf(),
        solution@.len() == g.n(),
    ensures
        cf@.len() == g.n(),
        forall|v: int| 0 <= v < g.n() ==> (#[trigger] cf@[v]) as int == conflicts_at(
            *g,
            solution@,
            v,
        ),
{
    let n = g.len();
    let mut cf: Vec<usize> = Vec::new();
    let mut from: usize = 0;
    while from < n
        invariant
            from <= g.n(),
            g.wf(),
            solution@.len() == g.n(),
            n == g.n(),
            cf@.len() == from,
            forall|v: int| 0 <= v < from ==> (#[trigger] cf@[v]) as int == conflicts_at(
                *g,
                solution@,
                v,
            ),
        decreases g.n() - from,
    {
        let nb = g.neighbors(from);
        let cnt = count_matching_exec(nb, solution, solution[from]);
        cf.push(cnt);
        from += 1;
    }
    cf
}

/// Conflict counts recomputed from scratch are bounded by the degree, so
/// their sum fits comfortably below `usize::MAX` on a well-formed graph.
pub proof fn lemma_conflict_vec_bounded(g: Graph, sol: Seq<usize>, cf: Seq<usize>)
    requires
        g.wf(),
        cf.len() == g.n(),
        forall|v: int| 0 <= v < g.n() ==> (#[trigger] cf[v]) as int == conflicts_at(g, sol, v),
    ensures
        sum_of(cf) <= g.n() * g.n() <= usize::MAX,
{
    assert forall|v: int| 0 <= v < cf.len() implies #[trigger] cf[v] <= g.n() by {
        lemma_count_matching_bounds(g.nbrs(v), sol, sol[v]);
    }
    lemma_sum_bounded(cf, g.n() as int);
}

/// The exact sum of a vector of counters.
pub fn sum_counters(cf: &Vec<usize>) -> (s: usize)
    requires
        sum_of(cf@) <= usize::MAX,
    ensures
        s as int == sum_of(cf@),
{
    let mut s: usize = 0;
    let mut p: usize = 0;
    while p < cf.len()
        invariant
            p <= cf@.len(),
            sum_of(cf@) <= usize::MAX,
            s as int == sum_of(cf@.take(p as int)),
        decreases cf@.len() - p,
    {
        proof {
            lemma_sum_take_succ(cf@, p as int);
            lemma_sum_take_le(cf@, p + 1);
        }
        s += cf[p];
        p += 1;
    }
    assert(cf@.take(cf@.len() as int) =~= cf@);
    s
}

/// A duplicate-free sequence of values drawn from `lo .. hi` has at most
/// `hi - lo` entries.
pub proof fn lemma_nodup_range_len(s: Seq<usize>, lo: usize, hi: usize)
    requires
        lo <= hi,
        s.no_duplicates(),
        forall|j: int| 0 <= j < s.len() ==> lo <= (#[trigger] s[j]) < hi,
    ensures
        s.len() <= hi - lo,
{
    s.unique_seq_to_set();
    lemma_distinct_bounded(s, lo, hi);
}

/// The set of values of a sequence that lie in `lo .. hi` has at most
/// `hi - lo` members.
pub proof fn lemma_distinct_bounded(s: Seq<usize>, lo: usize, hi: usize)
    requires
        lo <= hi,
        forall|j: int| 0 <= j < s.len() ==> lo <= (#[trigger] s[j]) < hi,
    ensures
        s.to_set().len() <= hi - lo,
{
    broadcast use vstd::seq_lib::seq_to_set_is_finite;

    let r = Set::<usize>::range(lo, hi);
    vstd::set_lib::range_set_properties::<usize>(lo, hi);
    assert forall|x: usize| s.to_set().contains(x) implies r.contains(x) by {
        let j = choose|j: int| 0 <= j < s.len() && (#[trigger] s[j]) == x;
    }
    assert(s.to_set() <= r);
    vstd::set_lib::lemma_len_subset(s.to_set(), r);
}

impl Coloring {
    /// The number of distinct colours currently in use.
    pub fn get_k(&self) -> (k: usize)
        ensures
            k == self.solution@.to_set().len(),
    {
        crate::trusted::distinct_count(&self.solution)
    }

    /// Generate a fresh coloring with `n` colours drawn uniformly from
    /// `1 ..= k` by the thread-local generator; the conflict counts are
    /// computed from scratch.
    pub fn new(index: usize, g: &Graph, k: usize, rng: &mut rand::rngs::ThreadRng) -> (c:
        Coloring)
        requires
            g.wf(),
            1 <= k,
        ensures
            c.wf(*g),
            c.index == index,
            c.lifetime == 0,
            c.colors_in(k),
    {
        let n = g.len();
        let mut solution: Vec<usize> = Vec::new();
        let mut i: usize = 0;
        while i < n
            invariant
                i <= n,
                1 <= k,
                solution@.len() == i,
                forall|v: int| 0 <= v < i ==> 1 <= (#[trigger] solution@[v]) <= k,
            decreases n - i,
        {
            let col = crate::trusted::rand_color(rng, k);
            solution.push(col);
            i += 1;
        }
        Coloring::from_vec(index, solution, g)
    }
}

impl Graph {
    /// Initialize a population of `n` fresh random colorings with colours
    /// in `1 ..= k`, the slot number of each recorded as its identity.
    pub fn populate(&self, n: usize, k: usize) -> (pop: Vec<Coloring>)
        requires
            self.wf(),
            1 <= k,
        ensures
            pop@.len() == n,
            forall|i: int| 0 <= i < n ==> (#[trigger] pop@[i]).wf(*self),
            forall|i: int| 0 <= i < n ==> (#[trigger] pop@[i]).index == i,
            forall|i: int| 0 <= i < n ==> (#[trigger] pop@[i]).colors_in(k),
            forall|i: int| 0 <= i < n ==> (#[trigger] pop@[i]).lifetime == 0,
    {
        let mut rng = crate::trusted::fresh_rng();
        let mut pop: Vec<Coloring> = Vec::new();
        let mut i: usize = 0;
        while i < n
            invariant
                i <= n,
                self.wf(),
                1 <= k,
                pop@.len() == i,
                forall|j: int| 0 <= j < i ==> (#[trigger] pop@[j]).wf(*self),
                forall|j: int| 0 <= j < i ==> (#[trigger] pop@[j]).index == j,
                forall|j: int| 0 <= j < i ==> (#[trigger] pop@[j]).colors_in(k),
                forall|j: int| 0 <= j < i ==> (#[trigger] pop@[j]).lifetime == 0,
            decreases n - i,
        {
            let c = Coloring::new(i, self, k, &mut rng);
            pop.push(c);
            i += 1;
        }
        pop
    }
    /// Build the adjacency structure over `n` vertices from a list of
    /// edges given as pairs of vertex ids.  In the standard mode both
    /// directions of every edge are recorded; in the simple mode only the
    /// first-seen direction of each unordered pair is kept.  An edge with
    /// an endpoint out of range or a self-loop makes the whole input
    /// malformed.
    pub fn from_edges(n: usize, edges: &Vec<(usize, usize)>, simple: bool) -> (r: Option<Graph>)
        requires
            n * n + n + 2 <= usize::MAX,
        ensures
            (r is Some) <==> (forall|j: int|
                0 <= j < edges@.len() ==> (#[trigger] edges@[j]).0 < n && edges@[j].1 < n
                    && edges@[j].0 != edges@[j].1),
            r matches Some(g) ==> {
                &&& g.wf()
                &&& g.n() == n
                &&& (!simple ==> g.symmetric())
                &&& (simple ==> forall|u: int, v: int|
                    0 <= u < n && 0 <= v < n ==> !(g.edge(u, v) && g.edge(v, u)))
                &&& (!simple ==> forall|u: int, v: int|
                    0 <= u < n && 0 <= v < n ==> (g.edge(u, v) <==> (edges@.contains(
                        (u as usize, v as usize),
                    ) || edges@.contains((v as usize, u as usize)))))
                &&& (forall|u: int, v: int|
                    0 <= u < n && 0 <= v < n && g.edge(u, v) ==> (edges@.contains(
                        (u as usize, v as usize),
                    ) || edges@.contains((v as usize, u as usize))))
                &&& (forall|j: int|
                    0 <= j < edges@.len() ==> g.edge(
                        (#[trigger] edges@[j]).0 as int,
                        edges@[j].1 as int,
                    ) || g.edge(edges@[j].1 as int, edges@[j].0 as int))
            },
    {
        let mut content: Vec<Vec<usize>> = Vec::new();
        let mut i: usize = 0;
        while i < n
            invariant
                i <= n,
                content@.len() == i,
                forall|v: int| 0 <= v < i ==> (#[trigger] content@[v])@.len() == 0,
            decreases n - i,
        {
            content.push(Vec::new());
            i += 1;
        }
        let g0 = Graph { content };
        let mut g = g0;
        let mut j: usize = 0;
        let ghost e = edges@;
        while j < edges.len()
            invariant
                j <= e.len(),
                e == edges@,
                g.n() == n,
                n * n + n + 2 <= usize::MAX,
                g.wf(),
                !simple ==> g.symmetric(),
                simple ==> forall|u: int, v: int|
                    0 <= u < n && 0 <= v < n ==> !(g.edge(u, v) && g.edge(v, u)),
                forall|jj: int|
                    0 <= jj < j ==> (#[trigger] e[jj]).0 < n && e[jj].1 < n && e[jj].0 != e[jj].1,
                forall|u: int, v: int|
                    0 <= u < n && 0 <= v < n && g.edge(u, v) ==> (e.take(j as int).contains(
                        (u as usize, v as usize),
                    ) || e.take(j as int).contains((v as usize, u as usize))),
                forall|jj: int|
                    0 <= jj < j ==> g.edge((#[trigger] e[jj]).0 as int, e[jj].1 as int) || g.edge(
                        e[jj].1 as int,
                        e[jj].0 as int,
                    ),
                !simple ==> forall|u: int, v: int|
                    0 <= u < n && 0 <= v < n && (e.take(j as int).contains(
                        (u as usize, v as usize),
                    ) || e.take(j as int).contains((v as usize, u as usize))) ==> g.edge(u, v),
            decreases e.len() - j,
        {
            let ghost pre_g = g;
            let pair = edges[j];
            let a = pair.0;
            let b = pair.1;
            if a >= n || b >= n || a == b {
                return None;
            }
            let fwd = vec_contains(g.neighbors(a), b);
            let back = vec_contains(g.neighbors(b), a);
            let mut pushed = false;
            if simple {
                if !back && !fwd {
                    push_neighbor(&mut g, a, b);
                    pushed = true;
                }
            } else {
                if !fwd {
                    proof {
                        assert(!pre_g.nbrs(b as int).contains(a)) by {
                            if pre_g.nbrs(b as int).contains(a) {
                                let q = choose|q: int|
                                    0 <= q < pre_g.nbrs(b as int).len() && (#[trigger] pre_g.nbrs(
                                        b as int,
                                    )[q]) == a;
                                assert(pre_g.nbrs(pre_g.nbrs(b as int)[q] as int).contains(b));
                            }
                        }
                    }
                    push_neighbor(&mut g, a, b);
                    push_neighbor(&mut g, b, a);
                    pushed = true;
                }
            }
            proof {
                // how each row relates to the row before this edge line
                assert forall|w: int| 0 <= w < n implies (#[trigger] g.nbrs(w)) == pre_g.nbrs(w)
                    || (w == a && g.nbrs(w) == pre_g.nbrs(w).push(b)) || (w == b && g.nbrs(w)
                    == pre_g.nbrs(w).push(a)) by {}
                assert forall|u: int, v: int|
                    0 <= u < n && 0 <= v < n && pre_g.edge(u, v) implies g.edge(u, v) by {
                    lemma_edge_monotone(pre_g, g, u, v);
                }
                if pushed {
                    assert(g.edge(a as int, b as int)) by {
                        assert(g.nbrs(a as int)[g.nbrs(a as int).len() - 1] == b);
                    }
                }
                if simple {
                    // row `b` is untouched, so the reverse direction of
                    // this line is exactly as it was (absent when pushed)
                    assert(g.nbrs(b as int) == pre_g.nbrs(b as int));
                    assert forall|u: int, v: int|
                        0 <= u < n && 0 <= v < n implies !(g.edge(u, v) && g.edge(v, u)) by {
                        if g.edge(u, v) && g.edge(v, u) {
                            if pre_g.edge(u, v) && pre_g.edge(v, u) {
                            } else if !pre_g.edge(u, v) {
                                lemma_new_edge_named(pre_g, g, u, v, a, b);
                                assert(u == a && v == b);
                                assert(g.edge(b as int, a as int) == pre_g.edge(
                                    b as int,
                                    a as int,
                                ));
                                assert(back == pre_g.edge(b as int, a as int));
                            } else {
                                lemma_new_edge_named(pre_g, g, v, u, a, b);
                                assert(v == a && u == b);
                                assert(g.edge(b as int, a as int) == pre_g.edge(
                                    b as int,
                                    a as int,
                                ));
                                assert(back == pre_g.edge(b as int, a as int));
                            }
                        }
                    }
                }
                if !simple && pushed {
                    assert(g.edge(b as int, a as int)) by {
                        assert(g.nbrs(b as int)[g.nbrs(b as int).len() - 1] == a);
                    }
                    // symmetry: the only new entries are the mutual pair
                    assert forall|u: int, jj: int|
                        0 <= u < n && 0 <= jj < g.nbrs(u).len() implies (#[trigger] g.nbrs(
                        g.nbrs(u)[jj] as int,
                    )).contains(u as usize) by {
                        let w = g.nbrs(u)[jj] as int;
                        if u == a as int && jj == g.nbrs(u).len() - 1 {
                            assert(g.nbrs(u)[jj] == b);
                            assert(g.edge(b as int, a as int));
                        } else if u == b as int && jj == g.nbrs(u).len() - 1 {
                            assert(g.nbrs(u)[jj] == a);
                            assert(g.edge(a as int, b as int));
                        } else {
                            assert(g.nbrs(u)[jj] == pre_g.nbrs(u)[jj]);
                            assert(pre_g.nbrs(w).contains(u as usize));
                            lemma_contains_push(pre_g, g, w, u as usize, a, b);
                        }
                    }
                }
            }
            j += 1;
            proof {
                assert(e.take(j as int) =~= e.take(j - 1).push(e[j - 1]));
                assert(e.take(j as int).last() == e[j - 1]);
                assert(e.take(j as int).contains(e[j - 1]));
                assert(e[j - 1] == (a, b));
                assert forall|x: (usize, usize)| e.take(j - 1).contains(x) implies e.take(
                    j as int,
                ).contains(x) by {
                    let q = choose|q: int| 0 <= q < j - 1 && (#[trigger] e.take(j - 1)[q]) == x;
                    assert(e.take(j as int)[q] == x);
                }
                // every recorded edge is a listed line
                assert forall|u: int, v: int|
                    0 <= u < n && 0 <= v < n && g.edge(u, v) implies (e.take(
                    j as int,
                ).contains((u as usize, v as usize)) || e.take(j as int).contains(
                    (v as usize, u as usize),
                )) by {
                    if pre_g.edge(u, v) {
                    } else {
                        lemma_new_edge_named(pre_g, g, u, v, a, b);
                    }
                }
                // every listed line so far is recorded in some direction
                assert forall|jj: int|
                    0 <= jj < j implies g.edge((#[trigger] e[jj]).0 as int, e[jj].1 as int)
                    || g.edge(e[jj].1 as int, e[jj].0 as int) by {
                    if jj < j - 1 {
                        assert(pre_g.edge(e[jj].0 as int, e[jj].1 as int) || pre_g.edge(
                            e[jj].1 as int,
                            e[jj].0 as int,
                        ));
                    } else {
                        if pushed {
                            assert(g.edge(a as int, b as int));
                        } else if fwd {
                            assert(pre_g.edge(a as int, b as int));
                        } else {
                            assert(back);
                            assert(pre_g.edge(b as int, a as int));
                        }
                    }
                }
                if !simple {
                    // both directions of every listed line are recorded
                    assert forall|u: int, v: int|
                        0 <= u < n && 0 <= v < n && (e.take(j as int).contains(
                            (u as usize, v as usize),
                        ) || e.take(j as int).contains((v as usize, u as usize))) implies g.edge(
                        u,
                        v,
                    ) by {
                        let x = (u as usize, v as usize);
                        let y = (v as usize, u as usize);
                        if e.take(j - 1).contains(x) || e.take(j - 1).contains(y) {
                            assert(pre_g.edge(u, v));
                        } else {
                            // the pair is this line (in one of its directions)
                            assert forall|z: (usize, usize)| e.take(j as int).contains(z)
                                && !e.take(j - 1).contains(z) implies z == e[j - 1] by {
                                let q = choose|q: int|
                                    0 <= q < j && (#[trigger] e.take(j as int)[q]) == z;
                                if q < j - 1 {
                                    assert(e.take(j - 1)[q] == z);
                                }
                            }
                            assert((u as usize == a && v as usize == b) || (u as usize == b
                                && v as usize == a));
                            if pushed {
                                assert(g.edge(a as int, b as int) && g.edge(b as int, a as int));
                            } else {
                                assert(fwd);
                                assert(pre_g.edge(a as int, b as int));
                                assert(pre_g.edge(b as int, a as int)) by {
                                    let q = choose|q: int|
                                        0 <= q < pre_g.nbrs(a as int).len() && (
                                        #[trigger] pre_g.nbrs(a as int)[q]) == b;
                                    assert(pre_g.nbrs(pre_g.nbrs(a as int)[q] as int).contains(
                                        a,
                                    ));
                                }
                            }
                        }
                    }
                }
            }
        }
        proof {
            assert(e.take(e.len() as int) =~= e);
        }
        Some(g)
    }
}

/// Membership in a plain vector.
pub fn vec_contains(v: &Vec<usize>, x: usize) -> (b: bool)
    ensures
        b == v@.contains(x),
{
    let mut i: usize = 0;
    while i < v.len()
        invariant
            i <= v@.len(),
            forall|j: int| 0 <= j < i ==> (#[trigger] v@[j]) != x,
        decreases v@.len() - i,
    {
        if v[i] == x {
            return true;
        }
        i += 1;
    }
    false
}

/// Rows either stayed or grew by pushes, so recorded edges persist.
proof fn lemma_edge_monotone(pre: Graph, g: Graph, u: int, v: int)
    requires
        pre.n() == g.n(),
        0 <= u < g.n(),
        pre.edge(u, v),
        g.nbrs(u) == pre.nbrs(u) || (exists|x: usize| g.nbrs(u) == pre.nbrs(u).push(x)),
    ensures
        g.edge(u, v),
{
    let q = choose|q: int| 0 <= q < pre.nbrs(u).len() && (#[trigger] pre.nbrs(u)[q]) == v as usize;
    assert(g.nbrs(u)[q] == v as usize);
}

/// After pushing the directed edges of the pair `(a, b)`, any edge that is
/// new names exactly that pair.
proof fn lemma_new_edge_named(pre: Graph, g: Graph, u: int, v: int, a: usize, b: usize)
    requires
        pre.n() == g.n(),
        g.n() <= usize::MAX,
        0 <= u < g.n(),
        0 <= v < g.n(),
        g.edge(u, v),
        !pre.edge(u, v),
        forall|w: int|
            0 <= w < g.n() ==> (#[trigger] g.nbrs(w)) == pre.nbrs(w) || (w == a && g.nbrs(w)
                == pre.nbrs(w).push(b)) || (w == b && g.nbrs(w) == pre.nbrs(w).push(a)),
    ensures
        (u == a && v == b) || (u == b && v == a),
{
    assert(g.nbrs(u).contains(v as usize));
    let q = choose|q: int| 0 <= q < g.nbrs(u).len() && (#[trigger] g.nbrs(u)[q]) == v as usize;
    assert(g.nbrs(u) == pre.nbrs(u) || (u == a && g.nbrs(u) == pre.nbrs(u).push(b)) || (u == b
        && g.nbrs(u) == pre.nbrs(u).push(a)));
    if g.nbrs(u) == pre.nbrs(u) {
        assert(pre.nbrs(u).contains(v as usize)) by {
            assert(pre.nbrs(u)[q] == v as usize);
        }
        assert(false);
    } else if u == a && g.nbrs(u) == pre.nbrs(u).push(b) {
        if q < pre.nbrs(u).len() {
            assert(pre.nbrs(u).contains(v as usize)) by {
                assert(pre.nbrs(u)[q] == v as usize);
            }
            assert(false);
        } else {
            assert(g.nbrs(u)[q] == b);
            assert(u == a && v == b);
        }
    } else {
        assert(u == b && g.nbrs(u) == pre.nbrs(u).push(a));
        if q < pre.nbrs(u).len() {
            assert(pre.nbrs(u).contains(v as usize)) by {
                assert(pre.nbrs(u)[q] == v as usize);
            }
            assert(false);
        } else {
            assert(g.nbrs(u)[q] == a);
            assert(u == b && v == a);
        }
    }
}

/// Containment in a row survives the pushes of one edge pair.
proof fn lemma_contains_push(pre: Graph, g: Graph, w: int, x: usize, a: usize, b: usize)
    requires
        pre.n() == g.n(),
        0 <= w < g.n(),
        pre.nbrs(w).contains(x),
        g.nbrs(w) == pre.nbrs(w) || g.nbrs(w) == pre.nbrs(w).push(a) || g.nbrs(w) == pre.nbrs(
            w,
        ).push(b),
    ensures
        g.nbrs(w).contains(x),
{
    let q = choose|q: int| 0 <= q < pre.nbrs(w).len() && (#[trigger] pre.nbrs(w)[q]) == x;
    assert(g.nbrs(w)[q] == x);
}

/// Append `b` to the neighbour list of `a`, keeping the graph shape.
fn push_neighbor(g: &mut Graph, a: usize, b: usize)
    requires
        old(g).wf(),
        a < old(g).n(),
        b < old(g).n(),
        a != b,
        !old(g).nbrs(a as int).contains(b),
    ensures
        final(g).n() == old(g).n(),
        final(g).wf(),
        forall|v: int|
            0 <= v < old(g).n() && v != a ==> (#[trigger] final(g).nbrs(v)) == old(g).nbrs(v),
        final(g).nbrs(a as int) == old(g).nbrs(a as int).push(b),
        forall|u: int, v: int|
            0 <= u < old(g).n() && 0 <= v < old(g).n() && old(g).edge(u, v) ==> final(g).edge(
                u,
                v,
            ),
{
    let ghost pre = *g;
    let row: &mut Vec<usize> = &mut g.content[a];
    row.push(b);
    proof {
        assert(g.content@ =~= pre.content@.update(a as int, g.content@[a as int]));
        assert(g.nbrs(a as int) =~= pre.nbrs(a as int).push(b));
        assert(g.nbrs(a as int) == pre.nbrs(a as int).push(b));
        assert forall|v: int| 0 <= v < pre.n() && v != a implies (#[trigger] g.nbrs(v))
            == pre.nbrs(v) by {
            assert(g.content@[v] == pre.content@[v]);
        }
        assert forall|v: int| 0 <= v < g.n() implies (#[trigger] g.nbrs(v)).no_duplicates()
            && g.nbrs(v).len() <= g.n() by {
            if v == a {
                assert forall|x: int, y: int|
                    0 <= x < y < g.nbrs(a as int).len() implies g.nbrs(a as int)[x] != g.nbrs(
                    a as int,
                )[y] by {
                    if y < g.nbrs(a as int).len() - 1 {
                        assert(pre.nbrs(a as int)[x] != pre.nbrs(a as int)[y]);
                    } else {
                        assert(g.nbrs(a as int)[y] == b);
                        assert(pre.nbrs(a as int)[x] != b) by {
                            if pre.nbrs(a as int)[x] == b {
                                assert(pre.nbrs(a as int).contains(b));
                            }
                        }
                    }
                }
                assert(g.nbrs(a as int).no_duplicates());
                lemma_nodup_range_len(g.nbrs(a as int), 0, g.content.len());
            }
        }
        assert forall|v: int, jj: int|
            0 <= v < g.n() && 0 <= jj < g.nbrs(v).len() implies (#[trigger] g.nbrs(v)[jj])
            < g.n() && g.nbrs(v)[jj] != v by {
            if v == a && jj == g.nbrs(a as int).len() - 1 {
                assert(g.nbrs(v)[jj] == b);
            } else if v == a {
                assert(g.nbrs(v)[jj] == pre.nbrs(v)[jj]);
            }
        }
        assert forall|u: int, v: int|
            0 <= u < pre.n() && 0 <= v < pre.n() && pre.edge(u, v) implies g.edge(u, v) by {
            if u == a {
                let q = choose|q: int|
                    0 <= q < pre.nbrs(u).len() && (#[trigger] pre.nbrs(u)[q]) == v as usize;
                assert(g.nbrs(u)[q] == v as usize);
            }
        }
    }
}


/// A listed position that matches makes the count positive.
pub proof fn lemma_count_matching_pos(nbrs: Seq<usize>, sol: Seq<usize>, c: usize, j: int)
    requires
        0 <= j < nbrs.len(),
        sol[nbrs[j] as int] == c,
    ensures
        1 <= count_matching(nbrs, sol, c),
    decreases nbrs.len(),
{
    lemma_count_matching_bounds(nbrs.drop_last(), sol, c);
    assert(nbrs.last() == nbrs[nbrs.len() - 1]);
    if j < nbrs.len() - 1 {
        assert(nbrs.drop_last()[j] == nbrs[j]);
        lemma_count_matching_pos(nbrs.drop_last(), sol, c, j);
    }
}

/// The sum dominates any single entry.
pub proof fn lemma_sum_entry(s: Seq<usize>, i: int)
    requires
        0 <= i < s.len(),
    ensures
        s[i] <= sum_of(s),
    decreases s.len(),
{
    lemma_sum_nonneg(s.drop_last());
    assert(s.last() == s[s.len() - 1]);
    if i < s.len() - 1 {
        assert(s.drop_last()[i] == s[i]);
        lemma_sum_entry(s.drop_last(), i);
    }
}

/// The sum dominates any two distinct entries together.
pub proof fn lemma_sum_two_entries(s: Seq<usize>, i: int, j: int)
    requires
        0 <= i < s.len(),
        0 <= j < s.len(),
        i != j,
    ensures
        s[i] + s[j] <= sum_of(s),
{
    let t = s.update(i, 0);
    lemma_sum_update(s, i, 0);
    lemma_sum_entry(t, j);
    assert(t[j] == s[j]);
}

/// A coloring with faithful bookkeeping on a symmetric graph has no
/// conflicting edge exactly when its conflict total is zero.
pub proof fn lemma_zero_conflicts_iff_proper(g: Graph, c: Coloring)
    requires
        c.wf(g),
        g.symmetric(),
    ensures
        (c.tot_conflicts == 0) <==> proper(g, c.solution@),
{
    let sol = c.solution@;
    lemma_sum_nonneg(c.conflicts@);
    if proper(g, sol) {
        assert forall|v: int| 0 <= v < g.n() implies (#[trigger] c.conflicts@[v]) == 0 by {
            lemma_proper_count_zero(g, sol, g.nbrs(v).len() as int, v);
        }
        lemma_sum_bounded(c.conflicts@, 0);
    }
    if c.tot_conflicts == 0 && !proper(g, sol) {
        let (v, j) = choose|v: int, j: int|
            0 <= v < g.n() && 0 <= j < g.nbrs(v).len() && sol[(#[trigger] g.nbrs(v)[j]) as int]
                == sol[v];
        let u = g.nbrs(v)[j];
        assert(u < g.n() && u != v);
        lemma_count_matching_pos(g.nbrs(v), sol, sol[v], j);
        assert(g.nbrs(g.nbrs(v)[j] as int).contains(v as usize));
        let q = choose|q: int|
            0 <= q < g.nbrs(u as int).len() && (#[trigger] g.nbrs(u as int)[q]) == v as usize;
        lemma_count_matching_pos(g.nbrs(u as int), sol, sol[u as int], q);
        lemma_sum_two_entries(c.conflicts@, v, u as int);
        assert(sum_of(c.conflicts@) >= 2);
        assert(sum_of(c.conflicts@) / 2 >= 1);
        assert(false);
    }
}

/// On a proper assignment every prefix count of matching neighbours is
/// zero.
proof fn lemma_proper_count_zero(g: Graph, sol: Seq<usize>, p: int, v: int)
    requires
        g.wf(),
        0 <= v < g.n(),
        proper(g, sol),
        0 <= p <= g.nbrs(v).len(),
    ensures
        count_matching(g.nbrs(v).take(p), sol, sol[v]) == 0,
        p == g.nbrs(v).len() ==> conflicts_at(g, sol, v) == 0,
    decreases p,
{
    if p > 0 {
        assert(g.nbrs(v).take(p).drop_last() =~= g.nbrs(v).take(p - 1));
        assert(g.nbrs(v).take(p).last() == g.nbrs(v)[p - 1]);
        assert(sol[g.nbrs(v)[p - 1] as int] != sol[v]);
        lemma_proper_count_zero(g, sol, p - 1, v);
    }
    if p == g.nbrs(v).len() {
        assert(g.nbrs(v).take(p) =~= g.nbrs(v));
    }
}

/// A coloring whose total is nonzero has a vertex in conflict.
pub proof fn lemma_nonzero_has_critical(g: Graph, c: Coloring)
    requires
        c.wf(g),
        c.tot_conflicts != 0,
    ensures
        exists|v: int| 0 <= v < g.n() && (#[trigger] c.conflicts@[v]) != 0,
{
    if forall|v: int| 0 <= v < g.n() ==> (#[trigger] c.conflicts@[v]) == 0 {
        lemma_sum_bounded(c.conflicts@, 0);
        lemma_sum_nonneg(c.conflicts@);
        assert(false);
    }
}

impl Coloring {
    /// Generate a fresh coloring with colours drawn uniformly from
    /// `1 ..= k` by the seeded deterministic generator.
    pub fn new_seeded(index: usize, g: &Graph, k: usize, rng: &mut crate::rng::Prng) -> (c:
        Coloring)
        requires
            g.wf(),
            1 <= k,
        ensures
            c.wf(*g),
            c.index == index,
            c.lifetime == 0,
            c.colors_in(k),
    {
        let n = g.len();
        let mut solution: Vec<usize> = Vec::new();
        let mut i: usize = 0;
        while i < n
            invariant
                i <= n,
                1 <= k,
                solution@.len() == i,
                forall|v: int| 0 <= v < i ==> 1 <= (#[trigger] solution@[v]) <= k,
            decreases n - i,
        {
            let col = rng.color(k);
            solution.push(col);
            i += 1;
        }
        Coloring::from_vec(index, solution, g)
    }
}

impl Graph {
    /// Initialize a population of fresh random colorings from the seeded
    /// deterministic generator.
    pub fn populate_seeded(&self, n: usize, k: usize, rng: &mut crate::rng::Prng) -> (pop: Vec<
        Coloring,
    >)
        requires
            self.wf(),
            1 <= k,
        ensures
            pop@.len() == n,
            forall|i: int| 0 <= i < n ==> (#[trigger] pop@[i]).wf(*self),
            forall|i: int| 0 <= i < n ==> (#[trigger] pop@[i]).index == i,
            forall|i: int| 0 <= i < n ==> (#[trigger] pop@[i]).colors_in(k),
            forall|i: int| 0 <= i < n ==> (#[trigger] pop@[i]).lifetime == 0,
    {
        let mut pop: Vec<Coloring> = Vec::new();
        let mut i: usize = 0;
        while i < n
            invariant
                i <= n,
                self.wf(),
                1 <= k,
                pop@.len() == i,
                forall|j: int| 0 <= j < i ==> (#[trigger] pop@[j]).wf(*self),
                forall|j: int| 0 <= j < i ==> (#[trigger] pop@[j]).index == j,
                forall|j: int| 0 <= j < i ==> (#[trigger] pop@[j]).colors_in(k),
                forall|j: int| 0 <= j < i ==> (#[trigger] pop@[j]).lifetime == 0,
            decreases n - i,
        {
            let c = Coloring::new_seeded(i, self, k, rng);
            pop.push(c);
            i += 1;
        }
        pop
    }
}


/// The matching pairs `(v, u)` for the listed neighbours `u` of `v`.
spec fn row_pairs(nbrs: Seq<usize>, sol: Seq<usize>, v: usize) -> Seq<(usize, usize)>
    decreases nbrs.len(),
{
    if nbrs.len() == 0 {
        Seq::empty()
    } else {
        row_pairs(nbrs.drop_last(), sol, v) + (if sol[nbrs.last() as int] == sol[v as int] {
            seq![(v, nbrs.last())]
        } else {
            Seq::empty()
        })
    }
}

/// All matching pairs whose first endpoint is below `t`.
spec fn pairs_upto(g: Graph, sol: Seq<usize>, t: int) -> Seq<(usize, usize)>
    decreases t,
{
    if t <= 0 {
        Seq::empty()
    } else {
        pairs_upto(g, sol, t - 1) + row_pairs(g.nbrs(t - 1), sol, (t - 1) as usize)
    }
}

/// One row lists as many pairs as the vertex has same-coloured
/// neighbours; each pair starts at the vertex, ends at a listed matching
/// neighbour, and no pair repeats.
proof fn lemma_row_pairs(nbrs: Seq<usize>, sol: Seq<usize>, v: usize)
    requires
        nbrs.no_duplicates(),
    ensures
        row_pairs(nbrs, sol, v).len() == count_matching(nbrs, sol, sol[v as int]),
        forall|q: int|
            0 <= q < row_pairs(nbrs, sol, v).len() ==> (#[trigger] row_pairs(nbrs, sol, v)[q]).0
                == v && nbrs.contains(row_pairs(nbrs, sol, v)[q].1) && sol[row_pairs(
                nbrs,
                sol,
                v,
            )[q].1 as int] == sol[v as int],
        forall|u: usize|
            nbrs.contains(u) && sol[u as int] == sol[v as int] ==> row_pairs(
                nbrs,
                sol,
                v,
            ).contains((v, u)),
        row_pairs(nbrs, sol, v).no_duplicates(),
    decreases nbrs.len(),
{
    if nbrs.len() > 0 {
        let rest = nbrs.drop_last();
        let row = row_pairs(nbrs, sol, v);
        let prev = row_pairs(rest, sol, v);
        lemma_row_pairs(rest, sol, v);
        assert(nbrs.last() == nbrs[nbrs.len() - 1]);
        assert forall|q: int| 0 <= q < prev.len() implies (#[trigger] row[q]) == prev[q] by {}
        assert forall|q: int|
            0 <= q < row.len() implies (#[trigger] row[q]).0 == v && nbrs.contains(row[q].1)
                && sol[row[q].1 as int] == sol[v as int] by {
            if q < prev.len() {
                assert(rest.contains(prev[q].1));
                let w = choose|w: int| 0 <= w < rest.len() && (#[trigger] rest[w]) == prev[q].1;
                assert(nbrs[w] == prev[q].1);
            } else {
                assert(row[q] == (v, nbrs.last()));
            }
        }
        assert forall|u: usize|
            nbrs.contains(u) && sol[u as int] == sol[v as int] implies row.contains((v, u)) by {
            let w = choose|w: int| 0 <= w < nbrs.len() && (#[trigger] nbrs[w]) == u;
            if w < nbrs.len() - 1 {
                assert(rest[w] == u);
                assert(rest.contains(u));
                assert(prev.contains((v, u)));
                let q = choose|q: int| 0 <= q < prev.len() && (#[trigger] prev[q]) == (v, u);
                assert(row[q] == (v, u));
            } else {
                assert(sol[nbrs.last() as int] == sol[v as int]);
                assert(row[row.len() - 1] == (v, nbrs.last()));
            }
        }
        assert forall|q1: int, q2: int| 0 <= q1 < q2 < row.len() implies row[q1] != row[q2] by {
            if q2 == row.len() - 1 && row.len() > prev.len() {
                assert(row[q2] == (v, nbrs.last()));
                assert(prev[q1] == row[q1]);
                if row[q1] == row[q2] {
                    assert(rest.contains(prev[q1].1));
                    let w = choose|w: int|
                        0 <= w < rest.len() && (#[trigger] rest[w]) == prev[q1].1;
                    assert(nbrs[w] == nbrs[nbrs.len() - 1]);
                }
            } else {
                assert(row[q1] == prev[q1] && row[q2] == prev[q2]);
            }
        }
        assert(row.no_duplicates());
    }
}

/// The pairs below `t` count the conflict sum below `t`; their endpoints
/// name matching edges with first endpoint below `t`, every such edge is
/// listed, and no pair repeats.
proof fn lemma_pairs_upto(g: Graph, c: Coloring, t: int)
    requires
        c.wf(g),
        0 <= t <= g.n(),
    ensures
        pairs_upto(g, c.solution@, t).len() == sum_of(c.conflicts@.take(t)),
        forall|q: int|
            0 <= q < pairs_upto(g, c.solution@, t).len() ==> (#[trigger] pairs_upto(
                g,
                c.solution@,
                t,
            )[q]).0 < t && g.nbrs(pairs_upto(g, c.solution@, t)[q].0 as int).contains(
                pairs_upto(g, c.solution@, t)[q].1,
            ) && c.solution@[pairs_upto(g, c.solution@, t)[q].1 as int] == c.solution@[pairs_upto(
                g,
                c.solution@,
                t,
            )[q].0 as int],
        forall|v: usize, u: usize|
            v < t && g.nbrs(v as int).contains(u) && c.solution@[u as int] == c.solution@[v as int]
                ==> pairs_upto(g, c.solution@, t).contains((v, u)),
        pairs_upto(g, c.solution@, t).no_duplicates(),
    decreases t,
{
    let sol = c.solution@;
    if t > 0 {
        let whole = pairs_upto(g, sol, t);
        let prev = pairs_upto(g, sol, t - 1);
        let v0 = (t - 1) as usize;
        let row = row_pairs(g.nbrs(t - 1), sol, v0);
        lemma_pairs_upto(g, c, t - 1);
        lemma_row_pairs(g.nbrs(t - 1), sol, v0);
        lemma_sum_take_succ(c.conflicts@, t - 1);
        assert(c.conflicts@[t - 1] as int == conflicts_at(g, sol, t - 1));
        assert forall|q: int| 0 <= q < prev.len() implies (#[trigger] whole[q]) == prev[q] by {}
        assert forall|q: int|
            prev.len() <= q < whole.len() implies (#[trigger] whole[q]) == row[q - prev.len()]
            by {}
        assert forall|v: usize, u: usize|
            v < t && g.nbrs(v as int).contains(u) && sol[u as int] == sol[v as int] implies whole.contains(
            (v, u),
        ) by {
            if v < t - 1 {
                assert(prev.contains((v, u)));
                let q = choose|q: int| 0 <= q < prev.len() && (#[trigger] prev[q]) == (v, u);
                assert(whole[q] == (v, u));
            } else {
                assert(row.contains((v0, u)));
                let q = choose|q: int| 0 <= q < row.len() && (#[trigger] row[q]) == (v0, u);
                assert(whole[prev.len() + q] == (v0, u));
            }
        }
        assert forall|q1: int, q2: int| 0 <= q1 < q2 < whole.len() implies whole[q1]
            != whole[q2] by {
            if q2 < prev.len() {
            } else if q1 >= prev.len() {
                assert(row[q1 - prev.len()] != row[q2 - prev.len()]);
            } else {
                assert(whole[q1].0 < t - 1 && whole[q2].0 == v0);
            }
        }
        assert(whole.no_duplicates());
    } else {
        assert(c.conflicts@.take(0) =~= Seq::<usize>::empty());
    }
}

/// A finite set of ordered pairs that is closed under swapping and has no
/// diagonal member has even cardinality.
proof fn lemma_swap_closed_even(s: Set<(usize, usize)>)
    requires
        s.finite(),
        forall|p: (usize, usize)| #[trigger] s.contains(p) ==> s.contains((p.1, p.0)) && p.0
            != p.1,
    ensures
        s.len() % 2 == 0,
    decreases s.len(),
{
    if s.len() != 0 {
        if forall|p: (usize, usize)| !(#[trigger] s.contains(p)) {
            assert(s =~= Set::<(usize, usize)>::empty());
            assert(false);
        }
        let p = choose|p: (usize, usize)| s.contains(p);
        let q = (p.1, p.0);
        assert(s.contains(q) && p != q);
        let s2 = s.remove(p).remove(q);
        assert(s.remove(p).contains(q));
        assert(s2.len() == s.len() - 2);
        assert forall|p2: (usize, usize)| #[trigger] s2.contains(p2) implies s2.contains(
            (p2.1, p2.0),
        ) && p2.0 != p2.1 by {
            assert(s.contains(p2));
            let w = (p2.1, p2.0);
            assert(s.contains(w));
            assert(w != p) by {
                if w == p {
                    assert(p2 == q);
                }
            }
            assert(w != q) by {
                if w == q {
                    assert(p2 == p);
                }
            }
        }
        lemma_swap_closed_even(s2);
    }
}

/// The handshake fact for the conflict bookkeeping: every conflicting
/// edge is counted once at each endpoint, so the per-vertex conflict
/// counts always sum to an even number (and the stored total is exactly
/// half of it).
pub proof fn lemma_conflict_sum_even(g: Graph, c: Coloring)
    requires
        c.wf(g),
        g.symmetric(),
    ensures
        sum_of(c.conflicts@) % 2 == 0,
        2 * (c.tot_conflicts as int) == sum_of(c.conflicts@),
{
    broadcast use vstd::seq_lib::seq_to_set_is_finite;

    let sol = c.solution@;
    let n = g.n() as int;
    let ps = pairs_upto(g, sol, n);
    lemma_pairs_upto(g, c, n);
    assert(c.conflicts@.take(n) =~= c.conflicts@);
    ps.unique_seq_to_set();
    let pset = ps.to_set();
    assert forall|p: (usize, usize)| #[trigger] pset.contains(p) implies pset.contains(
        (p.1, p.0),
    ) && p.0 != p.1 by {
        assert(ps.contains(p));
        let q = choose|q: int| 0 <= q < ps.len() && (#[trigger] ps[q]) == p;
        assert(p.0 < n && g.nbrs(p.0 as int).contains(p.1) && sol[p.1 as int] == sol[p.0 as int]);
        let w = choose|w: int|
            0 <= w < g.nbrs(p.0 as int).len() && (#[trigger] g.nbrs(p.0 as int)[w]) == p.1;
        assert(p.1 < g.n() && p.1 != p.0);
        assert(g.nbrs(g.nbrs(p.0 as int)[w] as int).contains(p.0));
        assert(ps.contains((p.1, p.0)));
    }
    lemma_swap_closed_even(pset);
    lemma_sum_nonneg(c.conflicts@);
}

} // verus!
