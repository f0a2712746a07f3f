//! The generational population search: repeatedly evolve a population of
//! candidate colorings for a target colour count `k`, and shrink `k` each
//! time a proper coloring is found.

use crate::pollinators::Pollinator;
use crate::rng::Prng;
use crate::structs::{lemma_zero_conflicts_iff_proper, proper, Coloring, Graph, Parameters};
use vstd::prelude::*;

verus! {

/// Generations tried for one target colour count before giving up.
pub const MAX_GEN: usize = 50000;

/// The population size used by the command-line driver.
pub const POP_SIZE: usize = 20;

/// A proper coloring of the whole graph whose colours all lie in
/// `1 ..= r`.
pub open spec fn proper_solution_within(g: Graph, r: usize, sol: Seq<usize>) -> bool {
    &&& proper(g, sol)
    &&& sol.len() == g.n()
    &&& forall|v: int| 0 <= v < sol.len() ==> 1 <= (#[trigger] sol[v]) <= r
}

/// What the outer loop does once a target's generations are over.
pub enum SearchStep {
    /// The search is over with this colour count.
    Finished(usize),
    /// Try the next, smaller target.
    Descend(usize),
}

/// The stop threshold is returned as soon as the target falls below it.
pub fn threshold_reached(cur_k: usize, stop: Option<usize>) -> (r: Option<usize>)
    ensures
        (r matches Some(l) ==> stop == Some(l) && cur_k < l),
        (r is None ==> (stop matches Some(limit) ==> limit <= cur_k)),
{
    match stop {
        Some(limit) => {
            if cur_k < limit {
                Some(limit)
            } else {
                None
            }
        },
        None => None,
    }
}

/// On success the target shrinks by one (a single colour cannot shrink
/// further); on failure the previous, successful count comes back as the
/// sentinel.
pub fn next_target(cur_k: usize, found: bool) -> (r: SearchStep)
    requires
        1 <= cur_k < usize::MAX,
    ensures
        found && cur_k == 1 ==> r == SearchStep::Finished(1usize),
        found && cur_k > 1 ==> r == SearchStep::Descend((cur_k - 1) as usize),
        !found ==> r == SearchStep::Finished((cur_k + 1) as usize),
{
    if found {
        if cur_k == 1 {
            SearchStep::Finished(1)
        } else {
            SearchStep::Descend(cur_k - 1)
        }
    } else {
        SearchStep::Finished(cur_k + 1)
    }
}

/// The slot of a candidate with the fewest conflicting edges (the first
/// such slot).
pub fn best_of(pop: &Vec<Coloring>) -> (b: usize)
    requires
        1 <= pop@.len(),
    ensures
        b < pop@.len(),
        forall|j: int|
            0 <= j < pop@.len() ==> pop@[b as int].tot_conflicts <= (
            #[trigger] pop@[j]).tot_conflicts,
        forall|j: int|
            0 <= j < b ==> pop@[b as int].tot_conflicts < (#[trigger] pop@[j]).tot_conflicts,
{
    let mut b: usize = 0;
    let mut j: usize = 1;
    while j < pop.len()
        invariant
            1 <= j <= pop@.len(),
            b < j,
            forall|q: int|
                0 <= q < j ==> pop@[b as int].tot_conflicts <= (#[trigger] pop@[q]).tot_conflicts,
            forall|q: int|
                0 <= q < b ==> pop@[b as int].tot_conflicts < (#[trigger] pop@[q]).tot_conflicts,
        decreases pop@.len() - j,
    {
        if pop[j].tot_conflicts < pop[b].tot_conflicts {
            b = j;
        }
        j += 1;
    }
    b
}

/// One generation step of a single individual: with the switch
/// probability, an individual that is not the best either escapes
/// stagnation by full reinitialization (once its lifetime passed the
/// limit) or undergoes global pollination towards the frozen best;
/// otherwise it undergoes local pollination.  The candidate replaces the
/// individual when its conflict total is no worse; the lifetime resets on
/// strict improvement and grows otherwise.
pub fn evolve_individual<T: Pollinator>(
    g: &Graph,
    x: &mut Coloring,
    best: &Coloring,
    k: usize,
    params: Parameters,
    rng: &mut Prng,
)
    requires
        g.full(),
        old(x).wf(*g),
        old(x).colors_in(k),
        best.wf(*g),
        best.colors_in(k),
        1 <= k < usize::MAX,
        1 <= g.n(),
        params.wf(),
    ensures
        final(x).wf(*g),
        final(x).colors_in(k),
        final(x).index == old(x).index,
        final(x).tot_conflicts <= old(x).tot_conflicts || final(x).lifetime == 0,
        final(x).lifetime == 0 || final(x).lifetime == old(x).lifetime + 1 || (old(x).lifetime
            == usize::MAX && final(x).lifetime == usize::MAX),
        old(x).lifetime < params.lifetime_limit ==> final(x).tot_conflicts <= old(
            x,
        ).tot_conflicts,
        old(x).index == best.index ==> final(x).tot_conflicts <= old(x).tot_conflicts,
        final(x).lifetime == 0 ==> final(x).tot_conflicts < old(x).tot_conflicts || (old(
            x,
        ).lifetime >= params.lifetime_limit && old(x).index != best.index),
{
    let p = rng.ratio(params.switch_num, params.switch_den);
    if x.lifetime >= params.lifetime_limit && p && x.index != best.index {
        let idx = x.index;
        *x = Coloring::new_seeded(idx, g, k, rng);
        return ;
    }
    let x_new = if p && x.index != best.index {
        T::global(rng, g, best, x, params.lambda_centi)
    } else {
        T::local(rng, g, x, k, params.lambda_centi)
    };
    proof {
        assert(x_new.colors_in(k)) by {
            assert forall|v: int| 0 <= v < x_new.solution@.len() implies 1 <= (
            #[trigger] x_new.solution@[v]) <= k by {
                assert(x.solution@[v] == x.solution@[v]);
            }
        }
    }
    if x_new.tot_conflicts <= x.tot_conflicts {
        let strict = x_new.tot_conflicts < x.tot_conflicts;
        let life = x.lifetime;
        *x = x_new;
        if strict {
            x.lifetime = 0;
        } else {
            x.lifetime = if life < usize::MAX {
                life + 1
            } else {
                life
            };
        }
    } else {
        let life = x.lifetime;
        x.lifetime = if life < usize::MAX {
            life + 1
        } else {
            life
        };
    }
}

/// The search loop, returning the colour count reached together with the
/// last proper coloring found (when any was).  For each target count the
/// population evolves for up to `MAX_GEN` generations; when the best
/// individual reaches zero conflicts the target shrinks by one, and when
/// the generations run out the previous (successful) count is returned as
/// the sentinel `current + 1`.  A caller-supplied stop threshold is
/// returned at once when the target falls below it.
pub fn discrete_fpa_with_solution<T: Pollinator>(
    g: &Graph,
    n: usize,
    k: usize,
    options: Option<Parameters>,
    stop: Option<usize>,
    rng: &mut Prng,
) -> (r: (usize, Option<Coloring>))
    requires
        g.full(),
        1 <= g.n(),
        1 <= n,
        1 <= k < usize::MAX,
        (options matches Some(p) ==> p.wf()),
    ensures
        1 <= r.0,
        (stop is None ==> r.0 <= k + 1),
        (stop is None && r.0 <= k ==> r.1 is Some),
        (stop matches Some(limit) ==> limit <= r.0 && (r.0 == limit || r.0 <= k + 1)),
        (stop matches Some(limit) ==> (k < limit ==> r.0 == limit)),
        (r.1 matches Some(c) ==> c.wf(*g) && c.tot_conflicts == 0 && proper(*g, c.solution@)
            && c.colors_in(r.0)),
{
    let params = match options {
        Some(p) => p,
        None => Parameters::standard(),
    };
    let mut cur_k = k;
    let mut witness: Option<Coloring> = None;
    loop
        invariant
            g.full(),
            1 <= g.n(),
            1 <= n,
            params.wf(),
            1 <= cur_k <= k,
            k < usize::MAX,
            (cur_k < k ==> witness is Some),
            (witness matches Some(c) ==> c.wf(*g) && c.tot_conflicts == 0 && proper(
                *g,
                c.solution@,
            ) && c.colors_in((cur_k + 1) as usize)),
        decreases cur_k,
    {
        if let Some(limit) = threshold_reached(cur_k, stop) {
            return (limit, witness);
        }
        let mut pop = g.populate_seeded(n, cur_k, rng);
        let mut gen: usize = 0;
        let mut found = false;
        while gen < MAX_GEN && !found
            invariant
                g.full(),
                1 <= g.n(),
                1 <= n,
                params.wf(),
                1 <= cur_k <= k,
                k < usize::MAX,
                gen <= MAX_GEN,
                pop@.len() == n,
                forall|i: int| 0 <= i < n ==> (#[trigger] pop@[i]).wf(*g),
                forall|i: int| 0 <= i < n ==> (#[trigger] pop@[i]).colors_in(cur_k),
                (cur_k < k ==> witness is Some),
                (witness matches Some(c) ==> c.wf(*g) && c.tot_conflicts == 0 && proper(
                    *g,
                    c.solution@,
                ) && c.colors_in((cur_k + 1) as usize)),
                (found ==> witness is Some),
                (found ==> (witness matches Some(c2) ==> c2.colors_in(cur_k))),
            decreases MAX_GEN - gen,
        {
            let b = best_of(&pop);
            if pop[b].tot_conflicts == 0 {
                proof {
                    lemma_zero_conflicts_iff_proper(*g, pop@[b as int]);
                }
                witness = Some(pop[b].duplicate());
                found = true;
            } else {
                let best_snap = pop[b].duplicate();
                let mut newpop: Vec<Coloring> = Vec::new();
                let mut s: usize = 0;
                while s < pop.len()
                    invariant
                        s <= n,
                        g.full(),
                        1 <= g.n(),
                        1 <= n,
                        params.wf(),
                        1 <= cur_k <= k,
                        k < usize::MAX,
                        pop@.len() == n,
                        forall|i: int| 0 <= i < n ==> (#[trigger] pop@[i]).wf(*g),
                        forall|i: int| 0 <= i < n ==> (#[trigger] pop@[i]).colors_in(cur_k),
                        best_snap.wf(*g),
                        best_snap.colors_in(cur_k),
                        newpop@.len() == s,
                        forall|i: int| 0 <= i < s ==> (#[trigger] newpop@[i]).wf(*g),
                        forall|i: int| 0 <= i < s ==> (#[trigger] newpop@[i]).colors_in(cur_k),
                    decreases n - s,
                {
                    let mut xi = pop[s].duplicate();
                    proof {
                        assert(xi.wf(*g) && xi.colors_in(cur_k)) by {
                            assert(pop@[s as int].wf(*g) && pop@[s as int].colors_in(cur_k));
                        }
                    }
                    evolve_individual::<T>(g, &mut xi, &best_snap, cur_k, params, rng);
                    newpop.push(xi);
                    s += 1;
                }
                pop = newpop;
            }
            gen += 1;
        }
        match next_target(cur_k, found) {
            SearchStep::Finished(count) => {
                return (count, witness);
            },
            SearchStep::Descend(smaller) => {
                cur_k = smaller;
            },
        }
    }
}

/// The search loop, returning only the colour count reached.
pub fn discrete_fpa<T: Pollinator>(
    g: &Graph,
    n: usize,
    k: usize,
    options: Option<Parameters>,
    stop: Option<usize>,
    rng: &mut Prng,
) -> (r: usize)
    requires
        g.full(),
        1 <= g.n(),
        1 <= n,
        1 <= k < usize::MAX,
        (options matches Some(p) ==> p.wf()),
    ensures
        1 <= r,
        (stop is None ==> r <= k + 1),
        (stop is None && r <= k ==> exists|sol: Seq<usize>| #[trigger] proper_solution_within(
            *g,
            r,
            sol,
        )),
        (stop matches Some(limit) ==> limit <= r && (r == limit || r <= k + 1)),
        (stop matches Some(limit) ==> (k < limit ==> r == limit)),
{
    let pair = discrete_fpa_with_solution::<T>(g, n, k, options, stop, rng);
    match &pair.1 {
        Some(c) => {
            proof {
                assert(proper_solution_within(*g, pair.0, c.solution@));
            }
        },
        None => {},
    }
    pair.0
}

} // verus!
