//! A small deterministic random source for the single-threaded,
//! reproducible search mode, together with the integer discretization of
//! the heavy-tailed (Levy-style) step-size distribution.
//!
//! Every draw is pure integer arithmetic on the seeded state, so a run of
//! the search is a function of the graph, the parameters and the seed.

use vstd::prelude::*;

verus! {

pub const TWO64: u128 = 0x1_0000_0000_0000_0000;

/// The next state: a fixed odd increment, modulo 2^64.
pub open spec fn next_state(s: u64) -> u64 {
    ((s + 0x9E3779B97F4A7C15) % 0x1_0000_0000_0000_0000) as u64
}

pub open spec fn mix1(z: u64) -> u64 {
    (((z ^ (z >> 30)) * 0xBF58476D1CE4E5B9) % 0x1_0000_0000_0000_0000) as u64
}

pub open spec fn mix2(z: u64) -> u64 {
    (((z ^ (z >> 27)) * 0x94D049BB133111EB) % 0x1_0000_0000_0000_0000) as u64
}

pub open spec fn mix3(z: u64) -> u64 {
    z ^ (z >> 31)
}

/// The output drawn from a state.
pub open spec fn mix64(z: u64) -> u64 {
    mix3(mix2(mix1(z)))
}

/// A seeded deterministic generator (a splitmix-style sequence): the same
/// seed always yields the same sequence of draws.
pub struct Prng {
    pub state: u64,
}

impl Prng {
    pub fn seeded(seed: u64) -> (r: Prng)
        ensures
            r.state == seed,
    {
        Prng { state: seed }
    }

    /// The next raw draw; the new state and the result are exact functions
    /// of the old state.
    pub fn next_u64(&mut self) -> (r: u64)
        ensures
            final(self).state == next_state(old(self).state),
            r == mix64(next_state(old(self).state)),
    {
        let s2: u64 = (((self.state as u128) + 0x9E3779B97F4A7C15u128) % TWO64) as u64;
        self.state = s2;
        let z1: u64 = (((s2 ^ (s2 >> 30)) as u128 * 0xBF58476D1CE4E5B9u128) % TWO64) as u64;
        let z2: u64 = (((z1 ^ (z1 >> 27)) as u128 * 0x94D049BB133111EBu128) % TWO64) as u64;
        z2 ^ (z2 >> 31)
    }

    /// A draw below `bound`.
    pub fn below(&mut self, bound: u64) -> (r: u64)
        requires
            1 <= bound,
        ensures
            r < bound,
            r == mix64(next_state(old(self).state)) % bound,
            final(self).state == next_state(old(self).state),
    {
        let x = self.next_u64();
        x % bound
    }

    /// A uniform-style colour draw in `1 ..= k`.
    pub fn color(&mut self, k: usize) -> (c: usize)
        requires
            1 <= k,
        ensures
            1 <= c <= k,
    {
        let r = self.below(k as u64);
        (r as usize) + 1
    }

    /// A biased coin: true with weight `num` out of `den`.
    pub fn ratio(&mut self, num: u32, den: u32) -> (r: bool)
        requires
            1 <= den,
        ensures
            num == 0 ==> !r,
            num >= den ==> r,
    {
        let x = self.below(den as u64);
        x < num as u64
    }

    /// One draw from the discretized heavy-tailed step distribution: an
    /// approximately standard-normal integer `x` (in units of 1/2^16,
    /// from the sum of twelve uniform draws), then
    /// `round(lambda / x^2)` computed exactly in integers.  `None` stands
    /// for the pole at `x == 0`.
    fn levy(&mut self, lambda_centi: u32) -> (r: Option<u64>)
        requires
            1 <= lambda_centi <= 100000,
    {
        let mut acc: u64 = 0;
        let mut i: usize = 0;
        while i < 12
            invariant
                i <= 12,
                acc <= i * 65535,
            decreases 12 - i,
        {
            let d = self.below(65536);
            acc = acc + d;
            i += 1;
        }
        let mag: u64 = if acc >= 393210 {
            acc - 393210
        } else {
            393210 - acc
        };
        if mag == 0 {
            return None;
        }
        proof {
            assert(mag <= 393210);
            assert((mag as u128) * (mag as u128) <= 393210u128 * 393210u128)
                by (nonlinear_arith)
                requires
                    mag as u128 <= 393210u128,
            ;
            assert((mag as u128) * (mag as u128) >= 1) by (nonlinear_arith)
                requires
                    mag as u128 >= 1,
            ;
            assert((lambda_centi as u128) * 0x1_0000_0000u128 <= 100000u128
                * 0x1_0000_0000u128) by (nonlinear_arith)
                requires
                    lambda_centi as u128 <= 100000u128,
            ;
        }
        let x2: u128 = (mag as u128) * (mag as u128);
        let num: u128 = (lambda_centi as u128) * 0x1_0000_0000u128;
        let den: u128 = 100u128 * x2;
        let val: u128 = (num + den / 2) / den;
        proof {
            assert(val <= num + den / 2) by (nonlinear_arith)
                requires
                    val as int == ((num as int) + (den as int) / 2) / (den as int),
                    den as int >= 1,
                    num as int >= 0,
            ;
        }
        Some(val as u64)
    }

    /// Sample from the heavy-tailed distribution until a value below
    /// `limit` appears.  The rejection loop is capped: if no draw lands in
    /// range, the step count falls back to zero rather than looping
    /// forever on an unreachable range.
    pub fn adjusted_levy(&mut self, limit: usize, lambda_centi: u32) -> (r: usize)
        requires
            1 <= limit,
            1 <= lambda_centi <= 100000,
        ensures
            r < limit,
    {
        let mut tries: usize = 0;
        while tries < 64
            invariant
                1 <= limit,
                1 <= lambda_centi <= 100000,
            decreases 64 - tries,
        {
            match self.levy(lambda_centi) {
                Some(v) => {
                    if v < limit as u64 {
                        return v as usize;
                    }
                },
                None => {},
            }
            tries += 1;
        }
        0
    }

    /// `amount` distinct positions drawn from `0 .. n`, by a partial
    /// shuffle of the position pool.
    pub fn sample_distinct(&mut self, n: usize, amount: usize) -> (r: Vec<usize>)
        requires
            amount <= n,
        ensures
            r@.len() == amount,
            r@.no_duplicates(),
            forall|j: int| 0 <= j < amount ==> (#[trigger] r@[j]) < n,
    {
        let mut pool: Vec<usize> = Vec::new();
        let mut i: usize = 0;
        while i < n
            invariant
                i <= n,
                pool@.len() == i,
                forall|j: int| 0 <= j < i ==> (#[trigger] pool@[j]) == j,
            decreases n - i,
        {
            pool.push(i);
            i += 1;
        }
        proof {
            assert forall|x: int, y: int| 0 <= x < y < pool@.len() implies pool@[x] != pool@[y]
                by {}
            assert(pool@.no_duplicates());
        }
        let mut t: usize = 0;
        while t < amount
            invariant
                t <= amount,
                amount <= n,
                pool@.len() == n,
                pool@.no_duplicates(),
                forall|j: int| 0 <= j < n ==> (#[trigger] pool@[j]) < n,
            decreases amount - t,
        {
            let off = self.below((n - t) as u64);
            let jj = t + (off as usize);
            let ghost pre = pool@;
            let a = pool[t];
            let b = pool[jj];
            pool[t] = b;
            pool[jj] = a;
            proof {
                lemma_swap_nodup(pre, t as int, jj as int);
                assert(pool@ =~= pre.update(t as int, pre[jj as int]).update(
                    jj as int,
                    pre[t as int],
                ));
            }
            t += 1;
        }
        let mut r: Vec<usize> = Vec::new();
        let mut q: usize = 0;
        while q < amount
            invariant
                q <= amount,
                amount <= n,
                pool@.len() == n,
                pool@.no_duplicates(),
                forall|j: int| 0 <= j < n ==> (#[trigger] pool@[j]) < n,
                r@ == pool@.take(q as int),
            decreases amount - q,
        {
            r.push(pool[q]);
            proof {
                assert(r@ =~= pool@.take(q + 1));
            }
            q += 1;
        }
        proof {
            assert forall|x: int, y: int| 0 <= x < y < r@.len() implies r@[x] != r@[y] by {
                assert(r@[x] == pool@[x] && r@[y] == pool@[y]);
            }
            assert(r@.no_duplicates());
        }
        r
    }
}

/// Swapping two entries keeps a sequence duplicate-free.
proof fn lemma_swap_nodup(s: Seq<usize>, i: int, j: int)
    requires
        0 <= i < s.len(),
        0 <= j < s.len(),
        s.no_duplicates(),
    ensures
        s.update(i, s[j]).update(j, s[i]).no_duplicates(),
{
    let t = s.update(i, s[j]).update(j, s[i]);
    assert forall|x: int, y: int| 0 <= x < y < t.len() implies t[x] != t[y] by {
        assert(t[x] == (if x == j {
            s[i]
        } else if x == i {
            s[j]
        } else {
            s[x]
        }));
        assert(t[y] == (if y == j {
            s[i]
        } else if y == i {
            s[j]
        } else {
            s[y]
        }));
    }
}

} // verus!
