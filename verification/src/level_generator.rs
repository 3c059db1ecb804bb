//! Random level selection for new skip-list nodes.
//!
//! Probabilities are held in fixed point: a threshold `t` stands for the
//! probability `t / 2^64`, and a sample is a uniformly drawn `u64`. A sample
//! passes a threshold when it is smaller than it.

use vstd::prelude::*;

verus! {

/// The number of levels a generator allows unless told otherwise.
pub const DEFAULT_LEVELS: usize = 32;

/// One half, in units of `2^-64`.
pub const DEFAULT_PROPABILITY: u64 = 0x8000_0000_0000_0000;

/// `rand::rngs::StdRng`, carried as a value of which nothing is known.
#[verifier::external_type_specification]
#[verifier::external_body]
pub struct ExStdRng(rand::rngs::StdRng);

/// `SeedableRng::from_entropy` for `StdRng`: a generator seeded by the
/// operating system. Nothing is claimed of the generator that comes back.
/// The call panics where the operating system has no entropy to give, which
/// no argument decides.
#[verifier::external_body]
pub(crate) fn entropy_rng() -> rand::rngs::StdRng {
    rand::SeedableRng::from_entropy()
}

/// `Rng::gen` at type `u64`: the next 64 bits of the generator. Nothing is
/// claimed of the value drawn; the call is taken not to unwind, as the
/// generator only advances its block counter.
#[verifier::external_body]
fn draw_sample(rng: &mut rand::rngs::StdRng) -> u64
    no_unwind
{
    rand::Rng::gen(rng)
}

/// `Rng::gen_range` over `0..bound`: an index below `bound`, which must be
/// positive because the call panics on an empty range.
#[verifier::external_body]
pub(crate) fn draw_below(rng: &mut rand::rngs::StdRng, bound: usize) -> (index: usize)
    requires
        bound > 0,
    ensures
        index < bound,
{
    rand::Rng::gen_range(rng, 0, bound)
}

/// The square of a fixed-point probability.
pub open spec fn squared(threshold: u64) -> u64 {
    ((threshold as int * threshold as int) / 0x1_0000_0000_0000_0000) as u64
}

/// How many thresholds in a row `sample` passes, starting at `threshold` and
/// squaring after each, with at most `limit` of them tried.
pub open spec fn climb(sample: u64, threshold: u64, limit: nat) -> nat
    decreases limit,
{
    if limit == 0 || sample >= threshold {
        0
    } else {
        1 + climb(sample, squared(threshold), (limit - 1) as nat)
    }
}

/// The level a sample yields: its climb, held below `levels` when it reaches
/// the current limit.
pub open spec fn level_of(sample: u64, threshold: u64, limit: nat, levels: nat) -> nat {
    let raw = climb(sample, threshold, limit);
    if raw == limit && raw >= levels {
        (levels - 1) as nat
    } else {
        raw
    }
}

/// The limit after `level` was handed out under `limit`.
pub open spec fn limit_after(level: nat, raw: nat, limit: nat) -> nat {
    if raw == limit {
        level + 1
    } else {
        limit
    }
}

fn square(threshold: u64) -> (r: u64)
    ensures
        r == squared(threshold),
{
    let wide: u128 = threshold as u128;
    assert(wide * wide <= 0xFFFF_FFFF_FFFF_FFFF * 0xFFFF_FFFF_FFFF_FFFF) by (nonlinear_arith)
        requires
            0 <= wide <= 0xFFFF_FFFF_FFFF_FFFF,
    ;
    let product: u128 = wide * wide;
    let scaled: u128 = product / 0x1_0000_0000_0000_0000u128;
    scaled as u64
}

/// Chooses the level of each new node: level `k` needs a sample that passes
/// `k` thresholds, each the square of the one before, and no level lies more
/// than one above the highest handed out so far.
pub struct LevelGenerator {
    threshold: u64,
    levels: usize,
    cur_level_limit: usize,
    rng: rand::rngs::StdRng,
}

impl LevelGenerator {
    #[verifier::type_invariant]
    spec fn inv(self) -> bool {
        1 <= self.levels && self.cur_level_limit <= self.levels
    }

    /// The probability of the first threshold, in units of `2^-64`.
    pub closed spec fn probability(&self) -> u64 {
        self.threshold
    }

    /// The number of levels this generator may hand out.
    pub closed spec fn max_levels(&self) -> nat {
        self.levels as nat
    }

    /// One more than the highest level handed out so far, or 0 at the start.
    pub closed spec fn limit(&self) -> nat {
        self.cur_level_limit as nat
    }

    /// A generator with the default probability and number of levels.
    pub fn new() -> (lg: Self)
        ensures
            lg.probability() == DEFAULT_PROPABILITY,
            lg.max_levels() == DEFAULT_LEVELS,
            lg.limit() == 0,
    {
        Self::with_config(DEFAULT_PROPABILITY, DEFAULT_LEVELS)
    }

    /// A generator with the probability `p`, in units of `2^-64`, and the
    /// default number of levels.
    pub fn with_propability(p: u64) -> (lg: Self)
        ensures
            lg.probability() == p,
            lg.max_levels() == DEFAULT_LEVELS,
            lg.limit() == 0,
    {
        Self::with_config(p, DEFAULT_LEVELS)
    }

    /// A generator with the probability `p`, in units of `2^-64`, that hands
    /// out the levels below `levels`.
    pub fn with_config(p: u64, levels: usize) -> (lg: Self)
        requires
            levels >= 1,
        ensures
            lg.probability() == p,
            lg.max_levels() == levels,
            lg.limit() == 0,
    {
        Self { threshold: p, levels, cur_level_limit: 0, rng: entropy_rng() }
    }

    /// The level that `sample` yields, and the limit raised when the level
    /// reached it.
    pub fn choose_with(&mut self, sample: u64) -> (level: usize)
        ensures
            level == level_of(
                sample,
                old(self).probability(),
                old(self).limit(),
                old(self).max_levels(),
            ),
            final(self).limit() == limit_after(
                level as nat,
                climb(sample, old(self).probability(), old(self).limit()),
                old(self).limit(),
            ),
            final(self).probability() == old(self).probability(),
            final(self).max_levels() == old(self).max_levels(),
            level <= old(self).limit(),
            level < old(self).max_levels(),
            old(self).limit() <= final(self).limit() <= old(self).limit() + 1,
            level < final(self).limit(),
    {
        proof {
            use_type_invariant(&*self);
        }
        let mut level: usize = 0;
        let mut p: u64 = self.threshold;
        let limit: usize = self.cur_level_limit;
        while sample < p && level < limit
            invariant
                level <= limit,
                climb(sample, self.threshold, limit as nat) == level + climb(
                    sample,
                    p,
                    (limit - level) as nat,
                ),
            decreases limit - level,
        {
            level += 1;
            p = square(p);
        }
        if level == limit {
            if level >= self.levels {
                level = self.levels - 1;
            }
            self.cur_level_limit = level + 1;
        }
        level
    }

    /// Draws a sample and chooses the level it yields.
    pub fn choose_level(&mut self) -> (level: usize)
        ensures
            exists|sample: u64|
                {
                    &&& level == #[trigger] level_of(
                        sample,
                        old(self).probability(),
                        old(self).limit(),
                        old(self).max_levels(),
                    )
                    &&& final(self).limit() == limit_after(
                        level as nat,
                        climb(sample, old(self).probability(), old(self).limit()),
                        old(self).limit(),
                    )
                },
            final(self).probability() == old(self).probability(),
            final(self).max_levels() == old(self).max_levels(),
            level <= old(self).limit(),
            level < old(self).max_levels(),
            old(self).limit() <= final(self).limit() <= old(self).limit() + 1,
            level < final(self).limit(),
    {
        proof {
            use_type_invariant(&*self);
        }
        let sample = draw_sample(&mut self.rng);
        let level = self.choose_with(sample);
        assert(level == level_of(
            sample,
            old(self).probability(),
            old(self).limit(),
            old(self).max_levels(),
        ));
        level
    }

    /// Lowers the limit by one, down to 0 at most, and returns it. The lists
    /// never call this: a list that loses its tallest node keeps its limit.
    pub fn shrink(&mut self) -> (limit: usize)
        ensures
            limit == final(self).limit(),
            final(self).limit() == if old(self).limit() > 0 {
                old(self).limit() - 1
            } else {
                0
            },
            final(self).probability() == old(self).probability(),
            final(self).max_levels() == old(self).max_levels(),
    {
        proof {
            use_type_invariant(&*self);
        }
        if self.cur_level_limit > 0 {
            self.cur_level_limit -= 1;
        }
        self.cur_level_limit
    }
}

impl Clone for LevelGenerator {
    /// A generator of the same configuration that starts over: its limit is
    /// 0 and its random state is its own.
    fn clone(&self) -> (lg: Self)
        ensures
            lg.probability() == self.probability(),
            lg.max_levels() == self.max_levels(),
            lg.limit() == 0,
    {
        proof {
            use_type_invariant(self);
        }
        Self::with_config(self.threshold, self.levels)
    }
}

} // verus!
