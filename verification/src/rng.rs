//! The seeded random source generation draws from, backed by the wyrand
//! generator, with every draw pinned to a function of the seed and the draw
//! index.

use vstd::prelude::*;

verus! {

/// The value that the wyrand generator seeded with `seed` produces on its
/// `n`-th draw (counting from zero).  wyrand is a deterministic pseudo-random
/// generator: its whole output stream is a function of the seed alone, so the
/// draws can be given a name even though their values are not written out here.
pub uninterp spec fn wy_stream(seed: u64, n: nat) -> u64;

/// How a raw 64-bit draw is reduced to the half-open range `[lo, hi)`.
/// A span of one value or less yields `lo` itself, so a degenerate range
/// never fails; otherwise the draw is taken modulo the span.
pub open spec fn range_reduce(raw: u64, lo: int, hi: int) -> int {
    if hi - lo <= 1 {
        lo
    } else {
        lo + (raw as int) % (hi - lo)
    }
}

/// A seeded pseudo-random source for dungeon generation, backed by the
/// wyrand generator.  The ghost fields record the seed it was built with and
/// how many draws have been taken, so that every draw is pinned, through
/// `wy_stream`, to a function of the seed and the draw index alone.
pub struct DungeonRng {
    inner: wyrand::WyRand,
    seed_g: Ghost<u64>,
    drawn_g: Ghost<nat>,
}

#[verifier::external_type_specification]
#[verifier::external_body]
pub struct ExWyRand(wyrand::WyRand);

/// Relies on wyrand::WyRand::new: builds the generator whose state is exactly
/// the given seed, before any draw has been taken.
#[verifier::external_body]
fn wyrand_seeded(seed: u64) -> wyrand::WyRand {
    wyrand::WyRand::new(seed)
}

impl DungeonRng {
    /// The seed this source was built with.
    pub closed spec fn seed(self) -> u64 {
        self.seed_g@
    }

    /// How many draws have been taken from this source so far.
    pub closed spec fn drawn(self) -> nat {
        self.drawn_g@
    }

    /// Relies on wyrand::WyRand::rand: advances the generator state once and
    /// returns the next value of the stream, which is a function of the seed
    /// and of how many draws came before.  The ghost fields hold the seed the
    /// inner generator was built from and the number of draws already taken,
    /// which only this module's code maintains.
    #[verifier::external_body]
    fn next_raw(&mut self) -> (r: u64)
        ensures
            final(self).seed() == old(self).seed(),
            final(self).drawn() == old(self).drawn() + 1,
            r == wy_stream(old(self).seed(), old(self).drawn()),
    {
        self.inner.rand()
    }

    /// Draws one value uniformly-by-modulus from the half-open range
    /// `[lo, hi)`.  A range that holds at most one value yields `lo` without
    /// consulting the draw, so a degenerate span never fails; one raw draw is
    /// consumed either way, keeping the draw count in step with the stream.
    pub fn range_draw(&mut self, lo: i32, hi: i32) -> (r: i32)
        requires
            0 <= lo <= hi,
        ensures
            final(self).seed() == old(self).seed(),
            final(self).drawn() == old(self).drawn() + 1,
            r == range_reduce(wy_stream(old(self).seed(), old(self).drawn()), lo as int, hi as int),
            hi - lo <= 1 ==> r == lo,
            hi - lo >= 2 ==> lo <= r < hi,
    {
        let raw = self.next_raw();
        let span = hi - lo;
        if span <= 1 {
            lo
        } else {
            let m: u64 = raw % (span as u64);
            lo + (m as i32)
        }
    }
}

/// Builds a fresh seeded random source.  Two sources built with the same seed
/// stand for the same draw stream, which is what makes generation replayable.
pub fn rng_with_seed(seed: u64) -> (r: DungeonRng)
    ensures
        r.seed() == seed,
        r.drawn() == 0,
{
    DungeonRng { inner: wyrand_seeded(seed), seed_g: Ghost(seed), drawn_g: Ghost(0nat) }
}

} // verus!

verus! {

/// A non-degenerate range reduction lands inside the range; any reduction
/// never falls below `lo`.
pub proof fn lemma_range_reduce_bounds(raw: u64, lo: int, hi: int)
    requires
        lo < hi,
    ensures
        lo <= range_reduce(raw, lo, hi) < hi,
{
    if hi - lo >= 2 {
        let r = raw as int;
        assert(0 <= r % (hi - lo) < hi - lo) by (nonlinear_arith)
            requires
                r >= 0,
                hi - lo >= 2,
        ;
    }
}

} // verus!
