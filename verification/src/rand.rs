//! Deterministic random stream: a seeded generator producing uniform draws in
//! half-open ranges, with a `rewind` primitive that rebuilds a generator so
//! that the very same sequence of range requests replays the very same draws.
use vstd::prelude::*;

use tinyrand::RandRange;
use tinyrand::Seeded;

verus! {

#[verifier::external_type_specification]
#[verifier::external_body]
pub struct ExStdRand(tinyrand::StdRand);

/// The draw a generator seeded with `seed` produces for the range `[lo, hi)`
/// after having already served the range requests in `history`.  The
/// generator's state is a pure function of its seed and of the ranges served
/// so far, so the draw is one too; nothing more is assumed about its value
/// beyond the bounds the wrappers state.
pub uninterp spec fn range_draw(seed: u64, history: Seq<(u64, u64)>, lo: u64, hi: u64) -> u64;

/// A request for a generator value in an empty range is a configuration
/// error, reported before any draw is made.
#[derive(Clone, Copy, Debug, PartialEq, Eq, Structural)]
pub enum GenError {
    InvalidRange,
}

/// A seeded deterministic generator.  The ghost fields record the seed it was
/// built from and every range it has served, which together determine its
/// concrete state; the contracts of `next_range` speak over them.
pub struct Rng {
    inner: tinyrand::StdRand,
    seed: Ghost<u64>,
    history: Ghost<Seq<(u64, u64)>>,
}

/// Relies on `tinyrand::Seeded::seed` for `StdRand`: the returned generator's
/// state is a function of the seed alone.
#[verifier::external_body]
fn seeded_generator(seed: u64) -> tinyrand::StdRand {
    tinyrand::StdRand::seed(seed)
}

/// Relies on `fastrand::u64` over the full range for seed entropy; nothing is
/// assumed about the value drawn.
#[verifier::external_body]
fn entropy_seed() -> u64 {
    fastrand::u64(..)
}

impl Rng {
    /// The seed this generator was built from.
    pub closed spec fn seed(self) -> u64 {
        self.seed@
    }

    /// Every range request this generator has served, oldest first.
    pub closed spec fn history(self) -> Seq<(u64, u64)> {
        self.history@
    }

    /// Relies on `tinyrand::RandRange::<u64>::next_range` for `StdRand`: the
    /// draw lies in `[lo, hi)` and, the generator being a pure state machine,
    /// is a function of the seed and of the ranges served so far.  The call
    /// panics on an empty range, which `requires` leaves out.
    #[verifier::external_body]
    pub fn next_range(&mut self, lo: u64, hi: u64) -> (r: u64)
        requires
            lo < hi,
        ensures
            final(self).seed() == old(self).seed(),
            final(self).history() == old(self).history().push((lo, hi)),
            r == range_draw(old(self).seed(), old(self).history(), lo, hi),
            lo <= r < hi,
    {
        self.inner.next_range(lo..hi)
    }

    /// Like `next_range`, but reports an empty range as `InvalidRange`
    /// instead of demanding a non-empty one from the caller.
    pub fn try_next_range(&mut self, lo: u64, hi: u64) -> (r: Result<u64, GenError>)
        ensures
            lo < hi <==> r is Ok,
            lo < hi ==> {
                &&& r == Ok::<u64, GenError>(range_draw(old(self).seed(), old(self).history(), lo, hi))
                &&& lo <= r->Ok_0 < hi
                &&& final(self).seed() == old(self).seed()
                &&& final(self).history() == old(self).history().push((lo, hi))
            },
            lo >= hi ==> r == Err::<u64, GenError>(GenError::InvalidRange) && *final(self) == *old(self),
    {
        if lo < hi {
            Ok(self.next_range(lo, hi))
        } else {
            Err(GenError::InvalidRange)
        }
    }
}

/// Rebuilds the generator that `init` returned for this seed, at its starting
/// state: the same range requests will replay the same draws.
pub fn rewind(seed: u64) -> (g: Rng)
    ensures
        g.seed() == seed,
        g.history() == Seq::<(u64, u64)>::empty(),
{
    Rng { inner: seeded_generator(seed), seed: Ghost(seed), history: Ghost(Seq::empty()) }
}

/// Creates a generator seeded from an entropy source and returns the seed
/// beside it, so that `rewind` can later replay the same stream.
pub fn init() -> (r: (u64, Rng))
    ensures
        r.1.seed() == r.0,
        r.1.history() == Seq::<(u64, u64)>::empty(),
{
    let seed = entropy_seed();
    (seed, rewind(seed))
}

/// `history` after `count` draws over the fixed range `[lo, hi)`, appended to
/// `prefix`.
pub open spec fn repeat_range(prefix: Seq<(u64, u64)>, lo: u64, hi: u64, count: nat) -> Seq<(u64, u64)> {
    prefix + Seq::new(count, |i: int| (lo, hi))
}

/// The draws a generator seeded with `seed`, having already served `prefix`,
/// produces for `count` successive requests of the fixed range `[lo, hi)`.
pub open spec fn stream_of(seed: u64, prefix: Seq<(u64, u64)>, count: nat, lo: u64, hi: u64) -> Seq<u64> {
    Seq::new(count, |k: int| range_draw(seed, repeat_range(prefix, lo, hi, k as nat), lo, hi))
}

/// Draws `count` values in `[lo, hi)` from the generator.  The result is
/// `stream_of` the generator's seed and past history alone, which is what
/// makes the sampling pass and the emission pass of a column agree.
pub fn draw_stream(g: &mut Rng, count: usize, lo: u64, hi: u64) -> (r: Vec<u64>)
    requires
        lo < hi,
    ensures
        r@ == stream_of(old(g).seed(), old(g).history(), count as nat, lo, hi),
        r@.len() == count,
        forall|i: int| 0 <= i < count ==> lo <= #[trigger] r@[i] < hi,
        final(g).seed() == old(g).seed(),
        final(g).history() == repeat_range(old(g).history(), lo, hi, count as nat),
{
    let ghost seed = g.seed();
    let ghost prefix = g.history();
    let mut out: Vec<u64> = Vec::new();
    let mut k: usize = 0;
    while k < count
        invariant
            lo < hi,
            k <= count,
            out@.len() == k,
            g.seed() == seed,
            g.history() == repeat_range(prefix, lo, hi, k as nat),
            out@ == stream_of(seed, prefix, k as nat, lo, hi),
            forall|i: int| 0 <= i < k ==> lo <= #[trigger] out@[i] < hi,
        decreases count - k,
    {
        let v = g.next_range(lo, hi);
        out.push(v);
        k = k + 1;
        proof {
            assert(g.history() =~= repeat_range(prefix, lo, hi, k as nat));
            assert(out@ =~= stream_of(seed, prefix, k as nat, lo, hi));
        }
    }
    proof {
        assert(out@ =~= stream_of(seed, prefix, count as nat, lo, hi));
    }
    out
}

/// Replay: any two generators built from the same seed that have served the
/// same range requests produce the same next draw; composed with `rewind`,
/// an identical sequence of range calls reproduces the identical sequence of
/// draws the original generator gave.
pub proof fn lemma_replay(g1: Rng, g2: Rng, lo: u64, hi: u64)
    requires
        g1.seed() == g2.seed(),
        g1.history() == g2.history(),
    ensures
        range_draw(g1.seed(), g1.history(), lo, hi) == range_draw(g2.seed(), g2.history(), lo, hi),
{
}

} // verus!
