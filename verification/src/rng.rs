//! The seeded pseudo-random stream that every randomised stage draws from.
//!
//! A generator is made from a 64-bit seed and then answers one request after
//! another. What it answers depends on nothing but the seed and the requests
//! that came before, and that is all the contracts in this crate rely on:
//! they follow a generator by its [`RngTrace`] and speak of its answers by
//! name, without saying how the stream computes them.

use rand::rngs::StdRng;
use rand::Rng;
use rand::SeedableRng;
use vstd::prelude::*;

verus! {

/// `rand::rngs::StdRng`, the generator that the stream comes from. It is
/// carried as an opaque value.
#[verifier::external_type_specification]
#[verifier::external_body]
pub struct ExStdRng(StdRng);

/// One request made of a generator.
pub enum Draw {
    /// A signed integer between `lo` and `hi`, both included.
    Span { lo: i32, hi: i32 },
    /// An index from `low` up to, but not including, `high`.
    Index { low: usize, high: usize },
    /// A coin that lands `true` with probability `numerator / denominator`.
    Ratio { numerator: u32, denominator: u32 },
}

/// What a contract knows of a generator: the seed it was made from and the
/// requests it has answered since, oldest first.
pub struct RngTrace {
    pub seed: u64,
    pub asked: Seq<Draw>,
}

/// The integer that a generator made from `seed` returns when, having
/// answered `asked`, it is asked for one between `lo` and `hi`: the
/// result of `Rng::random_range` on `lo..=hi`.
pub uninterp spec fn span_outcome(seed: u64, asked: Seq<Draw>, lo: i32, hi: i32) -> i32;

/// The index that a generator made from `seed` returns when, having
/// answered `asked`, it is asked for one from `low` up to `high`: the
/// result of `Rng::random_range` on `low..high`.
pub uninterp spec fn index_outcome(seed: u64, asked: Seq<Draw>, low: usize, high: usize) -> usize;

/// How the coin lands that a generator made from `seed` tosses when, having
/// answered `asked`, it is asked for one with the given odds: the result
/// of `Rng::random_ratio`.
pub uninterp spec fn ratio_outcome(
    seed: u64,
    asked: Seq<Draw>,
    numerator: u32,
    denominator: u32,
) -> bool;

impl RngTrace {
    /// A generator that has just been made from `seed`.
    pub open spec fn fresh(seed: u64) -> RngTrace {
        RngTrace { seed, asked: Seq::empty() }
    }

    /// The same generator after one more request.
    pub open spec fn after(self, draw: Draw) -> RngTrace {
        RngTrace { seed: self.seed, asked: self.asked.push(draw) }
    }

    /// What this generator answers next if asked for an integer between
    /// `lo` and `hi`.
    pub open spec fn span(self, lo: i32, hi: i32) -> i32 {
        span_outcome(self.seed, self.asked, lo, hi)
    }

    pub open spec fn after_span(self, lo: i32, hi: i32) -> RngTrace {
        self.after(Draw::Span { lo, hi })
    }

    /// What this generator answers next if asked for an index from `low`
    /// up to `high`.
    pub open spec fn index(self, low: usize, high: usize) -> usize {
        index_outcome(self.seed, self.asked, low, high)
    }

    pub open spec fn after_index(self, low: usize, high: usize) -> RngTrace {
        self.after(Draw::Index { low, high })
    }

    /// How this generator's next coin lands at the given odds.
    pub open spec fn ratio(self, numerator: u32, denominator: u32) -> bool {
        ratio_outcome(self.seed, self.asked, numerator, denominator)
    }

    pub open spec fn after_ratio(self, numerator: u32, denominator: u32) -> RngTrace {
        self.after(Draw::Ratio { numerator, denominator })
    }
}

/// A generator together with the record of what has been asked of it. It
/// can only be made from a seed, so the record is complete.
pub struct SeededRng {
    inner: StdRng,
    trace: Ghost<RngTrace>,
}

impl View for SeededRng {
    type V = RngTrace;

    closed spec fn view(&self) -> RngTrace {
        self.trace@
    }
}

impl SeededRng {
    /// Calls `StdRng::seed_from_u64`. The contract claims nothing of the
    /// generator but that it is new: nothing has been asked of it.
    #[verifier::external_body]
    pub(crate) fn from_seed(seed: u64) -> (rng: SeededRng)
        ensures
            rng@ == RngTrace::fresh(seed),
    {
        SeededRng { inner: StdRng::seed_from_u64(seed), trace: Ghost(RngTrace::fresh(seed)) }
    }

    /// Calls `Rng::random_range` on the inclusive range `lo..=hi` of `i32`,
    /// which panics on an empty range. The contract claims that the answer
    /// lies in the range and that it is the one answer a generator with
    /// this seed gives at this point of its history.
    #[verifier::external_body]
    pub(crate) fn span(&mut self, lo: i32, hi: i32) -> (value: i32)
        requires
            lo <= hi,
        ensures
            value == span_outcome(old(self)@.seed, old(self)@.asked, lo, hi),
            lo <= value <= hi,
            final(self)@ == old(self)@.after(Draw::Span { lo, hi }),
    {
        self.inner.random_range(lo..=hi)
    }

    /// Calls `Rng::random_range` on the half-open range `low..high` of
    /// `usize`, which panics on an empty range. The contract claims that
    /// the answer lies in the range and that it is the one answer a
    /// generator with this seed gives at this point of its history.
    #[verifier::external_body]
    pub(crate) fn index(&mut self, low: usize, high: usize) -> (value: usize)
        requires
            low < high,
        ensures
            value == index_outcome(old(self)@.seed, old(self)@.asked, low, high),
            low <= value < high,
            final(self)@ == old(self)@.after(Draw::Index { low, high }),
    {
        self.inner.random_range(low..high)
    }

    /// Calls `Rng::random_ratio`, which panics when the denominator is zero
    /// or smaller than the numerator. The contract claims that the answer
    /// is the one a generator with this seed gives at this point of its
    /// history.
    #[verifier::external_body]
    pub(crate) fn ratio(&mut self, numerator: u32, denominator: u32) -> (heads: bool)
        requires
            denominator > 0,
            numerator <= denominator,
        ensures
            heads == ratio_outcome(old(self)@.seed, old(self)@.asked, numerator, denominator),
            final(self)@ == old(self)@.after(Draw::Ratio { numerator, denominator }),
    {
        self.inner.random_ratio(numerator, denominator)
    }
}

} // verus!
