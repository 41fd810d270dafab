//! The injected randomness capability.
//!
//! Evaluation consumes randomness through exactly one operation: drawing a
//! uniformly distributed integer from a half-open range. The capability keeps
//! a ghost history of every value it has handed out, which is what lets the
//! evaluator's contract pin its result down as a function of the tree and the
//! drawn values alone.

use vstd::prelude::*;

verus! {

/// A source of randomness: one range-draw operation.
///
/// `history()` is the abstract record of every value the source has returned
/// so far, oldest first; `draw` must return a value inside the requested
/// half-open range and append it to that record.
pub trait RandomSource {
    /// Every value this source has returned so far, oldest first.
    spec fn history(&self) -> Seq<u64>;

    /// Draws one value from `[low, high)`.
    fn draw(&mut self, low: u64, high: u64) -> (r: u64)
        requires
            low < high,
        ensures
            low <= r < high,
            final(self).history() == old(self).history().push(r),
    ;
}

/// What one draw from a fixed script returns: the next scripted value if it
/// lies in the requested range, and the range's lower bound otherwise.
pub open spec fn fixed_pick(remaining: Seq<u64>, low: u64, high: u64) -> u64 {
    if remaining.len() > 0 && low <= remaining[0] < high {
        remaining[0]
    } else {
        low
    }
}

/// A deterministic source fed from a fixed list of values, for reproducible
/// evaluation: each draw consumes the next scripted value and returns it if
/// it lies in the requested range, and the range's lower bound otherwise.
pub struct FixedSource {
    values: Vec<u64>,
    index: usize,
    hist: Ghost<Seq<u64>>,
}

impl FixedSource {
    /// The scripted values not yet handed out.
    pub closed spec fn remaining(&self) -> Seq<u64> {
        if self.index <= self.values@.len() {
            self.values@.skip(self.index as int)
        } else {
            Seq::empty()
        }
    }

    /// A source that will hand out the given values in order.
    pub fn new(values: Vec<u64>) -> (s: FixedSource)
        ensures
            s.remaining() == values@,
            s.history() == Seq::<u64>::empty(),
    {
        let s = FixedSource { values, index: 0, hist: Ghost(Seq::empty()) };
        proof {
            assert(s.remaining() =~= s.values@);
        }
        s
    }
}

impl RandomSource for FixedSource {
    closed spec fn history(&self) -> Seq<u64> {
        self.hist@
    }

    fn draw(&mut self, low: u64, high: u64) -> (r: u64)
        ensures
            r == fixed_pick(old(self).remaining(), low, high),
            final(self).remaining() == old(self).remaining().skip(
                if old(self).remaining().len() > 0 {
                    1int
                } else {
                    0int
                },
            ),
    {
        let r = if self.index < self.values.len() {
            let v = self.values[self.index];
            self.index = self.index + 1;
            proof {
                assert(self.values@.skip(self.index as int) =~= old(self).remaining().skip(1));
            }
            if low <= v && v < high {
                v
            } else {
                low
            }
        } else {
            proof {
                assert(old(self).remaining().len() == 0);
                assert(self.remaining() =~= old(self).remaining().skip(0));
            }
            low
        };
        proof {
            self.hist@ = self.hist@.push(r);
        }
        r
    }
}

/// Declares rand_chacha's ChaCha12 generator type, so that a value of it can
/// be held and passed through; nothing of its inside is visible here.
#[verifier::external_type_specification]
#[verifier::external_body]
pub struct ExChaCha12Rng(rand_chacha::ChaCha12Rng);

/// Relies on `SeedableRng::seed_from_u64` for ChaCha12: a generator whose
/// stream is a function of the seed alone. Nothing is assumed of it.
#[verifier::external_body]
fn chacha_from_seed(seed: u64) -> rand_chacha::ChaCha12Rng {
    <rand_chacha::ChaCha12Rng as rand::SeedableRng>::seed_from_u64(seed)
}

/// Relies on `rand::Rng::random_range` over `low..high`: a uniformly
/// distributed value inside the half-open range. The call panics only on an
/// empty range, which the precondition rules out.
#[verifier::external_body]
fn chacha_draw_range(rng: &mut rand_chacha::ChaCha12Rng, low: u64, high: u64) -> (r: u64)
    requires
        low < high,
    ensures
        low <= r < high,
{
    rand::Rng::random_range(rng, low..high)
}

/// A seeded, reproducible source of randomness: the ChaCha12 generator
/// behind the [`RandomSource`] capability. Equal seeds give equal streams of
/// draws, which is what makes evaluation reproducible end to end.
pub struct SeededSource {
    rng: rand_chacha::ChaCha12Rng,
    hist: Ghost<Seq<u64>>,
}

impl SeededSource {
    /// A reproducible source seeded from the value.
    pub fn from_seed(seed: u64) -> (s: SeededSource)
        ensures
            s.history() == Seq::<u64>::empty(),
    {
        SeededSource { rng: chacha_from_seed(seed), hist: Ghost(Seq::empty()) }
    }
}

impl RandomSource for SeededSource {
    closed spec fn history(&self) -> Seq<u64> {
        self.hist@
    }

    fn draw(&mut self, low: u64, high: u64) -> (r: u64) {
        let r = chacha_draw_range(&mut self.rng, low, high);
        proof {
            self.hist@ = self.hist@.push(r);
        }
        r
    }
}

/// Declares rand's thread-local generator type, so that a value of it can be
/// held and passed through; nothing of its inside is visible here.
#[verifier::external_type_specification]
#[verifier::external_body]
pub struct ExThreadRng(rand::rngs::ThreadRng);

/// Relies on `rand::rng`: a handle to the thread-local generator. Nothing is
/// assumed of it.
#[verifier::external_body]
fn new_thread_rng() -> rand::rngs::ThreadRng {
    rand::rng()
}

/// Relies on `rand::Rng::random_range` over `low..high`: a uniformly
/// distributed value inside the half-open range. The call panics only on an
/// empty range, which the precondition rules out.
#[verifier::external_body]
fn draw_range(rng: &mut rand::rngs::ThreadRng, low: u64, high: u64) -> (r: u64)
    requires
        low < high,
    ensures
        low <= r < high,
{
    rand::Rng::random_range(rng, low..high)
}

/// The real source of randomness: rand's thread-local generator behind the
/// [`RandomSource`] capability.
pub struct ThreadRandomSource {
    rng: rand::rngs::ThreadRng,
    hist: Ghost<Seq<u64>>,
}

impl ThreadRandomSource {
    /// A source drawing from the thread-local generator.
    pub fn new() -> (s: ThreadRandomSource)
        ensures
            s.history() == Seq::<u64>::empty(),
    {
        ThreadRandomSource { rng: new_thread_rng(), hist: Ghost(Seq::empty()) }
    }
}

impl RandomSource for ThreadRandomSource {
    closed spec fn history(&self) -> Seq<u64> {
        self.hist@
    }

    fn draw(&mut self, low: u64, high: u64) -> (r: u64) {
        let r = draw_range(&mut self.rng, low, high);
        proof {
            self.hist@ = self.hist@.push(r);
        }
        r
    }
}

} // verus!
