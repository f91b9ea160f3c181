//! The rolling context: a seeded pseudo-random stream of die rolls.
//!
//! Every die roll of the crate is drawn here. A context seeded from a `u64`
//! is deterministic: the value of each draw is a function of the seed and of
//! the sequence of draws made before it, which this module records in a ghost
//! history. A context seeded from system entropy promises only the range of
//! each draw.

use vstd::prelude::*;

verus! {

/// `rand::rngs::StdRng`, the seedable generator that backs a `RollContext`.
/// The type is opaque here; everything known about it is stated on the
/// wrappers below.
#[verifier::external_type_specification]
#[verifier::external_body]
pub struct ExStdRng(rand::rngs::StdRng);

/// The value of one draw in `[1, sides]`, as a function of the `u64` seed the
/// stream was built from and of the sides of every draw made before it. No
/// body is given: the function names what `rand`'s seeded generator returns,
/// which is deterministic for the crate version in use but has no short
/// closed form.
pub uninterp spec fn nth_roll(seed: u64, history: Seq<u64>, sides: u64) -> u64;

/// The values of `count` consecutive draws of a `sides`-sided die, starting
/// from the draw history `history` of a stream seeded with `seed`.
pub open spec fn roll_seq(seed: u64, history: Seq<u64>, sides: u64, count: nat) -> Seq<u64> {
    Seq::new(count, |k: int| nth_roll(seed, history + Seq::new(k as nat, |i: int| sides), sides))
}

/// Wraps a seeded pseudo-random generator and hands out uniform die rolls.
///
/// `seed` is `Some(s)` exactly when the context was built from the `u64` seed
/// `s`; `history` holds the sides of every draw made so far, oldest first.
pub struct RollContext {
    rng: rand::rngs::StdRng,
    seed: Ghost<Option<u64>>,
    history: Ghost<Seq<u64>>,
}

impl RollContext {
    /// The seed the context was built from, if it was built from one.
    pub closed spec fn seed(self) -> Option<u64> {
        self.seed@
    }

    /// The sides of every draw made so far, oldest first.
    pub closed spec fn history(self) -> Seq<u64> {
        self.history@
    }

    /// Relies on `rand`: `StdRng::seed_from_u64` builds a generator whose
    /// output is a function of the seed alone, for the crate version in use.
    #[verifier::external_body]
    pub fn from_seed(seed: u64) -> (ctx: RollContext)
        ensures
            ctx.seed() == Some(seed),
            ctx.history() == Seq::<u64>::empty(),
    {
        RollContext {
            rng: <rand::rngs::StdRng as rand::SeedableRng>::seed_from_u64(seed),
            seed: Ghost(Some(seed)),
            history: Ghost(Seq::empty()),
        }
    }

    /// Relies on `rand`: `StdRng::from_entropy` builds a generator from system
    /// entropy. Nothing is promised of its draws beyond their range.
    #[verifier::external_body]
    pub fn from_entropy() -> (ctx: RollContext)
        ensures
            ctx.seed() == Option::<u64>::None,
            ctx.history() == Seq::<u64>::empty(),
    {
        RollContext {
            rng: <rand::rngs::StdRng as rand::SeedableRng>::from_entropy(),
            seed: Ghost(None),
            history: Ghost(Seq::empty()),
        }
    }

    /// One uniform draw in `[1, sides]`.
    ///
    /// Relies on `rand`: `Uniform::new_inclusive(1, sides)` paired with
    /// `Distribution::sample` returns a value in `[1, sides]`, and on a
    /// `u64`-seeded `StdRng` the value is a function of the seed and of the
    /// draws made before, for the crate version in use.
    #[verifier::external_body]
    pub fn roll(&mut self, sides: u64) -> (r: u64)
        requires
            1 <= sides,
        ensures
            1 <= r <= sides,
            final(self).seed() == old(self).seed(),
            final(self).history() == old(self).history().push(sides),
            old(self).seed() matches Some(s) ==> r == nth_roll(s, old(self).history(), sides),
    {
        let dist = rand::distributions::Uniform::new_inclusive(1u64, sides);
        rand::distributions::Distribution::sample(&dist, &mut self.rng)
    }

    /// `count` uniform draws in `[1, sides]`, consumed from the stream in
    /// order.
    pub fn roll_many(&mut self, sides: u64, count: u64) -> (r: Vec<u64>)
        requires
            1 <= sides,
        ensures
            r@.len() == count,
            forall|k: int| 0 <= k < r@.len() ==> 1 <= #[trigger] r@[k] <= sides,
            final(self).seed() == old(self).seed(),
            final(self).history() == old(self).history() + Seq::new(count as nat, |i: int| sides),
            old(self).seed() matches Some(s) ==>
                r@ == roll_seq(s, old(self).history(), sides, count as nat),
    {
        let mut r: Vec<u64> = Vec::new();
        let mut k: u64 = 0;
        while k < count
            invariant
                1 <= sides,
                k <= count,
                r@.len() == k,
                forall|j: int| 0 <= j < r@.len() ==> 1 <= #[trigger] r@[j] <= sides,
                self.seed() == old(self).seed(),
                self.history() == old(self).history() + Seq::new(k as nat, |i: int| sides),
                old(self).seed() matches Some(s) ==>
                    r@ == roll_seq(s, old(self).history(), sides, k as nat),
            decreases count - k,
        {
            let v = self.roll(sides);
            r.push(v);
            k = k + 1;
            proof {
                assert(self.history() =~= old(self).history() + Seq::new(k as nat, |i: int| sides));
                if let Some(s) = old(self).seed() {
                    assert(r@ =~= roll_seq(s, old(self).history(), sides, k as nat));
                }
            }
        }
        r
    }
}

/// A raw generator for the lightweight pipeline, seeded from `seed`.
///
/// Relies on `rand`: `StdRng::seed_from_u64` builds a deterministic
/// generator from the seed.
#[verifier::external_body]
pub(crate) fn seeded_rng(seed: u64) -> rand::rngs::StdRng {
    <rand::rngs::StdRng as rand::SeedableRng>::seed_from_u64(seed)
}

/// A raw generator for the lightweight pipeline, seeded from system
/// entropy.
///
/// Relies on `rand`: `StdRng::from_entropy` builds a generator from system
/// entropy.
#[verifier::external_body]
pub(crate) fn entropy_rng() -> rand::rngs::StdRng {
    <rand::rngs::StdRng as rand::SeedableRng>::from_entropy()
}

/// One uniform draw in `[1, sides]` for the lightweight pipeline.
///
/// Relies on `rand`: `Uniform::new_inclusive(1, sides)` paired with
/// `Distribution::sample` returns a value in `[1, sides]`.
#[verifier::external_body]
pub(crate) fn roll_i32(rng: &mut rand::rngs::StdRng, sides: i32) -> (r: i32)
    requires
        sides >= 1,
    ensures
        1 <= r <= sides,
{
    let dist = rand::distributions::Uniform::new_inclusive(1i32, sides);
    rand::distributions::Distribution::sample(&dist, rng)
}

/// Determinism of the rolling primitive: the value of every draw depends only
/// on the seed and on the draws made before it, so two streams built from the
/// same seed that have served the same draws return the same values, however
/// many more are taken.
pub proof fn lemma_roll_stream_deterministic(
    seed1: u64,
    seed2: u64,
    history1: Seq<u64>,
    history2: Seq<u64>,
    sides: u64,
    count: nat,
)
    requires
        seed1 == seed2,
        history1 == history2,
    ensures
        roll_seq(seed1, history1, sides, count) == roll_seq(seed2, history2, sides, count),
{
}

} // verus!
