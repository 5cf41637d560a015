//! The random draws the update consumes, expressed over integers.
//!
//! A bond is activated with a probability given as a ratio of two integers,
//! so that the two certain cases (never and always) can be told apart in
//! contracts.

use vstd::prelude::*;

verus! {

/// The small fast generator of the `rand` crate, carried through opaquely.
#[verifier::external_type_specification]
#[verifier::external_body]
pub struct ExSmallRng(rand::rngs::SmallRng);

/// Calls `rand::Rng::random_ratio` on the generator.
///
/// `rand` documents that the call panics when `denominator` is zero or
/// `numerator` exceeds it, that it always returns `true` when the two are
/// equal and always `false` when `numerator` is zero.  Nothing is claimed of
/// the result in between, nor of the generator's next state.
#[verifier::external_body]
fn random_ratio(rng: &mut rand::rngs::SmallRng, numerator: u32, denominator: u32) -> (hit: bool)
    requires
        denominator > 0,
        numerator <= denominator,
    ensures
        numerator == 0 ==> !hit,
        numerator == denominator ==> hit,
{
    rand::Rng::random_ratio(rng, numerator, denominator)
}

/// Probability `numerator / denominator` with which a bond between two equal
/// neighbouring spins is activated.
#[derive(Clone, Copy, Debug)]
pub struct BondProbability {
    numerator: u32,
    denominator: u32,
}

impl BondProbability {
    /// Numerator of the ratio.
    pub closed spec fn spec_numerator(&self) -> nat {
        self.numerator as nat
    }

    /// Denominator of the ratio.
    pub closed spec fn spec_denominator(&self) -> nat {
        self.denominator as nat
    }

    /// The ratio denotes a probability: it lies between 0 and 1.
    pub open spec fn wf(&self) -> bool {
        0 < self.spec_denominator() && self.spec_numerator() <= self.spec_denominator()
    }

    /// Probability 0: no bond is ever activated.
    pub open spec fn is_never(&self) -> bool {
        self.spec_numerator() == 0
    }

    /// Probability 1: every tested bond is activated.
    pub open spec fn is_always(&self) -> bool {
        self.spec_numerator() == self.spec_denominator()
    }

    /// The probability `numerator / denominator`, or `None` when the two do
    /// not denote a probability.
    pub fn from_ratio(numerator: u32, denominator: u32) -> (probability: Option<Self>)
        ensures
            probability.is_some() <==> 0 < denominator && numerator <= denominator,
            probability matches Some(p) ==> p.wf() && p.spec_numerator() == numerator
                && p.spec_denominator() == denominator,
    {
        if denominator == 0 || numerator > denominator {
            None
        } else {
            Some(Self { numerator, denominator })
        }
    }

    /// Numerator of the ratio.
    pub fn numerator(&self) -> (n: u32)
        ensures
            n == self.spec_numerator(),
    {
        self.numerator
    }

    /// Denominator of the ratio.
    pub fn denominator(&self) -> (d: u32)
        ensures
            d == self.spec_denominator(),
    {
        self.denominator
    }

    /// Draws whether one bond is activated.  The draw is always made, also in
    /// the two certain cases.
    pub fn draw(&self, rng: &mut rand::rngs::SmallRng) -> (active: bool)
        requires
            self.wf(),
        ensures
            self.is_never() ==> !active,
            self.is_always() ==> active,
    {
        random_ratio(rng, self.numerator, self.denominator)
    }
}

/// Draws a fair coin.
pub fn draw_coin(rng: &mut rand::rngs::SmallRng) -> (heads: bool) {
    random_ratio(rng, 1, 2)
}

} // verus!
