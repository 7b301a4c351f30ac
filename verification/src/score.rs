//! The real numbers of a report: ratios of counts, and scores that are carried
//! as the bits of a double and compared by them.

use crate::order::Ranking;
use vstd::prelude::*;

verus! {

/// The quotient of two counts; with a denominator of zero it stands for zero.
#[derive(Clone, Copy, Debug, PartialEq, Eq, Structural)]
pub struct Ratio {
    pub numerator: u128,
    pub denominator: u128,
}

impl Ratio {
    /// The ratio of two counts.
    pub fn new(numerator: usize, denominator: usize) -> (r: Self)
        ensures
            r.numerator == numerator,
            r.denominator == denominator,
    {
        Ratio { numerator: numerator as u128, denominator: denominator as u128 }
    }
}

/// A score: the IEEE 754 bits of a double.
#[derive(Clone, Copy, Debug, PartialEq, Eq, Structural)]
pub struct Score {
    pub bits: u64,
}

/// The bit that holds the sign.
pub const SIGN_BIT: u64 = 0x8000_0000_0000_0000;

impl Score {
    /// The place of a score in the total order of doubles: negative scores below
    /// zero, larger magnitudes further out.
    pub open spec fn key(self) -> int {
        if self.bits < SIGN_BIT {
            self.bits as int
        } else {
            SIGN_BIT - 1 - self.bits
        }
    }

    /// The score zero.
    pub fn zero() -> (s: Self)
        ensures
            s.bits == 0,
            s.key() == 0,
    {
        Score { bits: 0 }
    }

    /// Whether this score is the other or below it.
    pub fn at_most(self, other: Score) -> (r: bool)
        ensures
            r == (self.key() <= other.key()),
    {
        if self.bits < SIGN_BIT {
            other.bits < SIGN_BIT && self.bits <= other.bits
        } else {
            other.bits < SIGN_BIT || other.bits <= self.bits
        }
    }

    /// The larger of two scores.
    pub fn larger(self, other: Score) -> (r: Score)
        ensures
            r == if self.key() <= other.key() {
                other
            } else {
                self
            },
    {
        if self.at_most(other) {
            other
        } else {
            self
        }
    }
}

/// Scores in the same place are the same score.
pub proof fn lemma_score_key_injective(a: Score, b: Score)
    ensures
        a.key() == b.key() <==> a == b,
{
}

/// Scores from the smallest up.
pub struct ScoreOrder;

impl Ranking<Score> for ScoreOrder {
    open spec fn at_most(&self, a: Score, b: Score) -> bool {
        a.key() <= b.key()
    }

    proof fn lemma_total(&self, a: Score, b: Score) {
    }

    proof fn lemma_transitive(&self, a: Score, b: Score, c: Score) {
    }

    fn in_order(&self, a: &Score, b: &Score) -> (r: bool) {
        a.at_most(*b)
    }
}

/// Counts from the smallest up.
pub struct CountOrder;

impl Ranking<u64> for CountOrder {
    open spec fn at_most(&self, a: u64, b: u64) -> bool {
        a <= b
    }

    proof fn lemma_total(&self, a: u64, b: u64) {
    }

    proof fn lemma_transitive(&self, a: u64, b: u64, c: u64) {
    }

    fn in_order(&self, a: &u64, b: &u64) -> (r: bool) {
        *a <= *b
    }
}

} // verus!
