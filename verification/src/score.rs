//! Relevance scores as IEEE 754 double-precision bit patterns, and their order.
//!
//! A score is carried by its bits. The library compares scores and picks among
//! them; it never computes a new one.
use vstd::prelude::*;

verus! {

/// The weight of the sign bit: patterns from here on are negative.
pub const SIGN: u64 = 0x8000_0000_0000_0000;

/// The magnitude of an infinity; a larger one is no number.
pub const INFINITE: u64 = 0x7ff0_0000_0000_0000;

/// A relevance score.
#[derive(Debug, Clone, Copy, PartialEq, Eq, Structural)]
pub struct Score {
    pub bits: u64,
}

impl Score {
    /// Exponent and fraction, which grow with the absolute value.
    pub open spec fn magnitude(self) -> int {
        if self.bits < SIGN {
            self.bits as int
        } else {
            self.bits - SIGN
        }
    }

    /// The score is no number.
    pub open spec fn not_a_number(self) -> bool {
        self.magnitude() > INFINITE
    }

    /// A number that orders scores as their values do. Both zeros get the same.
    pub open spec fn rank(self) -> int {
        if self.bits < SIGN {
            self.magnitude()
        } else {
            -self.magnitude()
        }
    }

    /// `self > other`, which no comparison with what is no number meets.
    pub open spec fn above(self, other: Score) -> bool {
        &&& !self.not_a_number()
        &&& !other.not_a_number()
        &&& self.rank() > other.rank()
    }

    /// `self` comes after `other` among the numbers, or is the positive zero where
    /// `other` is the negative one.
    pub open spec fn beyond(self, other: Score) -> bool {
        self.above(other) || (self.bits == 0 && other.bits == SIGN)
    }

    /// The larger of two scores, of the two zeros the positive one; what is no number
    /// gives way to a number.
    pub open spec fn larger(self, other: Score) -> Score {
        if self.not_a_number() || other.beyond(self) {
            other
        } else {
            self
        }
    }

    /// The smaller of two scores, of the two zeros the negative one; what is no number
    /// gives way to a number.
    pub open spec fn smaller(self, other: Score) -> Score {
        if self.not_a_number() || self.beyond(other) {
            other
        } else {
            self
        }
    }

    /// The score with these bits.
    pub fn from_bits(bits: u64) -> (res: Score)
        ensures
            res.bits == bits,
    {
        Score { bits }
    }

    /// The bits of the score.
    pub fn to_bits(self) -> (res: u64)
        ensures
            res == self.bits,
    {
        self.bits
    }

    /// Positive zero.
    pub fn zero() -> (res: Score)
        ensures
            res.bits == 0,
    {
        Score { bits: 0 }
    }

    /// Positive infinity.
    pub fn infinity() -> (res: Score)
        ensures
            res.bits == INFINITE,
    {
        Score { bits: INFINITE }
    }

    /// Negative infinity.
    pub fn negative_infinity() -> (res: Score)
        ensures
            res.bits == SIGN + INFINITE,
    {
        Score { bits: SIGN + INFINITE }
    }

    /// Whether the score is no number.
    pub fn is_nan(self) -> (res: bool)
        ensures
            res == self.not_a_number(),
    {
        if self.bits < SIGN {
            self.bits > INFINITE
        } else {
            self.bits - SIGN > INFINITE
        }
    }

    /// Whether `self > other`.
    pub fn exceeds(self, other: Score) -> (res: bool)
        ensures
            res == self.above(other),
    {
        if self.is_nan() || other.is_nan() {
            false
        } else if self.bits < SIGN {
            if other.bits < SIGN {
                self.bits > other.bits
            } else {
                self.bits > 0 || other.bits > SIGN
            }
        } else {
            other.bits >= SIGN && self.bits < other.bits
        }
    }

    /// Whether `self` comes after `other` among the numbers, or is the positive zero
    /// where `other` is the negative one.
    fn goes_beyond(self, other: Score) -> (res: bool)
        ensures
            res == self.beyond(other),
    {
        self.exceeds(other) || (self.bits == 0 && other.bits == SIGN)
    }

    /// The larger of two scores, of the two zeros the positive one; what is no number
    /// gives way to a number.
    pub fn max(self, other: Score) -> (res: Score)
        ensures
            res == self.larger(other),
    {
        if self.is_nan() || other.goes_beyond(self) {
            other
        } else {
            self
        }
    }

    /// The smaller of two scores, of the two zeros the negative one; what is no number
    /// gives way to a number.
    pub fn min(self, other: Score) -> (res: Score)
        ensures
            res == self.smaller(other),
    {
        if self.is_nan() || self.goes_beyond(other) {
            other
        } else {
            self
        }
    }
}

/// The largest of `from` and the scores, taken in order.
pub open spec fn largest(from: Score, scores: Seq<Score>) -> Score
    decreases scores.len(),
{
    if scores.len() == 0 {
        from
    } else {
        largest(from, scores.drop_last()).larger(scores.last())
    }
}

/// The smallest of `from` and the scores, taken in order.
pub open spec fn smallest(from: Score, scores: Seq<Score>) -> Score
    decreases scores.len(),
{
    if scores.len() == 0 {
        from
    } else {
        smallest(from, scores.drop_last()).smaller(scores.last())
    }
}

/// The largest of `from` and the scores.
pub fn max_of(from: Score, scores: &Vec<Score>) -> (res: Score)
    ensures
        res == largest(from, scores@),
{
    let mut res = from;
    let mut i: usize = 0;
    proof {
        assert(scores@.take(0) =~= Seq::empty());
    }
    while i < scores.len()
        invariant
            i <= scores.len(),
            res == largest(from, scores@.take(i as int)),
        decreases scores.len() - i,
    {
        proof {
            assert(scores@.take(i + 1).drop_last() =~= scores@.take(i as int));
        }
        res = res.max(scores[i]);
        i = i + 1;
    }
    proof {
        assert(scores@.take(i as int) =~= scores@);
    }
    res
}

/// The smallest of `from` and the scores.
pub fn min_of(from: Score, scores: &Vec<Score>) -> (res: Score)
    ensures
        res == smallest(from, scores@),
{
    let mut res = from;
    let mut i: usize = 0;
    proof {
        assert(scores@.take(0) =~= Seq::empty());
    }
    while i < scores.len()
        invariant
            i <= scores.len(),
            res == smallest(from, scores@.take(i as int)),
        decreases scores.len() - i,
    {
        proof {
            assert(scores@.take(i + 1).drop_last() =~= scores@.take(i as int));
        }
        res = res.min(scores[i]);
        i = i + 1;
    }
    proof {
        assert(scores@.take(i as int) =~= scores@);
    }
    res
}

/// Comparing scores orders them strictly: no score is above itself, of two
/// scores at most one is above the other, and what is above a score that is
/// above a third is above the third.
pub proof fn above_is_a_strict_order(a: Score, b: Score, c: Score)
    ensures
        !a.above(a),
        a.above(b) ==> !b.above(a),
        a.above(b) && b.above(c) ==> a.above(c),
{
}

/// Numbers are totally ordered, up to the two zeros: of two numbers one is above
/// the other, or they have the same bits, or they are zeros of either sign.
pub proof fn numbers_are_comparable(a: Score, b: Score)
    requires
        !a.not_a_number(),
        !b.not_a_number(),
    ensures
        a.above(b) || b.above(a) || a == b || (a.magnitude() == 0 && b.magnitude() == 0),
{
}

/// Of two numbers that differ one is beyond the other, and not the other way round.
pub proof fn beyond_is_total(a: Score, b: Score)
    requires
        !a.not_a_number(),
        !b.not_a_number(),
    ensures
        a == b || (a.beyond(b) != b.beyond(a)),
        a == b ==> !a.beyond(b),
{
}

/// The largest of some scores is one of them or the start, no score is above it,
/// and it is a number wherever the start is.
pub proof fn largest_bounds_all(from: Score, scores: Seq<Score>)
    requires
        !from.not_a_number(),
    ensures
        !largest(from, scores).not_a_number(),
        largest(from, scores) == from || scores.contains(largest(from, scores)),
        !from.above(largest(from, scores)),
        forall|i: int|
            0 <= i < scores.len() ==> !(#[trigger] scores[i]).above(largest(from, scores)),
    decreases scores.len(),
{
    if scores.len() > 0 {
        let rest = scores.drop_last();
        largest_bounds_all(from, rest);
        let m = largest(from, rest);
        let l = largest(from, scores);
        if l == m && l != from {
            let k = choose|k: int| 0 <= k < rest.len() && rest[k] == m;
            assert(scores[k] == l);
        } else if l != m {
            assert(scores[scores.len() - 1] == l);
        }
        assert forall|i: int| 0 <= i < scores.len() implies !(#[trigger] scores[i]).above(l) by {
            if i < rest.len() {
                assert(scores[i] == rest[i]);
            }
        }
    }
}

/// The smallest of some scores is one of them or the start, it is above none of
/// them, and it is a number wherever the start is.
pub proof fn smallest_bounds_all(from: Score, scores: Seq<Score>)
    requires
        !from.not_a_number(),
    ensures
        !smallest(from, scores).not_a_number(),
        smallest(from, scores) == from || scores.contains(smallest(from, scores)),
        !smallest(from, scores).above(from),
        forall|i: int|
            0 <= i < scores.len() ==> !smallest(from, scores).above(#[trigger] scores[i]),
    decreases scores.len(),
{
    if scores.len() > 0 {
        let rest = scores.drop_last();
        smallest_bounds_all(from, rest);
        let m = smallest(from, rest);
        let l = smallest(from, scores);
        if l == m && l != from {
            let k = choose|k: int| 0 <= k < rest.len() && rest[k] == m;
            assert(scores[k] == l);
        } else if l != m {
            assert(scores[scores.len() - 1] == l);
        }
        assert forall|i: int| 0 <= i < scores.len() implies !l.above(#[trigger] scores[i]) by {
            if i < rest.len() {
                assert(scores[i] == rest[i]);
            }
        }
    }
}

} // verus!
