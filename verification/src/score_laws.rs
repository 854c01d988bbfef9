//! How scores compare, in terms of their bits.
use vstd::prelude::*;
use crate::score::{max_of, min_of, Score};

verus! {

/// The bits are those of a number that is not negative: zero up to infinity.
pub open spec fn positive(bits: u64) -> bool {
    bits <= 0x7ff0_0000_0000_0000
}

/// The bits are those of a number with a negative sign: zero down to infinity.
pub open spec fn negative(bits: u64) -> bool {
    0x8000_0000_0000_0000 <= bits <= 0xfff0_0000_0000_0000
}

/// What is no number is what is neither positive nor negative.
pub proof fn numbers_have_a_sign(a: Score, res: bool)
    requires
        call_ensures(Score::is_nan, (a,), res),
    ensures
        res <==> !positive(a.bits) && !negative(a.bits),
        res <==> a.not_a_number(),
{
}

/// Among positive numbers more bits are above, among negative ones fewer; every
/// positive number is above every negative one, but for the two zeros, which are level;
/// and what is no number is neither above nor below anything.
pub proof fn bits_decide_what_exceeds(a: Score, b: Score, res: bool)
    requires
        call_ensures(Score::exceeds, (a, b), res),
    ensures
        res == a.above(b),
        positive(a.bits) && positive(b.bits) ==> (res <==> a.bits > b.bits),
        negative(a.bits) && negative(b.bits) ==> (res <==> a.bits < b.bits),
        positive(a.bits) && negative(b.bits) ==> (res <==> !(a.bits == 0 && b.bits
            == 0x8000_0000_0000_0000)),
        negative(a.bits) && positive(b.bits) ==> !res,
        !positive(a.bits) && !negative(a.bits) ==> !res,
        !positive(b.bits) && !negative(b.bits) ==> !res,
{
}

/// The larger of two scores is one of them; a number where one of them is; never the
/// one that the other exceeds; and of the two zeros the positive one.
pub proof fn larger_is_not_exceeded(a: Score, b: Score, res: Score)
    requires
        call_ensures(Score::max, (a, b), res),
    ensures
        res == a || res == b,
        res.not_a_number() ==> a.not_a_number() && b.not_a_number(),
        !a.above(res),
        !b.above(res),
        (a.bits == 0 && b.bits == 0x8000_0000_0000_0000) || (b.bits == 0 && a.bits
            == 0x8000_0000_0000_0000) ==> res.bits == 0,
{
}

/// The smaller of two scores is one of them; a number where one of them is; never the
/// one that exceeds the other; and of the two zeros the negative one.
pub proof fn smaller_exceeds_neither(a: Score, b: Score, res: Score)
    requires
        call_ensures(Score::min, (a, b), res),
    ensures
        res == a || res == b,
        res.not_a_number() ==> a.not_a_number() && b.not_a_number(),
        !res.above(a),
        !res.above(b),
        (a.bits == 0 && b.bits == 0x8000_0000_0000_0000) || (b.bits == 0 && a.bits
            == 0x8000_0000_0000_0000) ==> res.bits == 0x8000_0000_0000_0000,
{
}

/// The largest of many is one of them or the start, and none exceeds it.
pub proof fn largest_of_many(from: Score, scores: &Vec<Score>, res: Score)
    requires
        call_ensures(max_of, (from, scores), res),
        !from.not_a_number(),
    ensures
        res == from || scores@.contains(res),
        !res.not_a_number(),
        !from.above(res),
        forall|i: int| 0 <= i < scores.len() ==> !(#[trigger] scores@[i]).above(res),
{
    crate::score::largest_bounds_all(from, scores@);
}

/// The smallest of many is one of them or the start, and it exceeds none.
pub proof fn smallest_of_many(from: Score, scores: &Vec<Score>, res: Score)
    requires
        call_ensures(min_of, (from, scores), res),
        !from.not_a_number(),
    ensures
        res == from || scores@.contains(res),
        !res.not_a_number(),
        !res.above(from),
        forall|i: int| 0 <= i < scores.len() ==> !res.above(#[trigger] scores@[i]),
{
    crate::score::smallest_bounds_all(from, scores@);
}

/// The scores that have a name have these bits, and bits are carried unchanged.
pub proof fn named_scores_have_their_bits(
    bits: u64,
    a: Score,
    made: Score,
    taken: u64,
    zero: Score,
    infinity: Score,
    negative_infinity: Score,
)
    requires
        call_ensures(Score::from_bits, (bits,), made),
        call_ensures(Score::to_bits, (a,), taken),
        call_ensures(Score::zero, (), zero),
        call_ensures(Score::infinity, (), infinity),
        call_ensures(Score::negative_infinity, (), negative_infinity),
    ensures
        made.bits == bits,
        taken == a.bits,
        zero.bits == 0,
        infinity.bits == 0x7ff0_0000_0000_0000,
        negative_infinity.bits == 0xfff0_0000_0000_0000,
{
}

} // verus!
