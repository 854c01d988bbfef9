//! What a diversified selection is for, in terms of what was measured and what came
//! out.
use vstd::prelude::*;
use crate::mmr::{chosen_count, computes, diversified, diversifies, first_best, lemma_first_best,
    lemma_selection, lemma_selection_complete, lemma_selection_prefix, measures, mmr_order,
    nearest, places, selection, weighs, worths};
use crate::score::Score;

verus! {

/// `penalty` is the greatest of zero and the similarities that are known between the
/// candidate and any of the chosen ones.
pub open spec fn greatest_similarity(
    similarity: spec_fn(int, int) -> Option<Score>,
    candidate: int,
    chosen: Seq<int>,
    penalty: Score,
) -> bool {
    &&& penalty.bits <= 0x7ff0_0000_0000_0000
    &&& penalty.bits == 0 || exists|r: int|
        0 <= r < chosen.len() && similarity(candidate, #[trigger] chosen[r]) == Some(penalty)
    &&& forall|r: int|
        0 <= r < chosen.len() ==> match similarity(candidate, #[trigger] chosen[r]) {
            Some(s) => !s.above(penalty),
            None => true,
        }
}

/// The penalty of a candidate is the maximum over all that were selected before, and
/// nothing else is that maximum.
pub proof fn penalty_is_the_maximum(
    similarity: spec_fn(int, int) -> Option<Score>,
    candidate: int,
    chosen: Seq<int>,
)
    ensures
        greatest_similarity(similarity, candidate, chosen, nearest(similarity, candidate, chosen)),
        forall|p: Score| #[trigger]
            greatest_similarity(similarity, candidate, chosen, p) ==> p == nearest(
                similarity,
                candidate,
                chosen,
            ),
    decreases chosen.len(),
{
    let near = nearest(similarity, candidate, chosen);
    if chosen.len() > 0 {
        let rest = chosen.drop_last();
        penalty_is_the_maximum(similarity, candidate, rest);
        let before = nearest(similarity, candidate, rest);
        let last = chosen.len() - 1;
        assert(greatest_similarity(similarity, candidate, rest, before));
        if near == before {
            if near.bits != 0 {
                let r = choose|r: int|
                    0 <= r < rest.len() && similarity(candidate, #[trigger] rest[r]) == Some(
                        before,
                    );
                assert(similarity(candidate, chosen[r]) == Some(near));
            }
        } else {
            assert(similarity(candidate, chosen[last]) == Some(near));
        }
        assert forall|r: int| 0 <= r < chosen.len() implies match similarity(
            candidate,
            #[trigger] chosen[r],
        ) {
            Some(s) => !s.above(near),
            None => true,
        } by {
            if r < last {
                assert(chosen[r] == rest[r]);
            }
        }
    }
    assert(greatest_similarity(similarity, candidate, chosen, near));
    assert forall|p: Score| #[trigger]
        greatest_similarity(similarity, candidate, chosen, p) implies p == near by {
        if p.bits != 0 {
            let r = choose|r: int|
                0 <= r < chosen.len() && similarity(candidate, #[trigger] chosen[r]) == Some(p);
            assert(!p.above(near));
        }
        if near.bits != 0 {
            let r = choose|r: int|
                0 <= r < chosen.len() && similarity(candidate, #[trigger] chosen[r]) == Some(near);
            assert(!near.above(p));
        }
    }
}

/// The penalty of a candidate does not depend on the order in which the others were
/// selected.
pub proof fn penalty_ignores_order(
    similarity: spec_fn(int, int) -> Option<Score>,
    candidate: int,
    a: Seq<int>,
    b: Seq<int>,
)
    requires
        forall|x: int| a.contains(x) <==> b.contains(x),
    ensures
        nearest(similarity, candidate, a) == nearest(similarity, candidate, b),
{
    penalty_is_the_maximum(similarity, candidate, a);
    penalty_is_the_maximum(similarity, candidate, b);
    let p = nearest(similarity, candidate, a);
    if p.bits != 0 {
        let r = choose|r: int|
            0 <= r < a.len() && similarity(candidate, #[trigger] a[r]) == Some(p);
        assert(a.contains(a[r]));
        let k = choose|k: int| 0 <= k < b.len() && b[k] == a[r];
        assert(similarity(candidate, b[k]) == Some(p));
    }
    assert forall|r: int| 0 <= r < b.len() implies match similarity(candidate, #[trigger] b[r]) {
        Some(s) => !s.above(p),
        None => true,
    } by {
        assert(b.contains(b[r]));
        let k = choose|k: int| 0 <= k < a.len() && a[k] == b[r];
        assert(similarity(candidate, a[k]) == similarity(candidate, b[r]));
    }
    assert(greatest_similarity(similarity, candidate, b, p));
}

/// The first `turn` of the selected candidates.
pub open spec fn selected_before(selected: Seq<usize>, turn: int) -> Seq<int> {
    Seq::new(turn as nat, |r: int| selected[r] as int)
}

/// As many candidates are selected as are asked for and there are, each of the pool,
/// and none twice.
pub proof fn selection_is_without_repeats<
    M: Fn(usize, usize) -> Option<Score>,
    V: Fn(usize, Score) -> Score,
>(count: usize, target_k: usize, measure: M, value: V, res: Vec<usize>)
    requires
        call_ensures(mmr_order::<M, V>, (count, target_k, measure, value), res),
    ensures
        res.len() == target_k || res.len() == count,
        res.len() <= target_k,
        res.len() <= count,
        forall|k: int| 0 <= k < res.len() ==> #[trigger] res@[k] < count,
        res@.no_duplicates(),
{
}

/// At every turn the candidate that is selected is the one that is worth most at its
/// greatest similarity to any of those selected before. No other that is left is
/// worth more at its own, and none that stands earlier is worth as much. Where nothing
/// is worth more than negative infinity, the first that is left is selected.
pub proof fn every_turn_selects_the_best<
    M: Fn(usize, usize) -> Option<Score>,
    V: Fn(usize, Score) -> Score,
>(
    count: usize,
    target_k: usize,
    measure: M,
    value: V,
    similarity: spec_fn(int, int) -> Option<Score>,
    worth: spec_fn(int, Score) -> Score,
    res: Vec<usize>,
    turn: int,
    other: usize,
    penalty: Score,
    other_penalty: Score,
)
    requires
        call_ensures(mmr_order::<M, V>, (count, target_k, measure, value), res),
        forall|i: usize, j: usize, out: Option<Score>| #[trigger]
            call_ensures(measure, (i, j), out) ==> out == similarity(i as int, j as int),
        forall|i: usize, s: Score, out: Score| #[trigger]
            call_ensures(value, (i, s), out) ==> out == worth(i as int, s),
        0 <= turn < res.len(),
        other < count,
        forall|r: int| 0 <= r < turn ==> #[trigger] res@[r] != other,
        greatest_similarity(
            similarity,
            res@[turn] as int,
            selected_before(res@, turn),
            penalty,
        ),
        greatest_similarity(
            similarity,
            other as int,
            selected_before(res@, turn),
            other_penalty,
        ),
    ensures
        ({
            let taken = worth(res@[turn] as int, penalty);
            let rival = worth(other as int, other_penalty);
            let least = Score { bits: 0xfff0_0000_0000_0000 };
            &&& taken.above(least) ==> !rival.above(taken)
            &&& taken.above(least) && other < res@[turn] && !rival.not_a_number() ==> taken.above(
                rival,
            )
            &&& !taken.above(least) ==> !rival.above(least) && res@[turn] <= other
        }),
{
    let n = count as nat;
    let k = chosen_count(n, target_k as nat);
    let t = turn as nat;
    assert(measures(measure, similarity));
    assert(weighs(value, worth));
    assert(computes(measure, value, similarity, worth));
    let all = diversified(n, target_k as nat, similarity, worth);
    assert(diversifies(n, target_k as nat, measure, value, places(res@)));
    assert(places(res@) == all);
    lemma_selection(n, t, similarity, worth);
    lemma_selection(n, t + 1, similarity, worth);
    lemma_selection_complete(n, t, similarity, worth);
    lemma_selection_prefix(n, t, k, similarity, worth);
    lemma_selection_prefix(n, t + 1, k, similarity, worth);
    let before = selection(n, t, similarity, worth);
    let after = selection(n, t + 1, similarity, worth);
    assert(after == before.next(similarity, worth));
    assert(before.chosen =~= selected_before(res@, turn)) by {
        assert forall|r: int| 0 <= r < turn implies before.chosen[r] == res@[r] as int by {
            assert(all.take(turn)[r] == places(res@)[r]);
        }
    }
    assert(after.chosen[turn] == res@[turn] as int) by {
        assert(all.take(turn + 1)[turn] == places(res@)[turn]);
    }
    let values = worths(similarity, worth, before.open, before.chosen);
    lemma_first_best(values, values.len());
    let (place, best) = first_best(values, values.len());
    let pick = before.open[place];
    assert(pick == res@[turn] as int);
    assert(!before.chosen.contains(other as int)) by {
        if before.chosen.contains(other as int) {
            let r = choose|r: int| 0 <= r < before.chosen.len() && before.chosen[r] == other as int;
            assert(res@[r] != other);
        }
    }
    assert(before.open.contains(other as int));
    let o = choose|o: int| 0 <= o < before.open.len() && before.open[o] == other as int;
    penalty_is_the_maximum(similarity, pick, before.chosen);
    penalty_is_the_maximum(similarity, other as int, before.chosen);
    assert(values[place] == worth(pick, penalty));
    assert(values[o] == worth(other as int, other_penalty));
    assert(!values[o].above(best));
    assert(!values[place].above(best));
    if o < place {
        assert(before.open[o] < before.open[place]);
    } else if place < o {
        assert(before.open[place] < before.open[o]);
    }
}

} // verus!
