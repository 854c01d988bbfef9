//! Maximal Marginal Relevance (MMR) candidate diversification.
//!
//! MMR balances relevance to the query with diversity among selected candidates:
//!   MMR(d) = argmax_{d in D \ R} [ lambda * rel(d) - (1 - lambda) * max_{r in R} sim(d, r) ]
//!
//! The selection is made here. How similar two candidates are, and what a
//! candidate is worth at a given similarity, is computed outside and handed in.
use vstd::prelude::*;
use crate::ranking::{all_numbers, is_ranking, precedes, ranking_is_unique};
use crate::score::Score;

verus! {

/// The bits of negative infinity, above which a candidate's worth counts.
pub const LEAST_BITS: u64 = 0xfff0_0000_0000_0000;

/// How similar the candidate is to the most similar of the chosen ones: zero where
/// none is chosen, where no similarity is known, and where all are negative.
pub open spec fn nearest(
    similarity: spec_fn(int, int) -> Option<Score>,
    candidate: int,
    chosen: Seq<int>,
) -> Score
    decreases chosen.len(),
{
    let zero = Score { bits: 0 };
    if chosen.len() == 0 {
        zero
    } else {
        let before = nearest(similarity, candidate, chosen.drop_last());
        match similarity(candidate, chosen.last()) {
            Some(s) => if s.larger(zero).above(before) {
                s.larger(zero)
            } else {
                before
            },
            None => before,
        }
    }
}

/// What each of the open candidates is worth beside the chosen ones.
pub open spec fn worths(
    similarity: spec_fn(int, int) -> Option<Score>,
    worth: spec_fn(int, Score) -> Score,
    open: Seq<int>,
    chosen: Seq<int>,
) -> Seq<Score> {
    open.map_values(|i: int| worth(i, nearest(similarity, i, chosen)))
}

/// The best of the first `n` values so far, above negative infinity, and where it
/// first stands; the first place where there is none.
pub open spec fn first_best(values: Seq<Score>, n: nat) -> (int, Score)
    decreases n,
{
    if n == 0 {
        (0, Score { bits: LEAST_BITS })
    } else {
        let before = first_best(values, (n - 1) as nat);
        if values[n - 1].above(before.1) {
            (n - 1, values[n - 1])
        } else {
            before
        }
    }
}

/// A selection under way.
pub struct Selection {
    /// The candidates that were not chosen, in order.
    pub open: Seq<int>,
    /// The candidates that were chosen, in the order in which they were.
    pub chosen: Seq<int>,
}

impl Selection {
    /// The selection after one more choice: the first of the open candidates that
    /// is worth most.
    pub open spec fn next(
        self,
        similarity: spec_fn(int, int) -> Option<Score>,
        worth: spec_fn(int, Score) -> Score,
    ) -> Selection {
        let place = first_best(
            worths(similarity, worth, self.open, self.chosen),
            self.open.len(),
        ).0;
        Selection { open: self.open.remove(place), chosen: self.chosen.push(self.open[place]) }
    }
}

/// The numbers below `n`, in order.
pub open spec fn counted(n: nat) -> Seq<int> {
    Seq::new(n, |i: int| i)
}

/// The selection from `count` candidates after `steps` choices.
pub open spec fn selection(
    count: nat,
    steps: nat,
    similarity: spec_fn(int, int) -> Option<Score>,
    worth: spec_fn(int, Score) -> Score,
) -> Selection
    decreases steps,
{
    if steps == 0 {
        Selection { open: counted(count), chosen: Seq::empty() }
    } else {
        selection(count, (steps - 1) as nat, similarity, worth).next(similarity, worth)
    }
}

/// How many of `count` candidates are chosen where `target_k` are asked for.
pub open spec fn chosen_count(count: nat, target_k: nat) -> nat {
    if target_k < count {
        target_k
    } else {
        count
    }
}

/// The diversified candidates: `target_k` of them, each the first that is worth most
/// beside those chosen before.
pub open spec fn diversified(
    count: nat,
    target_k: nat,
    similarity: spec_fn(int, int) -> Option<Score>,
    worth: spec_fn(int, Score) -> Score,
) -> Seq<int> {
    selection(count, chosen_count(count, target_k), similarity, worth).chosen
}

/// The places as numbers.
pub open spec fn places(v: Seq<usize>) -> Seq<int> {
    v.map_values(|i: usize| i as int)
}

/// `measure` computes `similarity`.
pub open spec fn measures<M: Fn(usize, usize) -> Option<Score>>(
    measure: M,
    similarity: spec_fn(int, int) -> Option<Score>,
) -> bool {
    forall|i: usize, j: usize, out: Option<Score>| #[trigger]
        call_ensures(measure, (i, j), out) ==> out == similarity(i as int, j as int)
}

/// `value` computes `worth`.
pub open spec fn weighs<V: Fn(usize, Score) -> Score>(
    value: V,
    worth: spec_fn(int, Score) -> Score,
) -> bool {
    forall|i: usize, s: Score, out: Score| #[trigger]
        call_ensures(value, (i, s), out) ==> out == worth(i as int, s)
}

/// `measure` and `value` compute `similarity` and `worth`.
pub open spec fn computes<M: Fn(usize, usize) -> Option<Score>, V: Fn(usize, Score) -> Score>(
    measure: M,
    value: V,
    similarity: spec_fn(int, int) -> Option<Score>,
    worth: spec_fn(int, Score) -> Score,
) -> bool {
    measures(measure, similarity) && weighs(value, worth)
}

/// `selected` are the diversified candidates, whatever `measure` and `value` compute.
pub open spec fn diversifies<M: Fn(usize, usize) -> Option<Score>, V: Fn(usize, Score) -> Score>(
    count: nat,
    target_k: nat,
    measure: M,
    value: V,
    selected: Seq<int>,
) -> bool {
    forall|similarity: spec_fn(int, int) -> Option<Score>, worth: spec_fn(int, Score) -> Score|
        #[trigger]
        computes(measure, value, similarity, worth) ==> selected == diversified(
            count,
            target_k,
            similarity,
            worth,
        )
}

/// How similar the candidate is to the most similar of the chosen ones.
fn nearest_chosen<M: Fn(usize, usize) -> Option<Score>>(
    measure: &M,
    candidate: usize,
    chosen: &Vec<usize>,
) -> (res: Score)
    requires
        forall|k: int|
            0 <= k < chosen.len() ==> call_requires(*measure, (candidate, #[trigger] chosen@[k])),
    ensures
        forall|similarity: spec_fn(int, int) -> Option<Score>| #[trigger]
            measures(*measure, similarity) ==> res == nearest(
                similarity,
                candidate as int,
                places(chosen@),
            ),
{
    let ghost all = places(chosen@);
    let mut res = Score::zero();
    let mut k: usize = 0;
    proof {
        assert(all.take(0) =~= Seq::empty());
    }
    while k < chosen.len()
        invariant
            k <= chosen.len(),
            all == places(chosen@),
            forall|k: int|
                0 <= k < chosen.len() ==> call_requires(
                    *measure,
                    (candidate, #[trigger] chosen@[k]),
                ),
            forall|similarity: spec_fn(int, int) -> Option<Score>| #[trigger]
                measures(*measure, similarity) ==> res == nearest(
                    similarity,
                    candidate as int,
                    all.take(k as int),
                ),
        decreases chosen.len() - k,
    {
        proof {
            assert(all.take(k + 1).drop_last() =~= all.take(k as int));
            assert(all.take(k + 1).last() == chosen@[k as int] as int);
        }
        if let Some(s) = measure(candidate, chosen[k]) {
            let s = s.max(Score::zero());
            if s.exceeds(res) {
                res = s;
            }
        }
        k = k + 1;
    }
    proof {
        assert(all.take(k as int) =~= all);
    }
    res
}

/// Where the best of the open candidates stands.
fn best_open<M: Fn(usize, usize) -> Option<Score>, V: Fn(usize, Score) -> Score>(
    measure: &M,
    value: &V,
    open: &Vec<usize>,
    chosen: &Vec<usize>,
    count: usize,
) -> (res: usize)
    requires
        open.len() > 0,
        forall|k: int| 0 <= k < open.len() ==> #[trigger] open@[k] < count,
        forall|k: int| 0 <= k < chosen.len() ==> #[trigger] chosen@[k] < count,
        forall|i: usize, j: usize|
            i < count && j < count ==> #[trigger] call_requires(*measure, (i, j)),
        forall|i: usize, s: Score| i < count ==> #[trigger] call_requires(*value, (i, s)),
    ensures
        res < open.len(),
        forall|
            similarity: spec_fn(int, int) -> Option<Score>,
            worth: spec_fn(int, Score) -> Score,
        | #[trigger]
            computes(*measure, *value, similarity, worth) ==> res == first_best(
                worths(similarity, worth, places(open@), places(chosen@)),
                open.len() as nat,
            ).0,
{
    let mut place: usize = 0;
    let mut best = Score::negative_infinity();
    let mut n: usize = 0;
    while n < open.len()
        invariant
            n <= open.len(),
            place < open.len(),
            forall|k: int| 0 <= k < open.len() ==> #[trigger] open@[k] < count,
            forall|k: int| 0 <= k < chosen.len() ==> #[trigger] chosen@[k] < count,
            forall|i: usize, j: usize|
                i < count && j < count ==> #[trigger] call_requires(*measure, (i, j)),
            forall|i: usize, s: Score| i < count ==> #[trigger] call_requires(*value, (i, s)),
            forall|
                similarity: spec_fn(int, int) -> Option<Score>,
                worth: spec_fn(int, Score) -> Score,
            | #[trigger]
                computes(*measure, *value, similarity, worth) ==> (place as int, best)
                    == first_best(
                    worths(similarity, worth, places(open@), places(chosen@)),
                    n as nat,
                ),
        decreases open.len() - n,
    {
        let candidate: usize = open[n];
        let near = nearest_chosen(measure, candidate, chosen);
        let mmr = value(candidate, near);
        proof {
            assert forall|
                similarity: spec_fn(int, int) -> Option<Score>,
                worth: spec_fn(int, Score) -> Score,
            | #[trigger] computes(*measure, *value, similarity, worth) implies worths(
                similarity,
                worth,
                places(open@),
                places(chosen@),
            )[n as int] == mmr by {
                assert(measures(*measure, similarity));
                assert(places(open@)[n as int] == candidate as int);
            }
        }
        if mmr.exceeds(best) {
            best = mmr;
            place = n;
        }
        n = n + 1;
    }
    place
}

/// Diversify a pool of `count` candidates using Maximal Marginal Relevance: which
/// of them are selected, in the order of their selection.
///
/// - `target_k`: Maximum number of diversified candidates to select.
/// - `measure`: How similar two candidates are, where that is known.
/// - `value`: What a candidate is worth at this similarity to the most similar of
///   the selected ones. Where it is the relevance alone, the candidates are ranked by
///   relevance.
pub fn mmr_order<M: Fn(usize, usize) -> Option<Score>, V: Fn(usize, Score) -> Score>(
    count: usize,
    target_k: usize,
    measure: M,
    value: V,
) -> (res: Vec<usize>)
    requires
        forall|i: usize, j: usize|
            i < count && j < count ==> #[trigger] call_requires(measure, (i, j)),
        forall|i: usize, s: Score| i < count ==> #[trigger] call_requires(value, (i, s)),
    ensures
        res.len() == chosen_count(count as nat, target_k as nat),
        forall|k: int| 0 <= k < res.len() ==> #[trigger] res@[k] < count,
        forall|j: int, k: int| 0 <= j < k < res.len() ==> #[trigger] res@[j] != #[trigger] res@[k],
        forall|
            similarity: spec_fn(int, int) -> Option<Score>,
            worth: spec_fn(int, Score) -> Score,
        | #[trigger]
            computes(measure, value, similarity, worth) ==> places(res@) == diversified(
                count as nat,
                target_k as nat,
                similarity,
                worth,
            ),
        diversifies(count as nat, target_k as nat, measure, value, places(res@)),
{
    let mut open: Vec<usize> = Vec::new();
    let mut i: usize = 0;
    while i < count
        invariant
            i <= count,
            open.len() == i,
            forall|k: int| 0 <= k < i ==> #[trigger] open@[k] == k,
        decreases count - i,
    {
        open.push(i);
        i = i + 1;
    }
    proof {
        assert(places(open@) =~= counted(count as nat));
    }
    let mut chosen: Vec<usize> = Vec::new();
    proof {
        assert(places(chosen@) =~= Seq::empty());
    }
    while chosen.len() < target_k && open.len() > 0
        invariant
            chosen.len() <= target_k,
            chosen.len() + open.len() == count,
            forall|k: int| 0 <= k < open.len() ==> #[trigger] open@[k] < count,
            forall|k: int| 0 <= k < chosen.len() ==> #[trigger] chosen@[k] < count,
            forall|j: int, k: int|
                0 <= j < k < open.len() ==> #[trigger] open@[j] != #[trigger] open@[k],
            forall|j: int, k: int|
                0 <= j < k < chosen.len() ==> #[trigger] chosen@[j] != #[trigger] chosen@[k],
            forall|j: int, k: int|
                0 <= j < open.len() && 0 <= k < chosen.len() ==> #[trigger] open@[j]
                    != #[trigger] chosen@[k],
            forall|i: usize, j: usize|
                i < count && j < count ==> #[trigger] call_requires(measure, (i, j)),
            forall|i: usize, s: Score| i < count ==> #[trigger] call_requires(value, (i, s)),
            forall|
                similarity: spec_fn(int, int) -> Option<Score>,
                worth: spec_fn(int, Score) -> Score,
            | #[trigger]
                computes(measure, value, similarity, worth) ==> (Selection {
                    open: places(open@),
                    chosen: places(chosen@),
                }) == selection(count as nat, chosen.len() as nat, similarity, worth),
        decreases open.len(),
    {
        let place: usize = best_open(&measure, &value, &open, &chosen, count);
        let ghost was_open = places(open@);
        let ghost was_chosen = places(chosen@);
        let ghost steps = chosen.len() as nat;
        let candidate: usize = open.remove(place);
        chosen.push(candidate);
        proof {
            assert(places(open@) =~= was_open.remove(place as int));
            assert(places(chosen@) =~= was_chosen.push(was_open[place as int]));
            assert forall|
                similarity: spec_fn(int, int) -> Option<Score>,
                worth: spec_fn(int, Score) -> Score,
            | #[trigger] computes(measure, value, similarity, worth) implies (Selection {
                open: places(open@),
                chosen: places(chosen@),
            }) == selection(count as nat, chosen.len() as nat, similarity, worth) by {
                let before = selection(count as nat, steps, similarity, worth);
                assert(before == (Selection { open: was_open, chosen: was_chosen }));
                assert(selection(count as nat, steps + 1, similarity, worth) == before.next(
                    similarity,
                    worth,
                ));
            }
        }
    }
    chosen
}

/// What holds of a selection at every step.
pub proof fn lemma_selection(
    count: nat,
    steps: nat,
    similarity: spec_fn(int, int) -> Option<Score>,
    worth: spec_fn(int, Score) -> Score,
)
    requires
        steps <= count,
    ensures
        ({
            let s = selection(count, steps, similarity, worth);
            &&& s.chosen.len() == steps
            &&& s.open.len() == count - steps
            &&& forall|k: int| 0 <= k < s.open.len() ==> 0 <= #[trigger] s.open[k] < count
            &&& forall|k: int| 0 <= k < s.chosen.len() ==> 0 <= #[trigger] s.chosen[k] < count
            &&& forall|j: int, k: int|
                0 <= j < k < s.open.len() ==> #[trigger] s.open[j] < #[trigger] s.open[k]
            &&& forall|j: int, k: int|
                0 <= j < k < s.chosen.len() ==> #[trigger] s.chosen[j] != #[trigger] s.chosen[k]
            &&& forall|j: int, k: int|
                0 <= j < s.open.len() && 0 <= k < s.chosen.len() ==> #[trigger] s.open[j]
                    != #[trigger] s.chosen[k]
        }),
    decreases steps,
{
    if steps > 0 {
        let m = (steps - 1) as nat;
        lemma_selection(count, m, similarity, worth);
        let before = selection(count, m, similarity, worth);
        let values = worths(similarity, worth, before.open, before.chosen);
        lemma_first_best(values, values.len());
    }
}

/// Where the best value stands: no value is above it, and of those before it, it
/// is above each that is a number; where nothing is above negative infinity, it is
/// the first place.
pub proof fn lemma_first_best(values: Seq<Score>, n: nat)
    requires
        n <= values.len(),
    ensures
        ({
            let (place, best) = first_best(values, n);
            &&& n > 0 ==> 0 <= place < n
            &&& !best.not_a_number()
            &&& forall|i: int| 0 <= i < n ==> !(#[trigger] values[i]).above(best)
            &&& best.bits == LEAST_BITS || values[place] == best
            &&& best.bits == LEAST_BITS ==> place == 0
            &&& best.bits != LEAST_BITS ==> best.above(Score { bits: LEAST_BITS })
            &&& best.bits != LEAST_BITS ==> forall|i: int|
                0 <= i < place ==> best.above(#[trigger] values[i]) || values[i].not_a_number()
        }),
    decreases n,
{
    if n > 0 {
        let m = (n - 1) as nat;
        lemma_first_best(values, m);
        let before = first_best(values, m);
        if values[n - 1].above(before.1) {
            assert forall|i: int| 0 <= i < n - 1 implies values[n - 1].above(#[trigger] values[i])
                || values[i].not_a_number() by {
                assert(!values[i].above(before.1));
            }
        }
    }
}

/// Every candidate is selected at most once, and as many are selected as are asked
/// for and there are.
pub proof fn selection_is_distinct(
    count: nat,
    target_k: nat,
    similarity: spec_fn(int, int) -> Option<Score>,
    worth: spec_fn(int, Score) -> Score,
)
    ensures
        ({
            let d = diversified(count, target_k, similarity, worth);
            &&& d.len() == chosen_count(count, target_k)
            &&& forall|k: int| 0 <= k < d.len() ==> 0 <= #[trigger] d[k] < count
            &&& forall|j: int, k: int| 0 <= j < k < d.len() ==> #[trigger] d[j] != #[trigger] d[k]
        }),
{
    lemma_selection(count, chosen_count(count, target_k), similarity, worth);
}

/// Asking for fewer candidates gives the first of those that asking for more gives.
pub proof fn fewer_candidates_are_a_prefix(
    count: nat,
    fewer: nat,
    target_k: nat,
    similarity: spec_fn(int, int) -> Option<Score>,
    worth: spec_fn(int, Score) -> Score,
)
    requires
        fewer <= target_k,
    ensures
        diversified(count, fewer, similarity, worth) == diversified(
            count,
            target_k,
            similarity,
            worth,
        ).take(chosen_count(count, fewer) as int),
{
    lemma_selection_prefix(
        count,
        chosen_count(count, fewer),
        chosen_count(count, target_k),
        similarity,
        worth,
    );
}

pub proof fn lemma_selection_prefix(
    count: nat,
    fewer: nat,
    steps: nat,
    similarity: spec_fn(int, int) -> Option<Score>,
    worth: spec_fn(int, Score) -> Score,
)
    requires
        fewer <= steps <= count,
    ensures
        selection(count, fewer, similarity, worth).chosen == selection(
            count,
            steps,
            similarity,
            worth,
        ).chosen.take(fewer as int),
    decreases steps - fewer,
{
    lemma_selection(count, fewer, similarity, worth);
    lemma_selection(count, steps, similarity, worth);
    let part = selection(count, fewer, similarity, worth).chosen;
    let whole = selection(count, steps, similarity, worth).chosen;
    if fewer == steps {
        assert(whole.take(fewer as int) =~= whole);
    } else {
        let m = (steps - 1) as nat;
        lemma_selection(count, m, similarity, worth);
        lemma_selection_prefix(count, fewer, m, similarity, worth);
        let before = selection(count, m, similarity, worth).chosen;
        assert(whole.take(fewer as int) =~= before.take(fewer as int));
    }
}

/// Each selected candidate is worth most at its turn: no candidate that is still
/// open is worth more beside those selected before.
pub proof fn selected_candidates_are_worth_most(
    count: nat,
    turn: nat,
    similarity: spec_fn(int, int) -> Option<Score>,
    worth: spec_fn(int, Score) -> Score,
    other: int,
)
    requires
        turn < count,
        selection(count, turn, similarity, worth).open.contains(other),
    ensures
        ({
            let before = selection(count, turn, similarity, worth);
            let pick = selection(count, turn + 1, similarity, worth).chosen[turn as int];
            let picked = worth(pick, nearest(similarity, pick, before.chosen));
            !picked.not_a_number() ==> !worth(
                other,
                nearest(similarity, other, before.chosen),
            ).above(picked)
        }),
{
    lemma_selection(count, turn, similarity, worth);
    let before = selection(count, turn, similarity, worth);
    let values = worths(similarity, worth, before.open, before.chosen);
    lemma_first_best(values, values.len());
    let (place, best) = first_best(values, values.len());
    let k = choose|k: int| 0 <= k < before.open.len() && before.open[k] == other;
    assert(!values[k].above(best));
    assert(!values[place].above(best));
    let pick = before.open[place];
    assert(selection(count, turn + 1, similarity, worth) == before.next(similarity, worth));
    assert(before.next(similarity, worth).chosen[turn as int] == pick);
    assert(values[place] == worth(pick, nearest(similarity, pick, before.chosen)));
}

/// A redundant candidate waits: of two open candidates that are worth the same at
/// every similarity, and less the higher it is, the one that is more similar to what
/// was selected before is not selected next.
pub proof fn redundant_candidates_wait(
    count: nat,
    turn: nat,
    similarity: spec_fn(int, int) -> Option<Score>,
    worth: spec_fn(int, Score) -> Score,
    distinct: int,
    redundant: int,
)
    requires
        turn < count,
        selection(count, turn, similarity, worth).open.contains(distinct),
        selection(count, turn, similarity, worth).open.contains(redundant),
        forall|s: Score| #[trigger] worth(distinct, s) == worth(redundant, s),
        forall|s: Score, t: Score|
            t.above(s) ==> (#[trigger] worth(distinct, s)).above(#[trigger] worth(distinct, t)),
        ({
            let chosen = selection(count, turn, similarity, worth).chosen;
            nearest(similarity, redundant, chosen).above(nearest(similarity, distinct, chosen))
        }),
    ensures
        selection(count, turn + 1, similarity, worth).chosen[turn as int] != redundant,
{
    let chosen = selection(count, turn, similarity, worth).chosen;
    let s = nearest(similarity, distinct, chosen);
    let t = nearest(similarity, redundant, chosen);
    selected_candidates_are_worth_most(count, turn, similarity, worth, distinct);
    assert(worth(distinct, s).above(worth(distinct, t)));
    assert(worth(distinct, t) == worth(redundant, t));
}

/// Without a penalty for similarity this is a ranking by relevance, be the pool
/// ordered or not: the candidates are selected by descending relevance, and those
/// that are as relevant as they stood.
pub proof fn pure_relevance_ranks_by_relevance(
    relevance: Seq<Score>,
    target_k: nat,
    similarity: spec_fn(int, int) -> Option<Score>,
    worth: spec_fn(int, Score) -> Score,
    order: Seq<int>,
)
    requires
        all_numbers(relevance),
        is_ranking(relevance, order),
        forall|i: int, s: Score|
            0 <= i < relevance.len() ==> #[trigger] worth(i, s) == relevance[i],
    ensures
        diversified(relevance.len(), target_k, similarity, worth) == order.take(
            chosen_count(relevance.len(), target_k) as int,
        ),
{
    let count = relevance.len();
    let all = selection(count, count, similarity, worth);
    lemma_relevance_order(relevance, count, similarity, worth);
    lemma_selection(count, count, similarity, worth);
    lemma_selection_complete(count, count, similarity, worth);
    assert forall|i: int| 0 <= i < count implies #[trigger] all.chosen.contains(i) by {
        assert(all.open.contains(i) || all.chosen.contains(i));
    }
    assert(is_ranking(relevance, all.chosen));
    ranking_is_unique(relevance, all.chosen, order);
    lemma_selection_prefix(count, chosen_count(count, target_k), count, similarity, worth);
}

/// Every candidate is open or chosen.
pub proof fn lemma_selection_complete(
    count: nat,
    steps: nat,
    similarity: spec_fn(int, int) -> Option<Score>,
    worth: spec_fn(int, Score) -> Score,
)
    requires
        steps <= count,
    ensures
        ({
            let s = selection(count, steps, similarity, worth);
            forall|i: int|
                0 <= i < count ==> #[trigger] s.open.contains(i) || s.chosen.contains(i)
        }),
    decreases steps,
{
    let after = selection(count, steps, similarity, worth);
    if steps == 0 {
        assert forall|i: int| 0 <= i < count implies #[trigger] after.open.contains(i) by {
            assert(after.open[i] == i);
        }
    } else {
        let m = (steps - 1) as nat;
        let before = selection(count, m, similarity, worth);
        lemma_selection(count, m, similarity, worth);
        lemma_selection_complete(count, m, similarity, worth);
        let values = worths(similarity, worth, before.open, before.chosen);
        lemma_first_best(values, values.len());
        let place = first_best(values, values.len()).0;
        assert(after == before.next(similarity, worth));
        assert forall|i: int| 0 <= i < count implies #[trigger] after.open.contains(i)
            || after.chosen.contains(i) by {
            if before.open.contains(i) {
                let k = choose|k: int| 0 <= k < before.open.len() && before.open[k] == i;
                if k < place {
                    assert(after.open[k] == i);
                } else if k > place {
                    assert(after.open[k - 1] == i);
                } else {
                    assert(after.chosen[m as int] == i);
                }
            } else {
                let k = choose|k: int| 0 <= k < before.chosen.len() && before.chosen[k] == i;
                assert(after.chosen[k] == i);
            }
        }
    }
}

proof fn lemma_relevance_order(
    relevance: Seq<Score>,
    steps: nat,
    similarity: spec_fn(int, int) -> Option<Score>,
    worth: spec_fn(int, Score) -> Score,
)
    requires
        steps <= relevance.len(),
        all_numbers(relevance),
        forall|i: int, s: Score|
            0 <= i < relevance.len() ==> #[trigger] worth(i, s) == relevance[i],
    ensures
        ({
            let s = selection(relevance.len(), steps, similarity, worth);
            &&& forall|j: int, k: int|
                0 <= j < k < s.chosen.len() ==> precedes(
                    relevance,
                    #[trigger] s.chosen[j],
                    #[trigger] s.chosen[k],
                )
            &&& forall|j: int, k: int|
                0 <= j < s.chosen.len() && 0 <= k < s.open.len() ==> precedes(
                    relevance,
                    #[trigger] s.chosen[j],
                    #[trigger] s.open[k],
                )
        }),
    decreases steps,
{
    if steps > 0 {
        let m = (steps - 1) as nat;
        let count = relevance.len();
        lemma_relevance_order(relevance, m, similarity, worth);
        lemma_selection(count, m, similarity, worth);
        let before = selection(count, m, similarity, worth);
        let values = worths(similarity, worth, before.open, before.chosen);
        assert forall|i: int| 0 <= i < values.len() implies #[trigger] values[i]
            == relevance[before.open[i]] by {
            assert(0 <= before.open[i] < count);
        }
        lemma_first_best(values, values.len());
        let (place, best) = first_best(values, values.len());
        let after = selection(count, steps, similarity, worth);
        assert(after == before.next(similarity, worth));
        let pick = before.open[place];
        assert forall|i: int| 0 <= i < before.open.len() && i != place implies precedes(
            relevance,
            pick,
            #[trigger] before.open[i],
        ) by {
            let other = before.open[i];
            assert(0 <= other < count && 0 <= pick < count);
            assert(values[i] == relevance[other]);
            assert(values[place] == relevance[pick]);
            assert(!values[i].above(best));
            assert(!values[i].not_a_number() && !values[place].not_a_number());
            if i < place {
                assert(best.above(values[i]) || values[i].not_a_number());
            } else {
                assert(before.open[place] < before.open[i]);
            }
        }
        assert forall|j: int, k: int|
            0 <= j < after.chosen.len() && 0 <= k < after.open.len() implies precedes(
            relevance,
            #[trigger] after.chosen[j],
            #[trigger] after.open[k],
        ) by {
            let i = if k < place {
                k
            } else {
                k + 1
            };
            assert(after.open[k] == before.open[i]);
            if j < m {
                assert(after.chosen[j] == before.chosen[j]);
            }
        }
        assert forall|j: int, k: int| 0 <= j < k < after.chosen.len() implies precedes(
            relevance,
            #[trigger] after.chosen[j],
            #[trigger] after.chosen[k],
        ) by {
            assert(after.chosen[j] == before.chosen[j]);
            if k < m {
                assert(after.chosen[k] == before.chosen[k]);
            } else {
                assert(after.chosen[k] == before.open[place]);
            }
        }
    }
}

} // verus!
