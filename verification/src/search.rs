//! The choice of listings for the open slots of a contract.
use crate::domain::{
    average, output_float, predicted_output, running_sum, FixtureListing, Float32, Skin,
};
use crate::float32::{
    absolute, below, difference, f32_abs, f32_add, f32_div, f32_sub, not_above, numerically_equal,
};
use vstd::prelude::*;

verus! {

#[derive(Debug, Clone, Copy, PartialEq, Eq, Structural)]
pub enum PlanningPriority {
    Cheapest,
    Closest,
}

impl Default for PlanningPriority {
    fn default() -> (r: Self)
        ensures
            r == PlanningPriority::Cheapest,
    {
        PlanningPriority::Cheapest
    }
}

/// A listing that can fill a slot.
#[derive(Debug, Clone, Copy)]
pub struct Candidate<'a> {
    pub listing: &'a FixtureListing,
    pub skin: &'a Skin,
    pub adjusted: Float32,
}

/// What a contract is to yield.
#[derive(Debug, Clone, Copy)]
pub struct Aim<'a> {
    pub target: &'a Skin,
    pub low: Float32,
    pub high: Float32,
    pub center: Float32,
}

/// A choice of candidates, by their places in the pool, and what it leads to.
#[derive(Debug)]
pub struct ChosenPlan {
    pub places: Vec<usize>,
    pub predicted: Float32,
    pub total_price_cents: u64,
    pub within_target: bool,
    pub distance: Float32,
}

pub struct Plan {
    pub places: Seq<int>,
    pub predicted: Float32,
    pub price: nat,
    pub within: bool,
    pub distance: Float32,
}

pub open spec fn as_places(places: Seq<usize>) -> Seq<int> {
    Seq::new(places.len(), |i: int| places[i] as int)
}

impl View for ChosenPlan {
    type V = Plan;

    open spec fn view(&self) -> Plan {
        Plan {
            places: as_places(self.places@),
            predicted: self.predicted,
            price: self.total_price_cents as nat,
            within: self.within_target,
            distance: self.distance,
        }
    }
}

pub open spec fn plan_view(plan: Option<ChosenPlan>) -> Option<Plan> {
    match plan {
        Some(plan) => Some(plan@),
        None => None,
    }
}

/// The adjusted floats of the candidates at the given places.
pub open spec fn chosen_shares(pool: Seq<Candidate<'_>>, places: Seq<int>) -> Seq<Float32> {
    Seq::new(places.len(), |i: int| pool[places[i]].adjusted)
}

/// What the candidates at the given places cost together.
pub open spec fn total_price(pool: Seq<Candidate<'_>>, places: Seq<int>) -> nat
    decreases places.len(),
{
    if places.len() == 0 {
        0
    } else {
        total_price(pool, places.drop_last()) + pool[places.last()].listing.price_cents as nat
    }
}

/// Prices are added up modulo this.
pub open spec fn price_range() -> nat {
    0x1_0000_0000_0000_0000
}

/// What an output leads to.
pub open spec fn rated(aim: Aim<'_>, places: Seq<int>, predicted: Float32, price: nat) -> Plan {
    Plan {
        places,
        predicted,
        price,
        within: not_above(aim.low, predicted) && not_above(predicted, aim.high),
        distance: absolute(difference(predicted, aim.center)),
    }
}

/// What a choice leads to, next to owned items with the given adjusted floats.
pub open spec fn plan_of(
    aim: Aim<'_>,
    owned: Seq<Float32>,
    pool: Seq<Candidate<'_>>,
    places: Seq<int>,
) -> Plan {
    rated(
        aim,
        places,
        predicted_output(
            average(owned + chosen_shares(pool, places), owned.len() + places.len()),
            *aim.target,
        ),
        total_price(pool, places) % price_range(),
    )
}

/// Whether one plan is preferred to another.
pub open spec fn preferred(a: Plan, b: Plan, priority: PlanningPriority) -> bool {
    if a.within != b.within {
        a.within
    } else if priority is Cheapest && a.within {
        a.price < b.price || (a.price == b.price && below(a.distance, b.distance))
    } else {
        below(a.distance, b.distance) || (numerically_equal(a.distance, b.distance) && a.price
            < b.price)
    }
}

/// The preferred one of two plans; the earlier one where neither is preferred.
pub open spec fn better_of(best: Option<Plan>, plan: Plan, priority: PlanningPriority) -> Option<
    Plan,
> {
    match best {
        Some(current) => if preferred(plan, current, priority) {
            Some(plan)
        } else {
            best
        },
        None => Some(plan),
    }
}

/// The best of `best` and the given plans, taken in their order.
pub open spec fn best_over(
    best: Option<Plan>,
    plans: Seq<Plan>,
    priority: PlanningPriority,
) -> Option<Plan>
    decreases plans.len(),
{
    if plans.len() == 0 {
        best
    } else {
        better_of(best_over(best, plans.drop_last(), priority), plans.last(), priority)
    }
}

/// The plans of several choices.
pub open spec fn plans_of(
    aim: Aim<'_>,
    owned: Seq<Float32>,
    pool: Seq<Candidate<'_>>,
    choices: Seq<Seq<int>>,
) -> Seq<Plan> {
    Seq::new(choices.len(), |i: int| plan_of(aim, owned, pool, choices[i]))
}

/// `start` at the head of every choice.
pub open spec fn headed(start: int, choices: Seq<Seq<int>>) -> Seq<Seq<int>> {
    Seq::new(choices.len(), |i: int| seq![start] + choices[i])
}

/// The choices of `k` places from `start` up to `n`, in lexicographic order.
pub open spec fn combinations(n: int, k: int, start: int) -> Seq<Seq<int>>
    decreases n - start,
{
    if k <= 0 {
        seq![Seq::empty()]
    } else if start >= n {
        Seq::empty()
    } else {
        headed(start, combinations(n, k - 1, start + 1)) + combinations(n, k, start + 1)
    }
}

/// `places` are `k` ascending places from `start` up to `n`.
pub open spec fn is_selection(places: Seq<int>, n: int, k: int, start: int) -> bool {
    &&& places.len() == k
    &&& forall|i: int| 0 <= i < k ==> start <= #[trigger] places[i] < n
    &&& forall|i: int, j: int| 0 <= i < j < k ==> #[trigger] places[i] < #[trigger] places[j]
}

proof fn lemma_best_over_concat(
    best: Option<Plan>,
    a: Seq<Plan>,
    b: Seq<Plan>,
    priority: PlanningPriority,
)
    ensures
        best_over(best, a + b, priority) == best_over(
            best_over(best, a, priority),
            b,
            priority,
        ),
    decreases b.len(),
{
    if b.len() == 0 {
        assert(a + b =~= a);
    } else {
        lemma_best_over_concat(best, a, b.drop_last(), priority);
        assert((a + b).drop_last() =~= a + b.drop_last());
    }
}

/// Every combination is a selection.
pub proof fn lemma_combination_selects(n: int, k: int, start: int, i: int)
    requires
        k >= 0,
        0 <= i < combinations(n, k, start).len(),
    ensures
        is_selection(combinations(n, k, start)[i], n, k, start),
    decreases n - start,
{
    if k > 0 && start < n {
        let first = combinations(n, k - 1, start + 1);
        let places = combinations(n, k, start)[i];
        if i < first.len() {
            lemma_combination_selects(n, k - 1, start + 1, i);
            assert(places == seq![start] + first[i]);
            assert forall|a: int, b: int| 0 <= a < b < k implies #[trigger] places[a]
                < #[trigger] places[b] by {
                assert(places[b] == first[i][b - 1]);
                if a > 0 {
                    assert(places[a] == first[i][a - 1]);
                }
            }
            assert forall|a: int| 0 <= a < k implies start <= #[trigger] places[a] < n by {
                if a > 0 {
                    assert(places[a] == first[i][a - 1]);
                }
            }
        } else {
            lemma_combination_selects(n, k, start + 1, i - first.len());
        }
    }
}

/// Every selection is among the combinations.
pub proof fn lemma_selection_listed(places: Seq<int>, n: int, k: int, start: int) -> (i: int)
    requires
        k >= 0,
        is_selection(places, n, k, start),
    ensures
        0 <= i < combinations(n, k, start).len(),
        combinations(n, k, start)[i] == places,
    decreases n - start,
{
    if k == 0 {
        assert(places =~= Seq::empty());
        0
    } else {
        assert(start <= places[0] < n);
        let first = combinations(n, k - 1, start + 1);
        if places[0] == start {
            let rest = places.drop_first();
            assert forall|a: int| 0 <= a < k - 1 implies start + 1 <= #[trigger] rest[a] < n by {
                assert(rest[a] == places[a + 1]);
                assert(places[0] < places[a + 1]);
            }
            assert forall|a: int, b: int| 0 <= a < b < k - 1 implies #[trigger] rest[a]
                < #[trigger] rest[b] by {
                assert(rest[a] == places[a + 1] && rest[b] == places[b + 1]);
            }
            let i = lemma_selection_listed(rest, n, k - 1, start + 1);
            assert(places =~= seq![start] + rest);
            assert(headed(start, first)[i] == places);
            i
        } else {
            assert forall|a: int| 0 <= a < k implies start + 1 <= #[trigger] places[a] < n by {
                if a > 0 {
                    assert(places[0] < places[a]);
                }
            }
            let i = lemma_selection_listed(places, n, k, start + 1);
            i + first.len()
        }
    }
}

/// The combinations are exactly the ascending choices of `k` out of `n` places.
pub proof fn law_combinations(n: int, k: int, places: Seq<int>)
    requires
        k >= 0,
    ensures
        combinations(n, k, 0).contains(places) <==> is_selection(places, n, k, 0),
{
    if combinations(n, k, 0).contains(places) {
        let i = choose|i: int|
            0 <= i < combinations(n, k, 0).len() && combinations(n, k, 0)[i] == places;
        lemma_combination_selects(n, k, 0, i);
    }
    if is_selection(places, n, k, 0) {
        let i = lemma_selection_listed(places, n, k, 0);
        assert(combinations(n, k, 0)[i] == places);
    }
}

/// Among plans whose distances are numbers, none is preferred to the best one.
pub proof fn law_best_is_unbeaten(plans: Seq<Plan>, priority: PlanningPriority, i: int)
    requires
        0 <= i < plans.len(),
        forall|j: int| 0 <= j < plans.len() ==> !(#[trigger] plans[j]).distance.nan(),
    ensures
        best_over(None, plans, priority) matches Some(best) && plans.contains(best) && !preferred(
            plans[i],
            best,
            priority,
        ),
    decreases plans.len(),
{
    let front = plans.drop_last();
    let last = plans.last();
    assert forall|j: int| 0 <= j < front.len() implies !(#[trigger] front[j]).distance.nan() by {
        assert(front[j] == plans[j]);
    }
    assert(plans[plans.len() - 1] == last);
    if front.len() > 0 {
        let h = if i < front.len() {
            i
        } else {
            0
        };
        law_best_is_unbeaten(front, priority, h);
        let best = best_over(None, front, priority)->0;
        let j = choose|j: int| 0 <= j < front.len() && front[j] == best;
        assert(plans[j] == best);
        if i < front.len() {
            assert(front[i] == plans[i]);
        }
    } else {
        assert(best_over(None, front, priority) is None);
    }
}

/// A choice that keeps the plan it competes with, or replaces it.
fn better_choice(candidate: &ChosenPlan, current: &Option<ChosenPlan>, priority: PlanningPriority)
    -> (r: bool)
    ensures
        r == match *current {
            Some(current) => preferred(candidate@, current@, priority),
            None => true,
        },
{
    let current: &ChosenPlan = match current {
        Some(current) => current,
        None => {
            return true;
        },
    };
    if candidate.within_target != current.within_target {
        return candidate.within_target;
    }
    let cheaper: bool = candidate.total_price_cents < current.total_price_cents;
    if priority == PlanningPriority::Cheapest && candidate.within_target {
        cheaper || (candidate.total_price_cents == current.total_price_cents
            && candidate.distance.less(current.distance))
    } else {
        candidate.distance.less(current.distance) || (candidate.distance.same_number(
            current.distance,
        ) && cheaper)
    }
}

/// A copy of a list of places.
pub(crate) fn copy_places(places: &Vec<usize>) -> (r: Vec<usize>)
    ensures
        r@ == places@,
{
    let mut r: Vec<usize> = Vec::with_capacity(places.len());
    let mut i: usize = 0;
    while i < places.len()
        invariant
            i <= places@.len(),
            r@ == places@.take(i as int),
        decreases places.len() - i,
    {
        r.push(places[i]);
        proof {
            assert(r@ =~= places@.take(i + 1));
        }
        i = i + 1;
    }
    proof {
        assert(places@.take(i as int) =~= places@);
    }
    r
}

/// Compares one choice with the best so far.
pub(crate) fn consider(
    aim: Aim<'_>,
    places: &Vec<usize>,
    average: Float32,
    price: u64,
    priority: PlanningPriority,
    best: &mut Option<ChosenPlan>,
)
    ensures
        plan_view(*final(best)) == better_of(
            plan_view(*old(best)),
            rated(
                aim,
                as_places(places@),
                predicted_output(average, *aim.target),
                price as nat,
            ),
            priority,
        ),
{
    let predicted: Float32 = output_float(average, aim.target);
    let mut plan: ChosenPlan = ChosenPlan {
        places: Vec::new(),
        predicted,
        total_price_cents: price,
        within_target: aim.low.at_most(predicted) && predicted.at_most(aim.high),
        distance: f32_abs(f32_sub(predicted, aim.center)),
    };
    if better_choice(&plan, best, priority) {
        plan.places = copy_places(places);
        *best = Some(plan);
    }
}

/// The choices that begin with the places already taken.
pub open spec fn completed(taken: Seq<int>, choices: Seq<Seq<int>>) -> Seq<Seq<int>> {
    Seq::new(choices.len(), |i: int| taken + choices[i])
}

proof fn lemma_completed_step(taken: Seq<int>, start: int, choices: Seq<Seq<int>>)
    ensures
        completed(taken, headed(start, choices)) == completed(taken.push(start), choices),
{
    assert forall|i: int| 0 <= i < choices.len() implies completed(
        taken,
        headed(start, choices),
    )[i] == completed(taken.push(start), choices)[i] by {
        assert(taken + (seq![start] + choices[i]) =~= taken.push(start) + choices[i]);
    }
    assert(completed(taken, headed(start, choices)) =~= completed(taken.push(start), choices));
}

/// Too few places leave no combination.
proof fn lemma_no_combination(n: int, k: int, start: int)
    requires
        k > 0,
        n - start < k,
    ensures
        combinations(n, k, start).len() == 0,
    decreases n - start,
{
    if start < n {
        if k > 1 {
            lemma_no_combination(n, k - 1, start + 1);
        }
        lemma_no_combination(n, k, start + 1);
    }
}

proof fn lemma_plans_concat(
    aim: Aim<'_>,
    owned: Seq<Float32>,
    pool: Seq<Candidate<'_>>,
    taken: Seq<int>,
    a: Seq<Seq<int>>,
    b: Seq<Seq<int>>,
)
    ensures
        plans_of(aim, owned, pool, completed(taken, a + b)) == plans_of(
            aim,
            owned,
            pool,
            completed(taken, a),
        ) + plans_of(aim, owned, pool, completed(taken, b)),
{
    assert(completed(taken, a + b) =~= completed(taken, a) + completed(taken, b));
    assert(plans_of(aim, owned, pool, completed(taken, a + b)) =~= plans_of(
        aim,
        owned,
        pool,
        completed(taken, a),
    ) + plans_of(aim, owned, pool, completed(taken, b)));
}

/// Taking one more candidate adds its share and its price.
proof fn lemma_taken_step(
    owned: Seq<Float32>,
    pool: Seq<Candidate<'_>>,
    taken: Seq<int>,
    place: int,
)
    ensures
        running_sum(owned + chosen_shares(pool, taken.push(place))) == crate::float32::sum(
            running_sum(owned + chosen_shares(pool, taken)),
            pool[place].adjusted,
        ),
        total_price(pool, taken.push(place)) == total_price(pool, taken)
            + pool[place].listing.price_cents,
{
    let before = owned + chosen_shares(pool, taken);
    let after = owned + chosen_shares(pool, taken.push(place));
    assert(after =~= before.push(pool[place].adjusted));
    assert(after.drop_last() =~= before);
    assert(taken.push(place).drop_last() =~= taken);
}

/// The best of `best` and every completion of `taken` by `k` places from `start` on.
#[verifier::opaque]
pub open spec fn best_completion(
    best: Option<Plan>,
    aim: Aim<'_>,
    owned: Seq<Float32>,
    pool: Seq<Candidate<'_>>,
    taken: Seq<int>,
    k: int,
    start: int,
    priority: PlanningPriority,
) -> Option<Plan> {
    best_over(
        best,
        plans_of(
            aim,
            owned,
            pool,
            completed(taken, combinations(pool.len() as int, k, start)),
        ),
        priority,
    )
}

/// The completions that take `start` come before those that leave it out.
proof fn lemma_completion_step(
    best: Option<Plan>,
    aim: Aim<'_>,
    owned: Seq<Float32>,
    pool: Seq<Candidate<'_>>,
    taken: Seq<int>,
    k: int,
    start: int,
    priority: PlanningPriority,
)
    requires
        k > 0,
        start < pool.len(),
    ensures
        best_completion(best, aim, owned, pool, taken, k, start, priority) == best_completion(
            best_completion(
                best,
                aim,
                owned,
                pool,
                taken.push(start),
                k - 1,
                start + 1,
                priority,
            ),
            aim,
            owned,
            pool,
            taken,
            k,
            start + 1,
            priority,
        ),
{
    reveal(best_completion);
    let n = pool.len() as int;
    let with = combinations(n, k - 1, start + 1);
    let without = combinations(n, k, start + 1);
    lemma_completed_step(taken, start, with);
    lemma_plans_concat(aim, owned, pool, taken, headed(start, with), without);
    lemma_best_over_concat(
        best,
        plans_of(aim, owned, pool, completed(taken, headed(start, with))),
        plans_of(aim, owned, pool, completed(taken, without)),
        priority,
    );
}

/// Nothing is left to compare once too few places remain.
proof fn lemma_completion_end(
    best: Option<Plan>,
    aim: Aim<'_>,
    owned: Seq<Float32>,
    pool: Seq<Candidate<'_>>,
    taken: Seq<int>,
    k: int,
    start: int,
    priority: PlanningPriority,
)
    requires
        k > 0,
        pool.len() - start < k,
    ensures
        best_completion(best, aim, owned, pool, taken, k, start, priority) == best,
{
    reveal(best_completion);
    lemma_no_combination(pool.len() as int, k, start);
    assert(plans_of(
        aim,
        owned,
        pool,
        completed(taken, combinations(pool.len() as int, k, start)),
    ).len() == 0);
}

/// A complete choice competes alone.
proof fn lemma_completion_leaf(
    best: Option<Plan>,
    aim: Aim<'_>,
    owned: Seq<Float32>,
    pool: Seq<Candidate<'_>>,
    taken: Seq<int>,
    start: int,
    priority: PlanningPriority,
)
    ensures
        best_completion(best, aim, owned, pool, taken, 0, start, priority) == better_of(
            best,
            plan_of(aim, owned, pool, taken),
            priority,
        ),
{
    reveal(best_completion);
    let choices = completed(taken, combinations(pool.len() as int, 0, start));
    assert(choices =~= seq![taken]) by {
        assert(taken + Seq::<int>::empty() =~= taken);
    }
    let plans = plans_of(aim, owned, pool, choices);
    assert(plans =~= seq![plan_of(aim, owned, pool, taken)]);
    assert(plans.drop_last() =~= Seq::empty());
    assert(best_over(best, plans.drop_last(), priority) == best);
}

/// Adds a price modulo the price range.
fn add_price(price: u64, more: u64, Ghost(total): Ghost<nat>) -> (r: u64)
    requires
        price == total % price_range(),
    ensures
        r == (total + more) % price_range() as int,
{
    price.wrapping_add(more)
}

/// Goes through every completion of the places already taken.
fn complete_selection(
    aim: Aim<'_>,
    candidates: &Vec<Candidate<'_>>,
    required: usize,
    size: usize,
    priority: PlanningPriority,
    start: usize,
    selected: &mut Vec<usize>,
    sum: Float32,
    price: u64,
    best: &mut Option<ChosenPlan>,
    Ghost(owned): Ghost<Seq<Float32>>,
)
    requires
        old(selected)@.len() <= required,
        required <= candidates@.len(),
        start <= candidates@.len(),
        size == owned.len() + required,
        sum == running_sum(owned + chosen_shares(candidates@, as_places(old(selected)@))),
        price == total_price(candidates@, as_places(old(selected)@)) % price_range(),
    ensures
        final(selected)@ == old(selected)@,
        plan_view(*final(best)) == best_completion(
            plan_view(*old(best)),
            aim,
            owned,
            candidates@,
            as_places(old(selected)@),
            required - old(selected)@.len(),
            start as int,
            priority,
        ),
    decreases required - old(selected)@.len(),
{
    let ghost pool = candidates@;
    let ghost taken = as_places(selected@);
    let ghost entry = selected@;
    if selected.len() == required {
        proof {
            lemma_completion_leaf(
                plan_view(*best),
                aim,
                owned,
                pool,
                taken,
                start as int,
                priority,
            );
        }
        consider(
            aim,
            selected,
            f32_div(sum, Float32::from_count(size)),
            price,
            priority,
            best,
        );
        return;
    }
    let needed: usize = required - selected.len();
    let mut index: usize = start;
    while index < candidates.len() && candidates.len() - index >= needed
        invariant
            start <= index <= candidates@.len(),
            pool == candidates@,
            selected@ == entry,
            taken == as_places(entry),
            entry.len() < required <= candidates@.len(),
            needed == required - entry.len(),
            size == owned.len() + required,
            sum == running_sum(owned + chosen_shares(pool, taken)),
            price == total_price(pool, taken) % price_range(),
            required - entry.len() == required - old(selected)@.len(),
            best_completion(
                plan_view(*best),
                aim,
                owned,
                pool,
                taken,
                needed as int,
                index as int,
                priority,
            ) == best_completion(
                plan_view(*old(best)),
                aim,
                owned,
                pool,
                taken,
                needed as int,
                start as int,
                priority,
            ),
        decreases candidates.len() - index,
    {
        let candidate: &Candidate<'_> = &candidates[index];
        selected.push(index);
        proof {
            assert(as_places(selected@) =~= taken.push(index as int));
            lemma_taken_step(owned, pool, taken, index as int);
            lemma_completion_step(
                plan_view(*best),
                aim,
                owned,
                pool,
                taken,
                needed as int,
                index as int,
                priority,
            );
        }
        complete_selection(
            aim,
            candidates,
            required,
            size,
            priority,
            index + 1,
            selected,
            f32_add(sum, candidate.adjusted),
            add_price(price, candidate.listing.price_cents, Ghost(total_price(pool, taken))),
            best,
            Ghost(owned),
        );
        selected.pop();
        proof {
            assert(selected@ =~= entry);
        }
        index = index + 1;
    }
    proof {
        lemma_completion_end(
            plan_view(*best),
            aim,
            owned,
            pool,
            taken,
            needed as int,
            index as int,
            priority,
        );
    }
}

/// Finds the best choice of `required` candidates by going through all of them.
pub fn search_combinations(
    aim: Aim<'_>,
    owned: &Vec<Float32>,
    candidates: &Vec<Candidate<'_>>,
    required: usize,
    priority: PlanningPriority,
) -> (r: Option<ChosenPlan>)
    requires
        required <= candidates@.len(),
        owned@.len() + required <= usize::MAX,
    ensures
        plan_view(r) == best_over(
            None,
            plans_of(
                aim,
                owned@,
                candidates@,
                combinations(candidates@.len() as int, required as int, 0),
            ),
            priority,
        ),
{
    let mut best: Option<ChosenPlan> = None;
    let mut selected: Vec<usize> = Vec::new();
    proof {
        reveal(best_completion);
        let taken = as_places(selected@);
        assert(chosen_shares(candidates@, taken) =~= Seq::empty());
        assert(owned@ + chosen_shares(candidates@, taken) =~= owned@);
        let all = combinations(candidates@.len() as int, required as int, 0);
        assert forall|i: int| 0 <= i < all.len() implies completed(taken, all)[i] == all[i] by {
            assert(taken + all[i] =~= all[i]);
        }
        assert(completed(taken, all) =~= all);
    }
    complete_selection(
        aim,
        candidates,
        required,
        owned.len() + required,
        priority,
        0,
        &mut selected,
        crate::domain::sum_in_order(owned.as_slice()),
        0,
        &mut best,
        Ghost(owned@),
    );
    best
}

} // verus!
