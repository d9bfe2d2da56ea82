//! A bounded search through large pools of listings.
use crate::accuracy::{law_nearest_positive, law_order_is_numeric, lemma_count_exact};
use crate::catalog::sound_caps;
use crate::contract::TEN_BITS;
use crate::domain::{
    average, average_adjusted, cap_span, predicted_output, running_sum, sum_in_order, Float32, Skin,
};
use crate::float32::{
    abs_int, absolute, difference, f32_abs, f32_add, f32_div, f32_mul, f32_sub,
    lemma_nearest_bound, magnitude_units, of_count, opposite, product, quotient, sum,
};
use crate::search::{
    as_places, best_over, better_of, chosen_shares, combinations, consider, copy_places,
    is_selection, law_best_is_unbeaten, law_combinations, lemma_combination_selects, plan_of,
    plan_view, plans_of, total_price, Aim, Candidate, ChosenPlan, PlanningPriority,
};
use crate::sorting::{
    keys, lemma_stable_sorted, picked, stable_order, stable_sorted, Ranked, Sortable,
};
use crate::text::{compare_text, lemma_text_relations, text_relation, Relation};
use vstd::arithmetic::power2::{lemma2_to64, lemma_pow2_pos, pow2};
use vstd::prelude::*;

verus! {

/// How many choices of one size are kept.
pub const BEAM_WIDTH: usize = 4_096;

/// How two lists of texts compare, the first difference deciding.
pub open spec fn list_relation(a: Seq<Seq<char>>, b: Seq<Seq<char>>) -> Relation
    decreases a.len(),
{
    if a.len() == 0 {
        if b.len() == 0 {
            Relation::Same
        } else {
            Relation::Before
        }
    } else if b.len() == 0 {
        Relation::After
    } else {
        match text_relation(a[0], b[0]) {
            Relation::Same => list_relation(a.drop_first(), b.drop_first()),
            relation => relation,
        }
    }
}

proof fn lemma_list_relations(a: Seq<Seq<char>>, b: Seq<Seq<char>>, c: Seq<Seq<char>>)
    ensures
        list_relation(a, b) is After <==> list_relation(b, a) is Before,
        list_relation(a, b) is Same <==> a == b,
        list_relation(a, b) is Before && list_relation(b, c) is Before ==> list_relation(
            a,
            c,
        ) is Before,
    decreases a.len(),
{
    if a.len() > 0 && b.len() > 0 {
        lemma_text_relations(a[0], b[0], b[0]);
        lemma_text_relations(b[0], a[0], a[0]);
        if c.len() > 0 {
            lemma_text_relations(a[0], b[0], c[0]);
            lemma_text_relations(b[0], c[0], c[0]);
            lemma_text_relations(a[0], c[0], c[0]);
            lemma_list_relations(a.drop_first(), b.drop_first(), c.drop_first());
        } else {
            lemma_list_relations(a.drop_first(), b.drop_first(), c);
        }
        if a[0] == b[0] && a.drop_first() == b.drop_first() {
            assert(a =~= seq![a[0]] + a.drop_first());
            assert(b =~= seq![b[0]] + b.drop_first());
        }
    } else if a.len() == 0 && b.len() == 0 {
        assert(a =~= b);
    }
}

/// By what a choice is kept or dropped.
pub struct Rating {
    pub distance: Float32,
    pub price: nat,
    pub ids: Seq<Seq<char>>,
    pub places: Seq<int>,
}

/// The beam order: by distance, then price, then listing ids.
impl Ranked for Rating {
    open spec fn not_after(self, other: Self) -> bool {
        let (a, b) = (self.distance.total_rank(), other.distance.total_rank());
        a < b || (a == b && (self.price < other.price || (self.price == other.price && !(
        list_relation(self.ids, other.ids) is After))))
    }

    proof fn lemma_total(a: Self, b: Self) {
        lemma_list_relations(a.ids, b.ids, b.ids);
    }

    proof fn lemma_transitive(a: Self, b: Self, c: Self) {
        lemma_list_relations(a.ids, b.ids, c.ids);
        lemma_list_relations(b.ids, c.ids, c.ids);
        lemma_list_relations(a.ids, c.ids, c.ids);
    }
}

/// The id of the listing at a place.
pub open spec fn listing_id(pool: Seq<Candidate<'_>>, place: int) -> Seq<char> {
    if 0 <= place < pool.len() {
        pool[place].listing.id@
    } else {
        Seq::empty()
    }
}

pub open spec fn listing_ids(pool: Seq<Candidate<'_>>, places: Seq<int>) -> Seq<Seq<char>> {
    Seq::new(places.len(), |i: int| listing_id(pool, places[i]))
}

/// The rating of a choice whose adjusted floats are to sum up to `expected`.
pub open spec fn rating_of(
    pool: Seq<Candidate<'_>>,
    places: Seq<int>,
    expected: Float32,
) -> Rating {
    Rating {
        distance: absolute(difference(running_sum(chosen_shares(pool, places)), expected)),
        price: total_price(pool, places),
        ids: listing_ids(pool, places),
        places,
    }
}

pub open spec fn ratings_of(
    pool: Seq<Candidate<'_>>,
    level: Seq<Seq<int>>,
    expected: Float32,
) -> Seq<Rating> {
    Seq::new(level.len(), |i: int| rating_of(pool, level[i], expected))
}

/// What the shares of `count` out of `required` candidates should sum up to.
pub open spec fn expected_sum(desired: Float32, count: nat, required: nat) -> Float32 {
    product(desired, quotient(of_count(count), of_count(required)))
}

/// The best rated choices, where there are too many to keep them all.
pub open spec fn pruned(
    pool: Seq<Candidate<'_>>,
    level: Seq<Seq<int>>,
    expected: Float32,
) -> Seq<Seq<int>> {
    if level.len() <= BEAM_WIDTH {
        level
    } else {
        let sorted = stable_sorted(ratings_of(pool, level, expected));
        Seq::new(BEAM_WIDTH as nat, |i: int| sorted[i].places)
    }
}

/// The choices that take one more candidate; one whose price leaves the machine range is dropped.
pub open spec fn extended(
    pool: Seq<Candidate<'_>>,
    level: Seq<Seq<int>>,
    place: int,
) -> Seq<Seq<int>>
    decreases level.len(),
{
    if level.len() == 0 {
        Seq::empty()
    } else {
        let front = extended(pool, level.drop_last(), place);
        if total_price(pool, level.last()) + pool[place].listing.price_cents <= u64::MAX {
            front.push(level.last().push(place))
        } else {
            front
        }
    }
}

/// The choices of `count` candidates that are kept after the first `n` candidates.
pub open spec fn beam_level(
    pool: Seq<Candidate<'_>>,
    desired: Float32,
    required: nat,
    n: int,
    count: nat,
) -> Seq<Seq<int>>
    decreases n,
{
    if count == 0 {
        seq![Seq::empty()]
    } else if n <= 0 {
        Seq::empty()
    } else {
        pruned(
            pool,
            beam_level(pool, desired, required, n - 1, count) + extended(
                pool,
                beam_level(pool, desired, required, n - 1, (count - 1) as nat),
                n - 1,
            ),
            expected_sum(desired, count, required),
        )
    }
}

/// What the open slots should contribute to reach an average of `target_adjusted`.
pub open spec fn missing_sum(target_adjusted: Float32, owned: Seq<Float32>) -> Float32 {
    difference(product(target_adjusted, Float32 { bits: TEN_BITS }), running_sum(owned))
}

/// Pruning keeps some of the choices.
pub(crate) proof fn lemma_pruned_keeps(
    pool: Seq<Candidate<'_>>,
    level: Seq<Seq<int>>,
    expected: Float32,
    i: int,
)
    requires
        0 <= i < pruned(pool, level, expected).len(),
    ensures
        level.contains(pruned(pool, level, expected)[i]),
{
    if level.len() <= BEAM_WIDTH {
        assert(level[i] == pruned(pool, level, expected)[i]);
    } else {
        broadcast use vstd::seq_lib::group_to_multiset_ensures;

        let ratings = ratings_of(pool, level, expected);
        let sorted = stable_sorted(ratings);
        lemma_stable_sorted(ratings);
        assert(sorted.contains(sorted[i]));
        assert(sorted.to_multiset().count(sorted[i]) > 0);
        assert(ratings.contains(sorted[i]));
        let j = choose|j: int| 0 <= j < ratings.len() && ratings[j] == sorted[i];
        assert(level[j] == sorted[i].places);
    }
}

proof fn lemma_extended_from(
    pool: Seq<Candidate<'_>>,
    level: Seq<Seq<int>>,
    place: int,
    i: int,
)
    requires
        0 <= i < extended(pool, level, place).len(),
    ensures
        exists|j: int|
            0 <= j < level.len() && extended(pool, level, place)[i] == (#[trigger] level[j]).push(
                place,
            ) && total_price(pool, level[j]) + pool[place].listing.price_cents <= u64::MAX,
    decreases level.len(),
{
    if level.len() > 0 {
        let front = level.drop_last();
        if i < extended(pool, front, place).len() {
            lemma_extended_from(pool, front, place, i);
            let j = choose|j: int|
                0 <= j < front.len() && extended(pool, front, place)[i] == (
                #[trigger] front[j]).push(place) && total_price(pool, front[j])
                    + pool[place].listing.price_cents <= u64::MAX;
            assert(level[j] == front[j]);
        } else {
            assert(level[level.len() - 1] == level.last());
        }
    }
}

/// The beam only holds ascending choices of different candidates whose price
/// fits the machine range.
pub proof fn law_beam_selects(
    pool: Seq<Candidate<'_>>,
    desired: Float32,
    required: nat,
    n: int,
    count: nat,
    i: int,
)
    requires
        0 <= n <= pool.len(),
        0 <= i < beam_level(pool, desired, required, n, count).len(),
    ensures
        is_selection(
            beam_level(pool, desired, required, n, count)[i],
            n,
            count as int,
            0,
        ),
        total_price(pool, beam_level(pool, desired, required, n, count)[i]) <= u64::MAX,
    decreases n,
{
    let places = beam_level(pool, desired, required, n, count)[i];
    if count > 0 && n > 0 {
        let kept = beam_level(pool, desired, required, n - 1, count);
        let shorter = beam_level(pool, desired, required, n - 1, (count - 1) as nat);
        let longer = extended(pool, shorter, n - 1);
        let all = kept + longer;
        lemma_pruned_keeps(pool, all, expected_sum(desired, count, required), i);
        let j = choose|j: int| 0 <= j < all.len() && all[j] == places;
        if j < kept.len() {
            law_beam_selects(pool, desired, required, n - 1, count, j);
            assert(kept[j] == places);
        } else {
            lemma_extended_from(pool, shorter, n - 1, j - kept.len());
            let h = choose|h: int|
                0 <= h < shorter.len() && longer[j - kept.len()] == (#[trigger] shorter[h]).push(
                    n - 1,
                ) && total_price(pool, shorter[h]) + pool[n - 1].listing.price_cents
                    <= u64::MAX;
            law_beam_selects(pool, desired, required, n - 1, (count - 1) as nat, h);
            assert(places.drop_last() =~= shorter[h]);
            assert forall|a: int| 0 <= a < count implies 0 <= #[trigger] places[a] < n by {
                if a < count - 1 {
                    assert(places[a] == shorter[h][a]);
                }
            }
            assert forall|a: int, b: int| 0 <= a < b < count implies #[trigger] places[a]
                < #[trigger] places[b] by {
                assert(places[a] == shorter[h][a]);
                if b < count - 1 {
                    assert(places[b] == shorter[h][b]);
                }
            }
        }
    }
}

/// No level holds more choices than the beam is wide.
pub proof fn law_beam_width(
    pool: Seq<Candidate<'_>>,
    desired: Float32,
    required: nat,
    n: int,
    count: nat,
)
    ensures
        beam_level(pool, desired, required, n, count).len() <= BEAM_WIDTH,
{
}

/// Every choice of up to `required` candidates costs what the machine range can hold.
pub open spec fn prices_fit(pool: Seq<Candidate<'_>>, required: nat) -> bool {
    forall|places: Seq<int>|
        #![trigger total_price(pool, places)]
        places.len() <= required && is_selection(
            places,
            pool.len() as int,
            places.len() as int,
            0,
        ) ==> total_price(pool, places) <= u64::MAX
}

/// Choices that all remain affordable are all extended.
proof fn lemma_all_extended(pool: Seq<Candidate<'_>>, level: Seq<Seq<int>>, place: int)
    requires
        forall|i: int|
            0 <= i < level.len() ==> total_price(pool, #[trigger] level[i])
                + pool[place].listing.price_cents <= u64::MAX,
    ensures
        extended(pool, level, place).len() == level.len(),
        forall|i: int|
            0 <= i < level.len() ==> extended(pool, level, place)[i] == (#[trigger] level[i]).push(
                place,
            ),
    decreases level.len(),
{
    if level.len() > 0 {
        let front = level.drop_last();
        assert forall|i: int| 0 <= i < front.len() implies total_price(pool, #[trigger] front[i])
            + pool[place].listing.price_cents <= u64::MAX by {
            assert(front[i] == level[i]);
        }
        lemma_all_extended(pool, front, place);
        assert(level[level.len() - 1] == level.last());
        assert forall|i: int| 0 <= i < level.len() implies extended(pool, level, place)[i] == (
        #[trigger] level[i]).push(place) by {
            if i < front.len() {
                assert(front[i] == level[i]);
            }
        }
    }
}

/// The beam runs out of choices only where the candidates do, or the prices leave
/// the machine range.
pub proof fn law_beam_finds(
    pool: Seq<Candidate<'_>>,
    desired: Float32,
    required: nat,
    n: int,
    count: nat,
)
    requires
        0 <= n <= pool.len(),
        count <= required,
        count <= n,
        prices_fit(pool, required),
    ensures
        beam_level(pool, desired, required, n, count).len() > 0,
    decreases n,
{
    if count > 0 {
        let kept = beam_level(pool, desired, required, n - 1, count);
        let shorter = beam_level(pool, desired, required, n - 1, (count - 1) as nat);
        let longer = extended(pool, shorter, n - 1);
        if count <= n - 1 {
            law_beam_finds(pool, desired, required, n - 1, count);
        } else {
            law_beam_finds(pool, desired, required, n - 1, (count - 1) as nat);
            lemma_all_affordable(pool, desired, required, n, count);
            lemma_all_extended(pool, shorter, n - 1);
        }
        assert((kept + longer).len() > 0);
    }
}

/// How many choices of `k` out of `n` places there are.
pub open spec fn binomial(n: nat, k: nat) -> nat
    decreases n,
{
    if k == 0 {
        1
    } else if n == 0 {
        0
    } else {
        binomial((n - 1) as nat, k) + binomial((n - 1) as nat, (k - 1) as nat)
    }
}

/// More places leave no fewer choices.
proof fn lemma_binomial_monotone(m: nat, n: nat, k: nat)
    requires
        m <= n,
    ensures
        binomial(m, k) <= binomial(n, k),
    decreases n,
{
    if m < n {
        lemma_binomial_monotone(m, (n - 1) as nat, k);
    }
}

/// The choices of a level remain affordable with one more candidate.
proof fn lemma_all_affordable(
    pool: Seq<Candidate<'_>>,
    desired: Float32,
    required: nat,
    n: int,
    count: nat,
)
    requires
        0 < n <= pool.len(),
        0 < count <= required,
        prices_fit(pool, required),
    ensures
        forall|i: int|
            0 <= i < beam_level(pool, desired, required, n - 1, (count - 1) as nat).len()
                ==> total_price(
                pool,
                #[trigger] beam_level(pool, desired, required, n - 1, (count - 1) as nat)[i],
            ) + pool[n - 1].listing.price_cents <= u64::MAX,
{
    let shorter = beam_level(pool, desired, required, n - 1, (count - 1) as nat);
    assert forall|i: int| 0 <= i < shorter.len() implies total_price(pool, #[trigger] shorter[i])
        + pool[n - 1].listing.price_cents <= u64::MAX by {
        law_beam_selects(pool, desired, required, n - 1, (count - 1) as nat, i);
        let places = shorter[i].push(n - 1);
        assert(places.drop_last() =~= shorter[i]);
        assert(total_price(pool, places) <= u64::MAX);
    }
}

/// No size has more choices than the beam is wide.
pub open spec fn fits_beam(n: nat, required: nat) -> bool {
    forall|k: nat| k <= required ==> #[trigger] binomial(n, k) <= BEAM_WIDTH
}

/// Where the beam is wide enough, a level holds every selection.
proof fn lemma_unpruned(
    pool: Seq<Candidate<'_>>,
    desired: Float32,
    required: nat,
    n: int,
    count: nat,
)
    requires
        0 <= n <= pool.len(),
        count <= required,
        prices_fit(pool, required),
        fits_beam(pool.len(), required),
    ensures
        beam_level(pool, desired, required, n, count).len() == binomial(n as nat, count),
        forall|places: Seq<int>| #[trigger]
            is_selection(places, n, count as int, 0) ==> beam_level(
                pool,
                desired,
                required,
                n,
                count,
            ).contains(places),
    decreases n,
{
    let level = beam_level(pool, desired, required, n, count);
    if count == 0 {
        assert forall|places: Seq<int>| #[trigger]
            is_selection(places, n, 0, 0) implies level.contains(places) by {
            assert(level[0] =~= places);
        }
    } else if n == 0 {
        assert forall|places: Seq<int>| #[trigger]
            is_selection(places, n, count as int, 0) implies level.contains(places) by {
            assert(places[0] < 0);
        }
    } else {
        let kept = beam_level(pool, desired, required, n - 1, count);
        let shorter = beam_level(pool, desired, required, n - 1, (count - 1) as nat);
        let longer = extended(pool, shorter, n - 1);
        let all = kept + longer;
        lemma_unpruned(pool, desired, required, n - 1, count);
        lemma_unpruned(pool, desired, required, n - 1, (count - 1) as nat);
        lemma_all_affordable(pool, desired, required, n, count);
        lemma_all_extended(pool, shorter, n - 1);
        lemma_binomial_monotone(n as nat, pool.len(), count);
        assert(binomial(pool.len(), count) <= BEAM_WIDTH);
        assert(level == all);
        assert forall|places: Seq<int>| #[trigger]
            is_selection(places, n, count as int, 0) implies level.contains(places) by {
            if places.last() == n - 1 {
                let front = places.drop_last();
                assert(is_selection(front, n - 1, count - 1, 0)) by {
                    assert forall|a: int| 0 <= a < count - 1 implies 0 <= #[trigger] front[a] < n
                        - 1 by {
                        assert(places[a] < places[count - 1]);
                    }
                    assert forall|a: int, b: int| 0 <= a < b < count - 1 implies #[trigger] front[a]
                        < #[trigger] front[b] by {
                        assert(places[a] < places[b]);
                    }
                }
                let h = choose|h: int| 0 <= h < shorter.len() && shorter[h] == front;
                assert(longer[h] == shorter[h].push(n - 1));
                assert(all[kept.len() + h] =~= places);
            } else {
                assert(is_selection(places, n - 1, count as int, 0)) by {
                    assert forall|a: int| 0 <= a < count implies 0 <= #[trigger] places[a] < n
                        - 1 by {
                        if a < count - 1 {
                            assert(places[a] < places[count - 1]);
                        }
                    }
                }
                let h = choose|h: int| 0 <= h < kept.len() && kept[h] == places;
                assert(all[h] == places);
            }
        }
    }
}

/// Finite shares, finite caps and a finite goal.
pub open spec fn finite_search(
    aim: Aim<'_>,
    owned: Seq<Float32>,
    pool: Seq<Candidate<'_>>,
) -> bool {
    &&& sound_caps(*aim.target)
    &&& cap_span(*aim.target).finite()
    &&& aim.center.finite()
    &&& forall|i: int| 0 <= i < owned.len() ==> (#[trigger] owned[i]).finite()
    &&& forall|i: int| 0 <= i < pool.len() ==> (#[trigger] pool[i]).adjusted.finite()
}

/// Finite numbers add up to a number, though it may be infinite.
proof fn lemma_sum_is_a_number(values: Seq<Float32>)
    requires
        forall|i: int| 0 <= i < values.len() ==> (#[trigger] values[i]).finite(),
    ensures
        !running_sum(values).nan(),
    decreases values.len(),
{
    if values.len() > 0 {
        let front = values.drop_last();
        assert forall|i: int| 0 <= i < front.len() implies (#[trigger] front[i]).finite() by {
            assert(front[i] == values[i]);
        }
        lemma_sum_is_a_number(front);
        assert(values[values.len() - 1].finite());
        lemma_number_plus_finite(running_sum(front), values.last());
    }
}

proof fn lemma_number_plus_finite(a: Float32, b: Float32)
    requires
        !a.nan(),
        b.finite(),
    ensures
        !sum(a, b).nan(),
        !sum(b, a).nan(),
{
    reveal(sum);
    if a.finite() {
        lemma_nearest_bound(abs_int(a.units() + b.units()), 1);
    }
}

/// A number by or times a finite one that is not zero is a number.
proof fn lemma_scaled_is_a_number(a: Float32, b: Float32)
    requires
        !a.nan(),
        b.finite(),
        b.magnitude() != 0,
    ensures
        !quotient(a, b).nan(),
        !product(a, b).nan(),
{
    let (x, y) = (magnitude_units(a.magnitude()), magnitude_units(b.magnitude()));
    lemma_nearest_bound(x * pow2(149), y);
    lemma_nearest_bound(x * y, pow2(149));
    reveal(quotient);
    reveal(product);
}

/// The width of sound caps is not zero.
proof fn lemma_sound_span(skin: Skin)
    requires
        sound_caps(skin),
    ensures
        cap_span(skin).magnitude() != 0,
{
    let (low, high) = (skin.min_float, skin.max_float);
    reveal(sum);
    law_order_is_numeric(low, high);
    assert(opposite(low).units() == -low.units());
    law_nearest_positive((high.units() - low.units()) as nat);
    lemma_nearest_bound((high.units() - low.units()) as nat, 1);
}

proof fn lemma_ten_is_not_zero()
    ensures
        of_count(10).finite(),
        of_count(10).magnitude() != 0,
{
    lemma_count_exact(10);
    lemma_pow2_pos(149);
    lemma2_to64();
    assert(magnitude_units(0) == 0 * pow2(0));
}

/// In a finite search every choice has a distance to the goal.
proof fn lemma_finite_distance(
    aim: Aim<'_>,
    owned: Seq<Float32>,
    pool: Seq<Candidate<'_>>,
    places: Seq<int>,
)
    requires
        finite_search(aim, owned, pool),
        owned.len() + places.len() == 10,
        is_selection(places, pool.len() as int, places.len() as int, 0),
    ensures
        !plan_of(aim, owned, pool, places).distance.nan(),
{
    let all = owned + chosen_shares(pool, places);
    let target = *aim.target;
    let share = average(all, 10);
    assert forall|i: int| 0 <= i < all.len() implies (#[trigger] all[i]).finite() by {
        if i >= owned.len() {
            assert(all[i] == pool[places[i - owned.len()]].adjusted);
        } else {
            assert(all[i] == owned[i]);
        }
    }
    lemma_sum_is_a_number(all);
    lemma_ten_is_not_zero();
    lemma_scaled_is_a_number(running_sum(all), of_count(10));
    lemma_sound_span(target);
    lemma_scaled_is_a_number(share, cap_span(target));
    lemma_number_plus_finite(product(share, cap_span(target)), target.min_float);
    lemma_number_plus_finite(predicted_output(share, target), opposite(aim.center));
}

/// The bounded search is as good as the exhaustive one where no size has more choices
/// than the beam is wide: both find a plan, and the two plans agree in what they are
/// judged by.
pub proof fn law_beam_agrees_with_all_combinations(
    aim: Aim<'_>,
    owned: Seq<Float32>,
    pool: Seq<Candidate<'_>>,
    required: nat,
    target_adjusted: Float32,
    priority: PlanningPriority,
)
    requires
        owned.len() + required == 10,
        required <= pool.len(),
        finite_search(aim, owned, pool),
        prices_fit(pool, required),
        fits_beam(pool.len(), required),
    ensures
        ({
            let n = pool.len() as int;
            let desired = missing_sum(target_adjusted, owned);
            let level = beam_level(pool, desired, required, n, required);
            let bounded = best_over(None, plans_of(aim, owned, pool, level), priority);
            let exact = best_over(
                None,
                plans_of(aim, owned, pool, combinations(n, required as int, 0)),
                priority,
            );
            &&& bounded is Some && exact is Some
            &&& is_selection(bounded->0.places, n, required as int, 0)
            &&& is_selection(exact->0.places, n, required as int, 0)
            &&& bounded->0.within == exact->0.within
            &&& bounded->0.price == exact->0.price
            &&& bounded->0.distance == exact->0.distance
        }),
{
    let n = pool.len() as int;
    let k = required as int;
    let desired = missing_sum(target_adjusted, owned);
    let level = beam_level(pool, desired, required, n, required);
    let all = combinations(n, k, 0);
    let (some, every) = (plans_of(aim, owned, pool, level), plans_of(aim, owned, pool, all));
    lemma_unpruned(pool, desired, required, n, required);
    law_beam_finds(pool, desired, required, n, required);
    assert forall|i: int| 0 <= i < level.len() implies is_selection(#[trigger] level[i], n, k, 0)
        && !some[i].distance.nan() by {
        law_beam_selects(pool, desired, required, n, required, i);
        lemma_finite_distance(aim, owned, pool, level[i]);
    }
    assert forall|i: int| 0 <= i < all.len() implies is_selection(#[trigger] all[i], n, k, 0)
        && !every[i].distance.nan() by {
        lemma_combination_selects(n, k, 0, i);
        lemma_finite_distance(aim, owned, pool, all[i]);
    }
    assert(is_selection(level[0], n, k, 0));
    law_combinations(n, k, level[0]);
    law_best_is_unbeaten(some, priority, 0);
    let b = best_over(None, some, priority)->0;
    let i = choose|i: int| 0 <= i < some.len() && some[i] == b;
    assert(is_selection(level[i], n, k, 0));
    law_combinations(n, k, level[i]);
    let j = choose|j: int| 0 <= j < all.len() && all[j] == level[i];
    assert(every[j] == b);
    law_best_is_unbeaten(every, priority, j);
    let e = best_over(None, every, priority)->0;
    let g = choose|g: int| 0 <= g < every.len() && every[g] == e;
    assert(is_selection(all[g], n, k, 0));
    assert(level.contains(all[g]));
    let h = choose|h: int| 0 <= h < level.len() && level[h] == all[g];
    assert(some[h] == e);
    law_best_is_unbeaten(some, priority, h);
    assert(b.distance.bits < 0x8000_0000 && e.distance.bits < 0x8000_0000);
}

/// A choice under construction.
#[derive(Debug)]
struct BeamState<'p, 'a> {
    pool: &'p Vec<Candidate<'a>>,
    places: Vec<usize>,
    adjusted_sum: Float32,
    total_price_cents: u64,
    distance: Float32,
}

impl<'p, 'a> Sortable for BeamState<'p, 'a> {
    type Key = Rating;

    closed spec fn key(self) -> Rating {
        Rating {
            distance: self.distance,
            price: self.total_price_cents as nat,
            ids: listing_ids(self.pool@, as_places(self.places@)),
            places: as_places(self.places@),
        }
    }

    fn stays_before(&self, other: &Self) -> (r: bool) {
        let a: i64 = self.distance.total_rank_value();
        let b: i64 = other.distance.total_rank_value();
        if a != b {
            return a < b;
        }
        if self.total_price_cents != other.total_price_cents {
            return self.total_price_cents < other.total_price_cents;
        }
        !matches!(
            compare_ids(self.pool, &self.places, other.pool, &other.places),
            Relation::After
        )
    }
}

fn id_at<'p>(pool: &'p Vec<Candidate<'_>>, place: usize) -> (r: &'p str)
    ensures
        r@ == listing_id(pool@, place as int),
{
    if place < pool.len() {
        pool[place].listing.id.as_str()
    } else {
        proof {
            reveal_strlit("");
            assert(""@ =~= Seq::empty());
        }
        ""
    }
}

/// Compares the listing ids of two choices.
fn compare_ids(
    pool: &Vec<Candidate<'_>>,
    places: &Vec<usize>,
    other_pool: &Vec<Candidate<'_>>,
    other_places: &Vec<usize>,
) -> (r: Relation)
    ensures
        r == list_relation(
            listing_ids(pool@, as_places(places@)),
            listing_ids(other_pool@, as_places(other_places@)),
        ),
{
    let ghost a = listing_ids(pool@, as_places(places@));
    let ghost b = listing_ids(other_pool@, as_places(other_places@));
    let mut i: usize = 0;
    proof {
        assert(a.skip(0) =~= a);
        assert(b.skip(0) =~= b);
    }
    while i < places.len() && i < other_places.len()
        invariant
            i <= places@.len(),
            i <= other_places@.len(),
            a == listing_ids(pool@, as_places(places@)),
            b == listing_ids(other_pool@, as_places(other_places@)),
            list_relation(a, b) == list_relation(a.skip(i as int), b.skip(i as int)),
        decreases places.len() - i,
    {
        proof {
            assert(a.skip(i as int).drop_first() =~= a.skip(i + 1));
            assert(b.skip(i as int).drop_first() =~= b.skip(i + 1));
        }
        match compare_text(id_at(pool, places[i]), id_at(other_pool, other_places[i])) {
            Relation::Same => {},
            relation => {
                return relation;
            },
        }
        i = i + 1;
    }
    if places.len() == other_places.len() {
        Relation::Same
    } else if places.len() < other_places.len() {
        Relation::Before
    } else {
        Relation::After
    }
}

/// `state` is the choice `places`, with its sums at hand.
spec fn stands_for(
    state: BeamState<'_, '_>,
    pool: Seq<Candidate<'_>>,
    places: Seq<int>,
    expected: Float32,
) -> bool {
    &&& state.pool@ == pool
    &&& as_places(state.places@) == places
    &&& state.adjusted_sum == running_sum(chosen_shares(pool, places))
    &&& state.total_price_cents == total_price(pool, places)
    &&& state.distance == absolute(difference(state.adjusted_sum, expected))
}

spec fn level_stands(
    states: Seq<BeamState<'_, '_>>,
    pool: Seq<Candidate<'_>>,
    level: Seq<Seq<int>>,
    expected: Float32,
) -> bool {
    &&& states.len() == level.len()
    &&& forall|i: int|
        0 <= i < states.len() ==> stands_for(#[trigger] states[i], pool, level[i], expected)
}

/// Drops the worst rated states of a level that has grown too large.
fn prune_beam_level<'p, 'a>(
    level: Vec<BeamState<'p, 'a>>,
    Ghost(pool): Ghost<Seq<Candidate<'_>>>,
    Ghost(choices): Ghost<Seq<Seq<int>>>,
    Ghost(expected): Ghost<Float32>,
) -> (r: Vec<BeamState<'p, 'a>>)
    requires
        level_stands(level@, pool, choices, expected),
    ensures
        level_stands(r@, pool, pruned(pool, choices, expected), expected),
{
    if level.len() <= BEAM_WIDTH {
        return level;
    }
    let order: Vec<usize> = stable_order(&level, BEAM_WIDTH);
    let ghost ratings = ratings_of(pool, choices, expected);
    proof {
        assert forall|i: int| 0 <= i < level@.len() implies #[trigger] keys(level@)[i]
            == ratings[i] by {
            assert(stands_for(level@[i], pool, choices[i], expected));
        }
        assert(keys(level@) =~= ratings);
        lemma_stable_sorted(ratings);
    }
    let mut r: Vec<BeamState<'p, 'a>> = Vec::with_capacity(BEAM_WIDTH);
    let mut i: usize = 0;
    while i < order.len()
        invariant
            i <= order@.len(),
            order@.len() == BEAM_WIDTH,
            forall|j: int| 0 <= j < order@.len() ==> (#[trigger] order@[j]) < level@.len(),
            ratings == ratings_of(pool, choices, expected),
            choices.len() > BEAM_WIDTH,
            stable_sorted(ratings).len() == choices.len(),
            picked(ratings, order@) == stable_sorted(ratings).take(BEAM_WIDTH as int),
            level_stands(level@, pool, choices, expected),
            r@.len() == i,
            forall|j: int|
                0 <= j < i ==> stands_for(
                    #[trigger] r@[j],
                    pool,
                    pruned(pool, choices, expected)[j],
                    expected,
                ),
        decreases order.len() - i,
    {
        let state: &BeamState<'p, 'a> = &level[order[i]];
        proof {
            let place = order@[i as int] as int;
            assert(stands_for(level@[place], pool, choices[place], expected));
            assert(picked(ratings, order@)[i as int] == ratings[place]);
            assert(stable_sorted(ratings).take(BEAM_WIDTH as int)[i as int] == stable_sorted(
                ratings,
            )[i as int]);
            assert(pruned(pool, choices, expected)[i as int] == choices[place]);
        }
        r.push(
            BeamState {
                pool: state.pool,
                places: copy_places(&state.places),
                adjusted_sum: state.adjusted_sum,
                total_price_cents: state.total_price_cents,
                distance: state.distance,
            },
        );
        i = i + 1;
    }
    r
}

/// Takes one more candidate into every state whose price allows it.
fn extend_states<'p, 'a>(
    level: &Vec<BeamState<'p, 'a>>,
    pool: &'p Vec<Candidate<'a>>,
    place: usize,
    expected: Float32,
    Ghost(choices): Ghost<Seq<Seq<int>>>,
    Ghost(earlier): Ghost<Float32>,
) -> (r: Vec<BeamState<'p, 'a>>)
    requires
        place < pool@.len(),
        level_stands(level@, pool@, choices, earlier),
    ensures
        level_stands(r@, pool@, extended(pool@, choices, place as int), expected),
{
    let mut r: Vec<BeamState<'p, 'a>> = Vec::new();
    let candidate: &Candidate<'a> = &pool[place];
    let mut i: usize = 0;
    proof {
        assert(choices.take(0) =~= Seq::empty());
    }
    while i < level.len()
        invariant
            i <= level@.len(),
            place < pool@.len(),
            *candidate == pool@[place as int],
            level_stands(level@, pool@, choices, earlier),
            level_stands(
                r@,
                pool@,
                extended(pool@, choices.take(i as int), place as int),
                expected,
            ),
        decreases level.len() - i,
    {
        let state: &BeamState<'p, 'a> = &level[i];
        let ghost before = extended(pool@, choices.take(i as int), place as int);
        let ghost states = r@;
        proof {
            assert(choices.take(i + 1).drop_last() =~= choices.take(i as int));
            assert(stands_for(level@[i as int], pool@, choices[i as int], earlier));
        }
        if let Some(price) = state.total_price_cents.checked_add(candidate.listing.price_cents) {
            let mut places: Vec<usize> = copy_places(&state.places);
            places.push(place);
            let sum: Float32 = f32_add(state.adjusted_sum, candidate.adjusted);
            let added: BeamState<'p, 'a> = BeamState {
                pool,
                places,
                adjusted_sum: sum,
                total_price_cents: price,
                distance: f32_abs(f32_sub(sum, expected)),
            };
            proof {
                let grown = choices[i as int].push(place as int);
                assert(as_places(places@) =~= grown);
                let shares = chosen_shares(pool@, grown);
                assert(shares.drop_last() =~= chosen_shares(pool@, choices[i as int]));
                assert(grown.drop_last() =~= choices[i as int]);
                assert(stands_for(added, pool@, grown, expected));
            }
            r.push(added);
            proof {
                let after = extended(pool@, choices.take(i + 1), place as int);
                assert forall|j: int| 0 <= j < r@.len() implies stands_for(
                    #[trigger] r@[j],
                    pool@,
                    after[j],
                    expected,
                ) by {
                    if j < states.len() {
                        assert(stands_for(states[j], pool@, before[j], expected));
                    }
                }
            }
        }
        i = i + 1;
    }
    proof {
        assert(choices.take(i as int) =~= choices);
    }
    r
}

/// Lets one candidate into the choices of one size.
fn grow_level<'p, 'a>(
    level: Vec<BeamState<'p, 'a>>,
    shorter: &Vec<BeamState<'p, 'a>>,
    pool: &'p Vec<Candidate<'a>>,
    place: usize,
    expected: Float32,
    Ghost(kept): Ghost<Seq<Seq<int>>>,
    Ghost(choices): Ghost<Seq<Seq<int>>>,
    Ghost(earlier): Ghost<Float32>,
) -> (r: Vec<BeamState<'p, 'a>>)
    requires
        place < pool@.len(),
        level_stands(level@, pool@, kept, expected),
        level_stands(shorter@, pool@, choices, earlier),
    ensures
        level_stands(
            r@,
            pool@,
            pruned(pool@, kept + extended(pool@, choices, place as int), expected),
            expected,
        ),
{
    let mut level: Vec<BeamState<'p, 'a>> = level;
    let mut additions: Vec<BeamState<'p, 'a>> = extend_states(
        shorter,
        pool,
        place,
        expected,
        Ghost(choices),
        Ghost(earlier),
    );
    let ghost (a, b) = (level@, additions@);
    level.append(&mut additions);
    let ghost longer = extended(pool@, choices, place as int);
    proof {
        assert forall|i: int| 0 <= i < level@.len() implies stands_for(
            #[trigger] level@[i],
            pool@,
            (kept + longer)[i],
            expected,
        ) by {
            if i < a.len() {
                assert(stands_for(a[i], pool@, kept[i], expected));
            } else {
                assert(stands_for(b[i - a.len()], pool@, longer[i - a.len()], expected));
            }
        }
    }
    prune_beam_level(level, Ghost(pool@), Ghost(kept + longer), Ghost(expected))
}

/// The states of one size after the first `n` candidates.
#[verifier::opaque]
spec fn size_stands(
    states: Seq<BeamState<'_, '_>>,
    pool: Seq<Candidate<'_>>,
    desired: Float32,
    required: nat,
    n: int,
    count: int,
) -> bool {
    level_stands(
        states,
        pool,
        beam_level(pool, desired, required, n, count as nat),
        expected_sum(desired, count as nat, required),
    )
}

/// Lets the candidate at `place` into the choices of `count` candidates.
fn advance_size<'p, 'a>(
    level: Vec<BeamState<'p, 'a>>,
    shorter: &Vec<BeamState<'p, 'a>>,
    pool: &'p Vec<Candidate<'a>>,
    place: usize,
    required: usize,
    count: usize,
    desired: Float32,
) -> (r: Vec<BeamState<'p, 'a>>)
    requires
        place < pool@.len(),
        count > 0,
        size_stands(level@, pool@, desired, required as nat, place as int, count as int),
        size_stands(shorter@, pool@, desired, required as nat, place as int, count - 1),
    ensures
        size_stands(r@, pool@, desired, required as nat, place + 1, count as int),
{
    proof {
        reveal(size_stands);
    }
    let expected: Float32 = f32_mul(
        desired,
        f32_div(Float32::from_count(count), Float32::from_count(required)),
    );
    grow_level(
        level,
        shorter,
        pool,
        place,
        expected,
        Ghost(beam_level(pool@, desired, required as nat, place as int, count as nat)),
        Ghost(beam_level(pool@, desired, required as nat, place as int, (count - 1) as nat)),
        Ghost(expected_sum(desired, (count - 1) as nat, required as nat)),
    )
}

/// Lets one candidate into every level.
fn advance<'p, 'a>(
    levels: &mut Vec<Vec<BeamState<'p, 'a>>>,
    pool: &'p Vec<Candidate<'a>>,
    place: usize,
    required: usize,
    desired: Float32,
)
    requires
        place < pool@.len(),
        old(levels)@.len() == required + 1,
        forall|c: int|
            0 <= c <= required ==> size_stands(
                #[trigger] old(levels)@[c]@,
                pool@,
                desired,
                required as nat,
                place as int,
                c,
            ),
    ensures
        final(levels)@.len() == required + 1,
        forall|c: int|
            0 <= c <= required ==> size_stands(
                #[trigger] final(levels)@[c]@,
                pool@,
                desired,
                required as nat,
                place + 1,
                c,
            ),
{
    let mut count: usize = required;
    while count > 0
        invariant
            count <= required,
            place < pool@.len(),
            levels@.len() == required + 1,
            forall|c: int|
                0 <= c <= count ==> size_stands(
                    #[trigger] levels@[c]@,
                    pool@,
                    desired,
                    required as nat,
                    place as int,
                    c,
                ),
            forall|c: int|
                count < c <= required ==> size_stands(
                    #[trigger] levels@[c]@,
                    pool@,
                    desired,
                    required as nat,
                    place + 1,
                    c,
                ),
        decreases count,
    {
        let ghost before = levels@;
        let level: Vec<BeamState<'p, 'a>> = levels.remove(count);
        proof {
            assert(level@ == before[count as int]@);
            assert(levels@[count - 1]@ == before[count - 1]@);
        }
        let grown: Vec<BeamState<'p, 'a>> = advance_size(
            level,
            &levels[count - 1],
            pool,
            place,
            required,
            count,
            desired,
        );
        levels.insert(count, grown);
        proof {
            assert(levels@ =~= before.update(count as int, grown));
        }
        count = count - 1;
    }
    proof {
        assert(size_stands(levels@[0]@, pool@, desired, required as nat, place as int, 0));
        reveal(size_stands);
        assert(size_stands(levels@[0]@, pool@, desired, required as nat, place + 1, 0));
    }
}

/// The levels before the first candidate.
fn first_levels<'p, 'a>(pool: &'p Vec<Candidate<'a>>, required: usize, desired: Float32) -> (r: Vec<
    Vec<BeamState<'p, 'a>>,
>)
    requires
        required < usize::MAX,
    ensures
        r@.len() == required + 1,
        forall|c: int|
            0 <= c <= required ==> size_stands(
                #[trigger] r@[c]@,
                pool@,
                desired,
                required as nat,
                0,
                c,
            ),
{
    let zero: Float32 = Float32::from_bits(0);
    let expected: Float32 = f32_mul(
        desired,
        f32_div(Float32::from_count(0), Float32::from_count(required)),
    );
    let state: BeamState<'p, 'a> = BeamState {
        pool,
        places: Vec::new(),
        adjusted_sum: zero,
        total_price_cents: 0,
        distance: f32_abs(f32_sub(zero, expected)),
    };
    proof {
        assert(as_places(state.places@) =~= Seq::empty());
        assert(chosen_shares(pool@, Seq::empty()) =~= Seq::empty());
        assert(stands_for(state, pool@, Seq::empty(), expected));
    }
    let mut first: Vec<BeamState<'p, 'a>> = Vec::new();
    first.push(state);
    let mut r: Vec<Vec<BeamState<'p, 'a>>> = Vec::new();
    r.push(first);
    proof {
        reveal(size_stands);
    }
    while r.len() <= required
        invariant
            1 <= r@.len() <= required + 1,
            required < usize::MAX,
            forall|c: int|
                0 <= c < r@.len() ==> size_stands(
                    #[trigger] r@[c]@,
                    pool@,
                    desired,
                    required as nat,
                    0,
                    c,
                ),
        decreases required + 1 - r@.len(),
    {
        let ghost before = r@;
        r.push(Vec::new());
        proof {
            reveal(size_stands);
            assert forall|c: int| 0 <= c < r@.len() implies size_stands(
                #[trigger] r@[c]@,
                pool@,
                desired,
                required as nat,
                0,
                c,
            ) by {
                if c < before.len() {
                    assert(r@[c]@ == before[c]@);
                }
            }
        }
    }
    r
}

/// Compares one complete choice with the best so far.
fn consider_choice(
    aim: Aim<'_>,
    owned: &Vec<Float32>,
    candidates: &Vec<Candidate<'_>>,
    places: &Vec<usize>,
    price: u64,
    priority: PlanningPriority,
    best: &mut Option<ChosenPlan>,
)
    requires
        owned@.len() + places@.len() <= usize::MAX,
        forall|i: int| 0 <= i < places@.len() ==> (#[trigger] places@[i]) < candidates@.len(),
        price == total_price(candidates@, as_places(places@)),
    ensures
        plan_view(*final(best)) == better_of(
            plan_view(*old(best)),
            plan_of(aim, owned@, candidates@, as_places(places@)),
            priority,
        ),
{
    let values: Vec<Float32> = all_shares(owned, candidates, places);
    let average: Float32 = average_adjusted(values.as_slice(), owned.len() + places.len());
    consider(aim, places, average, price, priority, best);
}

/// Finds a good choice of `required` candidates, next to the owned ones of a contract
/// of ten, in a pool that is too large to go through.
pub fn search_combinations_beam(
    aim: Aim<'_>,
    owned: &Vec<Float32>,
    candidates: &Vec<Candidate<'_>>,
    required: usize,
    target_adjusted: Float32,
    priority: PlanningPriority,
) -> (r: Option<ChosenPlan>)
    requires
        owned@.len() + required == 10,
    ensures
        plan_view(r) == best_over(
            None,
            plans_of(
                aim,
                owned@,
                candidates@,
                beam_level(
                    candidates@,
                    missing_sum(target_adjusted, owned@),
                    required as nat,
                    candidates@.len() as int,
                    required as nat,
                ),
            ),
            priority,
        ),
{
    let desired: Float32 = f32_sub(
        f32_mul(target_adjusted, Float32::from_bits(TEN_BITS)),
        sum_in_order(owned.as_slice()),
    );
    let mut levels: Vec<Vec<BeamState<'_, '_>>> = first_levels(candidates, required, desired);
    let mut place: usize = 0;
    while place < candidates.len()
        invariant
            place <= candidates@.len(),
            levels@.len() == required + 1,
            forall|c: int|
                0 <= c <= required ==> size_stands(
                    #[trigger] levels@[c]@,
                    candidates@,
                    desired,
                    required as nat,
                    place as int,
                    c,
                ),
        decreases candidates.len() - place,
    {
        advance(&mut levels, candidates, place, required, desired);
        place = place + 1;
    }
    let ghost choices = beam_level(
        candidates@,
        desired,
        required as nat,
        candidates@.len() as int,
        required as nat,
    );
    let ghost plans = plans_of(aim, owned@, candidates@, choices);
    let ghost expected = expected_sum(desired, required as nat, required as nat);
    proof {
        assert(size_stands(
            levels@[required as int]@,
            candidates@,
            desired,
            required as nat,
            place as int,
            required as int,
        ));
        reveal(size_stands);
        assert(plans.take(0) =~= Seq::empty());
    }
    let last: &Vec<BeamState<'_, '_>> = &levels[required];
    let mut best: Option<ChosenPlan> = None;
    let mut i: usize = 0;
    while i < last.len()
        invariant
            i <= last@.len(),
            owned@.len() + required <= usize::MAX,
            level_stands(last@, candidates@, choices, expected),
            choices == beam_level(
                candidates@,
                desired,
                required as nat,
                candidates@.len() as int,
                required as nat,
            ),
            plans == plans_of(aim, owned@, candidates@, choices),
            plan_view(best) == best_over(None, plans.take(i as int), priority),
        decreases last.len() - i,
    {
        let state: &BeamState<'_, '_> = &last[i];
        proof {
            assert(stands_for(last@[i as int], candidates@, choices[i as int], expected));
            law_beam_selects(
                candidates@,
                desired,
                required as nat,
                candidates@.len() as int,
                required as nat,
                i as int,
            );
            assert(plans.take(i + 1).drop_last() =~= plans.take(i as int));
            assert forall|j: int| 0 <= j < state.places@.len() implies (
            #[trigger] state.places@[j]) < candidates@.len() by {
                assert(as_places(state.places@)[j] == choices[i as int][j]);
            }
        }
        consider_choice(
            aim,
            owned,
            candidates,
            &state.places,
            state.total_price_cents,
            priority,
            &mut best,
        );
        i = i + 1;
    }
    proof {
        assert(plans.take(i as int) =~= plans);
    }
    best
}

/// The shares of the owned items, followed by those of the chosen candidates.
fn all_shares(owned: &Vec<Float32>, candidates: &Vec<Candidate<'_>>, places: &Vec<usize>) -> (r: Vec<
    Float32,
>)
    requires
        forall|i: int| 0 <= i < places@.len() ==> (#[trigger] places@[i]) < candidates@.len(),
    ensures
        r@ == owned@ + chosen_shares(candidates@, as_places(places@)),
{
    let mut r: Vec<Float32> = Vec::new();
    let ghost chosen = chosen_shares(candidates@, as_places(places@));
    let mut i: usize = 0;
    while i < owned.len()
        invariant
            i <= owned@.len(),
            r@ == owned@.take(i as int),
        decreases owned.len() - i,
    {
        r.push(owned[i]);
        proof {
            assert(r@ =~= owned@.take(i + 1));
        }
        i = i + 1;
    }
    let mut k: usize = 0;
    proof {
        assert(r@ =~= owned@ + chosen.take(0));
    }
    while k < places.len()
        invariant
            k <= places@.len(),
            forall|i: int| 0 <= i < places@.len() ==> (#[trigger] places@[i]) < candidates@.len(),
            chosen == chosen_shares(candidates@, as_places(places@)),
            r@ == owned@ + chosen.take(k as int),
        decreases places.len() - k,
    {
        r.push(candidates[places[k]].adjusted);
        proof {
            assert(r@ =~= owned@ + chosen.take(k + 1));
        }
        k = k + 1;
    }
    proof {
        assert(chosen.take(k as int) =~= chosen);
    }
    r
}

} // verus!
