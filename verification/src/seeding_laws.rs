//! What the seeds of a clustering keep to.
use crate::arithmetic::{fraction_of, minus_wide_of, plus_wide_of, times_wide_of, Arithmetic};
use crate::clustering::{
    distance_of, lemma_seeding, next_pick, seeding_of, seeds_of, walk, weight_sum, Seeding,
};
use crate::rng::{below_of, next_state, unit_of};
use crate::score::{less_wide, not_a_number_wide, smaller_wide_of, INFINITY_WIDE, ZERO_WIDE};
use vstd::prelude::*;

verus! {

/// The weights added from the left onto zero.
pub open spec fn total_weight<A: Arithmetic>(weights: Seq<u64>) -> u64 {
    weights.fold_left(ZERO_WIDE, |sum: u64, weight: u64| plus_wide_of::<A>(sum, weight))
}

/// Whether `left` is what is left of a target on a walk along the weights: the whole of it at
/// the start, and after each weight that much less.
pub open spec fn runs_down<A: Arithmetic>(weights: Seq<u64>, target: u64, left: Seq<u64>) -> bool {
    &&& left.len() == weights.len() + 1
    &&& left[0] == target
    &&& forall|i: int, j: int|
        0 <= i < weights.len() && j == i + 1 ==> #[trigger] left[j] == minus_wide_of::<A>(
            #[trigger] left[i],
            weights[i],
        )
}

/// Whether the walk stops at `i`: what is left is less than the weight there, and was not
/// less than any weight before.
pub open spec fn stops_at(weights: Seq<u64>, left: Seq<u64>, i: int) -> bool {
    &&& 0 <= i < weights.len()
    &&& less_wide(left[i], weights[i])
    &&& forall|j: int| 0 <= j < i ==> !less_wide(#[trigger] left[j], weights[j])
}

/// Whether the walk stops nowhere.
pub open spec fn runs_off(weights: Seq<u64>, left: Seq<u64>) -> bool {
    forall|j: int| 0 <= j < weights.len() ==> !less_wide(#[trigger] left[j], weights[j])
}

/// Whether `b` stands for a number that is not below zero.
pub open spec fn not_negative(b: u64) -> bool {
    !not_a_number_wide(b) && !less_wide(b, ZERO_WIDE)
}

/// Whether `b` stands for a finite number that is not below zero.
pub open spec fn measured(b: u64) -> bool {
    not_negative(b) && less_wide(b, INFINITY_WIDE)
}

/// Whether numbers that are not negative stay so when added, when less is taken from more, and
/// when a fraction is taken of them; and a sum is positive where a part is.
pub open spec fn orderly<A: Arithmetic>() -> bool {
    &&& forall|a: u64, b: u64|
        not_negative(a) && not_negative(b) ==> not_negative(#[trigger] plus_wide_of::<A>(a, b))
            && (less_wide(ZERO_WIDE, a) || less_wide(ZERO_WIDE, b) ==> less_wide(
            ZERO_WIDE,
            plus_wide_of::<A>(a, b),
        ))
    &&& forall|a: u64, b: u64|
        not_negative(a) && measured(b) && !less_wide(a, b) ==> not_negative(
            #[trigger] minus_wide_of::<A>(a, b),
        )
    &&& forall|n: u64, b: u64|
        n < 0x20_0000_0000_0000 && measured(b) ==> not_negative(
            #[trigger] times_wide_of::<A>(fraction_of::<A>(n), b),
        )
}

/// A sum of weights is the sum of its parts, one after the other.
proof fn lemma_weight_sum<A: Arithmetic>(weights: Seq<u64>, n: nat)
    requires
        n <= weights.len(),
    ensures
        weight_sum::<A>(weights, n) == total_weight::<A>(weights.take(n as int)),
    decreases n,
{
    if n > 0 {
        lemma_weight_sum::<A>(weights, (n - 1) as nat);
        assert(weights.take(n as int).drop_last() =~= weights.take(n - 1));
    }
}

/// What is left of the target at every step of a walk.
spec fn left_after<A: Arithmetic>(weights: Seq<u64>, target: u64, i: nat) -> u64
    decreases i,
{
    if i == 0 {
        target
    } else {
        minus_wide_of::<A>(left_after::<A>(weights, target, (i - 1) as nat), weights[i - 1])
    }
}

/// Every walk leaves something at every step.
proof fn lemma_runs_down<A: Arithmetic>(weights: Seq<u64>, target: u64)
    ensures
        exists|left: Seq<u64>| #[trigger] runs_down::<A>(weights, target, left),
{
    let left = Seq::new(
        weights.len() + 1,
        |i: int| left_after::<A>(weights, target, i as nat),
    );
    assert(runs_down::<A>(weights, target, left));
}

/// A walk ends where it stops, and on the last index where it stops nowhere.
proof fn lemma_walk_stops<A: Arithmetic>(weights: Seq<u64>, target: u64, left: Seq<u64>, i: int)
    requires
        runs_down::<A>(weights, target, left),
        0 <= i <= weights.len(),
        forall|j: int| 0 <= j < i ==> !less_wide(#[trigger] left[j], weights[j]),
    ensures
        ({
            let at = walk::<A>(weights, left[i], i);
            stops_at(weights, left, at) || (runs_off(weights, left) && at == weights.len() - 1)
        }),
    decreases weights.len() - i,
{
    if i < weights.len() && !less_wide(left[i], weights[i]) {
        let next = i + 1;
        assert(left[next] == minus_wide_of::<A>(left[i], weights[i]));
        lemma_walk_stops::<A>(weights, target, left, next);
    }
}

/// As many seeds are chosen as are asked for, each is a point, and one random number is used
/// for each; asking for one more leaves those before as they are.
pub proof fn law_seeds_are_points<A: Arithmetic>(points: Seq<Seq<u32>>, k: nat, state: u64)
    requires
        0 < points.len() <= usize::MAX,
        k >= 1,
    ensures
        ({
            let seeding = seeding_of::<A>(points, k, state);
            let more = seeding_of::<A>(points, k + 1, state);
            &&& seeding.picks.len() == k
            &&& seeds_of(points, seeding).len() == k
            &&& forall|c: int|
                0 <= c < k ==> {
                    &&& 0 <= #[trigger] seeding.picks[c] < points.len()
                    &&& more.picks[c] == seeding.picks[c]
                    &&& seeds_of(points, seeding)[c] == points[seeding.picks[c]]
                }
            &&& more.state == next_state(seeding.state)
        }),
        seeding_of::<A>(points, 1, state).state == next_state(state),
{
    lemma_seeding::<A>(points, k, state);
}

/// The first seed is the point that the first random number below the number of points names.
pub proof fn law_first_seed_is_any_point<A: Arithmetic>(points: Seq<Seq<u32>>, k: nat, state: u64)
    requires
        0 < points.len() <= usize::MAX,
        k >= 1,
    ensures
        seeding_of::<A>(points, k, state).picks[0] == below_of(
            unit_of(state) as nat,
            points.len() as usize,
        ),
        seeds_of(points, seeding_of::<A>(points, k, state))[0] == points[below_of(
            unit_of(state) as nat,
            points.len() as usize,
        ) as int],
    decreases k,
{
    lemma_seeding::<A>(points, k, state);
    if k > 1 {
        law_first_seed_is_any_point::<A>(points, (k - 1) as nat, state);
        lemma_seeding::<A>(points, (k - 1) as nat, state);
    }
}

/// What is kept for a point is its distance from the nearest of the seeds: its distance from
/// one of them, and no less a number than its distance from any; no number only where none of
/// its distances is.
pub proof fn law_distance_kept_is_from_the_nearest_seed<A: Arithmetic>(
    points: Seq<Seq<u32>>,
    k: nat,
    state: u64,
    i: int,
)
    requires
        0 < points.len() <= usize::MAX,
        k >= 1,
        0 <= i < points.len(),
    ensures
        ({
            let seeding = seeding_of::<A>(points, k, state);
            &&& seeding.nearest.len() == points.len()
            &&& exists|c: int|
                0 <= c < k && seeding.nearest[i] == distance_of::<A>(
                    points[i],
                    points[#[trigger] seeding.picks[c]],
                )
            &&& forall|c: int|
                0 <= c < k ==> {
                    let distance = distance_of::<A>(points[i], points[#[trigger] seeding.picks[c]]);
                    &&& !less_wide(distance, seeding.nearest[i])
                    &&& not_a_number_wide(seeding.nearest[i]) ==> not_a_number_wide(distance)
                }
        }),
    decreases k,
{
    lemma_seeding::<A>(points, k, state);
    let seeding = seeding_of::<A>(points, k, state);
    if k == 1 {
        assert(seeding.nearest[i] == distance_of::<A>(points[i], points[seeding.picks[0]]));
    } else {
        let before = seeding_of::<A>(points, (k - 1) as nat, state);
        lemma_seeding::<A>(points, (k - 1) as nat, state);
        law_distance_kept_is_from_the_nearest_seed::<A>(points, (k - 1) as nat, state, i);
        let c = choose|c: int|
            0 <= c < k - 1 && before.nearest[i] == distance_of::<A>(
                points[i],
                points[#[trigger] before.picks[c]],
            );
        assert(seeding.picks[c] == before.picks[c]);
        let last = distance_of::<A>(points[i], points[seeding.picks[k - 1]]);
        assert(seeding.nearest[i] == smaller_wide_of(before.nearest[i], last));
        assert forall|d: int| 0 <= d < k implies {
            let distance = distance_of::<A>(points[i], points[#[trigger] seeding.picks[d]]);
            &&& !less_wide(distance, seeding.nearest[i])
            &&& not_a_number_wide(seeding.nearest[i]) ==> not_a_number_wide(distance)
        } by {
            if d < k - 1 {
                assert(seeding.picks[d] == before.picks[d]);
            }
        }
    }
}

/// Where the distances from the seeds so far add up to nothing positive, the next seed is the
/// point that the next random number below the number of points names. Elsewhere that
/// number's fraction of their sum is walked off along them: the next seed is the first point
/// whose distance is more than what is left, or the last point where there is none.
pub proof fn law_next_seed_is_walked_to<A: Arithmetic>(points: Seq<Seq<u32>>, k: nat, state: u64)
    requires
        0 < points.len() <= usize::MAX,
        k >= 1,
    ensures
        ({
            let before = seeding_of::<A>(points, k, state);
            let pick = seeding_of::<A>(points, k + 1, state).picks[k as int];
            let total = total_weight::<A>(before.nearest);
            let target = times_wide_of::<A>(fraction_of::<A>(unit_of(before.state)), total);
            &&& !less_wide(ZERO_WIDE, total) ==> pick == below_of(
                unit_of(before.state) as nat,
                points.len() as usize,
            )
            &&& less_wide(ZERO_WIDE, total) ==> exists|left: Seq<u64>|
                #[trigger] runs_down::<A>(before.nearest, target, left) && (stops_at(
                    before.nearest,
                    left,
                    pick,
                ) || (runs_off(before.nearest, left) && pick == points.len() - 1))
        }),
{
    let before = seeding_of::<A>(points, k, state);
    let weights = before.nearest;
    lemma_seeding::<A>(points, k, state);
    lemma_weight_sum::<A>(weights, weights.len());
    assert(weights.take(weights.len() as int) =~= weights);
    let total = total_weight::<A>(weights);
    let target = times_wide_of::<A>(fraction_of::<A>(unit_of(before.state)), total);
    lemma_runs_down::<A>(weights, target);
    let left = choose|left: Seq<u64>| #[trigger] runs_down::<A>(weights, target, left);
    lemma_walk_stops::<A>(weights, target, left, 0);
    assert(seeding_of::<A>(points, k + 1, state).picks[k as int] == next_pick::<A>(points, before));
}

/// Two walks from one target leave the same.
proof fn lemma_runs_down_unique<A: Arithmetic>(
    weights: Seq<u64>,
    target: u64,
    a: Seq<u64>,
    b: Seq<u64>,
    i: int,
)
    requires
        runs_down::<A>(weights, target, a),
        runs_down::<A>(weights, target, b),
        0 <= i <= weights.len(),
    ensures
        a[i] == b[i],
    decreases i,
{
    if i > 0 {
        let j = i - 1;
        lemma_runs_down_unique::<A>(weights, target, a, b, j);
        assert(a[i] == minus_wide_of::<A>(a[j], weights[j]));
        assert(b[i] == minus_wide_of::<A>(b[j], weights[j]));
    }
}

/// A walk along measured weights never leaves less than nothing before it stops.
proof fn lemma_never_overdrawn<A: Arithmetic>(
    weights: Seq<u64>,
    target: u64,
    left: Seq<u64>,
    i: int,
)
    requires
        orderly::<A>(),
        runs_down::<A>(weights, target, left),
        not_negative(target),
        forall|j: int| 0 <= j < weights.len() ==> measured(#[trigger] weights[j]),
        0 <= i <= weights.len(),
        forall|j: int| 0 <= j < i ==> !less_wide(#[trigger] left[j], weights[j]),
    ensures
        not_negative(left[i]),
    decreases i,
{
    if i > 0 {
        let j = i - 1;
        lemma_never_overdrawn::<A>(weights, target, left, j);
        assert(left[i] == minus_wide_of::<A>(left[j], weights[j]));
        assert(measured(weights[j]));
        assert(!less_wide(left[j], weights[j]));
    }
}

/// A sum of measured weights is not negative, and positive where one of them is.
proof fn lemma_total_positive<A: Arithmetic>(weights: Seq<u64>, n: nat, i: int)
    requires
        orderly::<A>(),
        n <= weights.len(),
        forall|j: int| 0 <= j < weights.len() ==> measured(#[trigger] weights[j]),
    ensures
        not_negative(weight_sum::<A>(weights, n)),
        0 <= i < n && less_wide(ZERO_WIDE, weights[i]) ==> less_wide(
            ZERO_WIDE,
            weight_sum::<A>(weights, n),
        ),
    decreases n,
{
    if n > 0 {
        lemma_total_positive::<A>(weights, (n - 1) as nat, i);
        assert(measured(weights[n - 1]));
    } else {
        assert(not_negative(ZERO_WIDE)) by {
            assert(!not_a_number_wide(ZERO_WIDE));
        }
    }
}

/// Whether every distance from the seeds so far, and their sum, is finite.
pub open spec fn within_reach<A: Arithmetic>(seeding: Seeding) -> bool {
    &&& forall|j: int| 0 <= j < seeding.nearest.len() ==> measured(#[trigger] seeding.nearest[j])
    &&& less_wide(total_weight::<A>(seeding.nearest), INFINITY_WIDE)
}

/// Whether the walk to the next seed runs along all the distances without stopping, which
/// rounding can bring about.
pub open spec fn overshoots<A: Arithmetic>(seeding: Seeding) -> bool {
    let total = total_weight::<A>(seeding.nearest);
    let target = times_wide_of::<A>(fraction_of::<A>(unit_of(seeding.state)), total);
    exists|left: Seq<u64>|
        #[trigger] runs_down::<A>(seeding.nearest, target, left) && runs_off(seeding.nearest, left)
}

/// While some point lies at a positive distance from every seed so far, the next seed does
/// too; where the walk runs along all the distances it is the last point instead.
pub proof fn law_next_seed_lies_apart<A: Arithmetic>(
    points: Seq<Seq<u32>>,
    k: nat,
    state: u64,
    i: int,
)
    requires
        0 < points.len() <= usize::MAX,
        k >= 1,
        orderly::<A>(),
        within_reach::<A>(seeding_of::<A>(points, k, state)),
        0 <= i < points.len(),
        forall|c: int|
            0 <= c < k ==> less_wide(
                ZERO_WIDE,
                distance_of::<A>(
                    points[i],
                    points[#[trigger] seeding_of::<A>(points, k, state).picks[c]],
                ),
            ),
    ensures
        ({
            let before = seeding_of::<A>(points, k, state);
            let pick = seeding_of::<A>(points, k + 1, state).picks[k as int];
            if overshoots::<A>(before) {
                pick == points.len() - 1
            } else {
                forall|c: int|
                    0 <= c < k ==> {
                        let distance = distance_of::<A>(
                            points[pick],
                            points[#[trigger] before.picks[c]],
                        );
                        less_wide(ZERO_WIDE, distance) || not_a_number_wide(distance)
                    }
            }
        }),
{
    let before = seeding_of::<A>(points, k, state);
    let weights = before.nearest;
    let pick = seeding_of::<A>(points, k + 1, state).picks[k as int];
    lemma_seeding::<A>(points, k, state);
    lemma_seeding::<A>(points, k + 1, state);
    law_distance_kept_is_from_the_nearest_seed::<A>(points, k, state, i);
    law_distance_kept_is_from_the_nearest_seed::<A>(points, k, state, pick);
    lemma_weight_sum::<A>(weights, weights.len());
    assert(weights.take(weights.len() as int) =~= weights);
    assert(less_wide(ZERO_WIDE, weights[i]));
    lemma_total_positive::<A>(weights, weights.len(), i);
    let total = total_weight::<A>(weights);
    let unit = unit_of(before.state);
    let target = times_wide_of::<A>(fraction_of::<A>(unit), total);
    assert(unit < 0x20_0000_0000_0000);
    assert(not_negative(target));
    law_next_seed_is_walked_to::<A>(points, k, state);
    let left = choose|left: Seq<u64>|
        #[trigger] runs_down::<A>(weights, target, left) && (stops_at(weights, left, pick) || (
        runs_off(weights, left) && pick == points.len() - 1));
    if overshoots::<A>(before) {
        let other = choose|other: Seq<u64>|
            #[trigger] runs_down::<A>(weights, target, other) && runs_off(weights, other);
        if stops_at(weights, left, pick) {
            lemma_runs_down_unique::<A>(weights, target, left, other, pick);
            assert(!less_wide(other[pick], weights[pick]));
        }
    } else {
        assert(!runs_off(weights, left));
        lemma_never_overdrawn::<A>(weights, target, left, pick);
        assert(less_wide(ZERO_WIDE, weights[pick]));
        assert forall|c: int| 0 <= c < k implies {
            let distance = distance_of::<A>(points[pick], points[#[trigger] before.picks[c]]);
            less_wide(ZERO_WIDE, distance) || not_a_number_wide(distance)
        } by {
            assert(!less_wide(
                distance_of::<A>(points[pick], points[before.picks[c]]),
                weights[pick],
            ));
        }
    }
}

/// Whether distances tell points apart: they are numbers, and positive exactly where the
/// points differ.
pub open spec fn tells_apart<A: Arithmetic>(points: Seq<Seq<u32>>) -> bool {
    forall|i: int, j: int|
        0 <= i < points.len() && 0 <= j < points.len() ==> {
            let distance = #[trigger] distance_of::<A>(points[i], points[j]);
            &&& !not_a_number_wide(distance)
            &&& less_wide(ZERO_WIDE, distance) <==> points[i] != points[j]
        }
}

/// With more different points than seeds, some point is no seed.
proof fn lemma_some_point_is_left<A: Arithmetic>(points: Seq<Seq<u32>>, k: nat, state: u64) -> (i:
    int)
    requires
        0 < points.len() <= usize::MAX,
        k >= 1,
        points.to_set().len() > k,
    ensures
        0 <= i < points.len(),
        forall|c: int|
            0 <= c < k ==> points[i] != points[#[trigger] seeding_of::<A>(
                points,
                k,
                state,
            ).picks[c]],
{
    let seeding = seeding_of::<A>(points, k, state);
    let seeds = seeds_of(points, seeding);
    lemma_seeding::<A>(points, k, state);
    seeds.lemma_cardinality_of_set();
    if forall|p: Seq<u32>| points.to_set().contains(p) ==> #[trigger] seeds.to_set().contains(p) {
        assert(points.to_set().subset_of(seeds.to_set()));
        vstd::set_lib::lemma_len_subset(points.to_set(), seeds.to_set());
        assert(false);
    }
    let p = choose|p: Seq<u32>|
        points.to_set().contains(p) && !(#[trigger] seeds.to_set().contains(p));
    let i = choose|i: int| 0 <= i < points.len() && points[i] == p;
    assert forall|c: int| 0 <= c < k implies points[i] != points[#[trigger] seeding.picks[c]] by {
        assert(seeds[c] == points[seeding.picks[c]]);
        assert(seeds.to_set().contains(seeds[c]));
    }
    i
}

/// Where distances tell the points apart and there are at least as many different points as
/// seeds, no two seeds are equal, unless a walk to one of them runs along all the distances.
pub proof fn law_no_two_seeds_are_equal<A: Arithmetic>(
    points: Seq<Seq<u32>>,
    k: nat,
    state: u64,
    c: int,
    d: int,
)
    requires
        0 < points.len() <= usize::MAX,
        k >= 1,
        orderly::<A>(),
        tells_apart::<A>(points),
        points.to_set().len() >= k,
        forall|m: nat|
            1 <= m < k ==> within_reach::<A>(#[trigger] seeding_of::<A>(points, m, state))
                && !overshoots::<A>(seeding_of::<A>(points, m, state)),
        0 <= c < d < k,
    ensures
        ({
            let seeds = seeds_of(points, seeding_of::<A>(points, k, state));
            seeds[c] != seeds[d]
        }),
    decreases k,
{
    lemma_seeding::<A>(points, k, state);
    let fewer = (k - 1) as nat;
    lemma_seeding::<A>(points, fewer, state);
    law_seeds_are_points::<A>(points, fewer, state);
    let before = seeding_of::<A>(points, fewer, state);
    let seeding = seeding_of::<A>(points, k, state);
    assert(seeding.picks[c] == before.picks[c]);
    if d < fewer {
        law_no_two_seeds_are_equal::<A>(points, fewer, state, c, d);
        assert(seeding.picks[d] == before.picks[d]);
    } else {
        let i = lemma_some_point_is_left::<A>(points, fewer, state);
        assert forall|e: int| 0 <= e < fewer implies less_wide(
            ZERO_WIDE,
            distance_of::<A>(points[i], points[#[trigger] before.picks[e]]),
        ) by {
            assert(points[i] != points[before.picks[e]]);
        }
        law_next_seed_lies_apart::<A>(points, fewer, state, i);
        let pick = seeding.picks[d];
        let distance = distance_of::<A>(points[pick], points[before.picks[c]]);
        assert(less_wide(ZERO_WIDE, distance) || not_a_number_wide(distance));
    }
}

} // verus!
