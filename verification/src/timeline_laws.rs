//! What the exclusive timeline comes to, frame by frame and score by score.
use crate::exclusive::{
    active, anchor_of, carries, component_choices, component_resolved, continuous, decision_of,
    exclusive_of, has_activity, is_component, is_maximum, is_runner_up, lemma_maxima_below,
    lemma_run_end, lemma_run_start, maxima_of, ranked, run_end, run_start, selection, strongest, tells,
};
use crate::exclusive_laws::lemma_component_of;
use crate::grid::rectangular;
use crate::path::{best_path, changes, is_path, no_worse, ordered, switches};
use crate::score::{less, not_a_number, same, total_key, HALF, ONE, ZERO};
use crate::types::{ExclusiveFrameDecision, ExclusiveFrameEvidence};
use vstd::prelude::*;

verus! {

/// Whether the mask has a speaker on: the score is above one half.
pub open spec fn is_on(mask: Seq<u32>, s: int) -> bool {
    0 <= s < mask.len() && less(HALF, mask[s])
}

/// Whether the mask has somebody on in a frame.
pub open spec fn somebody_on(mask: Seq<u32>) -> bool {
    exists|s: int| #[trigger] is_on(mask, s)
}

/// Whether a frame may be given to a speaker: they are on, their support is a number, and
/// nobody on has more.
pub open spec fn contender(support: Seq<u32>, mask: Seq<u32>, s: int) -> bool {
    &&& is_on(mask, s)
    &&& !not_a_number(support[s])
    &&& forall|u: int| #[trigger] is_on(mask, u) ==> !less(support[s], support[u])
}

/// Whether a frame may be given to one speaker alone.
pub open spec fn sole_contender(support: Seq<u32>, mask: Seq<u32>, s: int) -> bool {
    &&& contender(support, mask, s)
    &&& forall|u: int| #[trigger] contender(support, mask, u) ==> u == s
}

/// Whether the frames from `start` to `end` have somebody on, and those next to them nobody.
pub open spec fn stretch(mask: Seq<Seq<u32>>, start: int, end: int) -> bool {
    &&& 0 <= start < end <= mask.len()
    &&& forall|f: int| start <= f < end ==> somebody_on(#[trigger] mask[f])
    &&& start == 0 || !somebody_on(mask[start - 1])
    &&& end == mask.len() || !somebody_on(mask[end])
}

/// How often the speaker changes along a path.
pub open spec fn turns(path: Seq<usize>) -> nat {
    Seq::new(path.len(), |i: int| i).fold_left(
        0nat,
        |count: nat, i: int|
            if i > 0 && path[i] != path[i - 1] {
                count + 1
            } else {
                count
            },
    )
}

/// Whether the last frame in which two paths differ has the smaller speaker in `p`.
pub open spec fn smaller_from_the_end(p: Seq<usize>, q: Seq<usize>) -> bool {
    exists|m: int|
        0 <= m < p.len() && #[trigger] p[m] < q[m] && forall|i: int|
            m < i < p.len() ==> #[trigger] p[i] == q[i]
}

/// Having somebody on is being active.
proof fn lemma_on(mask: Seq<u32>)
    ensures
        somebody_on(mask) == has_activity(mask),
        forall|s: int|
            0 <= s < mask.len() ==> (#[trigger] is_on(mask, s) <==> active(mask, s)),
{
    assert forall|s: int| 0 <= s < mask.len() implies (#[trigger] is_on(mask, s) <==> active(
        mask,
        s,
    )) by {}
    if somebody_on(mask) {
        let s = choose|s: int| #[trigger] is_on(mask, s);
        assert(active(mask, s));
    }
    if has_activity(mask) {
        let s = choose|s: int| 0 <= s < mask.len() && #[trigger] active(mask, s);
        assert(is_on(mask, s));
    }
}

/// Contending is having a support equal to the greatest, where there is one.
proof fn lemma_contender(support: Seq<u32>, mask: Seq<u32>, m: int)
    requires
        is_maximum(support, mask, m),
    ensures
        forall|s: int| #[trigger] contender(support, mask, s) <==> is_maximum(support, mask, s),
{
    lemma_on(mask);
    let t = choose|t: int| #[trigger] strongest(support, mask, t) && same(support[m], support[t]);
    assert(!not_a_number(support[t]));
    assert(is_on(mask, t));
    assert forall|s: int| #[trigger] contender(support, mask, s) <==> is_maximum(
        support,
        mask,
        s,
    ) by {
        if contender(support, mask, s) {
            assert(is_on(mask, s));
            assert(active(mask, s));
            assert(!less(support[s], support[t]));
            assert(total_key(support[s]) <= total_key(support[t]));
            assert(same(support[s], support[t]));
        }
        if is_maximum(support, mask, s) {
            let v = choose|v: int|
                #[trigger] strongest(support, mask, v) && same(support[s], support[v]);
            assert(is_on(mask, s));
            assert forall|u: int| #[trigger] is_on(mask, u) implies !less(
                support[s],
                support[u],
            ) by {
                assert(active(mask, u));
                assert(total_key(support[u]) <= total_key(support[v]));
            }
        }
    }
}

/// The list of choices of a frame holds its contenders, one alone where there is one alone.
proof fn lemma_choices_are_contenders(support: Seq<u32>, mask: Seq<u32>, x: usize)
    requires
        mask.len() <= usize::MAX,
        maxima_of(support, mask).contains(x),
    ensures
        contender(support, mask, x as int),
        forall|s: usize| #[trigger]
            contender(support, mask, s as int) <==> maxima_of(support, mask).contains(s),
        maxima_of(support, mask).len() == 1 <==> sole_contender(support, mask, x as int),
        maxima_of(support, mask).len() == 1 ==> maxima_of(support, mask)[0] == x,
{
    let list = maxima_of(support, mask);
    lemma_maxima_below(support, mask, mask.len());
    let k = choose|k: int| 0 <= k < list.len() && list[k] == x;
    assert(is_maximum(support, mask, list[k] as int));
    lemma_contender(support, mask, x as int);
    assert forall|s: usize| #[trigger] contender(support, mask, s as int) implies list.contains(
        s,
    ) by {
        assert(is_maximum(support, mask, s as int));
    }
    assert forall|s: usize| list.contains(s) implies #[trigger] contender(
        support,
        mask,
        s as int,
    ) by {
        let j = choose|j: int| 0 <= j < list.len() && list[j] == s;
        assert(is_maximum(support, mask, list[j] as int));
    }
    if list.len() == 1 {
        assert forall|u: int| #[trigger] contender(support, mask, u) implies u == x by {
            assert(is_on(mask, u));
            assert(contender(support, mask, (u as usize) as int));
            assert(list.contains(u as usize));
        }
    }
    if sole_contender(support, mask, x as int) && list.len() > 1 {
        assert(is_maximum(support, mask, list[0] as int));
        assert(is_maximum(support, mask, list[1] as int));
        assert(contender(support, mask, list[0] as int));
        assert(contender(support, mask, list[1] as int));
        assert(list[0] < list[1]);
    }
}

/// Stretches are components.
proof fn lemma_stretch(mask: Seq<Seq<u32>>, start: int, end: int)
    ensures
        stretch(mask, start, end) == is_component(mask, start, end),
{
    assert forall|f: int| 0 <= f < mask.len() implies somebody_on(#[trigger] mask[f])
        == has_activity(mask[f]) by {
        lemma_on(mask[f]);
    }
}

/// What a frame with somebody on is given.
proof fn lemma_frame(
    support: Seq<Seq<u32>>,
    mask: Seq<Seq<u32>>,
    columns: nat,
    output: Seq<Seq<u32>>,
    frames: Seq<ExclusiveFrameEvidence>,
    start: int,
    end: int,
    f: int,
) -> (s: usize)
    requires
        exclusive_of(support, mask, columns, output, frames),
        rectangular(mask, columns),
        columns <= usize::MAX,
        is_component(mask, start, end),
        start <= f < end,
    ensures
        ({
            let choices = component_choices(support, mask, start, end);
            let selected = selection(frames, start, end);
            &&& s == selected[f - start]
            &&& frames[f].speaker_idx == Some(s)
            &&& maxima_of(support[f], mask[f]).contains(s)
            &&& choices[f - start] == maxima_of(support[f], mask[f])
            &&& tells(
                support[f],
                mask[f],
                s,
                decision_of(choices, selected, f - start),
                frames[f],
            )
            &&& output[f].len() == columns
            &&& forall|t: int|
                0 <= t < columns ==> #[trigger] output[f][t] == if t == s {
                    ONE
                } else {
                    ZERO
                }
        }),
        contender(support[f], mask[f], s as int),
{
    let choices = component_choices(support, mask, start, end);
    let selected = selection(frames, start, end);
    assert(component_resolved(support, mask, columns, start, end, output, frames));
    assert(choices[f - start].contains(selected[f - start]));
    assert(mask[f].len() == columns);
    let s = selected[f - start];
    lemma_choices_are_contenders(support[f], mask[f], s);
    assert(tells(
        support[f],
        mask[f],
        s,
        decision_of(choices, selected, f - start),
        frames[f],
    ));
    s
}

/// A frame in which nobody is on is left empty and its evidence names nobody. Every other
/// frame is given to one contender: their cell is one, every other is zero, and the evidence
/// names them and their support.
pub proof fn law_a_frame_is_given_to_a_contender(
    support: Seq<Seq<u32>>,
    mask: Seq<Seq<u32>>,
    columns: nat,
    output: Seq<Seq<u32>>,
    frames: Seq<ExclusiveFrameEvidence>,
    f: int,
)
    requires
        exclusive_of(support, mask, columns, output, frames),
        rectangular(mask, columns),
        columns <= usize::MAX,
        0 <= f < mask.len(),
    ensures
        frames.len() == mask.len(),
        output.len() == mask.len(),
        output[f].len() == columns,
        !somebody_on(mask[f]) ==> {
            &&& frames[f].speaker_idx is None
            &&& frames[f].support == ZERO
            &&& frames[f].runner_up_speaker_idx is None
            &&& frames[f].runner_up_support == ZERO
            &&& frames[f].decision is None
            &&& forall|t: int| 0 <= t < columns ==> #[trigger] output[f][t] == ZERO
        },
        somebody_on(mask[f]) ==> {
            &&& frames[f].speaker_idx is Some
            &&& contender(support[f], mask[f], frames[f].speaker_idx->0 as int)
            &&& frames[f].support == support[f][frames[f].speaker_idx->0 as int]
            &&& output[f][frames[f].speaker_idx->0 as int] == ONE
            &&& forall|t: int|
                0 <= t < columns && t != frames[f].speaker_idx->0 ==> #[trigger] output[f][t]
                    == ZERO
        },
{
    lemma_on(mask[f]);
    if somebody_on(mask[f]) {
        let (start, end) = lemma_component_of(mask, f);
        let s = lemma_frame(support, mask, columns, output, frames, start, end, f);
        assert(mask[f].len() == columns);
    }
}

/// The runner-up of a frame is the strongest of the others who are on, the first of equals,
/// with their support; there is none exactly where nobody else is on.
pub proof fn law_the_runner_up_is_the_strongest_of_the_others(
    support: Seq<Seq<u32>>,
    mask: Seq<Seq<u32>>,
    columns: nat,
    output: Seq<Seq<u32>>,
    frames: Seq<ExclusiveFrameEvidence>,
    f: int,
)
    requires
        exclusive_of(support, mask, columns, output, frames),
        rectangular(mask, columns),
        columns <= usize::MAX,
        0 <= f < mask.len(),
        somebody_on(mask[f]),
    ensures
        ({
            let s = frames[f].speaker_idx->0;
            match frames[f].runner_up_speaker_idx {
                None => {
                    &&& forall|u: int| #[trigger] is_on(mask[f], u) ==> u == s
                    &&& frames[f].runner_up_support == ZERO
                },
                Some(r) => {
                    &&& r != s
                    &&& is_on(mask[f], r as int)
                    &&& frames[f].runner_up_support == support[f][r as int]
                    &&& forall|u: int| #[trigger]
                        is_on(mask[f], u) && u != s ==> {
                            ||| total_key(support[f][u]) < total_key(support[f][r as int])
                            ||| total_key(support[f][u]) == total_key(support[f][r as int]) && r
                                <= u
                        }
                },
            }
        }),
{
    lemma_on(mask[f]);
    let (start, end) = lemma_component_of(mask, f);
    let s = lemma_frame(support, mask, columns, output, frames, start, end, f);
    assert(is_runner_up(support[f], mask[f], s, frames[f].runner_up_speaker_idx));
    match frames[f].runner_up_speaker_idx {
        None => {
            assert forall|u: int| #[trigger] is_on(mask[f], u) implies u == s by {
                assert(active(mask[f], u));
            }
        },
        Some(r) => {
            assert(active(mask[f], r as int));
            assert forall|u: int| #[trigger] is_on(mask[f], u) && u != s implies {
                ||| total_key(support[f][u]) < total_key(support[f][r as int])
                ||| total_key(support[f][u]) == total_key(support[f][r as int]) && r <= u
            } by {
                assert(active(mask[f], u));
            }
        },
    }
}

/// Counting the changes along a path frame by frame.
proof fn lemma_turns(path: Seq<usize>, n: nat)
    requires
        n <= path.len(),
    ensures
        changes(path, n) == Seq::new(n, |i: int| i).fold_left(
            0nat,
            |count: nat, i: int|
                if i > 0 && path[i] != path[i - 1] {
                    count + 1
                } else {
                    count
                },
        ),
    decreases n,
{
    if n > 0 {
        lemma_turns(path, (n - 1) as nat);
        assert(Seq::new(n, |i: int| i).drop_last() =~= Seq::new((n - 1) as nat, |i: int| i));
    }
}

/// A path that comes no later is equal or smaller from the end.
proof fn lemma_ordered(p: Seq<usize>, q: Seq<usize>)
    requires
        p.len() == q.len(),
        ordered(p, q),
    ensures
        p == q || smaller_from_the_end(p, q),
    decreases p.len(),
{
    if p.len() == 0 {
        assert(p =~= q);
    } else {
        let last = p.len() - 1;
        if p.last() < q.last() {
            assert(p[last] < q[last]);
        } else {
            lemma_ordered(p.drop_last(), q.drop_last());
            if p.drop_last() == q.drop_last() {
                assert forall|i: int| 0 <= i < p.len() implies p[i] == q[i] by {
                    if i < last {
                        assert(p.drop_last()[i] == q.drop_last()[i]);
                    }
                }
                assert(p =~= q);
            } else {
                let a = p.drop_last();
                let b = q.drop_last();
                let m = choose|m: int|
                    0 <= m < a.len() && #[trigger] a[m] < b[m] && forall|i: int|
                        m < i < a.len() ==> #[trigger] a[i] == b[i];
                assert(p[m] < q[m]);
                assert forall|i: int| m < i < p.len() implies #[trigger] p[i] == q[i] by {
                    if i < last {
                        assert(a[i] == b[i]);
                    }
                }
            }
        }
    }
}

/// Over a stretch of frames with somebody on, no way of giving every frame to a contender
/// changes speaker less often than the timeline; one that changes as often is the timeline's
/// own, or has the greater speaker in the last frame in which it differs.
pub proof fn law_no_other_timeline_changes_speaker_less(
    support: Seq<Seq<u32>>,
    mask: Seq<Seq<u32>>,
    columns: nat,
    output: Seq<Seq<u32>>,
    frames: Seq<ExclusiveFrameEvidence>,
    start: int,
    end: int,
    chosen: Seq<usize>,
    other: Seq<usize>,
)
    requires
        exclusive_of(support, mask, columns, output, frames),
        rectangular(mask, columns),
        columns <= usize::MAX,
        stretch(mask, start, end),
        chosen.len() == end - start,
        forall|i: int|
            0 <= i < chosen.len() ==> frames[start + i].speaker_idx == Some(#[trigger] chosen[i]),
        other.len() == end - start,
        forall|i: int|
            0 <= i < other.len() ==> contender(
                support[start + i],
                mask[start + i],
                #[trigger] other[i] as int,
            ),
    ensures
        turns(chosen) <= turns(other),
        turns(chosen) == turns(other) ==> chosen == other || smaller_from_the_end(chosen, other),
{
    lemma_stretch(mask, start, end);
    let choices = component_choices(support, mask, start, end);
    let selected = selection(frames, start, end);
    assert(component_resolved(support, mask, columns, start, end, output, frames));
    assert(chosen =~= selected);
    assert forall|i: int| 0 <= i < other.len() implies choices[i].contains(#[trigger] other[i]) by {
        let f = start + i;
        let s = lemma_frame(support, mask, columns, output, frames, start, end, f);
        assert(mask[f].len() == columns);
        lemma_choices_are_contenders(support[f], mask[f], s);
        assert(contender(support[f], mask[f], other[i] as int));
    }
    assert(is_path(choices, other));
    assert(best_path(choices, selected));
    assert(no_worse(chosen, other));
    lemma_turns(chosen, chosen.len());
    lemma_turns(other, other.len());
    assert(switches(chosen) == turns(chosen));
    assert(switches(other) == turns(other));
    if turns(chosen) == turns(other) {
        lemma_ordered(chosen, other);
    }
}

/// A frame is said to be decided by its support exactly where it has one contender alone.
pub proof fn law_unique_support_means_one_contender(
    support: Seq<Seq<u32>>,
    mask: Seq<Seq<u32>>,
    columns: nat,
    output: Seq<Seq<u32>>,
    frames: Seq<ExclusiveFrameEvidence>,
    f: int,
)
    requires
        exclusive_of(support, mask, columns, output, frames),
        rectangular(mask, columns),
        columns <= usize::MAX,
        0 <= f < mask.len(),
        somebody_on(mask[f]),
    ensures
        frames[f].decision == Some(ExclusiveFrameDecision::UniqueSupport) <==> sole_contender(
            support[f],
            mask[f],
            frames[f].speaker_idx->0 as int,
        ),
{
    lemma_on(mask[f]);
    let (start, end) = lemma_component_of(mask, f);
    let s = lemma_frame(support, mask, columns, output, frames, start, end, f);
    assert(mask[f].len() == columns);
    lemma_choices_are_contenders(support[f], mask[f], s);
}

/// Whether every frame from `a` to `b` has several contenders, and those next to them within
/// the stretch have one.
pub open spec fn tied(
    support: Seq<Seq<u32>>,
    mask: Seq<Seq<u32>>,
    frames: Seq<ExclusiveFrameEvidence>,
    start: int,
    end: int,
    a: int,
    b: int,
) -> bool {
    &&& start <= a < b <= end
    &&& forall|k: int|
        a <= k < b ==> !sole_contender(
            support[k],
            mask[k],
            (#[trigger] frames[k]).speaker_idx->0 as int,
        )
    &&& a == start || sole_contender(
        support[a - 1],
        mask[a - 1],
        frames[a - 1].speaker_idx->0 as int,
    )
    &&& b == end || sole_contender(support[b], mask[b], frames[b].speaker_idx->0 as int)
}

/// Tied frames are said to be decided by continuity exactly where they all have the speaker of
/// the frame before them or after them within the stretch, or of both; and by the order of the
/// speakers otherwise.
pub proof fn law_continuity_is_having_the_speaker_around(
    support: Seq<Seq<u32>>,
    mask: Seq<Seq<u32>>,
    columns: nat,
    output: Seq<Seq<u32>>,
    frames: Seq<ExclusiveFrameEvidence>,
    start: int,
    end: int,
    a: int,
    b: int,
    f: int,
)
    requires
        exclusive_of(support, mask, columns, output, frames),
        rectangular(mask, columns),
        columns <= usize::MAX,
        stretch(mask, start, end),
        tied(support, mask, frames, start, end, a, b),
        a <= f < b,
    ensures
        frames[f].decision == Some(
            if (a > start || b < end) && (forall|k: int|
                a <= k < b ==> (#[trigger] frames[k]).speaker_idx == frames[f].speaker_idx) && (a
                > start ==> frames[a - 1].speaker_idx == frames[f].speaker_idx) && (b < end
                ==> frames[b].speaker_idx == frames[f].speaker_idx) {
                ExclusiveFrameDecision::TieContinuity
            } else {
                ExclusiveFrameDecision::DeterministicFallback
            },
        ),
{
    lemma_stretch(mask, start, end);
    let choices = component_choices(support, mask, start, end);
    let selected = selection(frames, start, end);
    let s = lemma_frame(support, mask, columns, output, frames, start, end, f);
    assert forall|k: int| start <= k < end implies {
        let here = #[trigger] frames[k];
        &&& here.speaker_idx == Some(selected[k - start])
        &&& choices[k - start].contains(selected[k - start])
        &&& choices[k - start].len() == 1 <==> sole_contender(
            support[k],
            mask[k],
            here.speaker_idx->0 as int,
        )
        &&& choices[k - start].len() == 1 ==> choices[k - start][0] == selected[k - start]
    } by {
        let x = lemma_frame(support, mask, columns, output, frames, start, end, k);
        assert(mask[k].len() == columns);
        lemma_choices_are_contenders(support[k], mask[k], x);
    }
    let from = a - start;
    let to = b - start;
    let i = f - start;
    assert forall|k: int| from <= k < to implies (#[trigger] choices[k]).len() != 1 by {
        assert(frames[start + k].speaker_idx == Some(selected[k]));
    }
    if a > start {
        assert(frames[a - 1].speaker_idx == Some(selected[from - 1]));
        assert(choices[from - 1].len() == 1);
    }
    if b < end {
        assert(frames[b].speaker_idx == Some(selected[to]));
        assert(choices[to].len() == 1);
    }
    lemma_run_start(choices, from, i);
    lemma_run_end(choices, i, to);
    assert(run_start(choices, i) == from);
    assert(run_end(choices, i) == to);
    assert(frames[f].speaker_idx == Some(selected[i]));
    assert(choices[i].len() != 1);
    let steady = (a > start || b < end) && (forall|k: int|
        a <= k < b ==> (#[trigger] frames[k]).speaker_idx == frames[f].speaker_idx) && (a > start
        ==> frames[a - 1].speaker_idx == frames[f].speaker_idx) && (b < end
        ==> frames[b].speaker_idx == frames[f].speaker_idx);
    assert(carries(choices, selected, s, from, to) <==> forall|k: int|
        from <= k < to ==> (#[trigger] choices[k]).contains(s) && selected[k] == s);
    if steady {
        assert(anchor_of(choices, from, to) == Some(s));
        assert forall|k: int| from <= k < to implies (#[trigger] choices[k]).contains(s)
            && selected[k] == s by {
            assert(frames[start + k].speaker_idx == frames[f].speaker_idx);
        }
        assert(carries(choices, selected, s, from, to));
    }
    if continuous(choices, selected, from, to) {
        let x = anchor_of(choices, from, to)->0;
        assert(choices[i].contains(x) && selected[i] == x);
        assert forall|k: int| a <= k < b implies (#[trigger] frames[k]).speaker_idx
            == frames[f].speaker_idx by {
            assert(choices[k - start].contains(x) && selected[k - start] == x);
        }
    }
}

/// The best path through some choices takes one of them in every frame, and no other path does
/// with fewer changes of speaker; one with as many is the same path, or has the greater speaker
/// in the last frame in which it differs.
pub proof fn law_the_best_path_changes_least(
    choices: Seq<Seq<usize>>,
    path: Seq<usize>,
    other: Seq<usize>,
)
    requires
        best_path(choices, path),
        other.len() == choices.len(),
        forall|i: int| 0 <= i < other.len() ==> choices[i].contains(#[trigger] other[i]),
    ensures
        path.len() == choices.len(),
        forall|i: int| 0 <= i < path.len() ==> choices[i].contains(#[trigger] path[i]),
        turns(path) <= turns(other),
        turns(path) == turns(other) ==> path == other || smaller_from_the_end(path, other),
{
    assert(is_path(choices, other));
    assert(no_worse(path, other));
    lemma_turns(path, path.len());
    lemma_turns(other, other.len());
    assert(switches(path) == turns(path));
    assert(switches(other) == turns(other));
    if turns(path) == turns(other) {
        lemma_ordered(path, other);
    }
}

/// A frame with one choice is decided by its support. A run of frames with another number of
/// choices, between frames with one, is decided by continuity exactly where the frames around
/// it leave one speaker, who is a choice and selected in all of the run; and by the order of
/// the speakers otherwise.
pub proof fn law_decisions_go_by_the_choices_around(
    choices: Seq<Seq<usize>>,
    selected: Seq<usize>,
    a: int,
    b: int,
    i: int,
)
    requires
        selected.len() == choices.len(),
        0 <= a <= i < b <= choices.len(),
        forall|k: int| a <= k < b ==> (#[trigger] choices[k]).len() != 1,
        a == 0 || choices[a - 1].len() == 1,
        b == choices.len() || choices[b].len() == 1,
    ensures
        forall|k: int|
            0 <= k < choices.len() && (#[trigger] choices[k]).len() == 1 ==> decision_of(
                choices,
                selected,
                k,
            ) == ExclusiveFrameDecision::UniqueSupport,
        decision_of(choices, selected, i) == if (a > 0 || b < choices.len()) && (a > 0
            ==> choices[a - 1][0] == selected[i]) && (b < choices.len() ==> choices[b][0]
            == selected[i]) && (forall|k: int|
            a <= k < b ==> (#[trigger] choices[k]).contains(selected[i]) && selected[k]
                == selected[i]) {
            ExclusiveFrameDecision::TieContinuity
        } else {
            ExclusiveFrameDecision::DeterministicFallback
        },
{
    lemma_run_start(choices, a, i);
    lemma_run_end(choices, i, b);
    assert(run_start(choices, i) == a);
    assert(run_end(choices, i) == b);
    let s = selected[i];
    assert(carries(choices, selected, s, a, b) <==> forall|k: int|
        a <= k < b ==> (#[trigger] choices[k]).contains(s) && selected[k] == s);
    if continuous(choices, selected, a, b) {
        let x = anchor_of(choices, a, b)->0;
        assert(choices[i].contains(x) && selected[i] == x);
    }
}

/// The choices of a frame are those who are on and have the same support as the strongest of
/// them, in order.
pub proof fn law_choices_share_the_greatest_support(support: Seq<u32>, mask: Seq<u32>)
    requires
        mask.len() <= usize::MAX,
    ensures
        ({
            let list = maxima_of(support, mask);
            &&& forall|j: int, k: int|
                0 <= j < k < list.len() ==> #[trigger] list[j] < #[trigger] list[k]
            &&& forall|s: usize, t: int|
                is_on(mask, t) && (forall|u: int| #[trigger]
                    is_on(mask, u) ==> total_key(support[u]) <= total_key(support[t])) ==> (
                #[trigger] list.contains(s) <==> #[trigger] same(support[s as int], support[t])
                    && is_on(mask, s as int))
        }),
{
    let list = maxima_of(support, mask);
    lemma_on(mask);
    lemma_maxima_below(support, mask, mask.len());
    assert forall|s: usize, t: int|
        is_on(mask, t) && (forall|u: int| #[trigger]
            is_on(mask, u) ==> total_key(support[u]) <= total_key(support[t])) implies (
    #[trigger] list.contains(s) <==> #[trigger] same(support[s as int], support[t]) && is_on(
        mask,
        s as int,
    )) by {
        assert(strongest(support, mask, t)) by {
            assert(active(mask, t));
            assert forall|u: int| 0 <= u < mask.len() && #[trigger] active(mask, u) implies
                total_key(support[u]) <= total_key(support[t]) by {
                assert(is_on(mask, u));
            }
        }
        if list.contains(s) {
            let k = choose|k: int| 0 <= k < list.len() && list[k] == s;
            assert(is_maximum(support, mask, list[k] as int));
            let v = choose|v: int|
                #[trigger] strongest(support, mask, v) && same(support[s as int], support[v]);
            assert(is_on(mask, v));
            assert(active(mask, v) && active(mask, t));
            assert(total_key(support[v]) == total_key(support[t]));
            assert(is_on(mask, s as int));
        }
        if same(support[s as int], support[t]) && is_on(mask, s as int) {
            assert(is_maximum(support, mask, s as int));
        }
    }
}

/// A frame has a ranking exactly where nobody is on, or the support that comes last in the
/// total order of those who are on is a number.
pub proof fn law_a_frame_is_ranked_by_a_number(support: Seq<u32>, mask: Seq<u32>, t: int)
    requires
        is_on(mask, t),
        forall|u: int| #[trigger] is_on(mask, u) ==> total_key(support[u]) <= total_key(support[t]),
    ensures
        ranked(support, mask) <==> !not_a_number(support[t]),
        forall|nobody: Seq<u32>|
            !somebody_on(nobody) ==> #[trigger] ranked(support, nobody),
{
    lemma_on(mask);
    assert(strongest(support, mask, t)) by {
        assert(active(mask, t));
        assert forall|u: int| 0 <= u < mask.len() && #[trigger] active(mask, u) implies total_key(
            support[u],
        ) <= total_key(support[t]) by {
            assert(is_on(mask, u));
        }
    }
    if ranked(support, mask) {
        let s = choose|s: int| #[trigger] is_maximum(support, mask, s);
        let v = choose|v: int|
            #[trigger] strongest(support, mask, v) && same(support[s], support[v]);
        assert(active(mask, v) && is_on(mask, v));
        assert(total_key(support[v]) == total_key(support[t]));
    }
    if !not_a_number(support[t]) {
        assert(is_maximum(support, mask, t));
    }
    assert forall|nobody: Seq<u32>| !somebody_on(nobody) implies #[trigger] ranked(
        support,
        nobody,
    ) by {
        lemma_on(nobody);
    }
}

} // verus!
