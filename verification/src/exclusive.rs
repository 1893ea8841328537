//! Exclusive reconstruction that reads frame support instead of the binary mask.
//!
//! A run of frames is resolved together, so that equal support does not make the speaker
//! flicker.
use crate::grid::{filled, rectangular, ScoreGrid};
use crate::path::{best_path, best_path_through, choosable, nested};
use crate::score::{is_less, is_same, less, same, total_key, total_order_key, HALF, ONE, ZERO};
use crate::types::{
    DiarizationResult, DiscreteDiarization, ExclusiveFrameDecision, ExclusiveFrameEvidence,
    ScoreAwareExclusiveDiarization,
};
use vstd::prelude::*;

verus! {

/// Whether the mask has speaker `s` active in this frame.
pub open spec fn active(ordinary: Seq<u32>, s: int) -> bool {
    less(HALF, ordinary[s])
}

/// Whether the mask has any speaker active in this frame.
pub open spec fn has_activity(ordinary: Seq<u32>) -> bool {
    exists|s: int| 0 <= s < ordinary.len() && #[trigger] active(ordinary, s)
}

/// Whether `t` is active and no active speaker has more support.
pub open spec fn strongest(support: Seq<u32>, ordinary: Seq<u32>, t: int) -> bool {
    &&& 0 <= t < ordinary.len()
    &&& active(ordinary, t)
    &&& forall|u: int|
        0 <= u < ordinary.len() && #[trigger] active(ordinary, u) ==> total_key(support[u])
            <= total_key(support[t])
}

/// Whether `s` is active with a support equal to the greatest.
pub open spec fn is_maximum(support: Seq<u32>, ordinary: Seq<u32>, s: int) -> bool {
    &&& 0 <= s < ordinary.len()
    &&& active(ordinary, s)
    &&& exists|t: int| #[trigger] strongest(support, ordinary, t) && same(support[s], support[t])
}

/// The speakers below `n` with a support equal to the greatest, in order.
pub open spec fn maxima_below(support: Seq<u32>, ordinary: Seq<u32>, n: nat) -> Seq<usize>
    decreases n,
{
    if n == 0 {
        seq![]
    } else {
        let rest = maxima_below(support, ordinary, (n - 1) as nat);
        if is_maximum(support, ordinary, n - 1) {
            rest.push((n - 1) as usize)
        } else {
            rest
        }
    }
}

/// The active speakers with a support equal to the greatest, in order.
pub open spec fn maxima_of(support: Seq<u32>, ordinary: Seq<u32>) -> Seq<usize> {
    maxima_below(support, ordinary, ordinary.len())
}

/// Whether an active frame has a greatest support that equals itself, which is every frame
/// whose greatest support is a number.
pub open spec fn ranked(support: Seq<u32>, ordinary: Seq<u32>) -> bool {
    has_activity(ordinary) ==> exists|s: int| #[trigger] is_maximum(support, ordinary, s)
}

/// Whether every active frame is ranked.
pub open spec fn all_ranked(support: Seq<Seq<u32>>, ordinary: Seq<Seq<u32>>) -> bool {
    forall|f: int| 0 <= f < ordinary.len() ==> #[trigger] ranked(support[f], ordinary[f])
}

/// What the list of maxima holds.
pub proof fn lemma_maxima_below(support: Seq<u32>, ordinary: Seq<u32>, n: nat)
    requires
        n <= usize::MAX,
    ensures
        ({
            let list = maxima_below(support, ordinary, n);
            &&& list.len() <= n
            &&& forall|k: int|
                0 <= k < list.len() ==> 0 <= #[trigger] list[k] < n && is_maximum(
                    support,
                    ordinary,
                    list[k] as int,
                )
            &&& forall|s: usize|
                s < n && is_maximum(support, ordinary, s as int) ==> #[trigger] list.contains(s)
            &&& forall|j: int, k: int|
                0 <= j < k < list.len() ==> #[trigger] list[j] < #[trigger] list[k]
        }),
    decreases n,
{
    if n > 0 {
        lemma_maxima_below(support, ordinary, (n - 1) as nat);
        let rest = maxima_below(support, ordinary, (n - 1) as nat);
        let list = maxima_below(support, ordinary, n);
        assert forall|s: usize| s < n && is_maximum(support, ordinary, s as int) implies
            #[trigger] list.contains(s) by {
            if s < n - 1 {
                assert(rest.contains(s));
                let k = choose|k: int| 0 <= k < rest.len() && rest[k] == s;
                assert(list[k] == s);
            } else {
                assert(list[rest.len() as int] == s);
            }
        }
    }
}

/// Whether the mask has any speaker active in this frame.
pub fn row_has_activity(ordinary: &ScoreGrid, frame: usize) -> (r: bool)
    requires
        frame < ordinary@.len(),
    ensures
        r == has_activity(ordinary@[frame as int]),
{
    let (_rows, columns): (usize, usize) = ordinary.dim();
    let mut s: usize = 0;
    while s < columns
        invariant
            frame < ordinary@.len(),
            columns == ordinary.columns(),
            ordinary@[frame as int].len() == columns,
            s <= columns,
            forall|k: int| 0 <= k < s ==> !#[trigger] active(ordinary@[frame as int], k),
        decreases columns - s,
    {
        if is_less(HALF, ordinary.at(frame, s)) {
            proof {
                assert(active(ordinary@[frame as int], s as int));
            }
            return true;
        }
        s = s + 1;
    }
    false
}

/// The active speakers with a support equal to the greatest, in order.
pub fn frame_maxima(support: &ScoreGrid, ordinary: &ScoreGrid, frame: usize) -> (r: Vec<usize>)
    requires
        support@.len() == ordinary@.len(),
        support.columns() == ordinary.columns(),
        frame < ordinary@.len(),
    ensures
        r@ == maxima_of(support@[frame as int], ordinary@[frame as int]),
{
    let (_rows, columns): (usize, usize) = ordinary.dim();
    let ghost sup = support@[frame as int];
    let ghost ord = ordinary@[frame as int];
    let mut top: Option<usize> = None;
    let mut s: usize = 0;
    while s < columns
        invariant
            frame < ordinary@.len(),
            support@.len() == ordinary@.len(),
            columns == ordinary.columns(),
            columns == support.columns(),
            sup == support@[frame as int],
            ord == ordinary@[frame as int],
            ord.len() == columns,
            s <= columns,
            match top {
                Some(t) => t < s && active(ord, t as int) && forall|u: int|
                    0 <= u < s && #[trigger] active(ord, u) ==> total_key(sup[u]) <= total_key(
                        sup[t as int],
                    ),
                None => forall|u: int| 0 <= u < s ==> !#[trigger] active(ord, u),
            },
        decreases columns - s,
    {
        if is_less(HALF, ordinary.at(frame, s)) {
            proof {
                assert(active(ord, s as int));
            }
            match top {
                None => {
                    top = Some(s);
                },
                Some(t) => {
                    if total_order_key(support.at(frame, s)) >= total_order_key(
                        support.at(frame, t),
                    ) {
                        top = Some(s);
                    }
                },
            }
        }
        s = s + 1;
    }
    let mut list: Vec<usize> = Vec::new();
    let ghost best = top;
    match top {
        None => {
            proof {
                assert forall|n: nat| n <= columns implies maxima_below(sup, ord, n)
                    == Seq::<usize>::empty() by {
                    lemma_no_maxima(sup, ord, n);
                }
            }
        },
        Some(t) => {
            let greatest: u32 = support.at(frame, t);
            proof {
                assert(strongest(sup, ord, t as int));
            }
            let mut k: usize = 0;
            while k < columns
                invariant
                    frame < ordinary@.len(),
                    support@.len() == ordinary@.len(),
                    columns == ordinary.columns(),
                    columns == support.columns(),
                    sup == support@[frame as int],
                    ord == ordinary@[frame as int],
                    ord.len() == columns,
                    strongest(sup, ord, t as int),
                    greatest == sup[t as int],
                    k <= columns,
                    list@ == maxima_below(sup, ord, k as nat),
                decreases columns - k,
            {
                let here: bool = is_less(HALF, ordinary.at(frame, k)) && is_same(
                    support.at(frame, k),
                    greatest,
                );
                proof {
                    if is_maximum(sup, ord, k as int) {
                        let other = choose|other: int| #[trigger]
                            strongest(sup, ord, other) && same(sup[k as int], sup[other]);
                        assert(active(ord, other) && active(ord, t as int));
                        assert(total_key(sup[other]) == total_key(sup[t as int]));
                        assert(sup[other] == sup[t as int]);
                    }
                    assert(here == is_maximum(sup, ord, k as int));
                }
                if here {
                    list.push(k);
                }
                k = k + 1;
            }
        },
    }
    list
}

/// A frame without activity has no maxima.
proof fn lemma_no_maxima(support: Seq<u32>, ordinary: Seq<u32>, n: nat)
    requires
        n <= ordinary.len(),
        forall|u: int| 0 <= u < ordinary.len() ==> !#[trigger] active(ordinary, u),
    ensures
        maxima_below(support, ordinary, n) == Seq::<usize>::empty(),
    decreases n,
{
    if n > 0 {
        lemma_no_maxima(support, ordinary, (n - 1) as nat);
        assert(!active(ordinary, n - 1));
    }
}

/// Where the run of tied frames around frame `i` starts.
pub open spec fn run_start(choices: Seq<Seq<usize>>, i: int) -> int
    decreases i,
{
    if i <= 0 || choices[i - 1].len() == 1 {
        i
    } else {
        run_start(choices, i - 1)
    }
}

/// Where the run of tied frames around frame `i` ends.
pub open spec fn run_end(choices: Seq<Seq<usize>>, i: int) -> int
    decreases choices.len() - i,
{
    if i + 1 >= choices.len() || choices[i + 1].len() == 1 {
        i + 1
    } else {
        run_end(choices, i + 1)
    }
}

/// The speaker that the frames around a tied run agree on, if they do.
pub open spec fn anchor_of(choices: Seq<Seq<usize>>, start: int, end: int) -> Option<usize> {
    if start > 0 && end < choices.len() {
        if choices[start - 1][0] == choices[end][0] {
            Some(choices[start - 1][0])
        } else {
            None
        }
    } else if start > 0 {
        Some(choices[start - 1][0])
    } else if end < choices.len() {
        Some(choices[end][0])
    } else {
        None
    }
}

/// Whether `speaker` is a choice and the selection in every frame from `start` to `end`.
pub open spec fn carries(
    choices: Seq<Seq<usize>>,
    selected: Seq<usize>,
    speaker: usize,
    start: int,
    end: int,
) -> bool {
    forall|k: int|
        start <= k < end ==> (#[trigger] choices[k]).contains(speaker) && selected[k] == speaker
}

/// A speaker carries through one frame more when it carries up to there and does so there.
proof fn lemma_carries(
    choices: Seq<Seq<usize>>,
    selected: Seq<usize>,
    speaker: usize,
    start: int,
    end: int,
)
    requires
        start <= end,
    ensures
        carries(choices, selected, speaker, start, end + 1) == (carries(
            choices,
            selected,
            speaker,
            start,
            end,
        ) && choices[end].contains(speaker) && selected[end] == speaker),
{
    let longer = carries(choices, selected, speaker, start, end + 1);
    if longer {
        assert(choices[end].contains(speaker));
        assert forall|k: int| start <= k < end implies (#[trigger] choices[k]).contains(speaker)
            && selected[k] == speaker by {}
    }
}

/// Whether the surrounding speaker carries through a tied run.
pub open spec fn continuous(
    choices: Seq<Seq<usize>>,
    selected: Seq<usize>,
    start: int,
    end: int,
) -> bool {
    match anchor_of(choices, start, end) {
        Some(speaker) => carries(choices, selected, speaker, start, end),
        None => false,
    }
}

/// Why the speaker of frame `i` was selected.
pub open spec fn decision_of(
    choices: Seq<Seq<usize>>,
    selected: Seq<usize>,
    i: int,
) -> ExclusiveFrameDecision {
    if choices[i].len() == 1 {
        ExclusiveFrameDecision::UniqueSupport
    } else if continuous(choices, selected, run_start(choices, i), run_end(choices, i)) {
        ExclusiveFrameDecision::TieContinuity
    } else {
        ExclusiveFrameDecision::DeterministicFallback
    }
}

/// The start of a run is the same seen from any of its frames.
pub(crate) proof fn lemma_run_start(choices: Seq<Seq<usize>>, start: int, i: int)
    requires
        0 <= start <= i < choices.len(),
        start == 0 || choices[start - 1].len() == 1,
        forall|k: int| start <= k <= i ==> (#[trigger] choices[k]).len() != 1,
    ensures
        run_start(choices, i) == start,
    decreases i - start,
{
    if i > start {
        assert(choices[i - 1].len() != 1);
        lemma_run_start(choices, start, i - 1);
    }
}

/// The end of a run is the same seen from any of its frames.
pub(crate) proof fn lemma_run_end(choices: Seq<Seq<usize>>, i: int, end: int)
    requires
        0 <= i < end <= choices.len(),
        end == choices.len() || choices[end].len() == 1,
        forall|k: int| i <= k < end ==> (#[trigger] choices[k]).len() != 1,
    ensures
        run_end(choices, i) == end,
    decreases end - i,
{
    if i + 1 < end {
        assert(choices[i + 1].len() != 1);
        lemma_run_end(choices, i + 1, end);
    }
}

/// Whether `list` holds `speaker`.
fn holds(list: &Vec<usize>, speaker: usize) -> (r: bool)
    ensures
        r == list@.contains(speaker),
{
    let mut k: usize = 0;
    while k < list.len()
        invariant
            k <= list@.len(),
            forall|i: int| 0 <= i < k ==> list@[i] != speaker,
        decreases list@.len() - k,
    {
        if list[k] == speaker {
            return true;
        }
        k = k + 1;
    }
    false
}

/// Why the speaker of each frame was selected.
pub fn frame_decisions(choices: &Vec<Vec<usize>>, selected: &Vec<usize>) -> (r: Vec<
    ExclusiveFrameDecision,
>)
    requires
        selected@.len() == choices@.len(),
        forall|i: int| 0 <= i < choices@.len() ==> (#[trigger] choices@[i])@.len() > 0,
    ensures
        r@.len() == choices@.len(),
        forall|i: int|
            0 <= i < r@.len() ==> #[trigger] r@[i] == decision_of(
                nested(choices@),
                selected@,
                i,
            ),
{
    let frames: usize = choices.len();
    let ghost all = nested(choices@);
    let mut decisions: Vec<ExclusiveFrameDecision> = Vec::new();
    let mut offset: usize = 0;
    while offset < frames
        invariant
            offset <= frames,
            frames == choices@.len(),
            selected@.len() == frames,
            all == nested(choices@),
            forall|i: int| 0 <= i < choices@.len() ==> (#[trigger] choices@[i])@.len() > 0,
            decisions@.len() == offset,
            offset == 0 || offset == frames || all[offset - 1].len() == 1 || all[offset as int].len()
                == 1,
            forall|i: int|
                0 <= i < offset ==> #[trigger] decisions@[i] == decision_of(all, selected@, i),
        decreases frames - offset,
    {
        proof {
            assert(all[offset as int] == choices@[offset as int]@);
        }
        if choices[offset].len() == 1 {
            decisions.push(ExclusiveFrameDecision::UniqueSupport);
            offset = offset + 1;
            continue;
        }
        let start: usize = offset;
        let mut end: usize = offset;
        while end < frames && choices[end].len() > 1
            invariant
                start <= end <= frames,
                frames == choices@.len(),
                all == nested(choices@),
                forall|k: int| start <= k < end ==> (#[trigger] all[k]).len() != 1,
            decreases frames - end,
        {
            proof {
                assert(all[end as int] == choices@[end as int]@);
            }
            end = end + 1;
        }
        proof {
            if end < frames {
                assert(all[end as int] == choices@[end as int]@);
            }
            if start > 0 {
                assert(all[start - 1] == choices@[start - 1]@);
            }
        }
        let left: Option<usize> = if start > 0 {
            Some(choices[start - 1][0])
        } else {
            None
        };
        let right: Option<usize> = if end < frames {
            Some(choices[end][0])
        } else {
            None
        };
        let anchor: Option<usize> = match (left, right) {
            (Some(l), Some(r)) => {
                if l == r {
                    Some(l)
                } else {
                    None
                }
            },
            (Some(l), None) => Some(l),
            (None, Some(r)) => Some(r),
            (None, None) => None,
        };
        proof {
            assert(anchor == anchor_of(all, start as int, end as int));
        }
        let resolved: bool = match anchor {
            None => false,
            Some(speaker) => {
                let mut steady: bool = true;
                let mut k: usize = start;
                while k < end
                    invariant
                        start <= k <= end <= frames,
                        frames == choices@.len(),
                        selected@.len() == frames,
                        all == nested(choices@),
                        steady == carries(all, selected@, speaker, start as int, k as int),
                    decreases end - k,
                {
                    proof {
                        assert(all[k as int] == choices@[k as int]@);
                    }
                    let here: usize = selected[k];
                    if !holds(&choices[k], speaker) || here != speaker {
                        steady = false;
                    }
                    proof {
                        lemma_carries(all, selected@, speaker, start as int, k as int);
                    }
                    k = k + 1;
                }
                steady
            },
        };
        proof {
            assert(resolved == continuous(all, selected@, start as int, end as int));
        }
        let decision: ExclusiveFrameDecision = if resolved {
            ExclusiveFrameDecision::TieContinuity
        } else {
            ExclusiveFrameDecision::DeterministicFallback
        };
        while offset < end
            invariant
                start <= offset <= end <= frames,
                decisions@.len() == offset,
                frames == all.len(),
                start == 0 || all[start - 1].len() == 1,
                end == frames || all[end as int].len() == 1,
                forall|k: int| start <= k < end ==> (#[trigger] all[k]).len() != 1,
                decision == (if continuous(all, selected@, start as int, end as int) {
                    ExclusiveFrameDecision::TieContinuity
                } else {
                    ExclusiveFrameDecision::DeterministicFallback
                }),
                forall|i: int|
                    0 <= i < offset ==> #[trigger] decisions@[i] == decision_of(all, selected@, i),
            decreases end - offset,
        {
            proof {
                lemma_run_start(all, start as int, offset as int);
                lemma_run_end(all, offset as int, end as int);
                assert(all[offset as int].len() != 1);
            }
            decisions.push(decision);
            offset = offset + 1;
        }
    }
    decisions
}

/// Whether `other` names the strongest active speaker but `speaker`, the first of equals.
pub open spec fn is_runner_up(
    support: Seq<u32>,
    ordinary: Seq<u32>,
    speaker: usize,
    other: Option<usize>,
) -> bool {
    match other {
        Some(r) => {
            &&& r < ordinary.len()
            &&& r != speaker
            &&& active(ordinary, r as int)
            &&& forall|u: int|
                0 <= u < ordinary.len() && u != speaker && #[trigger] active(ordinary, u) ==> {
                    total_key(support[u]) < total_key(support[r as int]) || (total_key(support[u])
                        == total_key(support[r as int]) && r <= u)
                }
        },
        None => forall|u: int|
            0 <= u < ordinary.len() && #[trigger] active(ordinary, u) ==> u == speaker,
    }
}

/// The strongest active speaker but `speaker`, the first of equals.
pub fn runner_up(support: &ScoreGrid, ordinary: &ScoreGrid, frame: usize, speaker: usize) -> (r:
    Option<usize>)
    requires
        support@.len() == ordinary@.len(),
        support.columns() == ordinary.columns(),
        frame < ordinary@.len(),
    ensures
        is_runner_up(support@[frame as int], ordinary@[frame as int], speaker, r),
{
    let (_rows, columns): (usize, usize) = ordinary.dim();
    let ghost sup = support@[frame as int];
    let ghost ord = ordinary@[frame as int];
    let mut best: Option<usize> = None;
    let mut s: usize = 0;
    while s < columns
        invariant
            frame < ordinary@.len(),
            support@.len() == ordinary@.len(),
            columns == ordinary.columns(),
            columns == support.columns(),
            sup == support@[frame as int],
            ord == ordinary@[frame as int],
            ord.len() == columns,
            s <= columns,
            match best {
                Some(b) => b < s && b != speaker && active(ord, b as int) && forall|u: int|
                    0 <= u < s && u != speaker && #[trigger] active(ord, u) ==> {
                        total_key(sup[u]) < total_key(sup[b as int]) || (total_key(sup[u])
                            == total_key(sup[b as int]) && b <= u)
                    },
                None => forall|u: int|
                    0 <= u < s && #[trigger] active(ord, u) ==> u == speaker,
            },
        decreases columns - s,
    {
        if s != speaker && is_less(HALF, ordinary.at(frame, s)) {
            proof {
                assert(active(ord, s as int));
            }
            match best {
                None => {
                    best = Some(s);
                },
                Some(b) => {
                    if total_order_key(support.at(frame, s)) > total_order_key(
                        support.at(frame, b),
                    ) {
                        best = Some(s);
                    }
                },
            }
        }
        s = s + 1;
    }
    best
}

/// Whether `[start, end)` is a run of active frames that cannot be extended.
pub open spec fn is_component(ordinary: Seq<Seq<u32>>, start: int, end: int) -> bool {
    &&& 0 <= start < end <= ordinary.len()
    &&& forall|f: int| start <= f < end ==> has_activity(#[trigger] ordinary[f])
    &&& start == 0 || !has_activity(ordinary[start - 1])
    &&& end == ordinary.len() || !has_activity(ordinary[end])
}

/// The speakers that each frame of a component leaves to choose from.
pub open spec fn component_choices(
    support: Seq<Seq<u32>>,
    ordinary: Seq<Seq<u32>>,
    start: int,
    end: int,
) -> Seq<Seq<usize>> {
    Seq::new(
        (end - start) as nat,
        |i: int| maxima_of(support[start + i], ordinary[start + i]),
    )
}

/// The evidence of a frame in which nobody speaks.
pub open spec fn silence() -> ExclusiveFrameEvidence {
    ExclusiveFrameEvidence {
        speaker_idx: None,
        support: ZERO,
        runner_up_speaker_idx: None,
        runner_up_support: ZERO,
        decision: None,
    }
}

/// Whether `evidence` tells of a frame given to `speaker` for this reason.
pub open spec fn tells(
    support: Seq<u32>,
    ordinary: Seq<u32>,
    speaker: usize,
    decision: ExclusiveFrameDecision,
    evidence: ExclusiveFrameEvidence,
) -> bool {
    &&& evidence.speaker_idx == Some(speaker)
    &&& evidence.support == support[speaker as int]
    &&& is_runner_up(support, ordinary, speaker, evidence.runner_up_speaker_idx)
    &&& evidence.runner_up_support == match evidence.runner_up_speaker_idx {
        Some(r) => support[r as int],
        None => ZERO,
    }
    &&& evidence.decision == Some(decision)
}

/// A row in which only `speaker` is active.
pub open spec fn only(columns: nat, speaker: usize) -> Seq<u32> {
    Seq::new(
        columns,
        |s: int|
            if s == speaker {
                ONE
            } else {
                ZERO
            },
    )
}

/// A row in which nobody is active.
pub open spec fn blank(columns: nat) -> Seq<u32> {
    Seq::new(columns, |s: int| ZERO)
}

/// The speakers that the evidence names from frame `start` to frame `end`.
pub open spec fn selection(frames: Seq<ExclusiveFrameEvidence>, start: int, end: int) -> Seq<
    usize,
> {
    Seq::new((end - start) as nat, |i: int| frames[start + i].speaker_idx->0)
}

/// Whether the frames from `start` to `end` are given to the best path through their choices,
/// and the evidence says so.
pub open spec fn component_decided(
    support: Seq<Seq<u32>>,
    ordinary: Seq<Seq<u32>>,
    start: int,
    end: int,
    frames: Seq<ExclusiveFrameEvidence>,
) -> bool {
    let choices = component_choices(support, ordinary, start, end);
    let selected = selection(frames, start, end);
    &&& best_path(choices, selected)
    &&& forall|f: int|
        start <= f < end ==> tells(
            support[f],
            ordinary[f],
            selected[f - start],
            decision_of(choices, selected, f - start),
            #[trigger] frames[f],
        )
}

/// Whether the frames from `start` to `end` are decided, and the output has the decided speaker
/// and nobody else.
pub open spec fn component_resolved(
    support: Seq<Seq<u32>>,
    ordinary: Seq<Seq<u32>>,
    columns: nat,
    start: int,
    end: int,
    output: Seq<Seq<u32>>,
    frames: Seq<ExclusiveFrameEvidence>,
) -> bool {
    &&& component_decided(support, ordinary, start, end, frames)
    &&& forall|f: int|
        start <= f < end ==> #[trigger] output[f] == only(
            columns,
            selection(frames, start, end)[f - start],
        )
}

/// Whether `output` and `frames` are the exclusive reconstruction of these tables: silence
/// where the mask is silent, and every component resolved.
pub open spec fn exclusive_of(
    support: Seq<Seq<u32>>,
    ordinary: Seq<Seq<u32>>,
    columns: nat,
    output: Seq<Seq<u32>>,
    frames: Seq<ExclusiveFrameEvidence>,
) -> bool {
    &&& frames.len() == ordinary.len()
    &&& output.len() == ordinary.len()
    &&& forall|f: int|
        0 <= f < ordinary.len() && !has_activity(#[trigger] ordinary[f]) ==> frames[f] == silence()
            && output[f] == blank(columns)
    &&& forall|start: int, end: int| #[trigger]
        is_component(ordinary, start, end) ==> component_resolved(
            support,
            ordinary,
            columns,
            start,
            end,
            output,
            frames,
        )
}

/// Two components that share a frame are the same.
proof fn lemma_component_unique(
    ordinary: Seq<Seq<u32>>,
    a: int,
    b: int,
    start: int,
    end: int,
    f: int,
)
    requires
        is_component(ordinary, a, b),
        is_component(ordinary, start, end),
        a <= f < b,
        start <= f < end,
    ensures
        a == start,
        b == end,
{
    if a < start {
        assert(has_activity(ordinary[start - 1]));
    }
    if start < a {
        assert(has_activity(ordinary[a - 1]));
    }
    if b < end {
        assert(has_activity(ordinary[b]));
    }
    if end < b {
        assert(has_activity(ordinary[end]));
    }
}

/// A component stays resolved while its own frames stay as they are.
proof fn lemma_resolved_stays(
    support: Seq<Seq<u32>>,
    ordinary: Seq<Seq<u32>>,
    columns: nat,
    start: int,
    end: int,
    output: Seq<Seq<u32>>,
    frames: Seq<ExclusiveFrameEvidence>,
    later_output: Seq<Seq<u32>>,
    later_frames: Seq<ExclusiveFrameEvidence>,
)
    requires
        component_resolved(support, ordinary, columns, start, end, output, frames),
        start <= end,
        forall|f: int| start <= f < end ==> #[trigger] later_frames[f] == frames[f],
        forall|f: int| start <= f < end ==> #[trigger] later_output[f] == output[f],
    ensures
        component_resolved(support, ordinary, columns, start, end, later_output, later_frames),
{
    let selected = selection(frames, start, end);
    let later = selection(later_frames, start, end);
    assert forall|i: int| 0 <= i < end - start implies later[i] == selected[i] by {
        assert(later_frames[start + i] == frames[start + i]);
    }
    assert(later =~= selected);
    assert forall|f: int| start <= f < end implies tells(
        support[f],
        ordinary[f],
        later[f - start],
        decision_of(component_choices(support, ordinary, start, end), later, f - start),
        #[trigger] later_frames[f],
    ) && later_output[f] == only(columns, later[f - start]) by {
        assert(later_frames[f] == frames[f]);
        assert(later_output[f] == output[f]);
    }
}

/// The choices of a frame are its maxima, of which an active ranked frame has some.
proof fn lemma_choices(support: Seq<u32>, ordinary: Seq<u32>)
    requires
        has_activity(ordinary),
        ranked(support, ordinary),
        ordinary.len() <= usize::MAX,
    ensures
        maxima_of(support, ordinary).len() > 0,
        forall|k: int|
            0 <= k < maxima_of(support, ordinary).len() ==> #[trigger] maxima_of(
                support,
                ordinary,
            )[k] < ordinary.len(),
{
    lemma_maxima_below(support, ordinary, ordinary.len());
    let s = choose|s: int| #[trigger] is_maximum(support, ordinary, s);
    assert(maxima_of(support, ordinary).contains(s as usize));
}

/// Gives the frames from `start` to `end`, each of which has an active speaker, to the best path
/// through their choices: the chosen cell of each frame becomes one, and no other cell changes.
pub fn reconstruct_component(
    support: &ScoreGrid,
    ordinary: &ScoreGrid,
    start: usize,
    end: usize,
    output: &mut ScoreGrid,
    evidence: &mut Vec<ExclusiveFrameEvidence>,
)
    requires
        support@.len() == ordinary@.len(),
        support.columns() == ordinary.columns(),
        start < end <= ordinary@.len(),
        forall|f: int|
            start <= f < end ==> has_activity(#[trigger] ordinary@[f]) && ranked(
                support@[f],
                ordinary@[f],
            ),
        end <= old(output)@.len(),
        ordinary.columns() <= old(output).columns(),
        end <= old(evidence)@.len(),
    ensures
        final(output)@.len() == old(output)@.len(),
        final(output).columns() == old(output).columns(),
        final(evidence)@.len() == old(evidence)@.len(),
        component_decided(
            support@,
            ordinary@,
            start as int,
            end as int,
            final(evidence)@,
        ),
        forall|f: int|
            start <= f < end ==> {
                let speaker = selection(final(evidence)@, start as int, end as int)[f - start];
                &&& speaker < ordinary.columns()
                &&& #[trigger] final(output)@[f] == old(output)@[f].update(speaker as int, ONE)
            },
        forall|f: int|
            0 <= f < old(output)@.len() && !(start <= f < end) ==> #[trigger] final(output)@[f]
                == old(output)@[f],
        forall|f: int|
            0 <= f < old(evidence)@.len() && !(start <= f < end) ==> #[trigger] final(evidence)@[f]
                == old(evidence)@[f],
{
    let (rows, columns): (usize, usize) = ordinary.dim();
    let frames: usize = end - start;
    let ghost expected = component_choices(support@, ordinary@, start as int, end as int);
    let mut choices: Vec<Vec<usize>> = Vec::new();
    let mut offset: usize = 0;
    while offset < frames
        invariant
            offset <= frames,
            frames == end - start,
            start <= end <= ordinary@.len(),
            support@.len() == ordinary@.len(),
            support.columns() == ordinary.columns(),
            expected == component_choices(support@, ordinary@, start as int, end as int),
            choices@.len() == offset,
            forall|i: int| 0 <= i < offset ==> (#[trigger] choices@[i])@ == expected[i],
        decreases frames - offset,
    {
        choices.push(frame_maxima(support, ordinary, start + offset));
        offset = offset + 1;
    }
    proof {
        assert(nested(choices@) =~= expected);
        assert forall|i: int| 0 <= i < expected.len() implies {
            &&& (#[trigger] expected[i]).len() > 0
            &&& forall|k: int| 0 <= k < expected[i].len() ==> #[trigger] expected[i][k] < columns
        } by {
            assert(has_activity(ordinary@[start + i]));
            assert(ranked(support@[start + i], ordinary@[start + i]));
            lemma_choices(support@[start + i], ordinary@[start + i]);
        }
        assert(choosable(expected, columns as nat));
        assert(has_activity(ordinary@[start as int]));
        assert(columns >= 1);
        assert(rows <= rows * columns) by (nonlinear_arith)
            requires
                columns >= 1,
        ;
        assert(frames <= usize::MAX / 4);
        assert forall|i: int| 0 <= i < choices@.len() implies (#[trigger] choices@[i])@.len()
            > 0 by {
            assert(expected[i].len() > 0);
        }
    }
    let selected: Vec<usize> = best_path_through(&choices, columns);
    let decisions: Vec<ExclusiveFrameDecision> = frame_decisions(&choices, &selected);
    let ghost first_output = output@;
    let ghost first_evidence = evidence@;
    let ghost wide = output.columns();
    proof {
        assert forall|i: int| 0 <= i < frames implies #[trigger] selected@[i] < columns by {
            assert(expected[i].contains(selected@[i]));
            let k = choose|k: int| 0 <= k < expected[i].len() && expected[i][k] == selected@[i];
            assert(expected[i][k] < columns);
        }
    }
    offset = 0;
    while offset < frames
        invariant
            offset <= frames,
            frames == end - start,
            start <= end <= ordinary@.len(),
            columns == ordinary.columns(),
            support@.len() == ordinary@.len(),
            support.columns() == ordinary.columns(),
            selected@.len() == frames,
            decisions@.len() == frames,
            end <= first_output.len(),
            end <= first_evidence.len(),
            output@.len() == first_output.len(),
            columns <= output.columns(),
            output.columns() == wide,
            evidence@.len() == first_evidence.len(),
            forall|i: int| 0 <= i < frames ==> #[trigger] selected@[i] < columns,
            forall|f: int|
                0 <= f < first_output.len() && !(start <= f < start + offset)
                    ==> #[trigger] output@[f] == first_output[f],
            forall|f: int|
                0 <= f < first_evidence.len() && !(start <= f < start + offset)
                    ==> #[trigger] evidence@[f] == first_evidence[f],
            forall|f: int|
                start <= f < start + offset ==> #[trigger] output@[f] == first_output[f].update(
                    selected@[f - start] as int,
                    ONE,
                ),
            forall|f: int|
                start <= f < start + offset ==> tells(
                    support@[f],
                    ordinary@[f],
                    selected@[f - start],
                    decisions@[f - start],
                    #[trigger] evidence@[f],
                ),
        decreases frames - offset,
    {
        let frame: usize = start + offset;
        let speaker: usize = selected[offset];
        proof {
            assert(output@[frame as int] == first_output[frame as int]);
        }
        output.set(frame, speaker, ONE);
        let other: Option<usize> = runner_up(support, ordinary, frame, speaker);
        let _dim: (usize, usize) = ordinary.dim();
        let other_support: u32 = match other {
            Some(r) => support.at(frame, r),
            None => ZERO,
        };
        evidence.set(
            frame,
            ExclusiveFrameEvidence {
                speaker_idx: Some(speaker),
                support: support.at(frame, speaker),
                runner_up_speaker_idx: other,
                runner_up_support: other_support,
                decision: Some(decisions[offset]),
            },
        );
        offset = offset + 1;
    }
    proof {
        let named = selection(evidence@, start as int, end as int);
        assert forall|i: int| 0 <= i < frames implies named[i] == selected@[i] by {
            assert(tells(
                support@[start + i],
                ordinary@[start + i],
                selected@[start + i - start],
                decisions@[start + i - start],
                evidence@[start + i],
            ));
        }
        assert(named =~= selected@);
        assert forall|f: int| start <= f < end implies tells(
            support@[f],
            ordinary@[f],
            named[f - start],
            decision_of(expected, named, f - start),
            #[trigger] evidence@[f],
        ) by {
            assert(decisions@[f - start] == decision_of(expected, selected@, f - start));
        }
        assert forall|f: int| start <= f < end implies named[f - start] < columns
            && #[trigger] output@[f] == first_output[f].update(named[f - start] as int, ONE) by {
            assert(selected@[f - start] < columns);
        }
    }
}

/// Builds an exclusive timeline from frame support while preserving the ordinary activity
/// mask.
pub fn score_aware_exclusive(support: &ScoreGrid, ordinary: &ScoreGrid) -> (r:
    ScoreAwareExclusiveDiarization)
    requires
        support@.len() == ordinary@.len(),
        support.columns() == ordinary.columns(),
        all_ranked(support@, ordinary@),
    ensures
        exclusive_of(support@, ordinary@, ordinary.columns(), r.diarization.0@, r.frames@),
        r.diarization.0.columns() == ordinary.columns(),
{
    let (rows, columns): (usize, usize) = ordinary.dim();
    let mut output: ScoreGrid = ScoreGrid::filled(rows, columns, ZERO);
    let mut evidence: Vec<ExclusiveFrameEvidence> = Vec::new();
    let mut filled_frames: usize = 0;
    while filled_frames < rows
        invariant
            filled_frames <= rows,
            evidence@.len() == filled_frames,
            forall|f: int| 0 <= f < filled_frames ==> #[trigger] evidence@[f] == silence(),
        decreases rows - filled_frames,
    {
        evidence.push(
            ExclusiveFrameEvidence {
                speaker_idx: None,
                support: ZERO,
                runner_up_speaker_idx: None,
                runner_up_support: ZERO,
                decision: None,
            },
        );
        filled_frames = filled_frames + 1;
    }
    proof {
        assert forall|f: int| 0 <= f < rows implies #[trigger] output@[f] == blank(
            columns as nat,
        ) by {
            assert(output@[f] =~= blank(columns as nat));
        }
    }
    let mut at: usize = 0;
    while at < rows
        invariant
            at <= rows,
            rows == ordinary@.len(),
            columns == ordinary.columns(),
            support@.len() == ordinary@.len(),
            support.columns() == ordinary.columns(),
            all_ranked(support@, ordinary@),
            output@.len() == rows,
            output.columns() == columns,
            evidence@.len() == rows,
            at == 0 || at == rows || !has_activity(ordinary@[at - 1]) || !has_activity(
                ordinary@[at as int],
            ),
            forall|f: int|
                0 <= f < rows && (at <= f || !has_activity(ordinary@[f]))
                    ==> #[trigger] evidence@[f] == silence() && output@[f] == blank(columns as nat),
            forall|a: int, b: int| #[trigger]
                is_component(ordinary@, a, b) && b <= at ==> component_resolved(
                    support@,
                    ordinary@,
                    columns as nat,
                    a,
                    b,
                    output@,
                    evidence@,
                ),
        decreases rows - at,
    {
        if !row_has_activity(ordinary, at) {
            proof {
                assert forall|a: int, b: int| #[trigger]
                    is_component(ordinary@, a, b) && b <= at + 1 implies component_resolved(
                    support@,
                    ordinary@,
                    columns as nat,
                    a,
                    b,
                    output@,
                    evidence@,
                ) by {
                    if b == at + 1 {
                        assert(has_activity(ordinary@[b - 1]));
                    }
                }
            }
            at = at + 1;
            continue;
        }
        let start: usize = at;
        let mut end: usize = at + 1;
        while end < rows && row_has_activity(ordinary, end)
            invariant
                start < end <= rows,
                rows == ordinary@.len(),
                forall|f: int| start <= f < end ==> has_activity(#[trigger] ordinary@[f]),
            decreases rows - end,
        {
            end = end + 1;
        }
        proof {
            assert(is_component(ordinary@, start as int, end as int));
            assert forall|f: int| start <= f < end implies has_activity(#[trigger] ordinary@[f])
                && ranked(support@[f], ordinary@[f]) by {}
            assert forall|f: int| start <= f < end implies #[trigger] output@[f] == blank(
                ordinary.columns(),
            ) by {
                assert(evidence@[f] == silence());
            }
        }
        let ghost earlier_output = output@;
        let ghost earlier_evidence = evidence@;
        reconstruct_component(support, ordinary, start, end, &mut output, &mut evidence);
        proof {
            let selected = selection(evidence@, start as int, end as int);
            assert forall|f: int| start <= f < end implies #[trigger] output@[f] == only(
                columns as nat,
                selected[f - start],
            ) by {
                assert(earlier_output[f] == blank(columns as nat));
                assert(output@[f] =~= only(columns as nat, selected[f - start]));
            }
            assert forall|a: int, b: int| #[trigger]
                is_component(ordinary@, a, b) && b <= end implies component_resolved(
                support@,
                ordinary@,
                columns as nat,
                a,
                b,
                output@,
                evidence@,
            ) by {
                if b <= start {
                    lemma_resolved_stays(
                        support@,
                        ordinary@,
                        columns as nat,
                        a,
                        b,
                        earlier_output,
                        earlier_evidence,
                        output@,
                        evidence@,
                    );
                } else {
                    lemma_component_unique(ordinary@, a, b, start as int, end as int, b - 1);
                }
            }
            assert forall|f: int|
                0 <= f < rows && (end <= f || !has_activity(ordinary@[f])) implies
                #[trigger] evidence@[f] == silence() && output@[f] == blank(columns as nat) by {
                assert(!(start <= f < end));
                assert(evidence@[f] == earlier_evidence[f]);
                assert(output@[f] == earlier_output[f]);
                assert(earlier_evidence[f] == silence());
            }
        }
        at = end;
    }
    ScoreAwareExclusiveDiarization { diarization: DiscreteDiarization(output), frames: evidence }
}

/// Whether two tables can be made exclusive: they have the same shape, and every active frame
/// is ranked.
pub fn can_be_exclusive(support: &ScoreGrid, ordinary: &ScoreGrid) -> (r: bool)
    ensures
        r == (support@.len() == ordinary@.len() && support.columns() == ordinary.columns()
            && all_ranked(support@, ordinary@)),
{
    let (rows, columns): (usize, usize) = ordinary.dim();
    let (support_rows, support_columns): (usize, usize) = support.dim();
    if rows != support_rows || columns != support_columns {
        return false;
    }
    let mut f: usize = 0;
    while f < rows
        invariant
            rows == ordinary@.len(),
            rows == support@.len(),
            support.columns() == ordinary.columns(),
            rectangular(ordinary@, ordinary.columns()),
            ordinary.columns() <= usize::MAX,
            f <= rows,
            forall|g: int| 0 <= g < f ==> #[trigger] ranked(support@[g], ordinary@[g]),
        decreases rows - f,
    {
        let maxima: Vec<usize> = frame_maxima(support, ordinary, f);
        let ghost row = ordinary@[f as int];
        proof {
            lemma_maxima_below(support@[f as int], row, row.len());
            if maxima@.len() > 0 {
                assert(is_maximum(support@[f as int], row, maxima@[0] as int));
            } else {
                assert forall|s: int| !(#[trigger] is_maximum(support@[f as int], row, s)) by {
                    if is_maximum(support@[f as int], row, s) {
                        assert(maxima_of(support@[f as int], row).contains(s as usize));
                    }
                }
            }
        }
        if maxima.len() == 0 && row_has_activity(ordinary, f) {
            proof {
                assert(!ranked(support@[f as int], row));
            }
            return false;
        }
        f = f + 1;
    }
    true
}

impl DiarizationResult {
    /// Builds an exclusive timeline from frame support while preserving the ordinary activity
    /// mask.
    pub fn score_aware_exclusive(&self) -> (r: ScoreAwareExclusiveDiarization)
        requires
            self.frame_speaker_support.0@.len() == self.discrete_diarization.0@.len(),
            self.frame_speaker_support.0.columns() == self.discrete_diarization.0.columns(),
            all_ranked(self.frame_speaker_support.0@, self.discrete_diarization.0@),
        ensures
            exclusive_of(
                self.frame_speaker_support.0@,
                self.discrete_diarization.0@,
                self.discrete_diarization.0.columns(),
                r.diarization.0@,
                r.frames@,
            ),
            r.diarization.0.columns() == self.discrete_diarization.0.columns(),
    {
        score_aware_exclusive(&self.frame_speaker_support.0, &self.discrete_diarization.0)
    }
}

} // verus!
