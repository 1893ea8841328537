//! What holds of every exclusive reconstruction.
use crate::exclusive::{
    active, anchor_of, blank, carries, component_choices, component_resolved, continuous,
    decision_of, exclusive_of, has_activity, is_component, is_maximum, is_runner_up,
    lemma_maxima_below, maxima_of, only, run_end, run_start, selection, strongest, tells,
};
use crate::grid::rectangular;
use crate::path::{
    best_path, change, changes, is_path, law_best_path_is_unique, lemma_changes_prefix, no_worse,
};
use crate::score::{same, total_key};
use crate::types::{ExclusiveFrameDecision, ExclusiveFrameEvidence};
use vstd::prelude::*;

verus! {

/// The first frame of the run of active frames that ends in `f`.
proof fn lemma_component_start(ordinary: Seq<Seq<u32>>, f: int) -> (start: int)
    requires
        0 <= f < ordinary.len(),
        has_activity(ordinary[f]),
    ensures
        0 <= start <= f,
        forall|g: int| start <= g <= f ==> has_activity(#[trigger] ordinary[g]),
        start == 0 || !has_activity(ordinary[start - 1]),
    decreases f,
{
    if f == 0 || !has_activity(ordinary[f - 1]) {
        f
    } else {
        lemma_component_start(ordinary, f - 1)
    }
}

/// The end of the run of active frames that starts with `f`.
proof fn lemma_component_end(ordinary: Seq<Seq<u32>>, f: int) -> (end: int)
    requires
        0 <= f < ordinary.len(),
        has_activity(ordinary[f]),
    ensures
        f < end <= ordinary.len(),
        forall|g: int| f <= g < end ==> has_activity(#[trigger] ordinary[g]),
        end == ordinary.len() || !has_activity(ordinary[end]),
    decreases ordinary.len() - f,
{
    if f + 1 == ordinary.len() || !has_activity(ordinary[f + 1]) {
        f + 1
    } else {
        lemma_component_end(ordinary, f + 1)
    }
}

/// Every active frame lies in a component.
pub(crate) proof fn lemma_component_of(ordinary: Seq<Seq<u32>>, f: int) -> (r: (int, int))
    requires
        0 <= f < ordinary.len(),
        has_activity(ordinary[f]),
    ensures
        r.0 <= f < r.1,
        is_component(ordinary, r.0, r.1),
{
    let start = lemma_component_start(ordinary, f);
    let end = lemma_component_end(ordinary, f);
    assert forall|g: int| start <= g < end implies has_activity(#[trigger] ordinary[g]) by {}
    (start, end)
}

/// A frame speaks in the exclusive timeline exactly when it does in the mask. A frame that
/// speaks has one speaker, who is active in the mask with a support equal to the greatest.
pub proof fn law_one_speaker_of_greatest_support(
    support: Seq<Seq<u32>>,
    ordinary: Seq<Seq<u32>>,
    columns: nat,
    output: Seq<Seq<u32>>,
    frames: Seq<ExclusiveFrameEvidence>,
    f: int,
)
    requires
        exclusive_of(support, ordinary, columns, output, frames),
        rectangular(ordinary, columns),
        columns <= usize::MAX,
        0 <= f < ordinary.len(),
    ensures
        frames[f].speaker_idx is Some <==> has_activity(ordinary[f]),
        frames[f].decision is Some <==> has_activity(ordinary[f]),
        match frames[f].speaker_idx {
            Some(s) => is_maximum(support[f], ordinary[f], s as int) && output[f] == only(
                columns,
                s,
            ),
            None => output[f] == blank(columns),
        },
{
    if has_activity(ordinary[f]) {
        let (start, end) = lemma_component_of(ordinary, f);
        assert(component_resolved(support, ordinary, columns, start, end, output, frames));
        let choices = component_choices(support, ordinary, start, end);
        let selected = selection(frames, start, end);
        assert(tells(
            support[f],
            ordinary[f],
            selected[f - start],
            decision_of(choices, selected, f - start),
            frames[f],
        ));
        assert(choices[f - start].contains(selected[f - start]));
        lemma_maxima_below(support[f], ordinary[f], ordinary[f].len());
    }
}

/// No frame has two different runners-up.
proof fn lemma_runner_up_unique(
    support: Seq<u32>,
    ordinary: Seq<u32>,
    speaker: usize,
    a: Option<usize>,
    b: Option<usize>,
)
    requires
        is_runner_up(support, ordinary, speaker, a),
        is_runner_up(support, ordinary, speaker, b),
    ensures
        a == b,
{
    match (a, b) {
        (Some(x), Some(y)) => {
            assert(active(ordinary, x as int) && active(ordinary, y as int));
        },
        (Some(x), None) => {
            assert(active(ordinary, x as int));
        },
        (None, Some(y)) => {
            assert(active(ordinary, y as int));
        },
        (None, None) => {},
    }
}

/// The support and the mask determine the whole timeline and its evidence.
pub proof fn law_tables_determine_the_timeline(
    support: Seq<Seq<u32>>,
    ordinary: Seq<Seq<u32>>,
    columns: nat,
    output: Seq<Seq<u32>>,
    frames: Seq<ExclusiveFrameEvidence>,
    other_output: Seq<Seq<u32>>,
    other_frames: Seq<ExclusiveFrameEvidence>,
)
    requires
        exclusive_of(support, ordinary, columns, output, frames),
        exclusive_of(support, ordinary, columns, other_output, other_frames),
    ensures
        output == other_output,
        frames == other_frames,
{
    assert forall|f: int| 0 <= f < ordinary.len() implies frames[f] == other_frames[f]
        && output[f] == other_output[f] by {
        if has_activity(ordinary[f]) {
            let (start, end) = lemma_component_of(ordinary, f);
            assert(component_resolved(support, ordinary, columns, start, end, output, frames));
            assert(component_resolved(
                support,
                ordinary,
                columns,
                start,
                end,
                other_output,
                other_frames,
            ));
            let choices = component_choices(support, ordinary, start, end);
            let selected = selection(frames, start, end);
            let other = selection(other_frames, start, end);
            law_best_path_is_unique(choices, selected, other);
            let decision = decision_of(choices, selected, f - start);
            assert(tells(support[f], ordinary[f], selected[f - start], decision, frames[f]));
            assert(tells(support[f], ordinary[f], other[f - start], decision, other_frames[f]));
            lemma_runner_up_unique(
                support[f],
                ordinary[f],
                selected[f - start],
                frames[f].runner_up_speaker_idx,
                other_frames[f].runner_up_speaker_idx,
            );
        }
    }
    assert(frames =~= other_frames);
    assert(output =~= other_output);
}

/// Two different speakers are never reached without a change between them.
proof fn lemma_changes_between(p: Seq<usize>, i: int, j: int)
    requires
        0 <= i <= j < p.len(),
    ensures
        changes(p, (i + 1) as nat) <= changes(p, (j + 1) as nat),
        p[i] != p[j] ==> changes(p, (i + 1) as nat) < changes(p, (j + 1) as nat),
    decreases j - i,
{
    if i < j {
        lemma_changes_between(p, i, j - 1);
    }
}

/// Paths that agree from frame `m - 1` on change alike from there.
proof fn lemma_changes_tail(p: Seq<usize>, q: Seq<usize>, m: nat, n: nat)
    requires
        0 < m <= n <= p.len(),
        p.len() == q.len(),
        forall|i: int| m - 1 <= i < n ==> #[trigger] p[i] == q[i],
    ensures
        changes(p, n) - changes(p, m) == changes(q, n) - changes(q, m),
    decreases n,
{
    if n > m {
        lemma_changes_tail(p, q, m, (n - 1) as nat);
        assert(p[n - 1] == q[n - 1] && p[n - 2] == q[n - 2]);
    }
}

/// A stretch of one speaker holds no change.
proof fn lemma_changes_constant(p: Seq<usize>, i: int, j: int)
    requires
        0 <= i <= j < p.len(),
        forall|k: int| i <= k <= j ==> #[trigger] p[k] == p[i],
    ensures
        changes(p, (j + 1) as nat) == changes(p, (i + 1) as nat),
    decreases j - i,
{
    if i < j {
        lemma_changes_constant(p, i, j - 1);
        assert(p[j] == p[i] && p[j - 1] == p[i]);
    }
}

/// Whether the frames around a tied run agree on a speaker whom every tied frame has among
/// its choices.
pub open spec fn anchored(choices: Seq<Seq<usize>>, start: int, end: int) -> bool {
    match anchor_of(choices, start, end) {
        Some(speaker) => forall|k: int|
            start <= k < end ==> (#[trigger] choices[k]).contains(speaker),
        None => false,
    }
}

/// A best path stays with the anchor of an anchored run.
proof fn lemma_best_path_keeps_anchor(
    choices: Seq<Seq<usize>>,
    p: Seq<usize>,
    start: int,
    end: int,
    k: int,
)
    requires
        best_path(choices, p),
        0 <= start <= k < end <= choices.len(),
        start == 0 || choices[start - 1].len() == 1,
        end == choices.len() || choices[end].len() == 1,
        anchored(choices, start, end),
    ensures
        Some(p[k]) == anchor_of(choices, start, end),
{
    let x = anchor_of(choices, start, end)->0;
    let n = p.len();
    if p[k] != x {
        let q = Seq::new(
            n,
            |i: int|
                if start <= i < end {
                    x
                } else {
                    p[i]
                },
        );
        assert forall|i: int| 0 <= i < n implies choices[i].contains(#[trigger] q[i]) by {
            assert(choices[i].contains(p[i]));
        }
        assert(is_path(choices, q));
        if start > 0 {
            assert(choices[start - 1].contains(p[start - 1]));
            assert(p[start - 1] == choices[start - 1][0]);
            assert(p[start - 1] == x);
        }
        if end < n {
            assert(choices[end].contains(p[end]));
            assert(p[end] == choices[end][0]);
            assert(p[end] == x);
        }
        let from = if start > 0 {
            start - 1
        } else {
            0
        };
        let to = if end < n {
            end
        } else {
            end - 1
        };
        lemma_changes_prefix(p, q, start as nat);
        assert(changes(p, (from + 1) as nat) == changes(q, (from + 1) as nat));
        assert forall|i: int| from <= i <= to implies #[trigger] q[i] == q[from] by {}
        lemma_changes_constant(q, from, to);
        lemma_changes_between(p, from, k);
        lemma_changes_between(p, k, to);
        assert(changes(p, (to + 1) as nat) > changes(p, (from + 1) as nat));
        lemma_changes_tail(p, q, (to + 1) as nat, n);
        assert(no_worse(p, q));
        assert(false);
    }
}

/// Whether a tie is settled by continuity is a matter of the choices alone: the best path
/// keeps the surrounding speaker wherever it can.
pub proof fn law_continuity_follows_the_anchor(
    choices: Seq<Seq<usize>>,
    p: Seq<usize>,
    start: int,
    end: int,
)
    requires
        best_path(choices, p),
        0 <= start < end <= choices.len(),
        start == 0 || choices[start - 1].len() == 1,
        end == choices.len() || choices[end].len() == 1,
    ensures
        continuous(choices, p, start, end) == anchored(choices, start, end),
{
    if anchored(choices, start, end) {
        let x = anchor_of(choices, start, end)->0;
        assert forall|k: int| start <= k < end implies (#[trigger] choices[k]).contains(x) && p[k]
            == x by {
            lemma_best_path_keeps_anchor(choices, p, start, end, k);
        }
        assert(carries(choices, p, x, start, end));
    }
}

/// Whether `perm` reorders `columns` speakers and `inverse` puts them back.
pub open spec fn reorders(perm: Seq<usize>, inverse: Seq<usize>, columns: nat) -> bool {
    &&& perm.len() == columns
    &&& inverse.len() == columns
    &&& forall|s: int|
        0 <= s < columns ==> #[trigger] perm[s] < columns && inverse[perm[s] as int] == s
    &&& forall|s: int|
        0 <= s < columns ==> #[trigger] inverse[s] < columns && perm[inverse[s] as int] == s
}

/// Whether `moved` is `row` with the cell of every speaker at its new place.
pub open spec fn relabelled_row(row: Seq<u32>, moved: Seq<u32>, perm: Seq<usize>) -> bool {
    &&& row.len() == perm.len()
    &&& moved.len() == perm.len()
    &&& forall|s: int| 0 <= s < perm.len() ==> moved[#[trigger] perm[s] as int] == row[s]
}

/// Whether every row of `moved` is the row of `rows` with the speakers at their new places.
pub open spec fn relabelled(
    rows: Seq<Seq<u32>>,
    moved: Seq<Seq<u32>>,
    perm: Seq<usize>,
) -> bool {
    &&& rows.len() == moved.len()
    &&& forall|f: int|
        0 <= f < rows.len() ==> relabelled_row(#[trigger] rows[f], moved[f], perm)
}

/// The maxima of a reordered frame are the reordered maxima.
proof fn lemma_maximum_moves(
    support: Seq<u32>,
    ordinary: Seq<u32>,
    moved_support: Seq<u32>,
    moved_ordinary: Seq<u32>,
    perm: Seq<usize>,
    inverse: Seq<usize>,
    columns: nat,
)
    requires
        reorders(perm, inverse, columns),
        relabelled_row(support, moved_support, perm),
        relabelled_row(ordinary, moved_ordinary, perm),
    ensures
        has_activity(moved_ordinary) == has_activity(ordinary),
        forall|s: int|
            0 <= s < columns ==> (is_maximum(moved_support, moved_ordinary, #[trigger] perm[s] as int)
                == is_maximum(support, ordinary, s)),
{
    assert forall|s: int| 0 <= s < columns implies #[trigger] active(moved_ordinary, perm[s] as int)
        == active(ordinary, s) by {}
    if has_activity(ordinary) {
        let s = choose|s: int| 0 <= s < ordinary.len() && #[trigger] active(ordinary, s);
        assert(active(moved_ordinary, perm[s] as int));
    }
    if has_activity(moved_ordinary) {
        let u = choose|u: int| 0 <= u < moved_ordinary.len() && #[trigger] active(moved_ordinary, u);
        let s = inverse[u] as int;
        assert(perm[s] == u);
        assert(active(moved_ordinary, perm[s] as int));
        assert(active(ordinary, s));
    }
    assert forall|t: int| 0 <= t < columns implies #[trigger] strongest(
        moved_support,
        moved_ordinary,
        perm[t] as int,
    ) == strongest(support, ordinary, t) by {
        let there = perm[t] as int;
        assert(active(moved_ordinary, there) == active(ordinary, t));
        if strongest(support, ordinary, t) {
            assert forall|u: int|
                0 <= u < moved_ordinary.len() && #[trigger] active(moved_ordinary, u) implies
                total_key(moved_support[u]) <= total_key(moved_support[there]) by {
                let v = inverse[u] as int;
                assert(perm[v] == u);
                assert(active(moved_ordinary, perm[v] as int) == active(ordinary, v));
            }
        }
        if strongest(moved_support, moved_ordinary, there) {
            assert forall|v: int|
                0 <= v < ordinary.len() && #[trigger] active(ordinary, v) implies total_key(
                support[v],
            ) <= total_key(support[t]) by {
                assert(active(moved_ordinary, perm[v] as int));
            }
        }
    }
    assert forall|s: int| 0 <= s < columns implies (is_maximum(
        moved_support,
        moved_ordinary,
        #[trigger] perm[s] as int,
    ) == is_maximum(support, ordinary, s)) by {
        let there = perm[s] as int;
        assert(active(moved_ordinary, there) == active(ordinary, s));
        if is_maximum(support, ordinary, s) {
            let t = choose|t: int| #[trigger]
                strongest(support, ordinary, t) && same(support[s], support[t]);
            assert(strongest(moved_support, moved_ordinary, perm[t] as int));
        }
        if is_maximum(moved_support, moved_ordinary, there) {
            let u = choose|u: int| #[trigger]
                strongest(moved_support, moved_ordinary, u) && same(
                    moved_support[there],
                    moved_support[u],
                );
            let t = inverse[u] as int;
            assert(perm[t] == u);
            assert(strongest(moved_support, moved_ordinary, perm[t] as int));
            assert(strongest(support, ordinary, t));
        }
    }
}

/// Whether `moved` offers the reordered speakers of `choices` in every frame.
spec fn choices_move(choices: Seq<Seq<usize>>, moved: Seq<Seq<usize>>, perm: Seq<usize>) -> bool {
    &&& choices.len() == moved.len()
    &&& forall|i: int|
        0 <= i < choices.len() ==> ((#[trigger] choices[i]).len() == 1 <==> moved[i].len() == 1)
    &&& forall|i: int|
        0 <= i < choices.len() && (#[trigger] choices[i]).len() == 1 ==> choices[i][0] < perm.len()
            && moved[i][0] == perm[choices[i][0] as int]
    &&& forall|i: int, s: usize|
        0 <= i < choices.len() && s < perm.len() ==> (#[trigger] choices[i].contains(s)
            <==> moved[i].contains(perm[s as int]))
}

/// The choices of one reordered frame.
proof fn lemma_frame_choices_move(
    support: Seq<u32>,
    ordinary: Seq<u32>,
    moved_support: Seq<u32>,
    moved_ordinary: Seq<u32>,
    perm: Seq<usize>,
    inverse: Seq<usize>,
    columns: nat,
)
    requires
        reorders(perm, inverse, columns),
        relabelled_row(support, moved_support, perm),
        relabelled_row(ordinary, moved_ordinary, perm),
        columns <= usize::MAX,
        maxima_of(support, ordinary).len() > 0,
        maxima_of(moved_support, moved_ordinary).len() > 0,
    ensures
        ({
            let here = maxima_of(support, ordinary);
            let there = maxima_of(moved_support, moved_ordinary);
            &&& here.len() == 1 <==> there.len() == 1
            &&& here.len() == 1 ==> here[0] < columns && there[0] == perm[here[0] as int]
            &&& forall|s: usize|
                s < columns ==> (#[trigger] here.contains(s) <==> there.contains(perm[s as int]))
        }),
{
    let here = maxima_of(support, ordinary);
    let there = maxima_of(moved_support, moved_ordinary);
    lemma_maximum_moves(
        support,
        ordinary,
        moved_support,
        moved_ordinary,
        perm,
        inverse,
        columns,
    );
    lemma_maxima_below(support, ordinary, columns);
    lemma_maxima_below(moved_support, moved_ordinary, columns);
    assert forall|s: usize| s < columns implies (#[trigger] here.contains(s) <==> there.contains(
        perm[s as int],
    )) by {
        let u = perm[s as int];
        assert(is_maximum(moved_support, moved_ordinary, perm[s as int] as int) == is_maximum(
            support,
            ordinary,
            s as int,
        ));
        assert(here.contains(s) == is_maximum(support, ordinary, s as int));
        assert(there.contains(u) == is_maximum(moved_support, moved_ordinary, u as int));
    }
    let first = here[0];
    assert(here.contains(first));
    let image = perm[first as int];
    assert(there.contains(image));
    if here.len() == 1 && there.len() != 1 {
        let a = inverse[there[0] as int];
        let b = inverse[there[1] as int];
        assert(there[0] < there[1]);
        assert(perm[a as int] == there[0] && perm[b as int] == there[1]);
        assert(there.contains(there[0]) && there.contains(there[1]));
        assert(here.contains(a) && here.contains(b));
    }
    if there.len() == 1 && here.len() != 1 {
        assert(here[0] < here[1]);
        assert(here.contains(here[1]));
        let second = perm[here[1] as int];
        assert(there.contains(second));
        assert(inverse[image as int] == here[0] && inverse[second as int] == here[1]);
    }
}

/// Reordered choices have the same runs.
proof fn lemma_runs_move(
    choices: Seq<Seq<usize>>,
    moved: Seq<Seq<usize>>,
    perm: Seq<usize>,
    i: int,
)
    requires
        choices_move(choices, moved, perm),
        0 <= i < choices.len(),
        choices[i].len() != 1,
    ensures
        run_start(moved, i) == run_start(choices, i),
        run_end(moved, i) == run_end(choices, i),
        0 <= run_start(choices, i) <= i < run_end(choices, i) <= choices.len(),
        run_start(choices, i) == 0 || choices[run_start(choices, i) - 1].len() == 1,
        run_end(choices, i) == choices.len() || choices[run_end(choices, i)].len() == 1,
{
    lemma_run_start_moves(choices, moved, perm, i);
    lemma_run_end_moves(choices, moved, perm, i);
}

/// Reordered choices have the same start of a run.
proof fn lemma_run_start_moves(
    choices: Seq<Seq<usize>>,
    moved: Seq<Seq<usize>>,
    perm: Seq<usize>,
    i: int,
)
    requires
        choices_move(choices, moved, perm),
        0 <= i < choices.len(),
    ensures
        run_start(moved, i) == run_start(choices, i),
        0 <= run_start(choices, i) <= i,
        run_start(choices, i) == 0 || choices[run_start(choices, i) - 1].len() == 1,
    decreases i,
{
    if i > 0 {
        assert(choices[i - 1].len() == 1 <==> moved[i - 1].len() == 1);
        if choices[i - 1].len() != 1 {
            lemma_run_start_moves(choices, moved, perm, i - 1);
        }
    }
}

/// Reordered choices have the same end of a run.
proof fn lemma_run_end_moves(
    choices: Seq<Seq<usize>>,
    moved: Seq<Seq<usize>>,
    perm: Seq<usize>,
    i: int,
)
    requires
        choices_move(choices, moved, perm),
        0 <= i < choices.len(),
    ensures
        run_end(moved, i) == run_end(choices, i),
        i < run_end(choices, i) <= choices.len(),
        run_end(choices, i) == choices.len() || choices[run_end(choices, i)].len() == 1,
    decreases choices.len() - i,
{
    if i + 1 < choices.len() {
        assert(choices[i + 1].len() == 1 <==> moved[i + 1].len() == 1);
        if choices[i + 1].len() != 1 {
            lemma_run_end_moves(choices, moved, perm, i + 1);
        }
    }
}

/// Reordered choices are anchored alike, at the reordered speaker.
proof fn lemma_anchor_moves(
    choices: Seq<Seq<usize>>,
    moved: Seq<Seq<usize>>,
    perm: Seq<usize>,
    inverse: Seq<usize>,
    start: int,
    end: int,
)
    requires
        reorders(perm, inverse, perm.len()),
        choices_move(choices, moved, perm),
        0 <= start < end <= choices.len(),
        start == 0 || choices[start - 1].len() == 1,
        end == choices.len() || choices[end].len() == 1,
    ensures
        anchored(moved, start, end) == anchored(choices, start, end),
        match anchor_of(choices, start, end) {
            Some(x) => x < perm.len() && anchor_of(moved, start, end) == Some(perm[x as int]),
            None => anchor_of(moved, start, end) is None,
        },
{
    if start > 0 && end < choices.len() {
        let l = choices[start - 1][0];
        let r = choices[end][0];
        assert(moved[start - 1][0] == perm[l as int] && moved[end][0] == perm[r as int]);
        assert(inverse[perm[l as int] as int] == l && inverse[perm[r as int] as int] == r);
    } else if start > 0 {
        assert(choices[start - 1].len() == 1);
    } else if end < choices.len() {
        assert(choices[end].len() == 1);
    }
    match anchor_of(choices, start, end) {
        Some(x) => {
            let y = perm[x as int];
            if anchored(choices, start, end) {
                assert forall|k: int| start <= k < end implies (#[trigger] moved[k]).contains(
                    y,
                ) by {
                    assert(choices[k].contains(x));
                }
            }
            if anchored(moved, start, end) {
                assert forall|k: int| start <= k < end implies (#[trigger] choices[k]).contains(
                    x,
                ) by {
                    assert(moved[k].contains(y));
                    assert(choices[k].contains(x) <==> moved[k].contains(perm[x as int]));
                }
            }
        },
        None => {},
    }
}

/// The order of the clusters matters only where nothing else decides: reordering them leaves
/// the reason for every frame as it was, and moves every speaker that was not chosen by
/// cluster order to its new place.
pub proof fn law_cluster_order_decides_only_fallbacks(
    support: Seq<Seq<u32>>,
    ordinary: Seq<Seq<u32>>,
    output: Seq<Seq<u32>>,
    frames: Seq<ExclusiveFrameEvidence>,
    moved_support: Seq<Seq<u32>>,
    moved_ordinary: Seq<Seq<u32>>,
    moved_output: Seq<Seq<u32>>,
    moved_frames: Seq<ExclusiveFrameEvidence>,
    perm: Seq<usize>,
    inverse: Seq<usize>,
    columns: nat,
    f: int,
)
    requires
        reorders(perm, inverse, columns),
        relabelled(support, moved_support, perm),
        relabelled(ordinary, moved_ordinary, perm),
        support.len() == ordinary.len(),
        columns <= usize::MAX,
        exclusive_of(support, ordinary, columns, output, frames),
        exclusive_of(moved_support, moved_ordinary, columns, moved_output, moved_frames),
        0 <= f < ordinary.len(),
    ensures
        moved_frames[f].decision == frames[f].decision,
        frames[f].decision != Some(ExclusiveFrameDecision::DeterministicFallback) ==> match (
        frames[f].speaker_idx) {
            Some(s) => s < columns && moved_frames[f].speaker_idx == Some(perm[s as int]),
            None => moved_frames[f].speaker_idx is None,
        },
{
    assert forall|g: int| 0 <= g < ordinary.len() implies has_activity(
        #[trigger] moved_ordinary[g],
    ) == has_activity(ordinary[g]) by {
        assert(relabelled_row(support[g], moved_support[g], perm));
        assert(relabelled_row(ordinary[g], moved_ordinary[g], perm));
        lemma_maximum_moves(
            support[g],
            ordinary[g],
            moved_support[g],
            moved_ordinary[g],
            perm,
            inverse,
            columns,
        );
    }
    assert(has_activity(moved_ordinary[f]) == has_activity(ordinary[f]));
    if has_activity(ordinary[f]) {
        let (start, end) = lemma_component_of(ordinary, f);
        assert forall|g: int| start <= g < end implies has_activity(
            #[trigger] moved_ordinary[g],
        ) by {
            assert(has_activity(ordinary[g]));
        }
        if start > 0 {
            assert(has_activity(moved_ordinary[start - 1]) == has_activity(ordinary[start - 1]));
        }
        if end < ordinary.len() {
            assert(has_activity(moved_ordinary[end]) == has_activity(ordinary[end]));
        }
        assert(is_component(moved_ordinary, start, end));
        assert(component_resolved(support, ordinary, columns, start, end, output, frames));
        assert(component_resolved(
            moved_support,
            moved_ordinary,
            columns,
            start,
            end,
            moved_output,
            moved_frames,
        ));
        let choices = component_choices(support, ordinary, start, end);
        let selected = selection(frames, start, end);
        let moved = component_choices(moved_support, moved_ordinary, start, end);
        let moved_selected = selection(moved_frames, start, end);
        assert forall|i: int| 0 <= i < choices.len() implies {
            let here = #[trigger] choices[i];
            let there = moved[i];
            &&& here.len() == 1 <==> there.len() == 1
            &&& here.len() == 1 ==> here[0] < columns && there[0] == perm[here[0] as int]
            &&& forall|s: usize|
                s < columns ==> (#[trigger] here.contains(s) <==> there.contains(perm[s as int]))
        } by {
            assert(choices[i].contains(selected[i]));
            assert(moved[i].contains(moved_selected[i]));
            assert(relabelled_row(support[start + i], moved_support[start + i], perm));
            assert(relabelled_row(ordinary[start + i], moved_ordinary[start + i], perm));
            lemma_frame_choices_move(
                support[start + i],
                ordinary[start + i],
                moved_support[start + i],
                moved_ordinary[start + i],
                perm,
                inverse,
                columns,
            );
        }
        assert(choices_move(choices, moved, perm));
        let i = f - start;
        assert(tells(
            support[f],
            ordinary[f],
            selected[i],
            decision_of(choices, selected, i),
            frames[f],
        ));
        assert(tells(
            moved_support[f],
            moved_ordinary[f],
            moved_selected[i],
            decision_of(moved, moved_selected, i),
            moved_frames[f],
        ));
        assert(choices[i].contains(selected[i]));
        assert(moved[i].contains(moved_selected[i]));
        assert(choices[i].len() == 1 <==> moved[i].len() == 1);
        if choices[i].len() == 1 {
            assert(selected[i] == choices[i][0]);
            assert(moved_selected[i] == moved[i][0]);
        } else {
            lemma_runs_move(choices, moved, perm, i);
            let a = run_start(choices, i);
            let b = run_end(choices, i);
            if a > 0 {
                assert(choices[a - 1].len() == 1 <==> moved[a - 1].len() == 1);
            }
            if b < choices.len() {
                assert(choices[b].len() == 1 <==> moved[b].len() == 1);
            }
            lemma_anchor_moves(choices, moved, perm, inverse, a, b);
            law_continuity_follows_the_anchor(choices, selected, a, b);
            law_continuity_follows_the_anchor(moved, moved_selected, a, b);
            if anchored(choices, a, b) {
                lemma_best_path_keeps_anchor(choices, selected, a, b, i);
                lemma_best_path_keeps_anchor(moved, moved_selected, a, b, i);
            }
        }
    }
}

} // verus!
