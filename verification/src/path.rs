//! The calmest path through a run of frames, each of which leaves a choice of speakers.
//!
//! A path names one of its choices in every frame. The best path changes speaker as rarely as
//! any; among equals it is the one with the smallest last speaker, then the smallest before
//! that, and so on.
use vstd::prelude::*;

verus! {

/// Whether `path` names one of its choices in every frame.
pub open spec fn is_path(choices: Seq<Seq<usize>>, path: Seq<usize>) -> bool {
    &&& path.len() == choices.len()
    &&& forall|i: int| 0 <= i < path.len() ==> choices[i].contains(#[trigger] path[i])
}

/// One where two neighbouring frames have different speakers.
pub open spec fn change(a: usize, b: usize) -> nat {
    if a == b {
        0
    } else {
        1
    }
}

/// How often the speaker changes among the first `n` frames.
pub open spec fn changes(path: Seq<usize>, n: nat) -> nat
    decreases n,
{
    if n <= 1 {
        0
    } else {
        changes(path, (n - 1) as nat) + change(path[n - 2], path[n - 1])
    }
}

/// How often the speaker changes along `path`.
pub open spec fn switches(path: Seq<usize>) -> nat {
    changes(path, path.len())
}

/// Whether `p` comes no later than `q` when paths are compared from their last frame.
pub open spec fn ordered(p: Seq<usize>, q: Seq<usize>) -> bool
    decreases p.len(),
{
    if p.len() == 0 || q.len() == 0 {
        true
    } else {
        p.last() < q.last() || (p.last() == q.last() && ordered(p.drop_last(), q.drop_last()))
    }
}

/// Whether `p` changes speaker less often than `q`, or as often and comes no later.
pub open spec fn no_worse(p: Seq<usize>, q: Seq<usize>) -> bool {
    switches(p) < switches(q) || (switches(p) == switches(q) && ordered(p, q))
}

/// Whether `path` is the best path through `choices`.
pub open spec fn best_path(choices: Seq<Seq<usize>>, path: Seq<usize>) -> bool {
    &&& is_path(choices, path)
    &&& forall|other: Seq<usize>| #[trigger] is_path(choices, other) ==> no_worse(path, other)
}

/// Whether `path` is the best of the paths that end in `speaker`.
pub open spec fn best_ending(choices: Seq<Seq<usize>>, path: Seq<usize>, speaker: usize) -> bool {
    &&& is_path(choices, path)
    &&& path.len() > 0
    &&& path.last() == speaker
    &&& forall|other: Seq<usize>| #[trigger]
        is_path(choices, other) && other.last() == speaker ==> no_worse(path, other)
}

/// Whether every frame leaves a choice, and only of speakers below `speakers`.
pub open spec fn choosable(choices: Seq<Seq<usize>>, speakers: nat) -> bool {
    forall|i: int|
        0 <= i < choices.len() ==> {
            &&& (#[trigger] choices[i]).len() > 0
            &&& forall|k: int| 0 <= k < choices[i].len() ==> #[trigger] choices[i][k] < speakers
        }
}

/// Changes depend on the frames that are counted and on no others.
pub proof fn lemma_changes_prefix(p: Seq<usize>, q: Seq<usize>, n: nat)
    requires
        n <= p.len(),
        n <= q.len(),
        forall|i: int| 0 <= i < n ==> p[i] == q[i],
    ensures
        changes(p, n) == changes(q, n),
    decreases n,
{
    if n > 1 {
        lemma_changes_prefix(p, q, (n - 1) as nat);
    }
}

/// One more frame adds one change or none.
pub proof fn lemma_switches_push(p: Seq<usize>, s: usize)
    requires
        p.len() > 0,
    ensures
        switches(p.push(s)) == switches(p) + change(p.last(), s),
{
    let q = p.push(s);
    lemma_changes_prefix(p, q, p.len());
    assert(changes(q, q.len()) == changes(q, p.len()) + change(q[p.len() - 1], q[p.len() as int]));
}

/// There are fewer changes than frames.
pub proof fn lemma_changes_bound(p: Seq<usize>, n: nat)
    ensures
        n > 0 ==> changes(p, n) < n,
    decreases n,
{
    if n > 1 {
        lemma_changes_bound(p, (n - 1) as nat);
    }
}

/// The order of paths is antisymmetric.
pub proof fn lemma_ordered_antisymmetric(p: Seq<usize>, q: Seq<usize>)
    requires
        p.len() == q.len(),
        ordered(p, q),
        ordered(q, p),
    ensures
        p == q,
    decreases p.len(),
{
    if p.len() > 0 {
        lemma_ordered_antisymmetric(p.drop_last(), q.drop_last());
        assert(p =~= p.drop_last().push(p.last()));
        assert(q =~= q.drop_last().push(q.last()));
    } else {
        assert(p =~= q);
    }
}

/// No two different paths are both the best one.
pub proof fn law_best_path_is_unique(choices: Seq<Seq<usize>>, p: Seq<usize>, q: Seq<usize>)
    requires
        best_path(choices, p),
        best_path(choices, q),
    ensures
        p == q,
{
    assert(no_worse(p, q));
    assert(no_worse(q, p));
    lemma_ordered_antisymmetric(p, q);
}

/// The best path to a speaker continues the best path to the best speaker before.
proof fn lemma_best_extends(
    choices: Seq<Seq<usize>>,
    next: Seq<usize>,
    before: Seq<Seq<usize>>,
    parent: usize,
    speaker: usize,
)
    requires
        choices.len() > 0,
        next.contains(speaker),
        choices.last().contains(parent),
        forall|r: usize|
            choices.last().contains(r) ==> best_ending(choices, #[trigger] before[r as int], r),
        forall|r: usize|
            #![trigger before[r as int]]
            choices.last().contains(r) ==> {
                let mine = switches(before[parent as int]) + change(parent, speaker);
                let other = switches(before[r as int]) + change(r, speaker);
                mine < other || (mine == other && parent <= r)
            },
    ensures
        best_ending(choices.push(next), before[parent as int].push(speaker), speaker),
{
    let longer = choices.push(next);
    let head = before[parent as int];
    let path = head.push(speaker);
    lemma_switches_push(head, speaker);
    assert forall|i: int| 0 <= i < path.len() implies longer[i].contains(#[trigger] path[i]) by {
        if i < head.len() {
            assert(path[i] == head[i]);
        }
    }
    assert forall|other: Seq<usize>| #[trigger]
        is_path(longer, other) && other.last() == speaker implies no_worse(path, other) by {
        let start = other.drop_last();
        assert(other =~= start.push(speaker));
        assert forall|i: int| 0 <= i < start.len() implies choices[i].contains(
            #[trigger] start[i],
        ) by {
            assert(start[i] == other[i]);
            assert(longer[i].contains(other[i]));
        }
        assert(is_path(choices, start));
        let r = start.last();
        assert(choices[choices.len() - 1].contains(start[start.len() - 1]));
        assert(best_ending(choices, before[r as int], r));
        assert(no_worse(before[r as int], start));
        lemma_switches_push(start, speaker);
        assert(path.drop_last() =~= head);
        assert(other.drop_last() =~= start);
        assert(best_ending(choices, head, parent));
        if switches(path) == switches(other) {
            assert(parent <= r);
            if parent == r {
                assert(switches(head) == switches(start));
            }
            assert(ordered(head, start));
            assert(ordered(path, other));
        } else {
            assert(switches(path) < switches(other));
        }
    }
}

/// The best path of a single frame to one of its choices.
proof fn lemma_best_starts(first: Seq<usize>, speaker: usize)
    requires
        first.contains(speaker),
    ensures
        best_ending(seq![first], seq![speaker], speaker),
{
    let choices = seq![first];
    let path = seq![speaker];
    assert forall|other: Seq<usize>| #[trigger]
        is_path(choices, other) && other.last() == speaker implies no_worse(path, other) by {
        assert(other =~= path);
        assert(path.drop_last() =~= other.drop_last());
        assert(ordered(path.drop_last(), other.drop_last()));
    }
}

/// The choices of every frame as sequences.
pub open spec fn nested(choices: Seq<Vec<usize>>) -> Seq<Seq<usize>> {
    Seq::new(choices.len(), |i: int| choices[i]@)
}

/// The best speaker before `speaker` and the changes on the way through it.
fn best_parent(previous: &Vec<usize>, costs: &Vec<usize>, speaker: usize) -> (r: (usize, usize))
    requires
        previous@.len() > 0,
        forall|k: int| 0 <= k < previous@.len() ==> #[trigger] previous@[k] < costs@.len(),
        forall|k: int|
            0 <= k < previous@.len() ==> costs@[#[trigger] previous@[k] as int] < usize::MAX,
    ensures
        previous@.contains(r.1),
        r.0 == costs@[r.1 as int] + change(r.1, speaker),
        forall|q: usize| #[trigger]
            previous@.contains(q) ==> {
                let other = costs@[q as int] + change(q, speaker);
                r.0 < other || (r.0 == other && r.1 <= q)
            },
{
    let mut best_cost: usize = 0;
    let mut best: usize = 0;
    let mut k: usize = 0;
    while k < previous.len()
        invariant
            k <= previous@.len(),
            forall|i: int| 0 <= i < previous@.len() ==> #[trigger] previous@[i] < costs@.len(),
            forall|i: int|
                0 <= i < previous@.len() ==> costs@[#[trigger] previous@[i] as int] < usize::MAX,
            k > 0 ==> {
                &&& exists|i: int| 0 <= i < k && #[trigger] previous@[i] == best
                &&& best_cost == costs@[best as int] + change(best, speaker)
            },
            forall|i: int|
                0 <= i < k ==> {
                    let q = #[trigger] previous@[i];
                    let other = costs@[q as int] + change(q, speaker);
                    best_cost < other || (best_cost == other && best <= q)
                },
        decreases previous@.len() - k,
    {
        let candidate: usize = previous[k];
        let cost: usize = if candidate == speaker {
            costs[candidate]
        } else {
            costs[candidate] + 1
        };
        if k == 0 || cost < best_cost || (cost == best_cost && candidate < best) {
            best_cost = cost;
            best = candidate;
        }
        k = k + 1;
    }
    (best_cost, best)
}

/// The speaker in which the best path ends.
fn best_end(choices: &Vec<usize>, costs: &Vec<usize>) -> (r: usize)
    requires
        choices@.len() > 0,
        forall|k: int| 0 <= k < choices@.len() ==> #[trigger] choices@[k] < costs@.len(),
    ensures
        choices@.contains(r),
        forall|q: usize| #[trigger]
            choices@.contains(q) ==> {
                costs@[r as int] < costs@[q as int] || (costs@[r as int] == costs@[q as int] && r
                    <= q)
            },
{
    let mut best: usize = choices[0];
    let mut k: usize = 1;
    while k < choices.len()
        invariant
            1 <= k <= choices@.len(),
            best < costs@.len(),
            forall|i: int| 0 <= i < choices@.len() ==> #[trigger] choices@[i] < costs@.len(),
            exists|i: int| 0 <= i < k && #[trigger] choices@[i] == best,
            forall|i: int|
                0 <= i < k ==> {
                    let q = #[trigger] choices@[i];
                    costs@[best as int] < costs@[q as int] || (costs@[best as int]
                        == costs@[q as int] && best <= q)
                },
        decreases choices@.len() - k,
    {
        let candidate: usize = choices[k];
        if costs[candidate] < costs[best] || (costs[candidate] == costs[best] && candidate < best) {
            best = candidate;
        }
        k = k + 1;
    }
    best
}

/// What is known of one frame once the best paths to all its choices are.
spec fn settled(
    choices: Seq<Seq<usize>>,
    best: Seq<Seq<usize>>,
    costs: Seq<usize>,
    speakers: nat,
) -> bool {
    &&& costs.len() == speakers
    &&& forall|s: usize| #[trigger]
        choices.last().contains(s) ==> {
            &&& best_ending(choices, best[s as int], s)
            &&& costs[s as int] == switches(best[s as int])
        }
}

/// The costs of the best paths that stop at the first frame.
fn first_costs(choices: &Vec<usize>, speakers: usize) -> (r: Vec<usize>)
    requires
        forall|k: int| 0 <= k < choices@.len() ==> #[trigger] choices@[k] < speakers,
    ensures
        r@.len() == speakers,
        forall|s: usize| #[trigger] choices@.contains(s) ==> r@[s as int] == 0,
{
    let mut costs: Vec<usize> = vec![usize::MAX / 4; speakers];
    let mut k: usize = 0;
    while k < choices.len()
        invariant
            k <= choices@.len(),
            costs@.len() == speakers,
            forall|i: int| 0 <= i < choices@.len() ==> #[trigger] choices@[i] < speakers,
            forall|i: int| 0 <= i < k ==> costs@[#[trigger] choices@[i] as int] == 0,
        decreases choices@.len() - k,
    {
        costs.set(choices[k], 0);
        k = k + 1;
    }
    costs
}

/// The costs of the best paths that stop at the next frame, and the speaker each came from.
fn next_costs(
    previous: &Vec<usize>,
    choices: &Vec<usize>,
    costs: &Vec<usize>,
    speakers: usize,
) -> (r: (Vec<usize>, Vec<usize>))
    requires
        previous@.len() > 0,
        costs@.len() == speakers,
        forall|k: int| 0 <= k < previous@.len() ==> #[trigger] previous@[k] < speakers,
        forall|k: int|
            0 <= k < previous@.len() ==> costs@[#[trigger] previous@[k] as int] < usize::MAX,
        forall|k: int| 0 <= k < choices@.len() ==> #[trigger] choices@[k] < speakers,
    ensures
        r.0@.len() == speakers,
        r.1@.len() == speakers,
        forall|s: usize| #[trigger]
            choices@.contains(s) ==> {
                let parent = r.1@[s as int];
                &&& previous@.contains(parent)
                &&& r.0@[s as int] == costs@[parent as int] + change(parent, s)
                &&& forall|q: usize| #[trigger]
                    previous@.contains(q) ==> {
                        let other = costs@[q as int] + change(q, s);
                        r.0@[s as int] < other || (r.0@[s as int] == other && parent <= q)
                    }
            },
{
    let mut reached: Vec<usize> = vec![usize::MAX / 4; speakers];
    let mut parents: Vec<usize> = vec![usize::MAX; speakers];
    let mut k: usize = 0;
    while k < choices.len()
        invariant
            k <= choices@.len(),
            previous@.len() > 0,
            costs@.len() == speakers,
            reached@.len() == speakers,
            parents@.len() == speakers,
            forall|i: int| 0 <= i < previous@.len() ==> #[trigger] previous@[i] < speakers,
            forall|i: int|
                0 <= i < previous@.len() ==> costs@[#[trigger] previous@[i] as int] < usize::MAX,
            forall|i: int| 0 <= i < choices@.len() ==> #[trigger] choices@[i] < speakers,
            forall|i: int|
                0 <= i < k ==> {
                    let s = #[trigger] choices@[i];
                    let parent = parents@[s as int];
                    &&& previous@.contains(parent)
                    &&& reached@[s as int] == costs@[parent as int] + change(parent, s)
                    &&& forall|q: usize| #[trigger]
                        previous@.contains(q) ==> {
                            let other = costs@[q as int] + change(q, s);
                            reached@[s as int] < other || (reached@[s as int] == other && parent
                                <= q)
                        }
                },
        decreases choices@.len() - k,
    {
        let speaker: usize = choices[k];
        let (cost, parent): (usize, usize) = best_parent(previous, costs, speaker);
        reached.set(speaker, cost);
        parents.set(speaker, parent);
        k = k + 1;
    }
    (reached, parents)
}

/// The best path through `choices`.
pub fn best_path_through(choices: &Vec<Vec<usize>>, speakers: usize) -> (r: Vec<usize>)
    requires
        choices@.len() > 0,
        choices@.len() <= usize::MAX / 4,
        choosable(nested(choices@), speakers as nat),
    ensures
        best_path(nested(choices@), r@),
{
    let frames: usize = choices.len();
    let ghost all = nested(choices@);
    let mut costs: Vec<Vec<usize>> = Vec::new();
    let mut parents: Vec<Vec<usize>> = Vec::new();
    proof {
        assert(all[0] == choices@[0]@);
    }
    costs.push(first_costs(&choices[0], speakers));
    parents.push(vec![usize::MAX; speakers]);
    let ghost mut best: Seq<Seq<Seq<usize>>> = seq![
        Seq::new(speakers as nat, |s: int| seq![s as usize]),
    ];
    proof {
        let first = all.take(1);
        assert(first =~= seq![all[0]]);
        assert forall|s: usize| #[trigger] first.last().contains(s) implies {
            &&& best_ending(first, best[0][s as int], s)
            &&& costs@[0]@[s as int] == switches(best[0][s as int])
        } by {
            assert(choices@[0]@.contains(s));
            let k = choose|k: int| 0 <= k < all[0].len() && all[0][k] == s;
            assert(all[0][k] < speakers);
            lemma_best_starts(all[0], s);
            assert(best[0][s as int] =~= seq![s]);
        }
        assert(settled(first, best[0], costs@[0]@, speakers as nat));
    }
    let mut offset: usize = 1;
    while offset < frames
        invariant
            1 <= offset <= frames,
            frames == choices@.len(),
            frames <= usize::MAX / 4,
            all == nested(choices@),
            choosable(all, speakers as nat),
            costs@.len() == offset,
            parents@.len() == offset,
            best.len() == offset,
            forall|o: int|
                0 <= o < offset ==> settled(
                    all.take(o + 1),
                    #[trigger] best[o],
                    costs@[o]@,
                    speakers as nat,
                ),
            forall|o: int|
                0 <= o < offset ==> (#[trigger] parents@[o])@.len() == speakers,
            forall|o: int, s: usize|
                1 <= o < offset && #[trigger] all[o].contains(s) ==> {
                    let parent = (#[trigger] parents@[o])@[s as int];
                    &&& all[o - 1].contains(parent)
                    &&& best[o][s as int] == best[o - 1][parent as int].push(s)
                },
        decreases frames - offset,
    {
        let ghost before = all.take(offset as int);
        let ghost after = all.take(offset + 1);
        proof {
            assert(before.last() == all[offset - 1]);
            assert(all[offset - 1] == choices@[offset - 1]@);
            assert(all[offset as int] == choices@[offset as int]@);
            assert(settled(before, best[offset - 1], costs@[offset - 1]@, speakers as nat));
            assert forall|k: int| 0 <= k < choices@[offset - 1]@.len() implies
                costs@[offset - 1]@[#[trigger] choices@[offset - 1]@[k] as int] < usize::MAX by {
                let s = choices@[offset - 1]@[k];
                assert(before.last().contains(s));
                let p = best[offset - 1][s as int];
                lemma_changes_bound(p, p.len());
            }
            assert forall|k: int| 0 <= k < choices@[offset as int]@.len() implies
                #[trigger] choices@[offset as int]@[k] < speakers by {
                assert(all[offset as int][k] < speakers);
            }
            assert forall|k: int| 0 <= k < choices@[offset - 1]@.len() implies
                #[trigger] choices@[offset - 1]@[k] < speakers by {
                assert(all[offset - 1][k] < speakers);
            }
        }
        let (reached, from): (Vec<usize>, Vec<usize>) = next_costs(
            &choices[offset - 1],
            &choices[offset],
            &costs[offset - 1],
            speakers,
        );
        proof {
            let row = Seq::new(
                speakers as nat,
                |s: int| best[offset - 1][from@[s] as int].push(s as usize),
            );
            assert(after =~= before.push(all[offset as int]));
            assert forall|s: usize| #[trigger] after.last().contains(s) implies {
                &&& best_ending(after, row[s as int], s)
                &&& reached@[s as int] == switches(row[s as int])
                &&& all[offset - 1].contains(from@[s as int])
                &&& row[s as int] == best[offset - 1][from@[s as int] as int].push(s)
            } by {
                assert(choices@[offset as int]@.contains(s));
                let k = choose|k: int|
                    0 <= k < all[offset as int].len() && all[offset as int][k] == s;
                assert(all[offset as int][k] < speakers);
                let parent = from@[s as int];
                assert(choices@[offset - 1]@.contains(parent));
                assert forall|r: usize| before.last().contains(r) implies best_ending(
                    before,
                    #[trigger] best[offset - 1][r as int],
                    r,
                ) by {}
                assert forall|r: usize|
                    #![trigger best[offset - 1][r as int]]
                    before.last().contains(r) implies {
                    let mine = switches(best[offset - 1][parent as int]) + change(parent, s);
                    let other = switches(best[offset - 1][r as int]) + change(r, s);
                    mine < other || (mine == other && parent <= r)
                } by {
                    assert(before.last().contains(parent));
                    assert(choices@[offset - 1]@.contains(r));
                }
                lemma_best_extends(before, all[offset as int], best[offset - 1], parent, s);
                lemma_switches_push(best[offset - 1][parent as int], s);
            }
            assert(settled(after, row, reached@, speakers as nat));
            best = best.push(row);
            assert(after.last() == all[offset as int]);
        }
        costs.push(reached);
        parents.push(from);
        offset = offset + 1;
    }
    proof {
        assert(all.take(frames as int) =~= all);
        assert(all[frames - 1] == choices@[frames - 1]@);
        assert(settled(all, best[frames - 1], costs@[frames - 1]@, speakers as nat));
        assert forall|k: int| 0 <= k < choices@[frames - 1]@.len() implies
            #[trigger] choices@[frames - 1]@[k] < speakers by {
            assert(all[frames - 1][k] < speakers);
        }
    }
    let last: usize = best_end(&choices[frames - 1], &costs[frames - 1]);
    let ghost target = best[frames - 1][last as int];
    proof {
        assert(all.last().contains(last));
        assert forall|other: Seq<usize>| #[trigger] is_path(all, other) implies no_worse(
            target,
            other,
        ) by {
            let r = other.last();
            assert(all[frames - 1].contains(other[frames - 1]));
            assert(choices@[frames - 1]@.contains(r));
            assert(all.last().contains(r));
            assert(no_worse(best[frames - 1][r as int], other));
        }
        assert(best_path(all, target));
    }
    let mut selected: Vec<usize> = vec![0; frames];
    selected.set(frames - 1, last);
    let mut o: usize = frames - 1;
    proof {
        assert(target.take(frames as int) =~= target);
        assert forall|i: int, s: usize|
            0 <= i < frames && #[trigger] all[i].contains(s) implies best[i][s as int].len() > 0
            && best[i][s as int].last() == s by {
            assert(settled(all.take(i + 1), best[i], costs@[i]@, speakers as nat));
            assert(all.take(i + 1).last() == all[i]);
        }
    }
    while o > 0
        invariant
            o < frames,
            frames == choices@.len(),
            all == nested(choices@),
            choosable(all, speakers as nat),
            parents@.len() == frames,
            best.len() == frames,
            selected@.len() == frames,
            target.len() == frames,
            all[o as int].contains(selected@[o as int]),
            best[o as int][selected@[o as int] as int] == target.take(o + 1),
            forall|i: int| o <= i < frames ==> #[trigger] selected@[i] == target[i],
            forall|i: int|
                0 <= i < frames ==> (#[trigger] parents@[i])@.len() == speakers,
            forall|i: int, s: usize|
                1 <= i < frames && #[trigger] all[i].contains(s) ==> {
                    let parent = (#[trigger] parents@[i])@[s as int];
                    &&& all[i - 1].contains(parent)
                    &&& best[i][s as int] == best[i - 1][parent as int].push(s)
                },
            forall|i: int, s: usize|
                0 <= i < frames && #[trigger] all[i].contains(s) ==> best[i][s as int].len() > 0
                    && best[i][s as int].last() == s,
        decreases o,
    {
        let speaker: usize = selected[o];
        proof {
            let k = choose|k: int| 0 <= k < all[o as int].len() && all[o as int][k] == speaker;
            assert(all[o as int][k] < speakers);
        }
        let parent: usize = parents[o][speaker];
        selected.set(o - 1, parent);
        proof {
            let shorter = best[o - 1][parent as int];
            assert(parents@[o as int]@[speaker as int] == parent);
            assert(best[o as int][speaker as int] == shorter.push(speaker));
            assert(shorter =~= target.take(o + 1).drop_last());
            assert(shorter =~= target.take(o as int));
            assert(shorter.last() == target[o - 1]);
        }
        o = o - 1;
    }
    proof {
        assert(selected@ =~= target);
    }
    selected
}

} // verus!
