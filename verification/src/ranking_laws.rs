//! What picking the strongest speakers comes to, score by score.
use crate::arithmetic::{minus_of, Arithmetic};
use crate::ranking::{
    close, consistent, is_last_peak, kept, leads, louder, made_exclusive, outranks, steadier,
    top_k, top_k_smoothed,
};
use crate::reconstruct::{marked, previous_of, selects, selects_smoothed};
use crate::score::{less, magnitude, total_key, ONE, ZERO};
use vstd::prelude::*;

verus! {

/// The list of the strongest speakers of a row holds different speakers, `k` of them or all;
/// nobody outside it has a higher score than anyone in it, it runs from the highest score
/// down, and of two equal scores the one with the lower index comes first.
pub proof fn law_top_k_are_the_highest(row: Seq<u32>, k: nat, list: Seq<usize>)
    requires
        row.len() <= usize::MAX,
        top_k(row, k, list),
    ensures
        list.len() == if k < row.len() {
            k
        } else {
            row.len()
        },
        list.no_duplicates(),
        forall|a: int| 0 <= a < list.len() ==> #[trigger] list[a] < row.len(),
        forall|a: int, s: int|
            0 <= a < list.len() && 0 <= s < row.len() && !list.contains(s as usize) ==> {
                ||| total_key(row[#[trigger] list[a] as int]) > total_key(#[trigger] row[s])
                ||| total_key(row[list[a] as int]) == total_key(row[s]) && list[a] < s
            },
        k < row.len() ==> forall|a: int, b: int|
            0 <= a < b < list.len() ==> {
                let x = #[trigger] list[a];
                let y = #[trigger] list[b];
                ||| total_key(row[x as int]) > total_key(row[y as int])
                ||| total_key(row[x as int]) == total_key(row[y as int]) && x < y
            },
        k >= row.len() ==> forall|a: int| 0 <= a < list.len() ==> #[trigger] list[a] == a,
{
    let before = louder(row);
    if k < row.len() {
        assert forall|a: int, s: int|
            0 <= a < list.len() && 0 <= s < row.len() && !list.contains(s as usize) implies {
            ||| total_key(row[#[trigger] list[a] as int]) > total_key(#[trigger] row[s])
            ||| total_key(row[list[a] as int]) == total_key(row[s]) && list[a] < s
        } by {
            assert(outranks(before, list[a], s as usize));
        }
        assert forall|a: int, b: int|
            0 <= a < list.len() && 0 <= b < list.len() && a != b implies list[a] != list[b] by {
            if a < b {
                assert(outranks(before, list[a], list[b]));
            } else {
                assert(outranks(before, list[b], list[a]));
            }
        }
    } else {
        assert forall|a: int, s: int|
            0 <= a < list.len() && 0 <= s < row.len() && !list.contains(s as usize) implies {
            ||| total_key(row[#[trigger] list[a] as int]) > total_key(#[trigger] row[s])
            ||| total_key(row[list[a] as int]) == total_key(row[s]) && list[a] < s
        } by {
            assert(list[s] == s as usize);
        }
    }
}

/// A speaker that is chosen for a frame has at least the score of one that is not, and the
/// lower index where the scores are equal; a chosen cell is one and every other is zero.
pub proof fn law_the_loudest_are_chosen(
    activations: Seq<Seq<u32>>,
    columns: nat,
    counts: Seq<usize>,
    lists: Seq<Seq<usize>>,
    rows: Seq<Seq<u32>>,
    f: int,
)
    requires
        selects(activations, columns, counts, lists, rows),
        0 <= f < counts.len(),
        activations[f].len() == columns,
        columns <= usize::MAX,
    ensures
        rows.len() == counts.len(),
        rows[f].len() == columns,
        forall|s: int| 0 <= s < columns ==> #[trigger] rows[f][s] == ONE || rows[f][s] == ZERO,
        forall|s: int|
            0 <= s < columns ==> (#[trigger] rows[f][s] == ONE <==> lists[f].contains(s as usize)),
        forall|s: int, t: int|
            0 <= s < columns && 0 <= t < columns && #[trigger] rows[f][s] == ONE
                && #[trigger] rows[f][t] == ZERO ==> {
                ||| total_key(activations[f][s]) > total_key(activations[f][t])
                ||| total_key(activations[f][s]) == total_key(activations[f][t]) && s < t
            },
{
    let list = lists[f];
    let row = activations[f];
    law_top_k_are_the_highest(row, counts[f] as nat, list);
    assert forall|s: int, t: int|
        0 <= s < columns && 0 <= t < columns && #[trigger] rows[f][s] == ONE
            && #[trigger] rows[f][t] == ZERO implies {
        ||| total_key(activations[f][s]) > total_key(activations[f][t])
        ||| total_key(activations[f][s]) == total_key(activations[f][t]) && s < t
    } by {
        assert(list.contains(s as usize));
        let a = choose|a: int| 0 <= a < list.len() && list[a] == s as usize;
        assert(!list.contains(t as usize));
        assert(total_key(row[list[a] as int]) >= total_key(row[t]));
    }
}

/// Whether `level` says how the scores of a row lie to each other: scores less than `epsilon`
/// apart are on one level, and of two others the greater is on the higher level.
pub open spec fn levels<A: Arithmetic>(row: Seq<u32>, epsilon: u32, level: Seq<int>) -> bool {
    &&& level.len() == row.len()
    &&& forall|i: int, j: int|
        0 <= i < row.len() && 0 <= j < row.len() && i != j ==> (less(
            magnitude(minus_of::<A>(#[trigger] row[j], #[trigger] row[i])) as u32,
            epsilon,
        ) <==> level[i] == level[j])
    &&& forall|i: int, j: int|
        0 <= i < row.len() && 0 <= j < row.len() && level[i] > level[j] ==> total_key(
            #[trigger] row[i],
        ) > total_key(#[trigger] row[j])
}

/// Levels leave a ranking.
proof fn lemma_levels_are_consistent<A: Arithmetic>(
    row: Seq<u32>,
    previous: Seq<usize>,
    epsilon: u32,
    level: Seq<int>,
)
    requires
        levels::<A>(row, epsilon, level),
        row.len() <= usize::MAX,
    ensures
        consistent(steadier::<A>(row, previous, epsilon), row.len()),
        forall|i: usize, j: usize|
            i < row.len() && j < row.len() ==> (#[trigger] steadier::<A>(row, previous, epsilon)(
                i,
                j,
            ) <==> (level[i as int] > level[j as int] || (level[i as int] == level[j as int]
                && previous.contains(i) && !previous.contains(j)))),
{
    let before = steadier::<A>(row, previous, epsilon);
    assert forall|i: usize, j: usize| i < row.len() && j < row.len() implies (#[trigger] before(
        i,
        j,
    ) <==> (level[i as int] > level[j as int] || (level[i as int] == level[j as int]
        && previous.contains(i) && !previous.contains(j)))) by {
        let x = row[i as int];
        let y = row[j as int];
        if i != j {
            assert(close::<A>(x, y, epsilon) <==> level[i as int] == level[j as int]);
            if level[i as int] != level[j as int] {
                assert(level[i as int] > level[j as int] <==> total_key(x) > total_key(y));
            }
        }
    }
}

/// Where closeness sorts the scores of a frame into levels, a speaker of a higher level is
/// chosen over one of a lower, and within a level one who spoke in the frame before over one
/// who did not; only then does the lower index decide.
pub proof fn law_within_a_level_the_frame_before_decides<A: Arithmetic>(
    activations: Seq<Seq<u32>>,
    columns: nat,
    counts: Seq<usize>,
    epsilon: u32,
    lists: Seq<Seq<usize>>,
    rows: Seq<Seq<u32>>,
    f: int,
    level: Seq<int>,
)
    requires
        selects_smoothed::<A>(activations, columns, counts, epsilon, lists, rows),
        0 <= f < counts.len(),
        activations[f].len() == columns,
        columns <= usize::MAX,
        levels::<A>(activations[f], epsilon, level),
    ensures
        rows[f].len() == columns,
        forall|s: int| 0 <= s < columns ==> #[trigger] rows[f][s] == ONE || rows[f][s] == ZERO,
        forall|s: int, t: int|
            0 <= s < columns && 0 <= t < columns && #[trigger] rows[f][s] == ONE
                && #[trigger] rows[f][t] == ZERO ==> {
                let s_spoke = f > 0 && rows[f - 1][s] == ONE;
                let t_spoke = f > 0 && rows[f - 1][t] == ONE;
                ||| level[s] > level[t]
                ||| level[s] == level[t] && s_spoke && !t_spoke
                ||| level[s] == level[t] && s_spoke == t_spoke && s < t
            },
{
    let list = lists[f];
    let row = activations[f];
    let previous = previous_of(lists, f);
    let before = steadier::<A>(row, previous, epsilon);
    assert(top_k_smoothed::<A>(row, counts[f] as nat, previous, epsilon, list));
    lemma_levels_are_consistent::<A>(row, previous, epsilon, level);
    if f > 0 {
        assert(rows[f - 1] == marked(columns, lists[f - 1]));
    }
    assert forall|s: int, t: int|
        0 <= s < columns && 0 <= t < columns && #[trigger] rows[f][s] == ONE
            && #[trigger] rows[f][t] == ZERO implies {
        let s_spoke = f > 0 && rows[f - 1][s] == ONE;
        let t_spoke = f > 0 && rows[f - 1][t] == ONE;
        ||| level[s] > level[t]
        ||| level[s] == level[t] && s_spoke && !t_spoke
        ||| level[s] == level[t] && s_spoke == t_spoke && s < t
    } by {
        assert(list.contains(s as usize));
        assert(!list.contains(t as usize));
        let a = choose|a: int| 0 <= a < list.len() && list[a] == s as usize;
        if counts[f] >= row.len() {
            assert(list[t] == t as usize);
        } else {
            assert(outranks(before, list[a], t as usize));
            assert(f > 0 ==> (rows[f - 1][s] == ONE <==> previous.contains(s as usize)));
            assert(f > 0 ==> (rows[f - 1][t] == ONE <==> previous.contains(t as usize)));
            assert(f == 0 ==> !previous.contains(s as usize) && !previous.contains(t as usize));
        }
    }
}

/// Whatever the scores, a smoothed list holds different speakers of the row, `k` of them or
/// all; where closeness sorts the scores into levels it runs from the top down.
pub proof fn law_smoothed_list_runs_down_the_levels<A: Arithmetic>(
    row: Seq<u32>,
    k: nat,
    previous: Seq<usize>,
    epsilon: u32,
    list: Seq<usize>,
    level: Seq<int>,
)
    requires
        row.len() <= usize::MAX,
        top_k_smoothed::<A>(row, k, previous, epsilon, list),
    ensures
        list.len() == if k < row.len() {
            k
        } else {
            row.len()
        },
        list.no_duplicates(),
        forall|a: int| 0 <= a < list.len() ==> #[trigger] list[a] < row.len(),
        k >= row.len() ==> forall|a: int| 0 <= a < list.len() ==> #[trigger] list[a] == a,
        k < row.len() && levels::<A>(row, epsilon, level) ==> forall|a: int, b: int|
            0 <= a < b < list.len() ==> {
                let x = #[trigger] list[a];
                let y = #[trigger] list[b];
                ||| level[x as int] > level[y as int]
                ||| level[x as int] == level[y as int] && previous.contains(x)
                    && !previous.contains(y)
                ||| level[x as int] == level[y as int] && previous.contains(x)
                    == previous.contains(y) && x < y
            },
{
    if k < row.len() && levels::<A>(row, epsilon, level) {
        let before = steadier::<A>(row, previous, epsilon);
        lemma_levels_are_consistent::<A>(row, previous, epsilon, level);
        assert(leads(before, row.len(), k, list));
        assert forall|a: int, b: int| 0 <= a < b < list.len() implies {
            let x = #[trigger] list[a];
            let y = #[trigger] list[b];
            ||| level[x as int] > level[y as int]
            ||| level[x as int] == level[y as int] && previous.contains(x) && !previous.contains(y)
            ||| level[x as int] == level[y as int] && previous.contains(x) == previous.contains(y)
                && x < y
        } by {
            assert(outranks(before, list[a], list[b]));
        }
    }
}

/// Making a frame exclusive leaves the score of the last of its loudest speakers as it was,
/// and every other score at zero.
pub proof fn law_exclusive_frames_keep_the_loudest(row: Seq<u32>, after: Seq<u32>, p: int)
    requires
        made_exclusive(row, after),
        0 <= p < row.len(),
        forall|u: int| 0 <= u <= p ==> total_key(#[trigger] row[u]) <= total_key(row[p]),
        forall|u: int| p < u < row.len() ==> total_key(#[trigger] row[u]) < total_key(row[p]),
    ensures
        after.len() == row.len(),
        after[p] == row[p],
        forall|u: int| 0 <= u < row.len() && u != p ==> #[trigger] after[u] == ZERO,
{
    let q = choose|q: int| #[trigger] is_last_peak(row, q) && after == kept(row, q);
    assert(total_key(row[q]) <= total_key(row[p]));
    assert(total_key(row[p]) <= total_key(row[q]));
}

} // verus!
