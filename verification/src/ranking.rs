//! Picking the strongest speakers of a frame.
use crate::arithmetic::{functional, minus_of, Arithmetic};
use crate::grid::{rectangular, ScoreGrid};
use crate::score::{is_less, less, magnitude, magnitude_bits, total_key, total_order_key, ZERO};
use vstd::prelude::*;

verus! {

/// Whether a comparison puts the speakers below `n` into levels: no two come before each
/// other, and one that comes before another comes before or after every third.
pub open spec fn consistent(before: spec_fn(usize, usize) -> bool, n: nat) -> bool {
    &&& forall|i: usize, j: usize|
        i < n && j < n && #[trigger] before(i, j) ==> !before(j, i)
    &&& forall|i: usize, j: usize, k: usize|
        #![trigger before(i, k), before(i, j)]
        #![trigger before(i, k), before(j, k)]
        i < n && j < n && k < n && before(i, k) ==> before(i, j) || before(j, k)
}

/// Whether `i` is ranked over `j`: it comes before it, or is level with it and has the lower
/// index.
pub open spec fn outranks(before: spec_fn(usize, usize) -> bool, i: usize, j: usize) -> bool {
    before(i, j) || (!before(j, i) && i < j)
}

/// Whether `list` holds the `k` highest-ranked speakers below `n`, from the top.
pub open spec fn leads(
    before: spec_fn(usize, usize) -> bool,
    n: nat,
    k: nat,
    list: Seq<usize>,
) -> bool {
    &&& list.len() == k
    &&& forall|a: int| 0 <= a < k ==> #[trigger] list[a] < n
    &&& forall|a: int, b: int|
        0 <= a < b < k ==> outranks(before, #[trigger] list[a], #[trigger] list[b])
    &&& forall|a: int, s: usize|
        0 <= a < k && s < n && !list.contains(s) ==> #[trigger] outranks(before, list[a], s)
}

/// Whether `list` holds `k` different speakers below `n`.
pub open spec fn picks(n: nat, k: nat, list: Seq<usize>) -> bool {
    &&& list.len() == k
    &&& list.no_duplicates()
    &&& forall|a: int| 0 <= a < k ==> #[trigger] list[a] < n
}

/// All speakers below `n`, in order.
pub open spec fn everyone(n: nat) -> Seq<usize> {
    Seq::new(n, |i: int| i as usize)
}

/// Being ranked over someone carries on.
pub proof fn lemma_outranks_transitive(
    before: spec_fn(usize, usize) -> bool,
    n: nat,
    i: usize,
    j: usize,
    k: usize,
)
    requires
        consistent(before, n),
        i < n,
        j < n,
        k < n,
        outranks(before, i, j),
        outranks(before, j, k),
    ensures
        outranks(before, i, k),
{
    if before(i, j) {
        assert(before(i, k) || before(k, j));
        if before(j, k) {
            assert(!before(k, j));
        }
    } else if before(j, k) {
        assert(before(j, i) || before(i, k));
    } else {
        if before(k, i) {
            assert(before(k, j) || before(j, i));
        }
    }
}

/// The speakers below `n` in a stable order under `less`.
fn stable_order<F: Fn(usize, usize) -> bool>(
    n: usize,
    less: F,
    Ghost(before): Ghost<spec_fn(usize, usize) -> bool>,
) -> (r: Vec<usize>)
    requires
        forall|i: usize, j: usize| i < n && j < n ==> #[trigger] call_requires(less, (i, j)),
        forall|i: usize, j: usize, b: bool|
            i < n && j < n && #[trigger] call_ensures(less, (i, j), b) ==> b == before(i, j),
    ensures
        picks(n as nat, n as nat, r@),
        forall|s: usize| s < n ==> #[trigger] r@.contains(s),
        consistent(before, n as nat) ==> forall|a: int, b: int|
            0 <= a < b < n ==> outranks(before, #[trigger] r@[a], #[trigger] r@[b]),
{
    let mut order: Vec<usize> = Vec::new();
    let mut next: usize = 0;
    while next < n
        invariant
            next <= n,
            forall|i: usize, j: usize| i < n && j < n ==> #[trigger] call_requires(less, (i, j)),
            forall|i: usize, j: usize, b: bool|
                i < n && j < n && #[trigger] call_ensures(less, (i, j), b) ==> b == before(i, j),
            order@.len() == next,
            order@.no_duplicates(),
            forall|a: int| 0 <= a < next ==> #[trigger] order@[a] < next,
            forall|s: usize| s < next ==> #[trigger] order@.contains(s),
            consistent(before, n as nat) ==> forall|a: int, b: int|
                0 <= a < b < next ==> outranks(before, #[trigger] order@[a], #[trigger] order@[b]),
        decreases n - next,
    {
        let mut place: usize = next;
        let mut placed: bool = false;
        while place > 0 && !placed
            invariant
                place <= next < n,
                forall|i: usize, j: usize|
                    i < n && j < n ==> #[trigger] call_requires(less, (i, j)),
                forall|i: usize, j: usize, b: bool|
                    i < n && j < n && #[trigger] call_ensures(less, (i, j), b) ==> b == before(
                        i,
                        j,
                    ),
                order@.len() == next,
                forall|a: int| 0 <= a < next ==> #[trigger] order@[a] < next,
                forall|a: int| place <= a < next ==> before(next, #[trigger] order@[a]),
                placed ==> place > 0 && !before(next, order@[place - 1]),
            decreases place, !placed as int,
        {
            let above: usize = order[place - 1];
            if less(next, above) {
                place = place - 1;
            } else {
                placed = true;
            }
        }
        let ghost earlier = order@;
        order.insert(place, next);
        proof {
            let later = order@;
            assert forall|s: usize| s < next + 1 implies #[trigger] later.contains(s) by {
                if s == next {
                    assert(later[place as int] == s);
                } else {
                    assert(earlier.contains(s));
                    let a = choose|a: int| 0 <= a < earlier.len() && earlier[a] == s;
                    if a < place {
                        assert(later[a] == s);
                    } else {
                        assert(later[a + 1] == s);
                    }
                }
            }
            assert forall|a: int| 0 <= a < next + 1 implies #[trigger] later[a] < next + 1 by {
                if a > place {
                    assert(later[a] == earlier[a - 1]);
                }
            }
            assert(later.no_duplicates()) by {
                assert forall|a: int, b: int|
                    0 <= a < later.len() && 0 <= b < later.len() && a != b implies later[a]
                    != later[b] by {
                    if a != place {
                        assert(later[a] == earlier[if a < place { a } else { a - 1 }]);
                    }
                    if b != place {
                        assert(later[b] == earlier[if b < place { b } else { b - 1 }]);
                    }
                }
            }
            if consistent(before, n as nat) {
                assert forall|a: int, b: int| 0 <= a < b < next + 1 implies outranks(
                    before,
                    #[trigger] later[a],
                    #[trigger] later[b],
                ) by {
                    if b == place {
                        assert(later[a] == earlier[a]);
                        let above = earlier[place - 1];
                        assert(above < next);
                        assert(outranks(before, above, next));
                        if a < place - 1 {
                            assert(outranks(before, earlier[a], above));
                            lemma_outranks_transitive(before, n as nat, earlier[a], above, next);
                        }
                    } else if a == place {
                        assert(later[b] == earlier[b - 1]);
                    } else {
                        let x = if a < place {
                            a
                        } else {
                            a - 1
                        };
                        let y = if b < place {
                            b
                        } else {
                            b - 1
                        };
                        assert(later[a] == earlier[x] && later[b] == earlier[y]);
                    }
                }
            }
        }
        next = next + 1;
    }
    order
}

/// The first `k` of a stable order.
proof fn lemma_prefix_leads(
    before: spec_fn(usize, usize) -> bool,
    n: nat,
    k: nat,
    order: Seq<usize>,
)
    requires
        k <= n,
        picks(n, n, order),
        forall|s: usize| s < n ==> #[trigger] order.contains(s),
    ensures
        picks(n, k, order.take(k as int)),
        (forall|a: int, b: int|
            0 <= a < b < n ==> outranks(before, #[trigger] order[a], #[trigger] order[b])) ==> leads(
            before,
            n,
            k,
            order.take(k as int),
        ),
{
    let list = order.take(k as int);
    assert forall|a: int| 0 <= a < k implies #[trigger] list[a] < n by {
        assert(list[a] == order[a]);
    }
    if forall|a: int, b: int|
        0 <= a < b < n ==> outranks(before, #[trigger] order[a], #[trigger] order[b]) {
        assert forall|a: int, s: usize|
            0 <= a < k && s < n && !list.contains(s) implies #[trigger] outranks(
            before,
            list[a],
            s,
        ) by {
            assert(order.contains(s));
            let b = choose|b: int| 0 <= b < order.len() && order[b] == s;
            if b < k {
                assert(list[b] == s);
            }
            assert(order[a] == list[a]);
        }
        assert forall|a: int, b: int| 0 <= a < b < k implies outranks(
            before,
            #[trigger] list[a],
            #[trigger] list[b],
        ) by {
            assert(order[a] == list[a] && order[b] == list[b]);
        }
    }
}

/// The first `k` items of a list.
fn first_items(list: &Vec<usize>, k: usize) -> (r: Vec<usize>)
    requires
        k <= list@.len(),
    ensures
        r@ == list@.take(k as int),
{
    let mut items: Vec<usize> = Vec::new();
    let mut i: usize = 0;
    while i < k
        invariant
            i <= k <= list@.len(),
            items@ == list@.take(i as int),
        decreases k - i,
    {
        items.push(list[i]);
        i = i + 1;
        proof {
            assert(items@ =~= list@.take(i as int));
        }
    }
    items
}

/// All speakers below `n`, in order.
fn all_speakers(n: usize) -> (r: Vec<usize>)
    ensures
        r@ == everyone(n as nat),
{
    let mut items: Vec<usize> = Vec::new();
    let mut i: usize = 0;
    while i < n
        invariant
            i <= n,
            items@ == everyone(i as nat),
        decreases n - i,
    {
        items.push(i);
        i = i + 1;
        proof {
            assert(items@ =~= everyone(i as nat));
        }
    }
    items
}

/// Louder speakers come first.
pub open spec fn louder(row: Seq<u32>) -> spec_fn(usize, usize) -> bool {
    |i: usize, j: usize| total_key(row[i as int]) > total_key(row[j as int])
}

/// Louder puts the speakers into levels.
pub proof fn lemma_louder_consistent(row: Seq<u32>, n: nat)
    ensures
        consistent(louder(row), n),
{
}

/// Whether `list` holds the `k` speakers of a row with the highest scores, from the top; of
/// equal scores the lower index comes first. A row of no more than `k` scores keeps its order.
pub open spec fn top_k(row: Seq<u32>, k: nat, list: Seq<usize>) -> bool {
    if k >= row.len() {
        list == everyone(row.len())
    } else {
        leads(louder(row), row.len(), k, list)
    }
}

/// The `k` speakers of a frame with the highest scores.
pub fn top_k_indices(matrix: &ScoreGrid, frame_idx: usize, k: usize) -> (r: Vec<usize>)
    requires
        frame_idx < matrix@.len(),
    ensures
        top_k(matrix@[frame_idx as int], k as nat, r@),
{
    let (_rows, columns): (usize, usize) = matrix.dim();
    let ghost row = matrix@[frame_idx as int];
    if k >= columns {
        return all_speakers(columns);
    }
    let less = |i: usize, j: usize| -> (b: bool)
        requires
            frame_idx < matrix@.len(),
            i < matrix.columns(),
            j < matrix.columns(),
        ensures
            b == (total_key(matrix@[frame_idx as int][i as int]) > total_key(
                matrix@[frame_idx as int][j as int],
            )),
        {
            total_order_key(matrix.at(frame_idx, i)) > total_order_key(matrix.at(frame_idx, j))
        };
    let order: Vec<usize> = stable_order(columns, less, Ghost(louder(row)));
    proof {
        lemma_louder_consistent(row, columns as nat);
        lemma_prefix_leads(louder(row), columns as nat, k as nat, order@);
    }
    first_items(&order, k)
}

/// Whether two scores are less than `epsilon` apart.
pub open spec fn close<A: Arithmetic>(left: u32, right: u32, epsilon: u32) -> bool {
    less(magnitude(minus_of::<A>(right, left)) as u32, epsilon)
}

/// Among close scores, speakers of the previous frame come first; else louder ones do.
pub open spec fn steadier<A: Arithmetic>(
    row: Seq<u32>,
    previous: Seq<usize>,
    epsilon: u32,
) -> spec_fn(usize, usize) -> bool {
    |i: usize, j: usize|
        if close::<A>(row[i as int], row[j as int], epsilon) {
            previous.contains(i) && !previous.contains(j)
        } else {
            total_key(row[i as int]) > total_key(row[j as int])
        }
}

/// Whether `list` holds `k` speakers of a row, and the highest-ranked ones where closeness
/// leaves a ranking. A row of no more than `k` scores keeps its order.
///
/// Closeness is not transitive: scores can be close by pairs and far apart end to end, and
/// then there is no ranking to keep to.
pub open spec fn top_k_smoothed<A: Arithmetic>(
    row: Seq<u32>,
    k: nat,
    previous: Seq<usize>,
    epsilon: u32,
    list: Seq<usize>,
) -> bool {
    if k >= row.len() {
        list == everyone(row.len())
    } else {
        &&& picks(row.len(), k, list)
        &&& consistent(steadier::<A>(row, previous, epsilon), row.len()) ==> leads(
            steadier::<A>(row, previous, epsilon),
            row.len(),
            k,
            list,
        )
    }
}

/// Whether `list` holds `speaker`.
fn listed(list: &Vec<usize>, speaker: usize) -> (r: bool)
    ensures
        r == list@.contains(speaker),
{
    let mut k: usize = 0;
    while k < list.len()
        invariant
            k <= list@.len(),
            forall|i: int| 0 <= i < k ==> list@[i] != speaker,
        decreases list@.len() - k,
    {
        if list[k] == speaker {
            return true;
        }
        k = k + 1;
    }
    false
}

/// Whether `i` comes before `j` when speakers of the previous frame are favoured.
fn is_steadier<A: Arithmetic>(
    matrix: &ScoreGrid,
    frame_idx: usize,
    previous: &Vec<usize>,
    epsilon: u32,
    i: usize,
    j: usize,
) -> (r: bool)
    requires
        functional::<A>(),
        frame_idx < matrix@.len(),
        i < matrix.columns(),
        j < matrix.columns(),
    ensures
        r == steadier::<A>(matrix@[frame_idx as int], previous@, epsilon)(i, j),
{
    let left: u32 = matrix.at(frame_idx, i);
    let right: u32 = matrix.at(frame_idx, j);
    let difference: u32 = A::minus(right, left);
    if is_less(magnitude_bits(difference), epsilon) {
        listed(previous, i) && !listed(previous, j)
    } else {
        total_order_key(left) > total_order_key(right)
    }
}

/// The `k` speakers of a frame with the highest scores, favouring those of the previous frame
/// where scores are less than `epsilon` apart.
pub fn top_k_indices_smoothed<A: Arithmetic>(
    matrix: &ScoreGrid,
    frame_idx: usize,
    k: usize,
    previous_speakers: &Vec<usize>,
    epsilon: u32,
) -> (r: Vec<usize>)
    requires
        functional::<A>(),
        frame_idx < matrix@.len(),
    ensures
        top_k_smoothed::<A>(
            matrix@[frame_idx as int],
            k as nat,
            previous_speakers@,
            epsilon,
            r@,
        ),
{
    let (_rows, columns): (usize, usize) = matrix.dim();
    let ghost row = matrix@[frame_idx as int];
    if k >= columns {
        return all_speakers(columns);
    }
    let ghost before = steadier::<A>(row, previous_speakers@, epsilon);
    let less = |i: usize, j: usize| -> (b: bool)
        requires
            functional::<A>(),
            frame_idx < matrix@.len(),
            i < matrix.columns(),
            j < matrix.columns(),
        ensures
            b == steadier::<A>(matrix@[frame_idx as int], previous_speakers@, epsilon)(i, j),
        { is_steadier::<A>(matrix, frame_idx, previous_speakers, epsilon, i, j) };
    let order: Vec<usize> = stable_order(columns, less, Ghost(before));
    proof {
        lemma_prefix_leads(before, columns as nat, k as nat, order@);
    }
    first_items(&order, k)
}

/// Whether `p` is the last of the speakers with the highest score.
pub open spec fn is_last_peak(row: Seq<u32>, p: int) -> bool {
    &&& 0 <= p < row.len()
    &&& forall|u: int| 0 <= u < row.len() ==> total_key(#[trigger] row[u]) <= total_key(row[p])
    &&& forall|u: int| p < u < row.len() ==> total_key(#[trigger] row[u]) < total_key(row[p])
}

/// A row with every score but one replaced by zero.
pub open spec fn kept(row: Seq<u32>, p: int) -> Seq<u32> {
    Seq::new(
        row.len(),
        |s: int|
            if s == p {
                row[s]
            } else {
                ZERO
            },
    )
}

/// Whether `after` is `row` made exclusive: with only its highest score left.
pub open spec fn made_exclusive(row: Seq<u32>, after: Seq<u32>) -> bool {
    if row.len() == 0 {
        after == row
    } else {
        exists|p: int| #[trigger] is_last_peak(row, p) && after == kept(row, p)
    }
}

/// Zeroes all but the highest-scoring speaker in each frame, making activations exclusive.
pub fn make_exclusive(activations: &mut ScoreGrid)
    ensures
        final(activations)@.len() == old(activations)@.len(),
        final(activations).columns() == old(activations).columns(),
        forall|f: int|
            0 <= f < old(activations)@.len() ==> made_exclusive(
                old(activations)@[f],
                #[trigger] final(activations)@[f],
            ),
{
    let (rows, columns): (usize, usize) = activations.dim();
    let ghost first = activations@;
    let mut frame: usize = 0;
    while frame < rows
        invariant
            frame <= rows,
            rows == first.len(),
            rectangular(first, columns as nat),
            activations@.len() == rows,
            activations.columns() == columns,
            forall|f: int|
                0 <= f < frame ==> made_exclusive(first[f], #[trigger] activations@[f]),
            forall|f: int| frame <= f < rows ==> #[trigger] activations@[f] == first[f],
        decreases rows - frame,
    {
        let ghost row = first[frame as int];
        let ghost earlier = activations@;
        let mut argmax: usize = 0;
        let mut s: usize = 0;
        proof {
            assert(activations@[frame as int] == row);
        }
        while s < columns
            invariant
                frame < rows,
                rows == activations@.len(),
                activations.columns() == columns,
                activations@ == earlier,
                activations@[frame as int] == row,
                row.len() == columns,
                s <= columns,
                s > 0 ==> argmax < s && (forall|u: int|
                    0 <= u < s ==> total_key(#[trigger] row[u]) <= total_key(row[argmax as int]))
                    && (forall|u: int|
                    argmax < u < s ==> total_key(#[trigger] row[u]) < total_key(
                        row[argmax as int],
                    )),
            decreases columns - s,
        {
            let score: u32 = activations.at(frame, s);
            if s == 0 || total_order_key(score) >= total_order_key(activations.at(frame, argmax)) {
                argmax = s;
            }
            s = s + 1;
        }
        if columns > 0 {
            proof {
                assert(is_last_peak(row, argmax as int));
            }
            s = 0;
            while s < columns
                invariant
                    frame < rows,
                    rows == activations@.len(),
                    activations.columns() == columns,
                    row.len() == columns,
                    s <= columns,
                    argmax < columns,
                    earlier.len() == rows,
                    forall|f: int|
                        0 <= f < rows && f != frame ==> #[trigger] activations@[f] == earlier[f],
                    activations@[frame as int].len() == columns,
                    forall|u: int|
                        0 <= u < s ==> #[trigger] activations@[frame as int][u] == kept(
                            row,
                            argmax as int,
                        )[u],
                    forall|u: int|
                        s <= u < columns ==> #[trigger] activations@[frame as int][u] == row[u],
                decreases columns - s,
            {
                if s != argmax {
                    activations.set(frame, s, ZERO);
                } else {
                    proof {
                        assert(activations@[frame as int][s as int] == row[s as int]);
                    }
                }
                s = s + 1;
            }
            proof {
                assert(activations@[frame as int] =~= kept(row, argmax as int));
            }
        }
        proof {
            assert(made_exclusive(row, activations@[frame as int]));
            assert forall|f: int| 0 <= f < frame implies made_exclusive(
                first[f],
                #[trigger] activations@[f],
            ) by {
                assert(activations@[f] == earlier[f]);
            }
            assert forall|f: int| frame < f < rows implies #[trigger] activations@[f]
                == first[f] by {
                assert(activations@[f] == earlier[f]);
            }
        }
        frame = frame + 1;
    }
}

/// Making a row exclusive a second time changes nothing.
///
/// A row of several scores that are all below zero is left out: the score that is left is then
/// below the zeros around it, and does not stay.
pub proof fn law_make_exclusive_is_idempotent(row: Seq<u32>, once: Seq<u32>, twice: Seq<u32>)
    requires
        made_exclusive(row, once),
        made_exclusive(once, twice),
        row.len() <= 1 || exists|u: int| 0 <= u < row.len() && total_key(#[trigger] row[u]) >= 0,
    ensures
        twice == once,
{
    if row.len() > 0 {
        let p = choose|p: int| #[trigger] is_last_peak(row, p) && once == kept(row, p);
        let q = choose|q: int| #[trigger] is_last_peak(once, q) && twice == kept(once, q);
        assert(total_key(once[p]) <= total_key(once[q]));
        assert(twice =~= once);
    }
}

/// At most one speaker of an exclusive frame has a score other than zero: the one with the
/// highest, which is as it was.
pub proof fn law_exclusive_frames_have_one_speaker(row: Seq<u32>, after: Seq<u32>, i: int, j: int)
    requires
        made_exclusive(row, after),
        0 <= i < after.len(),
        0 <= j < after.len(),
        after[i] != ZERO,
        after[j] != ZERO,
    ensures
        i == j,
        after[i] == row[i],
        is_last_peak(row, i),
{
}

/// A frame and a count determine the list of its strongest speakers.
pub proof fn law_top_k_is_unique(row: Seq<u32>, k: nat, a: Seq<usize>, b: Seq<usize>)
    requires
        top_k(row, k, a),
        top_k(row, k, b),
    ensures
        a == b,
{
    if k < row.len() {
        lemma_leads_unique(louder(row), row.len(), k, a, b, k);
        assert(a =~= b);
    }
}

/// Lists of the highest-ranked agree place by place.
proof fn lemma_leads_unique(
    before: spec_fn(usize, usize) -> bool,
    n: nat,
    k: nat,
    a: Seq<usize>,
    b: Seq<usize>,
    m: nat,
)
    requires
        consistent(before, n),
        leads(before, n, k, a),
        leads(before, n, k, b),
        m <= k,
    ensures
        forall|i: int| 0 <= i < m ==> a[i] == b[i],
    decreases m,
{
    if m > 0 {
        lemma_leads_unique(before, n, k, a, b, (m - 1) as nat);
        let x = a[m - 1];
        let y = b[m - 1];
        if x != y {
            lemma_leader_over(before, n, k, a, b, m);
            lemma_leader_over(before, n, k, b, a, m);
            if before(x, y) {
                assert(!before(y, x));
            }
            if before(y, x) {
                assert(!before(x, y));
            }
        }
    }
}

/// What stands at a place in one list outranks what another list has there instead.
proof fn lemma_leader_over(
    before: spec_fn(usize, usize) -> bool,
    n: nat,
    k: nat,
    a: Seq<usize>,
    b: Seq<usize>,
    m: nat,
)
    requires
        consistent(before, n),
        leads(before, n, k, a),
        leads(before, n, k, b),
        0 < m <= k,
        forall|i: int| 0 <= i < m - 1 ==> a[i] == b[i],
        a[m - 1] != b[m - 1],
    ensures
        outranks(before, a[m - 1], b[m - 1]),
{
    let x = a[m - 1];
    let y = b[m - 1];
    if a.contains(y) {
        let i = choose|i: int| 0 <= i < a.len() && a[i] == y;
        if i < m - 1 {
            assert(b[i] == y);
            assert(outranks(before, b[i], b[m - 1]));
            assert(before(y, y) ==> !before(y, y));
        }
        assert(outranks(before, a[m - 1], a[i]));
    } else {
        assert(outranks(before, a[m - 1], y));
    }
}

} // verus!
