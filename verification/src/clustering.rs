//! Re-clustering embeddings to a given number of speakers.
//!
//! Lloyd's algorithm from k-means++ seeds, as pyannote runs scikit-learn's `KMeans`: three
//! runs from the seed 42. The seed makes a run repeatable; it does not make it match
//! scikit-learn's numbers, which no reimplementation can.
use crate::arithmetic::{
    counted_of, dot, dot_of, fraction_of, functional, minus_wide_of, over_of, plus_of,
    plus_wide_of, root_of, times_wide_of, widened_of, Arithmetic,
};
use crate::grid::{extent, rectangular, shape_fits, ScoreGrid};
use crate::rng::{below_of, next_state, unit_of, SplitMix64};
use crate::score::{
    is_less, is_less_wide, less, less_wide, not_a_number_wide, smaller_wide, smaller_wide_of,
    INFINITY_WIDE, ZERO, ZERO_WIDE,
};
use vstd::prelude::*;

verus! {

/// How many times the clustering is run.
pub const KMEANS_RUNS: usize = 3;

/// What the clustering's random numbers start from.
pub const KMEANS_SEED: u64 = 42;

/// How many times one run moves its centers at most.
pub const KMEANS_MAX_ITERS: usize = 300;

/// A row divided by its length, unless that is not positive.
pub open spec fn normalized<A: Arithmetic>(row: Seq<u32>) -> Seq<u32> {
    let norm = root_of::<A>(dot_of::<A>(row, row));
    if less(ZERO, norm) {
        Seq::new(row.len(), |j: int| over_of::<A>(row[j], norm))
    } else {
        row
    }
}

/// Every row divided by its length.
pub fn l2_normalized_rows<A: Arithmetic>(rows: &ScoreGrid) -> (r: ScoreGrid)
    requires
        functional::<A>(),
    ensures
        r@ == Seq::new(rows@.len(), |i: int| normalized::<A>(rows@[i])),
        r.columns() == rows.columns(),
{
    let (count, columns): (usize, usize) = rows.dim();
    let mut result: ScoreGrid = ScoreGrid::filled(count, columns, ZERO);
    let mut i: usize = 0;
    while i < count
        invariant
            functional::<A>(),
            count == rows@.len(),
            columns == rows.columns(),
            i <= count,
            result@.len() == count,
            result.columns() == columns,
            forall|k: int| 0 <= k < i ==> #[trigger] result@[k] == normalized::<A>(rows@[k]),
        decreases count - i,
    {
        let row: Vec<u32> = rows.row(i);
        let norm: u32 = A::root(dot::<A>(&row, &row));
        let mut cells: Vec<u32> = Vec::new();
        let divide: bool = is_less(ZERO, norm);
        let mut j: usize = 0;
        while j < row.len()
            invariant
                functional::<A>(),
                j <= row@.len(),
                cells@.len() == j,
                forall|k: int|
                    0 <= k < j ==> #[trigger] cells@[k] == if divide {
                        over_of::<A>(row@[k], norm)
                    } else {
                        row@[k]
                    },
            decreases row@.len() - j,
        {
            cells.push(
                if divide {
                    A::over(row[j], norm)
                } else {
                    row[j]
                },
            );
            j = j + 1;
        }
        proof {
            assert(cells@ =~= normalized::<A>(rows@[i as int]));
        }
        result.set_row(i, &cells);
        i = i + 1;
    }
    proof {
        assert(result@ =~= Seq::new(rows@.len(), |i: int| normalized::<A>(rows@[i])));
    }
    result
}

/// Two rows added cell by cell.
pub open spec fn row_plus<A: Arithmetic>(a: Seq<u32>, b: Seq<u32>) -> Seq<u32> {
    Seq::new(a.len(), |j: int| plus_of::<A>(a[j], b[j]))
}

/// The sum of the rows among the first `n` that carry a label, added from the top.
pub open spec fn cluster_sum<A: Arithmetic>(
    rows: Seq<Seq<u32>>,
    labels: Seq<usize>,
    columns: nat,
    cluster: int,
    n: nat,
) -> Seq<u32>
    decreases n,
{
    if n == 0 {
        Seq::new(columns, |j: int| ZERO)
    } else {
        let before = cluster_sum::<A>(rows, labels, columns, cluster, (n - 1) as nat);
        if labels[n - 1] == cluster {
            row_plus::<A>(before, rows[n - 1])
        } else {
            before
        }
    }
}

/// How many of the first `n` rows carry a label.
pub open spec fn cluster_size(labels: Seq<usize>, cluster: int, n: nat) -> nat
    decreases n,
{
    if n == 0 {
        0
    } else {
        let before = cluster_size(labels, cluster, (n - 1) as nat);
        if labels[n - 1] == cluster {
            before + 1
        } else {
            before
        }
    }
}

/// How many rows are labelled: no more than there are rows or labels.
pub open spec fn paired(rows: nat, labels: nat) -> nat {
    if rows < labels {
        rows
    } else {
        labels
    }
}

/// The mean of the rows that carry a label.
pub open spec fn cluster_mean<A: Arithmetic>(
    rows: Seq<Seq<u32>>,
    labels: Seq<usize>,
    columns: nat,
    cluster: int,
) -> Seq<u32> {
    let n = paired(rows.len(), labels.len());
    let sum = cluster_sum::<A>(rows, labels, columns, cluster, n);
    let size = counted_of::<A>(cluster_size(labels, cluster, n) as usize);
    Seq::new(columns, |j: int| over_of::<A>(sum[j], size))
}

/// The means of the clusters below `k` that have rows, in order.
pub open spec fn means_below<A: Arithmetic>(
    rows: Seq<Seq<u32>>,
    labels: Seq<usize>,
    columns: nat,
    k: nat,
) -> Seq<Seq<u32>>
    decreases k,
{
    if k == 0 {
        seq![]
    } else {
        let before = means_below::<A>(rows, labels, columns, (k - 1) as nat);
        if cluster_size(labels, k - 1, paired(rows.len(), labels.len())) > 0 {
            before.push(cluster_mean::<A>(rows, labels, columns, k - 1))
        } else {
            before
        }
    }
}

/// No cluster has more rows than there are.
proof fn lemma_cluster_size(labels: Seq<usize>, cluster: int, n: nat)
    ensures
        cluster_size(labels, cluster, n) <= n,
    decreases n,
{
    if n > 0 {
        lemma_cluster_size(labels, cluster, (n - 1) as nat);
    }
}

/// Sums have a cell for every column.
proof fn lemma_cluster_sum_len<A: Arithmetic>(
    rows: Seq<Seq<u32>>,
    labels: Seq<usize>,
    columns: nat,
    cluster: int,
    n: nat,
)
    ensures
        cluster_sum::<A>(rows, labels, columns, cluster, n).len() == columns,
    decreases n,
{
    if n > 0 {
        lemma_cluster_sum_len::<A>(rows, labels, columns, cluster, (n - 1) as nat);
    }
}

/// There are no more means than clusters, and every mean has a cell for every column.
proof fn lemma_means_below<A: Arithmetic>(
    rows: Seq<Seq<u32>>,
    labels: Seq<usize>,
    columns: nat,
    k: nat,
)
    ensures
        means_below::<A>(rows, labels, columns, k).len() <= k,
        forall|i: int|
            0 <= i < means_below::<A>(rows, labels, columns, k).len() ==> (
            #[trigger] means_below::<A>(rows, labels, columns, k)[i]).len() == columns,
    decreases k,
{
    if k > 0 {
        lemma_means_below::<A>(rows, labels, columns, (k - 1) as nat);
    }
}

/// A row's own cluster is not empty.
pub(crate) proof fn lemma_own_cluster(labels: Seq<usize>, i: int, n: nat)
    requires
        0 <= i < n <= labels.len(),
    ensures
        cluster_size(labels, labels[i] as int, n) > 0,
    decreases n,
{
    if i < n - 1 {
        lemma_own_cluster(labels, i, (n - 1) as nat);
    }
}

/// Means are taken of clusters that have rows alone: there are no more than clusters, and
/// there is one as soon as the first row has a cluster.
pub proof fn lemma_means_count<A: Arithmetic>(
    rows: Seq<Seq<u32>>,
    labels: Seq<usize>,
    columns: nat,
    k: nat,
)
    requires
        paired(rows.len(), labels.len()) > 0,
    ensures
        means_below::<A>(rows, labels, columns, k).len() <= k,
        labels[0] < k ==> means_below::<A>(rows, labels, columns, k).len() > 0,
    decreases k,
{
    if k > 0 {
        lemma_means_count::<A>(rows, labels, columns, (k - 1) as nat);
        lemma_own_cluster(labels, 0, paired(rows.len(), labels.len()));
    }
}

/// The sum and the number of the rows of each cluster.
pub fn cluster_sums<A: Arithmetic>(points: &ScoreGrid, labels: &Vec<usize>, k: usize) -> (r: Vec<
    (Vec<u32>, usize),
>)
    requires
        functional::<A>(),
        forall|i: int|
            0 <= i < paired(points@.len(), labels@.len()) ==> #[trigger] labels@[i] < k,
    ensures
        r@.len() == k,
        forall|c: int|
            0 <= c < k ==> {
                let n = paired(points@.len(), labels@.len());
                &&& (#[trigger] r@[c]).0@ == cluster_sum::<A>(
                    points@,
                    labels@,
                    points.columns(),
                    c,
                    n,
                )
                &&& r@[c].1 == cluster_size(labels@, c, n)
            },
{
    let (count, columns): (usize, usize) = points.dim();
    let mut sums: Vec<(Vec<u32>, usize)> = Vec::new();
    let mut c: usize = 0;
    while c < k
        invariant
            columns == points.columns(),
            c <= k,
            sums@.len() == c,
            forall|d: int|
                0 <= d < c ==> {
                    &&& (#[trigger] sums@[d]).0@ == cluster_sum::<A>(
                        points@,
                        labels@,
                        columns as nat,
                        d,
                        0,
                    )
                    &&& sums@[d].1 == cluster_size(labels@, d, 0)
                },
        decreases k - c,
    {
        let zeros: Vec<u32> = vec![ZERO; columns];
        proof {
            assert(zeros@ =~= cluster_sum::<A>(points@, labels@, columns as nat, c as int, 0));
        }
        sums.push((zeros, 0));
        c = c + 1;
    }
    let mut i: usize = 0;
    while i < count && i < labels.len()
        invariant
            functional::<A>(),
            count == points@.len(),
            columns == points.columns(),
            rectangular(points@, columns as nat),
            i <= paired(points@.len(), labels@.len()),
            forall|j: int|
                0 <= j < paired(points@.len(), labels@.len()) ==> #[trigger] labels@[j] < k,
            sums@.len() == k,
            forall|d: int|
                0 <= d < k ==> {
                    &&& (#[trigger] sums@[d]).0@ == cluster_sum::<A>(
                        points@,
                        labels@,
                        columns as nat,
                        d,
                        i as nat,
                    )
                    &&& sums@[d].1 == cluster_size(labels@, d, i as nat)
                },
        decreases count - i,
    {
        let label: usize = labels[i];
        let ghost earlier = sums@;
        let mut sum: Vec<u32> = Vec::new();
        proof {
            lemma_cluster_sum_len::<A>(
                points@,
                labels@,
                columns as nat,
                label as int,
                i as nat,
            );
            lemma_cluster_size(labels@, label as int, i as nat);
            assert(labels@[i as int] < k);
            assert(sums@[label as int].0@.len() == columns);
        }
        let mut j: usize = 0;
        while j < columns
            invariant
                functional::<A>(),
                i < points@.len(),
                columns == points.columns(),
                points@[i as int].len() == columns,
                label < sums@.len(),
                sums@[label as int].0@.len() == columns,
                j <= columns,
                sum@.len() == j,
                forall|l: int|
                    0 <= l < j ==> #[trigger] sum@[l] == plus_of::<A>(
                        sums@[label as int].0@[l],
                        points@[i as int][l],
                    ),
            decreases columns - j,
        {
            sum.push(A::plus(sums[label].0[j], points.at(i, j)));
            j = j + 1;
        }
        let size: usize = sums[label].1 + 1;
        proof {
            assert(sum@ =~= row_plus::<A>(sums@[label as int].0@, points@[i as int]));
        }
        sums.set(label, (sum, size));
        proof {
            assert forall|d: int| 0 <= d < k implies {
                &&& (#[trigger] sums@[d]).0@ == cluster_sum::<A>(
                    points@,
                    labels@,
                    columns as nat,
                    d,
                    (i + 1) as nat,
                )
                &&& sums@[d].1 == cluster_size(labels@, d, (i + 1) as nat)
            } by {
                if d != label {
                    assert(sums@[d] == earlier[d]);
                }
            }
        }
        i = i + 1;
    }
    sums
}

/// Every cell of a row divided by a count.
fn row_over<A: Arithmetic>(sum: &Vec<u32>, count: usize) -> (r: Vec<u32>)
    requires
        functional::<A>(),
    ensures
        r@ == Seq::new(sum@.len(), |j: int| over_of::<A>(sum@[j], counted_of::<A>(count))),
{
    let size: u32 = A::counted(count);
    let mut cells: Vec<u32> = Vec::new();
    let mut j: usize = 0;
    while j < sum.len()
        invariant
            functional::<A>(),
            size == counted_of::<A>(count),
            j <= sum@.len(),
            cells@.len() == j,
            forall|l: int| 0 <= l < j ==> #[trigger] cells@[l] == over_of::<A>(sum@[l], size),
        decreases sum@.len() - j,
    {
        cells.push(A::over(sum[j], size));
        j = j + 1;
    }
    proof {
        assert(cells@ =~= Seq::new(
            sum@.len(),
            |j: int| over_of::<A>(sum@[j], counted_of::<A>(count)),
        ));
    }
    cells
}

/// Mean of the rows in each cluster. A cluster that ended up empty is left out, so the result
/// can have fewer rows than `k`.
pub fn cluster_means<A: Arithmetic>(rows: &ScoreGrid, labels: &Vec<usize>, k: usize) -> (r:
    ScoreGrid)
    requires
        functional::<A>(),
        shape_fits(k as nat, rows.columns()),
        forall|i: int| 0 <= i < paired(rows@.len(), labels@.len()) ==> #[trigger] labels@[i] < k,
    ensures
        r@ == means_below::<A>(rows@, labels@, rows.columns(), k as nat),
        r.columns() == rows.columns(),
{
    let (_count, columns): (usize, usize) = rows.dim();
    let sums: Vec<(Vec<u32>, usize)> = cluster_sums::<A>(rows, labels, k);
    let mut means: Vec<Vec<u32>> = Vec::new();
    let ghost n = paired(rows@.len(), labels@.len());
    let mut c: usize = 0;
    while c < k
        invariant
            functional::<A>(),
            columns == rows.columns(),
            n == paired(rows@.len(), labels@.len()),
            n <= usize::MAX,
            sums@.len() == k,
            forall|d: int|
                0 <= d < k ==> {
                    &&& (#[trigger] sums@[d]).0@ == cluster_sum::<A>(
                        rows@,
                        labels@,
                        columns as nat,
                        d,
                        n,
                    )
                    &&& sums@[d].1 == cluster_size(labels@, d, n)
                },
            c <= k,
            means@.len() == means_below::<A>(rows@, labels@, columns as nat, c as nat).len(),
            forall|i: int|
                0 <= i < means@.len() ==> (#[trigger] means@[i])@ == means_below::<A>(
                    rows@,
                    labels@,
                    columns as nat,
                    c as nat,
                )[i],
        decreases k - c,
    {
        if sums[c].1 > 0 {
            let mean: Vec<u32> = row_over::<A>(&sums[c].0, sums[c].1);
            proof {
                lemma_cluster_sum_len::<A>(rows@, labels@, columns as nat, c as int, n);
                assert(mean@ =~= cluster_mean::<A>(rows@, labels@, columns as nat, c as int));
            }
            means.push(mean);
        }
        c = c + 1;
    }
    proof {
        lemma_means_below::<A>(rows@, labels@, columns as nat, k as nat);
        lemma_fits_fewer(k as nat, means@.len(), columns as nat);
        assert forall|i: int| 0 <= i < means@.len() implies (#[trigger] means@[i])@.len()
            == columns by {
            assert(means@[i]@ == means_below::<A>(rows@, labels@, columns as nat, k as nat)[i]);
        }
    }
    let result: ScoreGrid = ScoreGrid::from_rows(&means, columns);
    proof {
        assert(result@ =~= means_below::<A>(rows@, labels@, columns as nat, k as nat));
    }
    result
}

/// A table with fewer rows fits where one with more does.
pub proof fn lemma_fits_fewer(rows: nat, fewer: nat, columns: nat)
    requires
        shape_fits(rows, columns),
        fewer <= rows,
    ensures
        shape_fits(fewer, columns),
{
    let a = extent(rows);
    let b = extent(fewer);
    let c = extent(columns);
    assert(b * c <= a * c) by (nonlinear_arith)
        requires
            b <= a,
            c >= 0,
    ;
    assert(fewer * columns <= rows * columns) by (nonlinear_arith)
        requires
            fewer <= rows,
            columns >= 0,
    ;
}

/// The squared distance of two rows over their first `n` cells, in double precision.
pub open spec fn distance_below<A: Arithmetic>(a: Seq<u32>, b: Seq<u32>, n: nat) -> u64
    decreases n,
{
    if n == 0 {
        ZERO_WIDE
    } else {
        let gap = minus_wide_of::<A>(widened_of::<A>(a[n - 1]), widened_of::<A>(b[n - 1]));
        plus_wide_of::<A>(
            distance_below::<A>(a, b, (n - 1) as nat),
            times_wide_of::<A>(gap, gap),
        )
    }
}

/// The squared distance of two rows, over the cells that both have.
pub open spec fn distance_of<A: Arithmetic>(a: Seq<u32>, b: Seq<u32>) -> u64 {
    distance_below::<A>(a, b, paired(a.len(), b.len()))
}

/// The squared distance of two rows.
pub fn squared_distance<A: Arithmetic>(lhs: &Vec<u32>, rhs: &Vec<u32>) -> (r: u64)
    requires
        functional::<A>(),
    ensures
        r == distance_of::<A>(lhs@, rhs@),
{
    let mut sum: u64 = ZERO_WIDE;
    let mut j: usize = 0;
    while j < lhs.len() && j < rhs.len()
        invariant
            functional::<A>(),
            j <= paired(lhs@.len(), rhs@.len()),
            sum == distance_below::<A>(lhs@, rhs@, j as nat),
        decreases lhs@.len() - j,
    {
        let gap: u64 = A::minus_wide(A::widened(lhs[j]), A::widened(rhs[j]));
        sum = A::plus_wide(sum, A::times_wide(gap, gap));
        j = j + 1;
    }
    sum
}

/// The nearest of the first `n` centers and its squared distance; the first of equals, and
/// the very first at an infinite distance where no distance is below infinity.
pub open spec fn nearest_below<A: Arithmetic>(
    point: Seq<u32>,
    centers: Seq<Seq<u32>>,
    n: nat,
) -> (usize, u64)
    decreases n,
{
    if n == 0 {
        (0, INFINITY_WIDE)
    } else {
        let before = nearest_below::<A>(point, centers, (n - 1) as nat);
        let distance = distance_of::<A>(point, centers[n - 1]);
        if less_wide(distance, before.1) {
            ((n - 1) as usize, distance)
        } else {
            before
        }
    }
}

/// The nearest center and its squared distance.
pub open spec fn nearest_of<A: Arithmetic>(point: Seq<u32>, centers: Seq<Seq<u32>>) -> (usize, u64) {
    nearest_below::<A>(point, centers, centers.len())
}

/// The nearest center and its squared distance.
pub fn nearest_center<A: Arithmetic>(point: &Vec<u32>, centers: &ScoreGrid) -> (r: (usize, u64))
    requires
        functional::<A>(),
    ensures
        r == nearest_of::<A>(point@, centers@),
{
    let (count, _columns): (usize, usize) = centers.dim();
    let mut best: usize = 0;
    let mut lowest: u64 = INFINITY_WIDE;
    let mut c: usize = 0;
    while c < count
        invariant
            functional::<A>(),
            count == centers@.len(),
            c <= count,
            (best, lowest) == nearest_below::<A>(point@, centers@, c as nat),
        decreases count - c,
    {
        let center: Vec<u32> = centers.row(c);
        let distance: u64 = squared_distance::<A>(point, &center);
        if is_less_wide(distance, lowest) {
            best = c;
            lowest = distance;
        }
        c = c + 1;
    }
    (best, lowest)
}

/// The sum of the first `n` weights, in double precision.
pub open spec fn weight_sum<A: Arithmetic>(weights: Seq<u64>, n: nat) -> u64
    decreases n,
{
    if n == 0 {
        ZERO_WIDE
    } else {
        plus_wide_of::<A>(weight_sum::<A>(weights, (n - 1) as nat), weights[n - 1])
    }
}

/// Where a walk along the weights from index `i` has used up `target`, or the last index.
pub open spec fn walk<A: Arithmetic>(weights: Seq<u64>, target: u64, i: int) -> int
    decreases weights.len() - i,
{
    if i >= weights.len() {
        weights.len() - 1
    } else if less_wide(target, weights[i]) {
        i
    } else {
        walk::<A>(weights, minus_wide_of::<A>(target, weights[i]), i + 1)
    }
}

/// What choosing seeds has come to: the state of the random numbers, the points chosen, and
/// how far every point is from the nearest of them.
pub struct Seeding {
    /// The state of the random numbers.
    pub state: u64,
    /// The points chosen.
    pub picks: Seq<int>,
    /// The squared distance of every point from the nearest point chosen.
    pub nearest: Seq<u64>,
}

/// Choosing one more seed: a point by its distance, or any where all points are chosen.
pub open spec fn next_pick<A: Arithmetic>(points: Seq<Seq<u32>>, seeding: Seeding) -> int {
    let total = weight_sum::<A>(seeding.nearest, seeding.nearest.len());
    if less_wide(ZERO_WIDE, total) {
        walk::<A>(
            seeding.nearest,
            times_wide_of::<A>(fraction_of::<A>(unit_of(seeding.state)), total),
            0,
        )
    } else {
        below_of(unit_of(seeding.state) as nat, points.len() as usize) as int
    }
}

/// Choosing the first `k` seeds; the first is any point.
pub open spec fn seeding_of<A: Arithmetic>(points: Seq<Seq<u32>>, k: nat, state: u64) -> Seeding
    decreases k,
{
    if k <= 1 {
        let pick = below_of(unit_of(state) as nat, points.len() as usize) as int;
        Seeding {
            state: next_state(state),
            picks: seq![pick],
            nearest: Seq::new(
                points.len(),
                |i: int| distance_of::<A>(points[i], points[pick]),
            ),
        }
    } else {
        let before = seeding_of::<A>(points, (k - 1) as nat, state);
        let pick = next_pick::<A>(points, before);
        Seeding {
            state: next_state(before.state),
            picks: before.picks.push(pick),
            nearest: Seq::new(
                points.len(),
                |i: int|
                    smaller_wide_of(before.nearest[i], distance_of::<A>(points[i], points[pick])),
            ),
        }
    }
}

/// The centers that a run starts from.
pub open spec fn seeds_of(points: Seq<Seq<u32>>, seeding: Seeding) -> Seq<Seq<u32>> {
    Seq::new(seeding.picks.len(), |c: int| points[seeding.picks[c]])
}

/// A walk ends on a point.
proof fn lemma_walk<A: Arithmetic>(weights: Seq<u64>, target: u64, i: int)
    requires
        0 <= i <= weights.len(),
        weights.len() > 0,
    ensures
        0 <= walk::<A>(weights, target, i) < weights.len(),
    decreases weights.len() - i,
{
    if i < weights.len() && !less_wide(target, weights[i]) {
        lemma_walk::<A>(weights, minus_wide_of::<A>(target, weights[i]), i + 1);
    }
}

/// Seeds are points, as many as asked for.
pub(crate) proof fn lemma_seeding<A: Arithmetic>(points: Seq<Seq<u32>>, k: nat, state: u64)
    requires
        0 < points.len() <= usize::MAX,
        k >= 1,
    ensures
        seeding_of::<A>(points, k, state).picks.len() == k,
        seeding_of::<A>(points, k, state).nearest.len() == points.len(),
        forall|c: int|
            0 <= c < k ==> 0 <= #[trigger] seeding_of::<A>(points, k, state).picks[c]
                < points.len(),
    decreases k,
{
    if k > 1 {
        lemma_seeding::<A>(points, (k - 1) as nat, state);
        let before = seeding_of::<A>(points, (k - 1) as nat, state);
        let total = weight_sum::<A>(before.nearest, before.nearest.len());
        lemma_walk::<A>(
            before.nearest,
            times_wide_of::<A>(fraction_of::<A>(unit_of(before.state)), total),
            0,
        );
    }
}

/// Walks along the weights until they have used up `target`.
fn walk_along<A: Arithmetic>(weights: &Vec<u64>, target: u64) -> (r: usize)
    requires
        functional::<A>(),
        weights@.len() > 0,
    ensures
        r == walk::<A>(weights@, target, 0),
        r < weights@.len(),
{
    let mut left: u64 = target;
    let mut i: usize = 0;
    while i < weights.len()
        invariant
            functional::<A>(),
            i <= weights@.len(),
            walk::<A>(weights@, left, i as int) == walk::<A>(weights@, target, 0),
        decreases weights@.len() - i,
    {
        if is_less_wide(left, weights[i]) {
            return i;
        }
        left = A::minus_wide(left, weights[i]);
        i = i + 1;
    }
    weights.len() - 1
}

/// Chooses the next seed.
fn pick_next<A: Arithmetic>(nearest: &Vec<u64>, rng: &mut SplitMix64) -> (r: usize)
    requires
        functional::<A>(),
        nearest@.len() > 0,
    ensures
        final(rng).0 == next_state(old(rng).0),
        ({
            let total = weight_sum::<A>(nearest@, nearest@.len());
            r == if less_wide(ZERO_WIDE, total) {
                walk::<A>(
                    nearest@,
                    times_wide_of::<A>(fraction_of::<A>(unit_of(old(rng).0)), total),
                    0,
                )
            } else {
                below_of(unit_of(old(rng).0) as nat, nearest@.len() as usize) as int
            }
        }),
        r < nearest@.len(),
{
    let n: usize = nearest.len();
    let mut total: u64 = ZERO_WIDE;
    let mut i: usize = 0;
    while i < n
        invariant
            functional::<A>(),
            n == nearest@.len(),
            i <= n,
            total == weight_sum::<A>(nearest@, i as nat),
        decreases n - i,
    {
        total = A::plus_wide(total, nearest[i]);
        i = i + 1;
    }
    if is_less_wide(ZERO_WIDE, total) {
        let unit: u64 = rng.unit();
        walk_along::<A>(nearest, A::times_wide(A::fraction(unit), total))
    } else {
        // Every point sits on a center already: any pick is as good as another.
        rng.below(n)
    }
}

/// Chooses `k` points to start from, each likelier the farther it is from those before.
pub fn kmeans_plus_plus<A: Arithmetic>(points: &ScoreGrid, k: usize, rng: &mut SplitMix64) -> (r:
    ScoreGrid)
    requires
        functional::<A>(),
        points@.len() > 0,
        k > 0,
        shape_fits(k as nat, points.columns()),
    ensures
        r@ == seeds_of(points@, seeding_of::<A>(points@, k as nat, old(rng).0)),
        r.columns() == points.columns(),
        final(rng).0 == seeding_of::<A>(points@, k as nat, old(rng).0).state,
{
    let (n, columns): (usize, usize) = points.dim();
    let ghost state = rng.0;
    let mut centers: ScoreGrid = ScoreGrid::filled(k, columns, ZERO);
    let first: usize = rng.below(n);
    let mut chosen: Vec<u32> = points.row(first);
    centers.set_row(0, &chosen);
    let mut nearest: Vec<u64> = Vec::new();
    let mut i: usize = 0;
    while i < n
        invariant
            functional::<A>(),
            n == points@.len(),
            i <= n,
            chosen@ == points@[first as int],
            nearest@.len() == i,
            forall|j: int|
                0 <= j < i ==> #[trigger] nearest@[j] == distance_of::<A>(points@[j], chosen@),
        decreases n - i,
    {
        let point: Vec<u32> = points.row(i);
        nearest.push(squared_distance::<A>(&point, &chosen));
        i = i + 1;
    }
    proof {
        assert(nearest@ =~= seeding_of::<A>(points@, 1, state).nearest);
        assert(points@.len() as usize == n);
    }
    let mut cluster: usize = 1;
    while cluster < k
        invariant
            functional::<A>(),
            n == points@.len(),
            n > 0,
            columns == points.columns(),
            1 <= cluster <= k,
            centers@.len() == k,
            centers.columns() == columns,
            nearest@ == seeding_of::<A>(points@, cluster as nat, state).nearest,
            nearest@.len() == n,
            rng.0 == seeding_of::<A>(points@, cluster as nat, state).state,
            forall|c: int|
                0 <= c < cluster ==> #[trigger] centers@[c] == points@[seeding_of::<A>(
                    points@,
                    cluster as nat,
                    state,
                ).picks[c]],
        decreases k - cluster,
    {
        let ghost before = seeding_of::<A>(points@, cluster as nat, state);
        let pick: usize = pick_next::<A>(&nearest, rng);
        proof {
            lemma_seeding::<A>(points@, cluster as nat, state);
            assert(points@.len() as usize == n);
            assert(pick == next_pick::<A>(points@, before));
        }
        chosen = points.row(pick);
        centers.set_row(cluster, &chosen);
        let mut closer: Vec<u64> = Vec::new();
        i = 0;
        while i < n
            invariant
                functional::<A>(),
                n == points@.len(),
                i <= n,
                nearest@.len() == n,
                chosen@ == points@[pick as int],
                closer@.len() == i,
                forall|j: int|
                    0 <= j < i ==> #[trigger] closer@[j] == smaller_wide_of(
                        nearest@[j],
                        distance_of::<A>(points@[j], chosen@),
                    ),
            decreases n - i,
        {
            let point: Vec<u32> = points.row(i);
            closer.push(smaller_wide(nearest[i], squared_distance::<A>(&point, &chosen)));
            i = i + 1;
        }
        proof {
            let after = seeding_of::<A>(points@, (cluster + 1) as nat, state);
            assert(closer@ =~= after.nearest);
            assert forall|c: int| 0 <= c < cluster + 1 implies #[trigger] centers@[c]
                == points@[after.picks[c]] by {
                if c < cluster {
                    assert(after.picks[c] == before.picks[c]);
                }
            }
        }
        nearest = closer;
        cluster = cluster + 1;
    }
    proof {
        lemma_seeding::<A>(points@, k as nat, state);
        assert(centers@ =~= seeds_of(points@, seeding_of::<A>(points@, k as nat, state)));
    }
    centers
}

/// The nearest center of every point.
pub open spec fn labels_of<A: Arithmetic>(
    points: Seq<Seq<u32>>,
    centers: Seq<Seq<u32>>,
) -> Seq<usize> {
    Seq::new(points.len(), |i: int| nearest_of::<A>(points[i], centers).0)
}

/// Every center moved to the mean of its points. An emptied cluster keeps its last center
/// rather than collapsing to the origin.
pub open spec fn moved<A: Arithmetic>(
    points: Seq<Seq<u32>>,
    columns: nat,
    labels: Seq<usize>,
    centers: Seq<Seq<u32>>,
) -> Seq<Seq<u32>> {
    Seq::new(
        centers.len(),
        |c: int|
            if cluster_size(labels, c, paired(points.len(), labels.len())) > 0 {
                cluster_mean::<A>(points, labels, columns, c)
            } else {
                centers[c]
            },
    )
}

/// Where a run ends that has `rounds` rounds left: each round labels the points, and moves
/// the centers unless no label changed, which ends the run.
pub open spec fn lloyd<A: Arithmetic>(
    points: Seq<Seq<u32>>,
    columns: nat,
    centers: Seq<Seq<u32>>,
    labels: Seq<usize>,
    rounds: nat,
) -> (Seq<Seq<u32>>, Seq<usize>)
    decreases rounds,
{
    if rounds == 0 {
        (centers, labels)
    } else {
        let nearest = labels_of::<A>(points, centers);
        if nearest == labels {
            (centers, labels)
        } else {
            lloyd::<A>(
                points,
                columns,
                moved::<A>(points, columns, nearest, centers),
                nearest,
                (rounds - 1) as nat,
            )
        }
    }
}

/// The sum of the first `n` points' squared distances from their nearest centers.
pub open spec fn inertia_below<A: Arithmetic>(
    points: Seq<Seq<u32>>,
    centers: Seq<Seq<u32>>,
    n: nat,
) -> u64
    decreases n,
{
    if n == 0 {
        ZERO_WIDE
    } else {
        plus_wide_of::<A>(
            inertia_below::<A>(points, centers, (n - 1) as nat),
            nearest_of::<A>(points[n - 1], centers).1,
        )
    }
}

/// What a run comes to: the state of the random numbers after it, the points' labels and the
/// sum of their squared distances from their centers.
pub struct Run {
    /// The state of the random numbers.
    pub state: u64,
    /// The cluster of every point.
    pub labels: Seq<usize>,
    /// The sum of the squared distances.
    pub inertia: u64,
}

/// Where a run from the random numbers that follow `state` ends: its centers and labels.
pub open spec fn end_of<A: Arithmetic>(
    points: Seq<Seq<u32>>,
    columns: nat,
    k: nat,
    state: u64,
) -> (Seq<Seq<u32>>, Seq<usize>) {
    lloyd::<A>(
        points,
        columns,
        seeds_of(points, seeding_of::<A>(points, k, state)),
        Seq::new(points.len(), |i: int| usize::MAX),
        KMEANS_MAX_ITERS as nat,
    )
}

/// One run, from the random numbers that follow `state`.
pub open spec fn run_of<A: Arithmetic>(
    points: Seq<Seq<u32>>,
    columns: nat,
    k: nat,
    state: u64,
) -> Run {
    let seeding = seeding_of::<A>(points, k, state);
    let end = end_of::<A>(points, columns, k, state);
    Run {
        state: seeding.state,
        labels: end.1,
        inertia: inertia_below::<A>(points, end.0, points.len()),
    }
}

/// The best of the first `runs` runs, each from where the one before left the random numbers:
/// the first, unless a later one has a smaller sum of squared distances.
pub open spec fn best_run<A: Arithmetic>(
    points: Seq<Seq<u32>>,
    columns: nat,
    k: nat,
    runs: nat,
    state: u64,
) -> Run
    decreases runs,
{
    if runs <= 1 {
        run_of::<A>(points, columns, k, state)
    } else {
        let before = best_run::<A>(points, columns, k, (runs - 1) as nat, state);
        let last = run_of::<A>(points, columns, k, before.state);
        if less_wide(last.inertia, before.inertia) {
            last
        } else {
            Run { state: last.state, labels: before.labels, inertia: before.inertia }
        }
    }
}

/// A nearest center is one of the centers.
pub(crate) proof fn lemma_nearest_bound<A: Arithmetic>(point: Seq<u32>, centers: Seq<Seq<u32>>, n: nat)
    requires
        n <= usize::MAX,
    ensures
        n > 0 ==> nearest_below::<A>(point, centers, n).0 < n,
        n == 0 ==> nearest_below::<A>(point, centers, n).0 == 0,
    decreases n,
{
    if n > 0 {
        lemma_nearest_bound::<A>(point, centers, (n - 1) as nat);
    }
}

/// A run leaves every point with a cluster's label.
proof fn lemma_lloyd_bound<A: Arithmetic>(
    points: Seq<Seq<u32>>,
    columns: nat,
    centers: Seq<Seq<u32>>,
    labels: Seq<usize>,
    rounds: nat,
)
    requires
        0 < centers.len() <= usize::MAX,
        labels.len() == points.len(),
        rounds > 0 || forall|i: int| 0 <= i < labels.len() ==> #[trigger] labels[i]
            < centers.len(),
    ensures
        lloyd::<A>(points, columns, centers, labels, rounds).1.len() == points.len(),
        forall|i: int|
            0 <= i < points.len() ==> #[trigger] lloyd::<A>(
                points,
                columns,
                centers,
                labels,
                rounds,
            ).1[i] < centers.len(),
    decreases rounds,
{
    if rounds > 0 {
        let nearest = labels_of::<A>(points, centers);
        assert forall|i: int| 0 <= i < points.len() implies #[trigger] nearest[i]
            < centers.len() by {
            lemma_nearest_bound::<A>(points[i], centers, centers.len());
        }
        if nearest != labels {
            lemma_lloyd_bound::<A>(
                points,
                columns,
                moved::<A>(points, columns, nearest, centers),
                nearest,
                (rounds - 1) as nat,
            );
        }
    }
}

/// Clustering leaves every point with the label of one of the clusters.
pub proof fn law_every_point_has_a_cluster<A: Arithmetic>(
    points: Seq<Seq<u32>>,
    columns: nat,
    k: nat,
    runs: nat,
    state: u64,
)
    requires
        0 < points.len() <= usize::MAX,
        0 < k <= usize::MAX,
    ensures
        best_run::<A>(points, columns, k, runs, state).labels.len() == points.len(),
        forall|i: int|
            0 <= i < points.len() ==> #[trigger] best_run::<A>(
                points,
                columns,
                k,
                runs,
                state,
            ).labels[i] < k,
    decreases runs,
{
    let from = if runs <= 1 {
        state
    } else {
        law_every_point_has_a_cluster::<A>(points, columns, k, (runs - 1) as nat, state);
        best_run::<A>(points, columns, k, (runs - 1) as nat, state).state
    };
    lemma_seeding::<A>(points, k, from);
    lemma_lloyd_bound::<A>(
        points,
        columns,
        seeds_of(points, seeding_of::<A>(points, k, from)),
        Seq::new(points.len(), |i: int| usize::MAX),
        KMEANS_MAX_ITERS as nat,
    );
}

/// Labels every point with its nearest center, and tells whether any label changed.
fn relabel<A: Arithmetic>(points: &ScoreGrid, centers: &ScoreGrid, labels: &mut Vec<usize>) -> (r:
    bool)
    requires
        functional::<A>(),
        old(labels)@.len() == points@.len(),
    ensures
        final(labels)@ == labels_of::<A>(points@, centers@),
        r == (final(labels)@ != old(labels)@),
{
    let (n, _columns): (usize, usize) = points.dim();
    let ghost earlier = labels@;
    let mut changed: bool = false;
    let mut i: usize = 0;
    while i < n
        invariant
            functional::<A>(),
            n == points@.len(),
            i <= n,
            labels@.len() == n,
            earlier.len() == n,
            forall|j: int|
                0 <= j < i ==> #[trigger] labels@[j] == nearest_of::<A>(points@[j], centers@).0,
            forall|j: int| i <= j < n ==> #[trigger] labels@[j] == earlier[j],
            changed == exists|j: int| 0 <= j < i && labels@[j] != #[trigger] earlier[j],
        decreases n - i,
    {
        let point: Vec<u32> = points.row(i);
        let nearest: usize = nearest_center::<A>(&point, centers).0;
        let differs: bool = labels[i] != nearest;
        let ghost before = labels@;
        labels.set(i, nearest);
        proof {
            if changed {
                let j = choose|j: int| 0 <= j < i && before[j] != #[trigger] earlier[j];
                assert(labels@[j] != earlier[j]);
            }
            if differs {
                assert(labels@[i as int] != earlier[i as int]);
            }
            assert((changed || differs) == exists|j: int|
                0 <= j < i + 1 && labels@[j] != #[trigger] earlier[j]) by {
                if exists|j: int| 0 <= j < i + 1 && labels@[j] != #[trigger] earlier[j] {
                    let j = choose|j: int| 0 <= j < i + 1 && labels@[j] != #[trigger] earlier[j];
                    if j < i {
                        assert(before[j] != earlier[j]);
                    }
                }
            }
        }
        changed = changed || differs;
        i = i + 1;
    }
    proof {
        assert(labels@ =~= labels_of::<A>(points@, centers@));
        if !changed {
            assert(labels@ =~= earlier);
        }
    }
    changed
}

/// Moves every center to the mean of its points.
fn recenter<A: Arithmetic>(points: &ScoreGrid, labels: &Vec<usize>, centers: &mut ScoreGrid)
    requires
        functional::<A>(),
        old(centers).columns() == points.columns(),
        labels@.len() == points@.len(),
        forall|i: int| 0 <= i < labels@.len() ==> #[trigger] labels@[i] < old(centers)@.len(),
    ensures
        final(centers)@ == moved::<A>(points@, points.columns(), labels@, old(centers)@),
        final(centers).columns() == points.columns(),
{
    let (k, columns): (usize, usize) = centers.dim();
    let ghost earlier = centers@;
    let ghost n = paired(points@.len(), labels@.len());
    let sums: Vec<(Vec<u32>, usize)> = cluster_sums::<A>(points, labels, k);
    let mut c: usize = 0;
    while c < k
        invariant
            functional::<A>(),
            columns == points.columns(),
            centers.columns() == columns,
            centers@.len() == k,
            earlier.len() == k,
            n == paired(points@.len(), labels@.len()),
            sums@.len() == k,
            forall|d: int|
                0 <= d < k ==> {
                    &&& (#[trigger] sums@[d]).0@ == cluster_sum::<A>(
                        points@,
                        labels@,
                        columns as nat,
                        d,
                        n,
                    )
                    &&& sums@[d].1 == cluster_size(labels@, d, n)
                },
            c <= k,
            forall|d: int|
                0 <= d < c ==> #[trigger] centers@[d] == moved::<A>(
                    points@,
                    columns as nat,
                    labels@,
                    earlier,
                )[d],
            forall|d: int| c <= d < k ==> #[trigger] centers@[d] == earlier[d],
        decreases k - c,
    {
        if sums[c].1 > 0 {
            let mean: Vec<u32> = row_over::<A>(&sums[c].0, sums[c].1);
            proof {
                lemma_cluster_sum_len::<A>(points@, labels@, columns as nat, c as int, n);
                assert(mean@ =~= cluster_mean::<A>(points@, labels@, columns as nat, c as int));
            }
            centers.set_row(c, &mean);
        }
        c = c + 1;
    }
    proof {
        assert(centers@ =~= moved::<A>(points@, columns as nat, labels@, earlier));
    }
}

/// Runs Lloyd's algorithm from the given centers, and gives the points' labels.
fn settle<A: Arithmetic>(points: &ScoreGrid, centers: &mut ScoreGrid) -> (r: Vec<usize>)
    requires
        functional::<A>(),
        old(centers)@.len() > 0,
        old(centers).columns() == points.columns(),
    ensures
        (final(centers)@, r@) == lloyd::<A>(
            points@,
            points.columns(),
            old(centers)@,
            Seq::new(points@.len(), |i: int| usize::MAX),
            KMEANS_MAX_ITERS as nat,
        ),
        final(centers).columns() == points.columns(),
{
    let (n, columns): (usize, usize) = points.dim();
    let (k, _columns): (usize, usize) = centers.dim();
    let mut labels: Vec<usize> = vec![usize::MAX; n];
    let ghost target = lloyd::<A>(
        points@,
        columns as nat,
        centers@,
        labels@,
        KMEANS_MAX_ITERS as nat,
    );
    proof {
        assert(labels@ =~= Seq::new(points@.len(), |i: int| usize::MAX));
    }
    let mut round: usize = 0;
    while round < KMEANS_MAX_ITERS
        invariant
            functional::<A>(),
            n == points@.len(),
            columns == points.columns(),
            centers.columns() == columns,
            centers@.len() == k,
            k > 0,
            labels@.len() == n,
            round <= KMEANS_MAX_ITERS,
            lloyd::<A>(
                points@,
                columns as nat,
                centers@,
                labels@,
                (KMEANS_MAX_ITERS - round) as nat,
            ) == target,
        ensures
            centers.columns() == columns,
            (centers@, labels@) == target,
        decreases KMEANS_MAX_ITERS - round,
    {
        let ghost earlier = labels@;
        let changed: bool = relabel::<A>(points, &*centers, &mut labels);
        if !changed {
            break;
        }
        proof {
            assert forall|i: int| 0 <= i < labels@.len() implies #[trigger] labels@[i]
                < centers@.len() by {
                lemma_nearest_bound::<A>(points@[i], centers@, centers@.len());
            }
        }
        recenter::<A>(points, &labels, centers);
        round = round + 1;
    }
    labels
}

/// The sum of the points' squared distances from their nearest centers.
fn inertia<A: Arithmetic>(points: &ScoreGrid, centers: &ScoreGrid) -> (r: u64)
    requires
        functional::<A>(),
    ensures
        r == inertia_below::<A>(points@, centers@, points@.len()),
{
    let (n, _columns): (usize, usize) = points.dim();
    let mut sum: u64 = ZERO_WIDE;
    let mut i: usize = 0;
    while i < n
        invariant
            functional::<A>(),
            n == points@.len(),
            i <= n,
            sum == inertia_below::<A>(points@, centers@, i as nat),
        decreases n - i,
    {
        let point: Vec<u32> = points.row(i);
        sum = A::plus_wide(sum, nearest_center::<A>(&point, centers).1);
        i = i + 1;
    }
    sum
}

/// Lloyd's algorithm from k-means++ seeds, best of `runs` by the sum of squared distances.
pub fn kmeans<A: Arithmetic>(points: &ScoreGrid, k: usize, runs: usize, seed: u64) -> (r: Vec<
    usize,
>)
    requires
        functional::<A>(),
        points@.len() > 0,
        k > 0,
        shape_fits(k as nat, points.columns()),
    ensures
        r@ == best_run::<A>(points@, points.columns(), k as nat, runs as nat, seed).labels,
        r@.len() == points@.len(),
        forall|i: int| 0 <= i < r@.len() ==> #[trigger] r@[i] < k,
{
    let (n, columns): (usize, usize) = points.dim();
    let mut rng: SplitMix64 = SplitMix64(seed);
    let mut centers: ScoreGrid = kmeans_plus_plus::<A>(points, k, &mut rng);
    proof {
        lemma_seeding::<A>(points@, k as nat, seed);
    }
    let mut labels: Vec<usize> = settle::<A>(points, &mut centers);
    let mut lowest: u64 = inertia::<A>(points, &centers);
    let mut run: usize = 1;
    while run < runs
        invariant
            functional::<A>(),
            n == points@.len(),
            n > 0,
            k > 0,
            columns == points.columns(),
            shape_fits(k as nat, columns as nat),
            1 <= run,
            run <= runs || run == 1,
            ({
                let best = best_run::<A>(points@, columns as nat, k as nat, run as nat, seed);
                &&& rng.0 == best.state
                &&& labels@ == best.labels
                &&& lowest == best.inertia
            }),
        decreases runs - run,
    {
        let ghost state = rng.0;
        centers = kmeans_plus_plus::<A>(points, k, &mut rng);
        proof {
            lemma_seeding::<A>(points@, k as nat, state);
        }
        let candidate: Vec<usize> = settle::<A>(points, &mut centers);
        let sum: u64 = inertia::<A>(points, &centers);
        if is_less_wide(sum, lowest) {
            labels = candidate;
            lowest = sum;
        }
        run = run + 1;
    }
    proof {
        assert(best_run::<A>(points@, columns as nat, k as nat, run as nat, seed) == best_run::<
            A,
        >(points@, columns as nat, k as nat, runs as nat, seed));
        law_every_point_has_a_cluster::<A>(
            points@,
            columns as nat,
            k as nat,
            runs as nat,
            seed,
        );
    }
    labels
}

/// The nearest center is the first of those nearest: none is nearer, and every earlier one is
/// farther or at no distance at all.
///
/// A point that is less than infinitely far from no center is left out.
pub proof fn law_nearest_center_is_nearest<A: Arithmetic>(
    point: Seq<u32>,
    centers: Seq<Seq<u32>>,
    c: int,
)
    requires
        0 < centers.len() <= usize::MAX,
        0 <= c < centers.len(),
        exists|d: int|
            0 <= d < centers.len() && less_wide(
                #[trigger] distance_of::<A>(point, centers[d]),
                INFINITY_WIDE,
            ),
    ensures
        ({
            let nearest = nearest_of::<A>(point, centers);
            let other = distance_of::<A>(point, centers[c]);
            &&& nearest.0 < centers.len()
            &&& nearest.1 == distance_of::<A>(point, centers[nearest.0 as int])
            &&& !less_wide(other, nearest.1)
            &&& c < nearest.0 ==> less_wide(nearest.1, other) || not_a_number_wide(other)
        }),
{
    lemma_nearest::<A>(point, centers, centers.len());
    let d = choose|d: int|
        0 <= d < centers.len() && less_wide(
            #[trigger] distance_of::<A>(point, centers[d]),
            INFINITY_WIDE,
        );
    assert(!less_wide(
        distance_of::<A>(point, centers[d]),
        nearest_of::<A>(point, centers).1,
    ));
}

/// What the walk over the centers keeps: nothing seen is nearer than the nearest, and
/// everything before it is farther or at no distance.
pub(crate) proof fn lemma_nearest<A: Arithmetic>(point: Seq<u32>, centers: Seq<Seq<u32>>, n: nat)
    requires
        n <= usize::MAX,
    ensures
        ({
            let best = nearest_below::<A>(point, centers, n);
            &&& forall|c: int|
                0 <= c < n ==> !less_wide(
                    #[trigger] distance_of::<A>(point, centers[c]),
                    best.1,
                )
            &&& best.1 == INFINITY_WIDE || (best.0 < n && best.1 == distance_of::<A>(
                point,
                centers[best.0 as int],
            ) && forall|c: int|
                0 <= c < best.0 ==> {
                    let other = #[trigger] distance_of::<A>(point, centers[c]);
                    less_wide(best.1, other) || not_a_number_wide(other)
                })
        }),
    decreases n,
{
    if n > 0 {
        lemma_nearest::<A>(point, centers, (n - 1) as nat);
    }
}

/// The state of the random numbers before run `i`, counted from zero.
pub open spec fn state_before<A: Arithmetic>(
    points: Seq<Seq<u32>>,
    columns: nat,
    k: nat,
    state: u64,
    i: nat,
) -> u64 {
    if i == 0 {
        state
    } else {
        best_run::<A>(points, columns, k, i, state).state
    }
}

/// The run that is kept is one of the runs, and none has a smaller sum of squared distances.
pub proof fn law_best_run_is_kept<A: Arithmetic>(
    points: Seq<Seq<u32>>,
    columns: nat,
    k: nat,
    runs: nat,
    state: u64,
    i: nat,
)
    requires
        i < runs,
    ensures
        ({
            let best = best_run::<A>(points, columns, k, runs, state);
            let other = run_of::<A>(
                points,
                columns,
                k,
                state_before::<A>(points, columns, k, state, i),
            );
            &&& !less_wide(other.inertia, best.inertia)
            &&& exists|j: nat|
                j < runs && {
                    let kept = run_of::<A>(
                        points,
                        columns,
                        k,
                        #[trigger] state_before::<A>(points, columns, k, state, j),
                    );
                    kept.labels == best.labels && kept.inertia == best.inertia
                }
        }),
    decreases runs,
{
    if runs == 1 {
        assert(state_before::<A>(points, columns, k, state, 0) == state);
    } else {
        let before = (runs - 1) as nat;
        let at = if i < before {
            i
        } else {
            0
        };
        law_best_run_is_kept::<A>(points, columns, k, before, state, at);
        let earlier = best_run::<A>(points, columns, k, before, state);
        let last = run_of::<A>(points, columns, k, earlier.state);
        assert(state_before::<A>(points, columns, k, state, before) == earlier.state);
        if !less_wide(last.inertia, earlier.inertia) {
            let j = choose|j: nat|
                j < before && {
                    let kept = run_of::<A>(
                        points,
                        columns,
                        k,
                        #[trigger] state_before::<A>(points, columns, k, state, j),
                    );
                    kept.labels == earlier.labels && kept.inertia == earlier.inertia
                };
            assert(j < runs);
        }
    }
}

/// The sum of the first `n` points' squared distances from the means of their own clusters.
pub open spec fn spread_below<A: Arithmetic>(
    points: Seq<Seq<u32>>,
    columns: nat,
    labels: Seq<usize>,
    n: nat,
) -> u64
    decreases n,
{
    if n == 0 {
        ZERO_WIDE
    } else {
        plus_wide_of::<A>(
            spread_below::<A>(points, columns, labels, (n - 1) as nat),
            distance_of::<A>(
                points[n - 1],
                cluster_mean::<A>(points, labels, columns, labels[n - 1] as int),
            ),
        )
    }
}

/// The sum of the points' squared distances from the means of their own clusters.
pub open spec fn spread_of<A: Arithmetic>(
    points: Seq<Seq<u32>>,
    columns: nat,
    labels: Seq<usize>,
) -> u64 {
    spread_below::<A>(points, columns, labels, points.len())
}

/// Whether every point has a distance, however far, from the mean of its own cluster.
pub open spec fn measurable<A: Arithmetic>(
    points: Seq<Seq<u32>>,
    columns: nat,
    labels: Seq<usize>,
) -> bool {
    forall|i: int|
        0 <= i < points.len() ==> !not_a_number_wide(
            #[trigger] distance_of::<A>(
                points[i],
                cluster_mean::<A>(points, labels, columns, labels[i] as int),
            ),
        )
}

/// Whether a run converges: labelling the points once more changes nothing.
pub open spec fn converges<A: Arithmetic>(
    points: Seq<Seq<u32>>,
    columns: nat,
    k: nat,
    state: u64,
) -> bool {
    let end = end_of::<A>(points, columns, k, state);
    labels_of::<A>(points, end.0) == end.1
}

/// Whether a run converges to labels whose points all have a distance from their means.
pub open spec fn settles<A: Arithmetic>(
    points: Seq<Seq<u32>>,
    columns: nat,
    k: nat,
    state: u64,
) -> bool {
    &&& converges::<A>(points, columns, k, state)
    &&& measurable::<A>(points, columns, run_of::<A>(points, columns, k, state).labels)
}

/// Whether every cluster that has points has its mean for a center.
spec fn centered<A: Arithmetic>(
    points: Seq<Seq<u32>>,
    columns: nat,
    centers: Seq<Seq<u32>>,
    labels: Seq<usize>,
) -> bool {
    forall|c: int|
        0 <= c < centers.len() && cluster_size(labels, c, paired(points.len(), labels.len())) > 0
            ==> #[trigger] centers[c] == cluster_mean::<A>(points, labels, columns, c)
}

/// A run that moves its centers ends with them at the means of their clusters.
proof fn lemma_lloyd_centered<A: Arithmetic>(
    points: Seq<Seq<u32>>,
    columns: nat,
    centers: Seq<Seq<u32>>,
    labels: Seq<usize>,
    rounds: nat,
)
    requires
        centered::<A>(points, columns, centers, labels) || (rounds > 0 && labels_of::<A>(
            points,
            centers,
        ) != labels),
    ensures
        ({
            let end = lloyd::<A>(points, columns, centers, labels, rounds);
            &&& centered::<A>(points, columns, end.0, end.1)
            &&& end.0.len() == centers.len()
        }),
    decreases rounds,
{
    if rounds > 0 {
        let nearest = labels_of::<A>(points, centers);
        if nearest != labels {
            lemma_lloyd_centered::<A>(
                points,
                columns,
                moved::<A>(points, columns, nearest, centers),
                nearest,
                (rounds - 1) as nat,
            );
        }
    }
}

/// A number that is not below infinity is infinity.
proof fn lemma_infinite(b: u64)
    requires
        !not_a_number_wide(b),
        !less_wide(b, INFINITY_WIDE),
    ensures
        b == INFINITY_WIDE,
{
}

/// With every center at the mean of its cluster and every point labelled by its nearest
/// center, the two sums of squared distances are one.
proof fn lemma_inertia_is_spread<A: Arithmetic>(
    points: Seq<Seq<u32>>,
    columns: nat,
    centers: Seq<Seq<u32>>,
    labels: Seq<usize>,
    n: nat,
)
    requires
        n <= points.len(),
        0 < centers.len() <= usize::MAX,
        labels == labels_of::<A>(points, centers),
        centered::<A>(points, columns, centers, labels),
        measurable::<A>(points, columns, labels),
    ensures
        inertia_below::<A>(points, centers, n) == spread_below::<A>(points, columns, labels, n),
    decreases n,
{
    if n > 0 {
        let i = n - 1;
        let own = labels[i] as int;
        lemma_inertia_is_spread::<A>(points, columns, centers, labels, (n - 1) as nat);
        lemma_nearest_bound::<A>(points[i], centers, centers.len());
        lemma_nearest::<A>(points[i], centers, centers.len());
        lemma_own_cluster(labels, i, paired(points.len(), labels.len()));
        assert(own == nearest_of::<A>(points[i], centers).0);
        assert(centers[own] == cluster_mean::<A>(points, labels, columns, own));
        assert(!not_a_number_wide(distance_of::<A>(points[i], centers[own])));
        assert(!less_wide(
            distance_of::<A>(points[i], centers[own]),
            nearest_of::<A>(points[i], centers).1,
        ));
        if nearest_of::<A>(points[i], centers).1 == INFINITY_WIDE {
            lemma_infinite(distance_of::<A>(points[i], centers[own]));
        }
    }
}

/// What a run that settles is judged by is how far its points lie from the means of their
/// clusters.
proof fn lemma_run_spread<A: Arithmetic>(
    points: Seq<Seq<u32>>,
    columns: nat,
    k: nat,
    state: u64,
)
    requires
        0 < points.len() <= usize::MAX,
        0 < k <= usize::MAX,
        settles::<A>(points, columns, k, state),
    ensures
        ({
            let run = run_of::<A>(points, columns, k, state);
            run.inertia == spread_of::<A>(points, columns, run.labels)
        }),
{
    let seeds = seeds_of(points, seeding_of::<A>(points, k, state));
    let unlabelled = Seq::new(points.len(), |i: int| usize::MAX);
    let end = end_of::<A>(points, columns, k, state);
    lemma_seeding::<A>(points, k, state);
    lemma_nearest_bound::<A>(points[0], seeds, seeds.len());
    assert(labels_of::<A>(points, seeds)[0] != unlabelled[0]);
    lemma_lloyd_centered::<A>(points, columns, seeds, unlabelled, KMEANS_MAX_ITERS as nat);
    lemma_inertia_is_spread::<A>(points, columns, end.0, end.1, points.len());
}

/// Where every run settles, no run's points lie closer to the means of their clusters than
/// those of the labels that are kept.
pub proof fn law_kept_labels_lie_closest_to_their_means<A: Arithmetic>(
    points: Seq<Seq<u32>>,
    columns: nat,
    k: nat,
    runs: nat,
    state: u64,
    i: nat,
)
    requires
        0 < points.len() <= usize::MAX,
        0 < k <= usize::MAX,
        i < runs,
        forall|j: nat|
            j < runs ==> settles::<A>(
                points,
                columns,
                k,
                #[trigger] state_before::<A>(points, columns, k, state, j),
            ),
    ensures
        ({
            let kept = best_run::<A>(points, columns, k, runs, state).labels;
            let other = run_of::<A>(
                points,
                columns,
                k,
                state_before::<A>(points, columns, k, state, i),
            ).labels;
            !less_wide(
                spread_of::<A>(points, columns, other),
                spread_of::<A>(points, columns, kept),
            )
        }),
{
    let best = best_run::<A>(points, columns, k, runs, state);
    law_best_run_is_kept::<A>(points, columns, k, runs, state, i);
    let j = choose|j: nat|
        j < runs && {
            let kept = run_of::<A>(
                points,
                columns,
                k,
                #[trigger] state_before::<A>(points, columns, k, state, j),
            );
            kept.labels == best.labels && kept.inertia == best.inertia
        };
    lemma_run_spread::<A>(
        points,
        columns,
        k,
        state_before::<A>(points, columns, k, state, j),
    );
    lemma_run_spread::<A>(
        points,
        columns,
        k,
        state_before::<A>(points, columns, k, state, i),
    );
}

/// No runs is one run, and where every run settles, one more run never puts the points farther
/// from the means of their clusters.
pub proof fn law_more_runs_are_never_worse<A: Arithmetic>(
    points: Seq<Seq<u32>>,
    columns: nat,
    k: nat,
    runs: nat,
    state: u64,
)
    requires
        0 < points.len() <= usize::MAX,
        0 < k <= usize::MAX,
        forall|j: nat|
            j <= runs ==> settles::<A>(
                points,
                columns,
                k,
                #[trigger] state_before::<A>(points, columns, k, state, j),
            ),
    ensures
        best_run::<A>(points, columns, k, 0, state) == best_run::<A>(points, columns, k, 1, state),
        !less_wide(
            spread_of::<A>(
                points,
                columns,
                best_run::<A>(points, columns, k, runs, state).labels,
            ),
            spread_of::<A>(
                points,
                columns,
                best_run::<A>(points, columns, k, runs + 1, state).labels,
            ),
        ),
{
    if runs > 0 {
        let before = best_run::<A>(points, columns, k, runs, state);
        law_best_run_is_kept::<A>(points, columns, k, runs, state, 0);
        let j = choose|j: nat|
            j < runs && {
                let kept = run_of::<A>(
                    points,
                    columns,
                    k,
                    #[trigger] state_before::<A>(points, columns, k, state, j),
                );
                kept.labels == before.labels && kept.inertia == before.inertia
            };
        law_kept_labels_lie_closest_to_their_means::<A>(
            points,
            columns,
            k,
            runs + 1,
            state,
            j,
        );
    }
}

} // verus!
