//! What clustering comes to, in terms of the points and their distances.
use crate::arithmetic::{
    counted_of, dot_of, minus_wide_of, over_of, plus_of, plus_wide_of, root_of, times_wide_of,
    widened_of, Arithmetic,
};
use crate::clustering::{
    best_run, cluster_mean, cluster_size, cluster_sum, distance_below, distance_of, end_of,
    inertia_below, labels_of, law_best_run_is_kept, lemma_nearest, lemma_nearest_bound,
    lemma_own_cluster, lemma_seeding, lloyd, means_below, moved, nearest_below, nearest_of, normalized,
    paired, run_of, seeding_of, seeds_of, state_before,
};
use crate::score::{less, less_wide, not_a_number_wide, INFINITY_WIDE, ZERO, ZERO_WIDE};
use crate::seeding_laws::total_weight;
use vstd::prelude::*;

verus! {

/// Whether `unit` points the way of `row`: it is the row with every cell divided by the row's
/// length, or the row itself where that length is not positive.
pub open spec fn points_along<A: Arithmetic>(row: Seq<u32>, unit: Seq<u32>) -> bool {
    let length = root_of::<A>(dot_of::<A>(row, row));
    if less(ZERO, length) {
        &&& unit.len() == row.len()
        &&& forall|j: int|
            0 <= j < row.len() ==> #[trigger] unit[j] == over_of::<A>(row[j], length)
    } else {
        unit == row
    }
}

/// Whether `c` is the first of the centers nearest to a point, or the first of all where none
/// is less than infinitely far.
pub open spec fn is_first_nearest<A: Arithmetic>(
    point: Seq<u32>,
    centers: Seq<Seq<u32>>,
    c: int,
) -> bool {
    if forall|d: int|
        0 <= d < centers.len() ==> !less_wide(
            distance_of::<A>(point, #[trigger] centers[d]),
            INFINITY_WIDE,
        ) {
        c == 0
    } else {
        let least = distance_of::<A>(point, centers[c]);
        &&& 0 <= c < centers.len()
        &&& less_wide(least, INFINITY_WIDE)
        &&& forall|d: int|
            0 <= d < centers.len() ==> !less_wide(
                distance_of::<A>(point, #[trigger] centers[d]),
                least,
            )
        &&& forall|d: int|
            0 <= d < c ==> {
                let other = distance_of::<A>(point, #[trigger] centers[d]);
                less_wide(least, other) || not_a_number_wide(other)
            }
    }
}

/// Whether `distance` is that of a point from the nearest center, or infinity where none is
/// less than infinitely far.
pub open spec fn is_least_distance<A: Arithmetic>(
    point: Seq<u32>,
    centers: Seq<Seq<u32>>,
    distance: u64,
) -> bool {
    &&& forall|d: int|
        0 <= d < centers.len() ==> !less_wide(
            distance_of::<A>(point, #[trigger] centers[d]),
            distance,
        )
    &&& distance == INFINITY_WIDE || exists|d: int|
        0 <= d < centers.len() && distance == distance_of::<A>(point, #[trigger] centers[d])
}

/// Whether every point is labelled with the first of the centers nearest to it.
pub open spec fn names_nearest<A: Arithmetic>(
    points: Seq<Seq<u32>>,
    centers: Seq<Seq<u32>>,
    labels: Seq<usize>,
) -> bool {
    &&& labels.len() == points.len()
    &&& forall|i: int|
        0 <= i < points.len() ==> is_first_nearest::<A>(
            points[i],
            centers,
            #[trigger] labels[i] as int,
        )
}

/// The numbers below `n`, in order.
pub open spec fn counting(n: nat) -> Seq<int> {
    Seq::new(n, |i: int| i)
}

/// Adding cell `j` of row `i` to a sum, where the row carries a label.
pub open spec fn adding<A: Arithmetic>(
    rows: Seq<Seq<u32>>,
    labels: Seq<usize>,
    cluster: int,
    j: int,
) -> spec_fn(u32, int) -> u32 {
    |sum: u32, i: int|
        if labels[i] == cluster {
            plus_of::<A>(sum, rows[i][j])
        } else {
            sum
        }
}

/// Column `j` of the rows that carry a label, added from the top onto zero.
pub open spec fn column_sum<A: Arithmetic>(
    rows: Seq<Seq<u32>>,
    labels: Seq<usize>,
    cluster: int,
    j: int,
) -> u32 {
    counting(rows.len()).fold_left(ZERO, adding::<A>(rows, labels, cluster, j))
}

/// How many labels name a cluster.
pub open spec fn label_count(labels: Seq<usize>, cluster: int) -> nat {
    labels.fold_left(
        0nat,
        |count: nat, label: usize|
            if label == cluster {
                count + 1
            } else {
                count
            },
    )
}

/// Whether `mean` is the mean of the rows that carry a label: in every column their sum
/// divided by how many they are.
pub open spec fn is_mean<A: Arithmetic>(
    rows: Seq<Seq<u32>>,
    labels: Seq<usize>,
    columns: nat,
    cluster: int,
    mean: Seq<u32>,
) -> bool {
    &&& mean.len() == columns
    &&& forall|j: int|
        0 <= j < columns ==> #[trigger] mean[j] == over_of::<A>(
            column_sum::<A>(rows, labels, cluster, j),
            counted_of::<A>(label_count(labels, cluster) as usize),
        )
}

/// Whether the centers have moved to the means of their points, and those without points have
/// stayed.
pub open spec fn moves_to_means<A: Arithmetic>(
    points: Seq<Seq<u32>>,
    columns: nat,
    labels: Seq<usize>,
    from: Seq<Seq<u32>>,
    to: Seq<Seq<u32>>,
) -> bool {
    &&& to.len() == from.len()
    &&& forall|c: int|
        0 <= c < from.len() ==> if exists|i: int| 0 <= i < labels.len() && labels[i] == c {
            is_mean::<A>(points, labels, columns, c, #[trigger] to[c])
        } else {
            to[c] == from[c]
        }
}

/// Whether the centers and labels are those of the rounds of one run, one after the other:
/// each round labels the points with their nearest centers, changes a label and moves the
/// centers to the means.
pub open spec fn rounds_of<A: Arithmetic>(
    points: Seq<Seq<u32>>,
    columns: nat,
    centers: Seq<Seq<Seq<u32>>>,
    labels: Seq<Seq<usize>>,
) -> bool {
    &&& centers.len() == labels.len()
    &&& centers.len() > 0
    &&& forall|t: int, u: int|
        0 <= t && u == t + 1 && u < labels.len() ==> {
            &&& names_nearest::<A>(points, #[trigger] centers[t], #[trigger] labels[u])
            &&& labels[u] != labels[t]
            &&& moves_to_means::<A>(points, columns, labels[u], centers[t], centers[u])
        }
}

/// Rows divided by their lengths point the way they did.
pub proof fn law_normalized_rows_keep_their_direction<A: Arithmetic>(
    row: Seq<u32>,
    unit: Seq<u32>,
)
    ensures
        points_along::<A>(row, normalized::<A>(row)),
        points_along::<A>(row, unit) ==> unit == normalized::<A>(row),
{
    if points_along::<A>(row, unit) {
        assert(unit =~= normalized::<A>(row));
    }
}

/// The first cells alone decide how far two rows are apart over them.
proof fn lemma_distance_prefix<A: Arithmetic>(
    a: Seq<u32>,
    b: Seq<u32>,
    c: Seq<u32>,
    d: Seq<u32>,
    n: nat,
)
    requires
        forall|j: int| 0 <= j < n ==> #[trigger] a[j] == c[j],
        forall|j: int| 0 <= j < n ==> #[trigger] b[j] == d[j],
    ensures
        distance_below::<A>(a, b, n) == distance_below::<A>(c, d, n),
    decreases n,
{
    if n > 0 {
        lemma_distance_prefix::<A>(a, b, c, d, (n - 1) as nat);
        assert(a[n - 1] == c[n - 1]);
        assert(b[n - 1] == d[n - 1]);
    }
}

/// Empty rows are at no distance; one more cell in either of two rows adds the square of what
/// lies between the two; a cell without a counterpart changes nothing.
pub proof fn law_one_more_cell_adds_its_square<A: Arithmetic>(
    a: Seq<u32>,
    b: Seq<u32>,
    x: u32,
    y: u32,
)
    requires
        a.len() == b.len(),
    ensures
        a.len() == 0 ==> distance_of::<A>(a, b) == ZERO_WIDE,
        ({
            let gap = minus_wide_of::<A>(widened_of::<A>(x), widened_of::<A>(y));
            distance_of::<A>(a.push(x), b.push(y)) == plus_wide_of::<A>(
                distance_of::<A>(a, b),
                times_wide_of::<A>(gap, gap),
            )
        }),
        distance_of::<A>(a.push(x), b) == distance_of::<A>(a, b),
        distance_of::<A>(a, b.push(y)) == distance_of::<A>(a, b),
{
    lemma_distance_prefix::<A>(a.push(x), b.push(y), a, b, a.len());
    lemma_distance_prefix::<A>(a.push(x), b, a, b, a.len());
    lemma_distance_prefix::<A>(a, b.push(y), a, b, a.len());
}

/// The nearest center and its distance are just that.
pub proof fn law_nearest_center_is_the_first_nearest<A: Arithmetic>(
    point: Seq<u32>,
    centers: Seq<Seq<u32>>,
)
    requires
        0 < centers.len() <= usize::MAX,
    ensures
        is_first_nearest::<A>(point, centers, nearest_of::<A>(point, centers).0 as int),
        is_least_distance::<A>(point, centers, nearest_of::<A>(point, centers).1),
{
    let nearest = nearest_of::<A>(point, centers);
    lemma_nearest::<A>(point, centers, centers.len());
    lemma_nearest_bound::<A>(point, centers, centers.len());
    lemma_nearest_none::<A>(point, centers, centers.len());
    assert forall|d: int| 0 <= d < centers.len() implies !less_wide(
        distance_of::<A>(point, #[trigger] centers[d]),
        nearest.1,
    ) by {
        assert(!less_wide(distance_of::<A>(point, centers[d]), nearest.1));
    }
    if nearest.1 != INFINITY_WIDE {
        assert(nearest.1 == distance_of::<A>(point, centers[nearest.0 as int]));
        assert(less_wide(nearest.1, INFINITY_WIDE));
        assert(!less_wide(distance_of::<A>(point, centers[nearest.0 as int]), nearest.1));
        assert forall|d: int| 0 <= d < nearest.0 implies {
            let other = distance_of::<A>(point, #[trigger] centers[d]);
            less_wide(nearest.1, other) || not_a_number_wide(other)
        } by {
            let other = distance_of::<A>(point, centers[d]);
            assert(less_wide(nearest.1, other) || not_a_number_wide(other));
        }
    }
}

/// A nearest distance is below infinity or nothing was.
proof fn lemma_nearest_none<A: Arithmetic>(point: Seq<u32>, centers: Seq<Seq<u32>>, n: nat)
    requires
        n <= usize::MAX,
    ensures
        ({
            let best = nearest_below::<A>(point, centers, n);
            best == (0usize, INFINITY_WIDE) || less_wide(best.1, INFINITY_WIDE)
        }),
    decreases n,
{
    if n > 0 {
        lemma_nearest_none::<A>(point, centers, (n - 1) as nat);
    }
}

/// Labelling the points names their nearest centers.
proof fn lemma_labels_name_nearest<A: Arithmetic>(points: Seq<Seq<u32>>, centers: Seq<Seq<u32>>)
    requires
        0 < centers.len() <= usize::MAX,
    ensures
        names_nearest::<A>(points, centers, labels_of::<A>(points, centers)),
{
    let labels = labels_of::<A>(points, centers);
    assert forall|i: int| 0 <= i < points.len() implies is_first_nearest::<A>(
        points[i],
        centers,
        #[trigger] labels[i] as int,
    ) by {
        law_nearest_center_is_the_first_nearest::<A>(points[i], centers);
    }
}

/// Rows without a label and labels without a row change no sum, size or mean.
pub proof fn law_only_labelled_rows_count<A: Arithmetic>(
    rows: Seq<Seq<u32>>,
    labels: Seq<usize>,
    more_rows: Seq<Seq<u32>>,
    more_labels: Seq<usize>,
    columns: nat,
    cluster: int,
)
    requires
        rows.len() == labels.len(),
        more_rows.len() == 0 || more_labels.len() == 0,
    ensures
        cluster_mean::<A>(rows + more_rows, labels + more_labels, columns, cluster)
            == cluster_mean::<A>(rows, labels, columns, cluster),
{
    lemma_sum_prefix::<A>(
        rows + more_rows,
        labels + more_labels,
        rows,
        labels,
        columns,
        cluster,
        rows.len(),
    );
}

/// The first rows and labels alone decide a sum and a size over them.
proof fn lemma_sum_prefix<A: Arithmetic>(
    a: Seq<Seq<u32>>,
    labels_a: Seq<usize>,
    b: Seq<Seq<u32>>,
    labels_b: Seq<usize>,
    columns: nat,
    cluster: int,
    n: nat,
)
    requires
        forall|i: int| 0 <= i < n ==> #[trigger] a[i] == b[i],
        forall|i: int| 0 <= i < n ==> #[trigger] labels_a[i] == labels_b[i],
    ensures
        cluster_sum::<A>(a, labels_a, columns, cluster, n) == cluster_sum::<A>(
            b,
            labels_b,
            columns,
            cluster,
            n,
        ),
        cluster_size(labels_a, cluster, n) == cluster_size(labels_b, cluster, n),
    decreases n,
{
    if n > 0 {
        lemma_sum_prefix::<A>(a, labels_a, b, labels_b, columns, cluster, (n - 1) as nat);
        assert(a[n - 1] == b[n - 1]);
        assert(labels_a[n - 1] == labels_b[n - 1]);
    }
}

/// The sum of a cluster is the sum of its columns.
proof fn lemma_cluster_sum<A: Arithmetic>(
    rows: Seq<Seq<u32>>,
    labels: Seq<usize>,
    columns: nat,
    cluster: int,
    n: nat,
    j: int,
)
    requires
        n <= rows.len(),
        rows.len() == labels.len(),
        0 <= j < columns,
    ensures
        ({
            let sum = cluster_sum::<A>(rows, labels, columns, cluster, n);
            &&& sum.len() == columns
            &&& sum[j] == counting(n).fold_left(ZERO, adding::<A>(rows, labels, cluster, j))
        }),
    decreases n,
{
    if n > 0 {
        lemma_cluster_sum::<A>(rows, labels, columns, cluster, (n - 1) as nat, j);
        assert(counting(n).drop_last() =~= counting((n - 1) as nat));
    }
}

/// The size of a cluster is the number of its labels.
proof fn lemma_cluster_size(labels: Seq<usize>, cluster: int, n: nat)
    requires
        n <= labels.len(),
    ensures
        cluster_size(labels, cluster, n) == label_count(labels.take(n as int), cluster),
        cluster_size(labels, cluster, n) > 0 ==> exists|i: int|
            0 <= i < n && #[trigger] labels[i] == cluster,
    decreases n,
{
    if n > 0 {
        lemma_cluster_size(labels, cluster, (n - 1) as nat);
        assert(labels.take(n as int).drop_last() =~= labels.take(n - 1));
        if labels[n - 1] != cluster && cluster_size(labels, cluster, n) > 0 {
            let i = choose|i: int| 0 <= i < n - 1 && #[trigger] labels[i] == cluster;
            assert(labels[i] == cluster);
        }
    }
}

/// The sum and the size of a cluster are those of the rows that carry its label, and its mean
/// is the one divided by the other.
pub proof fn law_cluster_mean_is_sum_over_size<A: Arithmetic>(
    rows: Seq<Seq<u32>>,
    labels: Seq<usize>,
    columns: nat,
    cluster: int,
)
    requires
        rows.len() == labels.len(),
    ensures
        is_mean::<A>(
            rows,
            labels,
            columns,
            cluster,
            cluster_mean::<A>(rows, labels, columns, cluster),
        ),
        forall|j: int|
            0 <= j < columns ==> #[trigger] cluster_sum::<A>(
                rows,
                labels,
                columns,
                cluster,
                rows.len(),
            )[j] == column_sum::<A>(rows, labels, cluster, j),
        cluster_size(labels, cluster, rows.len()) == label_count(labels, cluster),
        cluster_size(labels, cluster, rows.len()) > 0 <==> exists|i: int|
            0 <= i < labels.len() && #[trigger] labels[i] == cluster,
{
    let n = rows.len();
    let mean = cluster_mean::<A>(rows, labels, columns, cluster);
    lemma_cluster_size(labels, cluster, n);
    assert(labels.take(n as int) =~= labels);
    assert(paired(rows.len(), labels.len()) == n);
    assert forall|j: int| 0 <= j < columns implies #[trigger] cluster_sum::<A>(
        rows,
        labels,
        columns,
        cluster,
        n,
    )[j] == column_sum::<A>(rows, labels, cluster, j) by {
        lemma_cluster_sum::<A>(rows, labels, columns, cluster, n, j);
    }
    assert forall|j: int| 0 <= j < columns implies #[trigger] mean[j] == over_of::<A>(
        column_sum::<A>(rows, labels, cluster, j),
        counted_of::<A>(label_count(labels, cluster) as usize),
    ) by {
        assert(cluster_sum::<A>(rows, labels, columns, cluster, n)[j] == column_sum::<A>(
            rows,
            labels,
            cluster,
            j,
        ));
    }
    if exists|i: int| 0 <= i < labels.len() && #[trigger] labels[i] == cluster {
        let i = choose|i: int| 0 <= i < labels.len() && #[trigger] labels[i] == cluster;
        lemma_own_cluster(labels, i, n);
    }
}

/// The means of one cluster more are the means so far and that cluster's mean after them,
/// unless no row carries its label: then they are the means so far. Of no clusters there are
/// none.
pub proof fn law_means_are_of_clusters_with_rows<A: Arithmetic>(
    rows: Seq<Seq<u32>>,
    labels: Seq<usize>,
    columns: nat,
    k: nat,
)
    requires
        rows.len() == labels.len(),
    ensures
        means_below::<A>(rows, labels, columns, 0) == Seq::<Seq<u32>>::empty(),
        ({
            let means = means_below::<A>(rows, labels, columns, k);
            let more = means_below::<A>(rows, labels, columns, k + 1);
            if exists|i: int| 0 <= i < labels.len() && #[trigger] labels[i] == k {
                &&& more.len() == means.len() + 1
                &&& more.drop_last() == means
                &&& is_mean::<A>(rows, labels, columns, k as int, more.last())
            } else {
                more == means
            }
        }),
{
    law_cluster_mean_is_sum_over_size::<A>(rows, labels, columns, k as int);
    let means = means_below::<A>(rows, labels, columns, k);
    let more = means_below::<A>(rows, labels, columns, k + 1);
    assert(paired(rows.len(), labels.len()) == rows.len());
    if exists|i: int| 0 <= i < labels.len() && #[trigger] labels[i] == k {
        assert(more.drop_last() =~= means);
    }
    assert(means_below::<A>(rows, labels, columns, 0) =~= Seq::<Seq<u32>>::empty());
}

/// A run is its rounds: from the centers and labels given, one after the other, until there
/// are none left or labelling the points once more would change nothing.
pub proof fn law_a_run_is_its_rounds<A: Arithmetic>(
    points: Seq<Seq<u32>>,
    columns: nat,
    first: Seq<Seq<u32>>,
    given: Seq<usize>,
    rounds: nat,
)
    requires
        0 < first.len() <= usize::MAX,
        given.len() == points.len(),
    ensures
        exists|centers: Seq<Seq<Seq<u32>>>, labels: Seq<Seq<usize>>|
            {
                &&& #[trigger] rounds_of::<A>(points, columns, centers, labels)
                &&& centers[0] == first
                &&& labels[0] == given
                &&& labels.len() <= rounds + 1
                &&& labels.len() == rounds + 1 || names_nearest::<A>(
                    points,
                    centers.last(),
                    labels.last(),
                )
                &&& lloyd::<A>(points, columns, first, given, rounds) == (
                    centers.last(),
                    labels.last(),
                )
            },
    decreases rounds,
{
    let nearest = labels_of::<A>(points, first);
    lemma_labels_name_nearest::<A>(points, first);
    if rounds == 0 || nearest == given {
        assert(rounds_of::<A>(points, columns, seq![first], seq![given]));
    } else {
        let next = moved::<A>(points, columns, nearest, first);
        lemma_moved::<A>(points, columns, nearest, first);
        law_a_run_is_its_rounds::<A>(points, columns, next, nearest, (rounds - 1) as nat);
        let (centers, labels) = choose|centers: Seq<Seq<Seq<u32>>>, labels: Seq<Seq<usize>>|
            {
                &&& #[trigger] rounds_of::<A>(points, columns, centers, labels)
                &&& centers[0] == next
                &&& labels[0] == nearest
                &&& labels.len() <= rounds
                &&& labels.len() == rounds || names_nearest::<A>(
                    points,
                    centers.last(),
                    labels.last(),
                )
                &&& lloyd::<A>(points, columns, next, nearest, (rounds - 1) as nat) == (
                    centers.last(),
                    labels.last(),
                )
            };
        let all_centers = seq![first] + centers;
        let all_labels = seq![given] + labels;
        assert forall|t: int, u: int| 0 <= t && u == t + 1 && u < all_labels.len() implies {
            &&& names_nearest::<A>(points, #[trigger] all_centers[t], #[trigger] all_labels[u])
            &&& all_labels[u] != all_labels[t]
            &&& moves_to_means::<A>(
                points,
                columns,
                all_labels[u],
                all_centers[t],
                all_centers[u],
            )
        } by {
            if t > 0 {
                let s = t - 1;
                assert(all_centers[t] == centers[s]);
                assert(all_labels[t] == labels[s]);
                assert(all_centers[u] == centers[t]);
                assert(all_labels[u] == labels[t]);
                assert(names_nearest::<A>(points, centers[s], labels[t]));
            } else {
                assert(all_labels[1] == nearest);
                assert(all_centers[1] == next);
            }
        }
        assert(rounds_of::<A>(points, columns, all_centers, all_labels));
        assert(all_centers.last() == centers.last());
        assert(all_labels.last() == labels.last());
    }
}

/// Moving the centers moves them to the means.
proof fn lemma_moved<A: Arithmetic>(
    points: Seq<Seq<u32>>,
    columns: nat,
    labels: Seq<usize>,
    centers: Seq<Seq<u32>>,
)
    requires
        labels.len() == points.len(),
    ensures
        moves_to_means::<A>(
            points,
            columns,
            labels,
            centers,
            moved::<A>(points, columns, labels, centers),
        ),
{
    let to = moved::<A>(points, columns, labels, centers);
    assert(paired(points.len(), labels.len()) == points.len());
    assert forall|c: int| 0 <= c < centers.len() implies if exists|i: int|
        0 <= i < labels.len() && labels[i] == c {
        is_mean::<A>(points, labels, columns, c, #[trigger] to[c])
    } else {
        to[c] == centers[c]
    } by {
        law_cluster_mean_is_sum_over_size::<A>(points, labels, columns, c);
    }
}

/// A run starts from the seeds with no point labelled and takes at most three hundred rounds;
/// its labels are the last, and what it is judged by is the sum of the points' distances from
/// the nearest of the last centers.
pub proof fn law_a_run_starts_from_its_seeds<A: Arithmetic>(
    points: Seq<Seq<u32>>,
    columns: nat,
    k: nat,
    state: u64,
)
    requires
        0 < points.len() <= usize::MAX,
        0 < k <= usize::MAX,
    ensures
        exists|centers: Seq<Seq<Seq<u32>>>, labels: Seq<Seq<usize>>, distances: Seq<u64>|
            {
                let run = run_of::<A>(points, columns, k, state);
                &&& #[trigger] rounds_of::<A>(points, columns, centers, labels)
                &&& centers[0] == seeds_of(points, seeding_of::<A>(points, k, state))
                &&& labels[0] == Seq::new(points.len(), |i: int| usize::MAX)
                &&& labels.len() <= 301
                &&& labels.len() == 301 || names_nearest::<A>(
                    points,
                    centers.last(),
                    labels.last(),
                )
                &&& run.labels == labels.last()
                &&& distances.len() == points.len()
                &&& forall|i: int|
                    0 <= i < points.len() ==> is_least_distance::<A>(
                        points[i],
                        centers.last(),
                        #[trigger] distances[i],
                    )
                &&& run.inertia == #[trigger] total_weight::<A>(distances)
                &&& run.state == seeding_of::<A>(points, k, state).state
            },
{
    let seeds = seeds_of(points, seeding_of::<A>(points, k, state));
    let unlabelled = Seq::new(points.len(), |i: int| usize::MAX);
    let run = run_of::<A>(points, columns, k, state);
    let end = end_of::<A>(points, columns, k, state);
    lemma_seeding::<A>(points, k, state);
    law_a_run_is_its_rounds::<A>(points, columns, seeds, unlabelled, 300);
    let (centers, labels) = choose|centers: Seq<Seq<Seq<u32>>>, labels: Seq<Seq<usize>>|
        {
            &&& #[trigger] rounds_of::<A>(points, columns, centers, labels)
            &&& centers[0] == seeds
            &&& labels[0] == unlabelled
            &&& labels.len() <= 301
            &&& labels.len() == 301 || names_nearest::<A>(points, centers.last(), labels.last())
            &&& lloyd::<A>(points, columns, seeds, unlabelled, 300) == (
                centers.last(),
                labels.last(),
            )
        };
    assert(end == (centers.last(), labels.last()));
    lemma_rounds_keep_centers::<A>(points, columns, centers, labels, centers.len() - 1);
    let distances = Seq::new(points.len(), |i: int| nearest_of::<A>(points[i], end.0).1);
    assert forall|i: int| 0 <= i < points.len() implies is_least_distance::<A>(
        points[i],
        centers.last(),
        #[trigger] distances[i],
    ) by {
        law_nearest_center_is_the_first_nearest::<A>(points[i], end.0);
    }
    lemma_inertia::<A>(points, end.0, distances, points.len());
    assert(distances.take(points.len() as int) =~= distances);
    assert(run.inertia == total_weight::<A>(distances));
}

/// The number of centers never changes.
proof fn lemma_rounds_keep_centers<A: Arithmetic>(
    points: Seq<Seq<u32>>,
    columns: nat,
    centers: Seq<Seq<Seq<u32>>>,
    labels: Seq<Seq<usize>>,
    t: int,
)
    requires
        rounds_of::<A>(points, columns, centers, labels),
        0 <= t < centers.len(),
    ensures
        centers[t].len() == centers[0].len(),
    decreases t,
{
    if t > 0 {
        let s = t - 1;
        lemma_rounds_keep_centers::<A>(points, columns, centers, labels, s);
        assert(names_nearest::<A>(points, centers[s], labels[t]));
    }
}

/// What a run is judged by is the sum of its distances.
proof fn lemma_inertia<A: Arithmetic>(
    points: Seq<Seq<u32>>,
    centers: Seq<Seq<u32>>,
    distances: Seq<u64>,
    n: nat,
)
    requires
        n <= points.len(),
        distances == Seq::new(points.len(), |i: int| nearest_of::<A>(points[i], centers).1),
    ensures
        inertia_below::<A>(points, centers, n) == total_weight::<A>(distances.take(n as int)),
    decreases n,
{
    if n > 0 {
        lemma_inertia::<A>(points, centers, distances, (n - 1) as nat);
        assert(distances.take(n as int).drop_last() =~= distances.take(n - 1));
    }
}

/// The first run starts from the random numbers given and every other from where the one
/// before it left them.
pub proof fn law_runs_follow_on<A: Arithmetic>(
    points: Seq<Seq<u32>>,
    columns: nat,
    k: nat,
    state: u64,
    i: nat,
)
    ensures
        state_before::<A>(points, columns, k, state, 0) == state,
        state_before::<A>(points, columns, k, state, i + 1) == seeding_of::<A>(
            points,
            k,
            state_before::<A>(points, columns, k, state, i),
        ).state,
{
}

/// The labels that are kept are those of the first of the best runs: no run is judged less,
/// and every run before it is judged more or by no number.
pub proof fn law_first_of_the_best_runs_is_kept<A: Arithmetic>(
    points: Seq<Seq<u32>>,
    columns: nat,
    k: nat,
    runs: nat,
    state: u64,
)
    requires
        runs >= 1,
    ensures
        exists|j: nat|
            {
                let kept = run_of::<A>(
                    points,
                    columns,
                    k,
                    #[trigger] state_before::<A>(points, columns, k, state, j),
                );
                &&& j < runs
                &&& best_run::<A>(points, columns, k, runs, state).labels == kept.labels
                &&& best_run::<A>(points, columns, k, runs, state).inertia == kept.inertia
                &&& forall|i: nat|
                    i < runs ==> {
                        let other = run_of::<A>(
                            points,
                            columns,
                            k,
                            #[trigger] state_before::<A>(points, columns, k, state, i),
                        );
                        &&& !less_wide(other.inertia, kept.inertia)
                        &&& i < j ==> less_wide(kept.inertia, other.inertia) || not_a_number_wide(
                            other.inertia,
                        )
                    }
            },
    decreases runs,
{
    let best = best_run::<A>(points, columns, k, runs, state);
    let last = (runs - 1) as nat;
    assert(state_before::<A>(points, columns, k, state, 0) == state);
    let j = if runs == 1 {
        0nat
    } else {
        law_first_of_the_best_runs_is_kept::<A>(points, columns, k, last, state);
        let before = best_run::<A>(points, columns, k, last, state);
        let latest = run_of::<A>(points, columns, k, before.state);
        assert(state_before::<A>(points, columns, k, state, last) == before.state);
        if less_wide(latest.inertia, before.inertia) {
            last
        } else {
            choose|j: nat|
                {
                    let kept = run_of::<A>(
                        points,
                        columns,
                        k,
                        #[trigger] state_before::<A>(points, columns, k, state, j),
                    );
                    &&& j < last
                    &&& before.labels == kept.labels
                    &&& before.inertia == kept.inertia
                    &&& forall|i: nat|
                        i < last ==> {
                            let other = run_of::<A>(
                                points,
                                columns,
                                k,
                                #[trigger] state_before::<A>(points, columns, k, state, i),
                            );
                            &&& !less_wide(other.inertia, kept.inertia)
                            &&& i < j ==> less_wide(kept.inertia, other.inertia)
                                || not_a_number_wide(other.inertia)
                        }
                }
        }
    };
    let kept = run_of::<A>(points, columns, k, state_before::<A>(points, columns, k, state, j));
    assert(best.labels == kept.labels && best.inertia == kept.inertia);
    assert forall|i: nat| i < runs implies {
        let other = run_of::<A>(
            points,
            columns,
            k,
            #[trigger] state_before::<A>(points, columns, k, state, i),
        );
        &&& !less_wide(other.inertia, kept.inertia)
        &&& i < j ==> less_wide(kept.inertia, other.inertia) || not_a_number_wide(other.inertia)
    } by {
        law_best_run_is_kept::<A>(points, columns, k, runs, state, i);
        if runs > 1 && i < last {
            law_best_run_is_kept::<A>(points, columns, k, last, state, i);
        }
    }
}

/// A run leaves equal points with equal labels.
proof fn lemma_equal_points_share<A: Arithmetic>(
    points: Seq<Seq<u32>>,
    columns: nat,
    centers: Seq<Seq<u32>>,
    labels: Seq<usize>,
    rounds: nat,
    i: int,
    j: int,
)
    requires
        labels.len() == points.len(),
        0 <= i < points.len(),
        0 <= j < points.len(),
        points[i] == points[j],
        labels[i] == labels[j],
    ensures
        ({
            let end = lloyd::<A>(points, columns, centers, labels, rounds);
            &&& end.1.len() == points.len()
            &&& end.1[i] == end.1[j]
        }),
    decreases rounds,
{
    if rounds > 0 {
        let nearest = labels_of::<A>(points, centers);
        if nearest != labels {
            lemma_equal_points_share::<A>(
                points,
                columns,
                moved::<A>(points, columns, nearest, centers),
                nearest,
                (rounds - 1) as nat,
                i,
                j,
            );
        }
    }
}

/// Equal points fall in the same cluster.
pub proof fn law_equal_points_share_a_cluster<A: Arithmetic>(
    points: Seq<Seq<u32>>,
    columns: nat,
    k: nat,
    runs: nat,
    state: u64,
    i: int,
    j: int,
)
    requires
        0 <= i < points.len(),
        0 <= j < points.len(),
        points[i] == points[j],
    ensures
        best_run::<A>(points, columns, k, runs, state).labels[i] == best_run::<A>(
            points,
            columns,
            k,
            runs,
            state,
        ).labels[j],
    decreases runs,
{
    let from = if runs <= 1 {
        state
    } else {
        law_equal_points_share_a_cluster::<A>(
            points,
            columns,
            k,
            (runs - 1) as nat,
            state,
            i,
            j,
        );
        best_run::<A>(points, columns, k, (runs - 1) as nat, state).state
    };
    lemma_equal_points_share::<A>(
        points,
        columns,
        seeds_of(points, seeding_of::<A>(points, k, from)),
        Seq::new(points.len(), |p: int| usize::MAX),
        300,
        i,
        j,
    );
}

} // verus!
