//! What every reconstruction keeps to, and how one more chunk changes it.
use crate::arithmetic::{over_of, plus_of, Arithmetic};
use crate::reconstruct::{
    activation_of, activity_of, cluster_count, greatest_count, lemma_members,
    members_below, members_of, peak_score, row_clusters, row_sum, warmup_end_of, weight_of,
    Reconstructor,
};
use crate::score::{less, not_a_number, rounded_count_of, same, ONE, ZERO};
use vstd::prelude::*;

verus! {

/// A chunk counts at an output frame exactly when the frame lies at least `warmup` frames
/// after its start and more than `warmup` frames before its end.
pub open spec fn well_inside(start: usize, frames: nat, warmup: usize, f: int) -> bool {
    start + warmup <= f && f + warmup < start + frames
}

/// The scores of a row, added from the left onto zero.
pub open spec fn added_up<A: Arithmetic>(row: Seq<u32>) -> u32 {
    row.fold_left(ZERO, |sum: u32, score: u32| plus_of::<A>(sum, score))
}

/// Whether `peak` is the greatest score that the local speakers of a cluster have in a row:
/// a number not below zero nor below any of their scores, and itself zero or one of them.
pub open spec fn is_peak(peak: u32, row: Seq<u32>, labels: Seq<i32>, cluster: int) -> bool {
    &&& !not_a_number(peak)
    &&& !less(peak, ZERO)
    &&& forall|l: int|
        0 <= l < labels.len() && #[trigger] labels[l] == cluster ==> !less(peak, row[l])
    &&& peak == ZERO || exists|l: int|
        0 <= l < labels.len() && #[trigger] labels[l] == cluster && peak == row[l]
}

/// Whether `after` has the chunks of `before` and one more at the end.
pub open spec fn continues(
    before: Reconstructor,
    after: Reconstructor,
    layer: Seq<Seq<u32>>,
    start: usize,
) -> bool {
    &&& before.layers().len() == before.starts().len()
    &&& after.layers() == before.layers().push(layer)
    &&& after.starts() == before.starts().push(start)
    &&& after.frames() == before.frames()
    &&& after.warmup() == before.warmup()
}

/// A sum over a row is the sum of its cells, one after the other.
proof fn lemma_row_sum<A: Arithmetic>(row: Seq<u32>, n: nat)
    requires
        n <= row.len(),
    ensures
        row_sum::<A>(row, n) == added_up::<A>(row.take(n as int)),
    decreases n,
{
    if n > 0 {
        lemma_row_sum::<A>(row, (n - 1) as nat);
        assert(row.take(n as int).drop_last() =~= row.take(n - 1));
    }
}

/// The activity at a frame depends on the chunks that are added alone.
proof fn lemma_activity_prefix<A: Arithmetic>(
    a: Seq<Seq<Seq<u32>>>,
    b: Seq<Seq<Seq<u32>>>,
    starts_a: Seq<usize>,
    starts_b: Seq<usize>,
    frames: nat,
    warmup: usize,
    n: nat,
    f: int,
)
    requires
        forall|c: int| 0 <= c < n ==> #[trigger] a[c] == b[c],
        forall|c: int| 0 <= c < n ==> #[trigger] starts_a[c] == starts_b[c],
    ensures
        activity_of::<A>(a, starts_a, frames, warmup, n, f) == activity_of::<A>(
            b,
            starts_b,
            frames,
            warmup,
            n,
            f,
        ),
        weight_of::<A>(starts_a, frames, warmup, n, f) == weight_of::<A>(
            starts_b,
            frames,
            warmup,
            n,
            f,
        ),
    decreases n,
{
    if n > 0 {
        lemma_activity_prefix::<A>(
            a,
            b,
            starts_a,
            starts_b,
            frames,
            warmup,
            (n - 1) as nat,
            f,
        );
        assert(a[n - 1] == b[n - 1]);
        assert(starts_a[n - 1] == starts_b[n - 1]);
    }
}

/// The score of a cluster at a frame depends on the chunks that are added alone.
proof fn lemma_score_prefix<A: Arithmetic>(
    a: Seq<Seq<Seq<u32>>>,
    b: Seq<Seq<Seq<u32>>>,
    labels_a: Seq<Seq<i32>>,
    labels_b: Seq<Seq<i32>>,
    starts_a: Seq<usize>,
    starts_b: Seq<usize>,
    frames: nat,
    warmup: usize,
    n: nat,
    f: int,
    cluster: int,
)
    requires
        forall|c: int| 0 <= c < n ==> #[trigger] a[c] == b[c],
        forall|c: int| 0 <= c < n ==> #[trigger] labels_a[c] == labels_b[c],
        forall|c: int| 0 <= c < n ==> #[trigger] starts_a[c] == starts_b[c],
    ensures
        activation_of::<A>(a, labels_a, starts_a, frames, warmup, n, f, cluster)
            == activation_of::<A>(b, labels_b, starts_b, frames, warmup, n, f, cluster),
    decreases n,
{
    if n > 0 {
        lemma_score_prefix::<A>(
            a,
            b,
            labels_a,
            labels_b,
            starts_a,
            starts_b,
            frames,
            warmup,
            (n - 1) as nat,
            f,
            cluster,
        );
        assert(a[n - 1] == b[n - 1]);
        assert(labels_a[n - 1] == labels_b[n - 1]);
        assert(starts_a[n - 1] == starts_b[n - 1]);
    }
}

/// The peak of a list of members is the greatest of their scores.
proof fn lemma_peak(row: Seq<u32>, members: Seq<usize>, n: nat)
    requires
        n <= members.len(),
    ensures
        !not_a_number(peak_score(row, members, n)),
        !less(peak_score(row, members, n), ZERO),
        forall|k: int|
            0 <= k < n ==> !less(peak_score(row, members, n), row[#[trigger] members[k] as int]),
        peak_score(row, members, n) == ZERO || exists|k: int|
            0 <= k < n && peak_score(row, members, n) == row[#[trigger] members[k] as int],
    decreases n,
{
    if n > 0 {
        lemma_peak(row, members, (n - 1) as nat);
        let before = peak_score(row, members, (n - 1) as nat);
        let peak = peak_score(row, members, n);
        assert(peak == row[members[n - 1] as int] || peak == before);
        if peak == before && before != ZERO {
            let k = choose|k: int|
                0 <= k < n - 1 && before == row[#[trigger] members[k] as int];
            assert(peak == row[members[k] as int]);
        }
    }
}

/// What the members of a cluster add is the greatest score that any of its local speakers
/// has, whatever the order in which they are looked at.
pub proof fn law_peak_is_the_greatest_score(row: Seq<u32>, labels: Seq<i32>, cluster: int)
    requires
        labels.len() <= usize::MAX,
    ensures
        ({
            let members = members_of(labels, cluster);
            is_peak(peak_score(row, members, members.len()), row, labels, cluster)
        }),
        members_of(labels, cluster).len() > 0 <==> labels.contains(cluster as i32) && i32::MIN
            <= cluster <= i32::MAX,
{
    let members = members_of(labels, cluster);
    let peak = peak_score(row, members, members.len());
    lemma_members(labels, cluster, labels.len());
    lemma_peak(row, members, members.len());
    assert forall|l: int|
        0 <= l < labels.len() && #[trigger] labels[l] == cluster implies !less(peak, row[l]) by {
        assert(members.contains(l as usize));
        let k = choose|k: int| 0 <= k < members.len() && members[k] == l as usize;
        assert(!less(peak, row[members[k] as int]));
    }
    if peak != ZERO {
        let k = choose|k: int|
            0 <= k < members.len() && peak == row[#[trigger] members[k] as int];
        assert(labels[members[k] as int] == cluster);
    }
    if members.len() > 0 {
        assert(labels[members[0] as int] == cluster);
        assert(labels.contains(cluster as i32));
    }
    if labels.contains(cluster as i32) && i32::MIN <= cluster <= i32::MAX {
        let l = choose|l: int| 0 <= l < labels.len() && labels[l] == cluster as i32;
        assert(labels[l] == cluster);
        assert(members.contains(l as usize));
    }
}

/// The members of a cluster are the local speakers that carry its label, each once, in order.
pub proof fn law_members_are_in_order(labels: Seq<i32>, cluster: int)
    requires
        labels.len() <= usize::MAX,
    ensures
        ({
            let members = members_of(labels, cluster);
            &&& forall|a: int, b: int|
                0 <= a < b < members.len() ==> #[trigger] members[a] < #[trigger] members[b]
            &&& forall|a: int|
                0 <= a < members.len() ==> #[trigger] members[a] < labels.len()
                    && labels[members[a] as int] == cluster
            &&& forall|l: int|
                0 <= l < labels.len() && #[trigger] labels[l] == cluster ==> members.contains(
                    l as usize,
                )
        }),
{
    lemma_members(labels, cluster, labels.len());
    lemma_members_ascend(labels, cluster, labels.len());
}

/// Members come in order.
proof fn lemma_members_ascend(labels: Seq<i32>, cluster: int, n: nat)
    requires
        n <= labels.len() <= usize::MAX,
    ensures
        ({
            let members = members_below(labels, cluster, n);
            forall|a: int, b: int|
                0 <= a < b < members.len() ==> #[trigger] members[a] < #[trigger] members[b]
        }),
    decreases n,
{
    if n > 0 {
        lemma_members_ascend(labels, cluster, (n - 1) as nat);
        lemma_members(labels, cluster, (n - 1) as nat);
    }
}

/// Where there are no chunks, nothing is active.
pub proof fn law_without_chunks_nothing_is_active<A: Arithmetic>(
    r: Reconstructor,
    f: int,
    cluster: int,
)
    requires
        r.layers().len() == 0 || r.starts().len() == 0,
    ensures
        r.activity_at::<A>(f) == ZERO,
        r.weight_at::<A>(f) == ZERO,
        r.score_at::<A>(f, cluster) == ZERO,
{
}

/// One more chunk adds, to the frames well inside it, the scores of all its speakers to the
/// activity and one to the weight; the other frames stay as they are.
pub proof fn law_one_more_chunk_adds_its_activity<A: Arithmetic>(
    before: Reconstructor,
    after: Reconstructor,
    layer: Seq<Seq<u32>>,
    start: usize,
    f: int,
)
    requires
        continues(before, after, layer, start),
    ensures
        well_inside(start, before.frames(), before.warmup(), f) ==> {
            &&& after.activity_at::<A>(f) == plus_of::<A>(
                before.activity_at::<A>(f),
                added_up::<A>(layer[f - start]),
            )
            &&& after.weight_at::<A>(f) == plus_of::<A>(before.weight_at::<A>(f), ONE)
        },
        !well_inside(start, before.frames(), before.warmup(), f) ==> {
            &&& after.activity_at::<A>(f) == before.activity_at::<A>(f)
            &&& after.weight_at::<A>(f) == before.weight_at::<A>(f)
        },
{
    let n = before.layers().len();
    lemma_activity_prefix::<A>(
        after.layers(),
        before.layers(),
        after.starts(),
        before.starts(),
        before.frames(),
        before.warmup(),
        n,
        f,
    );
    assert(after.layers()[n as int] == layer);
    assert(after.starts()[n as int] == start);
    assert(after.chunks() == n + 1);
    let row = layer[f - start];
    lemma_row_sum::<A>(row, row.len());
    assert(row.take(row.len() as int) =~= row);
}

/// One more chunk adds, to the frames well inside it and to the clusters of its speakers, the
/// greatest score of the cluster's local speakers; everything else stays as it is.
pub proof fn law_one_more_chunk_adds_its_peaks<A: Arithmetic>(
    before: Reconstructor,
    after: Reconstructor,
    layer: Seq<Seq<u32>>,
    start: usize,
    labels: Seq<i32>,
    f: int,
    cluster: int,
)
    requires
        continues(before, after, layer, start),
        before.labels() is Some,
        before.labels()->0.len() == before.layers().len(),
        after.labels() == Some(before.labels()->0.push(labels)),
        labels.len() <= usize::MAX,
    ensures
        well_inside(start, before.frames(), before.warmup(), f) && (exists|l: int|
            0 <= l < labels.len() && #[trigger] labels[l] == cluster) ==> exists|peak: u32|
            #[trigger] is_peak(peak, layer[f - start], labels, cluster) && after.score_at::<A>(
                f,
                cluster,
            ) == plus_of::<A>(before.score_at::<A>(f, cluster), peak),
        !well_inside(start, before.frames(), before.warmup(), f) || (forall|l: int|
            0 <= l < labels.len() ==> #[trigger] labels[l] != cluster) ==> after.score_at::<A>(
            f,
            cluster,
        ) == before.score_at::<A>(f, cluster),
{
    let n = before.layers().len();
    let earlier = before.labels()->0;
    let later = after.labels()->0;
    lemma_score_prefix::<A>(
        after.layers(),
        before.layers(),
        later,
        earlier,
        after.starts(),
        before.starts(),
        before.frames(),
        before.warmup(),
        n,
        f,
        cluster,
    );
    assert(after.layers()[n as int] == layer);
    assert(after.starts()[n as int] == start);
    assert(later[n as int] == labels);
    assert(after.chunks() == n + 1);
    let row = layer[f - start];
    law_peak_is_the_greatest_score(row, labels, cluster);
    let members = members_of(labels, cluster);
    if exists|l: int| 0 <= l < labels.len() && #[trigger] labels[l] == cluster {
        let l = choose|l: int| 0 <= l < labels.len() && #[trigger] labels[l] == cluster;
        assert(labels.contains(cluster as i32));
    } else if members.len() > 0 {
        let l = choose|l: int| 0 <= l < labels.len() && labels[l] == cluster as i32;
        assert(labels[l] == cluster);
    }
}

/// The count of a frame is its activity divided by its weight, rounded, and zero where the
/// weight is zero; there is one for every output frame.
pub proof fn law_count_is_the_rounded_mean<A: Arithmetic>(
    r: Reconstructor,
    output_frames: nat,
    f: int,
)
    requires
        r.layers().len() > 0,
        0 <= f < output_frames,
    ensures
        r.counts::<A>(output_frames).len() == output_frames,
        same(r.weight_at::<A>(f), ZERO) ==> r.counts::<A>(output_frames)[f] == 0,
        !same(r.weight_at::<A>(f), ZERO) ==> r.counts::<A>(output_frames)[f] == rounded_count_of(
            over_of::<A>(r.activity_at::<A>(f), r.weight_at::<A>(f)),
        ),
{
}

/// Chunks without a start and starts without a chunk change nothing.
pub proof fn law_only_chunks_with_a_start_count<A: Arithmetic>(
    a: Reconstructor,
    b: Reconstructor,
    f: int,
    cluster: int,
)
    requires
        a.frames() == b.frames(),
        a.warmup() == b.warmup(),
        a.chunks() == b.chunks(),
        forall|c: int| 0 <= c < a.chunks() ==> #[trigger] a.layers()[c] == b.layers()[c],
        forall|c: int| 0 <= c < a.chunks() ==> #[trigger] a.starts()[c] == b.starts()[c],
        a.labels() == b.labels(),
    ensures
        a.activity_at::<A>(f) == b.activity_at::<A>(f),
        a.weight_at::<A>(f) == b.weight_at::<A>(f),
        a.score_at::<A>(f, cluster) == b.score_at::<A>(f, cluster),
{
    lemma_activity_prefix::<A>(
        a.layers(),
        b.layers(),
        a.starts(),
        b.starts(),
        a.frames(),
        a.warmup(),
        a.chunks(),
        f,
    );
    if a.labels() is Some {
        lemma_score_prefix::<A>(
            a.layers(),
            b.layers(),
            a.labels()->0,
            b.labels()->0,
            a.starts(),
            b.starts(),
            a.frames(),
            a.warmup(),
            a.chunks(),
            f,
            cluster,
        );
    }
}

/// A frame that lies well inside no chunk has nobody in it.
pub proof fn law_uncovered_frames_have_nobody<A: Arithmetic>(
    r: Reconstructor,
    output_frames: nat,
    f: int,
    cluster: int,
)
    requires
        r.layers().len() > 0,
        0 <= f < output_frames,
        forall|c: int|
            0 <= c < r.layers().len() && 0 <= c < r.starts().len() ==> !well_inside(
                #[trigger] r.starts()[c],
                r.frames(),
                r.warmup(),
                f,
            ),
    ensures
        r.counts::<A>(output_frames)[f] == 0,
        r.score_at::<A>(f, cluster) == ZERO,
{
    lemma_uncovered::<A>(
        r.layers(),
        match r.labels() {
            Some(labels) => labels,
            None => seq![],
        },
        r.starts(),
        r.frames(),
        r.warmup(),
        r.chunks(),
        f,
        cluster,
    );
    assert(same(ZERO, ZERO));
}

/// A frame that no chunk counts at is left at zero.
proof fn lemma_uncovered<A: Arithmetic>(
    layers: Seq<Seq<Seq<u32>>>,
    labels: Seq<Seq<i32>>,
    starts: Seq<usize>,
    frames: nat,
    warmup: usize,
    n: nat,
    f: int,
    cluster: int,
)
    requires
        forall|c: int| 0 <= c < n ==> !well_inside(#[trigger] starts[c], frames, warmup, f),
    ensures
        weight_of::<A>(starts, frames, warmup, n, f) == ZERO,
        activation_of::<A>(layers, labels, starts, frames, warmup, n, f, cluster) == ZERO,
    decreases n,
{
    if n > 0 {
        lemma_uncovered::<A>(
            layers,
            labels,
            starts,
            frames,
            warmup,
            (n - 1) as nat,
            f,
            cluster,
        );
        assert(!well_inside(starts[n - 1], frames, warmup, f));
    }
}

/// The scores have a row for every frame of the track and a cell for every column, and the
/// cell of a frame and a cluster is what the chunks add up to there.
pub proof fn law_every_cell_is_what_the_chunks_add_up_to<A: Arithmetic>(
    r: Reconstructor,
    counts: Seq<usize>,
    f: int,
    cluster: int,
)
    requires
        r.labels() is Some,
        0 <= f < counts.len(),
        0 <= cluster < r.columns(counts),
    ensures
        r.activations::<A>(counts).len() == counts.len(),
        r.activations::<A>(counts)[f].len() == r.columns(counts),
        r.activations::<A>(counts)[f][cluster] == r.score_at::<A>(f, cluster),
{
}

/// Without clusters there is nobody to have a score: every frame has an empty row.
pub proof fn law_without_clusters_there_are_no_columns<A: Arithmetic>(
    r: Reconstructor,
    counts: Seq<usize>,
    f: int,
)
    requires
        r.labels() is None,
        0 <= f < counts.len(),
    ensures
        r.activations::<A>(counts).len() == counts.len(),
        r.activations::<A>(counts)[f].len() == 0,
        r.columns(counts) == 0,
{
}

/// There is a column for every label and for as many speakers as any frame has, and no more
/// than that.
pub proof fn law_columns_are_as_many_as_needed(r: Reconstructor, counts: Seq<usize>)
    requires
        r.labels() is Some,
    ensures
        forall|c: int, l: int|
            0 <= c < r.labels()->0.len() && 0 <= l < r.labels()->0[c].len()
                ==> #[trigger] r.labels()->0[c][l] < r.columns(counts),
        forall|f: int| 0 <= f < counts.len() ==> #[trigger] counts[f] <= r.columns(counts),
        r.columns(counts) > 0 ==> (exists|c: int, l: int|
            0 <= c < r.labels()->0.len() && 0 <= l < r.labels()->0[c].len()
                && #[trigger] r.labels()->0[c][l] == r.columns(counts) - 1) || (exists|f: int|
            0 <= f < counts.len() && #[trigger] counts[f] == r.columns(counts)),
{
    let rows = r.labels()->0;
    lemma_cluster_count(rows, rows.len());
    lemma_greatest_count(counts, counts.len());
    let clusters = cluster_count(rows, rows.len());
    if clusters >= greatest_count(counts, counts.len()) && clusters > 0 {
        let (c, l) = choose|c: int, l: int|
            0 <= c < rows.len() && 0 <= l < rows[c].len() && #[trigger] rows[c][l] == clusters - 1;
        assert(r.labels()->0[c][l] == r.columns(counts) - 1);
    }
}

/// The number of clusters of a row is one more than its greatest label.
proof fn lemma_row_clusters(labels: Seq<i32>, n: nat)
    requires
        n <= labels.len(),
    ensures
        forall|l: int| 0 <= l < n ==> #[trigger] labels[l] < row_clusters(labels, n),
        row_clusters(labels, n) > 0 ==> exists|l: int|
            0 <= l < n && #[trigger] labels[l] == row_clusters(labels, n) - 1,
    decreases n,
{
    if n > 0 {
        lemma_row_clusters(labels, (n - 1) as nat);
        let before = row_clusters(labels, (n - 1) as nat);
        if labels[n - 1] >= before {
            assert(labels[n - 1] == row_clusters(labels, n) - 1);
        } else if before > 0 {
            let l = choose|l: int| 0 <= l < n - 1 && #[trigger] labels[l] == before - 1;
            assert(labels[l] == row_clusters(labels, n) - 1);
        }
    }
}

/// The number of clusters is one more than the greatest label.
proof fn lemma_cluster_count(rows: Seq<Seq<i32>>, n: nat)
    requires
        n <= rows.len(),
    ensures
        forall|c: int, l: int|
            0 <= c < n && 0 <= l < rows[c].len() ==> #[trigger] rows[c][l] < cluster_count(rows, n),
        cluster_count(rows, n) > 0 ==> exists|c: int, l: int|
            0 <= c < n && 0 <= l < rows[c].len() && #[trigger] rows[c][l] == cluster_count(rows, n)
                - 1,
    decreases n,
{
    if n > 0 {
        lemma_cluster_count(rows, (n - 1) as nat);
        lemma_row_clusters(rows[n - 1], rows[n - 1].len());
        let before = cluster_count(rows, (n - 1) as nat);
        let here = row_clusters(rows[n - 1], rows[n - 1].len());
        assert forall|c: int, l: int| 0 <= c < n && 0 <= l < rows[c].len() implies
            #[trigger] rows[c][l] < cluster_count(rows, n) by {
            if c == n - 1 {
                assert(rows[n - 1][l] < here);
            }
        }
        if here > before {
            let l = choose|l: int|
                0 <= l < rows[n - 1].len() && #[trigger] rows[n - 1][l] == here - 1;
            assert(rows[n - 1][l] == cluster_count(rows, n) - 1);
        } else if before > 0 {
            let (c, l) = choose|c: int, l: int|
                0 <= c < n - 1 && 0 <= l < rows[c].len() && #[trigger] rows[c][l] == before - 1;
            assert(rows[c][l] == cluster_count(rows, n) - 1);
        }
    }
}

/// The greatest count is a count, and none is greater.
proof fn lemma_greatest_count(counts: Seq<usize>, n: nat)
    requires
        n <= counts.len(),
    ensures
        forall|f: int| 0 <= f < n ==> #[trigger] counts[f] <= greatest_count(counts, n),
        greatest_count(counts, n) > 0 ==> exists|f: int|
            0 <= f < n && #[trigger] counts[f] == greatest_count(counts, n),
    decreases n,
{
    if n > 0 {
        lemma_greatest_count(counts, (n - 1) as nat);
        let before = greatest_count(counts, (n - 1) as nat);
        if counts[n - 1] > before {
            assert(counts[n - 1] == greatest_count(counts, n));
        } else if before > 0 {
            let f = choose|f: int| 0 <= f < n - 1 && #[trigger] counts[f] == before;
            assert(counts[f] == greatest_count(counts, n));
        }
    }
}

/// Chunks can be placed exactly where every frame that counts has a number on the output axis.
pub proof fn law_placeable_frames_have_a_number(r: Reconstructor)
    ensures
        r.placeable() <==> forall|c: int, f: int|
            0 <= c < r.layers().len() && 0 <= c < r.starts().len() && #[trigger] well_inside(
                r.starts()[c],
                r.frames(),
                r.warmup(),
                f,
            ) ==> f <= usize::MAX,
{
    let end = warmup_end_of(r.frames(), r.warmup());
    if r.placeable() {
        assert forall|c: int, f: int|
            0 <= c < r.layers().len() && 0 <= c < r.starts().len() && #[trigger] well_inside(
                r.starts()[c],
                r.frames(),
                r.warmup(),
                f,
            ) implies f <= usize::MAX by {
            assert(r.starts()[c] + end - 1 <= usize::MAX);
        }
    }
    if forall|c: int, f: int|
        0 <= c < r.layers().len() && 0 <= c < r.starts().len() && #[trigger] well_inside(
            r.starts()[c],
            r.frames(),
            r.warmup(),
            f,
        ) ==> f <= usize::MAX {
        assert forall|c: int| 0 <= c < r.chunks() && r.warmup() < end implies #[trigger] r.starts()[c]
            + end - 1 <= usize::MAX by {
            assert(well_inside(
                r.starts()[c],
                r.frames(),
                r.warmup(),
                r.starts()[c] + end - 1,
            ));
        }
    }
}

} // verus!
