//! What assigning local speakers to clusters comes to, in terms of similarity and direction.
use crate::arithmetic::{cosine_of, total_of, Arithmetic};
use crate::assignment::{
    cluster_of, column_of, labelling, law_cluster_is_most_similar, most_similar_below, reclustered,
};
use crate::clustering::{best_run, law_every_point_has_a_cluster, means_below, normalized};
use crate::clustering_laws::{
    law_equal_points_share_a_cluster, law_normalized_rows_keep_their_direction, points_along,
};
use crate::score::{finite, less, not_a_number, NEG_INFINITY, ZERO};
use vstd::prelude::*;

verus! {

/// Whether `column` holds, frame by frame, the scores of one local speaker of a chunk.
pub open spec fn scores_of(frames: Seq<Seq<u32>>, speaker: int, column: Seq<u32>) -> bool {
    &&& column.len() == frames.len()
    &&& forall|i: int| 0 <= i < frames.len() ==> #[trigger] column[i] == frames[i][speaker]
}

/// There is a label for every local speaker of every chunk that has embeddings. Whoever has
/// scores that add up to nothing positive gets minus two, and so does everyone where there are
/// no clusters.
pub proof fn law_whoever_is_silent_has_no_cluster<A: Arithmetic>(
    segmentations: Seq<Seq<Seq<u32>>>,
    width: nat,
    embeddings: Seq<Seq<Seq<u32>>>,
    speakers: nat,
    centroids: Seq<Seq<u32>>,
    chunk: int,
    speaker: int,
    column: Seq<u32>,
)
    requires
        0 <= chunk < embeddings.len(),
        0 <= speaker < speakers,
        scores_of(segmentations[chunk], speaker, column),
    ensures
        ({
            let labels = labelling::<A>(segmentations, width, embeddings, speakers, centroids);
            &&& labels.len() == embeddings.len()
            &&& labels[chunk].len() == speakers
            &&& centroids.len() == 0 || !less(ZERO, total_of::<A>(column, width as usize))
                ==> labels[chunk][speaker] == -2
        }),
{
    assert(column =~= column_of(segmentations[chunk], speaker));
}

/// The label of a local speaker who speaks and has a finite embedding names the centroid most
/// similar to it by their cosine: no other is more similar, and every earlier one is less
/// similar or by no number.
///
/// An embedding that is similar to no centroid by more than negative infinity is left out.
pub proof fn law_label_names_the_most_similar_centroid<A: Arithmetic>(
    segmentations: Seq<Seq<Seq<u32>>>,
    width: nat,
    embeddings: Seq<Seq<Seq<u32>>>,
    speakers: nat,
    centroids: Seq<Seq<u32>>,
    chunk: int,
    speaker: int,
    column: Seq<u32>,
)
    requires
        0 <= chunk < embeddings.len(),
        0 <= speaker < speakers,
        0 < centroids.len() <= i32::MAX,
        scores_of(segmentations[chunk], speaker, column),
        less(ZERO, total_of::<A>(column, width as usize)),
        forall|j: int|
            0 <= j < embeddings[chunk][speaker].len() ==> finite(
                #[trigger] embeddings[chunk][speaker][j],
            ),
        exists|d: int|
            0 <= d < centroids.len() && less(
                NEG_INFINITY,
                cosine_of::<A>(embeddings[chunk][speaker], #[trigger] centroids[d]),
            ),
    ensures
        ({
            let label = labelling::<A>(
                segmentations,
                width,
                embeddings,
                speakers,
                centroids,
            )[chunk][speaker] as int;
            let embedding = embeddings[chunk][speaker];
            let best = cosine_of::<A>(embedding, centroids[label]);
            &&& 0 <= label < centroids.len()
            &&& forall|c: int|
                0 <= c < centroids.len() ==> !less(
                    best,
                    cosine_of::<A>(embedding, #[trigger] centroids[c]),
                )
            &&& forall|c: int|
                0 <= c < label ==> {
                    let other = cosine_of::<A>(embedding, #[trigger] centroids[c]);
                    less(other, best) || not_a_number(other)
                }
        }),
{
    let embedding = embeddings[chunk][speaker];
    assert(column =~= column_of(segmentations[chunk], speaker));
    lemma_choice::<A>(embedding, centroids, centroids.len());
    let d = choose|d: int|
        0 <= d < centroids.len() && less(
            NEG_INFINITY,
            cosine_of::<A>(embedding, #[trigger] centroids[d]),
        );
    assert(less(NEG_INFINITY, cosine_of::<A>(embedding, centroids[d])));
    let best = cosine_of::<A>(embedding, centroids[cluster_of::<A>(embedding, centroids) as int]);
    assert forall|c: int| 0 <= c < centroids.len() implies !less(
        best,
        cosine_of::<A>(embedding, #[trigger] centroids[c]),
    ) by {
        law_cluster_is_most_similar::<A>(embedding, centroids, c);
    }
    assert forall|c: int| 0 <= c < cluster_of::<A>(embedding, centroids) implies {
        let other = cosine_of::<A>(embedding, #[trigger] centroids[c]);
        less(other, best) || not_a_number(other)
    } by {
        law_cluster_is_most_similar::<A>(embedding, centroids, c);
    }
}

/// A local speaker who speaks is in the first cluster where their embedding is not finite, or
/// similar to no centroid by more than negative infinity.
pub proof fn law_embeddings_like_none_go_to_the_first_cluster<A: Arithmetic>(
    segmentations: Seq<Seq<Seq<u32>>>,
    width: nat,
    embeddings: Seq<Seq<Seq<u32>>>,
    speakers: nat,
    centroids: Seq<Seq<u32>>,
    chunk: int,
    speaker: int,
    column: Seq<u32>,
)
    requires
        0 <= chunk < embeddings.len(),
        0 <= speaker < speakers,
        0 < centroids.len() <= i32::MAX,
        scores_of(segmentations[chunk], speaker, column),
        less(ZERO, total_of::<A>(column, width as usize)),
        (exists|j: int|
            0 <= j < embeddings[chunk][speaker].len() && !finite(
                #[trigger] embeddings[chunk][speaker][j],
            )) || (forall|d: int|
            0 <= d < centroids.len() ==> !less(
                NEG_INFINITY,
                cosine_of::<A>(embeddings[chunk][speaker], #[trigger] centroids[d]),
            )),
    ensures
        labelling::<A>(segmentations, width, embeddings, speakers, centroids)[chunk][speaker] == 0,
{
    assert(column =~= column_of(segmentations[chunk], speaker));
    lemma_choice::<A>(embeddings[chunk][speaker], centroids, centroids.len());
}

/// The choice is a centroid, and the first where none is more similar than negative infinity.
proof fn lemma_choice<A: Arithmetic>(embedding: Seq<u32>, centroids: Seq<Seq<u32>>, n: nat)
    requires
        n <= centroids.len() <= usize::MAX,
    ensures
        ({
            let best = most_similar_below::<A>(embedding, centroids, n);
            &&& n > 0 ==> best.0 < n
            &&& best == (0usize, NEG_INFINITY) || exists|d: int|
                0 <= d < n && less(NEG_INFINITY, cosine_of::<A>(embedding, #[trigger] centroids[d]))
        }),
    decreases n,
{
    if n > 0 {
        lemma_choice::<A>(embedding, centroids, (n - 1) as nat);
        let before = most_similar_below::<A>(embedding, centroids, (n - 1) as nat);
        if before == (0usize, NEG_INFINITY) {
            let d = n - 1;
            assert(less(before.1, cosine_of::<A>(embedding, centroids[d])) ==> less(
                NEG_INFINITY,
                cosine_of::<A>(embedding, centroids[d]),
            ));
        } else {
            let d = choose|d: int|
                0 <= d < n - 1 && less(
                    NEG_INFINITY,
                    cosine_of::<A>(embedding, #[trigger] centroids[d]),
                );
            assert(less(NEG_INFINITY, cosine_of::<A>(embedding, centroids[d])));
        }
    }
}

/// Rows that point along given units are the ones that are clustered.
proof fn lemma_directions<A: Arithmetic>(training: Seq<Seq<u32>>, units: Seq<Seq<u32>>)
    requires
        units.len() == training.len(),
        forall|i: int|
            0 <= i < training.len() ==> points_along::<A>(training[i], #[trigger] units[i]),
    ensures
        units == Seq::new(training.len(), |i: int| normalized::<A>(training[i])),
{
    assert forall|i: int| 0 <= i < training.len() implies #[trigger] units[i] == normalized::<A>(
        training[i],
    ) by {
        law_normalized_rows_keep_their_direction::<A>(training[i], units[i]);
    }
    assert(units =~= Seq::new(training.len(), |i: int| normalized::<A>(training[i])));
}

/// Re-clustering goes by direction: the embeddings are sorted into clusters as their units
/// are, by the best of three runs from the seed forty-two, and the centroids are the means of
/// the embeddings themselves.
pub proof fn law_reclustering_goes_by_direction<A: Arithmetic>(
    training: Seq<Seq<u32>>,
    columns: nat,
    k: nat,
    units: Seq<Seq<u32>>,
)
    requires
        units.len() == training.len(),
        forall|i: int|
            0 <= i < training.len() ==> points_along::<A>(training[i], #[trigger] units[i]),
    ensures
        reclustered::<A>(training, columns, k) == means_below::<A>(
            training,
            best_run::<A>(units, columns, k, 3, 42).labels,
            columns,
            k,
        ),
{
    lemma_directions::<A>(training, units);
}

/// Embeddings that point the same ways are sorted into clusters the same way, whatever their
/// lengths.
pub proof fn law_lengths_do_not_matter<A: Arithmetic>(
    training: Seq<Seq<u32>>,
    other: Seq<Seq<u32>>,
    columns: nat,
    k: nat,
    units: Seq<Seq<u32>>,
)
    requires
        units.len() == training.len(),
        units.len() == other.len(),
        forall|i: int|
            0 <= i < training.len() ==> points_along::<A>(training[i], #[trigger] units[i]),
        forall|i: int| 0 <= i < other.len() ==> points_along::<A>(other[i], #[trigger] units[i]),
    ensures
        exists|labels: Seq<usize>|
            {
                &&& reclustered::<A>(training, columns, k) == #[trigger] means_below::<A>(
                    training,
                    labels,
                    columns,
                    k,
                )
                &&& reclustered::<A>(other, columns, k) == means_below::<A>(
                    other,
                    labels,
                    columns,
                    k,
                )
            },
{
    law_reclustering_goes_by_direction::<A>(training, columns, k, units);
    law_reclustering_goes_by_direction::<A>(other, columns, k, units);
}

/// Every embedding is sorted into one of the clusters, and two that point the same way into
/// the same, whatever their lengths.
pub proof fn law_equal_directions_share_a_cluster<A: Arithmetic>(
    training: Seq<Seq<u32>>,
    columns: nat,
    k: nat,
    units: Seq<Seq<u32>>,
)
    requires
        0 < training.len() <= usize::MAX,
        0 < k <= usize::MAX,
        units.len() == training.len(),
        forall|i: int|
            0 <= i < training.len() ==> points_along::<A>(training[i], #[trigger] units[i]),
    ensures
        exists|labels: Seq<usize>|
            {
                &&& reclustered::<A>(training, columns, k) == #[trigger] means_below::<A>(
                    training,
                    labels,
                    columns,
                    k,
                )
                &&& labels.len() == training.len()
                &&& forall|i: int| 0 <= i < labels.len() ==> #[trigger] labels[i] < k
                &&& forall|i: int, j: int|
                    0 <= i < training.len() && 0 <= j < training.len() && #[trigger] units[i]
                        == #[trigger] units[j] ==> labels[i] == labels[j]
            },
{
    let labels = best_run::<A>(units, columns, k, 3, 42).labels;
    law_reclustering_goes_by_direction::<A>(training, columns, k, units);
    law_every_point_has_a_cluster::<A>(units, columns, k, 3, 42);
    assert forall|i: int, j: int|
        0 <= i < training.len() && 0 <= j < training.len() && #[trigger] units[i]
            == #[trigger] units[j] implies labels[i] == labels[j] by {
        law_equal_points_share_a_cluster::<A>(units, columns, k, 3, 42, i, j);
    }
    assert(reclustered::<A>(training, columns, k) == means_below::<A>(
        training,
        labels,
        columns,
        k,
    ));
}

} // verus!
