//! Assigning the local speakers of every chunk to clusters.
use crate::arithmetic::{cosine, cosine_of, functional, total, total_of, Arithmetic};
use crate::clustering::{
    best_run, cluster_means, kmeans, l2_normalized_rows, law_every_point_has_a_cluster,
    lemma_fits_fewer, lemma_means_count, means_below, normalized, KMEANS_RUNS, KMEANS_SEED,
};
use crate::grid::{filled, shape_fits, LabelGrid, ScoreGrid};
use crate::score::{finite, is_finite, is_less, less, not_a_number, NEG_INFINITY, ZERO};
use crate::speaker_count::SpeakerCount;
use crate::types::{ChunkEmbeddings, DecodedSegmentations};
use vstd::prelude::*;

verus! {

/// The label of a local speaker without a cluster.
pub const UNASSIGNED: i32 = -2;

/// One column of a table.
pub open spec fn column_of(rows: Seq<Seq<u32>>, column: int) -> Seq<u32> {
    Seq::new(rows.len(), |i: int| rows[i][column])
}

/// Whether a local speaker of a chunk speaks at all: the sum of their activity is positive.
///
/// The chunk has `width` local speakers, which is how far apart the cells of one of them lie.
pub open spec fn speaks<A: Arithmetic>(frames: Seq<Seq<u32>>, width: nat, speaker: int) -> bool {
    less(ZERO, total_of::<A>(column_of(frames, speaker), width as usize))
}

/// The most similar of the first `n` centroids and its similarity; the first of equals, and
/// the very first where none is more similar than negative infinity.
pub open spec fn most_similar_below<A: Arithmetic>(
    embedding: Seq<u32>,
    centroids: Seq<Seq<u32>>,
    n: nat,
) -> (usize, u32)
    decreases n,
{
    if n == 0 {
        (0, NEG_INFINITY)
    } else {
        let before = most_similar_below::<A>(embedding, centroids, (n - 1) as nat);
        let score = cosine_of::<A>(embedding, centroids[n - 1]);
        if less(before.1, score) {
            ((n - 1) as usize, score)
        } else {
            before
        }
    }
}

/// Whether every component is a finite number.
pub open spec fn all_finite(embedding: Seq<u32>) -> bool {
    forall|j: int| 0 <= j < embedding.len() ==> finite(#[trigger] embedding[j])
}

/// The cluster of a local speaker: the most similar one, or the first for an embedding that
/// is not finite, which is similar to none.
pub open spec fn cluster_of<A: Arithmetic>(
    embedding: Seq<u32>,
    centroids: Seq<Seq<u32>>,
) -> usize {
    if all_finite(embedding) {
        most_similar_below::<A>(embedding, centroids, centroids.len()).0
    } else {
        0
    }
}

/// Whether every embedding belongs to a local speaker that has been segmented.
pub open spec fn describes(
    embeddings: &ChunkEmbeddings,
    segmentations: &DecodedSegmentations,
) -> bool {
    embeddings.0@.len() > 0 && embeddings.0.rows() > 0 ==> {
        &&& embeddings.0@.len() <= segmentations.0@.len()
        &&& embeddings.0.rows() <= segmentations.0.columns()
    }
}

/// The label of a local speaker: the number of their cluster, unless they do not speak or
/// there are no clusters.
pub open spec fn label_of<A: Arithmetic>(
    frames: Seq<Seq<u32>>,
    width: nat,
    speaker: int,
    embedding: Seq<u32>,
    centroids: Seq<Seq<u32>>,
) -> i32 {
    if speaks::<A>(frames, width, speaker) && centroids.len() > 0 {
        cluster_of::<A>(embedding, centroids) as i32
    } else {
        UNASSIGNED
    }
}

/// The labels of the first `speakers` of the `width` local speakers of all chunks.
pub open spec fn labelling<A: Arithmetic>(
    segmentations: Seq<Seq<Seq<u32>>>,
    width: nat,
    embeddings: Seq<Seq<Seq<u32>>>,
    speakers: nat,
    centroids: Seq<Seq<u32>>,
) -> Seq<Seq<i32>> {
    Seq::new(
        embeddings.len(),
        |c: int|
            Seq::new(
                speakers,
                |s: int| label_of::<A>(segmentations[c], width, s, embeddings[c][s], centroids),
            ),
    )
}

/// The centroids that re-clustering the training embeddings gives: `k` clusters by direction,
/// and the mean of each cluster's embeddings.
pub open spec fn reclustered<A: Arithmetic>(
    training: Seq<Seq<u32>>,
    columns: nat,
    k: nat,
) -> Seq<Seq<u32>> {
    let directions = Seq::new(training.len(), |i: int| normalized::<A>(training[i]));
    let labels = best_run::<A>(
        directions,
        columns,
        k,
        KMEANS_RUNS as nat,
        KMEANS_SEED,
    ).labels;
    means_below::<A>(training, labels, columns, k)
}

/// The sum of the activity of one local speaker of a chunk.
fn activity<A: Arithmetic>(
    segmentations: &DecodedSegmentations,
    chunk: usize,
    speaker: usize,
) -> (r: u32)
    requires
        functional::<A>(),
        chunk < segmentations.0@.len(),
        speaker < segmentations.0.columns(),
    ensures
        r == total_of::<A>(
            column_of(segmentations.0@[chunk as int], speaker as int),
            segmentations.0.columns() as usize,
        ),
{
    let (_chunks, frames, width): (usize, usize, usize) = segmentations.0.dim();
    let ghost expected = column_of(segmentations.0@[chunk as int], speaker as int);
    let mut column: Vec<u32> = Vec::new();
    let mut f: usize = 0;
    while f < frames
        invariant
            chunk < segmentations.0@.len(),
            speaker < segmentations.0.columns(),
            frames == segmentations.0.rows(),
            segmentations.0@[chunk as int].len() == frames,
            expected == column_of(segmentations.0@[chunk as int], speaker as int),
            f <= frames,
            column@.len() == f,
            forall|g: int| 0 <= g < f ==> #[trigger] column@[g] == expected[g],
        decreases frames - f,
    {
        column.push(segmentations.0.at(chunk, f, speaker));
        f = f + 1;
    }
    proof {
        assert(column@ =~= expected);
    }
    total::<A>(&column, width)
}

/// One embedding.
fn embedding_at(embeddings: &ChunkEmbeddings, chunk: usize, speaker: usize) -> (r: Vec<u32>)
    requires
        chunk < embeddings.0@.len(),
        speaker < embeddings.0.rows(),
    ensures
        r@ == embeddings.0@[chunk as int][speaker as int],
{
    let (_chunks, _speakers, width): (usize, usize, usize) = embeddings.0.dim();
    let mut embedding: Vec<u32> = Vec::new();
    let mut j: usize = 0;
    while j < width
        invariant
            chunk < embeddings.0@.len(),
            speaker < embeddings.0.rows(),
            width == embeddings.0.columns(),
            embeddings.0@[chunk as int][speaker as int].len() == width,
            j <= width,
            embedding@.len() == j,
            forall|l: int|
                0 <= l < j ==> #[trigger] embedding@[l]
                    == embeddings.0@[chunk as int][speaker as int][l],
        decreases width - j,
    {
        embedding.push(embeddings.0.at(chunk, speaker, j));
        j = j + 1;
    }
    proof {
        assert(embedding@ =~= embeddings.0@[chunk as int][speaker as int]);
    }
    embedding
}

/// The cluster of a local speaker.
fn best_cluster<A: Arithmetic>(embedding: &Vec<u32>, centroids: &ScoreGrid) -> (r: usize)
    requires
        functional::<A>(),
    ensures
        r == cluster_of::<A>(embedding@, centroids@),
{
    let mut j: usize = 0;
    while j < embedding.len()
        invariant
            j <= embedding@.len(),
            forall|l: int| 0 <= l < j ==> finite(#[trigger] embedding@[l]),
        decreases embedding@.len() - j,
    {
        if !is_finite(embedding[j]) {
            return 0;
        }
        j = j + 1;
    }
    let (count, _columns): (usize, usize) = centroids.dim();
    let mut best: usize = 0;
    let mut highest: u32 = NEG_INFINITY;
    let mut c: usize = 0;
    while c < count
        invariant
            functional::<A>(),
            count == centroids@.len(),
            c <= count,
            (best, highest) == most_similar_below::<A>(embedding@, centroids@, c as nat),
        decreases count - c,
    {
        let centroid: Vec<u32> = centroids.row(c);
        let score: u32 = cosine::<A>(embedding, &centroid);
        if is_less(highest, score) {
            best = c;
            highest = score;
        }
        c = c + 1;
    }
    best
}

/// Each active local speaker to its most similar centroid, clusters shared freely.
///
/// An embedding that is not finite scores no cluster; pyannote's `argmax` over its NaN row
/// returns the first cluster, and so does this.
pub fn assign_unconstrained<A: Arithmetic>(
    segmentations: &DecodedSegmentations,
    embeddings: &ChunkEmbeddings,
    centroids: &ScoreGrid,
) -> (r: LabelGrid)
    requires
        functional::<A>(),
        describes(embeddings, segmentations),
        shape_fits(embeddings.0@.len(), embeddings.0.rows()),
    ensures
        r@ == labelling::<A>(
            segmentations.0@,
            segmentations.0.columns(),
            embeddings.0@,
            embeddings.0.rows(),
            centroids@,
        ),
        r.columns() == embeddings.0.rows(),
{
    let (chunks, speakers, _width): (usize, usize, usize) = embeddings.0.dim();
    let (count, _columns): (usize, usize) = centroids.dim();
    let mut labels: LabelGrid = LabelGrid::filled(chunks, speakers, UNASSIGNED);
    let ghost target = labelling::<A>(
        segmentations.0@,
        segmentations.0.columns(),
        embeddings.0@,
        speakers as nat,
        centroids@,
    );
    let mut c: usize = 0;
    while c < chunks
        invariant
            functional::<A>(),
            chunks == embeddings.0@.len(),
            speakers == embeddings.0.rows(),
            count == centroids@.len(),
            describes(embeddings, segmentations),
            target == labelling::<A>(
                segmentations.0@,
                segmentations.0.columns(),
                embeddings.0@,
                speakers as nat,
                centroids@,
            ),
            c <= chunks,
            labels@.len() == chunks,
            labels.columns() == speakers,
            forall|d: int| 0 <= d < c ==> #[trigger] labels@[d] == target[d],
            forall|d: int|
                c <= d < chunks ==> #[trigger] labels@[d] == Seq::new(
                    speakers as nat,
                    |t: int| UNASSIGNED,
                ),
        decreases chunks - c,
    {
        let mut s: usize = 0;
        while s < speakers
            invariant
                functional::<A>(),
                chunks == embeddings.0@.len(),
                speakers == embeddings.0.rows(),
                count == centroids@.len(),
                describes(embeddings, segmentations),
                target == labelling::<A>(
                    segmentations.0@,
                    segmentations.0.columns(),
                    embeddings.0@,
                    speakers as nat,
                    centroids@,
                ),
                c < chunks,
                s <= speakers,
                labels@.len() == chunks,
                labels.columns() == speakers,
                labels@[c as int].len() == speakers,
                forall|d: int| 0 <= d < c ==> #[trigger] labels@[d] == target[d],
                forall|t: int|
                    0 <= t < s ==> #[trigger] labels@[c as int][t] == target[c as int][t],
                forall|t: int| s <= t < speakers ==> #[trigger] labels@[c as int][t] == UNASSIGNED,
                forall|d: int|
                    c < d < chunks ==> #[trigger] labels@[d] == Seq::new(
                        speakers as nat,
                        |t: int| UNASSIGNED,
                    ),
            decreases speakers - s,
        {
            let active: bool = is_less(ZERO, activity::<A>(segmentations, c, s));
            if active && count > 0 {
                let embedding: Vec<u32> = embedding_at(embeddings, c, s);
                let best: usize = best_cluster::<A>(&embedding, centroids);
                labels.set(c, s, best as i32);
            }
            s = s + 1;
        }
        proof {
            assert(labels@[c as int] =~= target[c as int]);
        }
        c = c + 1;
    }
    proof {
        assert(labels@ =~= target);
    }
    labels
}

/// Assigns every chunk's local speakers to clusters by re-clustering, where the number of
/// `centroids` breaks the bounds; `None` where it does not, and the one-cluster-per-speaker
/// assignment to those centroids stands.
///
/// It follows pyannote's `VBxClustering`: KMeans on the L2-normalised training embeddings,
/// centroids as the mean of the raw ones, and each local speaker to its nearest centroid with
/// no one-cluster-per-speaker constraint -- because under a forced count two local speakers in
/// one chunk are often the same person, and the constraint would leave one of them, and its
/// speech, unassigned.
pub fn assign<A: Arithmetic>(
    segmentations: &DecodedSegmentations,
    embeddings: &ChunkEmbeddings,
    training: &ScoreGrid,
    centroids: &ScoreGrid,
    bounds: &SpeakerCount,
) -> (r: Option<LabelGrid>)
    requires
        functional::<A>(),
        bounds.correction_of(centroids@.len() as usize, training@.len() as usize) is Some ==> {
            &&& training@.len() > 0
            &&& describes(embeddings, segmentations)
            &&& shape_fits(embeddings.0@.len(), embeddings.0.rows())
        },
    ensures
        r is Some <==> bounds.correction_of(
            centroids@.len() as usize,
            training@.len() as usize,
        ) is Some,
        r matches Some(labels) ==> {
            let target = bounds.correction_of(
                centroids@.len() as usize,
                training@.len() as usize,
            )->0;
            &&& labels@ == labelling::<A>(
                segmentations.0@,
                segmentations.0.columns(),
                embeddings.0@,
                embeddings.0.rows(),
                reclustered::<A>(training@, training.columns(), target as nat),
            )
            &&& labels.columns() == embeddings.0.rows()
        },
{
    let (found, _columns): (usize, usize) = centroids.dim();
    let (count, _width): (usize, usize) = training.dim();
    match bounds.correction(found, count) {
        None => None,
        Some(target) => {
            proof {
                assert(target <= count);
                lemma_fits_fewer(count as nat, target as nat, training.columns());
            }
            let directions: ScoreGrid = l2_normalized_rows::<A>(training);
            let labels: Vec<usize> = kmeans::<A>(&directions, target, KMEANS_RUNS, KMEANS_SEED);
            let means: ScoreGrid = cluster_means::<A>(training, &labels, target);
            Some(assign_unconstrained::<A>(segmentations, embeddings, &means))
        },
    }
}

/// A speaking local speaker is never left without a cluster when there is one, and a silent
/// one never gets one.
pub proof fn law_everyone_who_speaks_has_a_cluster<A: Arithmetic>(
    segmentations: Seq<Seq<Seq<u32>>>,
    width: nat,
    embeddings: Seq<Seq<Seq<u32>>>,
    speakers: nat,
    centroids: Seq<Seq<u32>>,
    chunk: int,
    speaker: int,
)
    requires
        0 <= chunk < embeddings.len(),
        0 <= speaker < speakers,
        0 < centroids.len() <= i32::MAX,
    ensures
        ({
            let labels = labelling::<A>(segmentations, width, embeddings, speakers, centroids);
            let label = labels[chunk][speaker];
            if speaks::<A>(segmentations[chunk], width, speaker) {
                0 <= label < centroids.len()
            } else {
                label == UNASSIGNED
            }
        }),
{
    lemma_most_similar_bound::<A>(embeddings[chunk][speaker], centroids, centroids.len());
}

/// Re-clustering to `k` speakers gives at least one cluster and no more than `k`, so whoever
/// speaks is one of at most `k` speakers.
pub proof fn law_reclustering_keeps_to_the_count<A: Arithmetic>(
    training: Seq<Seq<u32>>,
    columns: nat,
    k: nat,
    segmentations: Seq<Seq<Seq<u32>>>,
    width: nat,
    embeddings: Seq<Seq<Seq<u32>>>,
    speakers: nat,
    chunk: int,
    speaker: int,
)
    requires
        0 < training.len() <= usize::MAX,
        0 < k <= i32::MAX,
        0 <= chunk < embeddings.len(),
        0 <= speaker < speakers,
        speaks::<A>(segmentations[chunk], width, speaker),
    ensures
        ({
            let centroids = reclustered::<A>(training, columns, k);
            &&& 0 < centroids.len() <= k
            &&& 0 <= labelling::<A>(
                segmentations,
                width,
                embeddings,
                speakers,
                centroids,
            )[chunk][speaker] < k
        }),
{
    let directions = Seq::new(training.len(), |i: int| normalized::<A>(training[i]));
    law_every_point_has_a_cluster::<A>(
        directions,
        columns,
        k,
        KMEANS_RUNS as nat,
        KMEANS_SEED,
    );
    let labels = best_run::<A>(
        directions,
        columns,
        k,
        KMEANS_RUNS as nat,
        KMEANS_SEED,
    ).labels;
    assert(labels[0] < k);
    lemma_means_count::<A>(training, labels, columns, k);
    law_everyone_who_speaks_has_a_cluster::<A>(
        segmentations,
        width,
        embeddings,
        speakers,
        reclustered::<A>(training, columns, k),
        chunk,
        speaker,
    );
}

/// With one cluster, everyone who speaks is in it: no chunk loses a local speaker.
pub proof fn law_one_cluster_takes_everyone<A: Arithmetic>(
    segmentations: Seq<Seq<Seq<u32>>>,
    width: nat,
    embeddings: Seq<Seq<Seq<u32>>>,
    speakers: nat,
    centroids: Seq<Seq<u32>>,
    chunk: int,
    speaker: int,
)
    requires
        0 <= chunk < embeddings.len(),
        0 <= speaker < speakers,
        centroids.len() == 1,
    ensures
        labelling::<A>(segmentations, width, embeddings, speakers, centroids)[chunk][speaker]
            == if speaks::<A>(segmentations[chunk], width, speaker) {
            0
        } else {
            UNASSIGNED
        },
{
    lemma_most_similar_bound::<A>(embeddings[chunk][speaker], centroids, centroids.len());
}

/// The cluster of a finite embedding is the first of those most similar to it: none is more
/// similar, and every earlier one is less so.
///
/// An embedding that is similar to no cluster by more than negative infinity, or by no
/// number at all, is left out.
pub proof fn law_cluster_is_most_similar<A: Arithmetic>(
    embedding: Seq<u32>,
    centroids: Seq<Seq<u32>>,
    c: int,
)
    requires
        all_finite(embedding),
        0 < centroids.len() <= usize::MAX,
        0 <= c < centroids.len(),
        exists|d: int|
            0 <= d < centroids.len() && less(
                NEG_INFINITY,
                #[trigger] cosine_of::<A>(embedding, centroids[d]),
            ),
    ensures
        ({
            let best = cosine_of::<A>(
                embedding,
                centroids[cluster_of::<A>(embedding, centroids) as int],
            );
            let other = cosine_of::<A>(embedding, centroids[c]);
            &&& !less(best, other)
            &&& c < cluster_of::<A>(embedding, centroids) ==> less(other, best) || not_a_number(
                other,
            )
        }),
{
    lemma_most_similar::<A>(embedding, centroids, centroids.len());
    let d = choose|d: int|
        0 <= d < centroids.len() && less(
            NEG_INFINITY,
            #[trigger] cosine_of::<A>(embedding, centroids[d]),
        );
    lemma_most_similar_bound::<A>(embedding, centroids, centroids.len());
}

/// What the walk over the centroids keeps: nothing seen is more similar than the best, and
/// everything before the best is less similar or no number.
proof fn lemma_most_similar<A: Arithmetic>(embedding: Seq<u32>, centroids: Seq<Seq<u32>>, n: nat)
    requires
        n <= usize::MAX,
    ensures
        ({
            let best = most_similar_below::<A>(embedding, centroids, n);
            &&& forall|c: int|
                0 <= c < n ==> !less(
                    best.1,
                    #[trigger] cosine_of::<A>(embedding, centroids[c]),
                )
            &&& best.1 == NEG_INFINITY || (best.0 < n && best.1 == cosine_of::<A>(
                embedding,
                centroids[best.0 as int],
            ) && forall|c: int|
                0 <= c < best.0 ==> {
                    let other = #[trigger] cosine_of::<A>(embedding, centroids[c]);
                    less(other, best.1) || not_a_number(other)
                })
        }),
    decreases n,
{
    if n > 0 {
        lemma_most_similar::<A>(embedding, centroids, (n - 1) as nat);
    }
}

/// The most similar centroid is one of the centroids.
proof fn lemma_most_similar_bound<A: Arithmetic>(
    embedding: Seq<u32>,
    centroids: Seq<Seq<u32>>,
    n: nat,
)
    requires
        n <= usize::MAX,
    ensures
        n > 0 ==> most_similar_below::<A>(embedding, centroids, n).0 < n,
        n == 0 ==> most_similar_below::<A>(embedding, centroids, n).0 == 0,
    decreases n,
{
    if n > 0 {
        lemma_most_similar_bound::<A>(embedding, centroids, (n - 1) as nat);
    }
}

} // verus!
