//! Putting overlapping chunks back together on one time axis.
use crate::arithmetic::{functional, over_of, plus_of, Arithmetic};
use crate::grid::{can_hold, filled, rectangular, shape_fits, LabelGrid, ScoreGrid};
use crate::ranking::{
    close, everyone, law_top_k_is_unique, lemma_louder_consistent, louder, outranks, picks,
    steadier, top_k, top_k_indices, top_k_indices_smoothed, top_k_smoothed,
};
use crate::score::{
    greater, greater_of, is_same, less, rounded_count, rounded_count_of, same, ONE, ZERO,
};
use crate::types::{
    ChunkSpeakerClusters, DecodedSegmentations, DiscreteDiarization, FrameActivations,
    SpeakerCountTrack,
};
use vstd::prelude::*;

verus! {

/// The chunks of a recording, where each starts on the output axis, and how many frames at
/// either end of a chunk are left out.
pub struct Reconstructor<'a> {
    segmentations: &'a DecodedSegmentations,
    hard_clusters: Option<&'a ChunkSpeakerClusters>,
    start_frames: &'a [usize],
    warmup_frames: usize,
}

/// Where the frames that count end in a chunk of `frames` frames.
pub open spec fn warmup_end_of(frames: nat, warmup: usize) -> int {
    if frames >= warmup {
        frames - warmup
    } else {
        0
    }
}

/// Whether a chunk that starts at `start` has a counting frame at output frame `f`.
pub open spec fn covers(start: usize, frames: nat, warmup: usize, f: int) -> bool {
    warmup <= f - start < warmup_end_of(frames, warmup)
}

/// The sum of the first `n` scores of a row, added from the left.
pub open spec fn row_sum<A: Arithmetic>(row: Seq<u32>, n: nat) -> u32
    decreases n,
{
    if n == 0 {
        ZERO
    } else {
        plus_of::<A>(row_sum::<A>(row, (n - 1) as nat), row[n - 1])
    }
}

/// The activity that the first `chunks` chunks add up to at output frame `f`.
pub open spec fn activity_of<A: Arithmetic>(
    layers: Seq<Seq<Seq<u32>>>,
    starts: Seq<usize>,
    frames: nat,
    warmup: usize,
    chunks: nat,
    f: int,
) -> u32
    decreases chunks,
{
    if chunks == 0 {
        ZERO
    } else {
        let before = activity_of::<A>(layers, starts, frames, warmup, (chunks - 1) as nat, f);
        let start = starts[chunks - 1];
        if covers(start, frames, warmup, f) {
            let row = layers[chunks - 1][f - start];
            plus_of::<A>(before, row_sum::<A>(row, row.len()))
        } else {
            before
        }
    }
}

/// How many of the first `chunks` chunks count at output frame `f`, as a score.
pub open spec fn weight_of<A: Arithmetic>(
    starts: Seq<usize>,
    frames: nat,
    warmup: usize,
    chunks: nat,
    f: int,
) -> u32
    decreases chunks,
{
    if chunks == 0 {
        ZERO
    } else {
        let before = weight_of::<A>(starts, frames, warmup, (chunks - 1) as nat, f);
        if covers(starts[chunks - 1], frames, warmup, f) {
            plus_of::<A>(before, ONE)
        } else {
            before
        }
    }
}

/// The count that an overlap-added activity of this weight rounds to.
pub open spec fn mean_count<A: Arithmetic>(activity: u32, weight: u32) -> usize {
    if same(weight, ZERO) {
        0
    } else {
        rounded_count_of(over_of::<A>(activity, weight))
    }
}

/// The local speakers among the first `n` that belong to a cluster, in order.
pub open spec fn members_below(labels: Seq<i32>, cluster: int, n: nat) -> Seq<usize>
    decreases n,
{
    if n == 0 {
        seq![]
    } else {
        let rest = members_below(labels, cluster, (n - 1) as nat);
        if labels[n - 1] == cluster {
            rest.push((n - 1) as usize)
        } else {
            rest
        }
    }
}

/// The local speakers of a chunk that belong to a cluster, in order.
pub open spec fn members_of(labels: Seq<i32>, cluster: int) -> Seq<usize> {
    members_below(labels, cluster, labels.len())
}

/// The greatest score of the first `n` members, or zero.
pub open spec fn peak_score(row: Seq<u32>, members: Seq<usize>, n: nat) -> u32
    decreases n,
{
    if n == 0 {
        ZERO
    } else {
        greater_of(peak_score(row, members, (n - 1) as nat), row[members[n - 1] as int])
    }
}

/// The score that the first `chunks` chunks add up to for a cluster at output frame `f`.
pub open spec fn activation_of<A: Arithmetic>(
    layers: Seq<Seq<Seq<u32>>>,
    labels: Seq<Seq<i32>>,
    starts: Seq<usize>,
    frames: nat,
    warmup: usize,
    chunks: nat,
    f: int,
    cluster: int,
) -> u32
    decreases chunks,
{
    if chunks == 0 {
        ZERO
    } else {
        let before = activation_of::<A>(
            layers,
            labels,
            starts,
            frames,
            warmup,
            (chunks - 1) as nat,
            f,
            cluster,
        );
        let start = starts[chunks - 1];
        let members = members_of(labels[chunks - 1], cluster);
        if members.len() > 0 && covers(start, frames, warmup, f) {
            plus_of::<A>(
                before,
                peak_score(layers[chunks - 1][f - start], members, members.len()),
            )
        } else {
            before
        }
    }
}

/// One more than the greatest label of the first `n` of a row, or zero.
pub open spec fn row_clusters(labels: Seq<i32>, n: nat) -> nat
    decreases n,
{
    if n == 0 {
        0
    } else {
        let before = row_clusters(labels, (n - 1) as nat);
        if labels[n - 1] >= before {
            (labels[n - 1] + 1) as nat
        } else {
            before
        }
    }
}

/// One more than the greatest label of the first `n` rows, or zero.
pub open spec fn cluster_count(rows: Seq<Seq<i32>>, n: nat) -> nat
    decreases n,
{
    if n == 0 {
        0
    } else {
        let before = cluster_count(rows, (n - 1) as nat);
        let here = row_clusters(rows[n - 1], rows[n - 1].len());
        if here > before {
            here
        } else {
            before
        }
    }
}

/// The greatest of the first `n` counts, or zero.
pub open spec fn greatest_count(counts: Seq<usize>, n: nat) -> nat
    decreases n,
{
    if n == 0 {
        0
    } else {
        let before = greatest_count(counts, (n - 1) as nat);
        if counts[n - 1] > before {
            counts[n - 1] as nat
        } else {
            before
        }
    }
}

/// How many columns a reconstruction has: one for each cluster, and at least as many as the
/// busiest frame has speakers.
pub open spec fn column_count(labels: Seq<Seq<i32>>, counts: Seq<usize>) -> nat {
    let clusters = cluster_count(labels, labels.len());
    let greatest = greatest_count(counts, counts.len());
    if clusters < greatest {
        greatest
    } else {
        clusters
    }
}

impl<'a> Reconstructor<'a> {
    /// The scores of every chunk, frames by local speakers.
    pub closed spec fn layers(&self) -> Seq<Seq<Seq<u32>>> {
        self.segmentations.0@
    }

    /// How many frames every chunk has.
    pub closed spec fn frames(&self) -> nat {
        self.segmentations.0.rows()
    }

    /// How many local speakers every chunk has.
    pub closed spec fn speakers(&self) -> nat {
        self.segmentations.0.columns()
    }

    /// The cluster of every local speaker of every chunk, once they are known.
    pub closed spec fn labels(&self) -> Option<Seq<Seq<i32>>> {
        match self.hard_clusters {
            Some(clusters) => Some(clusters.0@),
            None => None,
        }
    }

    /// Where every chunk starts on the output axis.
    pub closed spec fn starts(&self) -> Seq<usize> {
        self.start_frames@
    }

    /// How many frames at either end of a chunk are left out.
    pub closed spec fn warmup(&self) -> usize {
        self.warmup_frames
    }

    /// How many chunks have both scores and a start.
    pub open spec fn chunks(&self) -> nat {
        if self.starts().len() < self.layers().len() {
            self.starts().len()
        } else {
            self.layers().len()
        }
    }

    /// Whether every counting frame has a place on the output axis.
    pub open spec fn placeable(&self) -> bool {
        forall|c: int|
            0 <= c < self.chunks() && self.warmup() < warmup_end_of(self.frames(), self.warmup())
                ==> #[trigger] self.starts()[c] + warmup_end_of(self.frames(), self.warmup()) - 1
                <= usize::MAX
    }

    /// The activity that the chunks add up to at output frame `f`.
    pub open spec fn activity_at<A: Arithmetic>(&self, f: int) -> u32 {
        activity_of::<A>(
            self.layers(),
            self.starts(),
            self.frames(),
            self.warmup(),
            self.chunks(),
            f,
        )
    }

    /// How many chunks count at output frame `f`, as a score.
    pub open spec fn weight_at<A: Arithmetic>(&self, f: int) -> u32 {
        weight_of::<A>(self.starts(), self.frames(), self.warmup(), self.chunks(), f)
    }

    /// How many speakers are active in each output frame.
    pub open spec fn counts<A: Arithmetic>(&self, output_frames: nat) -> Seq<usize> {
        if self.layers().len() == 0 {
            seq![]
        } else {
            Seq::new(
                output_frames,
                |f: int| mean_count::<A>(self.activity_at::<A>(f), self.weight_at::<A>(f)),
            )
        }
    }

    /// The score that the chunks add up to for a cluster at output frame `f`.
    pub open spec fn score_at<A: Arithmetic>(&self, f: int, cluster: int) -> u32 {
        match self.labels() {
            Some(labels) => activation_of::<A>(
                self.layers(),
                labels,
                self.starts(),
                self.frames(),
                self.warmup(),
                self.chunks(),
                f,
                cluster,
            ),
            None => ZERO,
        }
    }

    /// A reconstructor for counting speakers, before they are clustered.
    pub fn new(
        segmentations: &'a DecodedSegmentations,
        start_frames: &'a [usize],
        warmup_frames: usize,
    ) -> (r: Self)
        ensures
            r.layers() == segmentations.0@,
            r.frames() == segmentations.0.rows(),
            r.speakers() == segmentations.0.columns(),
            r.labels() is None,
            r.starts() == start_frames@,
            r.warmup() == warmup_frames,
    {
        Reconstructor { segmentations, hard_clusters: None, start_frames, warmup_frames }
    }

    /// A reconstructor for clustered speakers.
    pub fn with_clusters(
        segmentations: &'a DecodedSegmentations,
        hard_clusters: &'a ChunkSpeakerClusters,
        start_frames: &'a [usize],
        warmup_frames: usize,
    ) -> (r: Self)
        ensures
            r.layers() == segmentations.0@,
            r.frames() == segmentations.0.rows(),
            r.speakers() == segmentations.0.columns(),
            r.labels() == Some(hard_clusters.0@),
            r.starts() == start_frames@,
            r.warmup() == warmup_frames,
    {
        Reconstructor {
            segmentations,
            hard_clusters: Some(hard_clusters),
            start_frames,
            warmup_frames,
        }
    }

    /// How many speakers are active in each output frame: the overlap-added activity divided
    /// by the number of chunks that count there, rounded.
    pub fn speaker_count<A: Arithmetic>(&self, output_frames: usize) -> (r: SpeakerCountTrack)
        requires
            functional::<A>(),
            self.placeable(),
        ensures
            r.0@ == self.counts::<A>(output_frames as nat),
    {
        let (num_chunks, num_frames, num_speakers): (usize, usize, usize) =
            self.segmentations.0.dim();
        if num_chunks == 0 {
            return SpeakerCountTrack(Vec::new());
        }
        let warmup: usize = self.warmup_frames;
        let warmup_end: usize = if num_frames >= warmup {
            num_frames - warmup
        } else {
            0
        };
        let ghost layers = self.layers();
        let ghost starts = self.starts();
        let mut numerator: Vec<u32> = vec![ZERO; output_frames];
        let mut denominator: Vec<u32> = vec![ZERO; output_frames];
        let mut chunk: usize = 0;
        while chunk < num_chunks && chunk < self.start_frames.len()
            invariant
                functional::<A>(),
                self.placeable(),
                num_chunks == layers.len(),
                num_frames == self.frames(),
                num_speakers == self.speakers(),
                warmup == self.warmup(),
                warmup_end == warmup_end_of(num_frames as nat, warmup),
                layers == self.layers(),
                starts == self.starts(),
                chunk <= self.chunks(),
                numerator@.len() == output_frames,
                denominator@.len() == output_frames,
                forall|f: int|
                    0 <= f < output_frames ==> #[trigger] numerator@[f] == activity_of::<A>(
                        layers,
                        starts,
                        num_frames as nat,
                        warmup,
                        chunk as nat,
                        f,
                    ),
                forall|f: int|
                    0 <= f < output_frames ==> #[trigger] denominator@[f] == weight_of::<A>(
                        starts,
                        num_frames as nat,
                        warmup,
                        chunk as nat,
                        f,
                    ),
            decreases num_chunks - chunk,
        {
            let start: usize = self.start_frames[chunk];
            let mut frame: usize = warmup;
            while frame < warmup_end
                invariant
                    functional::<A>(),
                    self.placeable(),
                    num_chunks == layers.len(),
                    num_frames == self.frames(),
                    num_speakers == self.speakers(),
                    warmup == self.warmup(),
                    warmup_end == warmup_end_of(num_frames as nat, warmup),
                    layers == self.layers(),
                    starts == self.starts(),
                    chunk < self.chunks(),
                    start == starts[chunk as int],
                    warmup <= frame,
                    frame <= warmup_end || warmup_end <= warmup == frame,
                    numerator@.len() == output_frames,
                    denominator@.len() == output_frames,
                    forall|f: int|
                        0 <= f < output_frames ==> #[trigger] numerator@[f] == activity_of::<A>(
                            layers,
                            starts,
                            num_frames as nat,
                            warmup,
                            if warmup <= f - start < frame {
                                (chunk + 1) as nat
                            } else {
                                chunk as nat
                            },
                            f,
                        ),
                    forall|f: int|
                        0 <= f < output_frames ==> #[trigger] denominator@[f] == weight_of::<A>(
                            starts,
                            num_frames as nat,
                            warmup,
                            if warmup <= f - start < frame {
                                (chunk + 1) as nat
                            } else {
                                chunk as nat
                            },
                            f,
                        ),
                decreases warmup_end - frame,
            {
                let out: usize = start + frame;
                if out < output_frames {
                    let sum: u32 = self.frame_sum::<A>(chunk, frame);
                    proof {
                        assert(covers(start, num_frames as nat, warmup, out as int));
                        assert(numerator@[out as int] == activity_of::<A>(
                            layers,
                            starts,
                            num_frames as nat,
                            warmup,
                            chunk as nat,
                            out as int,
                        ));
                        assert(denominator@[out as int] == weight_of::<A>(
                            starts,
                            num_frames as nat,
                            warmup,
                            chunk as nat,
                            out as int,
                        ));
                    }
                    let grown: u32 = A::plus(numerator[out], sum);
                    numerator.set(out, grown);
                    let heavier: u32 = A::plus(denominator[out], ONE);
                    denominator.set(out, heavier);
                }
                frame = frame + 1;
            }
            proof {
                assert forall|f: int| 0 <= f < output_frames implies #[trigger] numerator@[f]
                    == activity_of::<A>(
                    layers,
                    starts,
                    num_frames as nat,
                    warmup,
                    (chunk + 1) as nat,
                    f,
                ) by {
                    assert(covers(start, num_frames as nat, warmup, f) <==> warmup <= f - start
                        < frame);
                }
                assert forall|f: int| 0 <= f < output_frames implies #[trigger] denominator@[f]
                    == weight_of::<A>(starts, num_frames as nat, warmup, (chunk + 1) as nat, f) by {
                    assert(covers(start, num_frames as nat, warmup, f) <==> warmup <= f - start
                        < frame);
                }
            }
            chunk = chunk + 1;
        }
        let mut counts: Vec<usize> = Vec::new();
        let mut f: usize = 0;
        while f < output_frames
            invariant
                functional::<A>(),
                f <= output_frames,
                numerator@.len() == output_frames,
                denominator@.len() == output_frames,
                counts@.len() == f,
                forall|g: int|
                    0 <= g < f ==> #[trigger] counts@[g] == mean_count::<A>(
                        numerator@[g],
                        denominator@[g],
                    ),
            decreases output_frames - f,
        {
            let weight: u32 = denominator[f];
            let count: usize = if is_same(weight, ZERO) {
                0
            } else {
                rounded_count(A::over(numerator[f], weight))
            };
            counts.push(count);
            f = f + 1;
        }
        proof {
            assert(chunk == self.chunks());
            assert(counts@ =~= self.counts::<A>(output_frames as nat));
        }
        SpeakerCountTrack(counts)
    }

    /// The sum of the scores of one frame of one chunk.
    fn frame_sum<A: Arithmetic>(&self, chunk: usize, frame: usize) -> (r: u32)
        requires
            functional::<A>(),
            chunk < self.layers().len(),
            frame < self.frames(),
        ensures
            r == row_sum::<A>(
                self.layers()[chunk as int][frame as int],
                self.layers()[chunk as int][frame as int].len(),
            ),
    {
        let (_chunks, _frames, speakers): (usize, usize, usize) = self.segmentations.0.dim();
        let ghost row = self.layers()[chunk as int][frame as int];
        let mut sum: u32 = ZERO;
        let mut s: usize = 0;
        proof {
            assert(self.layers()[chunk as int].len() == self.frames());
            assert(row.len() == speakers);
        }
        while s < speakers
            invariant
                functional::<A>(),
                chunk < self.layers().len(),
                frame < self.frames(),
                speakers == self.speakers(),
                row == self.layers()[chunk as int][frame as int],
                row.len() == speakers,
                s <= speakers,
                sum == row_sum::<A>(row, s as nat),
            decreases speakers - s,
        {
            sum = A::plus(sum, self.segmentations.0.at(chunk, frame, s));
            s = s + 1;
        }
        sum
    }
}

/// The list of members holds the local speakers of the cluster and nothing else.
pub proof fn lemma_members(labels: Seq<i32>, cluster: int, n: nat)
    requires
        n <= labels.len(),
        n <= usize::MAX,
    ensures
        ({
            let members = members_below(labels, cluster, n);
            &&& members.len() <= n
            &&& forall|k: int|
                0 <= k < members.len() ==> #[trigger] members[k] < n && labels[members[k] as int]
                    == cluster
        }),
        forall|l: int|
            0 <= l < n && #[trigger] labels[l] == cluster ==> members_below(
                labels,
                cluster,
                n,
            ).contains(l as usize),
    decreases n,
{
    if n > 0 {
        lemma_members(labels, cluster, (n - 1) as nat);
        let rest = members_below(labels, cluster, (n - 1) as nat);
        let members = members_below(labels, cluster, n);
        assert forall|l: int| 0 <= l < n && #[trigger] labels[l] == cluster implies members.contains(
            l as usize,
        ) by {
            if l < n - 1 {
                assert(rest.contains(l as usize));
                let k = choose|k: int| 0 <= k < rest.len() && rest[k] == l as usize;
                assert(members[k] == l as usize);
            } else {
                assert(members[rest.len() as int] == l as usize);
            }
        }
    }
}

/// Every label of a row is below its number of clusters.
proof fn lemma_row_clusters(labels: Seq<i32>, n: nat)
    requires
        n <= labels.len(),
    ensures
        row_clusters(labels, n) <= i32::MAX + 1,
        forall|l: int| 0 <= l < n ==> #[trigger] labels[l] < row_clusters(labels, n),
    decreases n,
{
    if n > 0 {
        lemma_row_clusters(labels, (n - 1) as nat);
    }
}

/// Every label of the first `n` rows is below their number of clusters.
proof fn lemma_cluster_count(rows: Seq<Seq<i32>>, n: nat)
    requires
        n <= rows.len(),
    ensures
        cluster_count(rows, n) <= i32::MAX + 1,
        forall|c: int, l: int|
            0 <= c < n && 0 <= l < rows[c].len() ==> #[trigger] rows[c][l] < cluster_count(rows, n),
    decreases n,
{
    if n > 0 {
        lemma_cluster_count(rows, (n - 1) as nat);
        lemma_row_clusters(rows[n - 1], rows[n - 1].len());
        assert forall|c: int, l: int| 0 <= c < n && 0 <= l < rows[c].len() implies
            #[trigger] rows[c][l] < cluster_count(rows, n) by {
            if c == n - 1 {
                assert(rows[n - 1][l] < row_clusters(rows[n - 1], rows[n - 1].len()));
            }
        }
    }
}

/// The local speakers of a chunk, sorted into their clusters.
pub fn build_cluster_mapping(chunk_labels: &Vec<i32>, num_clusters: usize) -> (r: Vec<Vec<usize>>)
    requires
        forall|l: int| 0 <= l < chunk_labels@.len() ==> #[trigger] chunk_labels@[l] < num_clusters,
    ensures
        r@.len() == num_clusters,
        forall|k: int|
            0 <= k < num_clusters ==> (#[trigger] r@[k])@ == members_of(chunk_labels@, k),
{
    let mut mapping: Vec<Vec<usize>> = Vec::new();
    let mut k: usize = 0;
    while k < num_clusters
        invariant
            k <= num_clusters,
            mapping@.len() == k,
            forall|j: int|
                0 <= j < k ==> (#[trigger] mapping@[j])@ == members_below(chunk_labels@, j, 0),
        decreases num_clusters - k,
    {
        mapping.push(Vec::new());
        k = k + 1;
    }
    let mut l: usize = 0;
    while l < chunk_labels.len()
        invariant
            l <= chunk_labels@.len(),
            mapping@.len() == num_clusters,
            forall|i: int|
                0 <= i < chunk_labels@.len() ==> #[trigger] chunk_labels@[i] < num_clusters,
            forall|j: int|
                0 <= j < num_clusters ==> (#[trigger] mapping@[j])@ == members_below(
                    chunk_labels@,
                    j,
                    l as nat,
                ),
        decreases chunk_labels@.len() - l,
    {
        let label: i32 = chunk_labels[l];
        let ghost before = mapping@;
        if label >= 0 {
            proof {
                assert(chunk_labels@[l as int] < num_clusters);
            }
            let cluster: usize = label as usize;
            mapping[cluster].push(l);
            proof {
                assert forall|j: int| 0 <= j < num_clusters implies (#[trigger] mapping@[j])@
                    == members_below(chunk_labels@, j, (l + 1) as nat) by {
                    assert(before[j]@ == members_below(chunk_labels@, j, l as nat));
                }
            }
        }
        l = l + 1;
    }
    mapping
}

impl<'a> Reconstructor<'a> {
    /// Whether the clusters describe the chunks: every chunk has a row of labels, and a label
    /// is only given to a local speaker whose score is there to be read.
    pub open spec fn labelled(&self, output_frames: nat) -> bool {
        match self.labels() {
            Some(rows) => {
                &&& self.chunks() <= rows.len()
                &&& forall|c: int, l: int, frame: int|
                    #![trigger rows[c][l], covers(
                        self.starts()[c],
                        self.frames(),
                        self.warmup(),
                        frame,
                    )]
                    0 <= c < self.chunks() && 0 <= l < rows[c].len() && rows[c][l] >= 0 && covers(
                        self.starts()[c],
                        self.frames(),
                        self.warmup(),
                        frame,
                    ) && frame < output_frames ==> l < self.speakers()
            },
            None => true,
        }
    }

    /// The scores that a track of this length is reconstructed from.
    pub open spec fn activations<A: Arithmetic>(&self, counts: Seq<usize>) -> Seq<Seq<u32>> {
        match self.labels() {
            Some(rows) => Seq::new(
                counts.len(),
                |f: int|
                    Seq::new(
                        column_count(rows, counts),
                        |k: int|
                            activation_of::<A>(
                                self.layers(),
                                rows,
                                self.starts(),
                                self.frames(),
                                self.warmup(),
                                self.chunks(),
                                f,
                                k,
                            ),
                    ),
            ),
            None => filled(counts.len(), 0, ZERO),
        }
    }

    /// How many columns the scores have.
    pub open spec fn columns(&self, counts: Seq<usize>) -> nat {
        match self.labels() {
            Some(rows) => column_count(rows, counts),
            None => 0,
        }
    }

    /// Whether every counting frame has a place on the output axis.
    pub fn is_placeable(&self) -> (r: bool)
        ensures
            r == self.placeable(),
    {
        let (num_chunks, num_frames, _speakers): (usize, usize, usize) =
            self.segmentations.0.dim();
        let warmup: usize = self.warmup_frames;
        if num_frames < warmup || num_frames - warmup <= warmup {
            return true;
        }
        let last: usize = num_frames - warmup - 1;
        let mut chunk: usize = 0;
        while chunk < num_chunks && chunk < self.start_frames.len()
            invariant
                num_chunks == self.layers().len(),
                num_frames == self.frames(),
                warmup == self.warmup(),
                warmup < warmup_end_of(num_frames as nat, warmup),
                last == warmup_end_of(num_frames as nat, warmup) - 1,
                chunk <= self.chunks(),
                forall|c: int| 0 <= c < chunk ==> #[trigger] self.starts()[c] + last <= usize::MAX,
            decreases self.chunks() - chunk,
        {
            if self.start_frames[chunk] > usize::MAX - last {
                proof {
                    assert(self.starts()[chunk as int] + last > usize::MAX);
                }
                return false;
            }
            chunk = chunk + 1;
        }
        true
    }

    /// Whether a track of this length can be reconstructed: every counting frame has a place,
    /// the clusters describe the chunks, and the result can exist on this machine.
    pub fn is_reconstructible(&self, speaker_count: &SpeakerCountTrack) -> (r: bool)
        ensures
            r == (self.placeable() && self.labelled(speaker_count.0@.len()) && shape_fits(
                speaker_count.0@.len(),
                self.columns(speaker_count.0@),
            )),
    {
        let output_frames: usize = speaker_count.0.len();
        if !self.is_placeable() {
            return false;
        }
        match self.hard_clusters {
            None => can_hold(output_frames, 0),
            Some(clusters) => {
                let num_clusters: usize = count_clusters(&clusters.0);
                let greatest: usize = greatest_of(&speaker_count.0);
                let columns: usize = if num_clusters < greatest {
                    greatest
                } else {
                    num_clusters
                };
                can_hold(output_frames, columns) && self.describes(clusters, output_frames)
            },
        }
    }

    /// Whether clusters describe the chunks.
    fn describes(&self, clusters: &ChunkSpeakerClusters, output_frames: usize) -> (r: bool)
        requires
            self.labels() == Some(clusters.0@),
        ensures
            r == self.labelled(output_frames as nat),
    {
        let (num_chunks, num_frames, num_speakers): (usize, usize, usize) =
            self.segmentations.0.dim();
        let (label_rows, label_columns): (usize, usize) = clusters.0.dim();
        let warmup: usize = self.warmup_frames;
        let warmup_end: usize = if num_frames >= warmup {
            num_frames - warmup
        } else {
            0
        };
        let ghost rows = clusters.0@;
        let mut chunk: usize = 0;
        while chunk < num_chunks && chunk < self.start_frames.len()
            invariant
                self.labels() == Some(rows),
                rows == clusters.0@,
                rectangular(rows, label_columns as nat),
                label_rows == rows.len(),
                label_columns == clusters.0.columns(),
                num_chunks == self.layers().len(),
                num_frames == self.frames(),
                num_speakers == self.speakers(),
                warmup == self.warmup(),
                warmup_end == warmup_end_of(num_frames as nat, warmup),
                chunk <= self.chunks(),
                chunk <= label_rows,
                forall|c: int, l: int, frame: int|
                    #![trigger rows[c][l], covers(
                        self.starts()[c],
                        self.frames(),
                        self.warmup(),
                        frame,
                    )]
                    0 <= c < chunk && 0 <= l < rows[c].len() && rows[c][l] >= 0 && covers(
                        self.starts()[c],
                        self.frames(),
                        self.warmup(),
                        frame,
                    ) && frame < output_frames ==> l < self.speakers(),
            decreases self.chunks() - chunk,
        {
            if chunk >= label_rows {
                return false;
            }
            let start: usize = self.start_frames[chunk];
            let reaches: bool = warmup < warmup_end && start < output_frames && warmup
                < output_frames - start;
            let mut l: usize = num_speakers;
            while l < label_columns
                invariant
                    rows == clusters.0@,
                    chunk < rows.len(),
                    chunk < self.chunks(),
                    rows[chunk as int].len() == label_columns,
                    label_columns == clusters.0.columns(),
                    self.labels() == Some(rows),
                    num_frames == self.frames(),
                    num_speakers == self.speakers(),
                    warmup == self.warmup(),
                    warmup_end == warmup_end_of(num_frames as nat, warmup),
                    start == self.starts()[chunk as int],
                    reaches == (warmup < warmup_end && start + warmup < output_frames),
                    num_speakers <= l,
                    forall|m: int|
                        num_speakers <= m < l ==> !reaches || #[trigger] rows[chunk as int][m] < 0,
                decreases label_columns - l,
            {
                if reaches && clusters.0.at(chunk, l) >= 0 {
                    proof {
                        assert(rows[chunk as int][l as int] >= 0);
                        assert(covers(
                            self.starts()[chunk as int],
                            self.frames(),
                            self.warmup(),
                            start + warmup,
                        ));
                    }
                    return false;
                }
                l = l + 1;
            }
            proof {
                assert forall|l: int, frame: int|
                    #![trigger rows[chunk as int][l], covers(
                        self.starts()[chunk as int],
                        self.frames(),
                        self.warmup(),
                        frame,
                    )]
                    0 <= l < rows[chunk as int].len() && rows[chunk as int][l] >= 0 && covers(
                        self.starts()[chunk as int],
                        self.frames(),
                        self.warmup(),
                        frame,
                    ) && frame < output_frames implies l < self.speakers() by {
                    if l >= num_speakers {
                        assert(!reaches || rows[chunk as int][l] < 0);
                    }
                }
            }
            chunk = chunk + 1;
        }
        true
    }

    /// Overlap-adds, for each cluster, the greatest score among its local speakers.
    pub fn frame_activations<A: Arithmetic>(&self, speaker_count: &SpeakerCountTrack) -> (r:
        FrameActivations)
        requires
            functional::<A>(),
            self.placeable(),
            self.labelled(speaker_count.0@.len()),
            shape_fits(speaker_count.0@.len(), self.columns(speaker_count.0@)),
        ensures
            r.0@ == self.activations::<A>(speaker_count.0@),
            r.0.columns() == self.columns(speaker_count.0@),
    {
        let output_frames: usize = speaker_count.0.len();
        let clusters_ref: &ChunkSpeakerClusters = match self.hard_clusters {
            None => {
                return FrameActivations(ScoreGrid::filled(output_frames, 0, ZERO));
            },
            Some(clusters) => clusters,
        };
        let ghost rows = clusters_ref.0@;
        let (num_chunks, num_frames, num_speakers): (usize, usize, usize) =
            self.segmentations.0.dim();
        let (label_rows, label_columns): (usize, usize) = clusters_ref.0.dim();
        let num_clusters: usize = count_clusters(&clusters_ref.0);
        let greatest: usize = greatest_of(&speaker_count.0);
        let columns: usize = if num_clusters < greatest {
            greatest
        } else {
            num_clusters
        };
        let warmup: usize = self.warmup_frames;
        let warmup_end: usize = if num_frames >= warmup {
            num_frames - warmup
        } else {
            0
        };
        let mut grid: ScoreGrid = ScoreGrid::filled(output_frames, columns, ZERO);
        let mut chunk: usize = 0;
        while chunk < num_chunks && chunk < self.start_frames.len()
            invariant
                functional::<A>(),
                self.placeable(),
                self.labelled(output_frames as nat),
                self.labels() == Some(rows),
                rows == clusters_ref.0@,
                rectangular(rows, label_columns as nat),
                label_columns == clusters_ref.0.columns(),
                num_chunks == self.layers().len(),
                num_frames == self.frames(),
                num_speakers == self.speakers(),
                num_clusters == cluster_count(rows, rows.len()),
                num_clusters <= columns,
                warmup == self.warmup(),
                warmup_end == warmup_end_of(num_frames as nat, warmup),
                chunk <= self.chunks(),
                grid@.len() == output_frames,
                grid.columns() == columns,
                forall|f: int, k: int|
                    0 <= f < output_frames && 0 <= k < columns ==> #[trigger] grid@[f][k]
                        == activation_of::<A>(
                        self.layers(),
                        rows,
                        self.starts(),
                        num_frames as nat,
                        warmup,
                        chunk as nat,
                        f,
                        k,
                    ),
            decreases num_chunks - chunk,
        {
            let start: usize = self.start_frames[chunk];
            let labels: Vec<i32> = label_row(&clusters_ref.0, chunk);
            proof {
                lemma_cluster_count(rows, rows.len());
            }
            let mapping: Vec<Vec<usize>> = build_cluster_mapping(&labels, num_clusters);
            let mut cluster: usize = 0;
            while cluster < num_clusters
                invariant
                    functional::<A>(),
                    self.placeable(),
                    self.labelled(output_frames as nat),
                    self.labels() == Some(rows),
                    num_chunks == self.layers().len(),
                    num_frames == self.frames(),
                    num_speakers == self.speakers(),
                    num_clusters <= columns,
                    warmup == self.warmup(),
                    warmup_end == warmup_end_of(num_frames as nat, warmup),
                    chunk < self.chunks(),
                    start == self.starts()[chunk as int],
                    labels@ == rows[chunk as int],
                    labels@.len() == label_columns,
                    mapping@.len() == num_clusters,
                    forall|k: int|
                        0 <= k < num_clusters ==> (#[trigger] mapping@[k])@ == members_of(
                            labels@,
                            k,
                        ),
                    cluster <= num_clusters,
                    grid@.len() == output_frames,
                    grid.columns() == columns,
                    forall|f: int, k: int|
                        0 <= f < output_frames && 0 <= k < columns ==> #[trigger] grid@[f][k]
                            == activation_of::<A>(
                            self.layers(),
                            rows,
                            self.starts(),
                            num_frames as nat,
                            warmup,
                            if k < cluster {
                                (chunk + 1) as nat
                            } else {
                                chunk as nat
                            },
                            f,
                            k,
                        ),
                decreases num_clusters - cluster,
            {
                let ghost members = members_of(labels@, cluster as int);
                let mut frame: usize = warmup;
                while frame < warmup_end && mapping[cluster].len() > 0
                    invariant
                        functional::<A>(),
                        self.placeable(),
                        self.labelled(output_frames as nat),
                        self.labels() == Some(rows),
                        num_chunks == self.layers().len(),
                        num_frames == self.frames(),
                        num_speakers == self.speakers(),
                        num_clusters <= columns,
                        warmup == self.warmup(),
                        warmup_end == warmup_end_of(num_frames as nat, warmup),
                        chunk < self.chunks(),
                        start == self.starts()[chunk as int],
                        labels@ == rows[chunk as int],
                        labels@.len() == label_columns,
                        cluster < num_clusters,
                        mapping@.len() == num_clusters,
                        mapping@[cluster as int]@ == members,
                        members == members_of(labels@, cluster as int),
                        warmup <= frame,
                        frame <= warmup_end || warmup_end <= warmup == frame,
                        grid@.len() == output_frames,
                        grid.columns() == columns,
                        forall|f: int, k: int|
                            0 <= f < output_frames && 0 <= k < columns ==> #[trigger] grid@[f][k]
                                == activation_of::<A>(
                                self.layers(),
                                rows,
                                self.starts(),
                                num_frames as nat,
                                warmup,
                                if k < cluster || (k == cluster && warmup <= f - start < frame) {
                                    (chunk + 1) as nat
                                } else {
                                    chunk as nat
                                },
                                f,
                                k,
                            ),
                    decreases warmup_end - frame,
                {
                    let out: usize = start + frame;
                    if out < output_frames {
                        proof {
                            assert(covers(start, num_frames as nat, warmup, out as int));
                            lemma_members(labels@, cluster as int, labels@.len());
                            assert forall|k: int| 0 <= k < members.len() implies
                                #[trigger] members[k] < num_speakers by {
                                let l = members[k] as int;
                                assert(rows[chunk as int][l] == cluster);
                            }
                        }
                        let score: u32 = self.members_peak(chunk, frame, &mapping[cluster]);
                        let ghost before = grid@;
                        proof {
                            assert(before[out as int][cluster as int] == activation_of::<A>(
                                self.layers(),
                                rows,
                                self.starts(),
                                num_frames as nat,
                                warmup,
                                chunk as nat,
                                out as int,
                                cluster as int,
                            ));
                        }
                        let grown: u32 = A::plus(grid.at(out, cluster), score);
                        let _dim: (usize, usize) = grid.dim();
                        grid.set(out, cluster, grown);
                        proof {
                            assert forall|f: int, k: int|
                                0 <= f < output_frames && 0 <= k < columns implies
                                #[trigger] grid@[f][k] == activation_of::<A>(
                                self.layers(),
                                rows,
                                self.starts(),
                                num_frames as nat,
                                warmup,
                                if k < cluster || (k == cluster && warmup <= f - start < frame
                                    + 1) {
                                    (chunk + 1) as nat
                                } else {
                                    chunk as nat
                                },
                                f,
                                k,
                            ) by {
                                if !(f == out && k == cluster) {
                                    assert(grid@[f][k] == before[f][k]);
                                }
                            }
                        }
                    }
                    frame = frame + 1;
                }
                proof {
                    assert forall|f: int, k: int|
                        0 <= f < output_frames && 0 <= k < columns implies #[trigger] grid@[f][k]
                        == activation_of::<A>(
                        self.layers(),
                        rows,
                        self.starts(),
                        num_frames as nat,
                        warmup,
                        if k < cluster + 1 {
                            (chunk + 1) as nat
                        } else {
                            chunk as nat
                        },
                        f,
                        k,
                    ) by {
                        if k == cluster && members.len() > 0 {
                            assert(covers(start, num_frames as nat, warmup, f) <==> warmup <= f
                                - start < frame);
                        }
                    }
                }
                cluster = cluster + 1;
            }
            proof {
                assert forall|f: int, k: int|
                    0 <= f < output_frames && 0 <= k < columns implies #[trigger] grid@[f][k]
                    == activation_of::<A>(
                    self.layers(),
                    rows,
                    self.starts(),
                    num_frames as nat,
                    warmup,
                    (chunk + 1) as nat,
                    f,
                    k,
                ) by {
                    if k >= num_clusters {
                        lemma_members(labels@, k, labels@.len());
                        let members = members_of(labels@, k);
                        if members.len() > 0 {
                            assert(labels@[members[0] as int] == k);
                            assert(rows[chunk as int][members[0] as int] < num_clusters);
                        }
                    }
                }
            }
            chunk = chunk + 1;
        }
        let _dim: (usize, usize) = grid.dim();
        proof {
            assert(chunk == self.chunks());
            assert forall|f: int| 0 <= f < output_frames implies #[trigger] grid@[f]
                == self.activations::<A>(speaker_count.0@)[f] by {
                let expected = self.activations::<A>(speaker_count.0@)[f];
                assert(grid@[f].len() == columns);
                assert forall|k: int| 0 <= k < columns implies grid@[f][k] == expected[k] by {}
                assert(grid@[f] =~= expected);
            }
            assert(grid@ =~= self.activations::<A>(speaker_count.0@));
        }
        FrameActivations(grid)
    }

    /// The greatest score among some local speakers of one frame of one chunk, or zero.
    fn members_peak(&self, chunk: usize, frame: usize, members: &Vec<usize>) -> (r: u32)
        requires
            chunk < self.layers().len(),
            frame < self.frames(),
            forall|k: int| 0 <= k < members@.len() ==> #[trigger] members@[k] < self.speakers(),
        ensures
            r == peak_score(
                self.layers()[chunk as int][frame as int],
                members@,
                members@.len(),
            ),
    {
        let ghost row = self.layers()[chunk as int][frame as int];
        let mut score: u32 = ZERO;
        let mut k: usize = 0;
        while k < members.len()
            invariant
                chunk < self.layers().len(),
                frame < self.frames(),
                row == self.layers()[chunk as int][frame as int],
                forall|j: int|
                    0 <= j < members@.len() ==> #[trigger] members@[j] < self.speakers(),
                k <= members@.len(),
                score == peak_score(row, members@, k as nat),
            decreases members@.len() - k,
        {
            score = greater(score, self.segmentations.0.at(chunk, frame, members[k]));
            k = k + 1;
        }
        score
    }
}

/// One row of a table of labels.
fn label_row(grid: &LabelGrid, row: usize) -> (r: Vec<i32>)
    requires
        row < grid@.len(),
    ensures
        r@ == grid@[row as int],
        r@.len() == grid.columns(),
{
    let (_rows, columns): (usize, usize) = grid.dim();
    let mut cells: Vec<i32> = Vec::new();
    let mut column: usize = 0;
    while column < columns
        invariant
            row < grid@.len(),
            columns == grid.columns(),
            column <= columns,
            grid@[row as int].len() == columns,
            cells@ == grid@[row as int].take(column as int),
        decreases columns - column,
    {
        cells.push(grid.at(row, column));
        column = column + 1;
        proof {
            assert(cells@ =~= grid@[row as int].take(column as int));
        }
    }
    proof {
        assert(cells@ =~= grid@[row as int]);
    }
    cells
}

/// One more than the greatest label of a table, or zero.
fn count_clusters(grid: &LabelGrid) -> (r: usize)
    ensures
        r == cluster_count(grid@, grid@.len()),
{
    let (rows, columns): (usize, usize) = grid.dim();
    let mut count: usize = 0;
    let mut row: usize = 0;
    while row < rows
        invariant
            rows == grid@.len(),
            columns == grid.columns(),
            rectangular(grid@, columns as nat),
            row <= rows,
            count == cluster_count(grid@, row as nat),
        decreases rows - row,
    {
        let mut here: usize = 0;
        let mut column: usize = 0;
        while column < columns
            invariant
                row < grid@.len(),
                columns == grid.columns(),
                grid@[row as int].len() == columns,
                column <= columns,
                here == row_clusters(grid@[row as int], column as nat),
            decreases columns - column,
        {
            let label: i32 = grid.at(row, column);
            if label >= 0 && label as usize >= here {
                here = label as usize + 1;
            }
            column = column + 1;
        }
        if here > count {
            count = here;
        }
        row = row + 1;
    }
    count
}

/// The greatest of some counts, or zero.
fn greatest_of(counts: &Vec<usize>) -> (r: usize)
    ensures
        r == greatest_count(counts@, counts@.len()),
{
    let mut greatest: usize = 0;
    let mut k: usize = 0;
    while k < counts.len()
        invariant
            k <= counts@.len(),
            greatest == greatest_count(counts@, k as nat),
        decreases counts@.len() - k,
    {
        if counts[k] > greatest {
            greatest = counts[k];
        }
        k = k + 1;
    }
    greatest
}

/// A row in which the listed speakers are active.
pub open spec fn marked(columns: nat, list: Seq<usize>) -> Seq<u32> {
    Seq::new(
        columns,
        |s: int|
            if list.contains(s as usize) {
                ONE
            } else {
                ZERO
            },
    )
}

/// Whether every frame of `rows` has the speakers of its list active, and its list holds as
/// many of the highest-scoring speakers as the frame's count says.
pub open spec fn selects(
    activations: Seq<Seq<u32>>,
    columns: nat,
    counts: Seq<usize>,
    lists: Seq<Seq<usize>>,
    rows: Seq<Seq<u32>>,
) -> bool {
    &&& rows.len() == counts.len()
    &&& lists.len() == counts.len()
    &&& forall|f: int|
        0 <= f < counts.len() ==> top_k(activations[f], counts[f] as nat, #[trigger] lists[f])
            && rows[f] == marked(columns, lists[f])
}

/// The speakers of the frame before frame `f`.
pub open spec fn previous_of(lists: Seq<Seq<usize>>, f: int) -> Seq<usize> {
    if f == 0 {
        seq![]
    } else {
        lists[f - 1]
    }
}

/// Whether every frame of `rows` has the speakers of its list active, and its list holds as
/// many speakers as the frame's count says, ranked by score with those of the frame before
/// favoured.
pub open spec fn selects_smoothed<A: Arithmetic>(
    activations: Seq<Seq<u32>>,
    columns: nat,
    counts: Seq<usize>,
    epsilon: u32,
    lists: Seq<Seq<usize>>,
    rows: Seq<Seq<u32>>,
) -> bool {
    &&& rows.len() == counts.len()
    &&& lists.len() == counts.len()
    &&& forall|f: int|
        0 <= f < counts.len() ==> top_k_smoothed::<A>(
            activations[f],
            counts[f] as nat,
            previous_of(lists, f),
            epsilon,
            #[trigger] lists[f],
        ) && rows[f] == marked(columns, lists[f])
}

/// Marks the listed speakers of one frame.
fn mark(discrete: &mut ScoreGrid, frame: usize, list: &Vec<usize>)
    requires
        frame < old(discrete)@.len(),
        old(discrete)@[frame as int] == marked(old(discrete).columns(), seq![]),
        forall|k: int|
            0 <= k < list@.len() ==> #[trigger] list@[k] < old(discrete).columns(),
    ensures
        final(discrete)@.len() == old(discrete)@.len(),
        final(discrete).columns() == old(discrete).columns(),
        final(discrete)@[frame as int] == marked(old(discrete).columns(), list@),
        forall|f: int|
            0 <= f < old(discrete)@.len() && f != frame ==> #[trigger] final(discrete)@[f]
                == old(discrete)@[f],
{
    let (_rows, columns): (usize, usize) = discrete.dim();
    let ghost earlier = discrete@;
    let mut k: usize = 0;
    proof {
        assert(list@.take(0) =~= seq![]);
    }
    while k < list.len()
        invariant
            k <= list@.len(),
            frame < discrete@.len(),
            discrete@.len() == earlier.len(),
            discrete.columns() == columns,
            forall|j: int| 0 <= j < list@.len() ==> #[trigger] list@[j] < columns,
            discrete@[frame as int] == marked(columns as nat, list@.take(k as int)),
            forall|f: int|
                0 <= f < earlier.len() && f != frame ==> #[trigger] discrete@[f] == earlier[f],
        decreases list@.len() - k,
    {
        let speaker: usize = list[k];
        let ghost before = list@.take(k as int);
        discrete.set(frame, speaker, ONE);
        k = k + 1;
        proof {
            let after = list@.take(k as int);
            assert(after =~= before.push(speaker));
            assert forall|s: int| 0 <= s < columns implies discrete@[frame as int][s] == marked(
                columns as nat,
                after,
            )[s] by {
                if before.contains(s as usize) {
                    let i = choose|i: int| 0 <= i < before.len() && before[i] == s as usize;
                    assert(after[i] == s as usize);
                } else if s == speaker {
                    assert(after[before.len() as int] == speaker);
                } else if after.contains(s as usize) {
                    let i = choose|i: int| 0 <= i < after.len() && after[i] == s as usize;
                    if i < before.len() {
                        assert(before[i] == s as usize);
                    }
                }
            }
            assert(discrete@[frame as int] =~= marked(columns as nat, after));
        }
    }
    proof {
        assert(list@.take(k as int) =~= list@);
    }
}

impl<'a> Reconstructor<'a> {
    /// Activates in every frame as many of the highest-scoring speakers as the track says.
    pub fn reconstruct<A: Arithmetic>(&self, speaker_count: &SpeakerCountTrack) -> (r:
        DiscreteDiarization)
        requires
            functional::<A>(),
            self.placeable(),
            self.labelled(speaker_count.0@.len()),
            shape_fits(speaker_count.0@.len(), self.columns(speaker_count.0@)),
        ensures
            r.0.columns() == self.columns(speaker_count.0@),
            exists|lists: Seq<Seq<usize>>| #[trigger]
                selects(
                    self.activations::<A>(speaker_count.0@),
                    self.columns(speaker_count.0@),
                    speaker_count.0@,
                    lists,
                    r.0@,
                ),
    {
        let activations: FrameActivations = self.frame_activations::<A>(speaker_count);
        let (rows, columns): (usize, usize) = activations.0.dim();
        let mut discrete: ScoreGrid = ScoreGrid::filled(rows, columns, ZERO);
        let ghost mut lists: Seq<Seq<usize>> = seq![];
        let ghost counts = speaker_count.0@;
        proof {
            assert forall|f: int| 0 <= f < rows implies #[trigger] discrete@[f] == marked(
                columns as nat,
                seq![],
            ) by {
                assert(discrete@[f] =~= marked(columns as nat, seq![]));
            }
        }
        let mut frame: usize = 0;
        while frame < speaker_count.0.len()
            invariant
                frame <= counts.len(),
                counts == speaker_count.0@,
                rows == counts.len(),
                activations.0@.len() == rows,
                activations.0.columns() == columns,
                rectangular(activations.0@, columns as nat),
                discrete@.len() == rows,
                discrete.columns() == columns,
                lists.len() == frame,
                forall|f: int|
                    0 <= f < frame ==> top_k(
                        activations.0@[f],
                        counts[f] as nat,
                        #[trigger] lists[f],
                    ) && discrete@[f] == marked(columns as nat, lists[f]),
                forall|f: int|
                    frame <= f < rows ==> #[trigger] discrete@[f] == marked(
                        columns as nat,
                        seq![],
                    ),
            decreases counts.len() - frame,
        {
            let count: usize = speaker_count.0[frame];
            let list: Vec<usize> = top_k_indices(&activations.0, frame, count);
            proof {
                assert forall|k: int| 0 <= k < list@.len() implies #[trigger] list@[k]
                    < columns by {}
            }
            let ghost earlier = discrete@;
            mark(&mut discrete, frame, &list);
            proof {
                let before = lists;
                lists = lists.push(list@);
                assert forall|f: int| 0 <= f < frame + 1 implies top_k(
                    activations.0@[f],
                    counts[f] as nat,
                    #[trigger] lists[f],
                ) && discrete@[f] == marked(columns as nat, lists[f]) by {
                    if f < frame {
                        assert(lists[f] == before[f]);
                        assert(discrete@[f] == earlier[f]);
                    }
                }
            }
            frame = frame + 1;
        }
        let result: DiscreteDiarization = DiscreteDiarization(discrete);
        proof {
            assert(selects(
                self.activations::<A>(counts),
                self.columns(counts),
                counts,
                lists,
                result.0@,
            ));
        }
        result
    }

    /// Activates in every frame as many of the highest-scoring speakers as the track says,
    /// staying with the speakers of the frame before where scores are less than `epsilon`
    /// apart.
    pub fn reconstruct_smoothed<A: Arithmetic>(
        &self,
        speaker_count: &SpeakerCountTrack,
        epsilon: u32,
    ) -> (r: DiscreteDiarization)
        requires
            functional::<A>(),
            self.placeable(),
            self.labelled(speaker_count.0@.len()),
            shape_fits(speaker_count.0@.len(), self.columns(speaker_count.0@)),
        ensures
            r.0.columns() == self.columns(speaker_count.0@),
            exists|lists: Seq<Seq<usize>>| #[trigger]
                selects_smoothed::<A>(
                    self.activations::<A>(speaker_count.0@),
                    self.columns(speaker_count.0@),
                    speaker_count.0@,
                    epsilon,
                    lists,
                    r.0@,
                ),
    {
        let activations: FrameActivations = self.frame_activations::<A>(speaker_count);
        let (rows, columns): (usize, usize) = activations.0.dim();
        let mut discrete: ScoreGrid = ScoreGrid::filled(rows, columns, ZERO);
        let mut previous: Vec<usize> = Vec::new();
        let ghost mut lists: Seq<Seq<usize>> = seq![];
        let ghost counts = speaker_count.0@;
        proof {
            assert forall|f: int| 0 <= f < rows implies #[trigger] discrete@[f] == marked(
                columns as nat,
                seq![],
            ) by {
                assert(discrete@[f] =~= marked(columns as nat, seq![]));
            }
            assert(previous@ =~= previous_of(lists, 0));
        }
        let mut frame: usize = 0;
        while frame < speaker_count.0.len()
            invariant
                functional::<A>(),
                frame <= counts.len(),
                counts == speaker_count.0@,
                rows == counts.len(),
                activations.0@.len() == rows,
                activations.0.columns() == columns,
                rectangular(activations.0@, columns as nat),
                discrete@.len() == rows,
                discrete.columns() == columns,
                lists.len() == frame,
                previous@ == previous_of(lists, frame as int),
                forall|f: int|
                    0 <= f < frame ==> top_k_smoothed::<A>(
                        activations.0@[f],
                        counts[f] as nat,
                        previous_of(lists, f),
                        epsilon,
                        #[trigger] lists[f],
                    ) && discrete@[f] == marked(columns as nat, lists[f]),
                forall|f: int|
                    frame <= f < rows ==> #[trigger] discrete@[f] == marked(
                        columns as nat,
                        seq![],
                    ),
            decreases counts.len() - frame,
        {
            let count: usize = speaker_count.0[frame];
            let list: Vec<usize> = top_k_indices_smoothed::<A>(
                &activations.0,
                frame,
                count,
                &previous,
                epsilon,
            );
            proof {
                assert forall|k: int| 0 <= k < list@.len() implies #[trigger] list@[k]
                    < columns by {}
            }
            let ghost earlier = discrete@;
            mark(&mut discrete, frame, &list);
            proof {
                let before = lists;
                lists = lists.push(list@);
                assert forall|f: int| 0 <= f < frame + 1 implies top_k_smoothed::<A>(
                    activations.0@[f],
                    counts[f] as nat,
                    previous_of(lists, f),
                    epsilon,
                    #[trigger] lists[f],
                ) && discrete@[f] == marked(columns as nat, lists[f]) by {
                    assert(previous_of(lists, f) == previous_of(before, f));
                    if f < frame {
                        assert(lists[f] == before[f]);
                        assert(discrete@[f] == earlier[f]);
                    }
                }
            }
            previous = list;
            frame = frame + 1;
        }
        let result: DiscreteDiarization = DiscreteDiarization(discrete);
        proof {
            assert(selects_smoothed::<A>(
                self.activations::<A>(counts),
                self.columns(counts),
                counts,
                epsilon,
                lists,
                result.0@,
            ));
        }
        result
    }
}

/// No count of a track is beyond its greatest.
proof fn lemma_greatest_count(counts: Seq<usize>, n: nat)
    requires
        n <= counts.len(),
    ensures
        forall|f: int| 0 <= f < n ==> #[trigger] counts[f] <= greatest_count(counts, n),
        greatest_count(counts, n) == 0 || exists|f: int|
            0 <= f < n && #[trigger] counts[f] == greatest_count(counts, n),
    decreases n,
{
    if n > 0 {
        lemma_greatest_count(counts, (n - 1) as nat);
    }
}

/// A reconstruction has exactly as many speakers in every frame as the track asks for,
/// whether or not the scores of earlier frames have a say.
pub proof fn law_reconstruction_honours_the_track<A: Arithmetic>(
    activations: Seq<Seq<u32>>,
    labels: Seq<Seq<i32>>,
    counts: Seq<usize>,
    epsilon: u32,
    lists: Seq<Seq<usize>>,
    rows: Seq<Seq<u32>>,
    f: int,
)
    requires
        rectangular(activations, column_count(labels, counts)),
        activations.len() == counts.len(),
        column_count(labels, counts) <= usize::MAX,
        selects(activations, column_count(labels, counts), counts, lists, rows)
            || selects_smoothed::<A>(
            activations,
            column_count(labels, counts),
            counts,
            epsilon,
            lists,
            rows,
        ),
        0 <= f < counts.len(),
    ensures
        picks(column_count(labels, counts), counts[f] as nat, lists[f]),
        forall|s: usize|
            s < column_count(labels, counts) ==> (rows[f][s as int] == ONE <==> lists[f].contains(
                s,
            )),
{
    let columns = column_count(labels, counts);
    lemma_greatest_count(counts, counts.len());
    assert(counts[f] <= columns);
    assert(activations[f].len() == columns);
    let list = lists[f];
    if counts[f] == columns {
        assert(list == everyone(columns));
    } else if selects(activations, columns, counts, lists, rows) {
        assert(list.no_duplicates()) by {
            let before = louder(activations[f]);
            lemma_louder_consistent(activations[f], columns);
            assert forall|a: int, b: int|
                0 <= a < list.len() && 0 <= b < list.len() && a != b implies list[a]
                != list[b] by {
                let (i, j) = if a < b {
                    (a, b)
                } else {
                    (b, a)
                };
                assert(outranks(before, list[i], list[j]));
            }
        }
    }
}

/// Smoothing by nothing is no smoothing: where `epsilon` is not positive, the smoothed
/// reconstruction is the plain one, cell for cell.
pub proof fn law_smoothing_by_nothing_changes_nothing<A: Arithmetic>(
    activations: Seq<Seq<u32>>,
    columns: nat,
    counts: Seq<usize>,
    epsilon: u32,
    lists: Seq<Seq<usize>>,
    rows: Seq<Seq<u32>>,
    smoothed_lists: Seq<Seq<usize>>,
    smoothed_rows: Seq<Seq<u32>>,
)
    requires
        !less(ZERO, epsilon),
        selects(activations, columns, counts, lists, rows),
        selects_smoothed::<A>(
            activations,
            columns,
            counts,
            epsilon,
            smoothed_lists,
            smoothed_rows,
        ),
    ensures
        smoothed_lists == lists,
        smoothed_rows == rows,
{
    assert forall|f: int| 0 <= f < counts.len() implies smoothed_lists[f] == lists[f]
        && smoothed_rows[f] == rows[f] by {
        let row = activations[f];
        let k = counts[f] as nat;
        let previous = previous_of(smoothed_lists, f);
        let order = steadier::<A>(row, previous, epsilon);
        assert(top_k_smoothed::<A>(row, k, previous, epsilon, smoothed_lists[f]));
        assert(top_k(row, k, lists[f]));
        assert forall|i: usize, j: usize| #[trigger] order(i, j) == louder(row)(i, j) by {
            assert(!close::<A>(row[i as int], row[j as int], epsilon));
        }
        assert(order =~= louder(row));
        lemma_louder_consistent(row, row.len());
        law_top_k_is_unique(row, k, lists[f], smoothed_lists[f]);
    }
    assert(smoothed_lists =~= lists);
    assert(smoothed_rows =~= rows);
}

/// A track that never asks for more speakers than there are clusters gets a column for each
/// cluster and no other: no speaker is made up.
pub proof fn law_no_speaker_is_made_up(labels: Seq<Seq<i32>>, counts: Seq<usize>)
    requires
        forall|f: int|
            0 <= f < counts.len() ==> #[trigger] counts[f] <= cluster_count(labels, labels.len()),
    ensures
        column_count(labels, counts) == cluster_count(labels, labels.len()),
{
    lemma_greatest_count(counts, counts.len());
}

} // verus!
