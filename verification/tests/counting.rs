//! Speaker-count bounds: what they resolve to, and what each of the three pieces changes.

use ndarray::Array2;
use speakrs::arithmetic::Arithmetic;
use speakrs::assignment::{assign, assign_unconstrained, UNASSIGNED};
use speakrs::clustering::{
    cluster_means, cluster_sums, kmeans, kmeans_plus_plus, l2_normalized_rows, nearest_center,
    squared_distance,
};
use speakrs::grid::{LabelGrid, ScoreCube, ScoreGrid};
use speakrs::rng::SplitMix64;
use speakrs::speaker_count::SpeakerCount;
use speakrs::types::{ChunkEmbeddings, DecodedSegmentations, SpeakerCountTrack};

/// The machine's own arithmetic.
struct Machine;

fn narrow(value: f32) -> u32 {
    if value.is_nan() {
        f32::NAN.to_bits()
    } else {
        value.to_bits()
    }
}

fn wide(value: f64) -> u64 {
    if value.is_nan() {
        f64::NAN.to_bits()
    } else {
        value.to_bits()
    }
}

fn product(a: &[u32], b: &[u32]) -> f32 {
    a.iter()
        .zip(b)
        .map(|(x, y)| f32::from_bits(*x) * f32::from_bits(*y))
        .sum()
}

impl Arithmetic for Machine {
    fn plus(a: u32, b: u32) -> u32 {
        narrow(f32::from_bits(a) + f32::from_bits(b))
    }

    fn minus(a: u32, b: u32) -> u32 {
        narrow(f32::from_bits(a) - f32::from_bits(b))
    }

    fn over(a: u32, b: u32) -> u32 {
        narrow(f32::from_bits(a) / f32::from_bits(b))
    }

    fn root(a: u32) -> u32 {
        narrow(f32::from_bits(a).sqrt())
    }

    fn counted(n: usize) -> u32 {
        narrow(n as f32)
    }

    fn dot(a: &Vec<u32>, b: &Vec<u32>) -> u32 {
        narrow(product(a, b))
    }

    fn total(column: &Vec<u32>, stride: usize) -> u32 {
        let mut table = Array2::<f32>::zeros((column.len(), stride.max(1)));
        for (row, cell) in column.iter().enumerate() {
            table[[row, 0]] = f32::from_bits(*cell);
        }
        narrow(table.column(0).sum())
    }

    fn cosine(a: &Vec<u32>, b: &Vec<u32>) -> u32 {
        narrow(product(a, b) / (product(a, a).sqrt() * product(b, b).sqrt()))
    }

    fn widened(a: u32) -> u64 {
        wide(f64::from(f32::from_bits(a)))
    }

    fn plus_wide(a: u64, b: u64) -> u64 {
        wide(f64::from_bits(a) + f64::from_bits(b))
    }

    fn minus_wide(a: u64, b: u64) -> u64 {
        wide(f64::from_bits(a) - f64::from_bits(b))
    }

    fn times_wide(a: u64, b: u64) -> u64 {
        wide(f64::from_bits(a) * f64::from_bits(b))
    }

    fn fraction(n: u64) -> u64 {
        wide(n as f64 / (1u64 << 53) as f64)
    }
}

fn bits(values: &[f32]) -> Vec<u32> {
    values.iter().map(|value| value.to_bits()).collect()
}

fn table(rows: &[&[f32]]) -> ScoreGrid {
    let columns = rows.first().map_or(0, |row| row.len());
    ScoreGrid::from_rows(&rows.iter().map(|row| bits(row)).collect(), columns)
}

/// Two chunks, three local speakers, 2-d embeddings on two well-separated directions.
/// Chunk 0 has local speakers 0 and 1 active, on different voices; chunk 1 has 0 and 1 active
/// on the same voice as each other -- the case a forced single speaker has to survive.
fn two_chunk_fixture() -> (DecodedSegmentations, ChunkEmbeddings) {
    let mut segmentations = ScoreCube::filled(2, 4, 3, 0);
    for chunk in 0..2 {
        for frame in 0..4 {
            segmentations.set(chunk, frame, 0, 1.0f32.to_bits());
            segmentations.set(chunk, frame, 1, 1.0f32.to_bits());
        }
    }
    let mut embeddings = ScoreCube::filled(2, 3, 2, f32::NAN.to_bits());
    for (chunk, speaker, values) in [
        (0, 0, [1.0f32, 0.0]),
        (0, 1, [0.0, 1.0]),
        (1, 0, [1.0, 0.1]),
        (1, 1, [1.0, -0.1]),
    ] {
        for (dimension, value) in values.iter().enumerate() {
            embeddings.set(chunk, speaker, dimension, value.to_bits());
        }
    }
    (
        DecodedSegmentations(segmentations),
        ChunkEmbeddings(embeddings),
    )
}

fn training_rows() -> ScoreGrid {
    table(&[&[1.0, 0.0], &[0.0, 1.0], &[1.0, 0.1], &[1.0, -0.1]])
}

fn labels_of(grid: &LabelGrid) -> Vec<Vec<i32>> {
    let (rows, columns) = grid.dim();
    (0..rows)
        .map(|row| (0..columns).map(|column| grid.at(row, column)).collect())
        .collect()
}

#[test]
fn default_constrains_nothing() {
    assert!(SpeakerCount::default().is_unconstrained());
    assert!(!SpeakerCount::exactly(1).is_unconstrained());
}

#[test]
fn zero_means_not_given() {
    let zeros = SpeakerCount {
        num: Some(0),
        min: Some(0),
        max: Some(0),
    };
    assert!(zeros.is_unconstrained());
}

#[test]
fn num_overrides_min_and_max() {
    let bounds = SpeakerCount {
        num: Some(2),
        min: Some(5),
        max: Some(9),
    };
    assert_eq!(bounds.bounds(), (2, 2));
}

#[test]
fn min_above_max_is_rejected() {
    let bounds = SpeakerCount {
        num: None,
        min: Some(4),
        max: Some(2),
    };
    assert!(bounds.validate().is_err());
    assert!(SpeakerCount::exactly(3).validate().is_ok());
}

#[test]
fn the_refusal_names_both_bounds() {
    let bounds = SpeakerCount {
        num: None,
        min: Some(12),
        max: Some(7),
    };
    assert_eq!(
        bounds.validate(),
        Err("min_speakers (12) must not exceed max_speakers (7)".to_string())
    );
}

#[test]
fn cap_leaves_an_unbounded_track_alone_and_clips_a_bounded_one() {
    let track = SpeakerCountTrack(vec![0, 1, 2, 3]);
    assert_eq!(
        SpeakerCount::default().cap(track.clone()).0,
        vec![0, 1, 2, 3]
    );
    assert_eq!(
        SpeakerCount::exactly(1).cap(track.clone()).0,
        vec![0, 1, 1, 1]
    );
    let at_most_two = SpeakerCount {
        max: Some(2),
        ..SpeakerCount::default()
    };
    assert_eq!(at_most_two.cap(track).0, vec![0, 1, 2, 2]);
}

#[test]
fn correction_only_when_the_bounds_are_broken() {
    assert_eq!(SpeakerCount::default().correction(7, 100), None);
    assert_eq!(SpeakerCount::exactly(2).correction(2, 100), None);
    assert_eq!(SpeakerCount::exactly(1).correction(2, 100), Some(1));
    assert_eq!(SpeakerCount::exactly(4).correction(2, 100), Some(4));
    let between = SpeakerCount {
        min: Some(3),
        max: Some(5),
        ..SpeakerCount::default()
    };
    assert_eq!(between.correction(4, 100), None);
    assert_eq!(between.correction(2, 100), Some(3));
    assert_eq!(between.correction(8, 100), Some(5));
}

#[test]
fn correction_never_asks_for_more_clusters_than_embeddings() {
    assert_eq!(SpeakerCount::exactly(6).correction(2, 3), Some(3));
    assert_eq!(SpeakerCount::exactly(6).correction(3, 3), None);
}

#[test]
fn an_unconstrained_or_satisfied_count_stands() {
    for auto in [0, 1, 7] {
        for embeddings in [0, 1, 10] {
            assert_eq!(SpeakerCount::default().correction(auto, embeddings), None);
        }
    }
    // However few embeddings there are.
    assert_eq!(SpeakerCount::exactly(4).correction(4, 2), None);
    assert_eq!(SpeakerCount::exactly(3).correction(1, 0), None);
    // Bounds that say something want somebody.
    let at_most_five = SpeakerCount {
        max: Some(5),
        ..SpeakerCount::default()
    };
    assert_eq!(at_most_five.correction(0, 10), Some(1));
}

#[test]
fn a_corrected_count_needs_no_further_correction() {
    let bounds = SpeakerCount {
        min: Some(3),
        max: Some(5),
        ..SpeakerCount::default()
    };
    for auto in 0..9 {
        for embeddings in [0, 1, 4, 100] {
            if let Some(target) = bounds.correction(auto, embeddings) {
                assert!(target >= 1 && target <= embeddings.max(1));
                assert_eq!(bounds.correction(target, embeddings), None);
            }
        }
    }
}

#[test]
fn capped_bounds_leave_no_frame_above_them() {
    let track = SpeakerCountTrack(vec![7, 0, 2, 9]);
    let capped = SpeakerCount::exactly(2).cap(track);
    assert_eq!(capped.0, vec![2, 0, 2, 2]);
}

#[test]
fn no_runs_is_one_run() {
    let points = table(&[&[0.0], &[0.1], &[4.0], &[4.1], &[9.0]]);
    assert_eq!(
        kmeans::<Machine>(&points, 3, 0, 5),
        kmeans::<Machine>(&points, 3, 1, 5)
    );
}

/// The sum of the points' squared distances from the means of their clusters.
fn spread(points: &ScoreGrid, labels: &Vec<usize>, k: usize) -> f64 {
    let means = cluster_means::<Machine>(points, labels, k);
    (0..points.dim().0)
        .map(|row| f64::from_bits(nearest_center::<Machine>(&points.row(row), &means).1))
        .sum()
}

#[test]
fn more_runs_are_never_worse() {
    let points = table(&[
        &[0.0, 0.0],
        &[0.5, 0.0],
        &[4.0, 1.0],
        &[4.5, 1.0],
        &[9.0, 3.0],
        &[9.5, 3.0],
        &[2.0, 8.0],
    ]);
    for seed in 0..20 {
        let one = spread(&points, &kmeans::<Machine>(&points, 3, 1, seed), 3);
        let ten = spread(&points, &kmeans::<Machine>(&points, 3, 10, seed), 3);
        assert!(ten <= one, "{ten} after ten runs, {one} after one");
    }
}

#[test]
fn kmeans_separates_two_blobs_and_repeats_itself() {
    let points = table(&[
        &[1.0, 0.0],
        &[0.99, 0.05],
        &[0.98, -0.05],
        &[0.0, 1.0],
        &[0.05, 0.99],
        &[-0.05, 0.98],
    ]);
    let first = kmeans::<Machine>(&points, 2, 3, 42);
    assert_eq!(first, kmeans::<Machine>(&points, 2, 3, 42));
    assert_eq!(first[0], first[1]);
    assert_eq!(first[1], first[2]);
    assert_eq!(first[3], first[4]);
    assert_eq!(first[4], first[5]);
    assert_ne!(first[0], first[3]);
}

#[test]
fn kmeans_puts_every_point_in_a_cluster() {
    let points = table(&[&[1.0], &[1.0], &[1.0], &[5.0]]);
    for k in 1..4 {
        let labels = kmeans::<Machine>(&points, k, 0, 7);
        assert_eq!(labels.len(), 4);
        assert!(labels.iter().all(|label| *label < k));
    }
}

#[test]
fn seeds_are_points() {
    let points = table(&[&[1.0, 0.0], &[0.0, 1.0], &[0.5, 0.5]]);
    let mut rng = SplitMix64(42);
    let centers = kmeans_plus_plus::<Machine>(&points, 3, &mut rng);
    let rows: Vec<Vec<u32>> = (0..3).map(|row| points.row(row)).collect();
    let picked: Vec<Vec<u32>> = (0..3).map(|row| centers.row(row)).collect();
    // Distances make every further pick a point that is not yet a center.
    for row in &rows {
        assert!(picked.contains(row));
    }
    // One draw per center.
    let mut again = SplitMix64(42);
    for _ in 0..3 {
        again.next();
    }
    assert_eq!(rng.0, again.0);
}

#[test]
fn cluster_means_drops_an_empty_cluster() {
    let rows = table(&[&[1.0, 0.0], &[3.0, 0.0]]);
    let means = cluster_means::<Machine>(&rows, &vec![0, 0], 2);
    assert_eq!(means, table(&[&[2.0, 0.0]]));
}

#[test]
fn sums_and_distances() {
    let rows = table(&[&[1.0, 2.0], &[3.0, 4.0], &[5.0, 6.0]]);
    let sums = cluster_sums::<Machine>(&rows, &vec![1, 0, 1], 3);
    assert_eq!(
        sums,
        vec![
            (bits(&[3.0, 4.0]), 1),
            (bits(&[6.0, 8.0]), 2),
            (bits(&[0.0, 0.0]), 0),
        ]
    );
    assert_eq!(
        squared_distance::<Machine>(&bits(&[1.0, 2.0]), &bits(&[4.0, 6.0])),
        25.0f64.to_bits()
    );
    let centers = table(&[&[9.0, 9.0], &[1.0, 3.0], &[1.0, 1.0]]);
    assert_eq!(
        nearest_center::<Machine>(&bits(&[1.0, 2.0]), &centers),
        (1, 1.0f64.to_bits())
    );
    let nowhere = table(&[&[f32::NAN, 0.0]]);
    assert_eq!(
        nearest_center::<Machine>(&bits(&[1.0, 2.0]), &nowhere),
        (0, f64::INFINITY.to_bits())
    );
}

#[test]
fn rows_are_divided_by_their_length() {
    let rows = table(&[&[3.0, 4.0], &[0.0, 0.0]]);
    assert_eq!(
        l2_normalized_rows::<Machine>(&rows),
        table(&[&[0.6, 0.8], &[0.0, 0.0]])
    );
}

#[test]
fn unconstrained_assignment_is_upstreams() {
    let (segmentations, embeddings) = two_chunk_fixture();
    let centroids = table(&[&[1.0, 0.0], &[0.0, 1.0]]);
    let ours = assign::<Machine>(
        &segmentations,
        &embeddings,
        &training_rows(),
        &centroids,
        &SpeakerCount::default(),
    );
    // Nothing is assigned anew: the assignment to the centroids that were found stands.
    assert_eq!(ours, None);

    // Not even where none were found, or there is nothing to cluster.
    let nobody = ScoreGrid::filled(0, 2, 0);
    for training in [training_rows(), ScoreGrid::filled(0, 2, 0)] {
        let ours = assign::<Machine>(
            &segmentations,
            &embeddings,
            &training,
            &nobody,
            &SpeakerCount::default(),
        );
        assert_eq!(ours, None);
    }
}

#[test]
fn a_forced_single_speaker_keeps_both_local_speakers_of_a_chunk() {
    let (segmentations, embeddings) = two_chunk_fixture();
    let found_two = table(&[&[1.0, 0.0], &[0.0, 1.0]]);
    let labels = assign::<Machine>(
        &segmentations,
        &embeddings,
        &training_rows(),
        &found_two,
        &SpeakerCount::exactly(1),
    )
    .unwrap();
    // Every active local speaker lands in the one cluster; none is left unassigned (-2), which
    // is what the one-cluster-per-speaker assignment would do to the second of each chunk.
    let labels = labels_of(&labels);
    assert_eq!(labels, vec![vec![0, 0, -2], vec![0, 0, -2]]);
}

#[test]
fn a_forced_larger_count_splits_what_vbx_merged() {
    let (segmentations, embeddings) = two_chunk_fixture();
    let found_one = table(&[&[0.7, 0.7]]);
    let labels = assign::<Machine>(
        &segmentations,
        &embeddings,
        &training_rows(),
        &found_one,
        &SpeakerCount::exactly(2),
    )
    .unwrap();
    let labels = labels_of(&labels);
    assert_ne!(labels[0][0], labels[0][1]);
    assert_eq!(labels[1][0], labels[0][0]);
    assert_eq!(labels[1][1], labels[0][0]);
}

/// Whether the only active one of `width` local speakers gets a cluster.
fn is_heard(cells: &[f32], width: usize) -> bool {
    let mut chunk = ScoreCube::filled(1, cells.len(), width, 0);
    for (frame, cell) in cells.iter().enumerate() {
        chunk.set(0, frame, 0, cell.to_bits());
    }
    let labels = assign_unconstrained::<Machine>(
        &DecodedSegmentations(chunk),
        &ChunkEmbeddings(ScoreCube::filled(1, 1, 2, 1.0f32.to_bits())),
        &table(&[&[1.0, 0.0]]),
    );
    labels.at(0, 0) == 0
}

#[test]
fn activity_is_added_as_the_tables_add_it() {
    // Cells that lie next to one another are added in lanes, where the one is not lost.
    let cells = [1e8, 1.0, 0.0, 0.0, -1e8, 0.0, 0.0, 0.0];
    assert!(is_heard(&cells, 1));
    assert!(!is_heard(&cells, 2));
    assert!(is_heard(&[0.0, 0.5], 2));
    assert!(!is_heard(&[0.0, 0.0], 1));
    assert!(!is_heard(&[], 1));
}

#[test]
fn assignment_without_constraint() {
    let (segmentations, embeddings) = two_chunk_fixture();
    let centroids = table(&[&[0.0, 1.0], &[1.0, 0.0]]);
    let labels = assign_unconstrained::<Machine>(&segmentations, &embeddings, &centroids);
    assert_eq!(labels_of(&labels), vec![vec![1, 0, -2], vec![1, 1, -2]]);

    // No clusters, no labels.
    let none = ScoreGrid::filled(0, 2, 0);
    let labels = assign_unconstrained::<Machine>(&segmentations, &embeddings, &none);
    assert_eq!(labels_of(&labels), vec![vec![UNASSIGNED; 3]; 2]);

    // An embedding that is not finite belongs to the first cluster.
    let mut speaking = ScoreCube::filled(1, 1, 1, 0);
    speaking.set(0, 0, 0, 1.0f32.to_bits());
    let broken = ScoreCube::filled(1, 1, 2, f32::INFINITY.to_bits());
    let labels = assign_unconstrained::<Machine>(
        &DecodedSegmentations(speaking),
        &ChunkEmbeddings(broken),
        &centroids,
    );
    assert_eq!(labels_of(&labels), vec![vec![0]]);
}
