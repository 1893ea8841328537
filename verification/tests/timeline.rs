//! Putting chunks back together, and making the result exclusive.

use ndarray::Array2;
use speakrs::arithmetic::Arithmetic;
use speakrs::exclusive::{
    can_be_exclusive, frame_decisions, frame_maxima, reconstruct_component, row_has_activity,
    runner_up, score_aware_exclusive,
};
use speakrs::grid::{can_hold, LabelGrid, ScoreCube, ScoreGrid};
use speakrs::path::best_path_through;
use speakrs::ranking::{make_exclusive, top_k_indices, top_k_indices_smoothed};
use speakrs::reconstruct::{build_cluster_mapping, Reconstructor};
use speakrs::types::{
    ChunkSpeakerClusters, DecodedSegmentations, DiarizationResult, DiscreteDiarization,
    ExclusiveFrameDecision, ExclusiveFrameEvidence, FrameSpeakerSupport, SpeakerCountTrack,
};

/// The machine's own arithmetic.
struct Machine;

fn narrow(value: f32) -> u32 {
    if value.is_nan() {
        f32::NAN.to_bits()
    } else {
        value.to_bits()
    }
}

fn wide(value: f64) -> u64 {
    if value.is_nan() {
        f64::NAN.to_bits()
    } else {
        value.to_bits()
    }
}

fn product(a: &[u32], b: &[u32]) -> f32 {
    a.iter()
        .zip(b)
        .map(|(x, y)| f32::from_bits(*x) * f32::from_bits(*y))
        .sum()
}

impl Arithmetic for Machine {
    fn plus(a: u32, b: u32) -> u32 {
        narrow(f32::from_bits(a) + f32::from_bits(b))
    }

    fn minus(a: u32, b: u32) -> u32 {
        narrow(f32::from_bits(a) - f32::from_bits(b))
    }

    fn over(a: u32, b: u32) -> u32 {
        narrow(f32::from_bits(a) / f32::from_bits(b))
    }

    fn root(a: u32) -> u32 {
        narrow(f32::from_bits(a).sqrt())
    }

    fn counted(n: usize) -> u32 {
        narrow(n as f32)
    }

    fn dot(a: &Vec<u32>, b: &Vec<u32>) -> u32 {
        narrow(product(a, b))
    }

    fn total(column: &Vec<u32>, stride: usize) -> u32 {
        let mut table = Array2::<f32>::zeros((column.len(), stride.max(1)));
        for (row, cell) in column.iter().enumerate() {
            table[[row, 0]] = f32::from_bits(*cell);
        }
        narrow(table.column(0).sum())
    }

    fn cosine(a: &Vec<u32>, b: &Vec<u32>) -> u32 {
        narrow(product(a, b) / (product(a, a).sqrt() * product(b, b).sqrt()))
    }

    fn widened(a: u32) -> u64 {
        wide(f64::from(f32::from_bits(a)))
    }

    fn plus_wide(a: u64, b: u64) -> u64 {
        wide(f64::from_bits(a) + f64::from_bits(b))
    }

    fn minus_wide(a: u64, b: u64) -> u64 {
        wide(f64::from_bits(a) - f64::from_bits(b))
    }

    fn times_wide(a: u64, b: u64) -> u64 {
        wide(f64::from_bits(a) * f64::from_bits(b))
    }

    fn fraction(n: u64) -> u64 {
        wide(n as f64 / (1u64 << 53) as f64)
    }
}

fn bits(values: &[f32]) -> Vec<u32> {
    values.iter().map(|value| value.to_bits()).collect()
}

fn table(rows: &[&[f32]]) -> ScoreGrid {
    let columns = rows.first().map_or(0, |row| row.len());
    ScoreGrid::from_rows(&rows.iter().map(|row| bits(row)).collect(), columns)
}

fn chunks(layers: &[&[&[f32]]]) -> DecodedSegmentations {
    let rows = layers[0].len();
    let columns = layers[0][0].len();
    let mut cube = ScoreCube::filled(layers.len(), rows, columns, 0);
    for (layer, frames) in layers.iter().enumerate() {
        for (row, scores) in frames.iter().enumerate() {
            for (column, score) in scores.iter().enumerate() {
                cube.set(layer, row, column, score.to_bits());
            }
        }
    }
    DecodedSegmentations(cube)
}

fn clusters(rows: &[&[i32]]) -> ChunkSpeakerClusters {
    let mut grid = LabelGrid::filled(rows.len(), rows[0].len(), -2);
    for (row, labels) in rows.iter().enumerate() {
        for (column, label) in labels.iter().enumerate() {
            grid.set(row, column, *label);
        }
    }
    ChunkSpeakerClusters(grid)
}

fn all_active(frames: usize, speakers: usize) -> ScoreGrid {
    ScoreGrid::filled(frames, speakers, 1.0f32.to_bits())
}

#[test]
fn speaker_count_rounds_overlap_added_sum() {
    let segmentations = chunks(&[
        &[&[1.0, 0.0], &[1.0, 0.0], &[0.0, 1.0]],
        &[&[0.0, 1.0], &[0.0, 1.0], &[1.0, 0.0]],
    ]);
    let reconstructor = Reconstructor::new(&segmentations, &[0, 1], 0);

    let count = reconstructor.speaker_count::<Machine>(4);

    assert_eq!(count.0, vec![1, 1, 1, 1]);
}

#[test]
fn speaker_count_at_the_edges() {
    let segmentations = chunks(&[
        &[&[1.0, 1.0], &[1.0, 1.0], &[1.0, 1.0]],
        &[&[1.0, 0.0], &[1.0, 0.0], &[1.0, 0.0]],
    ]);
    // The outermost frames of a chunk are left out, and a frame nobody covers has no speaker.
    let reconstructor = Reconstructor::new(&segmentations, &[0, 1], 1);
    assert_eq!(reconstructor.speaker_count::<Machine>(4).0, vec![0, 2, 1, 0]);
    // A half is rounded to the even neighbour: one and a half to two.
    let reconstructor = Reconstructor::new(&segmentations, &[0, 0], 0);
    assert_eq!(reconstructor.speaker_count::<Machine>(3).0, vec![2, 2, 2]);
    // A chunk without a start is left out, and so is what falls off the end.
    let reconstructor = Reconstructor::new(&segmentations, &[1], 0);
    assert_eq!(reconstructor.speaker_count::<Machine>(2).0, vec![0, 2]);
    // No chunks, no track.
    let nothing = DecodedSegmentations(ScoreCube::filled(0, 3, 2, 0));
    let reconstructor = Reconstructor::new(&nothing, &[], 0);
    assert_eq!(reconstructor.speaker_count::<Machine>(5).0, Vec::<usize>::new());
    // Too short for its margins, a chunk counts nowhere.
    let reconstructor = Reconstructor::new(&segmentations, &[0, 1], 2);
    assert_eq!(reconstructor.speaker_count::<Machine>(3).0, vec![0, 0, 0]);
}

#[test]
fn reconstruct_selects_top_k_per_frame() {
    let segmentations = chunks(&[&[&[1.0, 0.0], &[0.5, 0.5]], &[&[0.0, 1.0], &[0.2, 0.8]]]);
    let hard_clusters = clusters(&[&[0, 1], &[0, 1]]);
    let reconstructor = Reconstructor::with_clusters(&segmentations, &hard_clusters, &[0, 1], 0);
    let speaker_count = SpeakerCountTrack(vec![1, 1, 1]);

    let result = reconstructor.reconstruct::<Machine>(&speaker_count);

    assert_eq!(
        result.0,
        table(&[&[1.0, 0.0], &[0.0, 1.0], &[0.0, 1.0]])
    );
}

#[test]
fn activations_take_the_strongest_member_of_a_cluster() {
    let segmentations = chunks(&[&[&[0.25, 0.75, 1.0]], &[&[0.5, 0.125, 0.0]]]);
    let hard_clusters = clusters(&[&[0, 0, -2], &[1, 0, 1]]);
    let reconstructor = Reconstructor::with_clusters(&segmentations, &hard_clusters, &[0, 0], 0);
    let activations =
        reconstructor.frame_activations::<Machine>(&SpeakerCountTrack(vec![1]));
    assert_eq!(activations.0, table(&[&[0.875, 0.5]]));
    // Columns are added for as many speakers as a frame may have.
    let activations =
        reconstructor.frame_activations::<Machine>(&SpeakerCountTrack(vec![3]));
    assert_eq!(activations.0, table(&[&[0.875, 0.5, 0.0]]));
    // Before speakers are clustered there are no columns.
    let plain = Reconstructor::new(&segmentations, &[0, 0], 0);
    let activations = plain.frame_activations::<Machine>(&SpeakerCountTrack(vec![1]));
    assert_eq!(activations.0, ScoreGrid::filled(1, 0, 0));
    assert_eq!(
        build_cluster_mapping(&vec![1, -2, 0, 1], 3),
        vec![vec![2], vec![0, 3], vec![]]
    );
}

#[test]
fn smoothing_keeps_the_speaker_of_the_frame_before() {
    let segmentations = chunks(&[&[&[1.0, 0.0], &[0.5, 0.55], &[0.1, 0.9]]]);
    let hard_clusters = clusters(&[&[0, 1]]);
    let reconstructor = Reconstructor::with_clusters(&segmentations, &hard_clusters, &[0], 0);
    let track = SpeakerCountTrack(vec![1, 1, 1]);
    let smoothed = reconstructor.reconstruct_smoothed::<Machine>(&track, 0.1f32.to_bits());
    assert_eq!(
        smoothed.0,
        table(&[&[1.0, 0.0], &[1.0, 0.0], &[0.0, 1.0]])
    );
    let plain = reconstructor.reconstruct_smoothed::<Machine>(&track, 0);
    assert_eq!(plain.0, table(&[&[1.0, 0.0], &[0.0, 1.0], &[0.0, 1.0]]));
    assert_eq!(plain, reconstructor.reconstruct::<Machine>(&track));
    let negative = reconstructor.reconstruct_smoothed::<Machine>(&track, (-0.1f32).to_bits());
    assert_eq!(negative, plain);
}

#[test]
fn every_frame_has_as_many_speakers_as_the_track_says() {
    let segmentations = chunks(&[
        &[&[0.9, 0.4, 0.1], &[0.3, 0.3, 0.3], &[0.0, 0.2, 0.7]],
        &[&[0.1, 0.8, 0.5], &[0.6, 0.6, 0.0], &[0.2, 0.1, 0.9]],
    ]);
    let hard_clusters = clusters(&[&[0, 1, 2], &[2, 0, 1]]);
    let reconstructor = Reconstructor::with_clusters(&segmentations, &hard_clusters, &[0, 2], 0);
    let track = SpeakerCountTrack(vec![1, 3, 0, 2, 1]);
    for mask in [
        reconstructor.reconstruct::<Machine>(&track),
        reconstructor.reconstruct_smoothed::<Machine>(&track, 0.05f32.to_bits()),
    ] {
        // No column is added where no frame has more speakers than there are clusters.
        assert_eq!(mask.0.dim(), (5, 3));
        for (frame, count) in track.0.iter().enumerate() {
            let active = (0..3)
                .filter(|speaker| mask.0.at(frame, *speaker) == 1.0f32.to_bits())
                .count();
            assert_eq!(active, *count, "frame {frame}");
        }
    }
}

#[test]
fn a_reconstruction_is_refused_where_it_cannot_be_made() {
    let segmentations = chunks(&[&[&[1.0, 0.0], &[0.5, 0.5]], &[&[0.0, 1.0], &[0.2, 0.8]]]);
    let track = SpeakerCountTrack(vec![1, 1, 1]);
    let enough = clusters(&[&[0, 1], &[0, 1]]);
    let ready = Reconstructor::with_clusters(&segmentations, &enough, &[0, 1], 0);
    assert!(ready.is_placeable());
    assert!(ready.is_reconstructible(&track));
    assert!(Reconstructor::new(&segmentations, &[0, 1], 0).is_reconstructible(&track));
    // A chunk without labels.
    let short = clusters(&[&[0, 1]]);
    let unlabelled = Reconstructor::with_clusters(&segmentations, &short, &[0, 1], 0);
    assert!(!unlabelled.is_reconstructible(&track));
    // A label for a local speaker that is not there, where it would be read.
    let wide = clusters(&[&[0, 1, 2], &[0, 1, -2]]);
    let overfull = Reconstructor::with_clusters(&segmentations, &wide, &[0, 1], 0);
    assert!(!overfull.is_reconstructible(&track));
    let beyond = Reconstructor::with_clusters(&segmentations, &wide, &[3, 1], 0);
    assert!(beyond.is_reconstructible(&track));
    // A frame beyond the last number there is.
    let far = Reconstructor::new(&segmentations, &[usize::MAX, 0], 0);
    assert!(!far.is_placeable());
    assert!(can_hold(3, 2));
    assert!(!can_hold(usize::MAX, 2));
    assert!(!can_hold(usize::MAX, 0));
}

#[test]
fn the_loudest_come_first() {
    let scores = table(&[&[0.1, 0.7, 0.7, 0.3]]);
    assert_eq!(top_k_indices(&scores, 0, 0), Vec::<usize>::new());
    assert_eq!(top_k_indices(&scores, 0, 1), vec![1]);
    assert_eq!(top_k_indices(&scores, 0, 3), vec![1, 2, 3]);
    assert_eq!(top_k_indices(&scores, 0, 4), vec![0, 1, 2, 3]);
    assert_eq!(
        top_k_indices_smoothed::<Machine>(&scores, 0, 1, &vec![2], 0.01f32.to_bits()),
        vec![2]
    );
    assert_eq!(
        top_k_indices_smoothed::<Machine>(&scores, 0, 9, &vec![2], 0.01f32.to_bits()),
        vec![0, 1, 2, 3]
    );
}

#[test]
fn exclusive_activations_keep_the_last_of_the_highest() {
    let mut scores = table(&[
        &[0.2, 0.9, 0.9],
        &[0.0, 0.0, -0.0],
        &[-3.0, -1.0, -2.0],
        &[0.5, 0.1, 0.2],
        &[0.0, -1.0, -1.0],
    ]);
    make_exclusive(&mut scores);
    let once = table(&[
        &[0.0, 0.0, 0.9],
        &[0.0, 0.0, 0.0],
        &[0.0, -1.0, 0.0],
        &[0.5, 0.0, 0.0],
        &[0.0, 0.0, 0.0],
    ]);
    assert_eq!(scores, once);
    let mut positive = table(&[&[0.2, 0.9, 0.9]]);
    make_exclusive(&mut positive);
    let after = table(&[&[0.0, 0.0, 0.9]]);
    assert_eq!(positive, after);
    make_exclusive(&mut positive);
    assert_eq!(positive, after);
}

#[test]
fn score_aware_exclusive_uses_unique_support() {
    let support = table(&[&[3.0, 1.0], &[1.0, 3.0], &[3.0, 1.0]]);
    let ordinary = all_active(3, 2);

    let result = score_aware_exclusive(&support, &ordinary);

    assert_eq!(
        result.diarization.0,
        table(&[&[1.0, 0.0], &[0.0, 1.0], &[1.0, 0.0]])
    );
    assert!(result
        .frames
        .iter()
        .all(|frame| frame.decision == Some(ExclusiveFrameDecision::UniqueSupport)));
}

#[test]
fn score_aware_exclusive_resolves_equal_support_from_both_anchors() {
    let support = table(&[&[3.0, 1.0], &[2.0, 2.0], &[3.0, 1.0]]);
    let ordinary = all_active(3, 2);

    let result = score_aware_exclusive(&support, &ordinary);

    assert_eq!(
        result.diarization.0,
        table(&[&[1.0, 0.0], &[1.0, 0.0], &[1.0, 0.0]])
    );
    assert_eq!(
        result.frames[1].decision,
        Some(ExclusiveFrameDecision::TieContinuity)
    );
}

#[test]
fn score_aware_exclusive_marks_unanchored_tie_as_fallback() {
    let support = table(&[&[2.0, 2.0], &[2.0, 2.0]]);
    let ordinary = all_active(2, 2);

    let result = score_aware_exclusive(&support, &ordinary);

    assert_eq!(result.diarization.0, table(&[&[1.0, 0.0], &[1.0, 0.0]]));
    assert!(result
        .frames
        .iter()
        .all(|frame| frame.decision == Some(ExclusiveFrameDecision::DeterministicFallback)));
}

#[test]
fn score_aware_exclusive_is_invariant_to_cluster_permutation() {
    let support = table(&[&[3.0, 1.0], &[2.0, 2.0], &[3.0, 1.0]]);
    let swapped_support = table(&[&[1.0, 3.0], &[2.0, 2.0], &[1.0, 3.0]]);
    let ordinary = all_active(3, 2);

    let original = score_aware_exclusive(&support, &ordinary);
    let swapped = score_aware_exclusive(&swapped_support, &ordinary);

    for frame_idx in 0..3 {
        assert_eq!(
            original.frames[frame_idx].speaker_idx,
            swapped.frames[frame_idx].speaker_idx.map(|idx| 1 - idx)
        );
    }
}

#[test]
fn silence_parts_one_component_from_the_next() {
    let support = table(&[&[2.0, 2.0], &[9.0, 9.0], &[1.0, 3.0], &[2.0, 2.0], &[0.0, 5.0]]);
    let ordinary = table(&[&[1.0, 1.0], &[0.5, 0.0], &[1.0, 1.0], &[1.0, 1.0], &[1.0, 0.0]]);
    let result = DiarizationResult {
        frame_speaker_support: FrameSpeakerSupport(support),
        discrete_diarization: DiscreteDiarization(ordinary),
    }
    .score_aware_exclusive();
    assert_eq!(
        result.diarization.0,
        table(&[&[1.0, 0.0], &[0.0, 0.0], &[0.0, 1.0], &[1.0, 0.0], &[1.0, 0.0]])
    );
    let decisions: Vec<Option<ExclusiveFrameDecision>> =
        result.frames.iter().map(|frame| frame.decision).collect();
    assert_eq!(
        decisions,
        vec![
            Some(ExclusiveFrameDecision::DeterministicFallback),
            None,
            Some(ExclusiveFrameDecision::UniqueSupport),
            Some(ExclusiveFrameDecision::DeterministicFallback),
            Some(ExclusiveFrameDecision::UniqueSupport),
        ]
    );
    assert_eq!(result, result.clone());
    assert_eq!(result.frames[1].speaker_idx, None);
    assert_eq!(result.frames[2].support, 3.0f32.to_bits());
    assert_eq!(result.frames[2].runner_up_speaker_idx, Some(0));
    assert_eq!(result.frames[2].runner_up_support, 1.0f32.to_bits());
    assert_eq!(result.frames[4].runner_up_speaker_idx, None);
    assert_eq!(result.frames[4].runner_up_support, 0);
}

#[test]
fn the_pieces_of_an_exclusive_frame() {
    let support = table(&[&[2.0, 5.0, 2.0, 7.0]]);
    let ordinary = table(&[&[1.0, 0.6, 0.9, 0.5]]);
    assert!(row_has_activity(&ordinary, 0));
    assert_eq!(frame_maxima(&support, &ordinary, 0), vec![1]);
    assert_eq!(runner_up(&support, &ordinary, 0, 1), Some(0));
    assert_eq!(runner_up(&support, &ordinary, 0, 0), Some(1));
    let choices = vec![vec![0], vec![0, 1], vec![0, 1], vec![1]];
    assert_eq!(best_path_through(&choices, 2), vec![0, 0, 0, 1]);
    assert_eq!(
        frame_decisions(&choices, &vec![0, 0, 0, 1]),
        vec![
            ExclusiveFrameDecision::UniqueSupport,
            ExclusiveFrameDecision::DeterministicFallback,
            ExclusiveFrameDecision::DeterministicFallback,
            ExclusiveFrameDecision::UniqueSupport,
        ]
    );
}

#[test]
fn a_range_inside_a_longer_run_is_decided_on_its_own() {
    let support = table(&[&[3.0, 1.0], &[2.0, 2.0], &[2.0, 2.0], &[1.0, 3.0]]);
    let ordinary = all_active(4, 2);
    let mut output = ScoreGrid::filled(5, 3, 0.25f32.to_bits());
    let mut evidence = vec![
        ExclusiveFrameEvidence {
            speaker_idx: None,
            support: 7,
            runner_up_speaker_idx: None,
            runner_up_support: 7,
            decision: None,
        };
        4
    ];
    let before = evidence[0];
    reconstruct_component(&support, &ordinary, 2, 4, &mut output, &mut evidence);
    // The chosen cells become one, and everything else stays.
    assert_eq!(
        output,
        table(&[
            &[0.25, 0.25, 0.25],
            &[0.25, 0.25, 0.25],
            &[0.25, 1.0, 0.25],
            &[0.25, 1.0, 0.25],
            &[0.25, 0.25, 0.25],
        ])
    );
    assert_eq!(evidence[..2], [before, before]);
    assert_eq!(evidence[2].speaker_idx, Some(1));
    assert_eq!(
        evidence[2].decision,
        Some(ExclusiveFrameDecision::TieContinuity)
    );
    assert_eq!(evidence[3].speaker_idx, Some(1));
}

#[test]
fn tables_that_cannot_be_made_exclusive() {
    let ordinary = all_active(1, 2);
    assert!(can_be_exclusive(&table(&[&[1.0, 2.0]]), &ordinary));
    assert!(!can_be_exclusive(&table(&[&[1.0, f32::NAN]]), &ordinary));
    assert!(!can_be_exclusive(&table(&[&[1.0, 2.0, 3.0]]), &ordinary));
    assert!(!can_be_exclusive(
        &table(&[&[1.0, 2.0], &[1.0, 2.0]]),
        &ordinary
    ));
    assert!(can_be_exclusive(
        &table(&[&[1.0, f32::NAN]]),
        &ScoreGrid::filled(1, 2, 0)
    ));
}
