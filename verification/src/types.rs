//! The tables that a diarization passes from step to step.
use crate::grid::{LabelGrid, ScoreCube, ScoreGrid};
use vstd::prelude::*;

verus! {

/// Decoded segmentations, one layer per chunk: frames by local speakers.
#[derive(Debug, PartialEq, Eq)]
pub struct DecodedSegmentations(pub ScoreCube);

/// Speaker embeddings, one layer per chunk: local speakers by embedding dimensions.
#[derive(Debug, PartialEq, Eq)]
pub struct ChunkEmbeddings(pub ScoreCube);

/// The global cluster of each local speaker of each chunk; negative where there is none.
#[derive(Debug, PartialEq, Eq)]
pub struct ChunkSpeakerClusters(pub LabelGrid);

/// How many speakers are active in each output frame.
#[derive(Debug, Clone, PartialEq, Eq)]
pub struct SpeakerCountTrack(pub Vec<usize>);

/// Overlap-added scores of each cluster in each output frame.
#[derive(Debug, Clone, PartialEq, Eq)]
pub struct FrameActivations(pub ScoreGrid);

/// A binary activity mask, frames by speakers.
#[derive(Debug, Clone, PartialEq, Eq)]
pub struct DiscreteDiarization(pub ScoreGrid);

/// Overlap-added support for each global speaker cluster, frames by speakers.
///
/// Values are sums of hard segmentation decisions from overlapping inference windows. They
/// are useful for comparing speakers within one frame, but are not calibrated probabilities.
#[derive(Debug, Clone, PartialEq, Eq)]
pub struct FrameSpeakerSupport(pub ScoreGrid);

/// How an exclusive speaker was selected for a frame.
#[derive(Debug, Clone, Copy, PartialEq, Eq, Structural)]
pub enum ExclusiveFrameDecision {
    /// Exactly one active speaker had the greatest support.
    UniqueSupport,
    /// Equal-support speakers were resolved by an unambiguous surrounding speaker.
    TieContinuity,
    /// Support and surrounding speakers did not determine one path; stable cluster order won.
    DeterministicFallback,
}

/// Compact evidence for one frame in a score-aware exclusive reconstruction.
#[derive(Debug, Clone, Copy, PartialEq, Eq)]
pub struct ExclusiveFrameEvidence {
    /// Selected global speaker index, or `None` for silence.
    pub speaker_idx: Option<usize>,
    /// Selected speaker support for this frame.
    pub support: u32,
    /// Strongest other active speaker, if one exists.
    pub runner_up_speaker_idx: Option<usize>,
    /// Support for `runner_up_speaker_idx`, or zero when there is no runner-up.
    pub runner_up_support: u32,
    /// Selection reason, or `None` for silence.
    pub decision: Option<ExclusiveFrameDecision>,
}

/// Exclusive diarization and the frame evidence used to produce it.
#[derive(Debug, Clone, PartialEq, Eq)]
pub struct ScoreAwareExclusiveDiarization {
    /// Binary, single-speaker-per-frame diarization.
    pub diarization: DiscreteDiarization,
    /// Evidence aligned one-to-one with diarization frames.
    pub frames: Vec<ExclusiveFrameEvidence>,
}

/// What a diarization run leaves behind for the exclusive timeline.
#[derive(Debug, Clone, PartialEq, Eq)]
pub struct DiarizationResult {
    /// Support for each speaker in each frame.
    pub frame_speaker_support: FrameSpeakerSupport,
    /// The ordinary, possibly overlapping, activity mask.
    pub discrete_diarization: DiscreteDiarization,
}

} // verus!
