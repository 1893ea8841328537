//! Speaker diarization: execution modes and model files, speaker counts and clusters, and who
//! speaks when.
pub mod arithmetic;
pub mod assignment;
pub mod assignment_laws;
pub mod clustering;
pub mod clustering_laws;
pub mod device;
pub mod device_laws;
pub mod embedding;
pub mod exclusive;
pub mod exclusive_laws;
pub mod grid;
pub mod mode;
pub mod path;
pub mod provider;
pub mod ranking;
pub mod ranking_laws;
pub mod reconstruct;
pub mod reconstruct_laws;
pub mod rng;
pub mod rng_laws;
pub mod runtime;
pub mod score;
pub mod score_laws;
pub mod seeding_laws;
pub mod segmentation;
pub mod speaker_count;
pub mod text;
pub mod text_laws;
pub mod timeline_laws;
pub mod types;
