//! Finds the voiced spans of an audio buffer from per-chunk loudness: chunks below a
//! threshold are silent, short silences are dropped, the rest are padded and merged, and
//! what remains uncovered is reported as ascending, non-overlapping time spans.
pub mod analysis;
pub mod laws;
pub mod runs;
pub mod segment;
pub mod settings;

pub use analysis::{analyze, classify, is_silent, runs_to_intervals, AnalysisResult, TimeInterval};
pub use runs::Run;
pub use segment::{find_voiced_segments, invert, pad_and_merge, retained_silence, silent_runs};
pub use settings::{AnalysisError, AnalysisSettings, ChunkPlan};
