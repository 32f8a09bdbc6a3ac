//! Metadata extraction for audio recordings with SRT subtitles, and the
//! pure parts of a flat on-disk recording store.
pub mod metadata;
pub mod recording;
pub mod srt;

pub use metadata::{analyze_audio_metadata, AudioMetadata, AudioProperties};
pub use recording::{get_recording_metadata, list_recordings, RecordingInfo, StoreEntry};
pub use srt::{parse_timestamp_line, srt_stats, SrtSegment, SrtStats};
