//! One analysis record: container properties of a recording together with
//! the timing statistics of its subtitles.
use vstd::prelude::*;
use vstd::string::StringSliceAdditionalSpecFns;

use crate::srt::{count_timed, split_lines, srt_stats, total_duration};

verus! {

/// Properties that an audio container reports. Anything but the duration
/// may be unknown.
#[derive(Clone, Copy, Debug, PartialEq, Eq, Structural)]
pub struct AudioProperties {
    pub duration_secs: u64,
    /// Sub-second part of the duration, below one billion.
    pub duration_subsec_nanos: u32,
    pub sample_rate: Option<u32>,
    /// Audio bitrate in kbps.
    pub bitrate: Option<u32>,
    pub channels: Option<u8>,
}

/// The result of analysing one recording with its subtitles. Unknown
/// container values stand as 0; subtitle durations are in milliseconds.
#[derive(Clone, Copy, Debug, PartialEq, Eq, Structural)]
pub struct AudioMetadata {
    pub duration_secs: u64,
    pub duration_subsec_nanos: u32,
    pub sample_rate: u32,
    pub bitrate: u32,
    pub channels: u16,
    pub srt_segments: usize,
    pub srt_speech_millis: i128,
}

pub open spec fn or_zero(v: Option<u32>) -> u32 {
    match v {
        Some(x) => x,
        None => 0,
    }
}

impl AudioMetadata {
    /// Mean segment length in milliseconds as the exact fraction
    /// `numerator / denominator`: the speech total over the number of
    /// segments, and `0 / 1` when there is no segment.
    pub fn srt_avg_segment_millis(&self) -> (r: (i128, usize))
        ensures
            self.srt_segments > 0 ==> r == (self.srt_speech_millis, self.srt_segments),
            self.srt_segments == 0 ==> r == (0i128, 1usize),
            r.1 > 0,
    {
        if self.srt_segments > 0 {
            (self.srt_speech_millis, self.srt_segments)
        } else {
            (0, 1)
        }
    }
}

/// Combines the container properties of a recording with the statistics of
/// its subtitle text. Unknown sample rate, bitrate or channel count become 0.
pub fn analyze_audio_metadata(properties: &AudioProperties, subtitles: &str) -> (r: AudioMetadata)
    ensures
        r.duration_secs == properties.duration_secs,
        r.duration_subsec_nanos == properties.duration_subsec_nanos,
        r.sample_rate == or_zero(properties.sample_rate),
        r.bitrate == or_zero(properties.bitrate),
        r.channels == match properties.channels {
            Some(c) => c as u16,
            None => 0u16,
        },
        r.srt_segments == count_timed(split_lines(subtitles.spec_bytes())),
        r.srt_speech_millis == total_duration(split_lines(subtitles.spec_bytes())),
{
    let sample_rate = match properties.sample_rate {
        Some(v) => v,
        None => 0,
    };
    let bitrate = match properties.bitrate {
        Some(v) => v,
        None => 0,
    };
    let channels: u16 = match properties.channels {
        Some(c) => c as u16,
        None => 0,
    };
    let stats = srt_stats(subtitles);
    AudioMetadata {
        duration_secs: properties.duration_secs,
        duration_subsec_nanos: properties.duration_subsec_nanos,
        sample_rate,
        bitrate,
        channels,
        srt_segments: stats.segments,
        srt_speech_millis: stats.speech_millis,
    }
}

} // verus!
