use audio_core::{analyze_audio_metadata, parse_timestamp_line, srt_stats, AudioProperties, SrtSegment};

const EXAMPLE: &str = "1\n00:00:01,000 --> 00:00:03,500\nHello\n\n2\n00:00:05,000 --> 00:00:06,000\nWorld\n";

fn props() -> AudioProperties {
    AudioProperties {
        duration_secs: 12,
        duration_subsec_nanos: 250_000_000,
        sample_rate: Some(44_100),
        bitrate: Some(128),
        channels: Some(2),
    }
}

#[test]
fn example_file_gives_two_segments() {
    let stats = srt_stats(EXAMPLE);
    assert_eq!(stats.segments, 2);
    assert_eq!(stats.speech_millis, 3500);
}

#[test]
fn example_file_average() {
    let m = analyze_audio_metadata(&props(), EXAMPLE);
    assert_eq!(m.srt_segments, 2);
    assert_eq!(m.srt_speech_millis, 3500);
    let (num, den) = m.srt_avg_segment_millis();
    assert_eq!((num, den), (3500, 2));
    assert_eq!(num as f64 / den as f64 / 1000.0, 1.75);
    assert_eq!(m.srt_speech_millis as f64 / 1000.0, 3.5);
}

#[test]
fn no_segments_average_is_zero() {
    let m = analyze_audio_metadata(&props(), "just text\n\nmore text\n");
    assert_eq!(m.srt_segments, 0);
    assert_eq!(m.srt_speech_millis, 0);
    assert_eq!(m.srt_avg_segment_millis(), (0, 1));
}

#[test]
fn empty_content() {
    let stats = srt_stats("");
    assert_eq!(stats.segments, 0);
    assert_eq!(stats.speech_millis, 0);
}

#[test]
fn container_values_pass_through() {
    let m = analyze_audio_metadata(&props(), "");
    assert_eq!(m.duration_secs, 12);
    assert_eq!(m.duration_subsec_nanos, 250_000_000);
    assert_eq!(m.sample_rate, 44_100);
    assert_eq!(m.bitrate, 128);
    assert_eq!(m.channels, 2);
}

#[test]
fn unknown_container_values_become_zero() {
    let p = AudioProperties {
        duration_secs: 3,
        duration_subsec_nanos: 0,
        sample_rate: None,
        bitrate: None,
        channels: None,
    };
    let m = analyze_audio_metadata(&p, EXAMPLE);
    assert_eq!(m.sample_rate, 0);
    assert_eq!(m.bitrate, 0);
    assert_eq!(m.channels, 0);
    assert_eq!(m.srt_segments, 2);
}

#[test]
fn interleaved_lines_do_not_count() {
    let plain = "00:00:01,000 --> 00:00:02,000\n00:00:03,000 --> 00:00:05,000";
    let noisy = "7\nfoo\n\n00:00:01,000 --> 00:00:02,000\n\nbar 12:34\n00:00:03,000 --> 00:00:05,000\n\n";
    assert_eq!(srt_stats(plain), srt_stats(noisy));
    assert_eq!(srt_stats(noisy).segments, 2);
    assert_eq!(srt_stats(noisy).speech_millis, 3000);
}

#[test]
fn reversed_interval_decreases_total() {
    let s = "00:00:10,000 --> 00:00:04,000\n00:00:00,000 --> 00:00:01,000\n";
    let stats = srt_stats(s);
    assert_eq!(stats.segments, 2);
    assert_eq!(stats.speech_millis, -5000);
}

#[test]
fn hours_minutes_seconds_and_millis() {
    let seg = parse_timestamp_line("01:02:03,004 --> 10:20:30,999").unwrap();
    assert_eq!(seg, SrtSegment { start_millis: 3_723_004, end_millis: 37_230_999 });
    let big = parse_timestamp_line("99:59:59,999 --> 99:99:99,999").unwrap();
    assert_eq!(big.start_millis, 359_999_999);
    assert_eq!(big.end_millis, 362_439_999);
}

#[test]
fn match_anywhere_and_trailing_cue() {
    let seg = parse_timestamp_line("x 00:00:01,500 --> 00:00:02,000 X1:100 X2:200").unwrap();
    assert_eq!(seg, SrtSegment { start_millis: 1500, end_millis: 2000 });
}

#[test]
fn leftmost_match_wins() {
    let line = "00:00:01,000 --> 00:00:02,000 00:00:05,000 --> 00:00:09,000";
    let seg = parse_timestamp_line(line).unwrap();
    assert_eq!(seg, SrtSegment { start_millis: 1000, end_millis: 2000 });
    assert_eq!(srt_stats(line).segments, 1);
    assert_eq!(srt_stats(line).speech_millis, 1000);
}

#[test]
fn overlapping_candidates_pick_leftmost_full_match() {
    let seg = parse_timestamp_line("00:00:00:00:01,000 --> 00:00:02,000").unwrap();
    assert_eq!(seg, SrtSegment { start_millis: 1000, end_millis: 2000 });
}

#[test]
fn malformed_lines_are_not_timestamps() {
    assert_eq!(parse_timestamp_line("0:00:01,000 --> 00:00:02,000"), None);
    assert_eq!(parse_timestamp_line("00:00:01.000 --> 00:00:02,000"), None);
    assert_eq!(parse_timestamp_line("00:00:01,000 -> 00:00:02,000"), None);
    assert_eq!(parse_timestamp_line("00:00:01,000\t-->\t00:00:02,000"), None);
    assert_eq!(parse_timestamp_line("00:00:01,000 --> 00:00:02,00"), None);
    assert_eq!(parse_timestamp_line(""), None);
    assert_eq!(parse_timestamp_line("Hello"), None);
}

#[test]
fn crlf_lines_are_read() {
    let s = "1\r\n00:00:01,000 --> 00:00:03,500\r\nHello\r\n\r\n";
    let stats = srt_stats(s);
    assert_eq!(stats.segments, 1);
    assert_eq!(stats.speech_millis, 2500);
}

#[test]
fn non_ascii_text_around_timestamps() {
    let s = "1\nü 00:00:01,000 --> 00:00:02,000 é\nGrüße\n";
    let stats = srt_stats(s);
    assert_eq!(stats.segments, 1);
    assert_eq!(stats.speech_millis, 1000);
}

#[test]
fn pattern_split_across_lines_does_not_count() {
    let s = "00:00:01,000 -->\n00:00:02,000";
    assert_eq!(srt_stats(s).segments, 0);
}
