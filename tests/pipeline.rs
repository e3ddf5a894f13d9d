use audio_transcriber::pipeline::{check_configuration, plan_from_probe, PlanningError};
use audio_transcriber::plan::{segment_duration_for_size, total_segments, ConfigError, SegmentPlan};
use audio_transcriber::probe::{parse_probe_output, parse_timestamp, ProbeError};
use audio_transcriber::slots::{SegmentOutcome, TranscriptSlots};
use audio_transcriber::transcription::{transcription_from_response, TranscriptionError};

fn outcome(text: &str) -> SegmentOutcome {
    SegmentOutcome::Transcribed(text.to_string())
}

#[test]
fn segment_count_is_ceiling() {
    assert_eq!(total_segments(0, 10), 0);
    assert_eq!(total_segments(1, 10), 1);
    assert_eq!(total_segments(10, 10), 1);
    assert_eq!(total_segments(11, 10), 2);
    assert_eq!(total_segments(1500, 655), 3);
    assert_eq!(total_segments(usize::MAX, 1), usize::MAX);
    assert_eq!(total_segments(usize::MAX, 2), usize::MAX / 2 + 1);
}

#[test]
fn segments_tile_the_input() {
    let plan = SegmentPlan::new(1500, 655);
    assert_eq!(plan.segment_count, 3);
    let mut end = 0;
    for i in 0..plan.segment_count {
        assert_eq!(plan.segment_start(i), end);
        end = plan.segment_start(i) + plan.segment_length(i);
    }
    assert_eq!(end, 1500);
    assert_eq!(plan.segment_length(0), 655);
    assert_eq!(plan.segment_length(1), 655);
    assert_eq!(plan.segment_length(2), 190);
}

#[test]
fn exact_multiple_has_no_short_segment() {
    let plan = SegmentPlan::new(1200, 300);
    assert_eq!(plan.segment_count, 4);
    for i in 0..4 {
        assert_eq!(plan.segment_length(i), 300);
    }
}

#[test]
fn zero_duration_gives_empty_plan_and_transcript() {
    let plan = plan_from_probe(655, Ok(0)).unwrap();
    assert_eq!(plan.segment_count, 0);
    let slots = TranscriptSlots::new(plan.segment_count);
    assert_eq!(slots.len(), 0);
    assert!(slots.assemble().is_empty());
}

#[test]
fn size_limit_to_segment_duration() {
    assert_eq!(segment_duration_for_size(1024 * 1024 * 10), Ok(655));
    assert_eq!(segment_duration_for_size(16000), Ok(1));
    assert_eq!(segment_duration_for_size(15999), Err(ConfigError::SegmentTooSmall));
    assert_eq!(
        check_configuration(100),
        Err(PlanningError::Configuration(ConfigError::SegmentTooSmall))
    );
    assert_eq!(check_configuration(32000), Ok(2));
}

#[test]
fn failed_probe_yields_no_plan() {
    let output = b"Input #0, mp3\n  Duration: N/A, bitrate: N/A\n".to_vec();
    let probed = parse_probe_output(&output);
    assert_eq!(probed, Err(ProbeError::Unparseable));
    assert_eq!(plan_from_probe(655, probed), Err(PlanningError::Probe(ProbeError::Unparseable)));
    assert_eq!(
        plan_from_probe(655, Err(ProbeError::ToolFailed)),
        Err(PlanningError::Probe(ProbeError::ToolFailed))
    );
}

#[test]
fn probe_output_reports_duration() {
    let output = b"ffmpeg version 6\nInput #0, mp3, from 'a.mp3':\n  Duration: 01:02:03.99, start: 0.025057, bitrate: 128 kb/s\n  Stream #0:0: Audio\n".to_vec();
    assert_eq!(parse_probe_output(&output), Ok(3723));
    let crlf = b"x\r\n  Duration: 00:10:55.43, start: 0\r\n".to_vec();
    assert_eq!(parse_probe_output(&crlf), Ok(655));
    let last_line = b"Duration: 00:00:07".to_vec();
    assert_eq!(parse_probe_output(&last_line), Ok(7));
}

#[test]
fn probe_output_without_duration() {
    assert_eq!(parse_probe_output(&Vec::new()), Err(ProbeError::DurationNotFound));
    let output = b"ffmpeg version 6\nno such file\n".to_vec();
    assert_eq!(parse_probe_output(&output), Err(ProbeError::DurationNotFound));
    let lone = b"  Duration:\n".to_vec();
    assert_eq!(parse_probe_output(&lone), Err(ProbeError::Unparseable));
}

#[test]
fn time_stamps() {
    assert_eq!(parse_timestamp(&b"10:00:00".to_vec()), Ok(36000));
    assert_eq!(parse_timestamp(&b"00:01:05.43,".to_vec()), Ok(65));
    assert_eq!(parse_timestamp(&b"0:0:59.999,,".to_vec()), Ok(59));
    assert_eq!(parse_timestamp(&b"00:00:01.".to_vec()), Ok(1));
    assert_eq!(parse_timestamp(&b"".to_vec()), Err(ProbeError::Unparseable));
    assert_eq!(parse_timestamp(&b"1:2".to_vec()), Err(ProbeError::Unparseable));
    assert_eq!(parse_timestamp(&b"1:2:3:4".to_vec()), Err(ProbeError::Unparseable));
    assert_eq!(parse_timestamp(&b"1:2:3.x".to_vec()), Err(ProbeError::Unparseable));
    assert_eq!(parse_timestamp(&b"1::3".to_vec()), Err(ProbeError::Unparseable));
    assert_eq!(
        parse_timestamp(&b"99999999999999999999:00:00".to_vec()),
        Err(ProbeError::Unparseable)
    );
}

#[test]
fn completion_order_does_not_change_transcript() {
    let texts = ["alpha", "beta", "gamma", "delta"];
    let mut forward = TranscriptSlots::new(4);
    for i in 0..4 {
        forward.record(i, outcome(texts[i]));
    }
    let mut shuffled = TranscriptSlots::new(4);
    for &i in &[2usize, 0, 3, 1] {
        shuffled.record(i, outcome(texts[i]));
    }
    assert_eq!(forward.assemble(), vec!["alpha", "beta", "gamma", "delta"]);
    assert_eq!(shuffled.assemble(), forward.assemble());
}

#[test]
fn one_failure_is_isolated() {
    let mut slots = TranscriptSlots::new(3);
    slots.record(2, outcome("three"));
    slots.record(1, SegmentOutcome::TranscriptionFailed);
    slots.record(0, outcome("one"));
    assert_eq!(slots.assemble(), vec!["one", "three"]);
    let mut cut_failed = TranscriptSlots::new(2);
    cut_failed.record(0, SegmentOutcome::SegmentFailed);
    cut_failed.record(1, outcome("two"));
    assert_eq!(cut_failed.assemble(), vec!["two"]);
}

#[test]
fn round_trip_joins_texts_in_order() {
    let plan = plan_from_probe(10, Ok(35)).unwrap();
    assert_eq!(plan.segment_count, 4);
    let texts = ["Hello there.", "This is a test", "of the pipeline", "end."];
    let mut slots = TranscriptSlots::new(plan.segment_count);
    for &i in &[3usize, 1, 2, 0] {
        slots.record(i, outcome(texts[i]));
    }
    assert_eq!(
        slots.assemble().join(" "),
        "Hello there. This is a test of the pipeline end."
    );
}

#[test]
fn transcription_answer_text() {
    let body = br#"{"text":"hello world"}"#.to_vec();
    assert_eq!(transcription_from_response(true, &body), Ok("hello world".to_string()));
    assert_eq!(transcription_from_response(false, &body), Err(TranscriptionError::Status));
    let no_text = br#"{"error":{"message":"bad"}}"#.to_vec();
    assert_eq!(transcription_from_response(true, &no_text), Err(TranscriptionError::MissingText));
    let not_string = br#"{"text":3}"#.to_vec();
    assert_eq!(transcription_from_response(true, &not_string), Err(TranscriptionError::MissingText));
    let garbage = b"not json".to_vec();
    assert_eq!(transcription_from_response(true, &garbage), Err(TranscriptionError::MissingText));
}
