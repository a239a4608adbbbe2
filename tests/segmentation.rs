use silence_detect::{
    analyze, classify, find_voiced_segments, invert, is_silent, pad_and_merge, retained_silence, runs_to_intervals,
    silent_runs, AnalysisError, AnalysisSettings, ChunkPlan, Run, TimeInterval,
};

fn run(start: usize, end: usize) -> Run {
    Run { start, end }
}

fn span(start_ms: u128, end_ms: u128) -> TimeInterval {
    TimeInterval { start_ms, end_ms }
}

fn settings(threshold: i64, min_silence_duration: i64, padding: i64, chunk_size: i64) -> AnalysisSettings {
    AnalysisSettings { threshold, min_silence_duration, padding, chunk_size }
}

fn verdicts(flags: &str) -> Vec<bool> {
    flags.chars().map(|c| c == 'S').collect()
}

// Each loudness value stands for one chunk: None is digital silence, Some(x) is x/100 dB.
fn loud_or_silent(flags: &str) -> Vec<Option<i64>> {
    flags.chars().map(|c| if c == 'S' { None } else { Some(0) }).collect()
}

#[test]
fn plan_derives_chunk_counts() {
    let p = ChunkPlan::new(&settings(-4000, 45, 25, 10), 1000, 95).unwrap();
    assert_eq!(p.chunk_samples, 10);
    assert_eq!(p.chunk_count, 10);
    assert_eq!(p.min_silence_chunks, 5);
    assert_eq!(p.padding_chunks, 2);
    assert_eq!(p.chunk_ms, 10);
    assert_eq!(p.threshold, -4000);
    assert_eq!(p.sample_count, 95);
}

#[test]
fn plan_rounds_chunk_samples_to_nearest() {
    let p = ChunkPlan::new(&settings(0, 0, 0, 10), 44100, 100_000).unwrap();
    assert_eq!(p.chunk_samples, 441);
    assert_eq!(p.chunk_count, 227);
    let half = ChunkPlan::new(&settings(0, 0, 0, 1), 1500, 10).unwrap();
    assert_eq!(half.chunk_samples, 2);
    assert_eq!(half.chunk_count, 5);
}

#[test]
fn plan_chunk_longer_than_buffer_is_one_chunk() {
    let p = ChunkPlan::new(&settings(0, 0, 0, 1000), 48000, 100).unwrap();
    assert_eq!(p.chunk_samples, 100);
    assert_eq!(p.chunk_count, 1);
    assert_eq!(p.chunk_bounds(0), (0, 100));
}

#[test]
fn plan_exact_min_silence_is_not_rounded_up() {
    let p = ChunkPlan::new(&settings(0, 50, 9, 10), 1000, 100).unwrap();
    assert_eq!(p.min_silence_chunks, 5);
    assert_eq!(p.padding_chunks, 0);
}

#[test]
fn plan_rejects_zero_chunk_size() {
    assert_eq!(ChunkPlan::new(&settings(0, 0, 0, 0), 1000, 10), Err(AnalysisError::InvalidConfiguration));
}

#[test]
fn plan_rejects_negative_chunk_size() {
    assert_eq!(ChunkPlan::new(&settings(0, 0, 0, -5), 1000, 10), Err(AnalysisError::InvalidConfiguration));
}

#[test]
fn plan_rejects_negative_min_silence() {
    assert_eq!(ChunkPlan::new(&settings(0, -1, 0, 10), 1000, 10), Err(AnalysisError::InvalidConfiguration));
}

#[test]
fn plan_rejects_negative_padding() {
    assert_eq!(ChunkPlan::new(&settings(0, 0, -1, 10), 1000, 10), Err(AnalysisError::InvalidConfiguration));
}

#[test]
fn plan_rejects_zero_sample_rate() {
    assert_eq!(ChunkPlan::new(&settings(0, 0, 0, 10), 0, 10), Err(AnalysisError::InvalidConfiguration));
}

#[test]
fn plan_rejects_chunk_that_rounds_to_no_sample() {
    assert_eq!(ChunkPlan::new(&settings(0, 0, 0, 1), 100, 10), Err(AnalysisError::InvalidConfiguration));
    assert_eq!(ChunkPlan::new(&settings(0, 0, 0, 1), 499, 10), Err(AnalysisError::InvalidConfiguration));
    assert!(ChunkPlan::new(&settings(0, 0, 0, 1), 500, 10).is_ok());
}

#[test]
fn plan_rejects_empty_buffer() {
    assert_eq!(ChunkPlan::new(&settings(0, 0, 0, 10), 1000, 0), Err(AnalysisError::EmptyInput));
}

#[test]
fn plan_reports_configuration_before_empty_buffer() {
    assert_eq!(ChunkPlan::new(&settings(0, 0, 0, 0), 1000, 0), Err(AnalysisError::InvalidConfiguration));
}

#[test]
fn chunk_bounds_keep_partial_tail() {
    let p = ChunkPlan::new(&settings(0, 0, 0, 10), 1000, 95).unwrap();
    assert_eq!(p.chunk_bounds(0), (0, 10));
    assert_eq!(p.chunk_bounds(4), (40, 50));
    assert_eq!(p.chunk_bounds(9), (90, 95));
}

#[test]
fn silence_is_strictly_below_threshold() {
    assert!(is_silent(Some(-4001), -4000));
    assert!(!is_silent(Some(-4000), -4000));
    assert!(!is_silent(Some(0), -4000));
    assert!(is_silent(None, i64::MIN));
}

#[test]
fn classify_marks_each_chunk() {
    let loudness = vec![None, Some(-5000), Some(-4000), Some(-100)];
    assert_eq!(classify(&loudness, -4000), vec![true, true, false, false]);
    assert_eq!(classify(&Vec::new(), 0), Vec::<bool>::new());
}

#[test]
fn silent_runs_are_maximal() {
    assert_eq!(silent_runs(&verdicts("SSLLSLSSS")), vec![run(0, 2), run(4, 5), run(6, 9)]);
    assert_eq!(silent_runs(&verdicts("LLL")), Vec::<Run>::new());
    assert_eq!(silent_runs(&verdicts("")), Vec::<Run>::new());
}

#[test]
fn pad_and_merge_joins_touching_runs() {
    assert_eq!(pad_and_merge(&vec![run(2, 4), run(6, 8)], 1, 1, 10), vec![run(1, 9)]);
}

#[test]
fn pad_and_merge_drops_short_runs() {
    assert_eq!(pad_and_merge(&vec![run(0, 1), run(3, 6), run(8, 9)], 2, 0, 10), vec![run(3, 6)]);
}

#[test]
fn pad_and_merge_clamps_to_buffer() {
    assert_eq!(pad_and_merge(&vec![run(0, 2), run(8, 10)], 1, 2, 10), vec![run(0, 4), run(6, 10)]);
    assert_eq!(pad_and_merge(&vec![run(0, 2), run(8, 10)], 1, 3, 10), vec![run(0, 10)]);
}

#[test]
fn pad_and_merge_keeps_separate_runs_apart() {
    assert_eq!(pad_and_merge(&vec![run(2, 4), run(7, 9)], 1, 1, 12), vec![run(1, 5), run(6, 10)]);
}

#[test]
fn invert_lists_gaps() {
    assert_eq!(invert(&vec![run(1, 3), run(5, 6)], 8), vec![run(0, 1), run(3, 5), run(6, 8)]);
    assert_eq!(invert(&Vec::new(), 4), vec![run(0, 4)]);
    assert_eq!(invert(&vec![run(0, 4)], 4), Vec::<Run>::new());
    assert_eq!(invert(&Vec::new(), 0), Vec::<Run>::new());
}

#[test]
fn short_silence_is_voiced() {
    let p = ChunkPlan::new(&settings(-4000, 50, 0, 10), 1000, 80).unwrap();
    let res = analyze(&p, &loud_or_silent("LLSSSSLL"));
    assert_eq!(res.audible_intervals, vec![span(0, 80)]);
}

#[test]
fn silence_of_minimum_length_is_kept() {
    let p = ChunkPlan::new(&settings(-4000, 50, 0, 10), 1000, 80).unwrap();
    let res = analyze(&p, &loud_or_silent("LLSSSSSL"));
    assert_eq!(res.audible_intervals, vec![span(0, 20), span(70, 80)]);
}

#[test]
fn padded_runs_merge_into_one() {
    let v = verdicts("LLSSLLSSLL");
    assert_eq!(retained_silence(&v, 1, 1), vec![run(1, 9)]);
    assert_eq!(find_voiced_segments(&v, 1, 1), vec![run(0, 1), run(9, 10)]);
}

#[test]
fn padding_at_start_clamps_to_zero() {
    let v = verdicts("SSLLLL");
    assert_eq!(retained_silence(&v, 1, 3), vec![run(0, 5)]);
    assert_eq!(find_voiced_segments(&v, 1, 3), vec![run(5, 6)]);
}

#[test]
fn padding_at_end_clamps_to_count() {
    let v = verdicts("LLLLSS");
    assert_eq!(retained_silence(&v, 1, 3), vec![run(1, 6)]);
    assert_eq!(find_voiced_segments(&v, 1, 3), vec![run(0, 1)]);
}

#[test]
fn all_silent_buffer_has_no_voice() {
    let p = ChunkPlan::new(&settings(-4000, 50, 20, 10), 1000, 100).unwrap();
    let res = analyze(&p, &vec![None; 10]);
    assert_eq!(res.audible_intervals, Vec::<TimeInterval>::new());
}

#[test]
fn all_loud_buffer_is_one_span() {
    let p = ChunkPlan::new(&settings(-4000, 50, 20, 10), 1000, 100).unwrap();
    let res = analyze(&p, &vec![Some(0); 10]);
    assert_eq!(res.audible_intervals, vec![span(0, 100)]);
}

#[test]
fn no_silence_yields_whole_buffer() {
    assert_eq!(find_voiced_segments(&verdicts("LLLL"), 0, 0), vec![run(0, 4)]);
}

#[test]
fn zero_minimum_keeps_every_silent_run() {
    assert_eq!(find_voiced_segments(&verdicts("LSLSL"), 0, 0), vec![run(0, 1), run(2, 3), run(4, 5)]);
}

#[test]
fn analysis_is_deterministic() {
    let p = ChunkPlan::new(&settings(-3000, 20, 0, 10), 1000, 120).unwrap();
    let loudness = vec![Some(-100), None, None, Some(-3500), Some(-2000), None, None, None, Some(0), Some(-2999), None, Some(-3001)];
    let a = analyze(&p, &loudness);
    let b = analyze(&p, &loudness);
    assert_eq!(a.audible_intervals, b.audible_intervals);
    assert_eq!(a.audible_intervals, vec![span(0, 10), span(40, 50), span(80, 100)]);
}

#[test]
fn voiced_and_silence_cover_every_chunk_once() {
    let v = verdicts("SLSSLLLSSSLSLLSS");
    let voiced = find_voiced_segments(&v, 2, 1);
    let silence = retained_silence(&v, 2, 1);
    for i in 0..v.len() {
        let in_voiced = voiced.iter().filter(|r| r.start <= i && i < r.end).count();
        let in_silence = silence.iter().filter(|r| r.start <= i && i < r.end).count();
        assert_eq!(in_voiced + in_silence, 1);
    }
}

#[test]
fn voiced_ranges_ascend_with_gaps() {
    let v = verdicts("LSLSSLLSSSLSLLSSL");
    let voiced = find_voiced_segments(&v, 2, 0);
    assert_eq!(voiced, vec![run(0, 3), run(5, 7), run(10, 14), run(16, 17)]);
    for w in voiced.windows(2) {
        assert!(w[0].start < w[0].end);
        assert!(w[0].end < w[1].start);
    }
}

#[test]
fn intervals_scale_by_chunk_duration() {
    assert_eq!(runs_to_intervals(&vec![run(0, 2), run(5, 7)], 25), vec![span(0, 50), span(125, 175)]);
    assert_eq!(runs_to_intervals(&vec![run(3, 4)], u64::MAX), vec![span(3 * u64::MAX as u128, 4 * u64::MAX as u128)]);
}
