use vstd::prelude::*;
use crate::runs::{ordered_runs, lemma_runs_of_membership, Run};
use crate::segment::{find_voiced_segments, voiced_runs};
use crate::settings::ChunkPlan;

verus! {

/// A voiced span of the buffer, `[start_ms, end_ms)` in milliseconds from its start.
#[derive(Clone, Copy, Debug, PartialEq, Eq, Structural)]
pub struct TimeInterval {
    pub start_ms: u128,
    pub end_ms: u128,
}

/// The voiced spans of a buffer, in ascending order.
#[derive(Debug)]
pub struct AnalysisResult {
    pub audible_intervals: Vec<TimeInterval>,
}

/// A chunk is silent when its loudness is below the threshold; `None` stands for the
/// loudness of pure digital silence, below every threshold.
pub open spec fn silent_verdict(loudness: Option<i64>, threshold: i64) -> bool {
    match loudness {
        None => true,
        Some(l) => l < threshold,
    }
}

/// The silence verdict of each chunk.
pub open spec fn verdicts(loudness: Seq<Option<i64>>, threshold: i64) -> Seq<bool> {
    loudness.map_values(|l: Option<i64>| silent_verdict(l, threshold))
}

/// Chunk range `r` in milliseconds, for chunks of `chunk_ms` milliseconds.
pub open spec fn to_interval(r: Run, chunk_ms: u64) -> TimeInterval {
    TimeInterval { start_ms: (r.start * chunk_ms) as u128, end_ms: (r.end * chunk_ms) as u128 }
}

/// The voiced spans that `plan` gives for per-chunk loudness values `loudness`.
pub open spec fn analysis_of(plan: ChunkPlan, loudness: Seq<Option<i64>>) -> Seq<TimeInterval> {
    voiced_runs(verdicts(loudness, plan.threshold), plan.min_silence_chunks as int, plan.padding_chunks as int)
        .map_values(|r: Run| to_interval(r, plan.chunk_ms))
}

/// Whether a chunk of the given loudness (hundredths of a decibel) is silent.
pub fn is_silent(loudness: Option<i64>, threshold: i64) -> (r: bool)
    ensures
        r == silent_verdict(loudness, threshold),
{
    match loudness {
        None => true,
        Some(l) => l < threshold,
    }
}

/// The silence verdict of each chunk, in chunk order.
pub fn classify(loudness: &Vec<Option<i64>>, threshold: i64) -> (r: Vec<bool>)
    ensures
        r@ == verdicts(loudness@, threshold),
{
    let mut r: Vec<bool> = Vec::new();
    let mut i: usize = 0;
    while i < loudness.len()
        invariant
            i <= loudness@.len(),
            r@ =~= verdicts(loudness@, threshold).take(i as int),
        decreases loudness@.len() - i,
    {
        r.push(is_silent(loudness[i], threshold));
        i += 1;
        assert(r@ =~= verdicts(loudness@, threshold).take(i as int));
    }
    assert(verdicts(loudness@, threshold).take(i as int) =~= verdicts(loudness@, threshold));
    r
}

/// Converts ascending chunk ranges to milliseconds.
pub fn runs_to_intervals(runs: &Vec<Run>, chunk_ms: u64) -> (r: Vec<TimeInterval>)
    ensures
        r@ == runs@.map_values(|x: Run| to_interval(x, chunk_ms)),
{
    let mut r: Vec<TimeInterval> = Vec::new();
    let mut j: usize = 0;
    while j < runs.len()
        invariant
            j <= runs@.len(),
            r@ =~= runs@.map_values(|x: Run| to_interval(x, chunk_ms)).take(j as int),
        decreases runs@.len() - j,
    {
        let x = runs[j];
        let c = chunk_ms as u128;
        let s = x.start as u128;
        let e = x.end as u128;
        assert(s * c <= 0xffff_ffff_ffff_ffffu128 * 0xffff_ffff_ffff_ffffu128) by (nonlinear_arith)
            requires
                s <= 0xffff_ffff_ffff_ffffu128,
                c <= 0xffff_ffff_ffff_ffffu128,
        ;
        assert(e * c <= 0xffff_ffff_ffff_ffffu128 * 0xffff_ffff_ffff_ffffu128) by (nonlinear_arith)
            requires
                e <= 0xffff_ffff_ffff_ffffu128,
                c <= 0xffff_ffff_ffff_ffffu128,
        ;
        r.push(TimeInterval { start_ms: s * c, end_ms: e * c });
        j += 1;
        assert(r@ =~= runs@.map_values(|x: Run| to_interval(x, chunk_ms)).take(j as int));
    }
    assert(runs@.map_values(|x: Run| to_interval(x, chunk_ms)).take(j as int)
        =~= runs@.map_values(|x: Run| to_interval(x, chunk_ms)));
    r
}

/// Finds the voiced spans of a buffer from the loudness of each of its chunks.
///
/// Chunks below the threshold are silent; silent runs shorter than the plan's minimum
/// are dropped, the others widened by its padding and merged, and the chunks that remain
/// are reported as ascending, non-overlapping millisecond spans.
pub fn analyze(plan: &ChunkPlan, loudness: &Vec<Option<i64>>) -> (res: AnalysisResult)
    ensures
        res.audible_intervals@ == analysis_of(*plan, loudness@),
        plan.chunk_ms > 0 ==> forall|k: int| 0 <= k < res.audible_intervals@.len()
            ==> #[trigger] res.audible_intervals@[k].start_ms < res.audible_intervals@[k].end_ms,
        plan.chunk_ms > 0 ==> forall|k: int, l: int| 0 <= k < l < res.audible_intervals@.len()
            ==> #[trigger] res.audible_intervals@[k].end_ms < #[trigger] res.audible_intervals@[l].start_ms,
        forall|k: int| 0 <= k < res.audible_intervals@.len()
            ==> #[trigger] res.audible_intervals@[k].end_ms <= loudness@.len() * plan.chunk_ms,
{
    let silent = classify(loudness, plan.threshold);
    let runs = find_voiced_segments(&silent, plan.min_silence_chunks, plan.padding_chunks);
    let intervals = runs_to_intervals(&runs, plan.chunk_ms);
    proof {
        let n = loudness@.len() as int;
        let c = plan.chunk_ms as int;
        lemma_runs_of_membership(runs@, n, crate::segment::voiced_at(silent@, plan.min_silence_chunks as int, plan.padding_chunks as int));
        assert(ordered_runs(runs@, n));
        assert forall|k: int| 0 <= k < intervals@.len() implies #[trigger] intervals@[k].end_ms <= n * c
            && (c > 0 ==> intervals@[k].start_ms < intervals@[k].end_ms) by {
            let a = runs@[k].start as int;
            let b = runs@[k].end as int;
            assert(intervals@[k] == to_interval(runs@[k], plan.chunk_ms));
            assert(a < b && b <= n);
            assert(a * c <= 0xffff_ffff_ffff_ffff * 0xffff_ffff_ffff_ffff && b * c <= 0xffff_ffff_ffff_ffff * 0xffff_ffff_ffff_ffff) by (nonlinear_arith)
                requires 0 <= a <= 0xffff_ffff_ffff_ffff, 0 <= b <= 0xffff_ffff_ffff_ffff, 0 <= c <= 0xffff_ffff_ffff_ffff;
            assert(b * c <= n * c) by (nonlinear_arith)
                requires b <= n, c >= 0;
            if c > 0 {
                assert(a * c < b * c) by (nonlinear_arith)
                    requires a < b, c > 0;
            }
        }
        assert forall|k: int, l: int| c > 0 && 0 <= k < l < intervals@.len() implies
            #[trigger] intervals@[k].end_ms < #[trigger] intervals@[l].start_ms by {
            let a = runs@[k].end as int;
            let b = runs@[l].start as int;
            assert(intervals@[k] == to_interval(runs@[k], plan.chunk_ms));
            assert(intervals@[l] == to_interval(runs@[l], plan.chunk_ms));
            assert(a < b);
            assert(a * c <= 0xffff_ffff_ffff_ffff * 0xffff_ffff_ffff_ffff && b * c <= 0xffff_ffff_ffff_ffff * 0xffff_ffff_ffff_ffff) by (nonlinear_arith)
                requires 0 <= a <= 0xffff_ffff_ffff_ffff, 0 <= b <= 0xffff_ffff_ffff_ffff, 0 <= c <= 0xffff_ffff_ffff_ffff;
            assert(a * c < b * c) by (nonlinear_arith)
                requires a < b, c > 0;
        }
    }
    AnalysisResult { audible_intervals: intervals }
}

} // verus!
