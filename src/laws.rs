use vstd::prelude::*;
use crate::analysis::{analysis_of, silent_verdict, to_interval, verdicts, TimeInterval};
use crate::runs::{
    in_any, in_run, is_maximal_run, lemma_runs_of_membership, lemma_runs_of_unique, ordered_runs, runs_of, seq_pred, Run,
};
use crate::segment::{silence_covers, voiced_at, voiced_runs};
use crate::settings::ChunkPlan;

verus! {

/// Segmentation is deterministic: two chunk-range lists that both describe the voiced
/// chunks of the same verdicts under the same settings are the same list.
pub proof fn lemma_voiced_unique(v: Seq<bool>, min: int, pad: int, a: Seq<Run>, b: Seq<Run>)
    requires
        runs_of(a, v.len() as int, voiced_at(v, min, pad)),
        runs_of(b, v.len() as int, voiced_at(v, min, pad)),
    ensures
        a == b,
{
    lemma_runs_of_unique(a, b, v.len() as int, voiced_at(v, min, pad));
}

/// The voiced ranges and the retained silent ranges together cover every chunk exactly
/// once, and nothing outside the buffer.
pub proof fn lemma_voiced_and_silence_partition(v: Seq<bool>, min: int, pad: int, voiced: Seq<Run>, silence: Seq<Run>)
    requires
        runs_of(voiced, v.len() as int, voiced_at(v, min, pad)),
        runs_of(silence, v.len() as int, silence_covers(v, min, pad)),
    ensures
        forall|i: int| 0 <= i < v.len() ==> #[trigger] in_any(voiced, i) != in_any(silence, i),
        forall|i: int| in_any(voiced, i) || in_any(silence, i) ==> 0 <= i < v.len(),
{
    let n = v.len() as int;
    lemma_runs_of_membership(voiced, n, voiced_at(v, min, pad));
    lemma_runs_of_membership(silence, n, silence_covers(v, min, pad));
    assert forall|i: int| 0 <= i < n implies #[trigger] in_any(voiced, i) != in_any(silence, i) by {
        assert(voiced_at(v, min, pad)(i) == !silence_covers(v, min, pad)(i));
    }
    assert forall|i: int| in_any(voiced, i) || in_any(silence, i) implies 0 <= i < n by {
        if in_any(voiced, i) {
            let k = choose|k: int| 0 <= k < voiced.len() && #[trigger] in_run(voiced[k], i);
            assert(voiced[k].start < voiced[k].end && voiced[k].end <= n);
        } else {
            let k = choose|k: int| 0 <= k < silence.len() && #[trigger] in_run(silence[k], i);
            assert(silence[k].start < silence[k].end && silence[k].end <= n);
        }
    }
}

/// Voiced ranges are non-empty, lie within the buffer, and ascend strictly with a gap
/// between each two.
pub proof fn lemma_voiced_ordered(v: Seq<bool>, min: int, pad: int, voiced: Seq<Run>)
    requires
        runs_of(voiced, v.len() as int, voiced_at(v, min, pad)),
    ensures
        ordered_runs(voiced, v.len() as int),
{
    lemma_runs_of_membership(voiced, v.len() as int, voiced_at(v, min, pad));
}

/// A buffer whose chunks are all digital silence has no voiced span, once the minimum
/// silence fits in the buffer.
pub proof fn lemma_all_silent(plan: ChunkPlan, loudness: Seq<Option<i64>>)
    requires
        loudness.len() > 0,
        forall|i: int| 0 <= i < loudness.len() ==> #[trigger] loudness[i] == None::<i64>,
        plan.min_silence_chunks <= loudness.len(),
    ensures
        analysis_of(plan, loudness) == Seq::<TimeInterval>::empty(),
{
    let v = verdicts(loudness, plan.threshold);
    let n = v.len() as int;
    let min = plan.min_silence_chunks as int;
    let pad = plan.padding_chunks as int;
    let q = voiced_at(v, min, pad);
    assert forall|i: int| 0 <= i < n implies #[trigger] seq_pred(v)(i) by {
        assert(loudness[i] == None::<i64>);
        assert(silent_verdict(loudness[i], plan.threshold));
    }
    assert(is_maximal_run(n, seq_pred(v), 0, n));
    assert forall|i: int| 0 <= i < n implies !#[trigger] q(i) by {
        assert(is_maximal_run(n, seq_pred(v), 0, n) && n - 0 >= min && 0 - pad <= i < n + pad);
    }
    let e = Seq::<Run>::empty();
    assert(runs_of(e, n, q));
    let r = voiced_runs(v, min, pad);
    assert(runs_of(r, n, q));
    lemma_runs_of_unique(r, e, n, q);
    assert(analysis_of(plan, loudness) =~= Seq::<TimeInterval>::empty());
}

/// A buffer whose chunks are all at or above the threshold is one voiced span from the
/// start to the end.
pub proof fn lemma_all_loud(plan: ChunkPlan, loudness: Seq<Option<i64>>)
    requires
        0 < loudness.len() <= usize::MAX,
        forall|i: int| 0 <= i < loudness.len() ==> !silent_verdict(#[trigger] loudness[i], plan.threshold),
    ensures
        analysis_of(plan, loudness) == seq![to_interval(Run { start: 0, end: loudness.len() as usize }, plan.chunk_ms)],
{
    let v = verdicts(loudness, plan.threshold);
    let n = v.len() as int;
    let min = plan.min_silence_chunks as int;
    let pad = plan.padding_chunks as int;
    let q = voiced_at(v, min, pad);
    assert forall|i: int| 0 <= i < n implies !#[trigger] seq_pred(v)(i) by {
        assert(!silent_verdict(loudness[i], plan.threshold));
    }
    assert forall|i: int| 0 <= i < n implies #[trigger] q(i) by {
        if silence_covers(v, min, pad)(i) {
            let (a, b) = choose|a: int, b: int|
                #[trigger] is_maximal_run(n, seq_pred(v), a, b) && b - a >= min && a - pad <= i < b + pad;
            assert(seq_pred(v)(a));
        }
    }
    let whole = Run { start: 0, end: loudness.len() as usize };
    let w = seq![whole];
    assert(w[0] == whole);
    assert(is_maximal_run(n, q, 0, n));
    assert forall|i: int| 0 <= i < n && #[trigger] q(i) implies in_any(w, i) by {
        assert(in_run(w[0], i));
    }
    assert(runs_of(w, n, q));
    let r = voiced_runs(v, min, pad);
    assert(runs_of(r, n, q));
    lemma_runs_of_unique(r, w, n, q);
    assert(analysis_of(plan, loudness) =~= seq![to_interval(whole, plan.chunk_ms)]);
}

} // verus!
