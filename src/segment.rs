use vstd::prelude::*;
use crate::runs::{
    in_any, in_run, is_maximal_run, lemma_maximal_run_listed, lemma_runs_of_equiv, lemma_runs_of_membership, lemma_runs_of_extend_last, lemma_runs_of_push, lemma_runs_of_unique,
    ordered_runs, runs_of, seq_pred, Run,
};

verus! {

/// Groups consecutive silent chunks into runs.
///
/// The result lists, in ascending order, every maximal span of chunks flagged silent.
pub fn silent_runs(silent: &Vec<bool>) -> (rs: Vec<Run>)
    ensures
        runs_of(rs@, silent@.len() as int, seq_pred(silent@)),
{
    let n = silent.len();
    let ghost p = seq_pred(silent@);
    let mut rs: Vec<Run> = Vec::new();
    let mut cur: Option<usize> = None;
    let mut i: usize = 0;
    while i < n
        invariant
            i <= n,
            n == silent@.len(),
            p == seq_pred(silent@),
            forall|k: int| 0 <= k < rs@.len() ==> is_maximal_run(n as int, p, #[trigger] rs@[k].start as int, rs@[k].end as int),
            forall|k: int| 0 <= k < rs@.len() ==> #[trigger] rs@[k].end < i,
            forall|k: int, l: int| 0 <= k < l < rs@.len() ==> #[trigger] rs@[k].end < #[trigger] rs@[l].start,
            match cur {
                Some(s) => s < i && (forall|j: int| s <= j < i ==> silent@[j]) && (s == 0 || !silent@[s - 1])
                    && (forall|k: int| 0 <= k < rs@.len() ==> #[trigger] rs@[k].end < s),
                None => i == 0 || !silent@[i - 1],
            },
            forall|j: int| 0 <= j < i && #[trigger] silent@[j] ==> in_any(rs@, j) || (cur.is_some() && cur.unwrap() <= j),
        decreases n - i,
    {
        if silent[i] {
            if cur.is_none() {
                assert forall|k: int| 0 <= k < rs@.len() implies #[trigger] rs@[k].end < i by {
                    assert(is_maximal_run(n as int, p, rs@[k].start as int, rs@[k].end as int) && rs@[k].end < i);
                }
                cur = Some(i);
            }
        } else {
            if let Some(s) = cur {
                let ghost old_rs = rs@;
                assert forall|j: int| s <= j < i implies #[trigger] p(j) by {
                    assert(silent@[j]);
                }
                assert(is_maximal_run(n as int, p, s as int, i as int));
                rs.push(Run { start: s, end: i });
                assert(rs@[old_rs.len() as int] == Run { start: s, end: i });
                assert forall|k: int| 0 <= k < rs@.len() implies is_maximal_run(n as int, p, #[trigger] rs@[k].start as int, rs@[k].end as int)
                    && rs@[k].end < i + 1 by {
                    if k < old_rs.len() {
                        assert(rs@[k] == old_rs[k]);
                        assert(is_maximal_run(n as int, p, old_rs[k].start as int, old_rs[k].end as int));
                    }
                }
                assert forall|j: int| 0 <= j < i && #[trigger] silent@[j] implies in_any(rs@, j) by {
                    if s <= j {
                        assert(in_run(rs@[old_rs.len() as int], j));
                    } else {
                        assert(in_any(old_rs, j));
                        let k = choose|k: int| 0 <= k < old_rs.len() && #[trigger] in_run(old_rs[k], j);
                        assert(in_run(rs@[k], j));
                    }
                }
            }
            cur = None;
        }
        i += 1;
    }
    if let Some(s) = cur {
        let ghost old_rs = rs@;
        assert forall|j: int| s <= j < n implies #[trigger] p(j) by {
            assert(silent@[j]);
        }
        assert(is_maximal_run(n as int, p, s as int, n as int));
        rs.push(Run { start: s, end: n });
        assert(rs@[old_rs.len() as int] == Run { start: s, end: n });
        assert forall|k: int| 0 <= k < old_rs.len() implies rs@[k] == old_rs[k] by {}
        assert forall|j: int| 0 <= j < n && #[trigger] p(j) implies in_any(rs@, j) by {
            assert(silent@[j]);
            if s <= j {
                assert(in_run(rs@[old_rs.len() as int], j));
            } else {
                assert(in_any(old_rs, j));
                let k = choose|k: int| 0 <= k < old_rs.len() && #[trigger] in_run(old_rs[k], j);
                assert(in_run(rs@[k], j));
            }
        }
    } else {
        assert forall|j: int| 0 <= j < n && #[trigger] p(j) implies in_any(rs@, j) by {
            assert(silent@[j]);
        }
    }
    rs
}

/// First chunk of `r` once widened by `pad` chunks, held at 0.
pub open spec fn padded_start(r: Run, pad: int) -> int {
    if r.start - pad < 0 { 0 } else { r.start - pad }
}

/// End of `r` once widened by `pad` chunks, held at the chunk count `n`.
pub open spec fn padded_end(r: Run, pad: int, n: int) -> int {
    if r.end + pad > n { n } else { r.end + pad }
}

/// Run `r` lasts at least `min` chunks, and chunk `i` lies in it once widened by `pad`.
pub open spec fn pad_covers(r: Run, min: int, pad: int, n: int, i: int) -> bool {
    r.end - r.start >= min && padded_start(r, pad) <= i < padded_end(r, pad, n)
}

/// Chunk `i` lies in one of the first `k` runs of `rs` that are kept and widened.
pub open spec fn covered_by(rs: Seq<Run>, k: int, min: int, pad: int, n: int) -> spec_fn(int) -> bool {
    |i: int| exists|j: int| 0 <= j < k && #[trigger] pad_covers(rs[j], min, pad, n, i)
}

proof fn lemma_covered_step(rs: Seq<Run>, k: int, min: int, pad: int, n: int)
    requires
        0 <= k < rs.len(),
    ensures
        forall|i: int| #[trigger] covered_by(rs, k + 1, min, pad, n)(i)
            == (covered_by(rs, k, min, pad, n)(i) || pad_covers(rs[k], min, pad, n, i)),
{
    assert forall|i: int| #[trigger] covered_by(rs, k + 1, min, pad, n)(i)
        == (covered_by(rs, k, min, pad, n)(i) || pad_covers(rs[k], min, pad, n, i)) by {
        if covered_by(rs, k + 1, min, pad, n)(i) {
            let j = choose|j: int| 0 <= j < k + 1 && #[trigger] pad_covers(rs[j], min, pad, n, i);
            if j < k {
                assert(covered_by(rs, k, min, pad, n)(i));
            }
        }
        if covered_by(rs, k, min, pad, n)(i) {
            let j = choose|j: int| 0 <= j < k && #[trigger] pad_covers(rs[j], min, pad, n, i);
            assert(covered_by(rs, k + 1, min, pad, n)(i));
        }
        if pad_covers(rs[k], min, pad, n, i) {
            assert(covered_by(rs, k + 1, min, pad, n)(i));
        }
    }
}

/// Drops the silent runs shorter than `min_chunks`, widens the others by `pad_chunks`
/// on each side within `[0, total)`, and merges those that then overlap or touch.
///
/// The result lists, in ascending order, the maximal spans of chunks that some kept and
/// widened run covers.
pub fn pad_and_merge(runs: &Vec<Run>, min_chunks: u64, pad_chunks: u64, total: usize) -> (ms: Vec<Run>)
    requires
        ordered_runs(runs@, total as int),
    ensures
        runs_of(ms@, total as int, covered_by(runs@, runs@.len() as int, min_chunks as int, pad_chunks as int, total as int)),
{
    let ghost n = total as int;
    let ghost mn = min_chunks as int;
    let ghost pd = pad_chunks as int;
    let mut ms: Vec<Run> = Vec::new();
    let mut k: usize = 0;
    assert(runs_of(ms@, n, covered_by(runs@, 0, mn, pd, n))) by {
        assert forall|i: int| 0 <= i < n && #[trigger] covered_by(runs@, 0, mn, pd, n)(i) implies in_any(ms@, i) by {
            let j = choose|j: int| 0 <= j < 0 && #[trigger] pad_covers(runs@[j], mn, pd, n, i);
        }
    }
    while k < runs.len()
        invariant
            ordered_runs(runs@, n),
            n == total,
            mn == min_chunks,
            pd == pad_chunks,
            k <= runs@.len(),
            runs_of(ms@, n, covered_by(runs@, k as int, mn, pd, n)),
            ms@.len() > 0 && k < runs@.len() ==> ms@.last().start <= padded_start(runs@[k as int], pd)
                && ms@.last().end <= runs@[k as int].start + pd,
        decreases runs@.len() - k,
    {
        let r = runs[k];
        let ghost c0 = covered_by(runs@, k as int, mn, pd, n);
        let ghost c1 = covered_by(runs@, k as int + 1, mn, pd, n);
        proof {
            lemma_covered_step(runs@, k as int, mn, pd, n);
            assert(r.start < r.end && r.end <= total);
        }
        if (r.end - r.start) as u64 >= min_chunks {
            let ps: usize = if r.start as u64 >= pad_chunks { r.start - pad_chunks as usize } else { 0 };
            let pe: usize = if pad_chunks >= (total - r.end) as u64 { total } else { r.end + pad_chunks as usize };
            let padded = Run { start: ps, end: pe };
            assert(ps == padded_start(r, pd) && pe == padded_end(r, pd, n));
            assert forall|i: int| 0 <= i < n implies #[trigger] c1(i) == (c0(i) || in_run(padded, i)) by {
                assert(c1(i) == (c0(i) || pad_covers(r, mn, pd, n, i)));
            }
            let len = ms.len();
            if len > 0 && ps <= ms[len - 1].end {
                let last = ms[len - 1];
                let new_end: usize = if pe > last.end { pe } else { last.end };
                proof {
                    lemma_runs_of_extend_last(ms@, n, c0, c1, ps as int, new_end);
                }
                ms.set(len - 1, Run { start: last.start, end: new_end });
            } else {
                proof {
                    lemma_runs_of_push(ms@, n, c0, c1, padded);
                }
                ms.push(padded);
            }
        } else {
            proof {
                assert forall|i: int| 0 <= i < n implies #[trigger] c0(i) == c1(i) by {
                    assert(c1(i) == (c0(i) || pad_covers(r, mn, pd, n, i)));
                }
                lemma_runs_of_equiv(ms@, n, c0, c1);
            }
        }
        proof {
            if k + 1 < runs@.len() {
                assert(runs@[k as int].end < runs@[k + 1].start);
            }
        }
        k += 1;
    }
    ms
}

/// The predicate "chunk `i` lies in none of the runs of `rs`".
pub open spec fn outside_all(rs: Seq<Run>) -> spec_fn(int) -> bool {
    |i: int| !in_any(rs, i)
}

/// Lists the gaps that the ordered runs `ms` leave within `[0, total)`.
///
/// The result lists, in ascending order, the maximal spans of chunks that no run of `ms`
/// contains.
pub fn invert(ms: &Vec<Run>, total: usize) -> (gaps: Vec<Run>)
    requires
        ordered_runs(ms@, total as int),
    ensures
        runs_of(gaps@, total as int, outside_all(ms@)),
{
    let ghost n = total as int;
    let ghost q = outside_all(ms@);
    let mut gaps: Vec<Run> = Vec::new();
    let mut last_end: usize = 0;
    let mut k: usize = 0;
    while k < ms.len()
        invariant
            ordered_runs(ms@, n),
            n == total,
            q == outside_all(ms@),
            k <= ms@.len(),
            last_end == if k == 0 { 0 } else { ms@[k - 1].end as int },
            last_end <= n,
            forall|t: int| 0 <= t < gaps@.len() ==> is_maximal_run(n, q, #[trigger] gaps@[t].start as int, gaps@[t].end as int),
            forall|t: int| 0 <= t < gaps@.len() ==> #[trigger] gaps@[t].end < last_end,
            forall|t: int, u: int| 0 <= t < u < gaps@.len() ==> #[trigger] gaps@[t].end < #[trigger] gaps@[u].start,
            forall|i: int| 0 <= i < last_end && #[trigger] q(i) ==> in_any(gaps@, i),
        decreases ms@.len() - k,
    {
        let r = ms[k];
        proof {
            assert(r == ms@[k as int]);
            assert(ms@[k as int].start < ms@[k as int].end && ms@[k as int].end <= n);
            if k > 0 {
                assert(ms@[k - 1].end < ms@[k as int].start);
            }
        }
        assert forall|i: int| last_end <= i < r.start implies #[trigger] q(i) by {
            if in_any(ms@, i) {
                let j = choose|j: int| 0 <= j < ms@.len() && #[trigger] in_run(ms@[j], i);
                if j < k {
                    if j < k - 1 {
                        assert(ms@[j].end < ms@[k - 1].start);
                    }
                    assert(ms@[k - 1].start < ms@[k - 1].end);
                } else if j > k {
                    assert(ms@[k as int].end < ms@[j].start);
                }
            }
        }
        assert forall|i: int| r.start <= i < r.end implies !#[trigger] q(i) by {
            assert(in_run(ms@[k as int], i));
        }
        if r.start > last_end {
            let ghost old_gaps = gaps@;
            let g = Run { start: last_end, end: r.start };
            proof {
                if last_end > 0 {
                    assert(!q(last_end - 1)) by {
                        assert(in_run(ms@[k - 1], last_end - 1));
                    }
                }
                assert(!q(r.start as int));
                assert(is_maximal_run(n, q, g.start as int, g.end as int));
            }
            gaps.push(g);
            proof {
                assert forall|t: int| 0 <= t < gaps@.len() implies is_maximal_run(n, q, #[trigger] gaps@[t].start as int, gaps@[t].end as int) by {
                    if t < old_gaps.len() {
                        assert(gaps@[t] == old_gaps[t]);
                    }
                }
                assert forall|i: int| 0 <= i < r.end && #[trigger] q(i) implies in_any(gaps@, i) by {
                    if i < last_end {
                        let t = choose|t: int| 0 <= t < old_gaps.len() && #[trigger] in_run(old_gaps[t], i);
                        assert(in_run(gaps@[t], i));
                    } else {
                        assert(in_run(gaps@[old_gaps.len() as int], i));
                    }
                }
            }
        }
        last_end = r.end;
        k += 1;
    }
    assert forall|i: int| last_end <= i < n implies #[trigger] q(i) by {
        if in_any(ms@, i) {
            let j = choose|j: int| 0 <= j < ms@.len() && #[trigger] in_run(ms@[j], i);
            if j < k - 1 {
                assert(ms@[j].end < ms@[k - 1].start);
            }
            assert(ms@[k - 1].start < ms@[k - 1].end);
        }
    }
    if last_end < total {
        let ghost old_gaps = gaps@;
        let g = Run { start: last_end, end: total };
        proof {
            if last_end > 0 {
                assert(!q(last_end - 1)) by {
                    assert(in_run(ms@[k - 1], last_end - 1));
                }
            }
            assert(is_maximal_run(n, q, g.start as int, g.end as int));
        }
        gaps.push(g);
        proof {
            assert forall|t: int| 0 <= t < gaps@.len() implies is_maximal_run(n, q, #[trigger] gaps@[t].start as int, gaps@[t].end as int) by {
                if t < old_gaps.len() {
                    assert(gaps@[t] == old_gaps[t]);
                }
            }
            assert forall|i: int| 0 <= i < n && #[trigger] q(i) implies in_any(gaps@, i) by {
                if i < last_end {
                    let t = choose|t: int| 0 <= t < old_gaps.len() && #[trigger] in_run(old_gaps[t], i);
                    assert(in_run(gaps@[t], i));
                } else {
                    assert(in_run(gaps@[old_gaps.len() as int], i));
                }
            }
        }
    }
    gaps
}

/// Chunk `i` is within `pad` chunks of a maximal silent run of `v` that lasts at least
/// `min` chunks.
pub open spec fn silence_covers(v: Seq<bool>, min: int, pad: int) -> spec_fn(int) -> bool {
    |i: int|
        exists|a: int, b: int|
            #[trigger] is_maximal_run(v.len() as int, seq_pred(v), a, b) && b - a >= min && a - pad <= i < b + pad
}

/// Chunk `i` is voiced: no long enough silent run, widened by `pad`, reaches it.
pub open spec fn voiced_at(v: Seq<bool>, min: int, pad: int) -> spec_fn(int) -> bool {
    |i: int| !silence_covers(v, min, pad)(i)
}

proof fn lemma_covered_is_silence(rs: Seq<Run>, v: Seq<bool>, min: int, pad: int)
    requires
        runs_of(rs, v.len() as int, seq_pred(v)),
    ensures
        forall|i: int| 0 <= i < v.len() ==> #[trigger] covered_by(rs, rs.len() as int, min, pad, v.len() as int)(i)
            == silence_covers(v, min, pad)(i),
{
    let n = v.len() as int;
    assert forall|i: int| 0 <= i < n implies #[trigger] covered_by(rs, rs.len() as int, min, pad, n)(i)
        == silence_covers(v, min, pad)(i) by {
        if covered_by(rs, rs.len() as int, min, pad, n)(i) {
            let j = choose|j: int| 0 <= j < rs.len() && #[trigger] pad_covers(rs[j], min, pad, n, i);
            assert(is_maximal_run(n, seq_pred(v), rs[j].start as int, rs[j].end as int));
        }
        if silence_covers(v, min, pad)(i) {
            let (a, b) = choose|a: int, b: int|
                #[trigger] is_maximal_run(n, seq_pred(v), a, b) && b - a >= min && a - pad <= i < b + pad;
            lemma_maximal_run_listed(rs, n, seq_pred(v), a, b);
            let j = choose|j: int| 0 <= j < rs.len() && #[trigger] rs[j].start == a && rs[j].end == b;
            assert(pad_covers(rs[j], min, pad, n, i));
        }
    }
}

/// The silence that survives: silent runs of at least `min_chunks` chunks, widened by
/// `pad_chunks` on each side and merged where they meet.
pub fn retained_silence(silent: &Vec<bool>, min_chunks: u64, pad_chunks: u64) -> (ms: Vec<Run>)
    ensures
        runs_of(ms@, silent@.len() as int, silence_covers(silent@, min_chunks as int, pad_chunks as int)),
{
    let rs = silent_runs(silent);
    proof {
        lemma_runs_of_membership(rs@, silent@.len() as int, seq_pred(silent@));
    }
    let ms = pad_and_merge(&rs, min_chunks, pad_chunks, silent.len());
    proof {
        lemma_covered_is_silence(rs@, silent@, min_chunks as int, pad_chunks as int);
        lemma_runs_of_equiv(
            ms@,
            silent@.len() as int,
            covered_by(rs@, rs@.len() as int, min_chunks as int, pad_chunks as int, silent@.len() as int),
            silence_covers(silent@, min_chunks as int, pad_chunks as int),
        );
    }
    ms
}

/// The voiced chunk ranges of verdicts `v`: the one decomposition of the voiced chunks into
/// maximal runs.
pub open spec fn voiced_runs(v: Seq<bool>, min: int, pad: int) -> Seq<Run> {
    choose|r: Seq<Run>| runs_of(r, v.len() as int, voiced_at(v, min, pad))
}

/// The voiced chunk ranges of a sequence of per-chunk silence verdicts.
///
/// The result lists, in ascending order and with a gap between each two, the maximal
/// spans of chunks that the retained silence leaves uncovered.
pub fn find_voiced_segments(silent: &Vec<bool>, min_chunks: u64, pad_chunks: u64) -> (r: Vec<Run>)
    ensures
        runs_of(r@, silent@.len() as int, voiced_at(silent@, min_chunks as int, pad_chunks as int)),
        r@ == voiced_runs(silent@, min_chunks as int, pad_chunks as int),
{
    let ghost n = silent@.len() as int;
    let ghost c = silence_covers(silent@, min_chunks as int, pad_chunks as int);
    let ms = retained_silence(silent, min_chunks, pad_chunks);
    proof {
        lemma_runs_of_membership(ms@, n, c);
    }
    let r = invert(&ms, silent.len());
    proof {
        let vp = voiced_at(silent@, min_chunks as int, pad_chunks as int);
        lemma_runs_of_equiv(r@, n, outside_all(ms@), vp);
        let chosen = voiced_runs(silent@, min_chunks as int, pad_chunks as int);
        assert(runs_of(chosen, n, vp));
        lemma_runs_of_unique(r@, chosen, n, vp);
    }
    r
}

} // verus!
