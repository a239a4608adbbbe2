use vstd::prelude::*;

verus! {

/// A half-open interval `[start, end)` of chunk indices.
#[derive(Clone, Copy, Debug, PartialEq, Eq, Structural)]
pub struct Run {
    pub start: usize,
    pub end: usize,
}

/// Chunk `i` lies inside run `r`.
pub open spec fn in_run(r: Run, i: int) -> bool {
    r.start <= i < r.end
}

/// Chunk `i` lies inside one of the runs of `rs`.
pub open spec fn in_any(rs: Seq<Run>, i: int) -> bool {
    exists|k: int| 0 <= k < rs.len() && #[trigger] in_run(rs[k], i)
}

/// The predicate "chunk `i` is flagged" read off a sequence of flags.
pub open spec fn seq_pred(v: Seq<bool>) -> spec_fn(int) -> bool {
    |i: int| v[i]
}

/// `[s, e)` is a maximal non-empty span of `[0, n)` on which `p` holds.
pub open spec fn is_maximal_run(n: int, p: spec_fn(int) -> bool, s: int, e: int) -> bool {
    &&& 0 <= s < e <= n
    &&& forall|i: int| s <= i < e ==> #[trigger] p(i)
    &&& s == 0 || !p(s - 1)
    &&& e == n || !p(e)
}

/// Non-empty runs inside `[0, n)`, in ascending order, none touching the next.
pub open spec fn ordered_runs(rs: Seq<Run>, n: int) -> bool {
    &&& forall|k: int| 0 <= k < rs.len() ==> #[trigger] rs[k].start < rs[k].end && rs[k].end <= n
    &&& forall|k: int, l: int| 0 <= k < l < rs.len() ==> #[trigger] rs[k].end < #[trigger] rs[l].start
}

/// `rs` lists, in ascending order, exactly the maximal runs of `p` within `[0, n)`.
pub open spec fn runs_of(rs: Seq<Run>, n: int, p: spec_fn(int) -> bool) -> bool {
    &&& forall|k: int| 0 <= k < rs.len() ==> is_maximal_run(n, p, #[trigger] rs[k].start as int, rs[k].end as int)
    &&& forall|k: int, l: int| 0 <= k < l < rs.len() ==> #[trigger] rs[k].end < #[trigger] rs[l].start
    &&& forall|i: int| 0 <= i < n && #[trigger] p(i) ==> in_any(rs, i)
}

/// Runs of a decomposition are ordered, and a chunk is in one of them exactly when `p` holds.
pub proof fn lemma_runs_of_membership(rs: Seq<Run>, n: int, p: spec_fn(int) -> bool)
    requires
        runs_of(rs, n, p),
    ensures
        ordered_runs(rs, n),
        forall|i: int| 0 <= i < n ==> (#[trigger] p(i) <==> in_any(rs, i)),
{
    assert forall|k: int| 0 <= k < rs.len() implies #[trigger] rs[k].start < rs[k].end && rs[k].end <= n by {
        assert(is_maximal_run(n, p, rs[k].start as int, rs[k].end as int));
    }
    assert forall|i: int| 0 <= i < n && in_any(rs, i) implies #[trigger] p(i) by {
        let k = choose|k: int| 0 <= k < rs.len() && #[trigger] in_run(rs[k], i);
        assert(is_maximal_run(n, p, rs[k].start as int, rs[k].end as int));
    }
}

/// A decomposition stays one when the predicate is replaced by an equal one on `[0, n)`.
pub proof fn lemma_runs_of_equiv(rs: Seq<Run>, n: int, p: spec_fn(int) -> bool, q: spec_fn(int) -> bool)
    requires
        runs_of(rs, n, p),
        forall|i: int| 0 <= i < n ==> #[trigger] p(i) == q(i),
    ensures
        runs_of(rs, n, q),
{
    assert forall|k: int| 0 <= k < rs.len() implies is_maximal_run(n, q, #[trigger] rs[k].start as int, rs[k].end as int) by {
        let s = rs[k].start as int;
        let e = rs[k].end as int;
        assert(is_maximal_run(n, p, s, e));
        assert forall|i: int| s <= i < e implies #[trigger] q(i) by {
            assert(p(i));
        }
        if s != 0 {
            assert(p(s - 1) == q(s - 1));
        }
        if e != n {
            assert(p(e) == q(e));
        }
    }
    assert forall|i: int| 0 <= i < n && #[trigger] q(i) implies in_any(rs, i) by {
        assert(p(i));
    }
}

/// Every maximal run of `p` appears in a decomposition of `p`.
pub proof fn lemma_maximal_run_listed(rs: Seq<Run>, n: int, p: spec_fn(int) -> bool, s: int, e: int)
    requires
        runs_of(rs, n, p),
        is_maximal_run(n, p, s, e),
    ensures
        exists|j: int| 0 <= j < rs.len() && #[trigger] rs[j].start == s && rs[j].end == e,
{
    assert(p(s));
    let j = choose|j: int| 0 <= j < rs.len() && #[trigger] in_run(rs[j], s);
    let a = rs[j].start as int;
    let b = rs[j].end as int;
    assert(is_maximal_run(n, p, a, b));
    if a < s {
        assert(p(s - 1));
    }
    if b < e {
        assert(p(b));
    }
    if b > e {
        assert(p(e));
    }
    assert(rs[j].start == s && rs[j].end == e);
}

proof fn lemma_unique_at(a: Seq<Run>, b: Seq<Run>, n: int, p: spec_fn(int) -> bool, k: int)
    requires
        runs_of(a, n, p),
        runs_of(b, n, p),
        0 <= k < a.len(),
    ensures
        k < b.len(),
        a[k] == b[k],
    decreases k,
{
    if k > 0 {
        lemma_unique_at(a, b, n, p, k - 1);
    }
    assert(is_maximal_run(n, p, a[k].start as int, a[k].end as int));
    lemma_maximal_run_listed(b, n, p, a[k].start as int, a[k].end as int);
    let l = choose|j: int| 0 <= j < b.len() && #[trigger] b[j].start == a[k].start && b[j].end == a[k].end;
    if l < k {
        assert(b[l].end < b[k - 1].start || l == k - 1);
        assert(a[k - 1].end < a[k].start);
        assert(false);
    }
    if l > k {
        assert(is_maximal_run(n, p, b[k].start as int, b[k].end as int));
        lemma_maximal_run_listed(a, n, p, b[k].start as int, b[k].end as int);
        let m = choose|j: int| 0 <= j < a.len() && #[trigger] a[j].start == b[k].start && a[j].end == b[k].end;
        if m < k {
            assert(a[m].end < a[k - 1].start || m == k - 1);
            assert(b[k - 1].end < b[k].start);
            assert(false);
        }
        if m > k {
            assert(a[k].start < a[m].start);
            assert(b[k].start < b[l].start);
            assert(false);
        }
        assert(b[k].end < b[l].start);
        assert(false);
    }
}

/// A predicate has a single decomposition into maximal runs.
pub proof fn lemma_runs_of_unique(a: Seq<Run>, b: Seq<Run>, n: int, p: spec_fn(int) -> bool)
    requires
        runs_of(a, n, p),
        runs_of(b, n, p),
    ensures
        a == b,
{
    if a.len() > b.len() {
        lemma_unique_at(a, b, n, p, b.len() as int);
    }
    if b.len() > a.len() {
        lemma_unique_at(b, a, n, p, a.len() as int);
    }
    assert forall|k: int| 0 <= k < a.len() implies a[k] == b[k] by {
        lemma_unique_at(a, b, n, p, k);
    }
    assert(a =~= b);
}

/// Adding a span that starts past every run extends a decomposition by one run.
pub proof fn lemma_runs_of_push(ms: Seq<Run>, n: int, p: spec_fn(int) -> bool, q: spec_fn(int) -> bool, r: Run)
    requires
        runs_of(ms, n, p),
        r.start < r.end <= n,
        ms.len() == 0 || ms.last().end < r.start,
        forall|i: int| 0 <= i < n ==> #[trigger] q(i) == (p(i) || in_run(r, i)),
    ensures
        runs_of(ms.push(r), n, q),
{
    lemma_runs_of_membership(ms, n, p);
    let s = r.start as int;
    let e = r.end as int;
    let ms2 = ms.push(r);
    assert forall|i: int| 0 <= i < n && #[trigger] p(i) implies ms.len() > 0 && i < ms.last().end by {
        assert(in_any(ms, i));
        let t = choose|t: int| 0 <= t < ms.len() && #[trigger] in_run(ms[t], i);
        if t < ms.len() - 1 {
            assert(ms[t].end < ms[ms.len() - 1].start);
        }
    }
    assert forall|k: int| 0 <= k < ms2.len() implies is_maximal_run(n, q, #[trigger] ms2[k].start as int, ms2[k].end as int) by {
        if k < ms.len() {
            assert(ms2[k] == ms[k]);
            let a = ms[k].start as int;
            let b = ms[k].end as int;
            assert(is_maximal_run(n, p, a, b));
            assert forall|i: int| a <= i < b implies #[trigger] q(i) by {
                assert(p(i));
            }
            if k < ms.len() - 1 {
                assert(ms[k].end < ms[ms.len() - 1].start);
            }
            if b != n {
                assert(!q(b));
            }
        } else {
            assert(ms2[k] == r);
            assert forall|i: int| s <= i < e implies #[trigger] q(i) by {}
            if s != 0 {
                assert(!p(s - 1));
                assert(!q(s - 1));
            }
            if e != n {
                assert(!p(e));
                assert(!q(e));
            }
        }
    }
    assert forall|k: int, l: int| 0 <= k < l < ms2.len() implies #[trigger] ms2[k].end < #[trigger] ms2[l].start by {
        if l == ms.len() {
            if k < ms.len() - 1 {
                assert(ms[k].end < ms[ms.len() - 1].start);
            }
        }
    }
    assert forall|i: int| 0 <= i < n && #[trigger] q(i) implies in_any(ms2, i) by {
        if p(i) {
            let t = choose|t: int| 0 <= t < ms.len() && #[trigger] in_run(ms[t], i);
            assert(in_run(ms2[t], i));
        } else {
            assert(in_run(ms2[ms.len() as int], i));
        }
    }
}

/// Adding a span that starts inside or right after the last run stretches that run.
pub proof fn lemma_runs_of_extend_last(ms: Seq<Run>, n: int, p: spec_fn(int) -> bool, q: spec_fn(int) -> bool, s: int, e: usize)
    requires
        runs_of(ms, n, p),
        ms.len() > 0,
        ms.last().start <= s <= ms.last().end <= e <= n,
        forall|i: int| 0 <= i < n ==> #[trigger] q(i) == (p(i) || s <= i < e),
    ensures
        runs_of(ms.update(ms.len() - 1, Run { start: ms.last().start, end: e }), n, q),
{
    lemma_runs_of_membership(ms, n, p);
    let last = ms.len() - 1;
    let r = Run { start: ms.last().start, end: e };
    let ms2 = ms.update(last, r);
    let le = ms.last().end as int;
    assert forall|i: int| 0 <= i < n && #[trigger] p(i) implies i < le by {
        assert(in_any(ms, i));
        let t = choose|t: int| 0 <= t < ms.len() && #[trigger] in_run(ms[t], i);
        if t < last {
            assert(ms[t].end < ms[last].start);
        }
    }
    assert forall|k: int| 0 <= k < ms2.len() implies is_maximal_run(n, q, #[trigger] ms2[k].start as int, ms2[k].end as int) by {
        let a = ms[k].start as int;
        let b = ms[k].end as int;
        assert(is_maximal_run(n, p, a, b));
        if k < last {
            assert(ms2[k] == ms[k]);
            assert forall|i: int| a <= i < b implies #[trigger] q(i) by {
                assert(p(i));
            }
            assert(ms[k].end < ms[last].start);
            if a != 0 {
                assert(!q(a - 1));
            }
            if b != n {
                assert(!q(b));
            }
        } else {
            assert(ms2[k] == r);
            assert forall|i: int| a <= i < e implies #[trigger] q(i) by {
                if i < b {
                    assert(p(i));
                }
            }
            if a != 0 {
                assert(!q(a - 1));
            }
            if e != n {
                assert(!q(e as int));
            }
        }
    }
    assert forall|k: int, l: int| 0 <= k < l < ms2.len() implies #[trigger] ms2[k].end < #[trigger] ms2[l].start by {
        assert(ms[k].end < ms[l].start);
    }
    assert forall|i: int| 0 <= i < n && #[trigger] q(i) implies in_any(ms2, i) by {
        if p(i) {
            let t = choose|t: int| 0 <= t < ms.len() && #[trigger] in_run(ms[t], i);
            assert(in_run(ms2[t], i));
        } else {
            assert(in_run(ms2[last], i));
        }
    }
}

} // verus!
