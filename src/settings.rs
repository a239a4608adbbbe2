use vstd::prelude::*;

verus! {

/// Tunable thresholds of one analysis.
///
/// `threshold` is a loudness in hundredths of a decibel relative to full scale; the three
/// durations are in milliseconds.
#[derive(Clone, Copy, Debug, PartialEq, Eq, Structural)]
pub struct AnalysisSettings {
    pub threshold: i64,
    pub min_silence_duration: i64,
    pub padding: i64,
    pub chunk_size: i64,
}

/// Why an analysis was refused.
#[derive(Clone, Copy, Debug, PartialEq, Eq, Structural)]
pub enum AnalysisError {
    /// A setting or the sample rate is out of range, or a chunk would hold no sample.
    InvalidConfiguration,
    /// The buffer holds no sample.
    EmptyInput,
}

/// The validated layout of one analysis, in chunks.
#[derive(Clone, Copy, Debug, PartialEq, Eq, Structural)]
pub struct ChunkPlan {
    /// Samples per chunk, at most the buffer's length; only the last chunk may be shorter.
    pub chunk_samples: usize,
    /// Number of chunks that cover the buffer.
    pub chunk_count: usize,
    /// Shortest silent run, in chunks, that is kept.
    pub min_silence_chunks: u64,
    /// Chunks added on each side of a kept silent run.
    pub padding_chunks: u64,
    /// Duration of one chunk in milliseconds.
    pub chunk_ms: u64,
    /// Loudness threshold in hundredths of a decibel.
    pub threshold: i64,
    /// Length of the buffer in samples.
    pub sample_count: usize,
}

/// `a / b` rounded up.
pub open spec fn ceil_div(a: int, b: int) -> int {
    if a % b == 0 { a / b } else { a / b + 1 }
}

/// Samples in a chunk of `chunk_ms` milliseconds at `rate` samples per second, rounded to
/// the nearest integer (halves up).
pub open spec fn rounded_chunk_samples(rate: int, chunk_ms: int) -> int {
    (rate * chunk_ms + 500) / 1000
}

/// The settings and the sample rate describe a usable chunking.
pub open spec fn config_valid(s: AnalysisSettings, rate: u32) -> bool {
    &&& s.chunk_size > 0
    &&& s.min_silence_duration >= 0
    &&& s.padding >= 0
    &&& rate > 0
    &&& rounded_chunk_samples(rate as int, s.chunk_size as int) >= 1
}

/// The plan that valid settings give for a non-empty buffer of `count` samples.
pub open spec fn plan_of(s: AnalysisSettings, rate: u32, count: usize) -> ChunkPlan {
    let c = rounded_chunk_samples(rate as int, s.chunk_size as int);
    let cs = if c < count { c } else { count as int };
    ChunkPlan {
        chunk_samples: cs as usize,
        chunk_count: ceil_div(count as int, cs) as usize,
        min_silence_chunks: ceil_div(s.min_silence_duration as int, s.chunk_size as int) as u64,
        padding_chunks: (s.padding / s.chunk_size) as u64,
        chunk_ms: s.chunk_size as u64,
        threshold: s.threshold,
        sample_count: count,
    }
}

impl ChunkPlan {
    /// The fields agree with one another as `new` sets them.
    pub open spec fn wf(&self) -> bool {
        &&& 1 <= self.chunk_samples <= self.sample_count
        &&& self.chunk_count == ceil_div(self.sample_count as int, self.chunk_samples as int)
    }

    /// Validates `settings` for a buffer of `sample_count` samples at `sample_rate`, and
    /// derives the chunk layout.
    pub fn new(settings: &AnalysisSettings, sample_rate: u32, sample_count: usize) -> (r: Result<ChunkPlan, AnalysisError>)
        ensures
            !config_valid(*settings, sample_rate) ==> r == Err::<ChunkPlan, AnalysisError>(AnalysisError::InvalidConfiguration),
            config_valid(*settings, sample_rate) && sample_count == 0 ==> r == Err::<ChunkPlan, AnalysisError>(AnalysisError::EmptyInput),
            config_valid(*settings, sample_rate) && sample_count > 0 ==> r == Ok::<ChunkPlan, AnalysisError>(plan_of(*settings, sample_rate, sample_count)),
            r matches Ok(p) ==> p.wf(),
    {
        if settings.chunk_size <= 0 || settings.min_silence_duration < 0 || settings.padding < 0 || sample_rate == 0 {
            return Err(AnalysisError::InvalidConfiguration);
        }
        let chunk = settings.chunk_size as u64;
        let rate_wide = sample_rate as u128;
        let chunk_wide = chunk as u128;
        assert(rate_wide * chunk_wide <= 0xffff_ffff * 0xffff_ffff_ffff_ffffu128) by (nonlinear_arith)
            requires
                rate_wide <= 0xffff_ffff,
                chunk_wide <= 0xffff_ffff_ffff_ffffu128,
        ;
        let rounded: u128 = (rate_wide * chunk_wide + 500) / 1000;
        if rounded == 0 {
            return Err(AnalysisError::InvalidConfiguration);
        }
        if sample_count == 0 {
            return Err(AnalysisError::EmptyInput);
        }
        let cs: usize = if rounded < sample_count as u128 { rounded as usize } else { sample_count };
        proof {
            if cs > 1 {
                vstd::arithmetic::div_mod::lemma_div_is_strictly_smaller(sample_count as int, cs as int);
            } else {
                assert(sample_count as int % 1 == 0);
            }
        }
        let chunk_count: usize = if sample_count % cs == 0 { sample_count / cs } else { sample_count / cs + 1 };
        let min_ms = settings.min_silence_duration as u64;
        let min_chunks: u64 = if min_ms % chunk == 0 { min_ms / chunk } else { min_ms / chunk + 1 };
        let padding_chunks: u64 = settings.padding as u64 / chunk;
        Ok(ChunkPlan {
            chunk_samples: cs,
            chunk_count,
            min_silence_chunks: min_chunks,
            padding_chunks,
            chunk_ms: chunk,
            threshold: settings.threshold,
            sample_count,
        })
    }

    /// Sample range `[start, end)` of chunk `i`.
    pub fn chunk_bounds(&self, i: usize) -> (r: (usize, usize))
        requires
            self.wf(),
            i < self.chunk_count,
        ensures
            r.0 == i * self.chunk_samples,
            r.1 == if r.0 + self.chunk_samples < self.sample_count { r.0 + self.chunk_samples } else { self.sample_count as int },
            r.0 < r.1,
    {
        let cs = self.chunk_samples;
        let n = self.sample_count;
        proof {
            let q = n as int / cs as int;
            let m = n as int % cs as int;
            vstd::arithmetic::div_mod::lemma_fundamental_div_mod(n as int, cs as int);
            assert(0 <= m < cs) by {
                vstd::arithmetic::div_mod::lemma_mod_bound(n as int, cs as int);
            }
            if m == 0 {
                assert(i + 1 <= q);
                assert((i + 1) * cs <= q * cs) by (nonlinear_arith)
                    requires i + 1 <= q, cs >= 1;
            } else {
                assert(i <= q);
                assert(i * cs <= q * cs) by (nonlinear_arith)
                    requires i <= q, cs >= 1;
            }
            assert(i * cs + cs == (i + 1) * cs) by (nonlinear_arith);
            assert(q * cs == cs * q) by (nonlinear_arith);
            assert(i * cs < n);
        }
        let start = i * cs;
        let end = if n - start > cs { start + cs } else { n };
        (start, end)
    }
}

} // verus!
