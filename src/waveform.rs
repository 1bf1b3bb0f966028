use vstd::prelude::*;

use crate::consts::SAMPLES;

verus! {

/// A fixed-length buffer of signed 16-bit PCM samples.
pub struct Waveform {
    pub samples: Vec<i16>,
}

/// Sum of the samples at index `i` over all buffers of `ws`.
pub open spec fn column_sum(ws: Seq<Waveform>, i: int) -> int
    decreases ws.len(),
{
    if ws.len() == 0 {
        0
    } else {
        column_sum(ws.drop_last(), i) + ws.last().samples@[i]
    }
}

/// Integer division rounding toward zero, as Rust's `/` does.
pub open spec fn trunc_div(a: int, n: int) -> int {
    if a >= 0 {
        a / n
    } else {
        -((-a) / n)
    }
}

/// The mixed sample at index `i`: the column sum divided by the number of buffers.
pub open spec fn mix_at(ws: Seq<Waveform>, i: int) -> int {
    trunc_div(column_sum(ws, i), ws.len() as int)
}

/// Every buffer of `ws` has the fixed length.
pub open spec fn all_wf(ws: Seq<Waveform>) -> bool {
    forall|k: int| 0 <= k < ws.len() ==> (#[trigger] ws[k]).wf()
}

proof fn lemma_column_sum_bounds(ws: Seq<Waveform>, i: int)
    requires
        all_wf(ws),
        0 <= i < SAMPLES,
    ensures
        -32768 * ws.len() <= column_sum(ws, i) <= 32767 * ws.len(),
    decreases ws.len(),
{
    if ws.len() > 0 {
        let init = ws.drop_last();
        assert(all_wf(init)) by {
            assert forall|k: int| 0 <= k < init.len() implies (#[trigger] init[k]).wf() by {
                assert(init[k] == ws[k]);
            }
        }
        lemma_column_sum_bounds(init, i);
        assert(ws.last() == ws[ws.len() - 1]);
    }
}

proof fn lemma_trunc_div_bounds(a: int, n: int)
    requires
        n > 0,
        -32768 * n <= a <= 32767 * n,
    ensures
        -32768 <= trunc_div(a, n) <= 32767,
{
    if a >= 0 {
        assert(a / n <= 32767) by (nonlinear_arith)
            requires a <= 32767 * n, n > 0, a >= 0;
        assert(a / n >= 0) by (nonlinear_arith)
            requires n > 0, a >= 0;
    } else {
        assert((-a) / n <= 32768) by (nonlinear_arith)
            requires -a <= 32768 * n, n > 0, -a >= 0;
        assert((-a) / n >= 0) by (nonlinear_arith)
            requires n > 0, -a >= 0;
    }
}

impl Waveform {
    /// The buffer has exactly the fixed number of samples.
    pub open spec fn wf(&self) -> bool {
        self.samples@.len() == SAMPLES
    }

    /// A silent buffer.
    pub fn zero() -> (r: Waveform)
        ensures
            r.wf(),
            forall|i: int| 0 <= i < SAMPLES ==> r.samples@[i] == 0,
    {
        let mut samples: Vec<i16> = Vec::new();
        let mut i: usize = 0;
        while i < SAMPLES
            invariant
                i <= SAMPLES,
                samples@.len() == i,
                forall|j: int| 0 <= j < i ==> samples@[j] == 0,
            decreases SAMPLES - i,
        {
            samples.push(0);
            i += 1;
        }
        Waveform { samples }
    }

    /// Mixes buffers: each sample is the sum of the inputs' samples at that
    /// index divided by the number of inputs, rounding toward zero.
    pub fn combine(waveforms: Vec<Waveform>) -> (r: Waveform)
        requires
            0 < waveforms@.len() <= u32::MAX,
            all_wf(waveforms@),
        ensures
            r.wf(),
            forall|i: int| 0 <= i < SAMPLES ==> r.samples@[i] == mix_at(waveforms@, i),
    {
        let n: usize = waveforms.len();
        let mut sums: Vec<i64> = Vec::new();
        let mut i: usize = 0;
        while i < SAMPLES
            invariant
                i <= SAMPLES,
                sums@.len() == i,
                forall|j: int| 0 <= j < i ==> sums@[j] == 0,
            decreases SAMPLES - i,
        {
            sums.push(0);
            i += 1;
        }
        let mut k: usize = 0;
        while k < n
            invariant
                n == waveforms@.len(),
                n <= u32::MAX,
                all_wf(waveforms@),
                k <= n,
                sums@.len() == SAMPLES,
                forall|j: int| 0 <= j < SAMPLES ==> sums@[j] == column_sum(waveforms@.take(k as int), j),
            decreases n - k,
        {
            let ghost before = sums@;
            let ghost prefix = waveforms@.take(k as int + 1);
            assert(prefix.drop_last() =~= waveforms@.take(k as int));
            assert(prefix.last() == waveforms@[k as int]);
            assert(all_wf(waveforms@.take(k as int))) by {
                assert forall|m: int| 0 <= m < k implies (#[trigger] waveforms@.take(k as int)[m]).wf() by {
                    assert(waveforms@.take(k as int)[m] == waveforms@[m]);
                }
            }
            assert(waveforms@[k as int].wf());
            let wave = &waveforms[k];
            let mut j: usize = 0;
            while j < SAMPLES
                invariant
                    n == waveforms@.len(),
                    n <= u32::MAX,
                    k < n,
                    all_wf(waveforms@),
                    all_wf(waveforms@.take(k as int)),
                    *wave == waveforms@[k as int],
                    wave.samples@.len() == SAMPLES,
                    prefix == waveforms@.take(k as int + 1),
                    prefix.drop_last() == waveforms@.take(k as int),
                    prefix.last() == waveforms@[k as int],
                    j <= SAMPLES,
                    sums@.len() == SAMPLES,
                    forall|m: int| 0 <= m < j ==> sums@[m] == column_sum(prefix, m),
                    forall|m: int| j <= m < SAMPLES ==> sums@[m] == column_sum(waveforms@.take(k as int), m),
                decreases SAMPLES - j,
            {
                proof {
                    lemma_column_sum_bounds(waveforms@.take(k as int), j as int);
                }
                let s = sums[j] + wave.samples[j] as i64;
                sums.set(j, s);
                j += 1;
            }
            k += 1;
        }
        assert(waveforms@.take(n as int) =~= waveforms@);
        let mut samples: Vec<i16> = Vec::new();
        let count: i64 = n as i64;
        let mut i: usize = 0;
        while i < SAMPLES
            invariant
                count == n,
                n == waveforms@.len(),
                0 < n <= u32::MAX,
                all_wf(waveforms@),
                sums@.len() == SAMPLES,
                forall|j: int| 0 <= j < SAMPLES ==> sums@[j] == column_sum(waveforms@, j),
                i <= SAMPLES,
                samples@.len() == i,
                forall|j: int| 0 <= j < i ==> samples@[j] == mix_at(waveforms@, j),
            decreases SAMPLES - i,
        {
            proof {
                lemma_column_sum_bounds(waveforms@, i as int);
                lemma_trunc_div_bounds(column_sum(waveforms@, i as int), n as int);
            }
            let s = sums[i];
            let q: i64 = if s >= 0 {
                s / count
            } else {
                -((-s) / count)
            };
            samples.push(q as i16);
            i += 1;
        }
        Waveform { samples }
    }
}

} // verus!
