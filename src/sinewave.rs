use vstd::prelude::*;

use crate::consts::SAMPLES;
use crate::waveform::Waveform;

verus! {

/// A time-windowed pure sine tone.
#[derive(PartialEq, Eq, Structural, Hash, Copy, Clone, Debug)]
pub struct SineWave {
    /// First sample index of the tone.
    pub start: u16,
    /// Number of samples the tone lasts.
    pub length: u16,
    /// Frequency of the tone.
    pub frequency: u16,
}

/// Pre-computed full-length sine tones, one row per frequency, starting at
/// frequency `lowest`: row `f - lowest` holds the samples of frequency `f`.
pub struct ToneBank {
    pub lowest: u16,
    pub tones: Vec<Vec<i16>>,
}

impl ToneBank {
    /// Every row has the fixed buffer length.
    pub open spec fn wf(&self) -> bool {
        forall|r: int| 0 <= r < self.tones@.len() ==> (#[trigger] self.tones@[r])@.len() == SAMPLES
    }

    /// The bank holds a row for frequency `f`.
    pub open spec fn covers(&self, f: u16) -> bool {
        self.lowest <= f && f - self.lowest < self.tones@.len()
    }

    /// Sample `t` of the tone of frequency `f`.
    pub open spec fn tone(&self, f: u16, t: int) -> int {
        self.tones@[f - self.lowest]@[t] as int
    }
}

/// Sample `t` of the rendering of gene `g`: the tone inside the gene's window,
/// silence outside it.
pub open spec fn gene_sample(g: SineWave, bank: ToneBank, t: int) -> int {
    if g.start <= t < g.start + g.length {
        bank.tone(g.frequency, t)
    } else {
        0
    }
}

impl SineWave {
    pub fn new(start: u16, length: u16, frequency: u16) -> (r: SineWave)
        ensures
            r.start == start,
            r.length == length,
            r.frequency == frequency,
    {
        SineWave { start, length, frequency }
    }

    /// Renders this tone alone into a full buffer; the window is clamped to
    /// the buffer's end.
    pub fn to_wave(&self, bank: &ToneBank) -> (r: Waveform)
        requires
            bank.wf(),
            bank.covers(self.frequency),
        ensures
            r.wf(),
            forall|t: int| 0 <= t < SAMPLES ==> r.samples@[t] == gene_sample(*self, *bank, t),
    {
        let mut wave = Waveform::zero();
        let row: usize = (self.frequency - bank.lowest) as usize;
        let tone = &bank.tones[row];
        assert(tone@.len() == SAMPLES);
        let full_end: usize = self.start as usize + self.length as usize;
        let end: usize = if full_end < SAMPLES { full_end } else { SAMPLES };
        let mut t: usize = self.start as usize;
        while t < end
            invariant
                wave.samples@.len() == SAMPLES,
                bank.covers(self.frequency),
                tone@.len() == SAMPLES,
                *tone == bank.tones@[(self.frequency - bank.lowest) as int],
                end <= SAMPLES,
                end <= self.start + self.length,
                end == SAMPLES || end == self.start + self.length,
                self.start <= t,
                self.start < end ==> t <= end,
                end <= self.start ==> t == self.start,
                forall|i: int| 0 <= i < SAMPLES ==> wave.samples@[i] == if self.start <= i < t {
                    tone@[i] as int
                } else {
                    0
                },
            decreases end - t,
        {
            wave.samples.set(t, tone[t]);
            t += 1;
        }
        assert forall|i: int| 0 <= i < SAMPLES implies wave.samples@[i] == gene_sample(*self, *bank, i) by {
            if self.start <= i < self.start + self.length {
                assert(i < t);
                assert(wave.samples@[i] == tone@[i] as int);
            }
        }
        wave
    }
}

} // verus!
