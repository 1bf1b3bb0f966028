use vstd::prelude::*;

use tinyrand::{Probability, Wyrand};

use crate::consts::{
    MAXIMUM_DISTANCE, MAX_FREQ, MAX_WAVES, MIN_FREQ, MIN_WAVES, SAMPLES, TARGET_WORD,
    WAVE_LENGTH_SAMPLES,
};
use crate::random::{next_below, next_chance, next_in_range};
use crate::sinewave::{gene_sample, SineWave, ToneBank};
use crate::waveform::{all_wf, column_sum, trunc_div, Waveform};

verus! {

/// A genome: a set of sine genes, held as a sequence without repeats.
pub struct Individual {
    pub waves: Vec<SineWave>,
}

/// `s` with `w` added unless it is already there.
pub open spec fn with_gene(s: Seq<SineWave>, w: SineWave) -> Seq<SineWave> {
    if s.contains(w) {
        s
    } else {
        s.push(w)
    }
}

/// The genes of `s` that start at or before `p`.
pub open spec fn genes_before(s: Set<SineWave>, p: u16) -> Set<SineWave> {
    s.filter(|g: SineWave| g.start <= p)
}

/// The genes of `s` that start after `p`.
pub open spec fn genes_after(s: Set<SineWave>, p: u16) -> Set<SineWave> {
    s.filter(|g: SineWave| g.start > p)
}

/// A gene as random initialisation draws it.
pub open spec fn seed_gene(g: SineWave) -> bool {
    &&& MIN_FREQ <= g.frequency < MAX_FREQ
    &&& g.start < WAVE_LENGTH_SAMPLES
    &&& WAVE_LENGTH_SAMPLES / 50 <= g.length < WAVE_LENGTH_SAMPLES / 5
}

/// A gene as mutation draws it: its length lies in `start..WAVE_LENGTH_SAMPLES`.
pub open spec fn mutation_gene(g: SineWave) -> bool {
    &&& MIN_FREQ <= g.frequency < MAX_FREQ
    &&& g.start < WAVE_LENGTH_SAMPLES
    &&& g.start <= g.length < WAVE_LENGTH_SAMPLES
}

/// Sum over the genes of `genes` of their sample `t`.
pub open spec fn gene_sum(genes: Seq<SineWave>, bank: ToneBank, t: int) -> int
    decreases genes.len(),
{
    if genes.len() == 0 {
        0
    } else {
        gene_sum(genes.drop_last(), bank, t) + gene_sample(genes.last(), bank, t)
    }
}

/// Sample `t` of the rendering of a genome: the mean of its genes' samples,
/// rounding toward zero; silence for an empty genome.
pub open spec fn render_at(genes: Seq<SineWave>, bank: ToneBank, t: int) -> int {
    if genes.len() == 0 {
        0
    } else {
        trunc_div(gene_sum(genes, bank, t), genes.len() as int)
    }
}

/// The fitness owed for a recognizer's reply: the edit distance to the
/// target word capped at `MAXIMUM_DISTANCE`, or `MAXIMUM_DISTANCE` when
/// nothing was recognized. The normalised fitness is this over `MAXIMUM_DISTANCE`.
pub open spec fn fitness_of(heard: Option<Seq<char>>) -> int {
    match heard {
        None => MAXIMUM_DISTANCE as int,
        Some(text) => capped_distance(edit_distance(TARGET_WORD@, text) as int),
    }
}

/// A distance capped at `MAXIMUM_DISTANCE`.
pub open spec fn capped_distance(d: int) -> int {
    if d < MAXIMUM_DISTANCE {
        d
    } else {
        MAXIMUM_DISTANCE as int
    }
}

/// The Levenshtein distance between the UTF-8 bytes of two strings.
pub uninterp spec fn edit_distance(a: Seq<char>, b: Seq<char>) -> nat;

/// Relies on `levenshtein_diff::distance`: the edit distance between the
/// bytes of `a` and of `b`, which is zero for equal strings.
#[verifier::external_body]
fn levenshtein(a: &str, b: &str) -> (r: usize)
    ensures
        r == edit_distance(a@, b@),
        a@ == b@ ==> r == 0,
{
    levenshtein_diff::distance(a.as_bytes(), b.as_bytes()).0
}

/// Caps an edit distance at `MAXIMUM_DISTANCE`, which keeps the normalised
/// fitness in `[0, 1]`.
pub fn score_of_distance(d: usize) -> (r: u16)
    ensures
        r == capped_distance(d as int),
        r <= MAXIMUM_DISTANCE,
{
    if d < MAXIMUM_DISTANCE as usize {
        d as u16
    } else {
        MAXIMUM_DISTANCE
    }
}

/// A child of recombination: the genes `parts` when there are any, else a
/// fresh random genome in place of an empty one.
pub open spec fn offspring(c: Individual, parts: Set<SineWave>) -> bool {
    &&& c.wf()
    &&& 1 <= c.waves@.len()
    &&& if parts.is_empty() {
        &&& c.waves@.len() < MAX_WAVES
        &&& forall|k: int| 0 <= k < c.waves@.len() ==> seed_gene(#[trigger] c.waves@[k])
    } else {
        c.genes() == parts
    }
}

/// `c0` and `c1` are what recombining `a` with `b` may give: the two sides of
/// some cut point, each replaced by a fresh genome where it holds no gene.
pub open spec fn recombined(a: Individual, b: Individual, c0: Individual, c1: Individual) -> bool {
    exists|p: u16|
        p < WAVE_LENGTH_SAMPLES
        && offspring(c0, #[trigger] genes_before(a.genes(), p).union(genes_after(b.genes(), p)))
        && offspring(c1, genes_after(a.genes(), p).union(genes_before(b.genes(), p)))
}

proof fn lemma_take_succ_to_set(s: Seq<SineWave>, i: int)
    requires
        0 <= i < s.len(),
    ensures
        s.take(i + 1).to_set() == s.take(i).to_set().insert(s[i]),
{
    assert(s.take(i + 1) =~= s.take(i).push(s[i]));
    s.take(i).lemma_push_to_set_commute(s[i]);
}

proof fn lemma_empty_iff(c: Individual)
    ensures
        c.waves@.len() == 0 <==> c.genes().is_empty(),
{
    if c.waves@.len() == 0 {
        assert(c.genes() =~= Set::<SineWave>::empty());
    } else {
        assert(c.genes().contains(c.waves@[0]));
    }
}

proof fn lemma_gene_sum_remove(s: Seq<SineWave>, k: int, bank: ToneBank, t: int)
    requires
        0 <= k < s.len(),
    ensures
        gene_sum(s, bank, t) == gene_sum(s.remove(k), bank, t) + gene_sample(s[k], bank, t),
    decreases s.len(),
{
    if k == s.len() - 1 {
        assert(s.remove(k) =~= s.drop_last());
    } else {
        let d = s.drop_last();
        assert(d.remove(k) =~= s.remove(k).drop_last());
        assert(s.remove(k).last() == s.last());
        assert(d[k] == s[k]);
        lemma_gene_sum_remove(d, k, bank, t);
    }
}

proof fn lemma_gene_sum_same_set(s1: Seq<SineWave>, s2: Seq<SineWave>, bank: ToneBank, t: int)
    requires
        s1.no_duplicates(),
        s2.no_duplicates(),
        s1.to_set() == s2.to_set(),
    ensures
        s1.len() == s2.len(),
        gene_sum(s1, bank, t) == gene_sum(s2, bank, t),
    decreases s1.len(),
{
    if s1.len() == 0 {
        if s2.len() > 0 {
            assert(s2.to_set().contains(s2[0]));
            assert(s1.to_set() =~= Set::<SineWave>::empty());
        }
    } else {
        let x = s1.last();
        assert(s1.to_set().contains(x));
        assert(s2.contains(x));
        let k = choose|k: int| 0 <= k < s2.len() && s2[k] == x;
        let r2 = s2.remove(k);
        let d1 = s1.drop_last();
        assert forall|a: int, b: int| 0 <= a < b < r2.len() implies r2[a] != r2[b] by {
            let ia = if a < k { a } else { a + 1 };
            let ib = if b < k { b } else { b + 1 };
            assert(r2[a] == s2[ia]);
            assert(r2[b] == s2[ib]);
        }
        assert forall|a: int, b: int| 0 <= a < b < d1.len() implies d1[a] != d1[b] by {
            assert(d1[a] == s1[a]);
            assert(d1[b] == s1[b]);
        }
        assert forall|y: SineWave| d1.to_set().contains(y) <==> r2.to_set().contains(y) by {
            if d1.to_set().contains(y) {
                let i = choose|i: int| 0 <= i < d1.len() && d1[i] == y;
                assert(s1[i] == y);
                assert(s1.to_set().contains(y));
                assert(s2.contains(y));
                let j = choose|j: int| 0 <= j < s2.len() && s2[j] == y;
                assert(s1[s1.len() - 1] == x);
                assert(y != x);
                assert(j != k);
                if j < k {
                    assert(r2[j] == y);
                } else {
                    assert(r2[j - 1] == y);
                }
                assert(r2.contains(y));
            }
            if r2.to_set().contains(y) {
                let j = choose|j: int| 0 <= j < r2.len() && r2[j] == y;
                let jj = if j < k { j } else { j + 1 };
                assert(s2[jj] == y);
                assert(jj != k);
                assert(y != x);
                assert(s2.to_set().contains(y));
                assert(s1.contains(y));
                let i = choose|i: int| 0 <= i < s1.len() && s1[i] == y;
                assert(i != s1.len() - 1);
                assert(d1[i] == y);
                assert(d1.contains(y));
            }
        }
        assert(d1.to_set() =~= r2.to_set());
        lemma_gene_sum_same_set(d1, r2, bank, t);
        lemma_gene_sum_remove(s2, k, bank, t);
    }
}

/// Rendering depends on the set of genes alone: two well-formed genomes
/// holding the same genes, in whatever order, render to the same samples.
pub proof fn lemma_render_depends_on_genes(a: Individual, b: Individual, bank: ToneBank, t: int)
    requires
        a.wf(),
        b.wf(),
        a.genes() == b.genes(),
    ensures
        render_at(a.waves@, bank, t) == render_at(b.waves@, bank, t),
{
    lemma_gene_sum_same_set(a.waves@, b.waves@, bank, t);
}

proof fn lemma_gene_sum_matches(ws: Seq<Waveform>, genes: Seq<SineWave>, bank: ToneBank, t: int)
    requires
        ws.len() == genes.len(),
        forall|k: int| 0 <= k < ws.len() ==> (#[trigger] ws[k]).samples@[t] == gene_sample(genes[k], bank, t),
    ensures
        column_sum(ws, t) == gene_sum(genes, bank, t),
    decreases ws.len(),
{
    if ws.len() > 0 {
        let wi = ws.drop_last();
        let gi = genes.drop_last();
        assert forall|k: int| 0 <= k < wi.len() implies (#[trigger] wi[k]).samples@[t] == gene_sample(gi[k], bank, t) by {
            assert(wi[k] == ws[k]);
            assert(gi[k] == genes[k]);
        }
        lemma_gene_sum_matches(wi, gi, bank, t);
        assert(ws.last() == ws[ws.len() - 1]);
    }
}

impl Individual {
    /// The genome holds no gene twice.
    pub open spec fn wf(&self) -> bool {
        self.waves@.no_duplicates()
    }

    /// The genome as a set.
    pub open spec fn genes(&self) -> Set<SineWave> {
        self.waves@.to_set()
    }

    /// `bank` holds a tone for every gene's frequency.
    pub open spec fn audible(&self, bank: ToneBank) -> bool {
        &&& bank.wf()
        &&& forall|k: int| 0 <= k < self.waves@.len() ==> bank.covers(#[trigger] self.waves@[k].frequency)
    }

    /// An empty genome.
    fn empty() -> (r: Individual)
        ensures
            r.wf(),
            r.waves@.len() == 0,
    {
        Individual { waves: Vec::new() }
    }

    /// Adds a gene; a gene that is already present is not added again.
    fn insert(&mut self, w: SineWave)
        requires
            old(self).wf(),
        ensures
            final(self).wf(),
            final(self).waves@ == with_gene(old(self).waves@, w),
            final(self).genes() == old(self).genes().insert(w),
    {
        let ghost before = self.waves@;
        let mut i: usize = 0;
        while i < self.waves.len()
            invariant
                self.waves@ == before,
                self.wf(),
                i <= before.len(),
                forall|k: int| 0 <= k < i ==> before[k] != w,
            decreases before.len() - i,
        {
            if self.waves[i] == w {
                assert(before.contains(w));
                proof {
                    assert(before.to_set().insert(w) =~= before.to_set());
                }
                return;
            }
            i += 1;
        }
        assert(!before.contains(w));
        self.waves.push(w);
        proof {
            before.lemma_push_to_set_commute(w);
            assert forall|a: int, b: int| 0 <= a < b < self.waves@.len() implies self.waves@[a] != self.waves@[b] by {
                if b == before.len() {
                    assert(before[a] != w);
                } else {
                    assert(before[a] != before[b]);
                }
            }
        }
    }

    /// A random genome: `MIN_WAVES..MAX_WAVES` draws of a gene, repeats collapsed.
    pub fn new_rand(rng: &mut Wyrand) -> (r: Individual)
        ensures
            r.wf(),
            1 <= r.waves@.len() < MAX_WAVES,
            forall|k: int| 0 <= k < r.waves@.len() ==> seed_gene(#[trigger] r.waves@[k]),
    {
        let mut ind = Individual::empty();
        let count: u16 = next_in_range(rng, MIN_WAVES, MAX_WAVES);
        let mut i: u16 = 0;
        while i < count
            invariant
                count < MAX_WAVES,
                MIN_WAVES <= count,
                i <= count,
                ind.wf(),
                ind.waves@.len() <= i,
                i > 0 ==> ind.waves@.len() >= 1,
                forall|k: int| 0 <= k < ind.waves@.len() ==> seed_gene(#[trigger] ind.waves@[k]),
            decreases count - i,
        {
            let freq: u16 = next_in_range(rng, MIN_FREQ, MAX_FREQ);
            let start: u16 = next_below(rng, WAVE_LENGTH_SAMPLES);
            let length: u16 = next_in_range(rng, WAVE_LENGTH_SAMPLES / 50, WAVE_LENGTH_SAMPLES / 5);
            let w = SineWave::new(start, length, freq);
            ind.insert(w);
            i += 1;
        }
        ind
    }

    /// Recombination at cut point `point`: the first child takes this genome's
    /// genes that start at or before `point` and `other`'s genes that start
    /// after it; the second child takes the rest.
    pub fn combine_at(&self, other: &Individual, point: u16) -> (r: (Individual, Individual))
        requires
            self.wf(),
            other.wf(),
        ensures
            r.0.wf(),
            r.1.wf(),
            r.0.genes() == genes_before(self.genes(), point).union(genes_after(other.genes(), point)),
            r.1.genes() == genes_after(self.genes(), point).union(genes_before(other.genes(), point)),
    {
        let mut first = Individual::empty();
        let mut second = Individual::empty();
        let mut i: usize = 0;
        while i < self.waves.len()
            invariant
                i <= self.waves@.len(),
                first.wf(),
                second.wf(),
                first.genes() == genes_before(self.waves@.take(i as int).to_set(), point),
                second.genes() == genes_after(self.waves@.take(i as int).to_set(), point),
            decreases self.waves@.len() - i,
        {
            let w = self.waves[i];
            proof {
                lemma_take_succ_to_set(self.waves@, i as int);
            }
            let ghost seen = self.waves@.take(i as int).to_set();
            if w.start <= point {
                first.insert(w);
                assert(genes_before(seen.insert(w), point) =~= genes_before(seen, point).insert(w));
                assert(genes_after(seen.insert(w), point) =~= genes_after(seen, point));
            } else {
                second.insert(w);
                assert(genes_before(seen.insert(w), point) =~= genes_before(seen, point));
                assert(genes_after(seen.insert(w), point) =~= genes_after(seen, point).insert(w));
            }
            i += 1;
        }
        assert(self.waves@.take(self.waves@.len() as int) =~= self.waves@);
        let ghost mine_before = genes_before(self.genes(), point);
        let ghost mine_after = genes_after(self.genes(), point);
        let mut j: usize = 0;
        while j < other.waves.len()
            invariant
                j <= other.waves@.len(),
                first.wf(),
                second.wf(),
                first.genes() == mine_before.union(genes_after(other.waves@.take(j as int).to_set(), point)),
                second.genes() == mine_after.union(genes_before(other.waves@.take(j as int).to_set(), point)),
            decreases other.waves@.len() - j,
        {
            let w = other.waves[j];
            proof {
                lemma_take_succ_to_set(other.waves@, j as int);
            }
            let ghost seen = other.waves@.take(j as int).to_set();
            if w.start <= point {
                second.insert(w);
                assert(mine_after.union(genes_before(seen.insert(w), point)) =~= mine_after.union(genes_before(seen, point)).insert(w));
                assert(genes_after(seen.insert(w), point) =~= genes_after(seen, point));
            } else {
                first.insert(w);
                assert(genes_before(seen.insert(w), point) =~= genes_before(seen, point));
                assert(mine_before.union(genes_after(seen.insert(w), point)) =~= mine_before.union(genes_after(seen, point)).insert(w));
            }
            j += 1;
        }
        assert(other.waves@.take(other.waves@.len() as int) =~= other.waves@);
        (first, second)
    }

    /// Recombination at a random cut point in `0..WAVE_LENGTH_SAMPLES`; a
    /// child left without genes is replaced by a fresh random genome.
    pub fn combine(&self, other: &Individual, rng: &mut Wyrand) -> (r: (Individual, Individual))
        requires
            self.wf(),
            other.wf(),
        ensures
            r.0.waves@.len() >= 1,
            r.1.waves@.len() >= 1,
            r.0.wf(),
            r.1.wf(),
            recombined(*self, *other, r.0, r.1),
    {
        let point: u16 = next_below(rng, WAVE_LENGTH_SAMPLES);
        let (first, second) = self.combine_at(other, point);
        proof {
            lemma_empty_iff(first);
            lemma_empty_iff(second);
        }
        let first = if first.waves.len() == 0 {
            Individual::new_rand(rng)
        } else {
            first
        };
        let second = if second.waves.len() == 0 {
            Individual::new_rand(rng)
        } else {
            second
        };
        assert(offspring(first, genes_before(self.genes(), point).union(genes_after(other.genes(), point))));
        assert(offspring(second, genes_after(self.genes(), point).union(genes_before(other.genes(), point))));
        (first, second)
    }

    /// With probability `chance`, adds one freshly drawn gene (frequency in
    /// `MIN_FREQ..MAX_FREQ`, start in `0..WAVE_LENGTH_SAMPLES`, length in
    /// `start..WAVE_LENGTH_SAMPLES`). Returns whether it did.
    pub fn mutate(&mut self, chance: Probability, rng: &mut Wyrand) -> (r: bool)
        requires
            old(self).wf(),
        ensures
            final(self).wf(),
            !r ==> final(self).waves@ == old(self).waves@,
            r ==> exists|w: SineWave| #[trigger] mutation_gene(w) && final(self).waves@ == with_gene(old(self).waves@, w),
    {
        if next_chance(rng, chance) {
            let freq: u16 = next_in_range(rng, MIN_FREQ, MAX_FREQ);
            let start: u16 = next_in_range(rng, 0, WAVE_LENGTH_SAMPLES);
            let length: u16 = next_in_range(rng, start, WAVE_LENGTH_SAMPLES);
            let w = SineWave::new(start, length, freq);
            self.insert(w);
            assert(mutation_gene(w));
            return true;
        }
        false
    }

    /// Renders every gene and mixes the results; an empty genome renders
    /// silence.
    pub fn to_wave(&self, bank: &ToneBank) -> (r: Waveform)
        requires
            self.audible(*bank),
            self.waves@.len() <= u32::MAX,
        ensures
            r.wf(),
            forall|t: int| 0 <= t < SAMPLES ==> r.samples@[t] == render_at(self.waves@, *bank, t),
    {
        if self.waves.len() == 0 {
            return Waveform::zero();
        }
        let mut waveforms: Vec<Waveform> = Vec::new();
        let mut i: usize = 0;
        while i < self.waves.len()
            invariant
                self.audible(*bank),
                i <= self.waves@.len(),
                waveforms@.len() == i,
                all_wf(waveforms@),
                forall|k: int, t: int| 0 <= k < i && 0 <= t < SAMPLES ==>
                    #[trigger] waveforms@[k].samples@[t] == gene_sample(self.waves@[k], *bank, t),
            decreases self.waves@.len() - i,
        {
            let wave = self.waves[i].to_wave(bank);
            waveforms.push(wave);
            i += 1;
        }
        let ghost ws = waveforms@;
        let r = Waveform::combine(waveforms);
        assert forall|t: int| 0 <= t < SAMPLES implies r.samples@[t] == render_at(self.waves@, *bank, t) by {
            assert forall|k: int| 0 <= k < ws.len() implies (#[trigger] ws[k]).samples@[t] == gene_sample(self.waves@[k], *bank, t) by {
                assert(ws[k].samples@[t] == gene_sample(self.waves@[k], *bank, t));
            }
            lemma_gene_sum_matches(ws, self.waves@, *bank, t);
            assert(ws.len() == self.waves@.len());
            assert(r.samples@[t] == crate::waveform::mix_at(ws, t));
        }
        r
    }

    /// The fitness of this genome given what the recognizer heard when its
    /// rendering was played (`None`: no transcription). Lower is better.
    pub fn fitness(&self, heard: Option<&str>) -> (r: u16)
        ensures
            r == fitness_of(
                match heard {
                    None => None,
                    Some(text) => Some(text@),
                },
            ),
            r <= MAXIMUM_DISTANCE,
    {
        match heard {
            None => MAXIMUM_DISTANCE,
            Some(text) => score_of_distance(levenshtein(TARGET_WORD, text)),
        }
    }
}

} // verus!
