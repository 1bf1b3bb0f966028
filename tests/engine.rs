use sinevoice::consts::{MAXIMUM_DISTANCE, MAX_FREQ, MAX_WAVES, MIN_FREQ, SAMPLES, WAVE_LENGTH_SAMPLES};
use sinevoice::individual::{score_of_distance, Individual};
use sinevoice::population::Population;
use sinevoice::sinewave::{SineWave, ToneBank};
use sinevoice::waveform::Waveform;
use tinyrand::{Probability, Seeded, StdRand};

fn sine_bank() -> ToneBank {
    let mut tones = Vec::new();
    for f in MIN_FREQ..MAX_FREQ {
        let row: Vec<i16> = (0..SAMPLES)
            .map(|t| ((2.0 * f as f32 * t as f32).sin() * (2f32.powi(15) - 1.0)) as i16)
            .collect();
        tones.push(row);
    }
    ToneBank { lowest: MIN_FREQ, tones }
}

fn ramp_bank(lowest: u16) -> ToneBank {
    let row: Vec<i16> = (0..SAMPLES).map(|t| (t % 7) as i16 + 1).collect();
    ToneBank { lowest, tones: vec![row] }
}

fn constant_wave(v: i16) -> Waveform {
    Waveform { samples: vec![v; SAMPLES] }
}

fn genome(waves: Vec<SineWave>) -> Individual {
    Individual { waves }
}

#[test]
fn zero_waveform_is_silent() {
    let w = Waveform::zero();
    assert_eq!(w.samples.len(), SAMPLES);
    assert!(w.samples.iter().all(|&s| s == 0));
}

#[test]
fn combine_takes_truncated_mean() {
    let w = Waveform::combine(vec![constant_wave(2), constant_wave(-5)]);
    assert_eq!(w.samples.len(), SAMPLES);
    assert!(w.samples.iter().all(|&s| s == -1));
    let w = Waveform::combine(vec![constant_wave(7), constant_wave(2), constant_wave(0)]);
    assert!(w.samples.iter().all(|&s| s == 3));
}

#[test]
fn combine_stays_in_amplitude_range() {
    let w = Waveform::combine(vec![constant_wave(i16::MAX), constant_wave(i16::MAX)]);
    assert!(w.samples.iter().all(|&s| s == i16::MAX));
    let w = Waveform::combine(vec![constant_wave(i16::MIN), constant_wave(i16::MIN), constant_wave(i16::MIN)]);
    assert!(w.samples.iter().all(|&s| s == i16::MIN));
}

#[test]
fn gene_renders_inside_its_window() {
    let bank = ramp_bank(100);
    let g = SineWave::new(10, 5, 100);
    assert_eq!((g.start, g.length, g.frequency), (10, 5, 100));
    let w = g.to_wave(&bank);
    assert_eq!(w.samples.len(), SAMPLES);
    for t in 0..SAMPLES {
        let expected = if (10..15).contains(&t) { (t % 7) as i16 + 1 } else { 0 };
        assert_eq!(w.samples[t], expected, "sample {t}");
    }
}

#[test]
fn gene_window_is_clamped_to_buffer() {
    let bank = ramp_bank(100);
    let w = SineWave::new(15990, 100, 100).to_wave(&bank);
    assert_eq!(w.samples.len(), SAMPLES);
    assert_eq!(w.samples[15989], 0);
    assert_eq!(w.samples[15990], (15990 % 7) as i16 + 1);
    assert_eq!(w.samples[SAMPLES - 1], ((SAMPLES - 1) % 7) as i16 + 1);
}

#[test]
fn sine_formula_uses_sample_index() {
    let bank = sine_bank();
    let w = SineWave::new(0, 3, 100).to_wave(&bank);
    assert_eq!(w.samples[0], 0);
    assert_eq!(w.samples[1], ((200.0f32).sin() * 32767.0) as i16);
    assert_eq!(w.samples[2], ((400.0f32).sin() * 32767.0) as i16);
    assert_eq!(w.samples[3], 0);
}

#[test]
fn silent_genomes_render_silence() {
    let bank = sine_bank();
    let empty = genome(vec![]);
    assert!(empty.to_wave(&bank).samples.iter().all(|&s| s == 0));
    let muted = genome(vec![SineWave::new(100, 0, 120)]);
    let w = muted.to_wave(&bank);
    assert_eq!(w.samples.len(), SAMPLES);
    assert!(w.samples.iter().all(|&s| s == 0));
}

#[test]
fn silence_scores_maximum_penalty() {
    let muted = genome(vec![SineWave::new(100, 0, 120)]);
    assert_eq!(muted.fitness(None), MAXIMUM_DISTANCE);
    assert_eq!(genome(vec![]).fitness(None), MAXIMUM_DISTANCE);
}

#[test]
fn fitness_is_edit_distance_to_target() {
    let ind = genome(vec![SineWave::new(0, 10, 100)]);
    assert_eq!(ind.fitness(Some("hello")), 0);
    assert_eq!(ind.fitness(Some("hallo")), 1);
    assert_eq!(ind.fitness(Some("")), 5);
    assert_eq!(ind.fitness(Some("yellow")), 2);
}

#[test]
fn fitness_is_capped_at_maximum_distance() {
    let ind = genome(vec![SineWave::new(0, 10, 100)]);
    let long = "x".repeat(1500);
    assert_eq!(ind.fitness(Some(&long)), MAXIMUM_DISTANCE);
    assert!(ind.fitness(Some("a")) <= MAXIMUM_DISTANCE);
}

#[test]
fn distance_cap_values() {
    assert_eq!(score_of_distance(0), 0);
    assert_eq!(score_of_distance(5), 5);
    assert_eq!(score_of_distance(999), 999);
    assert_eq!(score_of_distance(1000), 1000);
    assert_eq!(score_of_distance(5000), 1000);
}

#[test]
fn mixing_two_genes_averages_them() {
    let bank = ramp_bank(100);
    let ind = genome(vec![SineWave::new(0, 4, 100), SineWave::new(2, 4, 100)]);
    let w = ind.to_wave(&bank);
    let tone = |t: usize| (t % 7) as i16 + 1;
    assert_eq!(w.samples[0], tone(0) / 2);
    assert_eq!(w.samples[2], tone(2));
    assert_eq!(w.samples[5], tone(5) / 2);
    assert_eq!(w.samples[6], 0);
}

#[test]
fn rendering_ignores_gene_order() {
    let bank = sine_bank();
    let a = genome(vec![SineWave::new(0, 4000, 90), SineWave::new(3000, 2000, 130), SineWave::new(8000, 500, 100)]);
    let b = genome(vec![SineWave::new(8000, 500, 100), SineWave::new(0, 4000, 90), SineWave::new(3000, 2000, 130)]);
    assert_eq!(a.to_wave(&bank).samples, b.to_wave(&bank).samples);
    assert_eq!(a.to_wave(&bank).samples, a.to_wave(&bank).samples);
}

#[test]
fn new_rand_respects_bounds() {
    let mut rng = StdRand::seed(7);
    for _ in 0..50 {
        let ind = Individual::new_rand(&mut rng);
        assert!(!ind.waves.is_empty() && ind.waves.len() < MAX_WAVES as usize);
        for w in &ind.waves {
            assert!((MIN_FREQ..MAX_FREQ).contains(&w.frequency));
            assert!(w.start < WAVE_LENGTH_SAMPLES);
            assert!((WAVE_LENGTH_SAMPLES / 50..WAVE_LENGTH_SAMPLES / 5).contains(&w.length));
        }
        for (i, a) in ind.waves.iter().enumerate() {
            assert!(ind.waves[i + 1..].iter().all(|b| b != a));
        }
    }
}

fn seeded_run(seed: u64) -> Vec<Vec<SineWave>> {
    let mut rng = StdRand::seed(seed);
    let a = Individual::new_rand(&mut rng);
    let b = Individual::new_rand(&mut rng);
    let (mut c0, c1) = a.combine(&b, &mut rng);
    c0.mutate(Probability::new(0.5), &mut rng);
    vec![a.waves, b.waves, c0.waves, c1.waves]
}

#[test]
fn same_seed_same_genomes() {
    assert_eq!(seeded_run(1234), seeded_run(1234));
    assert_eq!(seeded_run(9), seeded_run(9));
}

#[test]
fn combine_at_partitions_by_start() {
    let a = genome(vec![SineWave::new(10, 5, 90), SineWave::new(500, 5, 91)]);
    let b = genome(vec![SineWave::new(20, 5, 92), SineWave::new(600, 5, 93)]);
    let (c0, c1) = a.combine_at(&b, 100);
    assert_eq!(c0.waves, vec![SineWave::new(10, 5, 90), SineWave::new(600, 5, 93)]);
    assert_eq!(c1.waves, vec![SineWave::new(500, 5, 91), SineWave::new(20, 5, 92)]);
    let (c0, c1) = a.combine_at(&b, 10);
    assert_eq!(c0.waves, vec![SineWave::new(10, 5, 90), SineWave::new(20, 5, 92), SineWave::new(600, 5, 93)]);
    assert_eq!(c1.waves, vec![SineWave::new(500, 5, 91)]);
}

#[test]
fn combine_at_collapses_shared_genes() {
    let g = SineWave::new(700, 5, 90);
    let a = genome(vec![g]);
    let (c0, c1) = a.combine_at(&a, 800);
    assert_eq!(c0.waves, vec![g]);
    assert_eq!(c1.waves, vec![g]);
}

#[test]
fn combine_never_yields_empty_children() {
    let mut rng = StdRand::seed(99);
    let early = genome(vec![SineWave::new(0, 5, 90)]);
    let late = genome(vec![SineWave::new(15999, 5, 91)]);
    for _ in 0..200 {
        let (c0, c1) = early.combine(&late, &mut rng);
        assert!(!c0.waves.is_empty());
        assert!(!c1.waves.is_empty());
        let (c0, c1) = late.combine(&early, &mut rng);
        assert!(!c0.waves.is_empty());
        assert!(!c1.waves.is_empty());
    }
}

#[test]
fn single_gene_round_trip_keeps_length() {
    let bank = sine_bank();
    let ind = genome(vec![SineWave::new(1000, 3000, 120)]);
    let w = ind.to_wave(&bank);
    assert_eq!(w.samples.len(), SAMPLES);
    assert_eq!(ind.waves.len(), 1);
    let mut rng = StdRand::seed(3);
    let (c0, c1) = ind.combine(&ind, &mut rng);
    assert_eq!(c0.to_wave(&bank).samples.len(), WAVE_LENGTH_SAMPLES as usize);
    assert_eq!(c1.to_wave(&bank).samples.len(), WAVE_LENGTH_SAMPLES as usize);
}

#[test]
fn mutate_certain_adds_gene() {
    let mut rng = StdRand::seed(5);
    let mut ind = genome(vec![SineWave::new(0, 5, 90)]);
    assert!(ind.mutate(Probability::new(1.0), &mut rng));
    assert_eq!(ind.waves.len(), 2);
    let w = ind.waves[1];
    assert!((MIN_FREQ..MAX_FREQ).contains(&w.frequency));
    assert!(w.start < WAVE_LENGTH_SAMPLES);
    assert!(w.start <= w.length && w.length < WAVE_LENGTH_SAMPLES);
}

#[test]
fn mutate_never_keeps_genome() {
    let mut rng = StdRand::seed(5);
    let mut ind = genome(vec![SineWave::new(0, 5, 90)]);
    assert!(!ind.mutate(Probability::new(0.0), &mut rng));
    assert_eq!(ind.waves, vec![SineWave::new(0, 5, 90)]);
}

#[test]
fn population_size_must_be_even_and_positive() {
    assert!(Population::new(0).is_none());
    assert!(Population::new(3).is_none());
    let p = Population::new(4).unwrap();
    assert_eq!(p.size, 4);
    assert!(p.members.is_empty());
}

fn seeded_population(size: usize, rng: &mut StdRand) -> Population {
    let mut p = Population::new(size).unwrap();
    for i in 0..size {
        let ind = Individual::new_rand(rng);
        p.add((size - i) as u16 * 10, ind);
    }
    p
}

#[test]
fn rank_orders_by_fitness() {
    let mut rng = StdRand::seed(11);
    let mut p = seeded_population(4, &mut rng);
    p.rank();
    let scores: Vec<u16> = p.members.iter().map(|m| m.0).collect();
    assert_eq!(scores, vec![10, 20, 30, 40]);
    assert_eq!(p.best(), 10);
    assert_eq!(p.worst(), 40);
}

#[test]
fn one_generation_of_four() {
    let mut rng = StdRand::seed(21);
    let mut p = seeded_population(4, &mut rng);
    p.rank();
    let children = p.breed(&mut rng);
    assert_eq!(children.len(), 4);
    assert!(children.iter().all(|c| !c.waves.is_empty()));
    let scored: Vec<(u16, Individual)> = children
        .into_iter()
        .enumerate()
        .map(|(i, c)| (5 + 20 * i as u16, c))
        .collect();
    assert_eq!(p.members.len() + scored.len(), 8);
    p.merge(scored);
    assert_eq!(p.members.len(), 4);
    let scores: Vec<u16> = p.members.iter().map(|m| m.0).collect();
    assert_eq!(scores, vec![5, 10, 20, 25]);
    let changed = p.mutate_all(Probability::new(1.0), &mut rng);
    assert_eq!(changed, vec![true; 4]);
    assert_eq!(p.members.iter().map(|m| m.0).collect::<Vec<u16>>(), vec![5, 10, 20, 25]);
}

#[test]
fn merge_never_loses_the_best() {
    let mut rng = StdRand::seed(31);
    let mut p = seeded_population(4, &mut rng);
    let before = p.members.iter().map(|m| m.0).min().unwrap();
    let worse: Vec<(u16, Individual)> = (0..4).map(|_| (900, Individual::new_rand(&mut rng))).collect();
    p.merge(worse);
    assert_eq!(p.members.len(), 4);
    assert_eq!(p.best(), before);
    assert!(p.members.iter().all(|m| m.0 != 900));
}

#[test]
fn size_holds_over_generations() {
    let mut rng = StdRand::seed(41);
    let mut p = seeded_population(6, &mut rng);
    let mut best = u16::MAX;
    for _ in 0..5 {
        p.rank();
        let children = p.breed(&mut rng);
        let scored: Vec<(u16, Individual)> = children.into_iter().map(|c| (c.waves.len() as u16, c)).collect();
        p.merge(scored);
        assert_eq!(p.members.len(), 6);
        assert!(p.best() <= best);
        best = p.best();
        p.mutate_all(Probability::new(0.0), &mut rng);
    }
}

#[test]
fn rescore_replaces_one_score() {
    let mut rng = StdRand::seed(51);
    let mut p = seeded_population(4, &mut rng);
    let genes = p.members[2].1.waves.clone();
    p.rescore(2, 777);
    assert_eq!(p.members[2].0, 777);
    assert_eq!(p.members[2].1.waves, genes);
    assert_eq!(p.members[0].0, 40);
}
