use noise_gen::fixed::{mul_coef, FULL_SCALE};
use noise_gen::noise::{
    gray_sample, num_samples, BlueFilter, BrownFilter, NoiseGenerator, NoiseType, PinkFilter,
};

const ALL: [NoiseType; 5] = [
    NoiseType::White,
    NoiseType::Pink,
    NoiseType::Brown,
    NoiseType::Blue,
    NoiseType::Gray,
];

fn flat_envelope(sample_rate: u32) -> Vec<i64> {
    vec![FULL_SCALE; sample_rate as usize]
}

#[test]
fn mul_coef_rounds_toward_zero() {
    assert_eq!(mul_coef(-15, 5_000_000), -7);
    assert_eq!(mul_coef(15, 5_000_000), 7);
    assert_eq!(mul_coef(1_000_000, 9_988_600), 998_860);
}

#[test]
fn sample_count_rounds_to_nearest() {
    assert_eq!(num_samples(44100, 1_500_000), 66150);
    assert_eq!(num_samples(3, 500_000), 2);
    assert_eq!(num_samples(3, 100_000), 0);
    assert_eq!(num_samples(8000, 0), 0);
    assert_eq!(num_samples(44100, 100), 4);
}

#[test]
fn white_length_matches_duration() {
    let mut g = NoiseGenerator::new(44100);
    let s = g.generate(NoiseType::White, 1_500_000, &Vec::new());
    assert_eq!(s.len(), 66150);
    let mut g = NoiseGenerator::new(1000);
    let s = g.generate(NoiseType::White, 3_000, &Vec::new());
    assert_eq!(s.len(), 3);
}

#[test]
fn gray_is_cut_to_length() {
    let mut g = NoiseGenerator::new(8000);
    let s = g.generate(NoiseType::Gray, 2_500_000, &flat_envelope(8000));
    assert_eq!(s.len(), 20000);
}

#[test]
fn zero_duration_is_empty() {
    for t in ALL {
        let mut g = NoiseGenerator::new(8000);
        assert!(g.generate(t, 0, &flat_envelope(8000)).is_empty());
    }
}

#[test]
fn samples_stay_in_range() {
    for t in ALL {
        let mut g = NoiseGenerator::new(8000);
        let s = g.generate(t, 2_000_000, &flat_envelope(8000));
        assert_eq!(s.len(), 16000);
        let bound = if t == NoiseType::Brown { 3_500_000 } else { FULL_SCALE };
        if t != NoiseType::Pink {
            assert!(s.iter().all(|&v| -bound <= v && v <= bound));
        }
    }
}

#[test]
fn blue_is_half_the_difference() {
    let mut g = NoiseGenerator::new(100);
    let draws = vec![1_000_000, -1_000_000, 500_000, 500_000];
    let s = g.shape(NoiseType::Blue, &draws, &Vec::new(), 4);
    assert_eq!(s, vec![500_000, -1_000_000, 750_000, 0]);
    assert_eq!(g.blue.prev, 500_000);
}

#[test]
fn blue_step_uses_previous_draw() {
    let mut f = BlueFilter::new();
    assert_eq!(f.step(-600_000), -300_000);
    assert_eq!(f.step(200_000), 400_000);
}

#[test]
fn white_passes_draws_through() {
    let mut g = NoiseGenerator::new(100);
    let draws = vec![3, -7, 1_000_000];
    assert_eq!(g.shape(NoiseType::White, &draws, &Vec::new(), 2), vec![3, -7]);
}

#[test]
fn gray_envelope_restarts_each_second() {
    let mut g = NoiseGenerator::new(2);
    let draws = vec![1_000_000, 1_000_000, 1_000_000];
    let env = vec![0, 500_000];
    assert_eq!(g.shape(NoiseType::Gray, &draws, &env, 3), vec![0, 150_000, 0]);
    assert_eq!(gray_sample(1_000_000, 500_000), 150_000);
    assert_eq!(gray_sample(-1_000_000, 1_000_000), -300_000);
}

#[test]
fn brown_integrates_and_clamps() {
    let mut f = BrownFilter::new();
    assert_eq!(f.step(1_000_000), 70_000);
    assert_eq!(f.level, 20_000);
    let mut f = BrownFilter { level: 990_000 };
    assert_eq!(f.step(1_000_000), 3_500_000);
    assert_eq!(f.level, 1_000_000);
    let mut f = BrownFilter { level: -990_000 };
    assert_eq!(f.step(-1_000_000), -3_500_000);
    assert_eq!(f.level, -1_000_000);
}

#[test]
fn brown_steps_are_small() {
    let mut g = NoiseGenerator::new(1000);
    let mut prev = g.brown.level;
    for _ in 0..100 {
        let _ = g.generate(NoiseType::Brown, 1_000, &Vec::new());
        assert!((g.brown.level - prev).abs() <= 20_000);
        prev = g.brown.level;
    }
}

#[test]
fn pink_first_step() {
    let mut f = PinkFilter::new();
    assert_eq!(f.step(1_000_000), 181_190);
    assert_eq!(f.s0, 555_179_000_000);
    assert_eq!(f.s5, -168_980_000_000);
    assert_eq!(f.s6, 1_159_260_000_000);
}

#[test]
fn pink_uses_delayed_sample() {
    let mut f = PinkFilter::new();
    f.step(1_000_000);
    // second draw of zero: sections decay, delayed sample enters the sum
    assert_eq!(f.step(0), 106_707);
    assert_eq!(f.s6, 0);
}

#[test]
fn sub_millisecond_duration() {
    let mut g = NoiseGenerator::new(44100);
    assert_eq!(g.generate(NoiseType::White, 100, &Vec::new()).len(), 4);
}

#[test]
fn pink_state_persists_across_calls() {
    let draws = vec![1_000_000, -250_000, 730_000, 0, -1_000_000];
    let mut whole = NoiseGenerator::new(100);
    let all = whole.shape(NoiseType::Pink, &draws, &Vec::new(), 5);
    let mut split = NoiseGenerator::new(100);
    let mut parts = split.shape(NoiseType::Pink, &draws[..2].to_vec(), &Vec::new(), 2);
    parts.extend(split.shape(NoiseType::Pink, &draws[2..].to_vec(), &Vec::new(), 3));
    assert_eq!(all, parts);
    assert_eq!(whole.pink.s0, split.pink.s0);
    assert_eq!(whole.pink.s6, split.pink.s6);
}

#[test]
fn blue_keeps_last_draw_across_calls() {
    let mut g = NoiseGenerator::new(100);
    g.shape(NoiseType::Blue, &vec![400_000], &Vec::new(), 1);
    assert_eq!(g.blue.prev, 400_000);
    assert_eq!(g.shape(NoiseType::Blue, &vec![0], &Vec::new(), 0), Vec::<i64>::new());
    assert_eq!(g.blue.prev, 400_000);
    assert_eq!(g.shape(NoiseType::Blue, &vec![0], &Vec::new(), 1), vec![-200_000]);
}
