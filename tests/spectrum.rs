use noise_gen::fixed::FULL_SCALE;
use noise_gen::noise::{NoiseGenerator, NoiseType};
use noise_gen::spectrum::{bin_magnitudes, half_spectrum_len, max_bin, nyquist};
use rustfft::num_complex::Complex;
use rustfft::FftPlanner;

fn magnitudes(samples: &[f32]) -> Vec<u32> {
    let len = samples.len();
    let mut planner = FftPlanner::new();
    let fft = planner.plan_fft_forward(len);
    let mut buf: Vec<Complex<f32>> = samples.iter().map(|&x| Complex { re: x, im: 0.0 }).collect();
    fft.process(&mut buf);
    buf[0..half_spectrum_len(len)]
        .iter()
        .map(|c| ((c.re * c.re + c.im * c.im).sqrt() / len as f32 * 1.0e6) as u32)
        .collect()
}

#[test]
fn bins_sum_equal_chunks() {
    let bins = bin_magnitudes(&vec![1; 120]);
    assert_eq!(bins, vec![2; 60]);
    let m: Vec<u32> = (0..60).collect();
    assert_eq!(bin_magnitudes(&m), (0..60).collect::<Vec<u64>>());
}

#[test]
fn bins_drop_remainder() {
    let mut m = vec![1; 120];
    m.extend(vec![1000; 10]);
    assert_eq!(bin_magnitudes(&m), vec![2; 60]);
}

#[test]
fn too_few_magnitudes_give_no_bins() {
    assert!(bin_magnitudes(&vec![5; 59]).is_empty());
    assert!(bin_magnitudes(&Vec::new()).is_empty());
}

#[test]
fn zero_input_gives_zero_bins() {
    let bins = bin_magnitudes(&magnitudes(&vec![0.0; 1000]));
    assert_eq!(bins.len(), 60);
    assert!(bins.iter().all(|&b| b == 0));
    assert_eq!(bin_magnitudes(&vec![0; 601]), vec![0; 60]);
}

#[test]
fn largest_bin() {
    assert_eq!(max_bin(&vec![3, 9, 2]), 9);
    assert_eq!(max_bin(&Vec::new()), 0);
}

#[test]
fn nyquist_and_half_length() {
    assert_eq!(nyquist(44100), 22050);
    assert_eq!(nyquist(8001), 4000);
    assert_eq!(half_spectrum_len(8), 5);
    assert_eq!(half_spectrum_len(1200), 601);
}

#[test]
fn sinusoid_lands_in_its_bin() {
    // 1200 points: 601 magnitudes, 10 per bin; coefficient 105 falls in bin 10.
    let n = 1200;
    let s: Vec<f32> = (0..n)
        .map(|i| (2.0 * std::f32::consts::PI * 105.0 * i as f32 / n as f32).sin())
        .collect();
    let bins = bin_magnitudes(&magnitudes(&s));
    let top = max_bin(&bins);
    assert_eq!(bins[10], top);
    assert!(bins.iter().enumerate().all(|(i, &b)| i == 10 || b * 100 < top));
}

#[test]
fn pink_has_more_low_than_high() {
    let mut g = NoiseGenerator::new(44100);
    let s = g.generate(NoiseType::Pink, 4_000_000, &Vec::new());
    let f: Vec<f32> = s.iter().map(|&v| v as f32 / FULL_SCALE as f32).collect();
    let bins = bin_magnitudes(&magnitudes(&f));
    let low: u64 = bins[1..11].iter().sum();
    let high: u64 = bins[50..60].iter().sum();
    assert!(low > 2 * high);
}
