use rustfft::num_complex::Complex;
use rustfft::FftPlanner;
use sam_cam_bam::music::band_average;
use sam_cam_bam::music::downmix;
use sam_cam_bam::music::hz_to_bin;
use sam_cam_bam::music::next_step;
use sam_cam_bam::music::normalize;
use sam_cam_bam::music::smooth;
use sam_cam_bam::music::update_and_get_moving_max;
use sam_cam_bam::music::AnalyzerStep;
use sam_cam_bam::music::AudioProcessor;
use sam_cam_bam::music::FFT_SIZE;
use sam_cam_bam::music::HOP_SIZE;
use sam_cam_bam::music::NORM_WINDOW_SIZE;
use sam_cam_bam::music::POWER_FLOOR;
use sam_cam_bam::music::POWER_SEED;
use sam_cam_bam::units::isqrt;
use sam_cam_bam::units::INTENSITY_ONE;
use std::collections::VecDeque;

/// A spectrum of `FFT_SIZE / 2` bins, silent but for the bins given.
fn spectrum(loud: &[(usize, u64)]) -> Vec<u64> {
    let mut powers = vec![0u64; FFT_SIZE / 2];
    for (bin, power) in loud.iter() {
        powers[*bin] = *power;
    }
    powers
}

fn seeded() -> VecDeque<u64> {
    let mut w = VecDeque::new();
    for _ in 0..NORM_WINDOW_SIZE {
        w.push_back(POWER_SEED);
    }
    w
}

#[test]
fn constants() {
    assert_eq!(FFT_SIZE, 512);
    assert_eq!(HOP_SIZE, 128);
    assert_eq!(NORM_WINDOW_SIZE, 50);
    assert_eq!(INTENSITY_ONE, 1_000_000);
}

#[test]
fn bins_at_44100_hz() {
    assert_eq!(hz_to_bin(50, 44100), 1);
    assert_eq!(hz_to_bin(180, 44100), 2);
    assert_eq!(hz_to_bin(3000, 44100), 35);
    assert_eq!(hz_to_bin(19845, 44100), 230);
}

#[test]
fn bins_at_48000_hz() {
    assert_eq!(hz_to_bin(50, 48000), 1);
    assert_eq!(hz_to_bin(180, 48000), 2);
    assert_eq!(hz_to_bin(3000, 48000), 32);
    assert_eq!(hz_to_bin(21600, 48000), 230);
}

#[test]
fn bins_round_to_nearest() {
    // One hertz is one bin at a sample rate of 512.
    assert_eq!(hz_to_bin(7, 512), 7);
    // 0.5 and 1.5 bins round upward, 1.25 downward, 1.75 upward.
    assert_eq!(hz_to_bin(1, 1024), 1);
    assert_eq!(hz_to_bin(3, 1024), 2);
    assert_eq!(hz_to_bin(5, 2048), 1);
    assert_eq!(hz_to_bin(7, 2048), 2);
    assert_eq!(hz_to_bin(9, 2048), 2);
    assert_eq!(hz_to_bin(11, 2048), 3);
}

#[test]
fn bins_are_kept_off_zero_and_below_half() {
    assert_eq!(hz_to_bin(0, 44100), 1);
    assert_eq!(hz_to_bin(10, 44100), 1);
    assert_eq!(hz_to_bin(22050, 44100), 256);
    assert_eq!(hz_to_bin(30000, 44100), 256);
    assert_eq!(hz_to_bin(u32::MAX, 1), 256);
    assert_eq!(hz_to_bin(u32::MAX, u32::MAX), 256);
    assert_eq!(hz_to_bin(1, u32::MAX), 1);
}

#[test]
fn bins_at_sample_rate_zero() {
    assert_eq!(hz_to_bin(0, 0), 1);
    assert_eq!(hz_to_bin(50, 0), 256);
}

#[test]
fn band_average_is_the_mean() {
    let powers = vec![1, 2, 3, 4, 5];
    assert_eq!(band_average(&powers, 1, 4), 3);
    assert_eq!(band_average(&powers, 0, 5), 3);
    assert_eq!(band_average(&powers, 0, 2), 1);
    assert_eq!(band_average(&powers, 4, 5), 5);
}

#[test]
fn band_average_cuts_the_range() {
    let powers = vec![1, 2, 3, 4, 5];
    assert_eq!(band_average(&powers, 3, 10), 4);
    assert_eq!(band_average(&powers, 0, usize::MAX), 3);
}

#[test]
fn band_average_of_an_empty_range_is_zero() {
    let powers = vec![1, 2, 3, 4, 5];
    assert_eq!(band_average(&powers, 4, 4), 0);
    assert_eq!(band_average(&powers, 4, 2), 0);
    assert_eq!(band_average(&powers, 7, 9), 0);
    assert_eq!(band_average(&vec![], 0, 3), 0);
}

#[test]
fn band_average_of_huge_values() {
    let powers = vec![u64::MAX, u64::MAX, u64::MAX];
    assert_eq!(band_average(&powers, 0, 3), u64::MAX);
    assert_eq!(band_average(&vec![u64::MAX, 0], 0, 2), u64::MAX / 2);
}

#[test]
fn moving_max_takes_in_and_pushes_out() {
    let mut w: VecDeque<u64> = VecDeque::new();
    assert_eq!(update_and_get_moving_max(&mut w, 5_000), 5_000);
    assert_eq!(update_and_get_moving_max(&mut w, 9_000), 9_000);
    assert_eq!(update_and_get_moving_max(&mut w, 7_000), 9_000);
    assert_eq!(w, VecDeque::from(vec![5_000, 9_000, 7_000]));
    let mut full = seeded();
    assert_eq!(update_and_get_moving_max(&mut full, 3), POWER_SEED);
    assert_eq!(full.len(), NORM_WINDOW_SIZE);
    assert_eq!(full[NORM_WINDOW_SIZE - 1], POWER_FLOOR);
    assert_eq!(full[0], POWER_SEED);
}

#[test]
fn moving_max_floors_what_enters() {
    let mut w: VecDeque<u64> = VecDeque::new();
    assert_eq!(update_and_get_moving_max(&mut w, 0), POWER_FLOOR);
    assert_eq!(update_and_get_moving_max(&mut w, 999), POWER_FLOOR);
    assert_eq!(update_and_get_moving_max(&mut w, 1_000), POWER_FLOOR);
    assert_eq!(update_and_get_moving_max(&mut w, 1_001), 1_001);
    assert_eq!(w, VecDeque::from(vec![1_000, 1_000, 1_000, 1_001]));
}

#[test]
fn adaptive_ceiling_decay_bound() {
    let loud: u64 = 5_000_000_000;
    let mut w = seeded();
    assert_eq!(update_and_get_moving_max(&mut w, loud), loud);
    // The loud frame stays for the next M - 1 frames.
    for _ in 0..NORM_WINDOW_SIZE - 1 {
        assert_eq!(update_and_get_moving_max(&mut w, 0), loud);
    }
    // Silent frame M pushes it out: the ceiling is at the floor.
    assert_eq!(update_and_get_moving_max(&mut w, 0), POWER_FLOOR);
    // And frame M + 1 finds it there.
    assert_eq!(update_and_get_moving_max(&mut w, 0), POWER_FLOOR);
    assert_eq!(w.len(), NORM_WINDOW_SIZE);
}

#[test]
fn normalize_is_the_root_of_the_quotient() {
    assert_eq!(normalize(7, 7), 1_000_000);
    assert_eq!(normalize(1, 4), 500_000);
    assert_eq!(normalize(250_000, 1_000_000), 500_000);
    assert_eq!(normalize(1, 3), 577_350);
    assert_eq!(normalize(1, 100), 100_000);
    assert_eq!(normalize(0, 5), 0);
    assert_eq!(normalize(u64::MAX, u64::MAX), 1_000_000);
    assert_eq!(normalize(1, u64::MAX), 0);
}

#[test]
fn normalize_is_capped_at_full_scale() {
    assert_eq!(normalize(2, 1), 1_000_000);
    assert_eq!(normalize(u64::MAX, 1), 1_000_000);
}

#[test]
fn normalize_against_no_ceiling() {
    assert_eq!(normalize(0, 0), 0);
    assert_eq!(normalize(5, 0), 1_000_000);
}

#[test]
fn smoothing_steps() {
    assert_eq!(smooth(0, 1_000_000), 150_000);
    assert_eq!(smooth(150_000, 1_000_000), 277_500);
    assert_eq!(smooth(1_000_000, 0), 850_000);
    assert_eq!(smooth(7, 7), 7);
    assert_eq!(smooth(1, 0), 0);
    assert_eq!(smooth(u32::MAX, u32::MAX), u32::MAX);
}

#[test]
fn integer_square_roots() {
    assert_eq!(isqrt(0), 0);
    assert_eq!(isqrt(1), 1);
    assert_eq!(isqrt(3), 1);
    assert_eq!(isqrt(4), 2);
    assert_eq!(isqrt(15), 3);
    assert_eq!(isqrt(16), 4);
    assert_eq!(isqrt(1_000_000_000_000), 1_000_000);
    assert_eq!(isqrt(999_999_999_999), 999_999);
    assert_eq!(isqrt(u128::MAX), u64::MAX);
    assert_eq!(isqrt((u64::MAX as u128) * (u64::MAX as u128)), u64::MAX);
    assert_eq!(isqrt((u64::MAX as u128) * (u64::MAX as u128) - 1), u64::MAX - 1);
}

#[test]
fn downmix_averages_the_channels() {
    assert_eq!(downmix(&vec![10, 20, 30, 50], 2), vec![15, 40]);
    assert_eq!(downmix(&vec![3, 3, 4, 0, 0, 0], 3), vec![3, 0]);
}

#[test]
fn downmix_rounds_toward_zero() {
    assert_eq!(downmix(&vec![10, 21, -10, -21], 2), vec![15, -15]);
    assert_eq!(downmix(&vec![-1, 0, 1, 0], 2), vec![0, 0]);
}

#[test]
fn downmix_drops_an_incomplete_frame() {
    assert_eq!(downmix(&vec![2, 4, 6, 8, 10], 2), vec![3, 7]);
    assert_eq!(downmix(&vec![2], 2), Vec::<i32>::new());
    assert_eq!(downmix(&vec![], 2), Vec::<i32>::new());
}

#[test]
fn downmix_of_one_channel_changes_nothing() {
    assert_eq!(downmix(&vec![5, -6, 7], 1), vec![5, -6, 7]);
    assert_eq!(downmix(&vec![5, -6, 7], 0), vec![5, -6, 7]);
}

#[test]
fn downmix_at_the_sample_limits() {
    assert_eq!(downmix(&vec![i32::MIN, i32::MIN, i32::MIN], 3), vec![i32::MIN]);
    assert_eq!(downmix(&vec![i32::MAX, i32::MAX], 2), vec![i32::MAX]);
    assert_eq!(downmix(&vec![i32::MIN, i32::MAX], 2), vec![0]);
}

#[test]
fn new_processor() {
    let p = AudioProcessor::new(44100, 2, 3);
    assert_eq!(p.sample_rate(), 44100);
    assert_eq!(p.channels(), 2);
    assert_eq!(p.buffered(), 0);
    assert_eq!(p.intensities(), vec![0, 0, 0]);
    assert_eq!(p.bin_range(0), (1, 2));
    assert_eq!(p.bin_range(1), (2, 35));
    assert_eq!(p.bin_range(2), (35, 230));
    assert_eq!(p.bin_range(3), (0, 0));
    for b in 0..3 {
        assert_eq!(p.ceiling(b), POWER_SEED);
    }
    assert_eq!(p.ceiling(3), 0);
    assert_eq!(p.window(), None);
}

#[test]
fn processor_at_sample_rate_zero_has_empty_bands() {
    let mut p = AudioProcessor::new(0, 1, 3);
    assert_eq!(p.bin_range(0), (256, 256));
    assert_eq!(p.bin_range(1), (256, 256));
    assert_eq!(p.bin_range(2), (256, 1));
    p.push_samples(&vec![0; FFT_SIZE]);
    let powers = vec![u64::MAX; FFT_SIZE / 2];
    assert_eq!(p.analyze(&powers), Some(vec![0, 0, 0]));
}

#[test]
fn samples_are_buffered_as_mono() {
    let mut p = AudioProcessor::new(44100, 2, 3);
    p.push_samples(&vec![10, 20, -4, -8, 9]);
    assert_eq!(p.buffered(), 2);
    p.push_samples(&vec![1, 1]);
    assert_eq!(p.buffered(), 3);
    assert_eq!(p.window(), None);
    let mut block = Vec::new();
    for i in 0..FFT_SIZE as i32 {
        block.push(i);
        block.push(i);
    }
    p.push_samples(&block);
    assert_eq!(p.buffered(), FFT_SIZE + 3);
    let w = p.window().unwrap();
    assert_eq!(w.len(), FFT_SIZE);
    assert_eq!(&w[0..5], &[15, -6, 1, 0, 1]);
    assert_eq!(w[FFT_SIZE - 1], FFT_SIZE as i32 - 4);
    // Asking does not consume.
    assert_eq!(p.window().unwrap(), w);
}

#[test]
fn a_frame_moves_each_band_one_step() {
    let mut p = AudioProcessor::new(44100, 1, 3);
    p.push_samples(&vec![0; FFT_SIZE]);
    // Band 0 is bin 1; band 1 is bins 2..35; band 2 is bins 35..230.
    let powers = spectrum(&[(1, 250_000), (10, 33_000_000_000), (35, 195_000_000), (230, 77)]);
    let out = p.analyze(&powers).unwrap();
    // Band 0: 250_000 against the seed of 1_000_000 is one half.
    // Band 1: the mean of 1_000_000_000 is its own ceiling, so full scale.
    // Band 2: the mean of 1_000_000 equals the seed, so full scale.
    assert_eq!(out, vec![75_000, 150_000, 150_000]);
    assert_eq!(p.intensities(), out);
    assert_eq!(p.ceiling(0), POWER_SEED);
    assert_eq!(p.ceiling(1), 1_000_000_000);
    assert_eq!(p.ceiling(2), POWER_SEED);
    assert_eq!(p.buffered(), FFT_SIZE - HOP_SIZE);
}

#[test]
fn frames_are_a_hop_apart() {
    let mut p = AudioProcessor::new(44100, 1, 3);
    let mut block = Vec::new();
    for i in 0..(FFT_SIZE + 2 * HOP_SIZE) as i32 {
        block.push(i);
    }
    p.push_samples(&block);
    let silent = spectrum(&[]);
    let mut frames = 0;
    while let Some(w) = p.window() {
        assert_eq!(w[0], (frames * HOP_SIZE) as i32);
        assert_eq!(w[FFT_SIZE - 1], (frames * HOP_SIZE + FFT_SIZE - 1) as i32);
        assert!(p.analyze(&silent).is_some());
        frames += 1;
    }
    assert_eq!(frames, 3);
    assert_eq!(p.buffered(), FFT_SIZE - HOP_SIZE);
}

#[test]
fn no_analysis_without_a_window() {
    let mut p = AudioProcessor::new(44100, 1, 3);
    p.push_samples(&vec![0; FFT_SIZE - 1]);
    let powers = spectrum(&[(10, 33_000_000_000)]);
    assert_eq!(p.analyze(&powers), None);
    assert_eq!(p.buffered(), FFT_SIZE - 1);
    assert_eq!(p.intensities(), vec![0, 0, 0]);
    assert_eq!(p.ceiling(1), POWER_SEED);
    p.push_samples(&vec![0]);
    assert_eq!(p.analyze(&powers), Some(vec![0, 150_000, 0]));
}

#[test]
fn smoothing_converges_on_a_steady_band() {
    let mut p = AudioProcessor::new(44100, 1, 3);
    p.push_samples(&vec![0; FFT_SIZE + 40 * HOP_SIZE]);
    let powers = spectrum(&[(10, 33_000_000_000)]);
    let mut last = 0;
    let mut expected: u64 = 0;
    for _ in 0..40 {
        let out = p.analyze(&powers).unwrap();
        expected = (expected * 85 + 1_000_000 * 15) / 100;
        assert_eq!(out[1] as u64, expected);
        assert!(out[1] > last);
        assert_eq!(out[0], 0);
        assert_eq!(out[2], 0);
        last = out[1];
    }
    assert!(last > 998_000);
}

#[test]
fn outputs_without_a_band_stay_zero() {
    let mut p = AudioProcessor::new(44100, 1, 5);
    p.push_samples(&vec![0; FFT_SIZE]);
    let powers = spectrum(&[(1, 4_000_000), (10, 33_000_000_000), (100, 195_000_000)]);
    assert_eq!(p.analyze(&powers), Some(vec![150_000, 150_000, 150_000, 0, 0]));
}

#[test]
fn fewer_outputs_than_bands() {
    let mut p = AudioProcessor::new(44100, 1, 2);
    p.push_samples(&vec![0; FFT_SIZE]);
    let powers = spectrum(&[(1, 4_000_000), (10, 33_000_000_000), (100, 780_000_000)]);
    assert_eq!(p.analyze(&powers), Some(vec![150_000, 150_000]));
    // The third band is still followed.
    assert_eq!(p.ceiling(2), 4_000_000);
    let mut none = AudioProcessor::new(44100, 1, 0);
    none.push_samples(&vec![0; FFT_SIZE]);
    assert_eq!(none.analyze(&powers), Some(vec![]));
}

#[test]
fn a_short_spectrum_leaves_high_bands_silent() {
    let mut p = AudioProcessor::new(44100, 1, 3);
    p.push_samples(&vec![0; FFT_SIZE]);
    // Bins 0..4 only: band 1 is cut to bins 2..4, band 2 is empty.
    let powers = vec![0, 4_000_000, 3_000_000, 1_000_000];
    assert_eq!(p.analyze(&powers), Some(vec![150_000, 150_000, 0]));
    assert_eq!(p.ceiling(1), 2_000_000);
}

#[test]
fn ceiling_of_a_processor_decays_with_the_window() {
    let mut p = AudioProcessor::new(44100, 1, 3);
    p.push_samples(&vec![0; FFT_SIZE + (NORM_WINDOW_SIZE + 1) * HOP_SIZE]);
    let loud = spectrum(&[(10, 33_000_000_000)]);
    let silent = spectrum(&[]);
    assert!(p.analyze(&loud).is_some());
    assert_eq!(p.ceiling(1), 1_000_000_000);
    for _ in 0..NORM_WINDOW_SIZE - 1 {
        assert!(p.analyze(&silent).is_some());
        assert_eq!(p.ceiling(1), 1_000_000_000);
    }
    assert!(p.analyze(&silent).is_some());
    assert_eq!(p.ceiling(1), POWER_FLOOR);
    assert!(p.analyze(&silent).is_some());
    assert_eq!(p.ceiling(1), POWER_FLOOR);
    assert_eq!(p.ceiling(0), POWER_FLOOR);
}

#[test]
fn silence_after_idling() {
    let mut p = AudioProcessor::new(44100, 1, 3);
    p.push_samples(&vec![0; FFT_SIZE]);
    let powers = spectrum(&[(10, 33_000_000_000)]);
    assert_eq!(p.analyze(&powers), Some(vec![0, 150_000, 0]));
    // Samples are still buffered: no silence yet.
    assert_eq!(p.idle(1_000), None);
    assert_eq!(p.intensities(), vec![0, 150_000, 0]);
    // Use the buffer up.
    p.push_samples(&vec![0; HOP_SIZE]);
    while p.analyze(&powers).is_some() {}
    assert_eq!(p.buffered(), FFT_SIZE - HOP_SIZE);
    assert_eq!(p.idle(1_000), None);
}

#[test]
fn silence_needs_an_empty_buffer_and_a_long_pause() {
    let mut p = AudioProcessor::new(44100, 1, 3);
    assert_eq!(p.idle(0), None);
    assert_eq!(p.idle(100), None);
    assert_eq!(p.idle(101), Some(vec![0, 0, 0]));
    p.push_samples(&vec![1]);
    assert_eq!(p.idle(101), None);
    // The ceilings are left alone.
    assert_eq!(p.ceiling(0), POWER_SEED);
}

#[test]
fn silence_is_emitted_once() {
    let mut p = AudioProcessor::new(44100, 2, 3);
    assert_eq!(p.idle(150), Some(vec![0, 0, 0]));
    // The pause goes on: nothing more is emitted.
    assert_eq!(p.idle(250), None);
    assert_eq!(p.idle(u64::MAX), None);
    // Half a stereo frame brings no sample: the pause is not over.
    p.push_samples(&vec![7]);
    assert_eq!(p.buffered(), 0);
    assert_eq!(p.idle(500), None);
    // Samples end the pause; while they are buffered no silence is due.
    p.push_samples(&vec![7, 9]);
    assert_eq!(p.buffered(), 1);
    assert_eq!(p.idle(500), None);
}

#[test]
fn analyzer_loop_steps() {
    assert_eq!(next_step(false, false, false, true), AnalyzerStep::Process);
    assert_eq!(next_step(false, false, false, false), AnalyzerStep::Idle);
    assert_eq!(next_step(true, false, false, true), AnalyzerStep::Stop);
    assert_eq!(next_step(false, true, false, false), AnalyzerStep::Stop);
    assert_eq!(next_step(false, false, true, true), AnalyzerStep::Stop);
}

/// Samples are 24-bit fixed point.
const SAMPLE_ONE: f32 = 8_388_608.0;

fn hann(len: usize) -> Vec<f32> {
    let mut w = Vec::new();
    for x in 0..len {
        let phase = 2.0 * std::f64::consts::PI * x as f64 / (len - 1) as f64;
        w.push((0.5 * (1.0 - phase.cos())) as f32);
    }
    w
}

/// The power of the first half of the bins of a window, in billionths.
fn power_spectrum(window: &[i32], taper: &[f32]) -> Vec<u64> {
    let mut planner: FftPlanner<f32> = FftPlanner::new();
    let fft = planner.plan_fft_forward(FFT_SIZE);
    let mut buffer: Vec<Complex<f32>> = Vec::new();
    for (s, w) in window.iter().zip(taper.iter()) {
        buffer.push(Complex::new(*s as f32 / SAMPLE_ONE * w, 0.0));
    }
    fft.process(&mut buffer);
    let mut powers = Vec::new();
    for c in buffer[0..FFT_SIZE / 2].iter() {
        powers.push((c.norm_sqr() as f64 * 1e9).round() as u64);
    }
    powers
}

#[test]
fn band_isolation() {
    let sample_rate: u32 = 44100;
    let mut p = AudioProcessor::new(sample_rate, 1, 3);
    let taper = hann(FFT_SIZE);
    // The middle of the mid band, 180 Hz to 3000 Hz.
    let tone_hz = 1590.0f64;
    let hops = 30;
    let mut block = Vec::new();
    for n in 0..FFT_SIZE + (hops - 1) * HOP_SIZE {
        let t = n as f64 / sample_rate as f64;
        let s = 0.05 * (2.0 * std::f64::consts::PI * tone_hz * t).sin();
        block.push((s * SAMPLE_ONE as f64).round() as i32);
    }
    p.push_samples(&block);
    let mut frames = 0;
    while let Some(window) = p.window() {
        let powers = power_spectrum(&window, &taper);
        let out = p.analyze(&powers).unwrap();
        frames += 1;
        assert!(out[0] < 100_000);
        assert!(out[2] < 100_000);
        if frames >= 10 {
            assert!(out[1] > 800_000);
        }
    }
    assert_eq!(frames, hops);
    let last = p.intensities();
    assert!(last[1] > 990_000);
    assert!(last[0] < 100_000);
    assert!(last[2] < 100_000);
}
