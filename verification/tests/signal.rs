//! The whole way from a signal to its light commands, with the signal processing written out.

use bulbbeat::analyze::{
    self, smooth_hue, wrap_delta, LightStep, Reading, BASE_TRANSITION_MS, DEGREE,
    FLASH_TRANSITION_MS, MAX_ONSETS_PER_SEC, UNITY,
};
use bulbbeat::onset::{self, STFT_HOP};
use bulbbeat::survey::{self, Features, LEVEL_ONE};
use rustfft::{num_complex::Complex, FftPlanner};

const BASS_HZ: f32 = 250.0;

/// Spectral bands: bass, low, mid (vocals), high (synths, cymbals), air (atmosphere).
const BAND_EDGES: [(f32, f32); 5] = [
    (20.0, 150.0),
    (150.0, 400.0),
    (400.0, 2000.0),
    (2000.0, 8000.0),
    (8000.0, 20000.0),
];

const LOUD_EXP: f32 = 1.4;

const STFT_WINDOW: usize = 1024;

struct SegFeatures {
    rms: f32,
    bass_ratio: f32,
    /// Per-band power share (fractions summing to ~1).
    shares: [f32; 5],
}

fn hann(n: usize) -> Vec<f32> {
    (0..n)
        .map(|k| {
            let turn = std::f32::consts::TAU * k as f32 / (n - 1).max(1) as f32;
            0.5 * (1.0 - turn.cos())
        })
        .collect()
}

/// The window of the flux frames. It does not taper to zero: under one that does, steady tones
/// would flash.
fn flux_window(n: usize) -> Vec<f32> {
    (0..n)
        .map(|k| 0.5 * (1.0 - std::f32::consts::TAU * k as f32 / (n - 1) as f32).cos())
        .collect()
}

fn rms(samples: &[f32]) -> f32 {
    if samples.is_empty() {
        return 0.0;
    }
    let sum: f32 = samples.iter().map(|s| s * s).sum();
    (sum / samples.len() as f32).sqrt()
}

fn segment_features(seg: &[f32], sample_rate: u32) -> SegFeatures {
    let n = seg.len();
    let window = hann(n);
    let nfft = n.next_power_of_two();
    let mut buf: Vec<Complex<f32>> = vec![Complex::new(0.0, 0.0); nfft];
    for (i, (&s, &w)) in seg.iter().zip(&window).enumerate() {
        buf[i] = Complex::new(s * w, 0.0);
    }
    let mut planner = FftPlanner::<f32>::new();
    let fft = planner.plan_fft_forward(nfft);
    fft.process(&mut buf);

    let bin_hz = sample_rate as f32 / nfft as f32;
    let bins = &buf[1..nfft / 2];
    let mags: Vec<f32> = bins.iter().map(|c| c.norm()).collect();
    let mut band_p = [0.0f32; 5];
    for (i, &m) in mags.iter().enumerate() {
        let f = (i + 1) as f32 * bin_hz;
        for (b, (lo, hi)) in BAND_EDGES.iter().enumerate() {
            if f >= *lo && f < *hi {
                band_p[b] += m * m;
            }
        }
    }
    let band_total: f32 = band_p.iter().sum();
    let shares = if band_total > f32::EPSILON {
        band_p.map(|p| p / band_total)
    } else {
        [0.0; 5]
    };
    // Bass share in spectral energy, not magnitude: the harmonics of a square wave decay as 1/k
    // in amplitude but as 1/k² in power, and the energy of the fundamental makes bass vivid.
    let bass: f32 = mags
        .iter()
        .enumerate()
        .filter(|(i, _)| (i + 1) as f32 * bin_hz < BASS_HZ)
        .map(|(_, &m)| m * m)
        .sum();
    let total_power: f32 = mags.iter().map(|m| m * m).sum();
    let bass_ratio = if total_power > f32::EPSILON {
        bass / total_power
    } else {
        0.0
    };

    SegFeatures {
        rms: rms(seg),
        bass_ratio,
        shares,
    }
}

/// A share between 0 and 1 in the unit of the library.
fn share(x: f32) -> u32 {
    (x.clamp(0.0, 1.0) * UNITY as f32).round() as u32
}

/// A level in the unit of the library.
fn level(x: f32) -> u64 {
    (x as f64 * LEVEL_ONE as f64).round() as u64
}

/// The hue that the bands hotter than usual pull toward.
fn blend(excess: &[u128; 5]) -> u32 {
    let (mut sx, mut sy) = (0.0f32, 0.0f32);
    for (b, &w) in excess.iter().enumerate() {
        let w = (w as f64 / (100.0 * LEVEL_ONE as f64)) as f32;
        let rad = (analyze::anchor(b) as f32).to_radians();
        sx += w * rad.cos();
        sy += w * rad.sin();
    }
    let degrees = sy.atan2(sx).to_degrees().rem_euclid(360.0);
    (degrees as f64 * DEGREE as f64).round() as u32
}

/// The contrast of loudness.
fn contrast(loud: u32) -> u32 {
    share((loud as f32 / UNITY as f32).powf(LOUD_EXP))
}

/// What is heard in each segment of a track; nothing in silence.
fn readings(mono: &[f32], sample_rate: u32) -> Vec<Option<Reading>> {
    let spectra: Vec<SegFeatures> = analyze::segments(mono.len(), sample_rate)
        .into_iter()
        .map(|(start, end)| segment_features(&mono[start..end], sample_rate))
        .collect();
    let features: Vec<Features> = spectra
        .iter()
        .map(|s| Features { rms: level(s.rms), shares: s.shares.map(level) })
        .collect();
    survey::survey(&features)
        .into_iter()
        .zip(&features)
        .zip(&spectra)
        .map(|((standing, features), spectrum)| {
            standing.map(|standing| Reading {
                pull: standing.excess.map(|excess| blend(&excess)),
                shares: features.shares,
                bass: share(spectrum.bass_ratio),
                loud: contrast(standing.loud),
            })
        })
        .collect()
}

/// The spectral flux of each frame, by one continuous
/// short-time Fourier transform over the whole track, so that no restart poisons a segment
/// boundary with its fill-in spike.
fn spectral_flux(mono: &[f32]) -> Vec<u64> {
    if mono.len() < STFT_WINDOW * 2 {
        return Vec::new();
    }
    let frames = (mono.len() - STFT_WINDOW) / STFT_HOP + 1;
    let window = flux_window(STFT_WINDOW);
    let mut planner = FftPlanner::<f32>::new();
    let fft = planner.plan_fft_forward(STFT_WINDOW);
    let mut buf: Vec<Complex<f32>> = vec![Complex::new(0.0, 0.0); STFT_WINDOW];
    let mut prev_mags: Option<Vec<f32>> = None;
    let mut flux: Vec<u64> = Vec::with_capacity(frames);
    for f in 0..frames {
        let start = f * STFT_HOP;
        for (i, b) in buf.iter_mut().enumerate() {
            *b = Complex::new(mono[start + i] * window[i], 0.0);
        }
        fft.process(&mut buf);
        let mags: Vec<f32> = buf[..STFT_WINDOW / 2].iter().map(|c| c.norm()).collect();
        let cur: f32 = match &prev_mags {
            None => 0.0,
            Some(prev) => mags
                .iter()
                .zip(prev.iter())
                .map(|(&c, &p)| (c - p).max(0.0))
                .sum(),
        };
        flux.push(level(cur));
        prev_mags = Some(mags);
    }
    flux
}

/// The light commands of a mono signal.
fn analyze_signal(mono: &[f32], sample_rate: u32) -> Vec<LightStep> {
    let readings = readings(mono, sample_rate);
    if readings.is_empty() {
        return Vec::new();
    }
    let flux = spectral_flux(mono);
    let addressable = flux.len().checked_mul(STFT_HOP * 1000).is_some();
    let timeable = (readings.len() as u64).checked_mul(analyze::SEGMENT_MS).is_some();
    assert!(sample_rate > 0 && addressable && timeable, "track too long");
    let onsets = onset::detect_onsets(&flux, sample_rate);
    analyze::analyze(&readings, &onsets)
}

const SR: u32 = 8000;

fn sine(freq: f32, seconds: f32, amp: f32) -> Vec<f32> {
    let n = (SR as f32 * seconds) as usize;
    (0..n)
        .map(|i| (amp * (std::f32::consts::TAU * freq * i as f32 / SR as f32).sin()))
        .collect()
}

fn square(freq: f32, seconds: f32, amp: f32) -> Vec<f32> {
    let n = (SR as f32 * seconds) as usize;
    (0..n)
        .map(|i| {
            if ((i as f32 * freq / SR as f32) % 1.0) < 0.5 {
                amp
            } else {
                -amp
            }
        })
        .collect()
}

fn base_steps(steps: &[LightStep]) -> Vec<&LightStep> {
    steps.iter().filter(|s| s.transition_ms == BASE_TRANSITION_MS).collect()
}

#[test]
fn silence_gives_dim_floor() {
    let steps = analyze_signal(&vec![0.0f32; SR as usize], SR);
    assert_eq!(steps.len(), 1);
    assert_eq!(steps[0].bri, 5);
    assert_eq!(steps[0].start_ms, 0);
}

#[test]
fn any_sample_rate_works() {
    let base =
        LightStep { start_ms: 0, hue: 0, sat: 55, bri: 5, transition_ms: BASE_TRANSITION_MS };
    for rate in [20, 1000, 4000, 44_100] {
        assert_eq!(analyze_signal(&vec![0.0f32; rate as usize], rate), vec![base]);
    }
}

#[test]
fn mid_sine_is_greenish() {
    let signal = sine(440.0, 1.0, 0.5);
    let steps = analyze_signal(&signal, SR);
    assert_eq!(steps.len(), 1, "steady tone should not flash");
    let base = base_steps(&steps)[0];
    assert!((60..=140).contains(&base.hue), "hue {} not in [60,140]", base.hue);
}

#[test]
fn bass_tone_is_red() {
    let signal = sine(80.0, 1.0, 0.5);
    let steps = analyze_signal(&signal, SR);
    let base = base_steps(&steps)[0];
    assert!(base.hue <= 45, "hue {} should be red", base.hue);
}

#[test]
fn high_tone_is_azure() {
    let signal = sine(3000.0, 1.0, 0.5);
    let steps = analyze_signal(&signal, SR);
    let base = base_steps(&steps)[0];
    assert!((180..=240).contains(&base.hue), "hue {} should be azure", base.hue);
}

#[test]
fn bass_square_is_vivid() {
    let signal = square(110.0, 1.0, 0.9);
    let steps = analyze_signal(&signal, SR);
    let base = base_steps(&steps)[0];
    assert!(base.sat >= 80, "sat {} < 80", base.sat);
}

#[test]
fn louder_segment_is_brighter() {
    let mut signal = sine(440.0, 1.0, 0.1);
    signal.extend(sine(440.0, 1.0, 0.4)); // 4× amplitude → 4× RMS
    let steps = analyze_signal(&signal, SR);
    let base = base_steps(&steps);
    assert_eq!(base.len(), 2);
    assert!(
        base[1].bri > base[0].bri,
        "bri[1] {} not > bri[0] {}",
        base[1].bri,
        base[0].bri
    );
}

#[test]
fn trailing_tiny_segment_is_dropped() {
    // 2.0 s of audio plus a 20 ms tail (< 50 ms) → exactly 2 base steps.
    let mut signal = sine(440.0, 2.0, 0.3);
    signal.extend(vec![0.1f32; SR as usize / 50]);
    let steps = analyze_signal(&signal, SR);
    let base = base_steps(&steps);
    assert_eq!(base.len(), 2);
    assert_eq!(base[1].start_ms, 1000);
}

#[test]
fn hue_smoothing_moves_toward_target() {
    // 3000 Hz tone for 1 s then 120 Hz for 1 s: hue[0] near blue,
    // hue[1] moved toward red but must not overshoot to full red.
    let mut signal = sine(3000.0, 1.0, 0.5);
    signal.extend(sine(120.0, 1.0, 0.5));
    let steps = analyze_signal(&signal, SR);
    let base = base_steps(&steps);
    assert_eq!(base.len(), 2, "steady tones should not flash: {steps:?}");
    assert!(base[0].hue > 200, "hue[0] {} should be near blue", base[0].hue);
    let dist = |h: u16| (h as i32 - 360).abs().min(h as i32);
    assert!(
        dist(base[1].hue) < dist(base[0].hue),
        "hue[1] {} not closer to red than hue[0] {}",
        base[1].hue,
        base[0].hue
    );
    assert!(base[1].hue > 50, "hue[1] {} should not have fully reached red", base[1].hue);
}

fn degrees(d: i64) -> u32 {
    (d * DEGREE) as u32
}

#[test]
fn hue_smoothing_math() {
    assert_eq!(wrap_delta(10 * DEGREE), 10 * DEGREE);
    assert_eq!(wrap_delta(190 * DEGREE), -170 * DEGREE);
    assert_eq!(wrap_delta(-190 * DEGREE), 170 * DEGREE);
    // 60% of the wrapped distance, shortest way around.
    assert_eq!(smooth_hue(degrees(240), degrees(0)), degrees(312));
    assert_eq!(smooth_hue(degrees(0), degrees(360)), degrees(0));
    assert_eq!(smooth_hue(degrees(100), degrees(200)), degrees(160));
    assert_eq!(smooth_hue(degrees(300), degrees(20)), degrees(348)); // wraps upward through 360
}

/// Impulse clicks must produce visible flashes; a steady tone must not.
#[test]
fn clicks_flash_but_steady_tone_does_not() {
    let mut clicks = vec![0.0f32; SR as usize * 2];
    for i in (0..clicks.len()).step_by(SR as usize / 4) {
        for j in 0..64.min(clicks.len() - i) {
            clicks[i + j] = 0.9 * (1.0 - j as f32 / 64.0);
        }
    }
    let steps = analyze_signal(&clicks, SR);
    let flashes: Vec<&LightStep> =
        steps.iter().filter(|s| s.transition_ms == FLASH_TRANSITION_MS).collect();
    assert!(flashes.len() >= 3, "expected ≥3 flashes, got {}: {steps:?}", flashes.len());
    for f in &flashes {
        assert!(f.bri >= 30, "flash bri {} too dim", f.bri);
        assert!(f.transition_ms < 100, "flash must be a fast attack");
    }

    let steps = analyze_signal(&sine(440.0, 2.0, 0.5), SR);
    assert!(
        steps.iter().all(|s| s.transition_ms == BASE_TRANSITION_MS),
        "steady tone must not flash: {steps:?}"
    );
}

/// Command-rate guard: even a click every 100 ms must stay under the cap.
#[test]
fn command_rate_is_capped() {
    let mut clicks = vec![0.0f32; SR as usize * 3];
    for i in (0..clicks.len()).step_by(SR as usize / 10) {
        for j in 0..32.min(clicks.len() - i) {
            clicks[i + j] = 0.9;
        }
    }
    let steps = analyze_signal(&clicks, SR);
    for sec in 0..3u64 {
        let in_sec = steps.iter().filter(|s| {
            s.start_ms >= sec * 1000 && s.start_ms < (sec + 1) * 1000
        }).count();
        assert!(
            in_sec <= 1 + 2 * MAX_ONSETS_PER_SEC,
            "second {sec} emitted {in_sec} commands"
        );
    }
}
