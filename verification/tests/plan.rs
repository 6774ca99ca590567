//! Segments, onsets, tones, and the light plan.

use bulbbeat::analyze::{
    analyze, anchor, choose_hue, dominant_band, flash_brightness, segments, smooth_hue, LightStep,
    Onset, Reading, BASE_TRANSITION_MS, DECAY_TRANSITION_MS, DEGREE, FLASH_TRANSITION_MS, UNITY,
};
use bulbbeat::onset::detect_onsets;
use bulbbeat::plan::table;
use bulbbeat::survey::{is_silent, percentile, sort_levels, survey, Features, LEVEL_ONE};

fn step(start_ms: u64, hue: u16, sat: u8, bri: u8, transition_ms: u32) -> LightStep {
    LightStep { start_ms, hue, sat, bri, transition_ms }
}

fn reading(pull: Option<u32>, bass: u32, loud: u32) -> Option<Reading> {
    Some(Reading { pull, shares: [0, 0, 5, 1, 1], bass, loud })
}

fn degrees(d: i64) -> u32 {
    (d * DEGREE) as u32
}

#[test]
fn a_track_is_cut_into_seconds() {
    assert_eq!(segments(20_000, 8000), vec![(0, 8000), (8000, 16_000), (16_000, 20_000)]);
    assert_eq!(segments(16_400, 8000), vec![(0, 8000), (8000, 16_000), (16_000, 16_400)]);
    assert_eq!(segments(16_399, 8000), vec![(0, 8000), (8000, 16_000)]);
    assert_eq!(segments(16_000, 8000), vec![(0, 8000), (8000, 16_000)]);
    assert_eq!(segments(10, 8000), vec![]);
    assert_eq!(segments(0, 8000), vec![]);
    assert_eq!(segments(100, 0), vec![]);
}

/// Flux with a little noise, and peaks of the given heights at the given frames.
fn flux(frames: usize, peaks: &[(usize, u64)]) -> Vec<u64> {
    let mut levels = vec![LEVEL_ONE / 100; frames];
    for &(k, height) in peaks {
        levels[k] = height * LEVEL_ONE;
    }
    levels
}

fn times(onsets: &[Onset]) -> Vec<u64> {
    onsets.iter().map(|o| o.ms).collect()
}

#[test]
fn onsets_are_peaks_with_history_and_lookahead() {
    let onsets = detect_onsets(&flux(40, &[(7, 9), (10, 9), (30, 9), (38, 9)]), 8000);
    // No history at frame 7, no lookahead at frame 38.
    assert_eq!(times(&onsets), vec![640, 1920]);
    assert!(onsets.iter().all(|o| o.strength == UNITY));
}

#[test]
fn the_strength_of_an_onset_is_its_share_of_the_loudest() {
    let mut peaks: Vec<(usize, u64)> = (1..10).map(|k| (k * 20, 8)).collect();
    peaks.push((200, 4));
    let onsets = detect_onsets(&flux(220, &peaks), 8000);
    assert_eq!(onsets.len(), 10);
    assert_eq!(onsets[0].strength, UNITY);
    assert_eq!(onsets[9].strength, UNITY / 2);
}

#[test]
fn weak_peaks_are_no_onsets() {
    // 2 is less than three tenths of 8.
    let mut peaks: Vec<(usize, u64)> = (1..10).map(|k| (k * 20, 8)).collect();
    peaks.push((200, 2));
    assert_eq!(detect_onsets(&flux(220, &peaks), 8000).len(), 9);
}

#[test]
fn a_plateau_counts_once() {
    assert_eq!(detect_onsets(&flux(60, &[(30, 9), (31, 9), (32, 9)]), 8000).len(), 1);
}

#[test]
fn steady_tones_have_no_onsets() {
    // Crests of three times the median.
    let levels: Vec<u64> = (0..60).map(|k| if k % 20 == 0 { 3 } else { 1 } * LEVEL_ONE).collect();
    assert_eq!(detect_onsets(&levels, 8000), vec![]);
    let loud: Vec<u64> = (0..60).map(|k| if k % 20 == 0 { 5 } else { 1 } * LEVEL_ONE).collect();
    assert_eq!(detect_onsets(&loud, 8000).len(), 2);
}

#[test]
fn a_peak_must_rise_above_its_history() {
    let mut levels = flux(80, &[]);
    for k in 40..48 {
        levels[k] = 10 * LEVEL_ONE;
    }
    levels[48] = 15 * LEVEL_ONE;
    assert!(!times(&detect_onsets(&levels, 8000)).contains(&(48 * 64)));
    levels[48] = 17 * LEVEL_ONE;
    assert!(times(&detect_onsets(&levels, 8000)).contains(&(48 * 64)));
}

#[test]
fn tracks_without_flux_have_no_onsets() {
    assert_eq!(detect_onsets(&[], 8000), vec![]);
    assert_eq!(detect_onsets(&[0; 8], 8000), vec![]);
    // Too short for any history.
    assert_eq!(detect_onsets(&[9 * LEVEL_ONE; 6], 8000), vec![]);
    let mut hiss = vec![0; 40];
    hiss[20] = 131_072;
    assert_eq!(detect_onsets(&hiss, 8000), vec![]);
}

#[test]
fn onsets_keep_the_minimum_gap() {
    let peaks = [(10, 9), (13, 9), (16, 9), (19, 9)];
    // 3 hops at 16 kHz are 96 ms, 6 hops 192 ms.
    assert_eq!(times(&detect_onsets(&flux(60, &peaks), 16_000)), vec![320, 512]);
}

#[test]
fn louder_tracks_have_the_same_onsets() {
    let quiet = flux(220, &[(20, 8), (60, 7), (100, 5), (140, 3), (180, 6)]);
    let onsets = detect_onsets(&quiet, 8000);
    assert_eq!(onsets.len(), 5);
    for factor in [2, 3, 1000] {
        let louder: Vec<u64> = quiet.iter().map(|level| factor * level).collect();
        assert_eq!(detect_onsets(&louder, 8000), onsets);
    }
}

#[test]
fn percentiles_follow_the_volume() {
    let levels = vec![40, 10, 30, 20];
    let louder: Vec<u64> = levels.iter().map(|level| 7 * level).collect();
    for percent in [5, 50, 95, 98] {
        assert_eq!(
            percentile(&sort_levels(&louder), percent),
            7 * percentile(&sort_levels(&levels), percent)
        );
    }
}

#[test]
fn percentiles_are_interpolated() {
    let sorted = sort_levels(&vec![40, 10, 30, 20]);
    assert_eq!(sorted, vec![10, 20, 30, 40]);
    assert_eq!(percentile(&sorted, 0), 1000);
    assert_eq!(percentile(&sorted, 50), 2500);
    assert_eq!(percentile(&sorted, 95), 3850);
    assert_eq!(percentile(&sorted, 100), 4000);
    assert_eq!(percentile(&vec![7], 98), 700);
    assert_eq!(percentile(&vec![], 98), 0);
}

fn features(rms: u64, shares: [u64; 5]) -> Features {
    Features { rms: rms * LEVEL_ONE, shares: shares.map(|s| s * LEVEL_ONE / 100) }
}

#[test]
fn seconds_are_compared_to_their_track() {
    let standings = survey(&vec![
        features(1, [20, 20, 20, 20, 20]),
        features(2, [30, 20, 20, 20, 10]),
        features(3, [20, 20, 20, 20, 20]),
    ]);
    let loud: Vec<u32> = standings.iter().map(|s| s.unwrap().loud).collect();
    assert_eq!(loud, vec![0, UNITY / 2, UNITY]);
    assert!(standings[0].unwrap().excess.is_none());
    let excess = standings[1].unwrap().excess.unwrap();
    let tenth = 30 * LEVEL_ONE as u128 / 100 * 100 - 20 * LEVEL_ONE as u128 / 100 * 100;
    assert!(excess[0].abs_diff(tenth) < 200);
    assert_eq!(&excess[1..], &[0; 4]);
    // The median of the last band is what the others have, and 10 is less.
    assert!(standings[2].unwrap().excess.is_none());
}

#[test]
fn tracks_of_one_loudness_are_shown_halfway() {
    let standings = survey(&vec![features(3, [20; 5]); 2]);
    assert!(standings.iter().all(|s| s.unwrap().loud == UNITY / 2));
}

#[test]
fn silent_seconds() {
    assert!(is_silent(&Features { rms: 10_995_115, shares: [LEVEL_ONE; 5] }));
    assert!(!is_silent(&Features { rms: 10_995_116, shares: [0, 0, 131_073, 0, 0] }));
    assert!(is_silent(&Features { rms: LEVEL_ONE, shares: [131_072; 5] }));
    assert!(survey(&vec![Features { rms: 0, shares: [0; 5] }])[0].is_none());
}

#[test]
fn anchors_of_the_bands() {
    let hues: Vec<u16> = (0..5).map(anchor).collect();
    assert_eq!(hues, vec![0, 60, 130, 210, 270]);
}

#[test]
fn the_last_of_equal_bands_dominates() {
    assert_eq!(dominant_band([1, 9, 3, 9, 2]), 3);
    assert_eq!(dominant_band([7, 1, 2, 3, 4]), 0);
    assert_eq!(dominant_band([0; 5]), 4);
}

#[test]
fn a_balanced_mix_carries_the_previous_hue() {
    assert_eq!(choose_hue(Some(77), None, [9, 0, 0, 0, 0]), 77);
    assert_eq!(choose_hue(None, None, [0, 9, 0, 0, 0]), 60);
}

#[test]
fn hues_are_steered_smoothly() {
    assert_eq!(choose_hue(None, Some(degrees(210)), [0; 5]), 210);
    assert_eq!(choose_hue(Some(240), Some(0), [0; 5]), 312);
    assert_eq!(choose_hue(Some(0), Some(degrees(1)), [0; 5]), 1); // 0.6 rounds up
    assert_eq!(choose_hue(None, Some(359_600_000), [0; 5]), 360);
}

#[test]
fn smoothing_leaves_two_fifths_of_the_way() {
    for (from, target) in [(10, 110), (350, 20), (20, 350), (90, 90)] {
        let now = smooth_hue(degrees(from), degrees(target)) as i64;
        let way = |a: i64| (target * DEGREE - a + 540 * DEGREE).rem_euclid(360 * DEGREE) - 180 * DEGREE;
        assert_eq!(way(now) * 5, way(from * DEGREE) * 2);
    }
}

#[test]
fn flashes_grow_with_the_onset() {
    assert_eq!(flash_brightness(12, UNITY), 64);
    assert_eq!(flash_brightness(12, UNITY / 2), 47);
    assert_eq!(flash_brightness(12, 0), 30);
    assert_eq!(flash_brightness(88, UNITY), 100);
}

#[test]
fn tones_follow_bass_and_loudness() {
    let steps = analyze(
        &vec![reading(Some(0), 0, 0), reading(Some(0), UNITY, UNITY), reading(Some(0), UNITY / 2, UNITY / 2)],
        &vec![],
    );
    assert_eq!(
        steps,
        vec![
            step(0, 0, 55, 12, BASE_TRANSITION_MS),
            step(1000, 0, 100, 88, BASE_TRANSITION_MS),
            step(2000, 0, 78, 50, BASE_TRANSITION_MS),
        ]
    );
}

#[test]
fn more_bass_is_more_saturated_and_louder_is_brighter() {
    let shares: Vec<u32> = (0..=100).map(|k| UNITY / 100 * k).collect();
    let steps = analyze(&shares.iter().map(|&s| reading(None, s, s)).collect(), &vec![]);
    assert_eq!(steps.len(), 101);
    assert!(steps.windows(2).all(|w| w[0].sat <= w[1].sat && w[0].bri <= w[1].bri));
    assert!(steps[0].sat < steps[100].sat && steps[0].bri < steps[100].bri);
}

#[test]
fn silence_dims_and_keeps_the_color() {
    let steps = analyze(&vec![None, reading(None, UNITY, UNITY), None], &vec![]);
    assert_eq!(
        steps,
        vec![
            step(0, 0, 55, 5, BASE_TRANSITION_MS),
            step(1000, 130, 100, 88, BASE_TRANSITION_MS),
            step(2000, 130, 100, 5, BASE_TRANSITION_MS),
        ]
    );
}

#[test]
fn beats_flash_and_decay() {
    let onsets = vec![Onset { ms: 100, strength: UNITY }, Onset { ms: 700, strength: 0 }];
    let steps = analyze(&vec![reading(None, 0, 0)], &onsets);
    assert_eq!(
        steps,
        vec![
            step(0, 130, 55, 12, BASE_TRANSITION_MS),
            step(100, 130, 55, 64, FLASH_TRANSITION_MS),
            step(330, 130, 55, 12, DECAY_TRANSITION_MS),
            // No room for the decay: 700 + 230 + 80 is beyond the second.
            step(700, 130, 55, 30, FLASH_TRANSITION_MS),
        ]
    );
}

#[test]
fn silence_does_not_flash() {
    let onsets = vec![Onset { ms: 100, strength: UNITY }];
    assert_eq!(analyze(&vec![None], &onsets).len(), 1);
}

#[test]
fn only_the_strongest_onsets_are_shown() {
    let onsets: Vec<Onset> = [(0, 5), (200, 1), (400, 5), (600, 3), (800, 4)]
        .iter()
        .map(|&(ms, strength)| Onset { ms: 1000 + ms, strength })
        .collect();
    let steps = analyze(&vec![reading(None, 0, 0), reading(None, 0, 0)], &onsets);
    let shown: Vec<u64> = steps
        .iter()
        .filter(|s| s.transition_ms == FLASH_TRANSITION_MS)
        .map(|s| s.start_ms)
        .collect();
    assert_eq!(shown, vec![1000, 1400, 1800]);
}

#[test]
fn of_equal_onsets_the_first_are_shown() {
    let onsets: Vec<Onset> = (0..5).map(|k| Onset { ms: k * 150, strength: 7 }).collect();
    let steps = analyze(&vec![reading(None, 0, 0)], &onsets);
    let shown: Vec<u64> = steps
        .iter()
        .filter(|s| s.transition_ms == FLASH_TRANSITION_MS)
        .map(|s| s.start_ms)
        .collect();
    assert_eq!(shown, vec![0, 150, 300]);
}

#[test]
fn commands_run_forward_and_stay_in_range() {
    let onsets: Vec<Onset> = (0..30).map(|k| Onset { ms: k * 120, strength: UNITY }).collect();
    let steps = analyze(&vec![reading(Some(1), UNITY, UNITY); 4], &onsets);
    assert!(steps.windows(2).all(|w| w[0].start_ms <= w[1].start_ms));
    assert!(steps.iter().all(|s| s.hue <= 360 && s.sat <= 100 && s.bri <= 100));
    for second in 0..4 {
        let count = steps.iter().filter(|s| s.start_ms / 1000 == second).count();
        assert!(1 <= count && count <= 7);
    }
}

#[test]
fn the_same_readings_make_the_same_plan() {
    let readings = vec![reading(Some(degrees(200)), 3, 4), None, reading(None, UNITY, 9)];
    let onsets = vec![Onset { ms: 120, strength: 7 }, Onset { ms: 2400, strength: 8 }];
    assert_eq!(analyze(&readings, &onsets), analyze(&readings.clone(), &onsets.clone()));
}

#[test]
fn no_readings_no_commands() {
    assert_eq!(analyze(&vec![], &vec![]), vec![]);
}

#[test]
fn the_plan_as_a_table() {
    assert_eq!(table(&vec![]), "start_ms\thue\tsat\tbri\ttransition_ms\n");
    assert_eq!(
        table(&vec![step(0, 130, 55, 12, 900), step(1205, 7, 100, 0, 40)]),
        "start_ms\thue\tsat\tbri\ttransition_ms\n0\t130\t55\t12\t900\n1205\t7\t100\t0\t40\n"
    );
}
