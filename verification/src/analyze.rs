//! From what was heard in each second of a track to the light commands that show it.
//!
//! A track is cut into one-second segments. Every segment gets one *base* command, which carries
//! the color and the slowly varying brightness; on top of it, the strongest onsets of the second
//! get a short-attack *flash* and a *decay* back to the base, so that beats stay visible despite
//! the slow morph of the base commands.
//!
//! The signal processing itself (spectra, loudness, the blend of colors) happens outside: this
//! module takes its readings, as whole numbers.

use crate::order;
use crate::plan;
use vstd::prelude::*;

verus! {

/// Length of a segment.
pub const SEGMENT_MS: u64 = 1000;

/// A last segment shorter than this is dropped.
pub const MIN_LAST_SEGMENT_MS: u64 = 50;

/// Ramp of a base command.
pub const BASE_TRANSITION_MS: u32 = 900;

/// Attack of a flash.
pub const FLASH_TRANSITION_MS: u32 = 40;

/// Ramp of a decay.
pub const DECAY_TRANSITION_MS: u32 = 380;

/// How long after its flash a decay starts.
pub const DECAY_DELAY_MS: u64 = 230;

/// A decay that would start no more than this before the end of its second is left out: the base
/// command of the next second acts as the decay.
pub const DECAY_MARGIN_MS: u64 = 80;

/// Flashes per second, at most.
pub const MAX_ONSETS_PER_SEC: usize = 3;

/// Brightness of a second of digital silence: dim, never off.
pub const SILENCE_BRI: u8 = 5;

/// Saturation of silence before anything was heard.
pub const SILENCE_SAT: u8 = 55;

/// The whole that shares are taken of.
pub const UNITY: u32 = 33_554_432;

/// Brightness of the quietest second that is not silent.
pub const BRI_MIN: u64 = 12;

/// How much brighter the loudest second is.
pub const BRI_SPAN: u64 = 76;

/// Saturation of a second without bass.
pub const SAT_MIN: u64 = 55;

/// How much more saturated pure bass is.
pub const SAT_SPAN: u64 = 45;

/// How much brighter than its second every flash is.
pub const FLASH_BASE_DELTA: u64 = 18;

/// How much brighter still the flash of the strongest onset is.
pub const FLASH_NORM_DELTA: u64 = 34;

/// One light command at an arbitrary time.
#[derive(Clone, Copy, Debug, PartialEq, Eq, Structural)]
pub struct LightStep {
    pub start_ms: u64,
    pub hue: u16,
    pub sat: u8,
    pub bri: u8,
    pub transition_ms: u32,
}

/// The color and brightness that a second of sound is shown in.
#[derive(Clone, Copy, Debug, PartialEq, Eq, Structural)]
pub struct Tone {
    pub hue: u16,
    pub sat: u8,
    pub bri: u8,
}

/// A transient in the track.
#[derive(Clone, Copy, Debug, PartialEq, Eq, Structural)]
pub struct Onset {
    /// Position in the track.
    pub ms: u64,
    /// Strength, as a share of the track's strongest onsets, out of [`UNITY`].
    pub strength: u32,
}

/// What was heard in one second of sound.
#[derive(Clone, Copy, Debug)]
pub struct Reading {
    /// Where the bands that are hotter than usual pull the hue to, in millionths of a degree;
    /// nothing in a balanced mix.
    pub pull: Option<u32>,
    /// The share of each band.
    pub shares: [u64; 5],
    /// The share of the bass, out of [`UNITY`].
    pub bass: u32,
    /// How loud the second is shown, out of [`UNITY`].
    pub loud: u32,
}

/// An onset that is shown, with the brightness of its flash.
#[derive(Clone, Copy, Debug, PartialEq, Eq, Structural)]
pub struct Beat {
    pub ms: u64,
    pub bri: u8,
}

/// One second of the track: its tone, or `None` for digital silence, and the beats to show.
#[derive(Debug)]
pub struct Second {
    pub tone: Option<Tone>,
    pub beats: Vec<Beat>,
}

// ---------------------------------------------------------------------------------------------
// Hues
// ---------------------------------------------------------------------------------------------

/// The hue that a spectral band pulls toward, in degrees: red for bass, amber for the lows, green
/// for the mids, azure for the highs, and violet for what lies above.
pub open spec fn anchor_of(band: int) -> u16 {
    if band == 0 {
        0
    } else if band == 1 {
        60
    } else if band == 2 {
        130
    } else if band == 3 {
        210
    } else {
        270
    }
}

/// The hue that a spectral band pulls toward.
pub fn anchor(band: usize) -> (hue: u16)
    ensures
        hue == anchor_of(band as int),
{
    match band {
        0 => 0,
        1 => 60,
        2 => 130,
        3 => 210,
        _ => 270,
    }
}

/// `band` has the largest share, and no later band has as much.
pub open spec fn dominates(shares: Seq<u64>, band: int) -> bool {
    &&& 0 <= band < shares.len()
    &&& forall|b: int| 0 <= b < shares.len() ==> #[trigger] shares[b] <= shares[band]
    &&& forall|b: int| band < b < shares.len() ==> #[trigger] shares[b] < shares[band]
}

/// The band with the largest share; of equal ones, the last.
pub open spec fn dominant(shares: Seq<u64>) -> int {
    choose|band: int| dominates(shares, band)
}

/// The band with the largest share; of equal ones, the last.
pub fn dominant_band(shares: [u64; 5]) -> (band: usize)
    ensures
        band == dominant(shares@),
        dominates(shares@, band as int),
{
    let mut band: usize = 0;
    let mut b: usize = 1;
    while b < 5
        invariant
            band < b <= 5,
            shares@.len() == 5,
            forall|k: int| 0 <= k < b ==> #[trigger] shares@[k] <= shares@[band as int],
            forall|k: int| band < k < b ==> #[trigger] shares@[k] < shares@[band as int],
        decreases 5 - b,
    {
        if shares[b] >= shares[band] {
            band = b;
        }
        b = b + 1;
    }
    assert(dominates(shares@, band as int));
    assert forall|other: int| #[trigger] dominates(shares@, other) implies other == band by {
        assert(shares@[other] <= shares@[band as int]);
        assert(shares@[band as int] <= shares@[other]);
    }
    band
}

/// A degree, in the unit that hues are steered in.
pub const DEGREE: i64 = 1_000_000;

/// `d`, as the shorter way around the color circle: from half a circle back to just under half a
/// circle on.
pub open spec fn wrapped(d: int) -> int {
    (d + 180 * DEGREE) % (360 * DEGREE) - 180 * DEGREE
}

/// The shorter way around the color circle, in millionths of a degree.
pub fn wrap_delta(d: i64) -> (short: i64)
    requires
        d <= i64::MAX - 180 * DEGREE,
    ensures
        short == wrapped(d as int),
{
    let circle: i64 = 360 * DEGREE;
    let shifted: i64 = d + 180 * DEGREE;
    let rest: i64 = if shifted >= 0 {
        shifted % circle
    } else {
        let back: i64 = -shifted % circle;
        if back == 0 {
            0
        } else {
            circle - back
        }
    };
    rest - 180 * DEGREE
}

/// `from`, moved toward `target` by three fifths of the shorter way.
pub open spec fn smoothed(from: int, target: int) -> int {
    (from + wrapped(target - from) * 3 / 5) % (360 * DEGREE)
}

/// Smooths a hue: moves `from` toward `target` by three fifths of the shorter way around the
/// color circle, in millionths of a degree.
pub fn smooth_hue(from: u32, target: u32) -> (hue: u32)
    ensures
        hue == smoothed(from as int, target as int),
        hue < 360 * DEGREE,
{
    let delta: i64 = wrap_delta(target as i64 - from as i64);
    let half: i64 = 180 * DEGREE;
    let step: i64 = (delta + half) * 3 / 5 - half / 5 * 3;
    let moved: i64 = from as i64 + step + 360 * DEGREE;
    (moved % (360 * DEGREE)) as u32
}

/// Smoothing leaves two fifths of the way: a hue moves toward its target, the shorter way
/// around, and never beyond it.
pub proof fn smoothing_leaves_two_fifths(from: int, target: int)
    ensures
        wrapped(target - smoothed(from, target)) == wrapped(target - from) - wrapped(target - from)
            * 3 / 5,
{
    let circle = 360 * DEGREE;
    let half = 180 * DEGREE;
    let way = wrapped(target - from);
    let step = way * 3 / 5;
    let one = (target - from + half) / circle;
    let other = (from + step) / circle;
    let turns = one + other;
    let left = target - smoothed(from, target) + half;
    vstd::arithmetic::div_mod::lemma_fundamental_div_mod(target - from + half, circle);
    vstd::arithmetic::div_mod::lemma_fundamental_div_mod(from + step, circle);
    vstd::arithmetic::mul::lemma_mul_is_distributive_add(circle, one, other);
    assert(left == way - step + half + circle * turns);
    vstd::arithmetic::div_mod::lemma_fundamental_div_mod_converse(
        left,
        circle,
        turns,
        way - step + half,
    );
}

/// A hue to the nearest whole degree.
pub open spec fn whole_degrees(hue: int) -> int {
    (hue + DEGREE / 2) / (DEGREE as int)
}

/// The hue that a second is shown in.
///
/// `pull` is where the bands that are hotter than usual pull the hue to, in millionths of a
/// degree. The hue moves there smoothly from the previous one, or at once if there is none. In a
/// balanced mix nothing pulls: the previous hue carries, and a track that starts that way starts
/// with the hue of its dominant band.
pub open spec fn hue_shown(previous: Option<u16>, pull: Option<u32>, dominant: int) -> int {
    match (pull, previous) {
        (Some(target), Some(hue)) => whole_degrees(smoothed(hue * DEGREE, target as int)),
        (Some(target), None) => whole_degrees(target as int % (360 * DEGREE)),
        (None, Some(hue)) => hue as int,
        (None, None) => anchor_of(dominant) as int,
    }
}

/// Chooses the hue that a second is shown in; see [`hue_shown`].
pub fn choose_hue(previous: Option<u16>, pull: Option<u32>, shares: [u64; 5]) -> (hue: u16)
    requires
        previous is Some ==> previous->0 <= 360,
    ensures
        hue == hue_shown(previous, pull, dominant(shares@)),
        hue <= 360,
{
    let dominant = dominant_band(shares);
    let steered: u32 = match pull {
        Some(target) => match previous {
            Some(hue) => smooth_hue(hue as u32 * DEGREE as u32, target),
            None => target % (360 * DEGREE) as u32,
        },
        None => {
            return match previous {
                Some(hue) => hue,
                None => anchor(dominant),
            };
        },
    };
    ((steered as i64 + DEGREE / 2) / DEGREE) as u16
}

// ---------------------------------------------------------------------------------------------
// Saturation and brightness
// ---------------------------------------------------------------------------------------------

/// `from`, and of `span` the share that `share` is of [`UNITY`], to the nearest whole number, but
/// no more than 100.
pub open spec fn scaled(from: int, span: int, share: int) -> int {
    let sum = (2 * (from * UNITY + span * share) + UNITY) / (2 * UNITY);
    if sum > 100 {
        100
    } else {
        sum
    }
}

fn scale(from: u64, span: u64, share: u32) -> (level: u8)
    requires
        from <= 1000,
        span <= 1000,
    ensures
        level == scaled(from as int, span as int, share as int),
        level <= 100,
{
    proof {
        assert(0 <= span * share <= 1000 * u32::MAX) by (nonlinear_arith)
            requires
                0 <= span <= 1000,
                0 <= share <= u32::MAX,
        ;
        assert(from * UNITY <= 1000 * UNITY);
    }
    let whole: u64 = UNITY as u64;
    let sum: u64 = (2 * (from * whole + span * share as u64) + whole) / (2 * whole);
    if sum > 100 {
        100
    } else {
        sum as u8
    }
}

/// A larger share never makes less.
proof fn lemma_scaled_grows(from: int, span: int, share: int, larger: int)
    requires
        0 <= from,
        0 <= span,
        0 <= share <= larger,
    ensures
        0 <= scaled(from, span, share) <= scaled(from, span, larger) <= 100,
{
    let less = 2 * (from * UNITY + span * share) + UNITY;
    let more = 2 * (from * UNITY + span * larger) + UNITY;
    assert(0 <= less <= more) by (nonlinear_arith)
        requires
            0 <= from,
            0 <= span,
            0 <= share <= larger,
            less == 2 * (from * UNITY + span * share) + UNITY,
            more == 2 * (from * UNITY + span * larger) + UNITY,
    ;
    vstd::arithmetic::div_mod::lemma_div_pos_is_pos(less, 2 * UNITY);
    vstd::arithmetic::div_mod::lemma_div_is_ordered(less, more, 2 * UNITY);
}

/// The brightness of a flash, above that of its second by a fixed step and one that grows with
/// the strength of the onset.
pub open spec fn flash_of(base: u8, strength: u32) -> int {
    scaled(base + FLASH_BASE_DELTA, FLASH_NORM_DELTA as int, strength as int)
}

/// The brightness of a flash on top of `base`.
pub fn flash_brightness(base: u8, strength: u32) -> (bri: u8)
    ensures
        bri == flash_of(base, strength),
        bri <= 100,
{
    scale(base as u64 + FLASH_BASE_DELTA, FLASH_NORM_DELTA, strength)
}

/// A flash is never darker than the second it stands out of, and a stronger one never darker
/// than a weaker one.
pub proof fn flashes_stand_out(base: u8, strength: u32, stronger: u32)
    requires
        base <= 100,
        strength <= stronger,
    ensures
        base <= flash_of(base, strength) <= flash_of(base, stronger) <= 100,
{
    let from = base + FLASH_BASE_DELTA;
    let span = FLASH_NORM_DELTA as int;
    let weak = 2 * (from * UNITY + span * strength) + UNITY;
    lemma_scaled_grows(from, span, strength as int, stronger as int);
    vstd::arithmetic::div_mod::lemma_div_is_ordered(base * (2 * UNITY), weak, 2 * UNITY);
    vstd::arithmetic::div_mod::lemma_div_by_multiple(base as int, 2 * UNITY);
}

/// The tone of a second: its hue; the more bass, the more saturated; the louder, the brighter.
pub open spec fn tone_of(reading: Reading, previous: Option<u16>) -> Tone {
    Tone {
        hue: hue_shown(previous, reading.pull, dominant(reading.shares@)) as u16,
        sat: scaled(SAT_MIN as int, SAT_SPAN as int, reading.bass as int) as u8,
        bri: scaled(BRI_MIN as int, BRI_SPAN as int, reading.loud as int) as u8,
    }
}

/// A second with more bass is never less saturated, and a louder one never darker.
pub proof fn tones_follow_bass_and_loudness(
    one: Reading,
    other: Reading,
    before_one: Option<u16>,
    before_other: Option<u16>,
)
    ensures
        one.bass <= other.bass ==> tone_of(one, before_one).sat <= tone_of(other, before_other).sat,
        one.loud <= other.loud ==> tone_of(one, before_one).bri <= tone_of(other, before_other).bri,
{
    if one.bass <= other.bass {
        lemma_scaled_grows(SAT_MIN as int, SAT_SPAN as int, one.bass as int, other.bass as int);
    }
    if one.loud <= other.loud {
        lemma_scaled_grows(BRI_MIN as int, BRI_SPAN as int, one.loud as int, other.loud as int);
    }
}

/// Chooses the tone of a second, after the hue `previous`.
pub fn choose_tone(reading: &Reading, previous: Option<u16>) -> (tone: Tone)
    requires
        previous is Some ==> previous->0 <= 360,
    ensures
        tone == tone_of(*reading, previous),
        plan::in_light_range(tone.hue, tone.sat, tone.bri),
{
    Tone {
        hue: choose_hue(previous, reading.pull, reading.shares),
        sat: scale(SAT_MIN, SAT_SPAN, reading.bass),
        bri: scale(BRI_MIN, BRI_SPAN, reading.loud),
    }
}

// ---------------------------------------------------------------------------------------------
// Segments
// ---------------------------------------------------------------------------------------------

/// How many segments a track of `samples` samples has: every full second, and what is left over
/// if it is long enough.
pub open spec fn segment_count(samples: int, sample_rate: int) -> int {
    if sample_rate <= 0 {
        0
    } else {
        let left_over = samples % sample_rate;
        let min_last = sample_rate * (MIN_LAST_SEGMENT_MS as int) / 1000;
        samples / sample_rate + if left_over > 0 && left_over >= min_last {
            1int
        } else {
            0
        }
    }
}

/// The samples of segment `i`, as the half-open range from the first to the second number.
pub open spec fn segment_range(i: int, samples: int, sample_rate: int) -> (int, int) {
    (
        i * sample_rate,
        if (i + 1) * sample_rate <= samples {
            (i + 1) * sample_rate
        } else {
            samples
        },
    )
}

/// The sample ranges of the segments of a track, in order.
pub fn segments(samples: usize, sample_rate: u32) -> (ranges: Vec<(usize, usize)>)
    ensures
        ranges@.len() == segment_count(samples as int, sample_rate as int),
        forall|i: int|
            0 <= i < ranges@.len() ==> {
                let range = segment_range(i, samples as int, sample_rate as int);
                (#[trigger] ranges@[i]).0 == range.0 && ranges@[i].1 == range.1
            },
{
    let mut ranges: Vec<(usize, usize)> = Vec::new();
    if sample_rate == 0 {
        return ranges;
    }
    let seg_len: usize = sample_rate as usize;
    let min_last: usize = (sample_rate as u64 * MIN_LAST_SEGMENT_MS / 1000) as usize;
    let ghost rate = sample_rate as int;
    let mut start: usize = 0;
    assert(0 * rate == 0);
    while samples - start >= seg_len
        invariant
            seg_len == rate == sample_rate,
            rate > 0,
            start <= samples,
            start == ranges@.len() * rate,
            forall|i: int|
                0 <= i < ranges@.len() ==> {
                    let range = segment_range(i, samples as int, rate);
                    (#[trigger] ranges@[i]).0 == range.0 && ranges@[i].1 == range.1
                },
        decreases samples - start,
    {
        proof {
            assert((ranges@.len() + 1) * rate == ranges@.len() * rate + rate) by (nonlinear_arith);
        }
        ranges.push((start, start + seg_len));
        start = start + seg_len;
    }
    proof {
        let n = ranges@.len() as int;
        vstd::arithmetic::div_mod::lemma_fundamental_div_mod_converse(
            samples as int,
            rate,
            n,
            samples - start,
        );
        assert((n + 1) * rate == n * rate + rate) by (nonlinear_arith);
    }
    if samples > start && samples - start >= min_last {
        ranges.push((start, samples));
    }
    ranges
}

// ---------------------------------------------------------------------------------------------
// The whole track
// ---------------------------------------------------------------------------------------------

/// The hue that is shown before second `i`, if any tone came before it.
pub open spec fn hue_before(seconds: Seq<Second>, i: int) -> Option<u16> {
    match plan::last_tone(seconds, i) {
        Some(tone) => Some(tone.hue),
        None => None,
    }
}

/// The tone of second `i`, if it is not silent.
pub open spec fn tone_at(readings: Seq<Option<Reading>>, seconds: Seq<Second>, i: int) -> Option<
    Tone,
> {
    match readings[i] {
        Some(reading) => Some(tone_of(reading, hue_before(seconds, i))),
        None => None,
    }
}

/// The beats of second `i`: its strongest onsets, unless it is silent.
pub open spec fn beats_at(tone: Option<Tone>, onsets: Seq<Onset>, i: int) -> Seq<Beat> {
    match tone {
        Some(tone) => plan::strongest(plan::onsets_in(onsets, i)).map_values(
            |o: Onset| Beat { ms: o.ms, bri: flash_of(tone.bri, o.strength) as u8 },
        ),
        None => Seq::empty(),
    }
}

/// Second `i` is as its reading and the onsets say.
pub open spec fn heard_second(
    readings: Seq<Option<Reading>>,
    onsets: Seq<Onset>,
    seconds: Seq<Second>,
    i: int,
) -> bool {
    &&& seconds[i].tone == tone_at(readings, seconds, i)
    &&& seconds[i].beats@ == beats_at(seconds[i].tone, onsets, i)
}

/// The first `n` seconds are as their readings and the onsets say.
pub open spec fn heard(
    readings: Seq<Option<Reading>>,
    onsets: Seq<Onset>,
    seconds: Seq<Second>,
    n: int,
) -> bool {
    &&& seconds.len() == n
    &&& forall|i: int| 0 <= i < n ==> #[trigger] heard_second(readings, onsets, seconds, i)
}

proof fn lemma_last_tone_of_prefix(seconds: Seq<Second>, more: Seq<Second>, n: int)
    requires
        0 <= n <= seconds.len() <= more.len(),
        seconds == more.take(seconds.len() as int),
    ensures
        plan::last_tone(seconds, n) == plan::last_tone(more, n),
    decreases n,
{
    if n > 0 {
        lemma_last_tone_of_prefix(seconds, more, n - 1);
        assert(seconds[n - 1] == more[n - 1]);
    }
}

proof fn lemma_heard_grows(
    readings: Seq<Option<Reading>>,
    onsets: Seq<Onset>,
    seconds: Seq<Second>,
    next: Second,
)
    requires
        heard(readings, onsets, seconds, seconds.len() as int),
        heard_second(readings, onsets, seconds.push(next), seconds.len() as int),
    ensures
        heard(readings, onsets, seconds.push(next), seconds.len() as int + 1),
{
    let more = seconds.push(next);
    assert(seconds =~= more.take(seconds.len() as int));
    assert forall|i: int| 0 <= i < seconds.len() + 1 implies #[trigger] heard_second(
        readings,
        onsets,
        more,
        i,
    ) by {
        if i < seconds.len() {
            assert(heard_second(readings, onsets, seconds, i));
            lemma_last_tone_of_prefix(seconds, more, i);
            assert(more[i] == seconds[i]);
        }
    }
}

/// The strongest onsets of second `i` lie in it.
proof fn lemma_shown_in_place(onsets: Seq<Onset>, i: int, n: int)
    requires
        0 <= n <= plan::onsets_in(onsets, i).len(),
    ensures
        forall|j: int|
            0 <= j < plan::strongest_among(plan::onsets_in(onsets, i), n).len() ==> plan::falls_in(
                (#[trigger] plan::strongest_among(plan::onsets_in(onsets, i), n)[j]).ms,
                i,
            ),
    decreases n,
{
    let here = plan::onsets_in(onsets, i);
    if n > 0 {
        lemma_shown_in_place(onsets, i, n - 1);
        onsets.lemma_filter_pred(|o: Onset| plan::falls_in(o.ms, i), n - 1);
        assert(plan::falls_in(here[n - 1].ms, i));
        let before = plan::strongest_among(here, n - 1);
        let shown = plan::strongest_among(here, n);
        assert forall|j: int| 0 <= j < shown.len() implies plan::falls_in(
            (#[trigger] shown[j]).ms,
            i,
        ) by {
            if j < before.len() {
                assert(shown[j] == before[j]);
            }
        }
    }
}

/// Shows the strongest onsets of second `i`, whose brightness is `base`.
fn beats_of_second(base: u8, onsets: &Vec<Onset>, i: u64) -> (beats: Vec<Beat>)
    requires
        (i + 1) * SEGMENT_MS <= u64::MAX,
    ensures
        forall|tone: Tone|
            tone.bri == base ==> beats@ == #[trigger] beats_at(Some(tone), onsets@, i as int),
        beats@.len() <= MAX_ONSETS_PER_SEC,
        forall|j: int| 0 <= j < beats@.len() ==> (#[trigger] beats@[j]).bri <= 100,
        forall|j: int|
            0 <= j < beats@.len() ==> plan::falls_in((#[trigger] beats@[j]).ms, i as int),
{
    let here = plan::onsets_of_second(onsets, i);
    let picked = plan::pick_strongest(&here);
    let ghost shown = plan::strongest(plan::onsets_in(onsets@, i as int));
    proof {
        lemma_shown_in_place(onsets@, i as int, here@.len() as int);
    }
    let m: usize = picked.len();
    let mut beats: Vec<Beat> = Vec::new();
    let mut j: usize = 0;
    while j < m
        invariant
            m == picked@.len(),
            picked@ == shown,
            forall|k: int|
                0 <= k < shown.len() ==> plan::falls_in((#[trigger] shown[k]).ms, i as int),
            j <= m,
            beats@.len() == j,
            forall|k: int|
                0 <= k < j ==> #[trigger] beats@[k] == (Beat {
                    ms: shown[k].ms,
                    bri: flash_of(base, shown[k].strength) as u8,
                }),
            forall|k: int| 0 <= k < j ==> (#[trigger] beats@[k]).bri <= 100,
            forall|k: int| 0 <= k < j ==> plan::falls_in((#[trigger] beats@[k]).ms, i as int),
        decreases m - j,
    {
        let onset = picked[j];
        assert(plan::falls_in(shown[j as int].ms, i as int));
        beats.push(Beat { ms: onset.ms, bri: flash_brightness(base, onset.strength) });
        j = j + 1;
    }
    assert forall|tone: Tone| tone.bri == base implies beats@ == #[trigger] beats_at(
        Some(tone),
        onsets@,
        i as int,
    ) by {
        assert(beats@ =~= beats_at(Some(tone), onsets@, i as int));
    }
    beats
}

/// Maps a track to its light commands: `readings` has one reading for each of its [`segments`],
/// none for digital silence, and `onsets` its transients.
pub fn analyze(readings: &Vec<Option<Reading>>, onsets: &Vec<Onset>) -> (steps: Vec<LightStep>)
    requires
        readings@.len() * SEGMENT_MS <= u64::MAX,
    ensures
        exists|seconds: Seq<Second>|
            {
                &&& #[trigger] heard(readings@, onsets@, seconds, readings@.len() as int)
                &&& plan::is_plan(seconds, steps@)
            },
        forall|i: int|
            0 <= i < readings@.len() ==> 1 <= (#[trigger] plan::commands_in(steps@, i)).len() <= 1
                + 2 * MAX_ONSETS_PER_SEC,
        forall|k: int|
            0 <= k < steps@.len() ==> plan::in_light_range(
                (#[trigger] steps@[k]).hue,
                steps@[k].sat,
                steps@[k].bri,
            ),
{
    let count: usize = readings.len();
    let mut seconds: Vec<Second> = Vec::new();
    let mut hue: Option<u16> = None;
    let mut i: usize = 0;
    while i < count
        invariant
            count == readings@.len(),
            count * SEGMENT_MS <= u64::MAX,
            i <= count,
            heard(readings@, onsets@, seconds@, i as int),
            hue == hue_before(seconds@, i as int),
            hue is Some ==> hue->0 <= 360,
            plan::beats_in_place(seconds@),
            plan::readings_in_range(seconds@),
            forall|k: int|
                0 <= k < i ==> (#[trigger] seconds@[k]).beats@.len() <= MAX_ONSETS_PER_SEC,
        decreases count - i,
    {
        let ghost before = seconds@;
        let second = match &readings[i] {
            Some(reading) => {
                let tone = choose_tone(reading, hue);
                let beats = beats_of_second(tone.bri, onsets, i as u64);
                hue = Some(tone.hue);
                Second { tone: Some(tone), beats }
            },
            None => Second { tone: None, beats: Vec::new() },
        };
        seconds.push(second);
        proof {
            assert(before =~= seconds@.take(i as int));
            lemma_last_tone_of_prefix(before, seconds@, i as int);
            assert(heard_second(readings@, onsets@, seconds@, i as int));
            lemma_heard_grows(readings@, onsets@, before, second);
            assert forall|a: int, b: int|
                0 <= a < seconds@.len() && 0 <= b
                    < seconds@[a].beats@.len() implies plan::falls_in(
                (#[trigger] seconds@[a].beats@[b]).ms,
                a,
            ) && seconds@[a].beats@[b].bri <= 100 by {
                if a < i {
                    assert(seconds@[a] == before[a]);
                    assert(plan::falls_in(before[a].beats@[b].ms, a));
                    assert(before[a].beats@[b].bri <= 100);
                }
            }
            assert forall|a: int|
                0 <= a < seconds@.len() && (#[trigger] seconds@[a]).tone is Some implies {
                let tone = seconds@[a].tone->0;
                plan::in_light_range(tone.hue, tone.sat, tone.bri)
            } by {
                if a < i {
                    assert(seconds@[a] == before[a]);
                }
            }
        }
        i = i + 1;
    }
    let steps = plan::plan(&seconds);
    proof {
        assert forall|k: int| 0 <= k < count implies 1 <= (#[trigger] plan::commands_in(
            steps@,
            k,
        )).len() <= 1 + 2 * MAX_ONSETS_PER_SEC by {
            plan::command_rate_is_capped(seconds@, steps@, k);
        }
        assert forall|k: int| 0 <= k < steps@.len() implies plan::in_light_range(
            (#[trigger] steps@[k]).hue,
            steps@[k].sat,
            steps@[k].bri,
        ) by {
            plan::commands_stay_in_range(seconds@, steps@, k);
        }
    }
    steps
}

proof fn lemma_same_listing(
    readings: Seq<Option<Reading>>,
    onsets: Seq<Onset>,
    one: Seq<Second>,
    other: Seq<Second>,
    n: int,
)
    requires
        heard(readings, onsets, one, readings.len() as int),
        heard(readings, onsets, other, readings.len() as int),
        0 <= n <= readings.len(),
    ensures
        plan::last_tone(one, n) == plan::last_tone(other, n),
        plan::listing(one, n) == plan::listing(other, n),
    decreases n,
{
    if n > 0 {
        lemma_same_listing(readings, onsets, one, other, n - 1);
        assert(heard_second(readings, onsets, one, n - 1));
        assert(heard_second(readings, onsets, other, n - 1));
    }
}

/// The same readings and onsets always make the same light plan.
pub proof fn a_track_has_one_plan(
    readings: Seq<Option<Reading>>,
    onsets: Seq<Onset>,
    one: Seq<Second>,
    other: Seq<Second>,
    one_plan: Seq<LightStep>,
    other_plan: Seq<LightStep>,
)
    requires
        heard(readings, onsets, one, readings.len() as int),
        heard(readings, onsets, other, readings.len() as int),
        plan::is_plan(one, one_plan),
        plan::is_plan(other, other_plan),
    ensures
        one_plan == other_plan,
{
    lemma_same_listing(readings, onsets, one, other, readings.len() as int);
    order::stable_sort_is_unique(
        plan::listing(one, one.len() as int),
        one_plan,
        other_plan,
        plan::by_start(),
    );
}

// ---------------------------------------------------------------------------------------------
// What a track looks like
// ---------------------------------------------------------------------------------------------

/// The shorter way differs from the way by whole turns only, and is never more than half a turn.
pub proof fn the_shorter_way_is_at_most_half_a_turn(d: int) -> (turns: int)
    ensures
        wrapped(d) + 360_000_000 * turns == d,
        -180_000_000 <= wrapped(d) < 180_000_000,
{
    let turns = (d + 180_000_000) / 360_000_000;
    vstd::arithmetic::div_mod::lemma_fundamental_div_mod(d + 180_000_000, 360_000_000);
    turns
}

/// Whatever is at most half a turn away and whole turns apart is the shorter way.
proof fn lemma_shorter_way(d: int, way: int, turns: int)
    requires
        d == way + 360_000_000 * turns,
        -180_000_000 <= way < 180_000_000,
    ensures
        wrapped(d) == way,
{
    vstd::arithmetic::div_mod::lemma_fundamental_div_mod_converse(
        d + 180_000_000,
        360_000_000,
        turns,
        way + 180_000_000,
    );
}

/// A hue that is pulled goes three fifths of the shorter way there, in whole millionths of a
/// degree, and stays on the color circle.
pub proof fn a_hue_goes_three_fifths_of_the_way(
    from: int,
    target: int,
    way: int,
    turns: int,
) -> (around: int)
    requires
        target - from == way + 360_000_000 * turns,
        -180_000_000 <= way < 180_000_000,
    ensures
        0 <= smoothed(from, target) < 360_000_000,
        ({
            let step = smoothed(from, target) + 360_000_000 * around - from;
            5 * step <= 3 * way < 5 * step + 5
        }),
{
    lemma_shorter_way(target - from, way, turns);
    let moved = from + way * 3 / 5;
    vstd::arithmetic::div_mod::lemma_fundamental_div_mod(moved, 360_000_000);
    moved / 360_000_000
}

/// The hue that a second is shown in: pulled, the nearest degree to three fifths of the shorter
/// way from the hue before, or to where the pull is if there is none before; otherwise the hue
/// before; otherwise that of the dominant band.
pub proof fn the_hue_of_a_second(
    previous: u16,
    target: u32,
    dominant: int,
    way: int,
    turns: int,
) -> (around: (int, int))
    requires
        target - previous * 1_000_000 == way + 360_000_000 * turns,
        -180_000_000 <= way < 180_000_000,
    ensures
        ({
            let step = around.0 - previous * 1_000_000;
            let place = around.0 + 360_000_000 * around.1;
            let shown = hue_shown(Some(previous), Some(target), dominant);
            &&& 5 * step <= 3 * way < 5 * step + 5
            &&& 0 <= place < 360_000_000
            &&& -500_000 <= place - shown * 1_000_000 < 500_000
        }),
        hue_shown(Some(previous), None, dominant) == previous,
        0 <= hue_shown(None, Some(target), dominant) <= 360,
        -500_000 <= target % 360_000_000 - hue_shown(None, Some(target), dominant) * 1_000_000
            < 500_000,
        hue_shown(None, None, 0) == 0,
        hue_shown(None, None, 1) == 60,
        hue_shown(None, None, 2) == 130,
        hue_shown(None, None, 3) == 210,
        hue_shown(None, None, 4) == 270,
{
    let from = previous * 1_000_000;
    let back = a_hue_goes_three_fifths_of_the_way(from, target as int, way, turns);
    let place = smoothed(from, target as int);
    (place + 360_000_000 * back, -back)
}

/// The dominant band is the one with the largest share; of equal ones, the last.
pub proof fn the_last_largest_share_dominates(shares: Seq<u64>, band: int)
    requires
        0 <= band < shares.len(),
        forall|b: int| 0 <= b < band ==> #[trigger] shares[b] <= shares[band],
        forall|b: int| band < b < shares.len() ==> #[trigger] shares[b] < shares[band],
    ensures
        dominant(shares) == band,
{
    assert(dominates(shares, band));
    assert forall|other: int| #[trigger] dominates(shares, other) implies other == band by {
        assert(shares[other] <= shares[band]);
        assert(shares[band] <= shares[other]);
    }
}

proof fn lemma_scaled_is_nearest(from: int, span: int, share: int)
    requires
        0 <= from,
        0 <= span,
        0 <= share,
    ensures
        0 <= scaled(from, span, share) <= 100,
        ({
            let off = 2 * (from * 33_554_432 + span * share) - 67_108_864 * scaled(
                from,
                span,
                share,
            );
            &&& -33_554_432 <= off
            &&& scaled(from, span, share) < 100 ==> off < 33_554_432
        }),
{
    assert(0 <= span * share) by (nonlinear_arith)
        requires
            0 <= span,
            0 <= share,
    ;
    let num = 2 * (from * UNITY + span * share) + UNITY;
    vstd::arithmetic::div_mod::lemma_fundamental_div_mod(num, 67_108_864);
    vstd::arithmetic::div_mod::lemma_div_pos_is_pos(num, 67_108_864);
}

/// Shares are counted out of 33554432. A second without bass is saturated 55 of 100, pure bass
/// 45 more; the quietest second has brightness 12, the loudest 76 more; a flash is 18 brighter
/// than its second, and the strongest 34 more than that. Between them everything grows evenly, is
/// shown as the nearest whole number, and stops at 100.
pub proof fn tones_and_flashes_grow_evenly(
    reading: Reading,
    previous: Option<u16>,
    base: u8,
    strength: u32,
)
    ensures
        ({
            let sat = tone_of(reading, previous).sat;
            let off = 2 * (55 * 33_554_432 + 45 * reading.bass) - 67_108_864 * sat;
            sat <= 100 && -33_554_432 <= off && (sat < 100 ==> off < 33_554_432)
        }),
        ({
            let bri = tone_of(reading, previous).bri;
            let off = 2 * (12 * 33_554_432 + 76 * reading.loud) - 67_108_864 * bri;
            bri <= 100 && -33_554_432 <= off && (bri < 100 ==> off < 33_554_432)
        }),
        ({
            let bri = flash_of(base, strength);
            let off = 2 * ((base + 18) * 33_554_432 + 34 * strength) - 67_108_864 * bri;
            0 <= bri <= 100 && -33_554_432 <= off && (bri < 100 ==> off < 33_554_432)
        }),
{
    lemma_scaled_is_nearest(55, 45, reading.bass as int);
    lemma_scaled_is_nearest(12, 76, reading.loud as int);
    lemma_scaled_is_nearest(base + 18, 34, strength as int);
}

/// The segments of a track follow each other from its first sample on, each a second long but
/// for the last. Only a rest shorter than a twentieth of a second, in whole samples, is dropped.
pub proof fn segments_divide_the_track(samples: int, rate: int, i: int)
    requires
        0 <= samples,
        0 < rate,
    ensures
        segment_range(0, samples, rate).0 == 0,
        0 <= i < segment_count(samples, rate) ==> {
            let range = segment_range(i, samples, rate);
            &&& range.0 < range.1 <= samples
            &&& i + 1 < segment_count(samples, rate) ==> {
                &&& range.1 == range.0 + rate
                &&& segment_range(i + 1, samples, rate).0 == range.1
            }
            &&& i + 1 == segment_count(samples, rate) ==> {
                ||| range.1 == range.0 + rate && samples < range.1 + rate && (samples == range.1
                    || 1000 * (samples - range.1 + 1) <= 50 * rate)
                ||| range.1 == samples && 1000 * (samples - range.0 + 1) > 50 * rate && samples
                    < range.0 + rate
            }
        },
        segment_count(samples, rate) == 0 ==> samples < rate && (samples == 0 || 1000 * (samples
            + 1) <= 50 * rate),
        segment_count(samples, 0) == 0,
{
    let n = samples / rate;
    let rest = samples % rate;
    let floor = rate * 50 / 1000;
    vstd::arithmetic::div_mod::lemma_fundamental_div_mod(samples, rate);
    vstd::arithmetic::div_mod::lemma_div_pos_is_pos(samples, rate);
    vstd::arithmetic::div_mod::lemma_mod_bound(samples, rate);
    assert(rate * n == n * rate && 0 * rate == 0) by (nonlinear_arith);
    assert((i + 1) * rate == i * rate + rate) by (nonlinear_arith);
    assert((i + 2) * rate == i * rate + 2 * rate) by (nonlinear_arith);
    if 0 <= i < n {
        assert((i + 1) * rate <= n * rate) by (nonlinear_arith)
            requires
                i + 1 <= n,
                0 < rate,
        ;
    }
}

/// A second is shown as it was heard: silence has no tone and no beats; any other second has the
/// tone of its reading, after the hue of the last second before it that was not silent, and of
/// its strongest onsets a beat each, when they come and as bright as they are strong.
pub proof fn a_second_is_shown_as_it_was_heard(
    readings: Seq<Option<Reading>>,
    onsets: Seq<Onset>,
    seconds: Seq<Second>,
    i: int,
    last: int,
)
    requires
        heard(readings, onsets, seconds, readings.len() as int),
        0 <= i < readings.len(),
        -1 <= last < i,
        forall|k: int| last < k < i ==> (#[trigger] readings[k]) is None,
        last >= 0 ==> readings[last] is Some,
    ensures
        seconds.len() == readings.len(),
        readings[i] is None ==> seconds[i].tone is None && seconds[i].beats@.len() == 0,
        readings[i] matches Some(reading) ==> {
            let before = if last < 0 {
                None
            } else {
                Some(seconds[last].tone->0.hue)
            };
            let shown = plan::strongest(plan::onsets_in(onsets, i));
            &&& seconds[i].tone == Some(tone_of(reading, before))
            &&& seconds[i].beats@.len() == shown.len()
            &&& forall|j: int|
                0 <= j < shown.len() ==> {
                    let beat = #[trigger] seconds[i].beats@[j];
                    &&& beat.ms == shown[j].ms
                    &&& beat.bri == flash_of(seconds[i].tone->0.bri, shown[j].strength)
                }
        },
        last >= 0 ==> seconds[last].tone is Some,
{
    assert forall|k: int| 0 <= k < readings.len() implies ((#[trigger] seconds[k]).tone is Some
        <==> readings[k] is Some) by {
        assert(heard_second(readings, onsets, seconds, k));
    }
    assert(heard_second(readings, onsets, seconds, i));
    if last < 0 {
        plan::lemma_no_last_tone(seconds, i);
    } else {
        plan::lemma_last_tone_is(seconds, i, last);
    }
    if let Some(reading) = readings[i] {
        let shown = plan::strongest(plan::onsets_in(onsets, i));
        let tone = seconds[i].tone->0;
        assert forall|j: int| 0 <= j < shown.len() implies {
            let beat = #[trigger] seconds[i].beats@[j];
            &&& beat.ms == shown[j].ms
            &&& beat.bri == flash_of(tone.bri, shown[j].strength)
        } by {
            lemma_scaled_is_nearest(tone.bri + 18, 34, shown[j].strength as int);
        }
    }
}

} // verus!
