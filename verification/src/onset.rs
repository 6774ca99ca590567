//! Onsets: the transients of a track, found in its spectral flux.

use crate::analyze::{Onset, UNITY};
use crate::survey;
use vstd::prelude::*;

verus! {

/// Samples between the starts of two spectral frames.
pub const STFT_HOP: usize = 512;

/// Frames of history that an onset needs before it.
pub const ONSET_HISTORY: usize = 8;

/// Frames that an onset needs after it.
pub const ONSET_LOOKAHEAD: usize = 2;

/// Two onsets are at least this far apart.
pub const MIN_ONSET_GAP_MS: u64 = 120;

/// A track whose loudest frames have no more flux than this has no onsets.
pub const FLUX_FLOOR: u128 = 131_072;

/// The percentile that counts as the flux of a track's loudest frames.
pub const LOUDEST_PERCENTILE: u64 = 98;

// ---------------------------------------------------------------------------------------------
// What an onset is
// ---------------------------------------------------------------------------------------------

/// The flux of the `n` frames before frame `k`, taken together.
pub open spec fn history(flux: Seq<u64>, k: int, n: int) -> int
    decreases n,
{
    if n <= 0 {
        0
    } else {
        history(flux, k, n - 1) + flux[k - n]
    }
}

/// Frame `k` is a local peak. Strict on the left, tolerant on the right, so that a plateau of
/// equal levels counts once.
pub open spec fn is_peak(flux: Seq<u64>, k: int) -> bool {
    flux[k] > flux[k - 1] && flux[k] >= flux[k + 1] && flux[k] >= flux[k + 2]
}

/// Frame `k` stands out: it has more than 1.6 times the mean flux of the frames before it, more
/// than 4 times the track's median, which rejects steady tones, and at least 0.3 times the flux
/// of the track's loudest frames. `typical` and `loudest` are in hundredths.
pub open spec fn stands_out(flux: Seq<u64>, k: int, typical: int, loudest: int) -> bool {
    &&& 5 * flux[k] * ONSET_HISTORY > 8 * history(flux, k, ONSET_HISTORY as int)
    &&& 100 * flux[k] > 4 * typical
    &&& 10 * (100 * flux[k]) >= 3 * loudest
}

/// Frame `k` is an onset: a local peak that stands out, with enough frames around it.
pub open spec fn is_onset(flux: Seq<u64>, k: int, typical: int, loudest: int) -> bool {
    &&& ONSET_HISTORY <= k < flux.len() - ONSET_LOOKAHEAD
    &&& is_peak(flux, k)
    &&& stands_out(flux, k, typical, loudest)
}

/// The strength of an onset, as a share of the track's loudest frames, out of [`UNITY`].
pub open spec fn strength_of(level: u64, loudest: int) -> int {
    let part = 100 * level;
    if part >= loudest {
        UNITY as int
    } else if part == 0 {
        0
    } else {
        (2 * part * UNITY + loudest) / (2 * loudest)
    }
}

/// The onset at frame `k`.
pub open spec fn onset_at(flux: Seq<u64>, k: int, loudest: int, sample_rate: int) -> Onset {
    Onset {
        ms: (k * STFT_HOP * 1000 / sample_rate) as u64,
        strength: strength_of(flux[k], loudest) as u32,
    }
}

/// The onsets among the first `n` frames, in order.
pub open spec fn onsets_among(
    flux: Seq<u64>,
    typical: int,
    loudest: int,
    sample_rate: int,
    n: int,
) -> Seq<Onset>
    decreases n,
{
    if n <= 0 {
        Seq::empty()
    } else {
        let before = onsets_among(flux, typical, loudest, sample_rate, n - 1);
        if is_onset(flux, n - 1, typical, loudest) {
            before.push(onset_at(flux, n - 1, loudest, sample_rate))
        } else {
            before
        }
    }
}

/// `onsets` without those that follow the last one kept too closely.
pub open spec fn spaced(onsets: Seq<Onset>) -> Seq<Onset>
    decreases onsets.len(),
{
    if onsets.len() == 0 {
        onsets
    } else {
        let before = spaced(onsets.drop_last());
        let last = onsets.last();
        if before.len() == 0 || last.ms - before.last().ms >= MIN_ONSET_GAP_MS {
            before.push(last)
        } else {
            before
        }
    }
}

/// Any two onsets are at least the minimum gap apart.
pub open spec fn well_spaced(onsets: Seq<Onset>) -> bool {
    forall|i: int, j: int|
        0 <= i < j < onsets.len() ==> (#[trigger] onsets[j]).ms - (#[trigger] onsets[i]).ms
            >= MIN_ONSET_GAP_MS
}

/// Spacing onsets leaves them the minimum gap apart.
pub proof fn spaced_onsets_keep_the_gap(onsets: Seq<Onset>)
    ensures
        well_spaced(spaced(onsets)),
    decreases onsets.len(),
{
    if onsets.len() > 0 {
        spaced_onsets_keep_the_gap(onsets.drop_last());
    }
}

/// The flux that counts for what is typical of a track: without the first frames, in which its
/// history fills up.
pub open spec fn settled(flux: Seq<u64>) -> Seq<u64> {
    flux.skip(ONSET_HISTORY as int)
}

/// The onsets of a track, by the spectral flux of its frames.
pub open spec fn onsets_of(flux: Seq<u64>, sample_rate: int) -> Seq<Onset> {
    let typical = survey::percentile_of(settled(flux), survey::MEDIAN as int);
    let loudest = survey::percentile_of(settled(flux), LOUDEST_PERCENTILE as int);
    if flux.len() < ONSET_HISTORY || loudest <= 100 * FLUX_FLOOR {
        Seq::empty()
    } else {
        spaced(onsets_among(flux, typical, loudest, sample_rate, flux.len() as int))
    }
}

proof fn lemma_no_onsets_among(
    flux: Seq<u64>,
    typical: int,
    loudest: int,
    sample_rate: int,
    n: int,
)
    requires
        0 <= n <= flux.len(),
        forall|k: int| 0 <= k < flux.len() ==> 100 * (#[trigger] flux[k]) <= 4 * typical,
    ensures
        onsets_among(flux, typical, loudest, sample_rate, n).len() == 0,
    decreases n,
{
    if n > 0 {
        lemma_no_onsets_among(flux, typical, loudest, sample_rate, n - 1);
        assert(100 * flux[n - 1] <= 4 * typical);
    }
}

/// A steady tone has no onsets: neither has any track in which no frame has more than 4 times
/// the median flux.
pub proof fn steady_flux_has_no_onsets(flux: Seq<u64>, sample_rate: int)
    requires
        forall|k: int|
            0 <= k < flux.len() ==> 100 * (#[trigger] flux[k]) <= 4 * survey::percentile_of(
                settled(flux),
                survey::MEDIAN as int,
            ),
    ensures
        onsets_of(flux, sample_rate).len() == 0,
{
    let typical = survey::percentile_of(settled(flux), survey::MEDIAN as int);
    let loudest = survey::percentile_of(settled(flux), LOUDEST_PERCENTILE as int);
    lemma_no_onsets_among(flux, typical, loudest, sample_rate, flux.len() as int);
}

/// `louder` is `flux`, `factor` times as much in every frame.
pub open spec fn louder_by(flux: Seq<u64>, louder: Seq<u64>, factor: int) -> bool {
    &&& louder.len() == flux.len()
    &&& forall|k: int| 0 <= k < flux.len() ==> #[trigger] louder[k] == factor * flux[k]
}

proof fn lemma_louder_history(flux: Seq<u64>, louder: Seq<u64>, factor: int, k: int, n: int)
    requires
        louder_by(flux, louder, factor),
        0 <= n <= k <= flux.len(),
    ensures
        history(louder, k, n) == factor * history(flux, k, n),
    decreases n,
{
    if n > 0 {
        lemma_louder_history(flux, louder, factor, k, n - 1);
        assert(louder[k - n] == factor * flux[k - n]);
        vstd::arithmetic::mul::lemma_mul_is_distributive_add(
            factor,
            history(flux, k, n - 1),
            flux[k - n] as int,
        );
    } else {
        assert(factor * 0 == 0);
    }
}

/// Comparing two numbers, and comparing them after both grew by a factor.
proof fn lemma_grown_alike(a: int, b: int, factor: int)
    requires
        factor >= 1,
    ensures
        a > b <==> factor * a > factor * b,
        a >= b <==> factor * a >= factor * b,
{
    assert(a > b <==> factor * a > factor * b) by (nonlinear_arith)
        requires
            factor >= 1,
    ;
    assert(a >= b <==> factor * a >= factor * b) by (nonlinear_arith)
        requires
            factor >= 1,
    ;
}

proof fn lemma_louder_onset(
    flux: Seq<u64>,
    louder: Seq<u64>,
    factor: int,
    k: int,
    typical: int,
    loudest: int,
)
    requires
        louder_by(flux, louder, factor),
        factor >= 1,
        0 <= k < flux.len(),
    ensures
        is_onset(louder, k, factor * typical, factor * loudest) == is_onset(
            flux,
            k,
            typical,
            loudest,
        ),
{
    if ONSET_HISTORY <= k < flux.len() - ONSET_LOOKAHEAD {
        let level = flux[k] as int;
        let past = history(flux, k, ONSET_HISTORY as int);
        assert(louder[k] == factor * flux[k]);
        assert(louder[k - 1] == factor * flux[k - 1]);
        assert(louder[k + 1] == factor * flux[k + 1]);
        assert(louder[k + 2] == factor * flux[k + 2]);
        lemma_grown_alike(level, flux[k - 1] as int, factor);
        lemma_grown_alike(level, flux[k + 1] as int, factor);
        lemma_grown_alike(level, flux[k + 2] as int, factor);
        lemma_louder_history(flux, louder, factor, k, ONSET_HISTORY as int);
        lemma_grown_alike(5 * level, past, factor);
        lemma_grown_alike(100 * level, 4 * typical, factor);
        lemma_grown_alike(10 * (100 * level), 3 * loudest, factor);
        assert(factor * (5 * level) == 5 * (factor * level)) by (nonlinear_arith);
        assert(factor * (100 * level) == 100 * (factor * level)) by (nonlinear_arith);
        assert(factor * (10 * (100 * level)) == 10 * (100 * (factor * level)))
            by (nonlinear_arith);
        assert(factor * (4 * typical) == 4 * (factor * typical)) by (nonlinear_arith);
        assert(factor * (3 * loudest) == 3 * (factor * loudest)) by (nonlinear_arith);
    }
}

proof fn lemma_louder_strength(level: u64, grown: u64, loudest: int, factor: int)
    requires
        grown == factor * level,
        factor >= 1,
        loudest > 0,
    ensures
        strength_of(grown, factor * loudest) == strength_of(level, loudest),
{
    let part = 100 * level;
    lemma_grown_alike(part, loudest, factor);
    lemma_grown_alike(part, 0, factor);
    assert(100 * (factor * level) == factor * part) by (nonlinear_arith)
        requires
            part == 100 * level,
    ;
    if 0 < part < loudest {
        let over = 2 * part * UNITY + loudest;
        let under = 2 * loudest;
        assert(2 * (factor * part) * UNITY + factor * loudest == factor * over) by (nonlinear_arith)
            requires
                over == 2 * part * UNITY + loudest,
        ;
        assert(2 * (factor * loudest) == factor * under) by (nonlinear_arith)
            requires
                under == 2 * loudest,
        ;
        vstd::arithmetic::div_mod::lemma_div_multiples_vanish_quotient(factor, over, under);
    }
}

proof fn lemma_louder_onsets_among(
    flux: Seq<u64>,
    louder: Seq<u64>,
    factor: int,
    typical: int,
    loudest: int,
    sample_rate: int,
    n: int,
)
    requires
        louder_by(flux, louder, factor),
        factor >= 1,
        loudest > 0,
        0 <= n <= flux.len(),
    ensures
        onsets_among(louder, factor * typical, factor * loudest, sample_rate, n) == onsets_among(
            flux,
            typical,
            loudest,
            sample_rate,
            n,
        ),
    decreases n,
{
    if n > 0 {
        lemma_louder_onsets_among(flux, louder, factor, typical, loudest, sample_rate, n - 1);
        lemma_louder_onset(flux, louder, factor, n - 1, typical, loudest);
        assert(louder[n - 1] == factor * flux[n - 1]);
        lemma_louder_strength(flux[n - 1], louder[n - 1], loudest, factor);
    }
}

/// Onsets and their strengths are relative to the track itself: a track that has onsets has the
/// same ones when it is played louder, by any whole factor.
pub proof fn louder_tracks_have_the_same_onsets(
    flux: Seq<u64>,
    louder: Seq<u64>,
    factor: int,
    sample_rate: int,
)
    requires
        factor >= 1,
        louder_by(flux, louder, factor),
        onsets_of(flux, sample_rate).len() > 0,
    ensures
        onsets_of(louder, sample_rate) == onsets_of(flux, sample_rate),
{
    let typical = survey::percentile_of(settled(flux), survey::MEDIAN as int);
    let loudest = survey::percentile_of(settled(flux), LOUDEST_PERCENTILE as int);
    assert forall|k: int| 0 <= k < settled(flux).len() implies #[trigger] settled(louder)[k]
        == factor * settled(flux)[k] by {
        assert(louder[k + ONSET_HISTORY] == factor * flux[k + ONSET_HISTORY]);
    }
    survey::percentiles_follow_the_volume(
        settled(flux),
        settled(louder),
        factor,
        survey::MEDIAN as int,
    );
    survey::percentiles_follow_the_volume(
        settled(flux),
        settled(louder),
        factor,
        LOUDEST_PERCENTILE as int,
    );
    assert(factor * loudest >= loudest) by (nonlinear_arith)
        requires
            factor >= 1,
            loudest > 0,
    ;
    lemma_louder_onsets_among(
        flux,
        louder,
        factor,
        typical,
        loudest,
        sample_rate,
        flux.len() as int,
    );
}

// ---------------------------------------------------------------------------------------------
// Finding onsets
// ---------------------------------------------------------------------------------------------

fn history_before(flux: &[u64], k: usize) -> (sum: u128)
    requires
        ONSET_HISTORY <= k <= flux@.len(),
    ensures
        sum == history(flux@, k as int, ONSET_HISTORY as int),
        sum <= ONSET_HISTORY * u64::MAX,
{
    let mut sum: u128 = 0;
    let mut n: usize = 0;
    while n < ONSET_HISTORY
        invariant
            ONSET_HISTORY <= k <= flux@.len(),
            n <= ONSET_HISTORY,
            sum == history(flux@, k as int, n as int),
            sum <= n * u64::MAX,
        decreases ONSET_HISTORY - n,
    {
        n = n + 1;
        sum = sum + flux[k - n] as u128;
    }
    sum
}

fn is_onset_frame(flux: &[u64], k: usize, typical: u128, loudest: u128) -> (yes: bool)
    requires
        k < flux@.len(),
        typical <= 100 * u64::MAX,
        loudest <= 100 * u64::MAX,
    ensures
        yes == is_onset(flux@, k as int, typical as int, loudest as int),
{
    if k < ONSET_HISTORY || flux.len() - k <= ONSET_LOOKAHEAD {
        return false;
    }
    let level: u128 = flux[k] as u128;
    flux[k] > flux[k - 1] && flux[k] >= flux[k + 1] && flux[k] >= flux[k + 2] && 5 * level
        * ONSET_HISTORY as u128 > 8 * history_before(flux, k) && 100 * level > 4 * typical && 10
        * (100 * level) >= 3 * loudest
}

fn strength(level: u64, loudest: u128) -> (strength: u32)
    requires
        loudest <= 100 * u64::MAX,
    ensures
        strength == strength_of(level, loudest as int),
        strength <= UNITY,
{
    let part: u128 = 100 * level as u128;
    if part >= loudest {
        return UNITY;
    }
    if part == 0 {
        return 0;
    }
    let whole: u128 = UNITY as u128;
    proof {
        assert(0 <= part * whole <= 100 * u64::MAX * u32::MAX) by (nonlinear_arith)
            requires
                0 <= part <= 100 * u64::MAX,
                0 <= whole <= u32::MAX,
        ;
        assert(2 * part * whole == 2 * (part * whole)) by (nonlinear_arith);
        survey::lemma_rounded_share(part as int, loudest as int, whole as int);
    }
    ((2 * part * whole + loudest) / (2 * loudest)) as u32
}

/// Finds the onsets of a track in the spectral flux of its frames, at least the minimum gap
/// apart.
pub fn detect_onsets(flux: &[u64], sample_rate: u32) -> (onsets: Vec<Onset>)
    requires
        sample_rate > 0,
        flux@.len() * STFT_HOP * 1000 <= usize::MAX,
    ensures
        onsets@ == onsets_of(flux@, sample_rate as int),
        well_spaced(onsets@),
{
    let n: usize = flux.len();
    let mut onsets: Vec<Onset> = Vec::new();
    if n < ONSET_HISTORY {
        return onsets;
    }
    let tail = vstd::slice::slice_to_vec(vstd::slice::slice_subrange(flux, ONSET_HISTORY, n));
    assert(tail@ =~= settled(flux@));
    let sorted = survey::sort_levels(&tail);
    let typical: u128 = survey::percentile(&sorted, survey::MEDIAN);
    let loudest: u128 = survey::percentile(&sorted, LOUDEST_PERCENTILE);
    if loudest <= 100 * FLUX_FLOOR {
        return onsets;
    }
    let ghost rate = sample_rate as int;
    let mut k: usize = 0;
    while k < n
        invariant
            n == flux@.len(),
            n * STFT_HOP * 1000 <= usize::MAX,
            rate == sample_rate > 0,
            typical <= 100 * u64::MAX,
            loudest <= 100 * u64::MAX,
            k <= n,
            onsets@ == spaced(
                onsets_among(flux@, typical as int, loudest as int, rate, k as int),
            ),
        decreases n - k,
    {
        let ghost before = onsets_among(flux@, typical as int, loudest as int, rate, k as int);
        if is_onset_frame(flux, k, typical, loudest) {
            let position: usize = k * STFT_HOP * 1000;
            proof {
                vstd::arithmetic::div_mod::lemma_div_is_ordered_by_denominator(
                    position as int,
                    1,
                    rate,
                );
                vstd::arithmetic::div_mod::lemma_div_pos_is_pos(position as int, rate);
            }
            let onset = Onset {
                ms: (position / sample_rate as usize) as u64,
                strength: strength(flux[k], loudest),
            };
            assert(onset == onset_at(flux@, k as int, loudest as int, rate));
            let keep = onsets.len() == 0 || (onset.ms >= onsets[onsets.len() - 1].ms && onset.ms
                - onsets[onsets.len() - 1].ms >= MIN_ONSET_GAP_MS);
            assert(before.push(onset).drop_last() =~= before);
            if keep {
                onsets.push(onset);
            }
        }
        k = k + 1;
    }
    proof {
        spaced_onsets_keep_the_gap(
            onsets_among(flux@, typical as int, loudest as int, rate, n as int),
        );
    }
    onsets
}

// ---------------------------------------------------------------------------------------------
// Where onsets are found
// ---------------------------------------------------------------------------------------------

/// One of the onsets at `places`, onset `i` or one before it, comes less than 120 milliseconds
/// before onset `i`.
pub open spec fn comes_close_behind(onsets: Seq<Onset>, places: Seq<int>, i: int) -> bool {
    exists|j: int|
        0 <= j < places.len() && #[trigger] places[j] <= i && onsets[i].ms - onsets[places[j]].ms
            < 120
}

/// Onsets too close to each other give way to the first of them: those kept come in order, the
/// first among them, 120 milliseconds or more apart, and every one left out comes less than 120
/// milliseconds after one that was kept before it.
pub proof fn close_onsets_give_way_to_the_first(onsets: Seq<Onset>) -> (places: Seq<int>)
    ensures
        places.len() == spaced(onsets).len(),
        onsets.len() > 0 ==> places.len() > 0 && places[0] == 0,
        forall|j: int|
            0 <= j < places.len() ==> 0 <= #[trigger] places[j] < onsets.len()
                && spaced(onsets)[j] == onsets[places[j]],
        forall|j: int, k: int|
            0 <= j < k < places.len() ==> {
                &&& #[trigger] places[j] < #[trigger] places[k]
                &&& onsets[places[k]].ms - onsets[places[j]].ms >= 120
            },
        forall|i: int|
            0 <= i < onsets.len() ==> #[trigger] comes_close_behind(onsets, places, i),
    decreases onsets.len(),
{
    let mut places: Seq<int> = Seq::empty();
    if onsets.len() > 0 {
        let fewer = onsets.drop_last();
        let last = onsets.len() - 1;
        let before = close_onsets_give_way_to_the_first(fewer);
        let kept = spaced(fewer);
        places = before;
        if kept.len() == 0 || onsets[last].ms - kept.last().ms >= MIN_ONSET_GAP_MS {
            places = before.push(last);
        }
        spaced_onsets_keep_the_gap(onsets);
        assert forall|j: int| 0 <= j < places.len() implies 0 <= #[trigger] places[j]
            < onsets.len() && spaced(onsets)[j] == onsets[places[j]] by {
            if j < before.len() {
                assert(0 <= before[j] < fewer.len());
                assert(fewer[before[j]] == onsets[before[j]]);
            }
        }
        assert forall|j: int, k: int| 0 <= j < k < places.len() implies {
            &&& #[trigger] places[j] < #[trigger] places[k]
            &&& onsets[places[k]].ms - onsets[places[j]].ms >= 120
        } by {
            assert(spaced(onsets)[j] == onsets[places[j]]);
            assert(spaced(onsets)[k] == onsets[places[k]]);
            if k < before.len() {
                assert(before[j] < before[k]);
            }
        }
        assert forall|i: int| 0 <= i < onsets.len() implies #[trigger] comes_close_behind(
            onsets,
            places,
            i,
        ) by {
            if i < last {
                assert(comes_close_behind(fewer, before, i));
                assert(fewer[i] == onsets[i]);
                let j = choose|j: int|
                    0 <= j < before.len() && #[trigger] before[j] <= i && fewer[i].ms
                        - fewer[before[j]].ms < 120;
                assert(0 <= before[j] < fewer.len());
                assert(places[j] == before[j]);
                assert(fewer[before[j]] == onsets[places[j]]);
            } else {
                let j = places.len() - 1;
                if places.len() == before.len() {
                    assert(kept[j] == fewer[before[j]]);
                    assert(0 <= before[j] < fewer.len());
                }
                assert(places[j] <= i && onsets[i].ms - onsets[places[j]].ms < 120);
            }
        }
    }
    places
}

/// Frame `k` rises above what surrounds it: above the frame before, no lower than the two after,
/// above 1.6 times the mean of the eight before, above 4 times the level `typical`, and at least
/// at 0.3 times the level `loudest`, both in hundredths.
pub open spec fn rises_above(flux: Seq<u64>, k: int, typical: int, loudest: int) -> bool {
    &&& 8 <= k
    &&& k + 2 < flux.len()
    &&& flux[k - 1] < flux[k]
    &&& flux[k + 1] <= flux[k]
    &&& flux[k + 2] <= flux[k]
    &&& 10 * 8 * flux[k] > 16 * (flux[k - 8] + flux[k - 7] + flux[k - 6] + flux[k - 5] + flux[k - 4]
        + flux[k - 3] + flux[k - 2] + flux[k - 1])
    &&& 100 * flux[k] > 4 * typical
    &&& 1000 * flux[k] >= 3 * loudest
}

proof fn lemma_onsets_rise_above(flux: Seq<u64>, k: int, typical: int, loudest: int)
    ensures
        is_onset(flux, k, typical, loudest) == rises_above(flux, k, typical, loudest),
{
    if 8 <= k && k + 2 < flux.len() {
        reveal_with_fuel(history, 9);
        let past = flux[k - 8] + flux[k - 7] + flux[k - 6] + flux[k - 5] + flux[k - 4] + flux[k - 3]
            + flux[k - 2] + flux[k - 1];
        assert(history(flux, k, 8) == past);
        assert(5 * flux[k] * ONSET_HISTORY == 40 * flux[k]) by (nonlinear_arith);
        assert(10 * 8 * flux[k] == 80 * flux[k]) by (nonlinear_arith);
    }
}

/// The onset at frame `k` is at the start of the frame, 512 samples from the last, in whole
/// milliseconds, and as strong as its flux is a share of that of the loudest frames, out of
/// 33554432 and no more than that.
pub open spec fn placed_at(
    onset: Onset,
    flux: Seq<u64>,
    k: int,
    loudest: int,
    sample_rate: int,
) -> bool {
    &&& onset.ms * sample_rate <= 512_000 * k < (onset.ms + 1) * sample_rate
    &&& 100 * flux[k] >= loudest ==> onset.strength == 33_554_432
    &&& 100 * flux[k] < loudest ==> -loudest <= 67_108_864 * (100 * flux[k]) - 2 * loudest
        * onset.strength < loudest
}

proof fn lemma_placed_at(flux: Seq<u64>, k: int, loudest: int, sample_rate: int)
    requires
        0 <= k < flux.len(),
        flux.len() * 512_000 <= u64::MAX,
        sample_rate > 0,
        loudest > 0,
    ensures
        placed_at(onset_at(flux, k, loudest, sample_rate), flux, k, loudest, sample_rate),
{
    let onset = onset_at(flux, k, loudest, sample_rate);
    let position = 512_000 * k;
    let ms = position / sample_rate;
    assert(k * STFT_HOP * 1000 == position);
    vstd::arithmetic::div_mod::lemma_div_pos_is_pos(position, sample_rate);
    vstd::arithmetic::div_mod::lemma_div_is_ordered_by_denominator(position, 1, sample_rate);
    vstd::arithmetic::div_mod::lemma_fundamental_div_mod(position, sample_rate);
    vstd::arithmetic::div_mod::lemma_mod_bound(position, sample_rate);
    assert(sample_rate * ms == ms * sample_rate && (ms + 1) * sample_rate == ms * sample_rate
        + sample_rate) by (nonlinear_arith);
    let part = 100 * flux[k];
    if 0 < part < loudest {
        let num = 2 * part * UNITY + loudest;
        vstd::arithmetic::div_mod::lemma_fundamental_div_mod(num, 2 * loudest);
        vstd::arithmetic::div_mod::lemma_mod_bound(num, 2 * loudest);
        survey::lemma_rounded_share(part, loudest, UNITY as int);
        assert(2 * part * UNITY == 67_108_864 * part);
    } else if part == 0 {
        assert(2 * loudest * 0 == 0);
    }
}

/// The frames among the first `n` at which there is an onset.
spec fn onset_frames(flux: Seq<u64>, typical: int, loudest: int, n: int) -> Seq<int>
    decreases n,
{
    if n <= 0 {
        Seq::empty()
    } else if is_onset(flux, n - 1, typical, loudest) {
        onset_frames(flux, typical, loudest, n - 1).push(n - 1)
    } else {
        onset_frames(flux, typical, loudest, n - 1)
    }
}

proof fn lemma_onset_frames(flux: Seq<u64>, typical: int, loudest: int, sample_rate: int, n: int)
    requires
        0 <= n <= flux.len(),
    ensures
        ({
            let frames = onset_frames(flux, typical, loudest, n);
            let onsets = onsets_among(flux, typical, loudest, sample_rate, n);
            &&& frames.len() == onsets.len()
            &&& forall|j: int|
                0 <= j < frames.len() ==> {
                    &&& 0 <= #[trigger] frames[j] < n
                    &&& is_onset(flux, frames[j], typical, loudest)
                    &&& onsets[j] == onset_at(flux, frames[j], loudest, sample_rate)
                }
            &&& forall|i: int, j: int|
                0 <= i < j < frames.len() ==> #[trigger] frames[i] < #[trigger] frames[j]
            &&& forall|k: int|
                0 <= k < n && is_onset(flux, k, typical, loudest) ==> #[trigger] frames.contains(k)
        }),
    decreases n,
{
    if n > 0 {
        lemma_onset_frames(flux, typical, loudest, sample_rate, n - 1);
        let before = onset_frames(flux, typical, loudest, n - 1);
        let frames = onset_frames(flux, typical, loudest, n);
        assert forall|k: int|
            0 <= k < n && is_onset(
                flux,
                k,
                typical,
                loudest,
            ) implies #[trigger] frames.contains(k) by {
            if k < n - 1 {
                assert(before.contains(k));
                let j = choose|j: int| 0 <= j < before.len() && before[j] == k;
                assert(frames[j] == k);
            } else {
                assert(frames[before.len() as int] == k);
            }
        }
    }
}

/// One of the `onsets` at `frames`, at frame `k` or one before it, comes less than 120
/// milliseconds before frame `k`.
pub open spec fn heard_shortly_before(
    onsets: Seq<Onset>,
    frames: Seq<int>,
    k: int,
    sample_rate: int,
) -> bool {
    exists|j: int|
        0 <= j < frames.len() && #[trigger] frames[j] <= k && 512_000 * k / sample_rate
            - onsets[j].ms < 120
}

/// The onsets of a track are the frames that rise above what surrounds them, by the median and
/// the 98th percentile of the flux after the first eight frames, each where and as strong as its
/// frame is; of those closer than 120 milliseconds the first. A track with hardly any flux has
/// none.
pub proof fn onsets_are_where_the_flux_rises(flux: Seq<u64>, sample_rate: int) -> (frames: Seq<int>)
    requires
        flux.len() * 512_000 <= u64::MAX,
        sample_rate > 0,
    ensures
        ({
            let typical = survey::percentile_of(flux.skip(8), 50);
            let loudest = survey::percentile_of(flux.skip(8), 98);
            let onsets = onsets_of(flux, sample_rate);
            &&& flux.len() < 8 || loudest <= 13_107_200 ==> onsets.len() == 0
            &&& flux.len() >= 8 && loudest > 13_107_200 ==> {
                &&& frames.len() == onsets.len()
                &&& forall|j: int|
                    0 <= j < frames.len() ==> {
                        &&& rises_above(flux, #[trigger] frames[j], typical, loudest)
                        &&& placed_at(onsets[j], flux, frames[j], loudest, sample_rate)
                    }
                &&& forall|i: int, j: int|
                    0 <= i < j < frames.len() ==> {
                        &&& #[trigger] frames[i] < #[trigger] frames[j]
                        &&& onsets[j].ms - onsets[i].ms >= 120
                    }
                &&& forall|k: int|
                    rises_above(flux, k, typical, loudest) ==> #[trigger] heard_shortly_before(
                        onsets,
                        frames,
                        k,
                        sample_rate,
                    )
            }
        }),
{
    let typical = survey::percentile_of(flux.skip(8), 50);
    let loudest = survey::percentile_of(flux.skip(8), 98);
    let n = flux.len() as int;
    let onsets = onsets_of(flux, sample_rate);
    let all = onsets_among(flux, typical, loudest, sample_rate, n);
    let from = onset_frames(flux, typical, loudest, n);
    lemma_onset_frames(flux, typical, loudest, sample_rate, n);
    let places = close_onsets_give_way_to_the_first(all);
    let frames = Seq::new(places.len(), |j: int| from[places[j]]);
    if flux.len() >= 8 && loudest > 13_107_200 {
        assert(onsets == spaced(all));
        assert forall|j: int| 0 <= j < frames.len() implies {
            &&& rises_above(flux, #[trigger] frames[j], typical, loudest)
            &&& placed_at(onsets[j], flux, frames[j], loudest, sample_rate)
        } by {
            assert(0 <= places[j] < all.len());
            assert(frames[j] == from[places[j]]);
            lemma_onsets_rise_above(flux, frames[j], typical, loudest);
            lemma_placed_at(flux, frames[j], loudest, sample_rate);
        }
        assert forall|i: int, j: int| 0 <= i < j < frames.len() implies {
            &&& #[trigger] frames[i] < #[trigger] frames[j]
            &&& onsets[j].ms - onsets[i].ms >= 120
        } by {
            assert(places[i] < places[j]);
            assert(from[places[i]] < from[places[j]]);
            assert(onsets[i] == all[places[i]] && onsets[j] == all[places[j]]);
        }
        assert forall|k: int|
            rises_above(flux, k, typical, loudest) implies #[trigger] heard_shortly_before(
            onsets,
            frames,
            k,
            sample_rate,
        ) by {
            lemma_onsets_rise_above(flux, k, typical, loudest);
            assert(from.contains(k));
            let at = choose|at: int| 0 <= at < from.len() && from[at] == k;
            assert(all[at] == onset_at(flux, k, loudest, sample_rate));
            assert(comes_close_behind(all, places, at));
            let j = choose|j: int|
                0 <= j < places.len() && #[trigger] places[j] <= at && all[at].ms
                    - all[places[j]].ms < 120;
            assert(frames[j] == from[places[j]]);
            assert(frames[j] <= k) by {
                if places[j] < at {
                    assert(from[places[j]] < from[at]);
                }
            }
            let position = 512_000 * k;
            vstd::arithmetic::div_mod::lemma_div_pos_is_pos(position, sample_rate);
            vstd::arithmetic::div_mod::lemma_div_is_ordered_by_denominator(
                position,
                1,
                sample_rate,
            );
            assert(k * STFT_HOP * 1000 == position);
            assert(all[at].ms == position / sample_rate);
            assert(onsets[j] == all[places[j]]);
        }
    }
    frames
}

} // verus!
