//! What is typical of a track, and how each of its seconds compares to that.
//!
//! Levels (loudness, spectral flux, shares of bands) are whole numbers, in fractions of
//! [`LEVEL_ONE`].

use crate::analyze::UNITY;
use crate::order;
use vstd::prelude::*;

verus! {

/// The level 1.
pub const LEVEL_ONE: u64 = 1_099_511_627_776;

/// A second whose loudness is below this is digital silence: a hundred-thousandth.
pub const SILENCE_RMS: u64 = 10_995_116;

/// A band with no larger share than this is empty.
pub const EMPTY_SHARE: u64 = 131_072;

/// By how much the bands of a second must exceed their typical shares, taken together, before
/// the hue is steered at all: two hundredths.
pub const MIN_EXCESS_PERCENT: u128 = 2;

/// The percentile of loudness below which a second is shown darkest.
pub const QUIET_PERCENTILE: u64 = 5;

/// The percentile of loudness above which a second is shown brightest.
pub const LOUD_PERCENTILE: u64 = 95;

/// The percentile that is the median.
pub const MEDIAN: u64 = 50;

/// Spectral bands.
pub const BANDS: usize = 5;

// ---------------------------------------------------------------------------------------------
// Percentiles
// ---------------------------------------------------------------------------------------------

/// Levels from low to high.
pub open spec fn by_level() -> spec_fn(u64, u64) -> bool {
    |a: u64, b: u64| a <= b
}

/// `levels` from low to high.
pub open spec fn ascending(levels: Seq<u64>) -> Seq<u64> {
    choose|sorted: Seq<u64>| order::stable_sort_of(levels, sorted, by_level())
}

/// The level below which `percent` of a hundred of the levels lie, in hundredths; between two
/// levels, by linear interpolation. `sorted` is in order.
pub open spec fn percentile_in(sorted: Seq<u64>, percent: int) -> int {
    if sorted.len() == 0 {
        0
    } else {
        let place = percent * (sorted.len() - 1);
        let below = place / 100;
        let along = place % 100;
        if along == 0 {
            100 * sorted[below]
        } else {
            sorted[below] * (100 - along) + sorted[below + 1] * along
        }
    }
}

/// The level below which `percent` of a hundred of the levels lie, in hundredths.
pub open spec fn percentile_of(levels: Seq<u64>, percent: int) -> int {
    percentile_in(ascending(levels), percent)
}

/// Sorts levels from low to high.
pub fn sort_levels(levels: &Vec<u64>) -> (sorted: Vec<u64>)
    ensures
        sorted@ == ascending(levels@),
        order::stable_sort_of(levels@, sorted@, by_level()),
        sorted@.len() == levels@.len(),
{
    let le = |a: &u64, b: &u64| -> (r: bool)
        ensures
            r == by_level()(*a, *b),
        { *a <= *b };
    let mut copy: Vec<u64> = Vec::new();
    let n: usize = levels.len();
    let mut i: usize = 0;
    while i < n
        invariant
            n == levels@.len(),
            i <= n,
            copy@ == levels@.take(i as int),
        decreases n - i,
    {
        copy.push(levels[i]);
        i = i + 1;
        assert(copy@ =~= levels@.take(i as int));
    }
    assert(levels@.take(n as int) =~= levels@);
    let sorted = order::stable_sort(copy, le, Ghost(by_level()));
    proof {
        order::stable_sort_is_unique(levels@, sorted@, ascending(levels@), by_level());
        levels@.to_multiset_ensures();
        sorted@.to_multiset_ensures();
    }
    sorted
}

/// The level below which `percent` of a hundred of the levels lie, in hundredths.
pub fn percentile(sorted: &Vec<u64>, percent: u64) -> (level: u128)
    requires
        percent <= 100,
    ensures
        level == percentile_in(sorted@, percent as int),
        level <= 100 * u64::MAX,
{
    let n: usize = sorted.len();
    if n == 0 {
        return 0;
    }
    proof {
        assert(0 <= percent * (n - 1) <= 100 * (n - 1)) by (nonlinear_arith)
            requires
                0 <= percent <= 100,
                n >= 1,
        ;
    }
    let place: u128 = percent as u128 * (n - 1) as u128;
    let below: usize = (place / 100) as usize;
    let along: u128 = place % 100;
    if along == 0 {
        return 100 * sorted[below] as u128;
    }
    let one: u128 = sorted[below] as u128;
    let other: u128 = sorted[below + 1] as u128;
    proof {
        assert(0 <= one * (100 - along) <= u64::MAX * (100 - along)) by (nonlinear_arith)
            requires
                0 <= one <= u64::MAX,
                0 < along < 100,
        ;
        assert(0 <= other * along <= u64::MAX * along) by (nonlinear_arith)
            requires
                0 <= other <= u64::MAX,
                0 < along < 100,
        ;
    }
    one * (100 - along) + other * along
}

/// A percentile lies between the lowest and the highest level.
pub proof fn percentiles_lie_within(sorted: Seq<u64>, percent: int)
    requires
        sorted.len() > 0,
        order::ordered_by(sorted, by_level()),
        0 <= percent <= 100,
    ensures
        100 * sorted[0] <= percentile_in(sorted, percent) <= 100 * sorted.last(),
{
    let last = sorted.len() - 1;
    let place = percent * last;
    assert(0 <= place <= 100 * last) by (nonlinear_arith)
        requires
            0 <= percent <= 100,
            last >= 0,
            place == percent * last,
    ;
    let below = place / 100;
    let along = place % 100;
    assert forall|i: int, j: int| 0 <= i <= j < sorted.len() implies #[trigger] sorted[i]
        <= #[trigger] sorted[j] by {
        if i < j {
            assert(by_level()(sorted[i], sorted[j]));
        }
    }
    assert(sorted[0] <= sorted[below] <= sorted[last]);
    if along != 0 {
        let a = sorted[below] as int;
        let b = sorted[below + 1] as int;
        assert(sorted[0] <= sorted[below + 1] <= sorted[last]);
        let low = sorted[0] as int;
        let high = sorted[last] as int;
        assert(100 * low <= a * (100 - along) + b * along <= 100 * high) by (nonlinear_arith)
            requires
                low <= a <= high,
                low <= b <= high,
                0 < along < 100,
        ;
    }
}

/// The same levels in order are a sort of them: levels that tie are the same.
proof fn lemma_sorted_levels(levels: Seq<u64>, sorted: Seq<u64>)
    requires
        levels.to_multiset() == sorted.to_multiset(),
        order::ordered_by(sorted, by_level()),
    ensures
        order::stable_sort_of(levels, sorted, by_level()),
{
    assert forall|x: u64| #[trigger]
        sorted.filter(order::ties_with(x, by_level())) == levels.filter(
        order::ties_with(x, by_level()),
    ) by {
        let pred = order::ties_with(x, by_level());
        order::lemma_same_items_same_count(levels, sorted, pred);
        assert forall|i: int| 0 <= i < levels.filter(pred).len() implies levels.filter(pred)[i]
            == x by {
            levels.lemma_filter_pred(pred, i);
        }
        assert forall|i: int| 0 <= i < sorted.filter(pred).len() implies sorted.filter(pred)[i]
            == x by {
            sorted.lemma_filter_pred(pred, i);
        }
        assert(sorted.filter(pred) =~= levels.filter(pred));
    }
}

/// Levels can be put in order.
proof fn lemma_ascending(levels: Seq<u64>)
    ensures
        order::stable_sort_of(levels, ascending(levels), by_level()),
        ascending(levels).len() == levels.len(),
{
    let sorted = levels.sort_by(by_level());
    levels.lemma_sort_by_ensures(by_level());
    assert forall|i: int, j: int| 0 <= i < j < sorted.len() implies by_level()(
        #[trigger] sorted[i],
        #[trigger] sorted[j],
    ) by {
        let le = by_level();
        assert(le(sorted[i], sorted[j]));
    }
    lemma_sorted_levels(levels, sorted);
    levels.to_multiset_ensures();
    ascending(levels).to_multiset_ensures();
}

/// The percentiles of a track that is louder throughout, by a whole factor, are higher by that
/// factor.
pub proof fn percentiles_follow_the_volume(
    levels: Seq<u64>,
    louder: Seq<u64>,
    factor: int,
    percent: int,
)
    requires
        factor >= 1,
        0 <= percent <= 100,
        louder.len() == levels.len(),
        forall|k: int| 0 <= k < levels.len() ==> #[trigger] louder[k] == factor * levels[k],
    ensures
        percentile_of(louder, percent) == factor * percentile_of(levels, percent),
{
    let raise = |x: u64| (factor * x) as u64;
    let sorted = ascending(levels);
    let raised = sorted.map_values(raise);
    lemma_ascending(levels);
    assert forall|i: int| 0 <= i < sorted.len() implies (#[trigger] raised[i]) == factor
        * sorted[i] by {
        levels.to_multiset_ensures();
        sorted.to_multiset_ensures();
        assert(sorted.contains(sorted[i]));
        assert(levels.to_multiset().contains(sorted[i]));
        let k = choose|k: int| 0 <= k < levels.len() && levels[k] == sorted[i];
        assert(louder[k] == factor * levels[k]);
    }
    assert(louder =~= levels.map_values(raise)) by {
        assert forall|k: int| 0 <= k < levels.len() implies louder[k] == raise(levels[k]) by {
            assert(louder[k] == factor * levels[k]);
        }
    }
    order::lemma_same_items_mapped(levels, sorted, raise);
    assert forall|i: int, j: int| 0 <= i < j < raised.len() implies by_level()(
        #[trigger] raised[i],
        #[trigger] raised[j],
    ) by {
        assert(by_level()(sorted[i], sorted[j]));
        let a = sorted[i] as int;
        let b = sorted[j] as int;
        assert(factor * a <= factor * b) by (nonlinear_arith)
            requires
                a <= b,
                factor >= 1,
        ;
    }
    lemma_sorted_levels(louder, raised);
    lemma_ascending(louder);
    order::stable_sort_is_unique(louder, raised, ascending(louder), by_level());
    if sorted.len() > 0 {
        let last = sorted.len() - 1;
        let place = percent * last;
        assert(0 <= place <= 100 * last) by (nonlinear_arith)
            requires
                0 <= percent <= 100,
                last >= 0,
                place == percent * last,
        ;
        let along = place % 100;
        let a = sorted[place / 100] as int;
        assert(100 * (factor * a) == factor * (100 * a)) by (nonlinear_arith);
        if along != 0 {
            let b = sorted[place / 100 + 1] as int;
            assert((factor * a) * (100 - along) + (factor * b) * along == factor * (a * (100
                - along) + b * along)) by (nonlinear_arith);
        }
    } else {
        assert(factor * 0 == 0);
    }
}

// ---------------------------------------------------------------------------------------------
// Seconds
// ---------------------------------------------------------------------------------------------

/// What was measured in one second.
#[derive(Clone, Copy, Debug)]
pub struct Features {
    /// Loudness.
    pub rms: u64,
    /// The share of each band.
    pub shares: [u64; 5],
}

/// How one second compares to its track.
#[derive(Clone, Copy, Debug)]
pub struct Standing {
    /// How loud it is, out of [`UNITY`].
    pub loud: u32,
    /// By how much each band exceeds its typical share, in hundredths; nothing in a balanced mix.
    pub excess: Option<[u128; 5]>,
}

/// A second of digital silence: it has hardly any power, or none in any band.
pub open spec fn silent(features: Features) -> bool {
    features.rms < SILENCE_RMS || forall|b: int|
        0 <= b < BANDS ==> #[trigger] features.shares@[b] <= EMPTY_SHARE
}

/// Whether a second is digital silence.
pub fn is_silent(features: &Features) -> (yes: bool)
    ensures
        yes == silent(*features),
{
    if features.rms < SILENCE_RMS {
        return true;
    }
    let mut b: usize = 0;
    while b < BANDS
        invariant
            b <= BANDS,
            features.rms >= SILENCE_RMS,
            features.shares@.len() == BANDS,
            forall|k: int| 0 <= k < b ==> #[trigger] features.shares@[k] <= EMPTY_SHARE,
        decreases BANDS - b,
    {
        if features.shares[b] > EMPTY_SHARE {
            assert(features.shares@[b as int] > EMPTY_SHARE);
            return false;
        }
        b = b + 1;
    }
    true
}

/// How loud a second is, out of [`UNITY`], between the quiet level `lo` and the loud level `hi`,
/// both in hundredths: half, if the two are the same.
pub open spec fn loudness_of(rms: u64, lo: int, hi: int) -> int {
    let over = 100 * rms - lo;
    let span = hi - lo;
    if span <= 0 {
        UNITY as int / 2
    } else if over <= 0 {
        0
    } else if over >= span {
        UNITY as int
    } else {
        (2 * over * UNITY + span) / (2 * span)
    }
}

/// A part of `whole` that is rounded to the nearest number is no more than `whole`.
pub proof fn lemma_rounded_share(over: int, span: int, whole: int)
    requires
        0 < over < span,
        0 < whole,
    ensures
        0 <= (2 * over * whole + span) / (2 * span) <= whole,
{
    let x = 2 * over * whole + span;
    let q = x / (2 * span);
    assert(0 < x < (2 * whole + 1) * span) by (nonlinear_arith)
        requires
            0 < over,
            over < span,
            0 < whole,
            x == 2 * over * whole + span,
    ;
    vstd::arithmetic::div_mod::lemma_div_pos_is_pos(x, 2 * span);
    vstd::arithmetic::div_mod::lemma_fundamental_div_mod(x, 2 * span);
    assert(q <= whole) by (nonlinear_arith)
        requires
            2 * span * q <= x,
            x < (2 * whole + 1) * span,
            span > 0,
    ;
}

fn loudness(rms: u64, lo: u128, hi: u128) -> (loud: u32)
    requires
        lo <= 100 * u64::MAX,
        hi <= 100 * u64::MAX,
    ensures
        loud == loudness_of(rms, lo as int, hi as int),
        loud <= UNITY,
{
    let level: u128 = 100 * rms as u128;
    if hi <= lo {
        return UNITY / 2;
    }
    if level <= lo {
        return 0;
    }
    let over: u128 = level - lo;
    let span: u128 = hi - lo;
    if over >= span {
        return UNITY;
    }
    let whole: u128 = UNITY as u128;
    proof {
        assert(0 <= over * whole <= 100 * u64::MAX * u32::MAX) by (nonlinear_arith)
            requires
                0 <= over <= 100 * u64::MAX,
                0 <= whole <= u32::MAX,
        ;
        assert(2 * over * whole == 2 * (over * whole)) by (nonlinear_arith);
        lemma_rounded_share(over as int, span as int, whole as int);
    }
    ((2 * over * whole + span) / (2 * span)) as u32
}

/// A louder second is never shown quieter.
pub proof fn loudness_follows_level(quiet: u64, loud: u64, lo: int, hi: int)
    requires
        quiet <= loud,
    ensures
        0 <= loudness_of(quiet, lo, hi) <= loudness_of(loud, lo, hi) <= UNITY,
{
    let span = hi - lo;
    let a = 100 * quiet - lo;
    let b = 100 * loud - lo;
    if 0 < a < span {
        lemma_rounded_share(a, span, UNITY as int);
    }
    if 0 < b < span {
        lemma_rounded_share(b, span, UNITY as int);
    }
    if 0 < a <= b < span {
        let x = 2 * a * UNITY + span;
        let y = 2 * b * UNITY + span;
        assert(x <= y) by (nonlinear_arith)
            requires
                a <= b,
                x == 2 * a * UNITY + span,
                y == 2 * b * UNITY + span,
        ;
        vstd::arithmetic::div_mod::lemma_div_is_ordered(x, y, 2 * span);
    }
}

/// The loudness of each second.
pub open spec fn levels_of(features: Seq<Features>) -> Seq<u64> {
    features.map_values(|f: Features| f.rms)
}

/// The share of band `b` in each second.
pub open spec fn shares_of(features: Seq<Features>, b: int) -> Seq<u64> {
    features.map_values(|f: Features| f.shares@[b])
}

/// The typical share of band `b`: its median over the track, in hundredths.
pub open spec fn typical_share(features: Seq<Features>, b: int) -> int {
    percentile_of(shares_of(features, b), MEDIAN as int)
}

/// By how much a share exceeds the typical one, in hundredths.
pub open spec fn excess_of(share: u64, typical: int) -> int {
    if 100 * share > typical {
        100 * share - typical
    } else {
        0
    }
}

/// By how much the first `n` bands of second `i` exceed their typical shares, taken together.
pub open spec fn total_excess(features: Seq<Features>, i: int, n: int) -> int
    decreases n,
{
    if n <= 0 {
        0
    } else {
        total_excess(features, i, n - 1) + excess_of(
            features[i].shares@[n - 1],
            typical_share(features, n - 1),
        )
    }
}

/// The bands of second `i` exceed their typical shares by enough to steer the hue.
pub open spec fn steers(features: Seq<Features>, i: int) -> bool {
    total_excess(features, i, BANDS as int) >= MIN_EXCESS_PERCENT * LEVEL_ONE
}

/// `standing` is how second `i` compares to its track, unless it is silent.
pub open spec fn compares(features: Seq<Features>, i: int, standing: Option<Standing>) -> bool {
    match standing {
        None => silent(features[i]),
        Some(standing) => {
            &&& !silent(features[i])
            &&& standing.loud == loudness_of(
                features[i].rms,
                percentile_of(levels_of(features), QUIET_PERCENTILE as int),
                percentile_of(levels_of(features), LOUD_PERCENTILE as int),
            )
            &&& standing.excess is Some <==> steers(features, i)
            &&& standing.excess is Some ==> forall|b: int|
                0 <= b < BANDS ==> #[trigger] standing.excess->0@[b] == excess_of(
                    features[i].shares@[b],
                    typical_share(features, b),
                )
        },
    }
}

fn band_median(features: &Vec<Features>, b: usize) -> (typical: u128)
    requires
        b < BANDS,
    ensures
        typical == typical_share(features@, b as int),
        typical <= 100 * u64::MAX,
{
    let n: usize = features.len();
    let mut column: Vec<u64> = Vec::new();
    let mut i: usize = 0;
    while i < n
        invariant
            b < BANDS,
            n == features@.len(),
            i <= n,
            column@.len() == i,
            forall|k: int| 0 <= k < i ==> #[trigger] column@[k] == features@[k].shares@[b as int],
        decreases n - i,
    {
        column.push(features[i].shares[b]);
        i = i + 1;
    }
    assert(column@ =~= shares_of(features@, b as int));
    let sorted = sort_levels(&column);
    percentile(&sorted, MEDIAN)
}

fn excess(share: u64, typical: u128) -> (over: u128)
    ensures
        over == excess_of(share, typical as int),
        over <= 100 * u64::MAX,
{
    let level: u128 = 100 * share as u128;
    if level > typical {
        level - typical
    } else {
        0
    }
}

/// Compares every second to its track.
pub fn survey(features: &Vec<Features>) -> (standings: Vec<Option<Standing>>)
    ensures
        standings@.len() == features@.len(),
        forall|i: int|
            0 <= i < features@.len() ==> compares(features@, i, #[trigger] standings@[i]),
{
    let n: usize = features.len();
    let mut levels: Vec<u64> = Vec::new();
    let mut i: usize = 0;
    while i < n
        invariant
            n == features@.len(),
            i <= n,
            levels@.len() == i,
            forall|k: int| 0 <= k < i ==> #[trigger] levels@[k] == features@[k].rms,
        decreases n - i,
    {
        levels.push(features[i].rms);
        i = i + 1;
    }
    assert(levels@ =~= levels_of(features@));
    let sorted = sort_levels(&levels);
    let lo: u128 = percentile(&sorted, QUIET_PERCENTILE);
    let hi: u128 = percentile(&sorted, LOUD_PERCENTILE);
    let typical: [u128; 5] = [
        band_median(features, 0),
        band_median(features, 1),
        band_median(features, 2),
        band_median(features, 3),
        band_median(features, 4),
    ];

    let mut standings: Vec<Option<Standing>> = Vec::new();
    let mut i: usize = 0;
    while i < n
        invariant
            n == features@.len(),
            i <= n,
            lo == percentile_of(levels_of(features@), QUIET_PERCENTILE as int),
            hi == percentile_of(levels_of(features@), LOUD_PERCENTILE as int),
            lo <= 100 * u64::MAX,
            hi <= 100 * u64::MAX,
            forall|b: int| 0 <= b < BANDS ==> #[trigger] typical@[b] == typical_share(features@, b),
            standings@.len() == i,
            forall|k: int| 0 <= k < i ==> compares(features@, k, #[trigger] standings@[k]),
        decreases n - i,
    {
        let second: &Features = &features[i];
        if is_silent(second) {
            standings.push(None);
        } else {
            let over: [u128; 5] = [
                excess(second.shares[0], typical[0]),
                excess(second.shares[1], typical[1]),
                excess(second.shares[2], typical[2]),
                excess(second.shares[3], typical[3]),
                excess(second.shares[4], typical[4]),
            ];
            let total: u128 = over[0] + over[1] + over[2] + over[3] + over[4];
            proof {
                reveal_with_fuel(total_excess, 6);
                assert(total == total_excess(features@, i as int, BANDS as int));
            }
            let steered = total >= MIN_EXCESS_PERCENT * LEVEL_ONE as u128;
            standings.push(
                Some(
                    Standing {
                        loud: loudness(second.rms, lo, hi),
                        excess: if steered {
                            Some(over)
                        } else {
                            None
                        },
                    },
                ),
            );
        }
        i = i + 1;
    }
    standings
}

// ---------------------------------------------------------------------------------------------
// What a survey tells
// ---------------------------------------------------------------------------------------------

/// Levels in order, by what they are: the same levels, none before a lower one.
proof fn lemma_ascending_is(levels: Seq<u64>, sorted: Seq<u64>)
    requires
        levels.to_multiset() == sorted.to_multiset(),
        forall|i: int, j: int|
            0 <= i < j < sorted.len() ==> #[trigger] sorted[i] <= #[trigger] sorted[j],
    ensures
        ascending(levels) == sorted,
{
    assert forall|i: int, j: int| 0 <= i < j < sorted.len() implies by_level()(
        #[trigger] sorted[i],
        #[trigger] sorted[j],
    ) by {}
    lemma_sorted_levels(levels, sorted);
    lemma_ascending(levels);
    order::stable_sort_is_unique(levels, sorted, ascending(levels), by_level());
}

/// With the levels in order, the lowest is at 0 of 100 and the highest at 100, and the others are
/// spaced evenly between them. A percentile that falls on a level is that level, and one that
/// falls between two is as far between them, all in hundredths.
pub proof fn a_percentile_is_found_along_the_levels(
    levels: Seq<u64>,
    sorted: Seq<u64>,
    percent: int,
    below: int,
    along: int,
)
    requires
        levels.to_multiset() == sorted.to_multiset(),
        forall|i: int, j: int|
            0 <= i < j < sorted.len() ==> #[trigger] sorted[i] <= #[trigger] sorted[j],
        sorted.len() > 0,
        0 <= along < 100,
        100 * below + along == percent * (sorted.len() - 1),
    ensures
        along == 0 ==> percentile_of(levels, percent) == 100 * sorted[below],
        along > 0 ==> percentile_of(levels, percent) == 100 * sorted[below] + along * (sorted[below
            + 1] - sorted[below]),
        percentile_of(Seq::empty(), percent) == 0,
{
    lemma_ascending_is(levels, sorted);
    lemma_ascending_is(Seq::empty(), Seq::empty());
    let a = sorted[below] as int;
    let b = sorted[below + 1] as int;
    assert(a * (100 - along) + b * along == 100 * a + along * (b - a)) by (nonlinear_arith);
}

/// By how much a share lies above a level in hundredths, if it does.
pub open spec fn above(share: u64, level: int) -> int {
    if 100 * share <= level {
        0
    } else {
        100 * share - level
    }
}

/// How a second compares to its track. It is silent if it is quieter than a hundred-thousandth or
/// no band has more than its smallest share. Otherwise its loudness is placed evenly between the
/// 5th and the 95th percentile of the loudness of all seconds, and the bands steer its hue if,
/// taken together, they exceed their medians by two hundredths.
pub proof fn a_second_is_held_against_its_track(
    features: Seq<Features>,
    i: int,
    standing: Option<Standing>,
)
    requires
        0 <= i < features.len(),
        compares(features, i, standing),
    ensures
        standing is None <==> (features[i].rms < 10_995_116 || {
            &&& features[i].shares@[0] <= 131_072
            &&& features[i].shares@[1] <= 131_072
            &&& features[i].shares@[2] <= 131_072
            &&& features[i].shares@[3] <= 131_072
            &&& features[i].shares@[4] <= 131_072
        }),
        standing matches Some(standing) ==> {
            let levels = Seq::new(features.len(), |k: int| features[k].rms);
            let lo = percentile_of(levels, 5);
            let hi = percentile_of(levels, 95);
            let level = 100 * features[i].rms;
            &&& hi <= lo ==> standing.loud == 16_777_216
            &&& level <= lo < hi ==> standing.loud == 0
            &&& lo < hi <= level ==> standing.loud == 33_554_432
            &&& lo < level < hi ==> lo - hi <= 67_108_864 * (level - lo) - 2 * (hi - lo)
                * standing.loud < hi - lo
        },
        standing matches Some(standing) ==> {
            let medians = Seq::new(
                5,
                |b: int|
                    percentile_of(Seq::new(features.len(), |k: int| features[k].shares@[b]), 50),
            );
            let over = Seq::new(5, |b: int| above(features[i].shares@[b], medians[b]));
            &&& standing.excess is Some <==> over[0] + over[1] + over[2] + over[3] + over[4]
                >= 2_199_023_255_552
            &&& standing.excess is Some ==> forall|b: int|
                0 <= b < 5 ==> #[trigger] standing.excess->0@[b] == over[b]
        },
{
    let levels = Seq::new(features.len(), |k: int| features[k].rms);
    assert(levels =~= levels_of(features));
    let medians = Seq::new(
        5,
        |b: int| percentile_of(Seq::new(features.len(), |k: int| features[k].shares@[b]), 50),
    );
    let over = Seq::new(5, |b: int| above(features[i].shares@[b], medians[b]));
    assert forall|b: int| 0 <= b < 5 implies #[trigger] over[b] == excess_of(
        features[i].shares@[b],
        typical_share(features, b),
    ) by {
        assert(Seq::new(features.len(), |k: int| features[k].shares@[b]) =~= shares_of(
            features,
            b,
        ));
    }
    reveal_with_fuel(total_excess, 6);
    assert(total_excess(features, i, 5) == over[0] + over[1] + over[2] + over[3] + over[4]);
    assert(features[i].shares@.len() == 5);
    if features[i].shares@[0] <= 131_072 && features[i].shares@[1] <= 131_072
        && features[i].shares@[2] <= 131_072 && features[i].shares@[3] <= 131_072
        && features[i].shares@[4] <= 131_072 {
        assert forall|b: int| 0 <= b < BANDS implies #[trigger] features[i].shares@[b]
            <= EMPTY_SHARE by {
            assert(b == 0 || b == 1 || b == 2 || b == 3 || b == 4);
        }
        assert(silent(features[i]));
    }
    if let Some(standing) = standing {
        let lo = percentile_of(levels, 5);
        let hi = percentile_of(levels, 95);
        let level = 100 * features[i].rms;
        if lo < level < hi {
            let num = 2 * (level - lo) * UNITY + (hi - lo);
            vstd::arithmetic::div_mod::lemma_fundamental_div_mod(num, 2 * (hi - lo));
            vstd::arithmetic::div_mod::lemma_mod_bound(num, 2 * (hi - lo));
            lemma_rounded_share(level - lo, hi - lo, UNITY as int);
        }
    }
}

} // verus!
