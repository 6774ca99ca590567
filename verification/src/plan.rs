//! The light plan: which onsets of a second are shown, and the commands of a whole track.

use crate::analyze::{
    Beat, LightStep, Onset, Second, Tone, BASE_TRANSITION_MS, DECAY_DELAY_MS, DECAY_MARGIN_MS,
    DECAY_TRANSITION_MS, FLASH_TRANSITION_MS, MAX_ONSETS_PER_SEC, SEGMENT_MS, SILENCE_BRI,
    SILENCE_SAT,
};
use crate::order;
use crate::text;
use vstd::prelude::*;
use vstd::string::*;

verus! {

// ---------------------------------------------------------------------------------------------
// The strongest onsets of a second
// ---------------------------------------------------------------------------------------------

/// `ms` lies in second `i` of the track.
pub open spec fn falls_in(ms: u64, i: int) -> bool {
    i * SEGMENT_MS <= ms < (i + 1) * SEGMENT_MS
}

/// The onsets of second `i`, in order.
pub open spec fn onsets_in(onsets: Seq<Onset>, i: int) -> Seq<Onset> {
    onsets.filter(|o: Onset| falls_in(o.ms, i))
}

/// Onset `j` goes before onset `i` when the strongest are picked: it is stronger, or as strong
/// and earlier in the list.
pub open spec fn outranks(onsets: Seq<Onset>, j: int, i: int) -> bool {
    onsets[j].strength > onsets[i].strength || (onsets[j].strength == onsets[i].strength && j < i)
}

/// How many of the first `n` onsets outrank onset `i`.
pub open spec fn rank_among(onsets: Seq<Onset>, i: int, n: int) -> int
    decreases n,
{
    if n <= 0 {
        0
    } else {
        rank_among(onsets, i, n - 1) + if outranks(onsets, n - 1, i) {
            1int
        } else {
            0
        }
    }
}

/// How many onsets outrank onset `i`.
pub open spec fn rank(onsets: Seq<Onset>, i: int) -> int {
    rank_among(onsets, i, onsets.len() as int)
}

/// Those of the first `n` onsets that are among the strongest, in order.
pub open spec fn strongest_among(onsets: Seq<Onset>, n: int) -> Seq<Onset>
    decreases n,
{
    if n <= 0 {
        Seq::empty()
    } else {
        let before = strongest_among(onsets, n - 1);
        if rank(onsets, n - 1) < MAX_ONSETS_PER_SEC {
            before.push(onsets[n - 1])
        } else {
            before
        }
    }
}

/// The strongest onsets, as many as a second may show, in order.
pub open spec fn strongest(onsets: Seq<Onset>) -> Seq<Onset> {
    strongest_among(onsets, onsets.len() as int)
}

proof fn lemma_rank_bounds(onsets: Seq<Onset>, i: int, n: int)
    requires
        0 <= n,
    ensures
        0 <= rank_among(onsets, i, n) <= n,
    decreases n,
{
    if n > 0 {
        lemma_rank_bounds(onsets, i, n - 1);
    }
}

/// An onset that another one outranks has the higher rank.
proof fn lemma_rank_follows_order(onsets: Seq<Onset>, i: int, j: int, n: int)
    requires
        0 <= n <= onsets.len(),
        0 <= j < onsets.len(),
        outranks(onsets, j, i),
    ensures
        rank_among(onsets, j, n) + (if n > j {
            1int
        } else {
            0
        }) <= rank_among(onsets, i, n),
    decreases n,
{
    if n > 0 {
        lemma_rank_follows_order(onsets, i, j, n - 1);
        assert(outranks(onsets, n - 1, j) ==> outranks(onsets, n - 1, i));
    }
}

/// The ranks below `k`.
spec fn ranks_below(k: nat) -> Set<int>
    decreases k,
{
    if k == 0 {
        Set::empty()
    } else {
        ranks_below((k - 1) as nat).insert(k - 1)
    }
}

proof fn lemma_ranks_below(k: nat)
    ensures
        ranks_below(k).finite(),
        ranks_below(k).len() == k,
        forall|r: int| ranks_below(k).contains(r) <==> 0 <= r < k,
    decreases k,
{
    if k > 0 {
        lemma_ranks_below((k - 1) as nat);
    }
}

/// The ranks of the picked ones among the first `n` onsets.
spec fn picked_ranks(onsets: Seq<Onset>, n: int) -> Set<int>
    decreases n,
{
    if n <= 0 {
        Set::empty()
    } else if rank(onsets, n - 1) < MAX_ONSETS_PER_SEC {
        picked_ranks(onsets, n - 1).insert(rank(onsets, n - 1))
    } else {
        picked_ranks(onsets, n - 1)
    }
}

proof fn lemma_picked_ranks(onsets: Seq<Onset>, n: int)
    requires
        0 <= n <= onsets.len(),
    ensures
        picked_ranks(onsets, n).finite(),
        picked_ranks(onsets, n).len() == strongest_among(onsets, n).len(),
        forall|r: int| #[trigger]
            picked_ranks(onsets, n).contains(r) ==> 0 <= r < MAX_ONSETS_PER_SEC && exists|i: int|
                0 <= i < n && r == #[trigger] rank(onsets, i),
    decreases n,
{
    if n > 0 {
        lemma_picked_ranks(onsets, n - 1);
        let i = n - 1;
        lemma_rank_bounds(onsets, i, onsets.len() as int);
        let r = rank(onsets, i);
        if picked_ranks(onsets, n - 1).contains(r) {
            let j = choose|j: int| 0 <= j < n - 1 && r == #[trigger] rank(onsets, j);
            if outranks(onsets, j, i) {
                lemma_rank_follows_order(onsets, i, j, onsets.len() as int);
            } else {
                lemma_rank_follows_order(onsets, j, i, onsets.len() as int);
            }
        }
        assert forall|q: int| #[trigger] picked_ranks(onsets, n).contains(q) implies 0 <= q
            < MAX_ONSETS_PER_SEC && exists|i: int| 0 <= i < n && q == #[trigger] rank(
            onsets,
            i,
        ) by {
            if picked_ranks(onsets, n - 1).contains(q) {
                let k = choose|k: int| 0 <= k < n - 1 && q == #[trigger] rank(onsets, k);
                assert(0 <= k < n && q == rank(onsets, k));
            } else {
                assert(q == rank(onsets, i));
            }
        }
    }
}

/// A second never shows more onsets than allowed, however many it has.
pub proof fn strongest_are_capped(onsets: Seq<Onset>)
    ensures
        strongest(onsets).len() <= MAX_ONSETS_PER_SEC,
{
    let n = onsets.len() as int;
    lemma_picked_ranks(onsets, n);
    lemma_ranks_below(MAX_ONSETS_PER_SEC as nat);
    vstd::set_lib::lemma_len_subset(
        picked_ranks(onsets, n),
        ranks_below(MAX_ONSETS_PER_SEC as nat),
    );
}

proof fn lemma_few_all_picked(onsets: Seq<Onset>, n: int)
    requires
        0 <= n <= onsets.len(),
        onsets.len() <= MAX_ONSETS_PER_SEC,
    ensures
        strongest_among(onsets, n) == onsets.take(n),
    decreases n,
{
    if n > 0 {
        lemma_few_all_picked(onsets, n - 1);
        let i = n - 1;
        let all = onsets.len() as int;
        lemma_rank_bounds(onsets, i, i);
        lemma_rank_skips_self(onsets, i, all);
        assert(onsets.take(n) =~= onsets.take(n - 1).push(onsets[n - 1]));
    } else {
        assert(onsets.take(0) =~= Seq::<Onset>::empty());
    }
}

/// No onset outranks itself.
proof fn lemma_rank_skips_self(onsets: Seq<Onset>, i: int, n: int)
    requires
        0 <= i < n,
    ensures
        rank_among(onsets, i, n) <= n - 1,
    decreases n,
{
    if n - 1 > i {
        lemma_rank_skips_self(onsets, i, n - 1);
    } else {
        lemma_rank_bounds(onsets, i, n - 1);
    }
}

/// A second with no more onsets than allowed shows all of them.
pub proof fn few_onsets_are_all_shown(onsets: Seq<Onset>)
    requires
        onsets.len() <= MAX_ONSETS_PER_SEC,
    ensures
        strongest(onsets) == onsets,
{
    lemma_few_all_picked(onsets, onsets.len() as int);
    assert(onsets.take(onsets.len() as int) =~= onsets);
}

/// An onset that is not shown is no stronger than any that is.
pub proof fn shown_onsets_are_the_strongest(onsets: Seq<Onset>, shown: int, left_out: int)
    requires
        0 <= shown < onsets.len(),
        0 <= left_out < onsets.len(),
        rank(onsets, shown) < MAX_ONSETS_PER_SEC,
        rank(onsets, left_out) >= MAX_ONSETS_PER_SEC,
    ensures
        onsets[left_out].strength <= onsets[shown].strength,
{
    if onsets[left_out].strength > onsets[shown].strength {
        lemma_rank_follows_order(onsets, shown, left_out, onsets.len() as int);
    }
}

/// The ranks of the first `n` onsets.
spec fn ranks_of(onsets: Seq<Onset>, n: int) -> Set<int>
    decreases n,
{
    if n <= 0 {
        Set::empty()
    } else {
        ranks_of(onsets, n - 1).insert(rank(onsets, n - 1))
    }
}

proof fn lemma_ranks_of(onsets: Seq<Onset>, n: int)
    requires
        0 <= n <= onsets.len(),
    ensures
        ranks_of(onsets, n).finite(),
        ranks_of(onsets, n).len() == n,
        forall|r: int| #[trigger]
            ranks_of(onsets, n).contains(r) ==> 0 <= r < onsets.len() && exists|i: int|
                0 <= i < n && r == #[trigger] rank(onsets, i),
    decreases n,
{
    if n > 0 {
        lemma_ranks_of(onsets, n - 1);
        let i = n - 1;
        lemma_rank_bounds(onsets, i, onsets.len() as int);
        lemma_rank_skips_self(onsets, i, onsets.len() as int);
        let r = rank(onsets, i);
        if ranks_of(onsets, n - 1).contains(r) {
            let j = choose|j: int| 0 <= j < n - 1 && r == #[trigger] rank(onsets, j);
            if outranks(onsets, j, i) {
                lemma_rank_follows_order(onsets, i, j, onsets.len() as int);
            } else {
                lemma_rank_follows_order(onsets, j, i, onsets.len() as int);
            }
        }
        assert forall|q: int| #[trigger] ranks_of(onsets, n).contains(q) implies 0 <= q
            < onsets.len() && exists|i: int| 0 <= i < n && q == #[trigger] rank(onsets, i) by {
            if ranks_of(onsets, n - 1).contains(q) {
                let k = choose|k: int| 0 <= k < n - 1 && q == #[trigger] rank(onsets, k);
                assert(0 <= k < n && q == rank(onsets, k));
            } else {
                assert(q == rank(onsets, i));
            }
        }
    }
}

/// Every rank is taken.
proof fn lemma_rank_is_taken(onsets: Seq<Onset>, r: int) -> (i: int)
    requires
        0 <= r < onsets.len(),
    ensures
        0 <= i < onsets.len(),
        rank(onsets, i) == r,
{
    let n = onsets.len();
    lemma_ranks_of(onsets, n as int);
    lemma_ranks_below(n);
    vstd::set_lib::lemma_subset_equality(ranks_of(onsets, n as int), ranks_below(n));
    assert(ranks_of(onsets, n as int).contains(r));
    choose|i: int| 0 <= i < n && r == #[trigger] rank(onsets, i)
}

/// The places of the strongest among the first `n` onsets.
spec fn picked_places(onsets: Seq<Onset>, n: int) -> Seq<int>
    decreases n,
{
    if n <= 0 {
        Seq::empty()
    } else if rank(onsets, n - 1) < MAX_ONSETS_PER_SEC {
        picked_places(onsets, n - 1).push(n - 1)
    } else {
        picked_places(onsets, n - 1)
    }
}

proof fn lemma_picked_places(onsets: Seq<Onset>, n: int)
    requires
        0 <= n <= onsets.len(),
    ensures
        picked_places(onsets, n).len() == strongest_among(onsets, n).len(),
        forall|j: int|
            0 <= j < picked_places(onsets, n).len() ==> {
                let at = #[trigger] picked_places(onsets, n)[j];
                &&& 0 <= at < n
                &&& rank(onsets, at) < MAX_ONSETS_PER_SEC
                &&& strongest_among(onsets, n)[j] == onsets[at]
            },
        forall|j: int, k: int|
            0 <= j < k < picked_places(onsets, n).len() ==> #[trigger] picked_places(onsets, n)[j]
                < #[trigger] picked_places(onsets, n)[k],
        forall|i: int|
            0 <= i < n && rank(onsets, i) < MAX_ONSETS_PER_SEC ==> #[trigger] picked_places(
                onsets,
                n,
            ).contains(i),
    decreases n,
{
    if n > 0 {
        lemma_picked_places(onsets, n - 1);
        let before = picked_places(onsets, n - 1);
        let places = picked_places(onsets, n);
        assert forall|i: int|
            0 <= i < n && rank(onsets, i) < MAX_ONSETS_PER_SEC implies #[trigger] places.contains(
            i,
        ) by {
            if i < n - 1 {
                assert(before.contains(i));
                let j = choose|j: int| 0 <= j < before.len() && before[j] == i;
                assert(places[j] == i);
            } else {
                assert(places[before.len() as int] == i);
            }
        }
    }
}

/// Of the onsets of a second, three are shown, or all where there are no more: in order, and
/// every one left out is weaker than each of those shown, or as strong and later.
pub proof fn the_three_strongest_are_shown(onsets: Seq<Onset>) -> (places: Seq<int>)
    ensures
        strongest(onsets).len() == if onsets.len() < 3 {
            onsets.len()
        } else {
            3
        },
        places.len() == strongest(onsets).len(),
        forall|j: int|
            0 <= j < places.len() ==> 0 <= #[trigger] places[j] < onsets.len()
                && strongest(onsets)[j] == onsets[places[j]],
        forall|j: int, k: int|
            0 <= j < k < places.len() ==> #[trigger] places[j] < #[trigger] places[k],
        forall|j: int, q: int|
            0 <= j < places.len() && 0 <= q < onsets.len() && !places.contains(q) ==> {
                ||| (#[trigger] onsets[q]).strength < onsets[#[trigger] places[j]].strength
                ||| onsets[q].strength == onsets[places[j]].strength && q > places[j]
            },
{
    let n = onsets.len() as int;
    let places = picked_places(onsets, n);
    lemma_picked_places(onsets, n);
    strongest_are_capped(onsets);
    if n <= 3 {
        few_onsets_are_all_shown(onsets);
    } else {
        let a = lemma_rank_is_taken(onsets, 0);
        let b = lemma_rank_is_taken(onsets, 1);
        let c = lemma_rank_is_taken(onsets, 2);
        assert(places.contains(a) && places.contains(b) && places.contains(c));
        let i = choose|i: int| 0 <= i < places.len() && places[i] == a;
        let j = choose|j: int| 0 <= j < places.len() && places[j] == b;
        let k = choose|k: int| 0 <= k < places.len() && places[k] == c;
        assert(i != j && j != k && i != k);
    }
    assert forall|j: int, q: int|
        0 <= j < places.len() && 0 <= q < onsets.len() && !places.contains(q) implies {
        ||| (#[trigger] onsets[q]).strength < onsets[#[trigger] places[j]].strength
        ||| onsets[q].strength == onsets[places[j]].strength && q > places[j]
    } by {
        if outranks(onsets, q, places[j]) {
            lemma_rank_follows_order(onsets, places[j], q, n);
        }
        if q == places[j] {
            assert(places.contains(q));
        }
    }
    places
}

/// The onsets of a second are those from its start to just before the next second, in the order
/// in which they come.
pub proof fn the_onsets_of_a_second_lie_in_it(onsets: Seq<Onset>, more: Onset, i: int)
    ensures
        onsets_in(Seq::empty(), i).len() == 0,
        onsets_in(onsets.push(more), i) == if 1000 * i <= more.ms < 1000 * i + 1000 {
            onsets_in(onsets, i).push(more)
        } else {
            onsets_in(onsets, i)
        },
{
    reveal(Seq::filter);
    let all = onsets.push(more);
    assert(all.drop_last() =~= onsets);
}

/// Picks the strongest of `onsets`, as many as a second may show, in order.
pub fn pick_strongest(onsets: &Vec<Onset>) -> (picked: Vec<Onset>)
    ensures
        picked@ == strongest(onsets@),
        picked@.len() <= MAX_ONSETS_PER_SEC,
{
    let n: usize = onsets.len();
    let mut picked: Vec<Onset> = Vec::new();
    let mut i: usize = 0;
    while i < n
        invariant
            n == onsets@.len(),
            i <= n,
            picked@ == strongest_among(onsets@, i as int),
        decreases n - i,
    {
        let mut above: usize = 0;
        let mut j: usize = 0;
        while j < n
            invariant
                n == onsets@.len(),
                i < n,
                j <= n,
                above <= j,
                above == rank_among(onsets@, i as int, j as int),
            decreases n - j,
        {
            if onsets[j].strength > onsets[i].strength || (onsets[j].strength
                == onsets[i].strength && j < i) {
                above = above + 1;
            }
            j = j + 1;
        }
        if above < MAX_ONSETS_PER_SEC {
            picked.push(onsets[i]);
        }
        i = i + 1;
    }
    proof {
        strongest_are_capped(onsets@);
    }
    picked
}

/// The onsets of second `second`, in order.
pub fn onsets_of_second(onsets: &Vec<Onset>, second: u64) -> (found: Vec<Onset>)
    requires
        (second + 1) * SEGMENT_MS <= u64::MAX,
    ensures
        found@ == onsets_in(onsets@, second as int),
{
    let from: u64 = second * SEGMENT_MS;
    let to: u64 = from + SEGMENT_MS;
    let ghost pred = |o: Onset| falls_in(o.ms, second as int);
    let n: usize = onsets.len();
    let mut found: Vec<Onset> = Vec::new();
    let mut k: usize = 0;
    assert(onsets@.take(0) =~= Seq::<Onset>::empty());
    proof {
        order::lemma_filter_none(onsets@.take(0), pred);
    }
    while k < n
        invariant
            n == onsets@.len(),
            k <= n,
            from == second * SEGMENT_MS,
            to == (second + 1) * SEGMENT_MS,
            pred == (|o: Onset| falls_in(o.ms, second as int)),
            found@ == onsets@.take(k as int).filter(pred),
        decreases n - k,
    {
        let o = onsets[k];
        proof {
            assert(onsets@.take(k as int + 1) =~= onsets@.take(k as int).push(o));
            onsets@.take(k as int).lemma_filter_push(o, pred);
        }
        if from <= o.ms && o.ms < to {
            found.push(o);
        }
        k = k + 1;
    }
    assert(onsets@.take(n as int) =~= onsets@);
    found
}

// ---------------------------------------------------------------------------------------------
// The commands of a track
// ---------------------------------------------------------------------------------------------

/// Every beat lies in the second that holds it.
pub open spec fn beats_in_place(seconds: Seq<Second>) -> bool {
    forall|i: int, j: int|
        0 <= i < seconds.len() && 0 <= j < seconds[i].beats@.len() ==> falls_in(
            (#[trigger] seconds[i].beats@[j]).ms,
            i,
        )
}

/// The tone of the last of the first `n` seconds that has one.
pub open spec fn last_tone(seconds: Seq<Second>, n: int) -> Option<Tone>
    decreases n,
{
    if n <= 0 {
        None
    } else if seconds[n - 1].tone is Some {
        seconds[n - 1].tone
    } else {
        last_tone(seconds, n - 1)
    }
}

/// The base command of second `i`. Silence keeps the color of the last tone, and dims.
pub open spec fn base_step(seconds: Seq<Second>, i: int) -> LightStep {
    let start_ms = (i * SEGMENT_MS) as u64;
    match seconds[i].tone {
        Some(tone) => LightStep {
            start_ms,
            hue: tone.hue,
            sat: tone.sat,
            bri: tone.bri,
            transition_ms: BASE_TRANSITION_MS,
        },
        None => LightStep {
            start_ms,
            hue: match last_tone(seconds, i) {
                Some(tone) => tone.hue,
                None => 0,
            },
            sat: match last_tone(seconds, i) {
                Some(tone) => tone.sat,
                None => SILENCE_SAT,
            },
            bri: SILENCE_BRI,
            transition_ms: BASE_TRANSITION_MS,
        },
    }
}

/// The flash of a beat.
pub open spec fn flash_step(tone: Tone, beat: Beat) -> LightStep {
    LightStep {
        start_ms: beat.ms,
        hue: tone.hue,
        sat: tone.sat,
        bri: beat.bri,
        transition_ms: FLASH_TRANSITION_MS,
    }
}

/// The decay of a beat, back to the base.
pub open spec fn decay_step(tone: Tone, beat: Beat) -> LightStep {
    LightStep {
        start_ms: (beat.ms + DECAY_DELAY_MS) as u64,
        hue: tone.hue,
        sat: tone.sat,
        bri: tone.bri,
        transition_ms: DECAY_TRANSITION_MS,
    }
}

/// There is room for the decay of `beat` before second `i` ends.
pub open spec fn decay_fits(beat: Beat, i: int) -> bool {
    beat.ms - i * SEGMENT_MS + DECAY_DELAY_MS + DECAY_MARGIN_MS < SEGMENT_MS
}

/// The flashes and decays of the first `n` beats of second `i`.
pub open spec fn beat_steps(tone: Tone, beats: Seq<Beat>, i: int, n: int) -> Seq<LightStep>
    decreases n,
{
    if n <= 0 {
        Seq::empty()
    } else {
        let flashed = beat_steps(tone, beats, i, n - 1).push(flash_step(tone, beats[n - 1]));
        if decay_fits(beats[n - 1], i) {
            flashed.push(decay_step(tone, beats[n - 1]))
        } else {
            flashed
        }
    }
}

/// The commands of second `i`: its base, and the flashes on top of it.
pub open spec fn second_steps(seconds: Seq<Second>, i: int) -> Seq<LightStep> {
    seq![base_step(seconds, i)] + match seconds[i].tone {
        Some(tone) => beat_steps(tone, seconds[i].beats@, i, seconds[i].beats@.len() as int),
        None => Seq::empty(),
    }
}

/// The commands of the first `n` seconds, second by second.
pub open spec fn listing(seconds: Seq<Second>, n: int) -> Seq<LightStep>
    decreases n,
{
    if n <= 0 {
        Seq::empty()
    } else {
        listing(seconds, n - 1) + second_steps(seconds, n - 1)
    }
}

/// Commands in the order in which they start.
pub open spec fn by_start() -> spec_fn(LightStep, LightStep) -> bool {
    |a: LightStep, b: LightStep| a.start_ms <= b.start_ms
}

/// `steps` is the light plan of a track: the commands of all its seconds in the order in which
/// they start, those that start together in the order in which they were listed.
pub open spec fn is_plan(seconds: Seq<Second>, steps: Seq<LightStep>) -> bool {
    order::stable_sort_of(listing(seconds, seconds.len() as int), steps, by_start())
}

/// The commands that start in second `i`.
pub open spec fn commands_in(steps: Seq<LightStep>, i: int) -> Seq<LightStep> {
    steps.filter(|s: LightStep| falls_in(s.start_ms, i))
}

/// Appends the flash of `beat`, and its decay if there is room for it in second `second`.
fn push_beat(steps: &mut Vec<LightStep>, tone: Tone, beat: Beat, second: u64)
    requires
        (second + 1) * SEGMENT_MS <= u64::MAX,
        falls_in(beat.ms, second as int),
    ensures
        final(steps)@ == {
            let flashed = old(steps)@.push(flash_step(tone, beat));
            if decay_fits(beat, second as int) {
                flashed.push(decay_step(tone, beat))
            } else {
                flashed
            }
        },
{
    steps.push(
        LightStep {
            start_ms: beat.ms,
            hue: tone.hue,
            sat: tone.sat,
            bri: beat.bri,
            transition_ms: FLASH_TRANSITION_MS,
        },
    );
    let offset_ms: u64 = beat.ms - second * SEGMENT_MS;
    let decay_start: u64 = offset_ms + DECAY_DELAY_MS;
    if decay_start + DECAY_MARGIN_MS < SEGMENT_MS {
        steps.push(
            LightStep {
                start_ms: second * SEGMENT_MS + decay_start,
                hue: tone.hue,
                sat: tone.sat,
                bri: tone.bri,
                transition_ms: DECAY_TRANSITION_MS,
            },
        );
    }
}

/// Builds the light plan of a track from what was heard in each of its seconds.
pub fn plan(seconds: &Vec<Second>) -> (steps: Vec<LightStep>)
    requires
        seconds@.len() * SEGMENT_MS <= u64::MAX,
        beats_in_place(seconds@),
    ensures
        is_plan(seconds@, steps@),
{
    let n: usize = seconds.len();
    let mut steps: Vec<LightStep> = Vec::new();
    let mut last: Option<Tone> = None;
    let mut i: usize = 0;
    while i < n
        invariant
            n == seconds@.len(),
            n * SEGMENT_MS <= u64::MAX,
            beats_in_place(seconds@),
            i <= n,
            last == last_tone(seconds@, i as int),
            steps@ == listing(seconds@, i as int),
        decreases n - i,
    {
        let second: u64 = i as u64;
        let ghost before = steps@;
        match seconds[i].tone {
            None => {
                let (hue, sat): (u16, u8) = match last {
                    Some(tone) => (tone.hue, tone.sat),
                    None => (0, SILENCE_SAT),
                };
                steps.push(
                    LightStep {
                        start_ms: second * SEGMENT_MS,
                        hue,
                        sat,
                        bri: SILENCE_BRI,
                        transition_ms: BASE_TRANSITION_MS,
                    },
                );
                assert(steps@ =~= before + second_steps(seconds@, i as int));
            },
            Some(tone) => {
                steps.push(
                    LightStep {
                        start_ms: second * SEGMENT_MS,
                        hue: tone.hue,
                        sat: tone.sat,
                        bri: tone.bri,
                        transition_ms: BASE_TRANSITION_MS,
                    },
                );
                let ghost base = seq![base_step(seconds@, i as int)];
                let beats: &Vec<Beat> = &seconds[i].beats;
                let m: usize = beats.len();
                let mut j: usize = 0;
                assert(steps@ =~= before + (base + beat_steps(tone, beats@, i as int, 0)));
                while j < m
                    invariant
                        i < n == seconds@.len(),
                        n * SEGMENT_MS <= u64::MAX,
                        beats_in_place(seconds@),
                        second == i,
                        beats@ == seconds@[i as int].beats@,
                        m == beats@.len(),
                        j <= m,
                        steps@ == before + (base + beat_steps(tone, beats@, i as int, j as int)),
                    decreases m - j,
                {
                    let beat = beats[j];
                    assert(falls_in(seconds@[i as int].beats@[j as int].ms, i as int));
                    push_beat(&mut steps, tone, beat, second);
                    j = j + 1;
                    assert(steps@ =~= before + (base + beat_steps(
                        tone,
                        beats@,
                        i as int,
                        j as int,
                    )));
                }
                last = Some(tone);
            },
        }
        i = i + 1;
    }
    let ghost rel = by_start();
    let starts_first = |a: &LightStep, b: &LightStep| -> (r: bool)
        ensures
            r == (a.start_ms <= b.start_ms),
        { a.start_ms <= b.start_ms };
    order::stable_sort(steps, starts_first, Ghost(rel))
}

// ---------------------------------------------------------------------------------------------
// What holds of every plan
// ---------------------------------------------------------------------------------------------

/// A track whose commands can all be timed.
pub open spec fn timeable(seconds: Seq<Second>) -> bool {
    seconds.len() * SEGMENT_MS <= u64::MAX && beats_in_place(seconds)
}

proof fn lemma_beat_steps(tone: Tone, beats: Seq<Beat>, i: int, n: int)
    requires
        0 <= i,
        (i + 1) * SEGMENT_MS <= u64::MAX,
        0 <= n <= beats.len(),
        forall|j: int| 0 <= j < beats.len() ==> falls_in((#[trigger] beats[j]).ms, i),
    ensures
        n <= beat_steps(tone, beats, i, n).len() <= 2 * n,
        forall|k: int|
            0 <= k < beat_steps(tone, beats, i, n).len() ==> {
                let step = #[trigger] beat_steps(tone, beats, i, n)[k];
                &&& falls_in(step.start_ms, i)
                &&& step.hue == tone.hue
                &&& step.sat == tone.sat
                &&& step.transition_ms == FLASH_TRANSITION_MS || (step.transition_ms
                    == DECAY_TRANSITION_MS && step.bri == tone.bri)
            },
    decreases n,
{
    if n > 0 {
        lemma_beat_steps(tone, beats, i, n - 1);
        assert(falls_in(beats[n - 1].ms, i));
    }
}

/// The commands of a second start in it; its base comes first.
proof fn lemma_second_steps(seconds: Seq<Second>, i: int)
    requires
        timeable(seconds),
        0 <= i < seconds.len(),
    ensures
        1 <= second_steps(seconds, i).len() <= 1 + 2 * seconds[i].beats@.len(),
        second_steps(seconds, i)[0] == base_step(seconds, i),
        forall|k: int|
            0 <= k < second_steps(seconds, i).len() ==> {
                let step = #[trigger] second_steps(seconds, i)[k];
                &&& falls_in(step.start_ms, i)
                &&& step.hue == base_step(seconds, i).hue
                &&& step.sat == base_step(seconds, i).sat
                &&& k > 0 ==> step.transition_ms != BASE_TRANSITION_MS
            },
{
    let s = second_steps(seconds, i);
    match seconds[i].tone {
        Some(tone) => {
            let beats = seconds[i].beats@;
            assert forall|j: int| 0 <= j < beats.len() implies falls_in(
                (#[trigger] beats[j]).ms,
                i,
            ) by {
                assert(falls_in(seconds[i].beats@[j].ms, i));
            }
            lemma_beat_steps(tone, beats, i, beats.len() as int);
            let rest = beat_steps(tone, beats, i, beats.len() as int);
            assert forall|k: int| 0 <= k < s.len() implies {
                let step = #[trigger] s[k];
                &&& falls_in(step.start_ms, i)
                &&& step.hue == base_step(seconds, i).hue
                &&& step.sat == base_step(seconds, i).sat
                &&& k > 0 ==> step.transition_ms != BASE_TRANSITION_MS
            } by {
                if k > 0 {
                    assert(s[k] == rest[k - 1]);
                }
            }
        },
        None => {},
    }
}

/// Of the first `n` seconds, exactly second `i` has commands that start in second `i`.
proof fn lemma_listing_of_second(seconds: Seq<Second>, n: int, i: int)
    requires
        timeable(seconds),
        0 <= n <= seconds.len(),
        0 <= i < seconds.len(),
    ensures
        commands_in(listing(seconds, n), i) == if i < n {
            second_steps(seconds, i)
        } else {
            Seq::<LightStep>::empty()
        },
    decreases n,
{
    let pred = |s: LightStep| falls_in(s.start_ms, i);
    if n > 0 {
        lemma_listing_of_second(seconds, n - 1, i);
        lemma_second_steps(seconds, n - 1);
        let here = second_steps(seconds, n - 1);
        Seq::filter_distributes_over_add(listing(seconds, n - 1), here, pred);
        if n - 1 == i {
            order::lemma_filter_all(here, pred);
            assert(Seq::<LightStep>::empty() + here =~= here);
        } else {
            assert forall|k: int| 0 <= k < here.len() implies !pred(#[trigger] here[k]) by {
                assert(falls_in(here[k].start_ms, n - 1));
            }
            order::lemma_filter_none(here, pred);
            assert(listing(seconds, n - 1).filter(pred) + Seq::<LightStep>::empty()
                =~= listing(seconds, n - 1).filter(pred));
        }
    } else {
        order::lemma_filter_none(Seq::<LightStep>::empty(), pred);
    }
}

/// The command rate is capped: a second holds its base command and, for each of its beats, a
/// flash and perhaps a decay; at least one command in any case.
pub proof fn command_rate_is_capped(seconds: Seq<Second>, steps: Seq<LightStep>, i: int)
    requires
        timeable(seconds),
        is_plan(seconds, steps),
        0 <= i < seconds.len(),
    ensures
        1 <= commands_in(steps, i).len() <= 1 + 2 * seconds[i].beats@.len(),
{
    let n = seconds.len() as int;
    lemma_listing_of_second(seconds, n, i);
    lemma_second_steps(seconds, i);
    order::lemma_same_items_same_count(
        steps,
        listing(seconds, n),
        |s: LightStep| falls_in(s.start_ms, i),
    );
}

/// Commands are sent in the order in which they start.
pub proof fn plans_run_forward(seconds: Seq<Second>, steps: Seq<LightStep>, i: int, j: int)
    requires
        is_plan(seconds, steps),
        0 <= i <= j < steps.len(),
    ensures
        steps[i].start_ms <= steps[j].start_ms,
{
    if i < j {
        assert(by_start()(steps[i], steps[j]));
    }
}

proof fn lemma_listing_member(seconds: Seq<Second>, n: int, k: int)
    requires
        0 <= n <= seconds.len(),
        0 <= k < listing(seconds, n).len(),
    ensures
        exists|i: int, q: int|
            0 <= i < n && 0 <= q < second_steps(seconds, i).len() && listing(seconds, n)[k]
                == #[trigger] second_steps(seconds, i)[q],
    decreases n,
{
    if n > 0 {
        let before = listing(seconds, n - 1);
        if k < before.len() {
            lemma_listing_member(seconds, n - 1, k);
            let (i, q) = choose|i: int, q: int|
                0 <= i < n - 1 && 0 <= q < second_steps(seconds, i).len() && before[k]
                    == #[trigger] second_steps(seconds, i)[q];
            assert(listing(seconds, n)[k] == second_steps(seconds, i)[q]);
        } else {
            assert(listing(seconds, n)[k] == second_steps(seconds, n - 1)[k - before.len()]);
        }
    }
}

/// Every command of a plan is one of the commands of some second: which second, and which of
/// its commands.
proof fn lemma_plan_member(seconds: Seq<Second>, steps: Seq<LightStep>, k: int) -> (place: (
    int,
    int,
))
    requires
        is_plan(seconds, steps),
        0 <= k < steps.len(),
    ensures
        0 <= place.0 < seconds.len(),
        0 <= place.1 < second_steps(seconds, place.0).len(),
        steps[k] == second_steps(seconds, place.0)[place.1],
{
    broadcast use vstd::seq_lib::group_to_multiset_ensures;
    let n = seconds.len() as int;
    let listed = listing(seconds, n);
    assert(steps.contains(steps[k]));
    steps.to_multiset_ensures();
    listed.to_multiset_ensures();
    assert(listed.to_multiset().contains(steps[k]));
    let m = choose|m: int| 0 <= m < listed.len() && listed[m] == steps[k];
    lemma_listing_member(seconds, n, m);
    choose|i: int, q: int|
        0 <= i < n && 0 <= q < second_steps(seconds, i).len() && listed[m]
            == #[trigger] second_steps(seconds, i)[q]
}

/// Every command of a plan belongs to one second of the track: it starts in it, and shows its
/// color.
pub proof fn commands_show_their_second(seconds: Seq<Second>, steps: Seq<LightStep>, k: int)
    requires
        timeable(seconds),
        is_plan(seconds, steps),
        0 <= k < steps.len(),
    ensures
        exists|i: int|
            0 <= i < seconds.len() && #[trigger] falls_in(steps[k].start_ms, i) && steps[k].hue
                == base_step(seconds, i).hue && steps[k].sat == base_step(seconds, i).sat,
{
    let (i, q) = lemma_plan_member(seconds, steps, k);
    lemma_second_steps(seconds, i);
    assert(falls_in(steps[k].start_ms, i));
}

/// A track in which nothing flashes has exactly its base commands, one a second.
pub proof fn steady_tracks_do_not_flash(seconds: Seq<Second>, steps: Seq<LightStep>)
    requires
        timeable(seconds),
        is_plan(seconds, steps),
        forall|i: int| 0 <= i < seconds.len() ==> (#[trigger] seconds[i]).beats@.len() == 0,
    ensures
        steps == Seq::new(seconds.len(), |i: int| base_step(seconds, i)),
{
    let n = seconds.len() as int;
    let bases = Seq::new(seconds.len(), |i: int| base_step(seconds, i));
    lemma_listing_without_beats(seconds, n);
    assert(bases.take(n) =~= bases);
    assert(listing(seconds, n) == bases);
    order::ordered_input_is_unchanged(bases, steps, by_start());
}

proof fn lemma_listing_without_beats(seconds: Seq<Second>, n: int)
    requires
        0 <= n <= seconds.len(),
        forall|i: int| 0 <= i < seconds.len() ==> (#[trigger] seconds[i]).beats@.len() == 0,
    ensures
        listing(seconds, n) == Seq::new(seconds.len(), |i: int| base_step(seconds, i)).take(n),
    decreases n,
{
    let bases = Seq::new(seconds.len(), |i: int| base_step(seconds, i));
    if n > 0 {
        lemma_listing_without_beats(seconds, n - 1);
        assert(seconds[n - 1].beats@.len() == 0);
        assert(second_steps(seconds, n - 1) =~= seq![base_step(seconds, n - 1)]);
        assert(bases.take(n) =~= bases.take(n - 1) + seq![bases[n - 1]]);
    } else {
        assert(bases.take(0) =~= Seq::<LightStep>::empty());
    }
}

/// A color and a brightness that a bulb takes.
pub open spec fn in_light_range(hue: u16, sat: u8, bri: u8) -> bool {
    hue <= 360 && sat <= 100 && bri <= 100
}

/// Every reading of the track is in the range a bulb takes.
pub open spec fn readings_in_range(seconds: Seq<Second>) -> bool {
    &&& forall|i: int|
        0 <= i < seconds.len() && (#[trigger] seconds[i]).tone is Some ==> {
            let tone = seconds[i].tone->0;
            in_light_range(tone.hue, tone.sat, tone.bri)
        }
    &&& forall|i: int, j: int|
        0 <= i < seconds.len() && 0 <= j < seconds[i].beats@.len() ==> (
        #[trigger] seconds[i].beats@[j]).bri <= 100
}

proof fn lemma_last_tone_in_range(seconds: Seq<Second>, n: int)
    requires
        readings_in_range(seconds),
        0 <= n <= seconds.len(),
    ensures
        last_tone(seconds, n) is Some ==> in_light_range(
            last_tone(seconds, n)->0.hue,
            last_tone(seconds, n)->0.sat,
            last_tone(seconds, n)->0.bri,
        ),
    decreases n,
{
    if n > 0 {
        assert(seconds[n - 1].tone is Some ==> in_light_range(
            seconds[n - 1].tone->0.hue,
            seconds[n - 1].tone->0.sat,
            seconds[n - 1].tone->0.bri,
        ));
        lemma_last_tone_in_range(seconds, n - 1);
    }
}

proof fn lemma_beat_steps_in_range(tone: Tone, beats: Seq<Beat>, i: int, n: int)
    requires
        in_light_range(tone.hue, tone.sat, tone.bri),
        forall|j: int| 0 <= j < beats.len() ==> (#[trigger] beats[j]).bri <= 100,
        0 <= n <= beats.len(),
    ensures
        forall|k: int|
            0 <= k < beat_steps(tone, beats, i, n).len() ==> {
                let step = #[trigger] beat_steps(tone, beats, i, n)[k];
                in_light_range(step.hue, step.sat, step.bri)
            },
    decreases n,
{
    if n > 0 {
        lemma_beat_steps_in_range(tone, beats, i, n - 1);
        assert(beats[n - 1].bri <= 100);
        let before = beat_steps(tone, beats, i, n - 1);
        let steps = beat_steps(tone, beats, i, n);
        assert forall|k: int| 0 <= k < steps.len() implies {
            let step = #[trigger] steps[k];
            in_light_range(step.hue, step.sat, step.bri)
        } by {
            if k < before.len() {
                assert(steps[k] == before[k]);
            }
        }
    }
}

/// A plan only sends colors and brightness that a bulb takes, if every reading is in range.
pub proof fn commands_stay_in_range(seconds: Seq<Second>, steps: Seq<LightStep>, k: int)
    requires
        timeable(seconds),
        is_plan(seconds, steps),
        readings_in_range(seconds),
        0 <= k < steps.len(),
    ensures
        in_light_range(steps[k].hue, steps[k].sat, steps[k].bri),
{
    let (i, q) = lemma_plan_member(seconds, steps, k);
    lemma_last_tone_in_range(seconds, i);
    match seconds[i].tone {
        Some(tone) => {
            assert(in_light_range(tone.hue, tone.sat, tone.bri));
            let beats = seconds[i].beats@;
            assert forall|j: int| 0 <= j < beats.len() implies (#[trigger] beats[j]).bri
                <= 100 by {
                assert(seconds[i].beats@[j].bri <= 100);
            }
            lemma_beat_steps_in_range(tone, beats, i, beats.len() as int);
            if q > 0 {
                assert(second_steps(seconds, i)[q] == beat_steps(
                    tone,
                    beats,
                    i,
                    beats.len() as int,
                )[q - 1]);
            }
        },
        None => {},
    }
}

// ---------------------------------------------------------------------------------------------
// What a plan shows, second by second
// ---------------------------------------------------------------------------------------------

proof fn lemma_listing_contains(seconds: Seq<Second>, n: int, i: int, q: int)
    requires
        0 <= i < n <= seconds.len(),
        0 <= q < second_steps(seconds, i).len(),
    ensures
        listing(seconds, n).contains(second_steps(seconds, i)[q]),
    decreases n,
{
    let before = listing(seconds, n - 1);
    let all = listing(seconds, n);
    if i == n - 1 {
        assert(all[before.len() + q] == second_steps(seconds, i)[q]);
    } else {
        lemma_listing_contains(seconds, n - 1, i, q);
        let k = choose|k: int|
            0 <= k < before.len() && before[k] == second_steps(seconds, i)[q];
        assert(all[k] == before[k]);
    }
}

/// Every command of a second is in the plan.
proof fn lemma_plan_contains(seconds: Seq<Second>, steps: Seq<LightStep>, i: int, q: int)
    requires
        is_plan(seconds, steps),
        0 <= i < seconds.len(),
        0 <= q < second_steps(seconds, i).len(),
    ensures
        steps.contains(second_steps(seconds, i)[q]),
{
    let n = seconds.len() as int;
    let step = second_steps(seconds, i)[q];
    lemma_listing_contains(seconds, n, i, q);
    listing(seconds, n).to_multiset_ensures();
    steps.to_multiset_ensures();
    assert(listing(seconds, n).to_multiset().count(step) > 0);
    assert(steps.to_multiset().count(step) > 0);
}

proof fn lemma_beat_steps_contain(tone: Tone, beats: Seq<Beat>, i: int, n: int, j: int)
    requires
        0 <= j < n <= beats.len(),
    ensures
        beat_steps(tone, beats, i, n).contains(flash_step(tone, beats[j])),
        decay_fits(beats[j], i) ==> beat_steps(tone, beats, i, n).contains(
            decay_step(tone, beats[j]),
        ),
    decreases n,
{
    let before = beat_steps(tone, beats, i, n - 1);
    let all = beat_steps(tone, beats, i, n);
    if j == n - 1 {
        assert(all[before.len() as int] == flash_step(tone, beats[j]));
        if decay_fits(beats[j], i) {
            assert(all[before.len() as int + 1] == decay_step(tone, beats[j]));
        }
    } else {
        lemma_beat_steps_contain(tone, beats, i, n - 1, j);
        assert forall|s: LightStep| before.contains(s) implies all.contains(s) by {
            let k = choose|k: int| 0 <= k < before.len() && before[k] == s;
            assert(all[k] == before[k]);
        }
    }
}

proof fn lemma_beat_steps_come_from(
    tone: Tone,
    beats: Seq<Beat>,
    i: int,
    n: int,
    k: int,
) -> (j: int)
    requires
        0 <= n <= beats.len(),
        0 <= k < beat_steps(tone, beats, i, n).len(),
    ensures
        0 <= j < n,
        beat_steps(tone, beats, i, n)[k] == flash_step(tone, beats[j]) || (decay_fits(beats[j], i)
            && beat_steps(tone, beats, i, n)[k] == decay_step(tone, beats[j])),
    decreases n,
{
    let before = beat_steps(tone, beats, i, n - 1);
    let all = beat_steps(tone, beats, i, n);
    if k < before.len() {
        assert(all[k] == before[k]);
        lemma_beat_steps_come_from(tone, beats, i, n - 1, k)
    } else {
        n - 1
    }
}

/// Every beat flashes when it is heard, and falls back to the brightness of its second: by a
/// decay 230 ms later, if it comes less than 690 ms into its second, whichever second that is.
pub proof fn every_beat_flashes_and_decays(
    seconds: Seq<Second>,
    steps: Seq<LightStep>,
    i: int,
    j: int,
)
    requires
        timeable(seconds),
        is_plan(seconds, steps),
        0 <= i < seconds.len(),
        seconds[i].tone is Some,
        0 <= j < seconds[i].beats@.len(),
    ensures
        ({
            let tone = seconds[i].tone->0;
            let beat = seconds[i].beats@[j];
            &&& exists|k: int|
                {
                    &&& 0 <= k < steps.len()
                    &&& (#[trigger] steps[k]).start_ms == beat.ms
                    &&& steps[k].hue == tone.hue
                    &&& steps[k].sat == tone.sat
                    &&& steps[k].bri == beat.bri
                    &&& steps[k].transition_ms == 40
                }
            &&& beat.ms - 1000 * i < 690 ==> exists|k: int|
                {
                    &&& 0 <= k < steps.len()
                    &&& (#[trigger] steps[k]).start_ms == beat.ms + 230
                    &&& steps[k].hue == tone.hue
                    &&& steps[k].sat == tone.sat
                    &&& steps[k].bri == tone.bri
                    &&& steps[k].transition_ms == 380
                }
        }),
{
    let tone = seconds[i].tone->0;
    let beats = seconds[i].beats@;
    let beat = beats[j];
    let all = second_steps(seconds, i);
    let rest = beat_steps(tone, beats, i, beats.len() as int);
    assert(falls_in(seconds[i].beats@[j].ms, i));
    lemma_beat_steps_contain(tone, beats, i, beats.len() as int, j);
    assert forall|s: LightStep| rest.contains(s) implies steps.contains(s) by {
        let q = choose|q: int| 0 <= q < rest.len() && rest[q] == s;
        assert(all[q + 1] == s);
        lemma_plan_contains(seconds, steps, i, q + 1);
    }
    let flash = flash_step(tone, beat);
    let k = choose|k: int| 0 <= k < steps.len() && steps[k] == flash;
    assert(steps[k].start_ms == beat.ms);
    if beat.ms - 1000 * i < 690 {
        let decay = decay_step(tone, beat);
        assert(steps.contains(decay));
        let m = choose|m: int| 0 <= m < steps.len() && steps[m] == decay;
        assert(steps[m].start_ms == beat.ms + 230);
    }
}

/// A plan shows nothing but its seconds and their beats: every command is the base of a second,
/// the flash of one of its beats, or the decay of a beat that comes less than 690 ms into it.
pub proof fn every_command_has_a_reason(seconds: Seq<Second>, steps: Seq<LightStep>, k: int)
    requires
        timeable(seconds),
        is_plan(seconds, steps),
        0 <= k < steps.len(),
    ensures
        exists|i: int|
            {
                &&& 0 <= i < seconds.len()
                &&& {
                    ||| steps[k].start_ms == 1000 * i && steps[k].transition_ms == 900
                    ||| (#[trigger] seconds[i]).tone is Some && exists|j: int|
                        {
                            let tone = seconds[i].tone->0;
                            let beat = #[trigger] seconds[i].beats@[j];
                            &&& 0 <= j < seconds[i].beats@.len()
                            &&& steps[k].hue == tone.hue
                            &&& steps[k].sat == tone.sat
                            &&& {
                                ||| steps[k].start_ms == beat.ms && steps[k].bri == beat.bri
                                    && steps[k].transition_ms == 40
                                ||| steps[k].start_ms == beat.ms + 230 && steps[k].bri == tone.bri
                                    && steps[k].transition_ms == 380 && beat.ms - 1000 * i < 690
                            }
                        }
                }
            },
{
    let (i, q) = lemma_plan_member(seconds, steps, k);
    lemma_second_steps(seconds, i);
    let second = seconds[i];
    if q > 0 {
        let tone = seconds[i].tone->0;
        let beats = seconds[i].beats@;
        let rest = beat_steps(tone, beats, i, beats.len() as int);
        assert(second_steps(seconds, i)[q] == rest[q - 1]);
        let j = lemma_beat_steps_come_from(tone, beats, i, beats.len() as int, q - 1);
        assert(falls_in(seconds[i].beats@[j].ms, i));
    }
}

proof fn lemma_beat_steps_count(tone: Tone, beats: Seq<Beat>, i: int, n: int)
    requires
        0 <= n <= beats.len(),
    ensures
        beat_steps(tone, beats, i, n).len() == n + beats.take(n).filter(
            |b: Beat| b.ms - 1000 * i < 690,
        ).len(),
    decreases n,
{
    let early = |b: Beat| b.ms - 1000 * i < 690;
    if n > 0 {
        lemma_beat_steps_count(tone, beats, i, n - 1);
        assert(beats.take(n) =~= beats.take(n - 1).push(beats[n - 1]));
        beats.take(n - 1).lemma_filter_push(beats[n - 1], early);
    } else {
        assert(beats.take(0) =~= Seq::<Beat>::empty());
        order::lemma_filter_none(beats.take(0), early);
    }
}

/// How many commands a second has: one, one for each of its beats, and one more for each beat
/// that comes less than 690 ms into it. A silent second has one.
pub proof fn commands_of_a_second_are_counted(
    seconds: Seq<Second>,
    steps: Seq<LightStep>,
    i: int,
)
    requires
        timeable(seconds),
        is_plan(seconds, steps),
        0 <= i < seconds.len(),
    ensures
        steps.filter(|s: LightStep| 1000 * i <= s.start_ms < 1000 * i + 1000).len() == if seconds[i].tone
            is Some {
            1 + seconds[i].beats@.len() + seconds[i].beats@.filter(
                |b: Beat| b.ms - 1000 * i < 690,
            ).len()
        } else {
            1
        },
{
    let n = seconds.len() as int;
    let beats = seconds[i].beats@;
    let here = |s: LightStep| falls_in(s.start_ms, i);
    let literal = |s: LightStep| 1000 * i <= s.start_ms < 1000 * i + 1000;
    assert(here =~= literal);
    lemma_listing_of_second(seconds, n, i);
    order::lemma_same_items_same_count(steps, listing(seconds, n), here);
    if seconds[i].tone is Some {
        lemma_beat_steps_count(seconds[i].tone->0, beats, i, beats.len() as int);
        assert(beats.take(beats.len() as int) =~= beats);
    }
}

/// The first item of a sequence that satisfies `pred` is the first that filtering leaves.
proof fn lemma_first_filtered(s: Seq<LightStep>, pred: spec_fn(LightStep) -> bool) -> (k: int)
    requires
        s.filter(pred).len() > 0,
    ensures
        0 <= k < s.len(),
        s[k] == s.filter(pred)[0],
        pred(s[k]),
        forall|m: int| 0 <= m < k ==> !pred(#[trigger] s[m]),
    decreases s.len(),
{
    if s.len() == 0 {
        order::lemma_filter_none(s, pred);
        0
    } else {
        let rest = s.skip(1);
        assert(s =~= seq![s[0]] + rest);
        order::lemma_filter_prepend(rest, s[0], pred);
        if pred(s[0]) {
            0
        } else {
            let k = lemma_first_filtered(rest, pred);
            assert forall|m: int| 0 <= m < k + 1 implies !pred(#[trigger] s[m]) by {
                if m > 0 {
                    assert(!pred(rest[m - 1]));
                }
            }
            k + 1
        }
    }
}

/// The commands of the first `n` seconds start before second `n`.
proof fn lemma_listing_starts_before(seconds: Seq<Second>, n: int, k: int)
    requires
        timeable(seconds),
        0 <= n <= seconds.len(),
        0 <= k < listing(seconds, n).len(),
    ensures
        listing(seconds, n)[k].start_ms < n * SEGMENT_MS,
    decreases n,
{
    if n > 0 {
        let before = listing(seconds, n - 1);
        if k < before.len() {
            lemma_listing_starts_before(seconds, n - 1, k);
            assert(listing(seconds, n)[k] == before[k]);
        } else {
            lemma_second_steps(seconds, n - 1);
            let step = second_steps(seconds, n - 1)[k - before.len()];
            assert(listing(seconds, n)[k] == step);
            assert(falls_in(step.start_ms, n - 1));
        }
    }
}

/// Nothing before second `i` ties with its base command.
proof fn lemma_no_earlier_ties(seconds: Seq<Second>, i: int)
    requires
        timeable(seconds),
        0 <= i < seconds.len(),
    ensures
        listing(seconds, i).filter(order::ties_with(base_step(seconds, i), by_start())).len() == 0,
{
    let base = base_step(seconds, i);
    let pred = order::ties_with(base, by_start());
    let before = listing(seconds, i);
    assert(base.start_ms == i * SEGMENT_MS);
    assert forall|k: int| 0 <= k < before.len() implies !pred(#[trigger] before[k]) by {
        lemma_listing_starts_before(seconds, i, k);
    }
    order::lemma_filter_none(before, pred);
}

/// The first of the commands that tie with the base command of second `i` is that command.
proof fn lemma_listing_ties(seconds: Seq<Second>, n: int, i: int)
    requires
        timeable(seconds),
        0 <= i < n <= seconds.len(),
    ensures
        ({
            let ties = listing(seconds, n).filter(
                order::ties_with(base_step(seconds, i), by_start()),
            );
            ties.len() > 0 && ties[0] == base_step(seconds, i)
        }),
    decreases n,
{
    let base = base_step(seconds, i);
    let pred = order::ties_with(base, by_start());
    let before = listing(seconds, n - 1);
    let here = second_steps(seconds, n - 1);
    Seq::filter_distributes_over_add(before, here, pred);
    if i < n - 1 {
        lemma_listing_ties(seconds, n - 1, i);
    } else {
        lemma_no_earlier_ties(seconds, i);
        let rest = match seconds[i].tone {
            Some(tone) => beat_steps(tone, seconds[i].beats@, i, seconds[i].beats@.len() as int),
            None => Seq::empty(),
        };
        assert(here == seq![base] + rest);
        order::lemma_filter_prepend(rest, base, pred);
        assert(pred(base));
    }
}

/// Every second starts with its own command, before any of its flashes: at its start, with a
/// ramp of 900 ms, and in its tone. Silence dims to 5 and keeps the color of the last second
/// that was not silent; before any sound it is red, hue 0, at a saturation of 55.
pub proof fn every_second_starts_in_its_tone(
    seconds: Seq<Second>,
    steps: Seq<LightStep>,
    i: int,
) -> (k: int)
    requires
        timeable(seconds),
        is_plan(seconds, steps),
        0 <= i < seconds.len(),
    ensures
        0 <= k < steps.len(),
        steps[k].start_ms == 1000 * i,
        steps[k].transition_ms == 900,
        forall|m: int| 0 <= m < k ==> (#[trigger] steps[m]).start_ms < 1000 * i,
        seconds[i].tone matches Some(tone) ==> steps[k].hue == tone.hue && steps[k].sat == tone.sat
            && steps[k].bri == tone.bri,
        seconds[i].tone is None ==> steps[k].bri == 5,
        seconds[i].tone is None && (forall|j: int|
            0 <= j < i ==> (#[trigger] seconds[j]).tone is None) ==> steps[k].hue == 0
            && steps[k].sat == 55,
        forall|j: int|
            {
                &&& seconds[i].tone is None
                &&& 0 <= j < i
                &&& (#[trigger] seconds[j]).tone is Some
                &&& forall|m: int| j < m < i ==> (#[trigger] seconds[m]).tone is None
            } ==> steps[k].hue == seconds[j].tone->0.hue && steps[k].sat == seconds[j].tone->0.sat,
{
    let n = seconds.len() as int;
    let base = base_step(seconds, i);
    let pred = order::ties_with(base, by_start());
    lemma_listing_ties(seconds, n, i);
    assert(steps.filter(pred) == listing(seconds, n).filter(pred));
    let k = lemma_first_filtered(steps, pred);
    assert forall|m: int| 0 <= m < k implies (#[trigger] steps[m]).start_ms < 1000 * i by {
        assert(!pred(steps[m]));
        assert(by_start()(steps[m], steps[k]));
    }
    if seconds[i].tone is None {
        if forall|j: int| 0 <= j < i ==> (#[trigger] seconds[j]).tone is None {
            lemma_no_last_tone(seconds, i);
        }
        assert forall|j: int|
            {
                &&& seconds[i].tone is None
                &&& 0 <= j < i
                &&& (#[trigger] seconds[j]).tone is Some
                &&& forall|m: int| j < m < i ==> (#[trigger] seconds[m]).tone is None
            } implies steps[k].hue == seconds[j].tone->0.hue && steps[k].sat
            == seconds[j].tone->0.sat by {
            lemma_last_tone_is(seconds, i, j);
        }
    }
    k
}

/// Without a tone there is no last tone.
pub proof fn lemma_no_last_tone(seconds: Seq<Second>, n: int)
    requires
        0 <= n <= seconds.len(),
        forall|j: int| 0 <= j < n ==> (#[trigger] seconds[j]).tone is None,
    ensures
        last_tone(seconds, n) is None,
    decreases n,
{
    if n > 0 {
        assert(seconds[n - 1].tone is None);
        lemma_no_last_tone(seconds, n - 1);
    }
}

/// The last tone, by what comes after it.
pub proof fn lemma_last_tone_is(seconds: Seq<Second>, n: int, j: int)
    requires
        0 <= j < n <= seconds.len(),
        seconds[j].tone is Some,
        forall|m: int| j < m < n ==> (#[trigger] seconds[m]).tone is None,
    ensures
        last_tone(seconds, n) == seconds[j].tone,
    decreases n,
{
    if j < n - 1 {
        assert(seconds[n - 1].tone is None);
        lemma_last_tone_is(seconds, n - 1, j);
    }
}

/// What a second shows does not depend on when it comes: with its beats moved by whole seconds
/// along with it, its flashes and decays move by as much, and nothing else changes.
pub proof fn moving_a_second_moves_its_beats(
    tone: Tone,
    beats: Seq<Beat>,
    later: Seq<Beat>,
    i: int,
    by: int,
    n: int,
)
    requires
        0 <= i,
        0 <= by,
        (i + by + 1) * 1000 <= u64::MAX,
        0 <= n <= beats.len(),
        later.len() == beats.len(),
        forall|j: int|
            0 <= j < beats.len() ==> 1000 * i <= (#[trigger] beats[j]).ms < 1000 * i + 1000,
        forall|j: int|
            0 <= j < beats.len() ==> (#[trigger] later[j]).ms == beats[j].ms + 1000 * by
                && later[j].bri == beats[j].bri,
    ensures
        beat_steps(tone, later, i + by, n).len() == beat_steps(tone, beats, i, n).len(),
        forall|k: int|
            0 <= k < beat_steps(tone, beats, i, n).len() ==> {
                let moved = #[trigger] beat_steps(tone, later, i + by, n)[k];
                let step = beat_steps(tone, beats, i, n)[k];
                &&& moved.start_ms == step.start_ms + 1000 * by
                &&& moved.hue == step.hue
                &&& moved.sat == step.sat
                &&& moved.bri == step.bri
                &&& moved.transition_ms == step.transition_ms
            },
    decreases n,
{
    if n > 0 {
        moving_a_second_moves_its_beats(tone, beats, later, i, by, n - 1);
        assert(1000 * i <= beats[n - 1].ms);
        assert(later[n - 1].ms == beats[n - 1].ms + 1000 * by);
        let before = beat_steps(tone, beats, i, n - 1);
        let before_later = beat_steps(tone, later, i + by, n - 1);
        let all = beat_steps(tone, beats, i, n);
        let all_later = beat_steps(tone, later, i + by, n);
        assert forall|k: int| 0 <= k < all.len() implies {
            let moved = #[trigger] all_later[k];
            let step = all[k];
            &&& moved.start_ms == step.start_ms + 1000 * by
            &&& moved.hue == step.hue
            &&& moved.sat == step.sat
            &&& moved.bri == step.bri
            &&& moved.transition_ms == step.transition_ms
        } by {
            if k < before.len() {
                assert(all[k] == before[k]);
                assert(all_later[k] == before_later[k]);
            }
        }
    }
}

// ---------------------------------------------------------------------------------------------
// The plan as a table
// ---------------------------------------------------------------------------------------------

/// A command as a line of the table: its numbers, separated by tabs.
pub open spec fn step_line(step: LightStep) -> Seq<char> {
    text::decimal(step.start_ms as nat) + "\t"@ + text::decimal(step.hue as nat) + "\t"@
        + text::decimal(step.sat as nat) + "\t"@ + text::decimal(step.bri as nat) + "\t"@
        + text::decimal(step.transition_ms as nat) + "\n"@
}

/// The lines of `steps`.
pub open spec fn step_lines(steps: Seq<LightStep>) -> Seq<char>
    decreases steps.len(),
{
    if steps.len() == 0 {
        Seq::empty()
    } else {
        step_lines(steps.drop_last()) + step_line(steps.last())
    }
}

/// The plan as tab-separated values, with a line of column names.
pub open spec fn table_text(steps: Seq<LightStep>) -> Seq<char> {
    "start_ms\thue\tsat\tbri\ttransition_ms\n"@ + step_lines(steps)
}

fn append_line(out: &mut String, step: &LightStep)
    ensures
        final(out)@ == old(out)@ + step_line(*step),
{
    let mut line = String::new();
    text::append_decimal(&mut line, step.start_ms);
    assert(line@ =~= text::decimal(step.start_ms as nat));
    line.append("\t");
    text::append_decimal(&mut line, step.hue as u64);
    line.append("\t");
    text::append_decimal(&mut line, step.sat as u64);
    line.append("\t");
    text::append_decimal(&mut line, step.bri as u64);
    line.append("\t");
    text::append_decimal(&mut line, step.transition_ms as u64);
    line.append("\n");
    out.append(line.as_str());
}

/// Writes the plan as tab-separated values.
pub fn table(steps: &Vec<LightStep>) -> (written: String)
    ensures
        written@ == table_text(steps@),
{
    let ghost header = "start_ms\thue\tsat\tbri\ttransition_ms\n"@;
    let mut written = String::from_str("start_ms\thue\tsat\tbri\ttransition_ms\n");
    let n: usize = steps.len();
    let mut i: usize = 0;
    assert(written@ =~= header + step_lines(steps@.take(0)));
    while i < n
        invariant
            n == steps@.len(),
            i <= n,
            written@ == header + step_lines(steps@.take(i as int)),
        decreases n - i,
    {
        let step: &LightStep = &steps[i];
        append_line(&mut written, step);
        proof {
            let more = steps@.take(i as int + 1);
            let sofar = step_lines(steps@.take(i as int));
            assert(more.drop_last() =~= steps@.take(i as int));
            assert((header + sofar) + step_line(*step) =~= header + (sofar + step_line(*step)));
        }
        i = i + 1;
    }
    assert(steps@.take(n as int) =~= steps@);
    written
}

/// The table starts with the names of its columns, and every further command adds a line with
/// its five numbers.
pub proof fn the_table_has_a_line_for_every_command(steps: Seq<LightStep>, next: LightStep)
    ensures
        table_text(Seq::empty()) == "start_ms\thue\tsat\tbri\ttransition_ms\n"@,
        table_text(steps.push(next)) == table_text(steps) + (text::decimal(next.start_ms as nat)
            + "\t"@ + text::decimal(next.hue as nat) + "\t"@ + text::decimal(next.sat as nat)
            + "\t"@ + text::decimal(next.bri as nat) + "\t"@ + text::decimal(
            next.transition_ms as nat,
        ) + "\n"@),
{
    let header = "start_ms\thue\tsat\tbri\ttransition_ms\n"@;
    let line = step_line(next);
    assert(steps.push(next).drop_last() =~= steps);
    assert(header + step_lines(Seq::empty()) =~= header);
    assert(header + (step_lines(steps) + line) =~= (header + step_lines(steps)) + line);
}

} // verus!
