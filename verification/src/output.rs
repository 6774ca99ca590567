//! The audio output: which configuration to open, and what each callback plays.
//!
//! The sync contract with the bulbs is the audio clock origin [`PlaybackShared::t0`]: the instant
//! at which the first output callback played audio.

use crate::audio;
use crate::audio::Decoded;
use std::collections::VecDeque;
use vstd::prelude::*;

verus! {

/// No output is opened at a higher rate than this, unless the device has no lower one.
pub const MAX_OUTPUT_RATE: u32 = 192_000;

// ---------------------------------------------------------------------------------------------
// Choosing an output configuration
// ---------------------------------------------------------------------------------------------

/// A range of sample rates that an output device supports.
#[derive(Clone, Copy, Debug, PartialEq, Eq, Structural)]
pub struct OutputRange {
    /// Whether its samples are 32-bit floating-point numbers, the only format played.
    pub is_f32: bool,
    pub min_rate: u32,
    pub max_rate: u32,
}

/// The range to open, by its place in the device's list, and the rate to open it at.
#[derive(Clone, Copy, Debug, PartialEq, Eq, Structural)]
pub struct OutputChoice {
    pub index: usize,
    pub rate: u32,
}

/// The range can play audio of rate `rate` as it is.
pub open spec fn hosts(range: OutputRange, rate: u32) -> bool {
    range.is_f32 && range.min_rate <= rate <= range.max_rate
}

/// The rate at which `range` is opened for audio of rate `rate`: the nearest one in the range.
/// Some devices report an absurd upper end, which is never requested.
pub open spec fn opened_rate(range: OutputRange, rate: u32) -> u32 {
    let lo = range.min_rate;
    let capped = if range.max_rate < MAX_OUTPUT_RATE {
        range.max_rate
    } else {
        MAX_OUTPUT_RATE
    };
    let hi = if capped < lo {
        lo
    } else {
        capped
    };
    if rate < lo {
        lo
    } else if rate > hi {
        hi
    } else {
        rate
    }
}

/// The first range that can play `rate` as it is; if there is none, the first playable range.
pub open spec fn is_preferred(ranges: Seq<OutputRange>, rate: u32, index: int) -> bool {
    &&& 0 <= index < ranges.len()
    &&& ranges[index].is_f32
    &&& if exists|i: int| 0 <= i < ranges.len() && hosts(#[trigger] ranges[i], rate) {
        &&& hosts(ranges[index], rate)
        &&& forall|i: int| 0 <= i < index ==> !hosts(#[trigger] ranges[i], rate)
    } else {
        forall|i: int| 0 <= i < index ==> !(#[trigger] ranges[i]).is_f32
    }
}

/// Chooses the output range and rate for audio of rate `rate`; `None` if no range is playable.
pub fn choose_output(ranges: &[OutputRange], rate: u32) -> (choice: Option<OutputChoice>)
    ensures
        match choice {
            None => forall|i: int| 0 <= i < ranges@.len() ==> !(#[trigger] ranges@[i]).is_f32,
            Some(c) => is_preferred(ranges@, rate, c.index as int) && c.rate == opened_rate(
                ranges@[c.index as int],
                rate,
            ),
        },
{
    let n: usize = ranges.len();
    let mut first: Option<usize> = None;
    let mut hosting: Option<usize> = None;
    let mut i: usize = 0;
    while i < n && hosting.is_none()
        invariant
            n == ranges@.len(),
            i <= n,
            match first {
                None => forall|k: int| 0 <= k < i ==> !(#[trigger] ranges@[k]).is_f32,
                Some(f) => f < i && ranges@[f as int].is_f32 && forall|k: int|
                    0 <= k < f ==> !(#[trigger] ranges@[k]).is_f32,
            },
            match hosting {
                None => forall|k: int| 0 <= k < i ==> !hosts(#[trigger] ranges@[k], rate),
                Some(h) => h < i && hosts(ranges@[h as int], rate) && forall|k: int|
                    0 <= k < h ==> !hosts(#[trigger] ranges@[k], rate),
            },
        decreases n - i,
    {
        let range = ranges[i];
        if range.is_f32 {
            if first.is_none() {
                first = Some(i);
            }
            if range.min_rate <= rate && rate <= range.max_rate {
                hosting = Some(i);
            }
        }
        i = i + 1;
    }
    let chosen: Option<usize> = match hosting {
        Some(h) => Some(h),
        None => first,
    };
    match chosen {
        None => None,
        Some(index) => {
            let range = ranges[index];
            let lo: u32 = range.min_rate;
            let capped: u32 = if range.max_rate < MAX_OUTPUT_RATE {
                range.max_rate
            } else {
                MAX_OUTPUT_RATE
            };
            let hi: u32 = if capped < lo {
                lo
            } else {
                capped
            };
            let opened: u32 = if rate < lo {
                lo
            } else if rate > hi {
                hi
            } else {
                rate
            };
            Some(OutputChoice { index, rate: opened })
        },
    }
}

/// Audio is played at its own rate wherever the device can do so at a sane rate.
pub proof fn hosted_rates_are_kept(ranges: Seq<OutputRange>, rate: u32, index: int)
    requires
        is_preferred(ranges, rate, index),
        exists|i: int| 0 <= i < ranges.len() && hosts(#[trigger] ranges[i], rate),
        rate <= MAX_OUTPUT_RATE,
    ensures
        opened_rate(ranges[index], rate) == rate,
{
}

/// The rate that is opened lies in the range, and is sane unless the whole range is not.
pub proof fn opened_rates_are_sane(range: OutputRange, rate: u32)
    requires
        range.min_rate <= range.max_rate,
    ensures
        range.min_rate <= opened_rate(range, rate) <= range.max_rate,
        range.min_rate <= MAX_OUTPUT_RATE ==> opened_rate(range, rate) <= MAX_OUTPUT_RATE,
{
}

// ---------------------------------------------------------------------------------------------
// The playback queue
// ---------------------------------------------------------------------------------------------

/// The audio of one playback and how far it has got: samples of type `T`, instants of type `I`.
pub struct PlaybackShared<T, I> {
    buf: VecDeque<T>,
    total: usize,
    consumed: usize,
    t0: Option<I>,
    done: bool,
    underruns: u64,
}

/// How far a playback has got, for those who may not hold up its callbacks.
#[derive(Clone, Copy, Debug)]
pub struct Meter<I> {
    /// Frames played.
    pub consumed: usize,
    /// The audio clock origin.
    pub t0: Option<I>,
    /// Everything was played.
    pub done: bool,
    /// Callbacks that found too little to play.
    pub underruns: u64,
}

/// What a playback has left to play and has counted.
#[verifier::ext_equal]
pub struct PlaybackModel<T, I> {
    /// Interleaved samples still to play.
    pub buffered: Seq<T>,
    /// Frames scheduled for playback.
    pub total: int,
    /// Frames played.
    pub consumed: int,
    /// The audio clock origin.
    pub t0: Option<I>,
    /// Everything was played.
    pub done: bool,
    /// Callbacks that found too little to play.
    pub underruns: u64,
}

impl<T, I> PlaybackModel<T, I> {
    /// A playback that has nothing left and knows it.
    pub open spec fn over(self) -> bool {
        self.buffered.len() == 0 && self.done
    }

    /// How many of `want` samples are there to be played.
    pub open spec fn available(self, want: int) -> int {
        if want <= self.buffered.len() {
            want
        } else {
            self.buffered.len() as int
        }
    }

    /// What a callback with room for `room` samples plays when it asks for `want`: the next
    /// samples in order, and silence where there are none.
    pub open spec fn sound(self, want: int, room: nat, silence: T) -> Seq<T> {
        Seq::new(
            room,
            |i: int|
                if i < self.available(want) {
                    self.buffered[i]
                } else {
                    silence
                },
        )
    }

    /// The playback after a callback with room for `room` samples asked for `frames` frames of
    /// `channels` samples at `now`.
    pub open spec fn pulled(self, frames: int, channels: int, room: nat, now: I) -> Self {
        let want = frames * channels;
        let n = self.available(want);
        let taken = if n <= room {
            n
        } else {
            room as int
        };
        if self.over() {
            self
        } else {
            let consumed = self.consumed + n / (if channels > 1 {
                channels
            } else {
                1
            });
            PlaybackModel {
                buffered: self.buffered.skip(taken),
                total: self.total,
                consumed,
                t0: if self.t0 is None && taken > 0 {
                    Some(now)
                } else {
                    self.t0
                },
                done: self.done || consumed >= self.total,
                underruns: if self.buffered.len() < want && !self.done {
                    vstd::wrapping::u64_specs::wrapping_add(self.underruns, 1)
                } else {
                    self.underruns
                },
            }
        }
    }
}

impl<T: Copy, I: Copy> View for PlaybackShared<T, I> {
    type V = PlaybackModel<T, I>;

    closed spec fn view(&self) -> PlaybackModel<T, I> {
        PlaybackModel {
            buffered: self.buf@,
            total: self.total as int,
            consumed: self.consumed as int,
            t0: self.t0,
            done: self.done,
            underruns: self.underruns,
        }
    }
}

impl<T: Copy, I: Copy> PlaybackShared<T, I> {
    /// A playback of `total` frames, with nothing to play yet.
    pub fn new(total: usize) -> (shared: Self)
        ensures
            shared@ == (PlaybackModel::<T, I> {
                buffered: Seq::empty(),
                total: total as int,
                consumed: 0,
                t0: None,
                done: false,
                underruns: 0,
            }),
    {
        PlaybackShared {
            buf: VecDeque::new(),
            total,
            consumed: 0,
            t0: None,
            done: false,
            underruns: 0,
        }
    }

    /// Queues `samples` behind what is left to play.
    pub fn extend(&mut self, samples: &[T])
        ensures
            final(self)@ == (PlaybackModel {
                buffered: old(self)@.buffered + samples@,
                ..old(self)@
            }),
    {
        let n: usize = samples.len();
        let mut i: usize = 0;
        let ghost before = self.buf@;
        assert(before + samples@.take(0) =~= before);
        while i < n
            invariant
                n == samples@.len(),
                i <= n,
                self.buf@ == before + samples@.take(i as int),
                self@ == (PlaybackModel { buffered: self.buf@, ..old(self)@ }),
            decreases n - i,
        {
            self.buf.push_back(samples[i]);
            i = i + 1;
            assert(self.buf@ =~= before + samples@.take(i as int));
        }
        assert(samples@.take(n as int) =~= samples@);
    }

    /// The audio clock origin: when the first callback played audio.
    pub fn t0(&self) -> (origin: Option<I>)
        ensures
            origin == self@.t0,
    {
        self.t0
    }

    /// Whether everything was played.
    pub fn done(&self) -> (done: bool)
        ensures
            done == self@.done,
    {
        self.done
    }

    /// How many callbacks found too little to play.
    pub fn underruns(&self) -> (count: u64)
        ensures
            count == self@.underruns,
    {
        self.underruns
    }

    /// How many frames were played.
    pub fn consumed(&self) -> (count: usize)
        ensures
            count == self@.consumed,
    {
        self.consumed
    }

    /// Reads how far the playback has got.
    pub fn meter(&self) -> (meter: Meter<I>)
        ensures
            meter.consumed == self@.consumed,
            meter.t0 == self@.t0,
            meter.done == self@.done,
            meter.underruns == self@.underruns,
    {
        Meter {
            consumed: self.consumed,
            t0: self.t0,
            done: self.done,
            underruns: self.underruns,
        }
    }

    /// Serves an output callback at `now` that asks for `frames` frames of `channels` samples:
    /// fills `out` with the next samples, and with `silence` where there are none.
    pub fn pull(&mut self, frames: usize, channels: usize, now: I, silence: T, out: &mut [T])
        requires
            frames * channels <= usize::MAX,
            old(self)@.consumed + frames <= usize::MAX,
        ensures
            final(self)@ == old(self)@.pulled(
                frames as int,
                channels as int,
                old(out)@.len(),
                now,
            ),
            final(out)@ == old(self)@.sound(frames * channels, old(out)@.len(), silence),
    {
        let ghost before = self@;
        let ghost room = out@.len();
        let want: usize = frames * channels;
        let size: usize = out.len();
        if self.buf.len() == 0 && self.done {
            let mut i: usize = 0;
            while i < size
                invariant
                    i <= size,
                    size == out@.len() == room,
                    forall|k: int| 0 <= k < i ==> #[trigger] out@[k] == silence,
                decreases size - i,
            {
                out[i] = silence;
                i = i + 1;
            }
            assert(out@ =~= before.sound(want as int, room, silence));
            return ;
        }
        let n: usize = if want < self.buf.len() {
            want
        } else {
            self.buf.len()
        };
        if self.buf.len() < want && !self.done {
            self.underruns = self.underruns.wrapping_add(1);
        }
        let ghost counted = self.underruns;
        let mut i: usize = 0;
        assert(self.buf@ =~= before.buffered.skip(0));
        while i < size && i < n
            invariant
                i <= size,
                i <= n,
                size == out@.len() == room,
                n == before.available(want as int),
                n <= before.buffered.len(),
                self.buf@ == before.buffered.skip(i as int),
                self@ == (PlaybackModel {
                    buffered: self.buf@,
                    underruns: counted,
                    ..before
                }),
                forall|k: int| 0 <= k < i ==> #[trigger] out@[k] == before.buffered[k],
            decreases n - i,
        {
            if let Some(sample) = self.buf.pop_front() {
                out[i] = sample;
            }
            i = i + 1;
            assert(self.buf@ =~= before.buffered.skip(i as int));
        }
        let taken: usize = i;
        while i < size
            invariant
                taken <= i <= size,
                taken == (if n <= room {
                    n as int
                } else {
                    room as int
                }),
                size == out@.len() == room,
                n == before.available(want as int),
                forall|k: int| 0 <= k < taken ==> #[trigger] out@[k] == before.buffered[k],
                forall|k: int| taken <= k < i ==> #[trigger] out@[k] == silence,
            decreases size - i,
        {
            out[i] = silence;
            i = i + 1;
        }
        let per_frame: usize = if channels > 1 {
            channels
        } else {
            1
        };
        proof {
            assert(n / per_frame <= frames) by (nonlinear_arith)
                requires
                    n <= frames * channels,
                    per_frame == channels || (per_frame == 1 && channels == 0),
                    per_frame >= 1,
            ;
        }
        self.consumed = self.consumed + n / per_frame;
        if self.t0.is_none() && taken > 0 {
            self.t0 = Some(now);
        }
        if self.consumed >= self.total {
            self.done = true;
        }
        assert(out@ =~= before.sound(want as int, room, silence));
        assert(self@ =~= before.pulled(frames as int, channels as int, room, now));
    }
}

/// A playback that has yet to start, with all of `track`, interleaved stereo, to play.
pub open spec fn prefilled<T, I>(track: Seq<T>) -> PlaybackModel<T, I> {
    PlaybackModel {
        buffered: track,
        total: track.len() as int / 2,
        consumed: 0,
        t0: None,
        done: false,
        underruns: 0,
    }
}

/// Prepares the playback of a whole track at rate `rate`: mixes it down to stereo, resamples it
/// if it has another rate (`blend` blends two samples), and queues it. There is no playback of
/// less than one frame.
pub fn stage<T: Copy, I: Copy, B: Fn(T, T, u32, u32) -> T>(
    decoded: &Decoded<T>,
    rate: u32,
    blend: B,
) -> (staged: Option<PlaybackShared<T, I>>)
    requires
        decoded.channels >= 3 ==> decoded.samples@.len() % (decoded.channels as nat) != 1,
        decoded.sample_rate > 0,
        audio::fits(
            audio::stereo(decoded.samples@, decoded.channels as int).len() as int / 2,
            decoded.sample_rate,
            rate,
        ),
        forall|a: T, b: T, along: u32, of: u32| #[trigger] call_requires(blend, (a, b, along, of)),
    ensures
        exists|track: Seq<T>|
            {
                &&& #[trigger] audio::is_resampled(
                    audio::stereo(decoded.samples@, decoded.channels as int),
                    decoded.sample_rate,
                    rate,
                    blend,
                    track,
                )
                &&& match staged {
                    Some(shared) => track.len() >= 2 && shared@ == prefilled::<T, I>(track),
                    None => track.len() < 2,
                }
            },
{
    let mixed = audio::mixdown_stereo(decoded.samples.as_slice(), decoded.channels);
    let track = audio::resample_linear(mixed.as_slice(), decoded.sample_rate, rate, blend);
    let total: usize = track.len() / 2;
    if total == 0 {
        return None;
    }
    let mut shared: PlaybackShared<T, I> = PlaybackShared::new(total);
    shared.extend(track.as_slice());
    assert(shared@ =~= prefilled::<T, I>(track@));
    Some(shared)
}

// ---------------------------------------------------------------------------------------------
// What holds of every playback
// ---------------------------------------------------------------------------------------------

/// The audio comes out in order, every sample once, however the callbacks cut it: two callbacks
/// play what one of their joint length would.
pub proof fn audio_plays_in_order<T, I>(
    playback: PlaybackModel<T, I>,
    first: int,
    second: int,
    channels: int,
    silence: T,
    now: I,
)
    requires
        first >= 0,
        second >= 0,
        channels >= 0,
    ensures
        playback.sound(first * channels, (first * channels) as nat, silence) + playback.pulled(
            first,
            channels,
            (first * channels) as nat,
            now,
        ).sound(second * channels, (second * channels) as nat, silence) == playback.sound(
            (first + second) * channels,
            ((first + second) * channels) as nat,
            silence,
        ),
{
    assert(first * channels >= 0 && second * channels >= 0 && (first + second) * channels == first
        * channels + second * channels) by (nonlinear_arith)
        requires
            first >= 0,
            second >= 0,
            channels >= 0,
    ;
    let a = first * channels;
    let b = second * channels;
    assert(playback.sound(a, a as nat, silence) + playback.pulled(
        first,
        channels,
        a as nat,
        now,
    ).sound(b, b as nat, silence) =~= playback.sound(a + b, (a + b) as nat, silence));
}

/// The audio clock origin is the instant of the first callback that plays audio, and never moves
/// again. Once everything was played, that stays so.
pub proof fn the_clock_origin_never_moves<T, I>(
    playback: PlaybackModel<T, I>,
    frames: int,
    channels: int,
    room: nat,
    now: I,
)
    ensures
        playback.t0 is Some ==> playback.pulled(frames, channels, room, now).t0 == playback.t0,
        playback.t0 is None ==> playback.pulled(frames, channels, room, now).t0 == if room > 0
            && playback.available(frames * channels) > 0 {
            Some(now)
        } else {
            None
        },
        playback.done ==> playback.pulled(frames, channels, room, now).done,
{
}

/// A playback whose queue holds exactly the frames it has not played.
pub open spec fn on_track<T, I>(playback: PlaybackModel<T, I>, channels: int) -> bool {
    &&& channels >= 1
    &&& 0 <= playback.consumed <= playback.total
    &&& playback.buffered.len() == (playback.total - playback.consumed) * channels
    &&& playback.done == (playback.total > 0 && playback.consumed == playback.total)
}

/// A playback that was given whole stereo frames starts on track.
pub proof fn a_prefilled_playback_is_on_track<T, I>(track: Seq<T>)
    requires
        track.len() % 2 == 0,
    ensures
        on_track(prefilled::<T, I>(track), 2),
{
}

/// A playback that was given its whole track stays on track: every callback plays as many
/// frames as it asks for, as long as there are any; the one that takes the last frames ends the
/// playback; and none before it counts as an underrun.
pub proof fn a_prefilled_playback_ends<T, I>(
    playback: PlaybackModel<T, I>,
    frames: int,
    channels: int,
    now: I,
)
    requires
        on_track(playback, channels),
        playback.total > 0,
        frames >= 0,
    ensures
        ({
            let after = playback.pulled(frames, channels, (frames * channels) as nat, now);
            let left = playback.total - playback.consumed;
            &&& on_track(after, channels)
            &&& after.consumed == playback.consumed + if frames <= left {
                frames
            } else {
                left
            }
            &&& frames >= left ==> after.over()
            &&& frames <= left ==> after.underruns == playback.underruns
        }),
{
    let left = playback.total - playback.consumed;
    let want = frames * channels;
    let len = left * channels;
    assert(want >= 0 && len >= 0) by (nonlinear_arith)
        requires
            frames >= 0,
            left >= 0,
            channels >= 1,
            want == frames * channels,
            len == left * channels,
    ;
    if frames <= left {
        assert(want <= len) by (nonlinear_arith)
            requires
                frames <= left,
                channels >= 1,
                want == frames * channels,
                len == left * channels,
        ;
        vstd::arithmetic::div_mod::lemma_div_by_multiple(frames, channels);
        assert(len - want == (left - frames) * channels) by (nonlinear_arith)
            requires
                want == frames * channels,
                len == left * channels,
        ;
    }
    if frames >= left {
        assert(want >= len) by (nonlinear_arith)
            requires
                frames >= left,
                channels >= 1,
                want == frames * channels,
                len == left * channels,
        ;
        vstd::arithmetic::div_mod::lemma_div_by_multiple(left, channels);
        assert(0 * channels == 0);
    }
    if left > 0 {
        assert(len > 0) by (nonlinear_arith)
            requires
                left > 0,
                channels >= 1,
                len == left * channels,
        ;
    }
}

// ---------------------------------------------------------------------------------------------
// Fitting stereo to the device
// ---------------------------------------------------------------------------------------------

/// Sample `k` of `stereo`, or silence beyond its end.
pub open spec fn sample_or<T>(stereo: Seq<T>, k: int, silence: T) -> T {
    if 0 <= k < stereo.len() {
        stereo[k]
    } else {
        silence
    }
}

fn get_or<T: Copy>(stereo: &[T], k: usize, silence: T) -> (sample: T)
    ensures
        sample == sample_or(stereo@, k as int, silence),
{
    if k < stereo.len() {
        stereo[k]
    } else {
        silence
    }
}

/// Lays interleaved stereo out for a device of `channels` channels: one channel gets `mix` of
/// both sides, two get the sides as they are, and of more the first two get the sides and the
/// others `silence`.
pub fn fan_out<T: Copy, M: Fn(T, T) -> T>(
    stereo: &[T],
    channels: usize,
    silence: T,
    mix: M,
    out: &mut [T],
)
    requires
        channels >= 1,
        channels == 1 ==> 2 * old(out)@.len() <= usize::MAX,
        channels == 2 ==> stereo@.len() == old(out)@.len(),
        channels >= 3 ==> old(out)@.len() % (channels as nat) != 1,
        forall|l: T, r: T| #[trigger] call_requires(mix, (l, r)),
    ensures
        final(out)@.len() == old(out)@.len(),
        channels == 1 ==> forall|i: int|
            0 <= i < final(out)@.len() ==> call_ensures(
                mix,
                (
                    sample_or(stereo@, 2 * i, silence),
                    sample_or(stereo@, 2 * i + 1, silence),
                ),
                #[trigger] final(out)@[i],
            ),
        channels == 2 ==> final(out)@ == stereo@,
        channels >= 3 ==> forall|k: int|
            0 <= k < final(out)@.len() ==> #[trigger] final(out)@[k] == if k % (channels as int)
                < 2 {
                sample_or(stereo@, 2 * (k / (channels as int)) + k % (channels as int), silence)
            } else {
                silence
            },
{
    let size: usize = out.len();
    let ghost room = out@.len();
    if channels == 1 {
        let mut i: usize = 0;
        while i < size
            invariant
                i <= size,
                size == out@.len() == room,
                2 * size <= usize::MAX,
                forall|l: T, r: T| #[trigger] call_requires(mix, (l, r)),
                forall|k: int|
                    0 <= k < i ==> call_ensures(
                        mix,
                        (
                            sample_or(stereo@, 2 * k, silence),
                            sample_or(stereo@, 2 * k + 1, silence),
                        ),
                        #[trigger] out@[k],
                    ),
            decreases size - i,
        {
            let left = get_or(stereo, 2 * i, silence);
            let right = get_or(stereo, 2 * i + 1, silence);
            let mixed = mix(left, right);
            out[i] = mixed;
            i = i + 1;
        }
    } else if channels == 2 {
        let mut i: usize = 0;
        while i < size
            invariant
                i <= size,
                size == out@.len() == room,
                size == stereo@.len(),
                forall|k: int| 0 <= k < i ==> #[trigger] out@[k] == stereo@[k],
            decreases size - i,
        {
            out[i] = stereo[i];
            i = i + 1;
        }
        assert(out@ =~= stereo@);
    } else {
        let ghost c = channels as int;
        let mut i: usize = 0;
        let mut place: usize = 0;
        let mut frame: usize = 0;
        while i < size
            invariant
                i <= size,
                size == out@.len() == room,
                c == channels >= 3,
                place < channels,
                i == frame * c + place,
                2 * frame <= i,
                forall|k: int|
                    0 <= k < i ==> #[trigger] out@[k] == if k % c < 2 {
                        sample_or(stereo@, 2 * (k / c) + k % c, silence)
                    } else {
                        silence
                    },
            decreases size - i,
        {
            proof {
                vstd::arithmetic::div_mod::lemma_fundamental_div_mod_converse(
                    i as int,
                    c,
                    frame as int,
                    place as int,
                );
                assert((frame + 1) * c == frame * c + c) by (nonlinear_arith);
                assert(2 * frame + place <= i) by (nonlinear_arith)
                    requires
                        i == frame * c + place,
                        c >= 3,
                        frame >= 0,
                ;
            }
            out[i] = if place < 2 {
                get_or(stereo, 2 * frame + place, silence)
            } else {
                silence
            };
            i = i + 1;
            if place + 1 == channels {
                place = 0;
                frame = frame + 1;
                proof {
                    assert(2 * frame <= frame * c) by (nonlinear_arith)
                        requires
                            c >= 3,
                            frame >= 0,
                    ;
                }
            } else {
                place = place + 1;
            }
        }
    }
}

// ---------------------------------------------------------------------------------------------
// What is opened, and what is heard
// ---------------------------------------------------------------------------------------------

/// Of the rates that a device offers, up to 192000, none is nearer to that of the audio than the
/// one opened. A device that only offers higher ones is opened at its lowest.
pub proof fn the_nearest_rate_is_opened(range: OutputRange, rate: u32, other: u32)
    ensures
        range.min_rate <= 192_000 && range.min_rate <= range.max_rate ==> {
            &&& range.min_rate <= opened_rate(range, rate) <= range.max_rate
            &&& opened_rate(range, rate) <= 192_000
            &&& range.min_rate <= other <= range.max_rate && other <= 192_000 ==> {
                &&& rate <= opened_rate(range, rate) ==> opened_rate(range, rate) - rate <= other
                    - rate || opened_rate(range, rate) - rate <= rate - other
                &&& rate >= opened_rate(range, rate) ==> rate - opened_rate(range, rate) <= rate
                    - other || rate - opened_rate(range, rate) <= other - rate
            }
        },
        range.min_rate > 192_000 || range.min_rate > range.max_rate ==> opened_rate(range, rate)
            == range.min_rate,
{
}

/// The range that is opened holds floating-point samples and the rate of the audio, if there is
/// any such range, and is the first one that does; without one, it is the first of
/// floating-point samples.
pub proof fn the_first_fitting_range_is_opened(
    ranges: Seq<OutputRange>,
    rate: u32,
    index: int,
    other: int,
)
    requires
        is_preferred(ranges, rate, index),
        0 <= other < ranges.len(),
    ensures
        ranges[index].is_f32,
        ranges[other].is_f32 && ranges[other].min_rate <= rate <= ranges[other].max_rate ==> index
            <= other && ranges[index].min_rate <= rate <= ranges[index].max_rate,
        ranges[other].is_f32 && other < index ==> ranges[index].min_rate <= rate
            <= ranges[index].max_rate,
{
    if hosts(ranges[other], rate) && other < index {
        assert(!hosts(ranges[other], rate));
    }
    if ranges[other].is_f32 && other < index && !hosts(ranges[index], rate) {
        assert(!ranges[other].is_f32);
    }
}

/// A callback plays the next samples, in order, as many as there are, as it asks for, and as it
/// has room for, and then silence. Those it played leave the queue. The frames that it found are
/// counted as played; with all of them played the playback is over; the first callback to play
/// anything sets the clock; and one that finds too little before that is an underrun.
pub proof fn a_callback_plays_what_comes_next<T, I>(
    playback: PlaybackModel<T, I>,
    frames: int,
    channels: int,
    room: nat,
    now: I,
    silence: T,
    found: int,
    played: int,
)
    requires
        frames >= 0,
        channels >= 1,
        found <= playback.buffered.len(),
        found <= frames * channels,
        found == playback.buffered.len() || found == frames * channels,
        played <= found,
        played <= room,
        played == found || played == room,
    ensures
        playback.sound(frames * channels, room, silence).len() == room,
        forall|k: int|
            0 <= k < played ==> #[trigger] playback.sound(frames * channels, room, silence)[k]
                == playback.buffered[k],
        forall|k: int|
            played <= k < room ==> #[trigger] playback.sound(frames * channels, room, silence)[k]
                == silence,
        ({
            let after = playback.pulled(frames, channels, room, now);
            let more = after.consumed - playback.consumed;
            &&& after.buffered.len() == playback.buffered.len() - played
            &&& forall|k: int|
                0 <= k < after.buffered.len() ==> #[trigger] after.buffered[k]
                    == playback.buffered[played + k]
            &&& after.total == playback.total
            &&& more * channels <= found < (more + 1) * channels
            &&& after.done <==> playback.done || after.consumed >= playback.total
            &&& playback.t0 is Some || played == 0 ==> after.t0 == playback.t0
            &&& playback.t0 is None && played > 0 ==> after.t0 == Some(now)
            &&& playback.done || found == frames * channels ==> after.underruns
                == playback.underruns
            &&& !playback.done && found < frames * channels ==> {
                &&& playback.underruns < u64::MAX ==> after.underruns == playback.underruns + 1
                &&& playback.underruns == u64::MAX ==> after.underruns == 0
            }
        }),
{
    let want = frames * channels;
    assert(want >= 0) by (nonlinear_arith)
        requires
            frames >= 0,
            channels >= 1,
            want == frames * channels,
    ;
    assert(found == playback.available(want));
    let after = playback.pulled(frames, channels, room, now);
    let more = after.consumed - playback.consumed;
    assert((more + 1) * channels == more * channels + channels) by (nonlinear_arith);
    if playback.over() {
        assert(0 * channels == 0);
    } else {
        vstd::arithmetic::div_mod::lemma_fundamental_div_mod(found, channels);
        vstd::arithmetic::div_mod::lemma_mod_bound(found, channels);
        assert(channels * more == more * channels) by (nonlinear_arith);
    }
}

/// A staged playback has its whole track to play, in frames of two samples, and has played
/// nothing.
pub proof fn a_staged_playback_has_all_to_play<T, I>(track: Seq<T>)
    ensures
        ({
            let staged = prefilled::<T, I>(track);
            &&& staged.buffered == track
            &&& 2 * staged.total <= track.len() < 2 * staged.total + 2
            &&& staged.consumed == 0
            &&& staged.t0 is None
            &&& !staged.done
            &&& staged.underruns == 0
        }),
{
}

/// Beyond the end of the audio there is silence, and before it the audio, whatever follows.
pub proof fn audio_ends_in_silence<T>(stereo: Seq<T>, more: Seq<T>, k: int, silence: T)
    requires
        0 <= k,
    ensures
        k < stereo.len() ==> sample_or(stereo + more, k, silence) == stereo[k],
        sample_or(stereo, stereo.len() + k, silence) == silence,
        sample_or(stereo + more, stereo.len() + k, silence) == sample_or(more, k, silence),
{
}

} // verus!
