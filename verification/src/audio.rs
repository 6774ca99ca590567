//! Decoded audio: choosing what to decode, mixing down, and resampling.
//!
//! Everything here moves samples without looking at them, so a sample can be of any type; where
//! samples are computed with (averaged, blended), a function that does so is passed in.

use vstd::prelude::*;

verus! {

/// Fully decoded, interleaved audio.
#[derive(Debug)]
pub struct Decoded<T> {
    pub samples: Vec<T>,
    pub channels: usize,
    pub sample_rate: u32,
}

// ---------------------------------------------------------------------------------------------
// Decoding
// ---------------------------------------------------------------------------------------------

/// What a container says of the codec of its default audio track.
#[derive(Clone, Copy, Debug, PartialEq, Eq, Structural)]
pub enum TrackCodec {
    /// The track has no codec parameters.
    Missing,
    /// The parameters are not those of an audio codec.
    NotAudio,
    /// The audio codec is unknown.
    Unknown,
    /// A known audio codec.
    Audio,
}

/// What a container says of its default audio track.
#[derive(Clone, Copy, Debug, PartialEq, Eq, Structural)]
pub struct TrackInfo {
    pub codec: TrackCodec,
    pub sample_rate: Option<u32>,
    pub channels: Option<usize>,
}

/// Rate and channel count of a track that can be decoded.
#[derive(Clone, Copy, Debug, PartialEq, Eq, Structural)]
pub struct StreamFormat {
    pub sample_rate: u32,
    pub channels: usize,
}

/// Why a file gives no audio.
#[derive(Clone, Copy, Debug, PartialEq, Eq, Structural)]
pub enum DecodeError {
    NoTrack,
    NoCodecParameters,
    NotAudio,
    NoCodec,
    NoSampleRate,
    NoChannels,
    NoAudio,
}

impl DecodeError {
    /// The error in words.
    pub open spec fn text(self) -> Seq<char> {
        match self {
            DecodeError::NoTrack => "no audio track"@,
            DecodeError::NoCodecParameters => "audio track has no codec parameters"@,
            DecodeError::NotAudio => "default track is not an audio track"@,
            DecodeError::NoCodec => "audio track has no decodable codec"@,
            DecodeError::NoSampleRate => "track missing sample_rate"@,
            DecodeError::NoChannels => "track missing channel count"@,
            DecodeError::NoAudio => "no audio decoded"@,
        }
    }

    /// Says the error in words.
    pub fn message(self) -> (words: &'static str)
        ensures
            words@ == self.text(),
    {
        match self {
            DecodeError::NoTrack => "no audio track",
            DecodeError::NoCodecParameters => "audio track has no codec parameters",
            DecodeError::NotAudio => "default track is not an audio track",
            DecodeError::NoCodec => "audio track has no decodable codec",
            DecodeError::NoSampleRate => "track missing sample_rate",
            DecodeError::NoChannels => "track missing channel count",
            DecodeError::NoAudio => "no audio decoded",
        }
    }
}

/// What a track must have to be decoded; the first thing missing is the error.
pub open spec fn track_format(track: Option<TrackInfo>) -> Result<StreamFormat, DecodeError> {
    match track {
        None => Err(DecodeError::NoTrack),
        Some(info) => if info.codec is Missing {
            Err(DecodeError::NoCodecParameters)
        } else if info.codec is NotAudio {
            Err(DecodeError::NotAudio)
        } else if info.codec is Unknown {
            Err(DecodeError::NoCodec)
        } else if info.sample_rate is None {
            Err(DecodeError::NoSampleRate)
        } else if info.channels is None || info.channels->0 == 0 {
            Err(DecodeError::NoChannels)
        } else {
            Ok(StreamFormat { sample_rate: info.sample_rate->0, channels: info.channels->0 })
        },
    }
}

/// Decides whether a default track can be decoded, and in which format.
pub fn stream_format(track: Option<TrackInfo>) -> (format: Result<StreamFormat, DecodeError>)
    ensures
        format == track_format(track),
{
    match track {
        None => Err(DecodeError::NoTrack),
        Some(info) => match info.codec {
            TrackCodec::Missing => Err(DecodeError::NoCodecParameters),
            TrackCodec::NotAudio => Err(DecodeError::NotAudio),
            TrackCodec::Unknown => Err(DecodeError::NoCodec),
            TrackCodec::Audio => match info.sample_rate {
                None => Err(DecodeError::NoSampleRate),
                Some(sample_rate) => match info.channels {
                    None => Err(DecodeError::NoChannels),
                    Some(channels) => if channels == 0 {
                        Err(DecodeError::NoChannels)
                    } else {
                        Ok(StreamFormat { sample_rate, channels })
                    },
                },
            },
        },
    }
}

/// Gathers the samples of one track out of the packets of a file.
pub struct SampleSink<T> {
    track_id: u32,
    samples: Vec<T>,
}

impl<T: Copy> SampleSink<T> {
    /// The track whose packets are wanted.
    pub closed spec fn track(self) -> u32 {
        self.track_id
    }

    /// What was gathered so far.
    pub closed spec fn gathered(self) -> Seq<T> {
        self.samples@
    }

    /// Starts to gather the samples of track `track_id`.
    pub fn new(track_id: u32) -> (sink: Self)
        ensures
            sink.track() == track_id,
            sink.gathered() == Seq::<T>::empty(),
    {
        SampleSink { track_id, samples: Vec::new() }
    }

    /// Whether a packet of track `track_id` has to be decoded.
    pub fn wants(&self, track_id: u32) -> (wanted: bool)
        ensures
            wanted == (track_id == self.track()),
    {
        track_id == self.track_id
    }

    /// Takes the samples of a packet of track `track_id`; those of other tracks are ignored.
    pub fn push(&mut self, track_id: u32, samples: &[T])
        ensures
            final(self).track() == old(self).track(),
            final(self).gathered() == if track_id == old(self).track() {
                old(self).gathered() + samples@
            } else {
                old(self).gathered()
            },
    {
        if track_id == self.track_id {
            let n: usize = samples.len();
            let mut i: usize = 0;
            let ghost before = self.samples@;
            assert(samples@.take(0) =~= Seq::<T>::empty());
            assert(before + Seq::<T>::empty() =~= before);
            while i < n
                invariant
                    n == samples@.len(),
                    i <= n,
                    self.track_id == old(self).track_id,
                    self.samples@ == before + samples@.take(i as int),
                decreases n - i,
            {
                self.samples.push(samples[i]);
                i = i + 1;
                assert(self.samples@ =~= before + samples@.take(i as int));
            }
            assert(samples@.take(n as int) =~= samples@);
        }
    }

    /// Hands the audio out; a file that gave no sample is an error.
    pub fn finish(self, format: StreamFormat) -> (audio: Result<Decoded<T>, DecodeError>)
        ensures
            match audio {
                Ok(decoded) => {
                    &&& self.gathered().len() > 0
                    &&& decoded.samples@ == self.gathered()
                    &&& decoded.channels == format.channels
                    &&& decoded.sample_rate == format.sample_rate
                },
                Err(error) => self.gathered().len() == 0 && error == DecodeError::NoAudio,
            },
    {
        if self.samples.len() == 0 {
            return Err(DecodeError::NoAudio);
        }
        Ok(
            Decoded {
                samples: self.samples,
                channels: format.channels,
                sample_rate: format.sample_rate,
            },
        )
    }
}

// ---------------------------------------------------------------------------------------------
// Mixing down and resampling
// ---------------------------------------------------------------------------------------------

/// How many frames of `channels` samples `len` samples make; the last may be incomplete.
pub open spec fn frame_count(len: int, channels: int) -> int {
    (len + channels - 1) / channels
}

/// Frame `i` of `samples`.
pub open spec fn frame<T>(samples: Seq<T>, channels: int, i: int) -> Seq<T> {
    samples.subrange(
        i * channels,
        if (i + 1) * channels <= samples.len() {
            (i + 1) * channels
        } else {
            samples.len() as int
        },
    )
}

/// Interleaved stereo: mono is doubled, stereo is kept, and of more channels the first two are.
pub open spec fn stereo<T>(samples: Seq<T>, channels: int) -> Seq<T> {
    if channels <= 0 {
        Seq::empty()
    } else if channels == 1 {
        Seq::new(2 * samples.len(), |k: int| samples[k / 2])
    } else if channels == 2 {
        samples
    } else {
        Seq::new(
            (2 * frame_count(samples.len() as int, channels)) as nat,
            |k: int| samples[k / 2 * channels + k % 2],
        )
    }
}

/// The number of frames, by the start of the first frame that does not exist.
proof fn lemma_frame_count(len: int, channels: int, frames: int, start: int)
    requires
        channels > 0,
        start == frames * channels,
        start >= len,
        start - channels < len,
    ensures
        frame_count(len, channels) == frames,
{
    vstd::arithmetic::div_mod::lemma_fundamental_div_mod_converse(
        len + channels - 1,
        channels,
        frames,
        len + channels - 1 - start,
    );
}

/// Mixes interleaved audio of any channel count down to interleaved stereo.
pub fn mixdown_stereo<T: Copy>(samples: &[T], channels: usize) -> (mixed: Vec<T>)
    requires
        channels >= 3 ==> samples@.len() % (channels as nat) != 1,
    ensures
        mixed@ == stereo(samples@, channels as int),
{
    let n: usize = samples.len();
    let mut mixed: Vec<T> = Vec::new();
    if channels == 0 {
        return mixed;
    }
    if channels == 1 {
        let mut i: usize = 0;
        while i < n
            invariant
                n == samples@.len(),
                i <= n,
                mixed@.len() == 2 * i,
                forall|k: int| 0 <= k < 2 * i ==> #[trigger] mixed@[k] == samples@[k / 2],
            decreases n - i,
        {
            mixed.push(samples[i]);
            mixed.push(samples[i]);
            i = i + 1;
        }
        assert(mixed@ =~= stereo(samples@, 1));
        return mixed;
    }
    if channels == 2 {
        return vstd::slice::slice_to_vec(samples);
    }
    let ghost c = channels as int;
    let ghost mut frames: int = 0;
    let mut start: usize = 0;
    let mut more = n > 0;
    while more
        invariant
            n == samples@.len(),
            c == channels >= 3,
            n % channels != 1,
            frames >= 0,
            mixed@.len() == 2 * frames,
            forall|k: int|
                0 <= k < 2 * frames ==> #[trigger] mixed@[k] == samples@[k / 2 * c + k % 2],
            more ==> start == frames * c && start < n,
            !more ==> frames * c >= n && frames * c - c < n,
        decreases n - start + (if more {
            1int
        } else {
            0
        }),
    {
        proof {
            if start + 1 >= n {
                vstd::arithmetic::div_mod::lemma_fundamental_div_mod_converse(
                    n as int,
                    c,
                    frames,
                    1,
                );
            }
            assert((frames + 1) * c == frames * c + c) by (nonlinear_arith);
            assert((2 * frames) / 2 * c + (2 * frames) % 2 == frames * c);
            assert((2 * frames + 1) / 2 * c + (2 * frames + 1) % 2 == frames * c + 1);
        }
        mixed.push(samples[start]);
        mixed.push(samples[start + 1]);
        proof {
            frames = frames + 1;
        }
        if n - start > channels {
            start = start + channels;
        } else {
            more = false;
        }
    }
    proof {
        lemma_frame_count(n as int, c, frames, frames * c);
        assert(mixed@ =~= stereo(samples@, c));
    }
    mixed
}

/// `average` gave `x` for a frame that holds `samples`.
pub open spec fn is_average<T, F: Fn(&[T]) -> T>(average: F, samples: Seq<T>, x: T) -> bool {
    exists|f: &[T]| f@ == samples && #[trigger] call_ensures(average, (f,), x)
}

/// Mono for analysis: `average` of each frame. Audio with one channel, or none, is kept.
pub fn mono_mixdown<T: Copy, F: Fn(&[T]) -> T>(decoded: &Decoded<T>, average: F) -> (mono: Vec<T>)
    requires
        forall|f: &[T]| f@.len() > 0 ==> #[trigger] call_requires(average, (f,)),
    ensures
        decoded.channels <= 1 ==> mono@ == decoded.samples@,
        decoded.channels > 1 ==> mono@.len() == frame_count(
            decoded.samples@.len() as int,
            decoded.channels as int,
        ),
        decoded.channels > 1 ==> forall|i: int|
            0 <= i < mono@.len() ==> is_average(
                average,
                frame(decoded.samples@, decoded.channels as int, i),
                #[trigger] mono@[i],
            ),
{
    let samples: &[T] = decoded.samples.as_slice();
    let channels: usize = decoded.channels;
    if channels <= 1 {
        return vstd::slice::slice_to_vec(samples);
    }
    let n: usize = samples.len();
    let mut mono: Vec<T> = Vec::new();
    let ghost c = channels as int;
    let mut start: usize = 0;
    proof {
        if n == 0 {
            lemma_frame_count(0, c, 0, 0);
        }
    }
    let mut more = n > 0;
    while more
        invariant
            samples@ == decoded.samples@,
            n == samples@.len(),
            c == channels == decoded.channels > 1,
            forall|f: &[T]| f@.len() > 0 ==> #[trigger] call_requires(average, (f,)),
            forall|i: int|
                0 <= i < mono@.len() ==> is_average(
                    average,
                    frame(samples@, c, i),
                    #[trigger] mono@[i],
                ),
            more ==> start == mono@.len() * c && start < n,
            !more ==> frame_count(n as int, c) == mono@.len(),
        decreases n - start + (if more {
            1int
        } else {
            0
        }),
    {
        let ghost i = mono@.len() as int;
        proof {
            assert((i + 1) * c == i * c + c) by (nonlinear_arith);
        }
        let end: usize = if n - start > channels {
            start + channels
        } else {
            n
        };
        let f = vstd::slice::slice_subrange(samples, start, end);
        assert(f@ =~= frame(samples@, c, i));
        let x = average(f);
        assert(call_ensures(average, (f,), x));
        mono.push(x);
        if n - start > channels {
            start = start + channels;
        } else {
            more = false;
            proof {
                lemma_frame_count(n as int, c, i + 1, (i + 1) * c);
            }
        }
    }
    mono
}

/// The frame after frame `i0`, or the last one.
pub open spec fn next_frame(i0: int, frames: int) -> int {
    if i0 + 1 < frames {
        i0 + 1
    } else {
        frames - 1
    }
}

/// How many frames `frames` frames at rate `from` make at rate `to`, to the nearest.
pub open spec fn resampled_frames(frames: int, from: int, to: int) -> int {
    (2 * frames * to + from) / (2 * from)
}

/// `out` is `input`, interleaved stereo, resampled from rate `from` to rate `to`: output frame
/// `i` lies at `i * from / to` of the input, and `blend` blends the two input frames around that
/// place, told how far along it lies as a fraction of `to`. Audio that is already at the rate, or
/// empty, is kept.
pub open spec fn is_resampled<T, B: Fn(T, T, u32, u32) -> T>(
    input: Seq<T>,
    from: u32,
    to: u32,
    blend: B,
    out: Seq<T>,
) -> bool {
    if from == to || input.len() == 0 {
        out == input
    } else {
        let frames = input.len() as int / 2;
        &&& out.len() == 2 * resampled_frames(frames, from as int, to as int)
        &&& forall|k: int|
            0 <= k < out.len() ==> {
                let i0 = (k / 2) * from / (to as int);
                let i1 = next_frame(i0, frames);
                let along = ((k / 2) * from % (to as int)) as u32;
                call_ensures(
                    blend,
                    (input[2 * i0 + k % 2], input[2 * i1 + k % 2], along, to),
                    #[trigger] out[k],
                )
            }
    }
}

/// Every output frame lies within the input.
proof fn lemma_source_frame(i: int, frames: int, from: int, to: int)
    requires
        0 <= i < resampled_frames(frames, from, to),
        0 < from,
        0 < to,
        0 <= frames,
    ensures
        0 <= i * from / to < frames,
        0 <= i * from % to < to,
{
    let total = 2 * frames * to + from;
    let out = resampled_frames(frames, from, to);
    vstd::arithmetic::div_mod::lemma_fundamental_div_mod(total, 2 * from);
    assert(i * from < frames * to) by (nonlinear_arith)
        requires
            i + 1 <= out,
            2 * from * out <= total,
            total == 2 * frames * to + from,
            0 < from,
    ;
    assert(0 <= i * from) by (nonlinear_arith)
        requires
            0 <= i,
            0 < from,
    ;
    vstd::arithmetic::div_mod::lemma_div_pos_is_pos(i * from, to);
    vstd::arithmetic::div_mod::lemma_multiply_divide_lt(i * from, to, frames);
}

/// At rate 0 nothing comes out.
proof fn lemma_some_rate(frames: int, from: int, to: int)
    requires
        from > 0,
        to >= 0,
        0 < resampled_frames(frames, from, to),
    ensures
        to > 0,
{
    if to == 0 {
        assert(2 * frames * to == 0) by (nonlinear_arith)
            requires
                to == 0,
        ;
        vstd::arithmetic::div_mod::lemma_basic_div(from, 2 * from);
    }
}

/// What `frames` frames make at another rate can be indexed.
pub open spec fn fits(frames: int, from: u32, to: u32) -> bool {
    2 * resampled_frames(frames, from as int, to as int) <= usize::MAX
}

fn resampled_len(frames: usize, from: u32, to: u32) -> (count: u128)
    requires
        from > 0,
    ensures
        count == resampled_frames(frames as int, from as int, to as int),
{
    proof {
        assert(0 <= 2 * frames * to <= 0x1_ffff_fffe_0000_0000_0000_0000) by (nonlinear_arith)
            requires
                0 <= frames <= u64::MAX,
                0 <= to <= u32::MAX,
        ;
    }
    (2 * (frames as u128) * (to as u128) + from as u128) / (2 * (from as u128))
}

/// Resamples interleaved stereo from rate `from` to rate `to`; `blend` blends two samples.
pub fn resample_linear<T: Copy, B: Fn(T, T, u32, u32) -> T>(
    input: &[T],
    from: u32,
    to: u32,
    blend: B,
) -> (out: Vec<T>)
    requires
        from != to && input@.len() > 0 ==> from > 0 && fits(input@.len() as int / 2, from, to),
        forall|a: T, b: T, along: u32, of: u32| #[trigger] call_requires(blend, (a, b, along, of)),
    ensures
        is_resampled(input@, from, to, blend, out@),
{
    let n: usize = input.len();
    if from == to || n == 0 {
        return vstd::slice::slice_to_vec(input);
    }
    let frames: usize = n / 2;
    let count: u128 = resampled_len(frames, from, to);
    let mut out: Vec<T> = Vec::new();
    let mut i: u128 = 0;
    while i < count
        invariant
            n == input@.len(),
            frames == n / 2,
            from > 0,
            from != to,
            n > 0,
            count == resampled_frames(frames as int, from as int, to as int),
            2 * count <= usize::MAX,
            forall|a: T, b: T, along: u32, of: u32| #[trigger]
                call_requires(blend, (a, b, along, of)),
            i <= count,
            out@.len() == 2 * i,
            forall|k: int|
                0 <= k < out@.len() ==> {
                    let i0 = (k / 2) * from / (to as int);
                    let i1 = next_frame(i0, frames as int);
                    let along = ((k / 2) * from % (to as int)) as u32;
                    call_ensures(
                        blend,
                        (input@[2 * i0 + k % 2], input@[2 * i1 + k % 2], along, to),
                        #[trigger] out@[k],
                    )
                },
        decreases count - i,
    {
        proof {
            lemma_some_rate(frames as int, from as int, to as int);
            lemma_source_frame(i as int, frames as int, from as int, to as int);
            assert(0 <= i * from <= u64::MAX * u32::MAX) by (nonlinear_arith)
                requires
                    0 <= i <= u64::MAX,
                    0 < from <= u32::MAX,
            ;
        }
        let place: u128 = i * (from as u128);
        let i0: usize = (place / (to as u128)) as usize;
        let along: u32 = (place % (to as u128)) as u32;
        let i1: usize = if i0 + 1 < frames {
            i0 + 1
        } else {
            frames - 1
        };
        let left = blend(input[i0 * 2], input[i1 * 2], along, to);
        let right = blend(input[i0 * 2 + 1], input[i1 * 2 + 1], along, to);
        out.push(left);
        out.push(right);
        i = i + 1;
    }
    out
}

// ---------------------------------------------------------------------------------------------
// What becomes of the audio
// ---------------------------------------------------------------------------------------------

/// A track is decoded, as it says, if it has a known audio codec, a rate, and at least one
/// channel; of what is missing the first is the error.
pub proof fn a_track_is_decoded_unless_something_is_missing(track: Option<TrackInfo>)
    ensures
        track_format(track) is Ok <==> {
            &&& track is Some
            &&& track->0.codec is Audio
            &&& track->0.sample_rate is Some
            &&& track->0.channels is Some
            &&& track->0.channels->0 > 0
        },
        track_format(track) matches Ok(format) ==> track->0.sample_rate == Some(format.sample_rate)
            && track->0.channels == Some(format.channels),
        track_format(track) == Err::<StreamFormat, DecodeError>(DecodeError::NoTrack) <==> track
            is None,
        track matches Some(info) ==> {
            let format = track_format(track);
            &&& info.codec is Missing <==> format == Err::<StreamFormat, DecodeError>(
                DecodeError::NoCodecParameters,
            )
            &&& info.codec is NotAudio <==> format == Err::<StreamFormat, DecodeError>(
                DecodeError::NotAudio,
            )
            &&& info.codec is Unknown <==> format == Err::<StreamFormat, DecodeError>(
                DecodeError::NoCodec,
            )
            &&& info.codec is Audio && info.sample_rate is None <==> format == Err::<
                StreamFormat,
                DecodeError,
            >(DecodeError::NoSampleRate)
            &&& info.codec is Audio && info.sample_rate is Some && (info.channels is None
                || info.channels == Some(0usize)) <==> format == Err::<StreamFormat, DecodeError>(
                DecodeError::NoChannels,
            )
        },
{
}

/// The frames of some audio, `frames` of them, follow each other through all of it: each has a
/// sample of every channel, and only the last may have fewer.
pub proof fn frames_follow_each_other<T>(samples: Seq<T>, channels: int, frames: int, i: int)
    requires
        channels > 0,
        (frames - 1) * channels < samples.len() <= frames * channels,
    ensures
        frame_count(samples.len() as int, channels) == frames,
        0 <= i < frames - 1 ==> frame(samples, channels, i).len() == channels,
        frames > 0 && i == frames - 1 ==> frame(samples, channels, i).len() == samples.len() - i
            * channels,
        0 <= i < frames ==> forall|j: int|
            0 <= j < frame(samples, channels, i).len() ==> #[trigger] frame(samples, channels, i)[j]
                == samples[i * channels + j],
{
    let n = samples.len() as int;
    assert((frames - 1) * channels == frames * channels - channels) by (nonlinear_arith);
    lemma_frame_count(n, channels, frames, frames * channels);
    assert((i + 1) * channels == i * channels + channels) by (nonlinear_arith);
    if 0 <= i < frames {
        assert(0 <= i * channels <= (frames - 1) * channels) by (nonlinear_arith)
            requires
                0 <= i <= frames - 1,
                channels > 0,
        ;
        if i < frames - 1 {
            assert((i + 1) * channels <= (frames - 1) * channels) by (nonlinear_arith)
                requires
                    i + 1 <= frames - 1,
                    channels > 0,
            ;
        }
    }
}

/// In stereo, frame `i` has the two samples of mono, the two of stereo, or the first two of more
/// channels. There is one for each frame of the audio.
pub proof fn stereo_has_two_samples_of_every_frame<T>(
    samples: Seq<T>,
    channels: int,
    frames: int,
    i: int,
)
    requires
        channels > 0,
        (frames - 1) * channels < samples.len() <= frames * channels,
    ensures
        channels != 2 ==> stereo(samples, channels).len() == 2 * frames,
        channels == 1 && 0 <= i < frames ==> stereo(samples, 1)[2 * i] == samples[i] && stereo(
            samples,
            1,
        )[2 * i + 1] == samples[i],
        channels == 2 ==> stereo(samples, 2) == samples,
        channels > 2 && 0 <= i < frames ==> stereo(samples, channels)[2 * i] == samples[i
            * channels] && stereo(samples, channels)[2 * i + 1] == samples[i * channels + 1],
        stereo(samples, 0).len() == 0,
{
    frames_follow_each_other(samples, channels, frames, i);
    assert((2 * i) / 2 == i && (2 * i) % 2 == 0);
    assert((2 * i + 1) / 2 == i && (2 * i + 1) % 2 == 1);
}

/// Resampled audio lasts as long, to the nearest frame, and lines up with the input: output frame
/// `i`, at rate `to`, lies where it did at rate `from`, `along` of `to` from frame `i0` to the
/// next, if there is one, and is blended of those two, side by side. Audio at its own rate is
/// kept.
pub proof fn resampled_audio_lines_up<T, B: Fn(T, T, u32, u32) -> T>(
    input: Seq<T>,
    from: u32,
    to: u32,
    blend: B,
    out: Seq<T>,
    i: int,
    i0: int,
    along: u32,
    side: int,
)
    requires
        is_resampled(input, from, to, blend, out),
        0 < from,
        0 < to,
        0 <= i,
        2 * i + 1 < out.len(),
        i0 * to + along == i * from,
        along < to,
        side == 0 || side == 1,
    ensures
        from == to || input.len() == 0 ==> out == input,
        from != to && input.len() > 0 ==> {
            let frames = input.len() as int / 2;
            &&& out.len() % 2 == 0
            &&& -from <= 2 * (frames * to) - out.len() * from < from
            &&& 0 <= i0 < frames
            &&& i0 + 1 < frames ==> call_ensures(
                blend,
                (input[2 * i0 + side], input[2 * (i0 + 1) + side], along, to),
                out[2 * i + side],
            )
            &&& i0 + 1 == frames ==> call_ensures(
                blend,
                (input[2 * i0 + side], input[2 * i0 + side], along, to),
                out[2 * i + side],
            )
        },
{
    if from != to && input.len() > 0 {
        let frames = input.len() as int / 2;
        let count = resampled_frames(frames, from as int, to as int);
        let k = 2 * i + side;
        let total = 2 * frames * to + from;
        vstd::arithmetic::div_mod::lemma_fundamental_div_mod(total, 2 * from as int);
        vstd::arithmetic::div_mod::lemma_mod_bound(total, 2 * from as int);
        assert(2 * from * count == (2 * count) * from) by (nonlinear_arith);
        assert(2 * frames * to == 2 * (frames * to)) by (nonlinear_arith);
        assert(k / 2 == i && k % 2 == side);
        lemma_source_frame(i, frames, from as int, to as int);
        vstd::arithmetic::div_mod::lemma_fundamental_div_mod_converse(
            i * from,
            to as int,
            i0,
            along as int,
        );
        assert(call_ensures(
            blend,
            (
                input[2 * i0 + k % 2],
                input[2 * next_frame(i0, frames) + k % 2],
                along,
                to,
            ),
            out[k],
        ));
    }
}

/// Resampled audio has as many frames as its length at the new rate, to the nearest, and audio at
/// its own rate is kept as it is.
pub proof fn resampled_audio_lasts_as_long<T, B: Fn(T, T, u32, u32) -> T>(
    input: Seq<T>,
    from: u32,
    to: u32,
    blend: B,
    out: Seq<T>,
    frames: int,
    count: int,
)
    requires
        is_resampled(input, from, to, blend, out),
        0 < from,
        2 * frames <= input.len() < 2 * frames + 2,
        -from <= 2 * (frames * to) - 2 * (count * from) < from,
    ensures
        from == to || input.len() == 0 ==> out == input,
        from != to && input.len() > 0 ==> out.len() == 2 * count,
{
    let total = 2 * frames * to + from;
    assert(total - count * (2 * from) == 2 * (frames * to) - 2 * (count * from) + from)
        by (nonlinear_arith)
        requires
            total == 2 * frames * to + from,
    ;
    vstd::arithmetic::div_mod::lemma_fundamental_div_mod_converse(
        total,
        2 * from as int,
        count,
        total - count * (2 * from),
    );
}

/// The errors say what is wrong with a file.
pub proof fn errors_say_what_is_wrong()
    ensures
        DecodeError::NoTrack.text() == "no audio track"@,
        DecodeError::NoCodecParameters.text() == "audio track has no codec parameters"@,
        DecodeError::NotAudio.text() == "default track is not an audio track"@,
        DecodeError::NoCodec.text() == "audio track has no decodable codec"@,
        DecodeError::NoSampleRate.text() == "track missing sample_rate"@,
        DecodeError::NoChannels.text() == "track missing channel count"@,
        DecodeError::NoAudio.text() == "no audio decoded"@,
{
}

} // verus!
