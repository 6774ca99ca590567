//! Decoding, mixing down, resampling, and what output callbacks play.

use bulbbeat::audio::{
    mixdown_stereo, mono_mixdown, resample_linear, stream_format, DecodeError, Decoded,
    SampleSink, StreamFormat, TrackCodec, TrackInfo,
};
use bulbbeat::output::{choose_output, fan_out, stage, OutputChoice, OutputRange, PlaybackShared};

fn lerp(a: f32, b: f32, along: u32, of: u32) -> f32 {
    a + (b - a) * (along as f64 / of as f64) as f32
}

#[test]
fn mixdown_channels() {
    let mono = mixdown_stereo(&[0.5, 0.25], 1);
    assert_eq!(mono, vec![0.5, 0.5, 0.25, 0.25]);
    let stereo = mixdown_stereo(&[0.1, 0.9], 2);
    assert_eq!(stereo, vec![0.1, 0.9]);
    let six = mixdown_stereo(&[0.1, 0.2, 0.3, 0.4, 0.5, 0.6], 6);
    assert_eq!(six, vec![0.1, 0.2]);
}

#[test]
fn mixdown_without_channels_is_empty() {
    assert_eq!(mixdown_stereo(&[1, 2, 3], 0), Vec::<i32>::new());
}

#[test]
fn mixdown_takes_the_first_two_channels_of_an_incomplete_frame() {
    assert_eq!(mixdown_stereo(&[1, 2, 3, 4, 5, 6, 7, 8], 3), vec![1, 2, 4, 5, 7, 8]);
}

#[test]
fn resample_identity_and_upsample() {
    let x = vec![0.0, 0.0, 1.0, 1.0, 0.5, 0.5];
    assert_eq!(resample_linear(&x, 44100, 44100, lerp), x);
    let up = resample_linear(&x, 8000, 16000, lerp);
    assert_eq!(up.len(), x.len() * 2);
    // First output sample equals first input sample.
    assert_eq!(up[0], 0.0);
    assert_eq!(up[1], 0.0);
}

#[test]
fn resampling_is_exact_at_every_position() {
    let x = vec![0.0f32, 8.0, 4.0, 0.0];
    assert_eq!(
        resample_linear(&x, 1, 4, lerp),
        vec![0.0, 8.0, 1.0, 6.0, 2.0, 4.0, 3.0, 2.0, 4.0, 0.0, 4.0, 0.0, 4.0, 0.0, 4.0, 0.0]
    );
    // Three frames at 2 Hz are one and a half at 1 Hz, which rounds up to two.
    let y = vec![1.0f32, -1.0, 2.0, -2.0, 3.0, -3.0];
    assert_eq!(resample_linear(&y, 2, 1, lerp), vec![1.0, -1.0, 3.0, -3.0]);
}

#[test]
fn resampling_nothing_gives_nothing() {
    assert_eq!(resample_linear(&[], 8000, 16000, lerp), Vec::<f32>::new());
    assert_eq!(resample_linear(&[0.5, 0.5], 8000, 0, lerp), Vec::<f32>::new());
}

#[test]
fn mono_mixdown_averages_channels() {
    let d = Decoded {
        samples: vec![0.2, 0.4, -0.2, 0.2],
        channels: 2,
        sample_rate: 8000,
    };
    let mono = mono_mixdown(&d, |frame: &[f32]| frame.iter().sum::<f32>() / 2.0);
    assert_eq!(mono, vec![0.3, 0.0]);
}

#[test]
fn mono_is_kept() {
    let d = Decoded { samples: vec![3u32, 5], channels: 1, sample_rate: 8000 };
    assert_eq!(mono_mixdown(&d, |_: &[u32]| 0), vec![3, 5]);
}

#[test]
fn incomplete_frames_are_averaged_too() {
    let d = Decoded { samples: vec![1u32, 2, 3, 4, 5], channels: 2, sample_rate: 8000 };
    assert_eq!(mono_mixdown(&d, |f: &[u32]| f.iter().sum::<u32>() * 10), vec![30, 70, 50]);
}

fn track(codec: TrackCodec, sample_rate: Option<u32>, channels: Option<usize>) -> Option<TrackInfo> {
    Some(TrackInfo { codec, sample_rate, channels })
}

#[test]
fn tracks_need_codec_rate_and_channels() {
    assert_eq!(stream_format(None), Err(DecodeError::NoTrack));
    assert_eq!(
        stream_format(track(TrackCodec::Missing, None, None)),
        Err(DecodeError::NoCodecParameters)
    );
    assert_eq!(stream_format(track(TrackCodec::NotAudio, None, None)), Err(DecodeError::NotAudio));
    assert_eq!(stream_format(track(TrackCodec::Unknown, None, None)), Err(DecodeError::NoCodec));
    assert_eq!(
        stream_format(track(TrackCodec::Audio, None, Some(2))),
        Err(DecodeError::NoSampleRate)
    );
    assert_eq!(
        stream_format(track(TrackCodec::Audio, Some(8000), None)),
        Err(DecodeError::NoChannels)
    );
    assert_eq!(
        stream_format(track(TrackCodec::Audio, Some(8000), Some(0))),
        Err(DecodeError::NoChannels)
    );
    assert_eq!(
        stream_format(track(TrackCodec::Audio, Some(8000), Some(2))),
        Ok(StreamFormat { sample_rate: 8000, channels: 2 })
    );
}

#[test]
fn decode_errors_in_words() {
    assert_eq!(DecodeError::NoTrack.message(), "no audio track");
    assert_eq!(DecodeError::NoCodecParameters.message(), "audio track has no codec parameters");
    assert_eq!(DecodeError::NotAudio.message(), "default track is not an audio track");
    assert_eq!(DecodeError::NoCodec.message(), "audio track has no decodable codec");
    assert_eq!(DecodeError::NoSampleRate.message(), "track missing sample_rate");
    assert_eq!(DecodeError::NoChannels.message(), "track missing channel count");
    assert_eq!(DecodeError::NoAudio.message(), "no audio decoded");
}

#[test]
fn packets_of_other_tracks_are_ignored() {
    let format = StreamFormat { sample_rate: 8000, channels: 2 };
    let mut sink: SampleSink<i16> = SampleSink::new(7);
    assert!(sink.wants(7));
    assert!(!sink.wants(8));
    sink.push(7, &[1, 2]);
    sink.push(8, &[9, 9]);
    sink.push(7, &[3]);
    let decoded = sink.finish(format).unwrap();
    assert_eq!(decoded.samples, vec![1, 2, 3]);
    assert_eq!(decoded.channels, 2);
    assert_eq!(decoded.sample_rate, 8000);

    let empty: SampleSink<i16> = SampleSink::new(7);
    assert!(matches!(empty.finish(format), Err(DecodeError::NoAudio)));
}

#[test]
fn playback_shared_pull_and_done() {
    let mut shared: PlaybackShared<f32, u64> = PlaybackShared::new(2); // 2 stereo frames
    shared.extend(&[0.1f32, 0.2, 0.3, 0.4]);
    let mut out = [0f32; 4];
    shared.pull(2, 2, 5, 0.0, &mut out);
    assert_eq!(out, [0.1, 0.2, 0.3, 0.4]);
    assert!(shared.done());
    assert!(shared.t0().is_some());
    assert_eq!(shared.underruns(), 0);
}

#[test]
fn playback_shared_underrun_fills_zero() {
    let mut shared: PlaybackShared<f32, u64> = PlaybackShared::new(10);
    let mut out = [0f32; 4];
    shared.pull(2, 2, 5, 0.0, &mut out);
    assert_eq!(out, [0.0; 4]);
    assert_eq!(shared.underruns(), 1);
    assert!(!shared.done());
}

#[test]
fn the_clock_starts_with_the_first_audio() {
    let mut shared: PlaybackShared<i32, u64> = PlaybackShared::new(3);
    let mut out = [9; 2];
    shared.pull(1, 2, 10, 0, &mut out);
    assert_eq!(out, [0, 0]);
    assert_eq!(shared.t0(), None);
    shared.extend(&[1, 2, 3, 4, 5, 6]);
    shared.pull(1, 2, 20, 0, &mut out);
    assert_eq!(out, [1, 2]);
    assert_eq!(shared.t0(), Some(20));
    shared.pull(1, 2, 30, 0, &mut out);
    assert_eq!(shared.t0(), Some(20));
    assert_eq!(shared.consumed(), 2);
    assert!(!shared.done());
}

#[test]
fn two_callbacks_play_what_one_would() {
    let samples: Vec<i32> = (1..=10).collect();
    let mut cut: PlaybackShared<i32, u64> = PlaybackShared::new(5);
    cut.extend(&samples);
    let mut whole: PlaybackShared<i32, u64> = PlaybackShared::new(5);
    whole.extend(&samples);
    let mut first = vec![0; 4];
    let mut second = vec![0; 8];
    let mut joint = vec![0; 12];
    cut.pull(2, 2, 0, 0, &mut first);
    cut.pull(4, 2, 1, 0, &mut second);
    whole.pull(6, 2, 0, 0, &mut joint);
    first.extend(second);
    assert_eq!(first, joint);
    assert_eq!(joint, vec![1, 2, 3, 4, 5, 6, 7, 8, 9, 10, 0, 0]);
    assert!(cut.done() && whole.done());
}

#[test]
fn a_playback_that_is_over_stays_silent() {
    let mut shared: PlaybackShared<i32, u64> = PlaybackShared::new(1);
    shared.extend(&[1, 2]);
    let mut out = [0; 2];
    shared.pull(1, 2, 0, 0, &mut out);
    shared.pull(1, 2, 1, 0, &mut out);
    assert_eq!(out, [0, 0]);
    assert_eq!(shared.underruns(), 0);
    assert_eq!(shared.consumed(), 1);
}

#[test]
fn a_staged_playback_plays_the_whole_track() {
    let d = Decoded { samples: vec![0.0f32, 4.0], channels: 1, sample_rate: 1 };
    let mut shared: PlaybackShared<f32, u64> = stage(&d, 2, lerp).unwrap();
    let mut out = [0f32; 8];
    shared.pull(4, 2, 0, 0.0, &mut out);
    assert_eq!(out, [0.0, 0.0, 2.0, 2.0, 4.0, 4.0, 4.0, 4.0]);
    assert!(shared.done());
    assert_eq!(shared.underruns(), 0);

    let none = Decoded { samples: vec![1.0f32], channels: 2, sample_rate: 1 };
    assert!(stage::<f32, u64, _>(&none, 1, lerp).is_none());
}

fn range(is_f32: bool, min_rate: u32, max_rate: u32) -> OutputRange {
    OutputRange { is_f32, min_rate, max_rate }
}

#[test]
fn the_first_range_that_hosts_the_rate_is_opened() {
    let ranges = [range(false, 1, 96_000), range(true, 48_000, 48_000), range(true, 8000, 44_100)];
    assert_eq!(choose_output(&ranges, 44_100), Some(OutputChoice { index: 2, rate: 44_100 }));
    assert_eq!(choose_output(&ranges, 22_050), Some(OutputChoice { index: 2, rate: 22_050 }));
    // No range hosts the rate: the first playable one, at its nearest rate.
    assert_eq!(choose_output(&ranges, 96_000), Some(OutputChoice { index: 1, rate: 48_000 }));
}

#[test]
fn absurd_rates_are_capped() {
    let ranges = [range(true, 8000, 4_294_967_295)];
    assert_eq!(choose_output(&ranges, 384_000), Some(OutputChoice { index: 0, rate: 192_000 }));
    assert_eq!(choose_output(&ranges, 4000), Some(OutputChoice { index: 0, rate: 8000 }));
    let high = [range(true, 352_800, 384_000)];
    assert_eq!(choose_output(&high, 44_100), Some(OutputChoice { index: 0, rate: 352_800 }));
}

#[test]
fn only_floating_point_ranges_are_opened() {
    assert_eq!(choose_output(&[range(false, 1, 96_000)], 44_100), None);
    assert_eq!(choose_output(&[], 44_100), None);
}

#[test]
fn stereo_is_fitted_to_the_device() {
    let stereo = [1, 3, 5, 7];
    let mut mono = [0; 2];
    fan_out(&stereo, 1, 0, |l: i32, r: i32| (l + r) / 2, &mut mono);
    assert_eq!(mono, [2, 6]);
    let mut same = [0; 4];
    fan_out(&stereo, 2, 0, |l: i32, _: i32| l, &mut same);
    assert_eq!(same, stereo);
    let mut four = [9; 8];
    fan_out(&stereo, 4, 0, |l: i32, _: i32| l, &mut four);
    assert_eq!(four, [1, 3, 0, 0, 5, 7, 0, 0]);
}
