//! Music-synced lighting for Kasa bulbs: the rules that turn a track into timed light commands,
//! play it, and answer for it.
//!
//! * [`survey`] and [`onset`]: what is typical of a track, and its transients.
//! * [`analyze`] and [`plan`]: from what is heard in each second to a light plan.
//! * [`audio`] and [`output`]: from decoded audio to what each output callback plays.
//! * [`scheduler`]: when each bulb is sent which command, and when it is restored.
//! * [`playback`]: which bulbs are driven, when a playback starts, and when it is over.
//! * [`web`], [`http`] and [`json`]: the requests of the web daemon and their answers.
//! * [`order`] and [`text`]: sorting, and text.
//!
//! Files, devices, the network and floating-point signal processing lie outside: their results
//! come in as plain values.

pub mod analyze;
pub mod audio;
pub mod http;
pub mod json;
pub mod onset;
pub mod order;
pub mod output;
pub mod plan;
pub mod playback;
pub mod scheduler;
pub mod survey;
pub mod text;
pub mod web;
