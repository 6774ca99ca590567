//! Playback orchestration: which bulbs to drive, when to start, and when to stop.

use crate::analyze::LightStep;
use crate::order;
use crate::output::Meter;
use crate::text;
use vstd::prelude::*;
use vstd::string::*;

verus! {

/// How long discovery listens for answers when no bulb is named.
pub const DISCOVER_TIMEOUT_SECS: u64 = 3;

/// How often a playback is looked at.
pub const WATCH_MS: u64 = 50;

/// How long a playback that ended by itself is left alone, so that the last commands, which were
/// sent ahead of the audio, land.
pub const GRACE_MS: u64 = 1000;

/// A command with a shorter ramp than this is a beat flash.
pub const FLASH_BELOW_MS: u32 = 100;

// ---------------------------------------------------------------------------------------------
// Configuration
// ---------------------------------------------------------------------------------------------

/// The account of a bulb's owner.
#[derive(Debug)]
pub struct Credentials {
    pub email: String,
    pub password: String,
}

/// Options of a playback.
#[derive(Debug)]
pub struct PlaybackConfig {
    pub no_restore: bool,
    pub lead_ms: Option<u64>,
    pub creds: Option<Credentials>,
}

/// An email was given without a password, or a password without an email.
#[derive(Clone, Copy, Debug, PartialEq, Eq, Structural)]
pub struct HalfCredentials;

impl HalfCredentials {
    /// Says the error in words.
    pub fn message(self) -> (words: &'static str)
        ensures
            words@ == "--email and --password must be given together"@,
    {
        "--email and --password must be given together"
    }
}

/// Puts the two halves of an account together: both are given, or neither.
pub fn credentials(email: Option<String>, password: Option<String>) -> (creds: Result<
    Option<Credentials>,
    HalfCredentials,
>)
    ensures
        match creds {
            Ok(Some(c)) => email == Some(c.email) && password == Some(c.password),
            Ok(None) => email is None && password is None,
            Err(_) => (email is None) != (password is None),
        },
{
    match email {
        Some(email) => match password {
            Some(password) => Ok(Some(Credentials { email, password })),
            None => Err(HalfCredentials),
        },
        None => match password {
            Some(_) => Err(HalfCredentials),
            None => Ok(None),
        },
    }
}

// ---------------------------------------------------------------------------------------------
// Bulbs
// ---------------------------------------------------------------------------------------------

/// A device that answered discovery.
#[derive(Debug)]
pub struct Device {
    pub ip: String,
    pub model: String,
    pub alias: String,
    pub is_color: bool,
    pub is_dimmable: bool,
}

impl Device {
    /// The device can light up.
    pub open spec fn lights_up(self) -> bool {
        self.is_color || self.is_dimmable
    }

    /// Whether the device can light up.
    pub fn is_bulb(&self) -> (yes: bool)
        ensures
            yes == self.lights_up(),
    {
        self.is_color || self.is_dimmable
    }

    /// The device in one line: address, model, name and what it can do, separated by tabs.
    pub open spec fn line_text(self) -> Seq<char> {
        self.ip@ + "\t"@ + self.model@ + "\t"@ + self.alias@ + "\tcolor="@ + yes_no(self.is_color)
            + "\tdimmable="@ + yes_no(self.is_dimmable)
    }

    /// Describes the device in one line.
    pub fn line(&self) -> (line: String)
        ensures
            line@ == self.line_text(),
    {
        let mut line = self.ip.clone();
        line.append("\t");
        line.append(self.model.as_str());
        line.append("\t");
        line.append(self.alias.as_str());
        line.append("\tcolor=");
        line.append(yes_or_no(self.is_color));
        line.append("\tdimmable=");
        line.append(yes_or_no(self.is_dimmable));
        line
    }
}

/// `yes` or `no`.
pub open spec fn yes_no(yes: bool) -> Seq<char> {
    if yes {
        "yes"@
    } else {
        "no"@
    }
}

fn yes_or_no(yes: bool) -> (word: &'static str)
    ensures
        word@ == yes_no(yes),
{
    if yes {
        "yes"
    } else {
        "no"
    }
}

/// Why there is no bulb to drive.
#[derive(Clone, Copy, Debug, PartialEq, Eq, Structural)]
pub enum NoBulbs {
    /// No device answered discovery.
    NoDevice,
    /// Devices answered, but none of them can light up.
    OnlyOthers,
}

impl NoBulbs {
    /// The error in words.
    pub open spec fn text(self) -> Seq<char> {
        match self {
            NoBulbs::NoDevice =>
                "no Kasa devices answered discovery — pass --bulb <ip> or check the network"@,
            NoBulbs::OnlyOthers => "discovered Kasa devices but none of them are bulbs"@,
        }
    }

    /// Says the error in words.
    pub fn message(self) -> (words: &'static str)
        ensures
            words@ == self.text(),
    {
        match self {
            NoBulbs::NoDevice =>
                "no Kasa devices answered discovery — pass --bulb <ip> or check the network",
            NoBulbs::OnlyOthers => "discovered Kasa devices but none of them are bulbs",
        }
    }
}

/// The addresses of the devices that can light up, in order.
pub open spec fn bulb_addresses(devices: Seq<Device>) -> Seq<String> {
    devices.filter(|d: Device| d.lights_up()).map_values(|d: Device| d.ip)
}

/// The bulbs to drive: those that were named; if none was, every device that answered discovery
/// and can light up.
pub fn resolve_bulbs(bulbs: Vec<String>, devices: &Vec<Device>) -> (resolved: Result<
    Vec<String>,
    NoBulbs,
>)
    ensures
        match resolved {
            Ok(addresses) => {
                &&& addresses@.len() > 0
                &&& addresses@ == if bulbs@.len() > 0 {
                    bulbs@
                } else {
                    bulb_addresses(devices@)
                }
            },
            Err(NoBulbs::NoDevice) => bulbs@.len() == 0 && devices@.len() == 0,
            Err(NoBulbs::OnlyOthers) => bulbs@.len() == 0 && devices@.len() > 0 && bulb_addresses(
                devices@,
            ).len() == 0,
        },
{
    if bulbs.len() > 0 {
        return Ok(bulbs);
    }
    let n: usize = devices.len();
    if n == 0 {
        return Err(NoBulbs::NoDevice);
    }
    let ghost pred = |d: Device| d.lights_up();
    let ghost address = |d: Device| d.ip;
    let mut addresses: Vec<String> = Vec::new();
    let mut i: usize = 0;
    proof {
        assert(devices@.take(0) =~= Seq::<Device>::empty());
        order::lemma_filter_none(devices@.take(0), pred);
        assert(addresses@ =~= bulb_addresses(devices@.take(0)));
    }
    while i < n
        invariant
            n == devices@.len(),
            i <= n,
            pred == (|d: Device| d.lights_up()),
            address == (|d: Device| d.ip),
            addresses@ == devices@.take(i as int).filter(pred).map_values(address),
        decreases n - i,
    {
        let device: &Device = &devices[i];
        proof {
            let before = devices@.take(i as int);
            assert(devices@.take(i as int + 1) =~= before.push(*device));
            before.lemma_filter_push(*device, pred);
            if pred(*device) {
                assert(before.filter(pred).push(*device).map_values(address) =~= before.filter(
                    pred,
                ).map_values(address).push(device.ip));
            }
        }
        if device.is_bulb() {
            addresses.push(device.ip.clone());
        }
        i = i + 1;
    }
    assert(devices@.take(n as int) =~= devices@);
    if addresses.len() == 0 {
        return Err(NoBulbs::OnlyOthers);
    }
    Ok(addresses)
}

// ---------------------------------------------------------------------------------------------
// Starting
// ---------------------------------------------------------------------------------------------

/// How many complete frames `samples` interleaved samples make.
pub open spec fn whole_frames(samples: int, channels: int) -> int {
    samples / (if channels > 1 {
        channels
    } else {
        1
    })
}

/// How long `samples` interleaved samples play.
pub fn duration_ms(samples: usize, channels: usize, sample_rate: u32) -> (ms: u64)
    requires
        sample_rate > 0,
        whole_frames(samples as int, channels as int) * 1000 <= u64::MAX,
    ensures
        ms == whole_frames(samples as int, channels as int) * 1000 / (sample_rate as int),
        ms * sample_rate <= whole_frames(samples as int, channels as int) * 1000 < (ms + 1)
            * sample_rate,
{
    let per_frame: usize = if channels > 1 {
        channels
    } else {
        1
    };
    let frames: usize = samples / per_frame;
    proof {
        let rate = sample_rate as int;
        let ms = frames * 1000 / rate;
        vstd::arithmetic::div_mod::lemma_fundamental_div_mod(frames * 1000, rate);
        vstd::arithmetic::div_mod::lemma_mod_bound(frames * 1000, rate);
        assert(rate * ms == ms * rate && (ms + 1) * rate == ms * rate + rate)
            by (nonlinear_arith);
    }
    frames as u64 * 1000 / sample_rate as u64
}

/// A light plan in numbers.
#[derive(Clone, Copy, Debug, PartialEq, Eq, Structural)]
pub struct PlanSummary {
    pub minutes: u64,
    pub seconds: u64,
    pub commands: usize,
    pub flashes: usize,
    /// Commands per second, on average.
    pub per_second: u128,
}

/// The beat flashes of a plan.
pub open spec fn flashes(steps: Seq<LightStep>) -> Seq<LightStep> {
    steps.filter(|s: LightStep| s.transition_ms < FLASH_BELOW_MS)
}

/// Sums a light plan for a track of `duration_ms` up.
pub fn summarize(steps: &Vec<LightStep>, duration_ms: u64) -> (summary: PlanSummary)
    ensures
        summary.minutes == duration_ms / 60_000,
        summary.seconds == (duration_ms / 1000) % 60,
        1000 * (60 * summary.minutes + summary.seconds) <= duration_ms < 1000 * (60
            * summary.minutes + summary.seconds + 1),
        summary.seconds < 60,
        summary.commands == steps@.len(),
        summary.flashes == flashes(steps@).len(),
        summary.per_second == if duration_ms > 0 {
            steps@.len() * 1000 / (duration_ms as nat)
        } else {
            steps@.len()
        },
{
    let n: usize = steps.len();
    let ghost pred = |s: LightStep| s.transition_ms < FLASH_BELOW_MS;
    let mut count: usize = 0;
    let mut i: usize = 0;
    proof {
        assert(steps@.take(0) =~= Seq::<LightStep>::empty());
        order::lemma_filter_none(steps@.take(0), pred);
    }
    while i < n
        invariant
            n == steps@.len(),
            i <= n,
            count <= i,
            pred == (|s: LightStep| s.transition_ms < FLASH_BELOW_MS),
            count == steps@.take(i as int).filter(pred).len(),
        decreases n - i,
    {
        let step = steps[i];
        proof {
            assert(steps@.take(i as int + 1) =~= steps@.take(i as int).push(step));
            steps@.take(i as int).lemma_filter_push(step, pred);
        }
        if step.transition_ms < FLASH_BELOW_MS {
            count = count + 1;
        }
        i = i + 1;
    }
    assert(steps@.take(n as int) =~= steps@);
    let per_second: u128 = if duration_ms > 0 {
        n as u128 * 1000 / duration_ms as u128
    } else {
        n as u128
    };
    PlanSummary {
        minutes: duration_ms / 60_000,
        seconds: (duration_ms / 1000) % 60,
        commands: n,
        flashes: count,
        per_second,
    }
}

/// What is heard of a bulb before a playback starts.
#[derive(Clone, Copy, Debug, PartialEq, Eq, Structural)]
pub enum Report {
    /// A bulb joined.
    Ready,
    /// A bulb cannot be used.
    Unavailable,
    /// Nothing more will be heard.
    Closed,
}

/// Counts the bulbs that join, until every bulb has reported or nothing more will be heard.
pub struct ReadyTally {
    targets: usize,
    awaited: usize,
    usable: usize,
}

/// No bulb can be used, out of so many.
#[derive(Clone, Copy, Debug, PartialEq, Eq, Structural)]
pub struct NoUsableBulbs {
    pub targets: usize,
}

impl NoUsableBulbs {
    /// The error in words.
    pub open spec fn text(self) -> Seq<char> {
        "no usable bulbs out of "@ + text::decimal(self.targets as nat)
            + " target(s); not playing"@
    }

    /// Says the error in words.
    pub fn message(self) -> (words: String)
        ensures
            words@ == self.text(),
    {
        let mut words = "no usable bulbs out of ".to_owned();
        text::append_decimal(&mut words, self.targets as u64);
        words.append(" target(s); not playing");
        words
    }
}

impl ReadyTally {
    /// How many bulbs are to be driven.
    pub closed spec fn all(self) -> int {
        self.targets as int
    }

    /// How many reports are still awaited.
    pub closed spec fn open(self) -> int {
        self.awaited as int
    }

    /// How many bulbs joined.
    pub closed spec fn joined(self) -> int {
        self.usable as int
    }

    /// No more bulbs joined than reported.
    pub open spec fn valid(self) -> bool {
        0 <= self.open() && 0 <= self.joined() && self.joined() + self.open() <= self.all()
    }

    /// Awaits the reports of `targets` bulbs.
    pub fn new(targets: usize) -> (tally: Self)
        ensures
            tally.valid(),
            tally.all() == targets,
            tally.open() == targets,
            tally.joined() == 0,
    {
        ReadyTally { targets, awaited: targets, usable: 0 }
    }

    /// Whether a report is still awaited.
    pub fn waits(&self) -> (yes: bool)
        ensures
            yes == (self.open() > 0),
    {
        self.awaited > 0
    }

    /// Takes a report that was awaited.
    pub fn record(&mut self, report: Report)
        requires
            old(self).valid(),
            old(self).open() > 0,
        ensures
            final(self).valid(),
            final(self).all() == old(self).all(),
            final(self).joined() == old(self).joined() + if report is Ready {
                1int
            } else {
                0
            },
            final(self).open() == if report is Closed {
                0
            } else {
                old(self).open() - 1
            },
    {
        match report {
            Report::Ready => {
                self.usable = self.usable + 1;
                self.awaited = self.awaited - 1;
            },
            Report::Unavailable => {
                self.awaited = self.awaited - 1;
            },
            Report::Closed => {
                self.awaited = 0;
            },
        }
    }

    /// Whether to start: only if some bulb joined.
    pub fn verdict(&self) -> (verdict: Result<(), NoUsableBulbs>)
        ensures
            match verdict {
                Ok(_) => self.joined() != 0,
                Err(error) => self.joined() == 0 && error.targets == self.all(),
            },
    {
        if self.usable == 0 {
            Err(NoUsableBulbs { targets: self.targets })
        } else {
            Ok(())
        }
    }
}

// ---------------------------------------------------------------------------------------------
// Stopping
// ---------------------------------------------------------------------------------------------

/// What a playback shows of itself at one moment.
#[derive(Clone, Copy, Debug, PartialEq, Eq, Structural)]
pub struct PlaybackStatus {
    /// It was asked to stop.
    pub canceling: bool,
    /// All audio was played.
    pub done: bool,
    /// How much audio was played.
    pub played_ms: u64,
    /// Callbacks that found too little to play.
    pub underruns: u64,
}

impl PlaybackStatus {
    /// The playback has ended, or is to end.
    pub open spec fn ended(self) -> bool {
        self.canceling || self.done
    }
}

/// A started playback: audio is live, bulbs are driven.
#[derive(Debug)]
pub struct PlaybackHandle {
    pub file: String,
    pub duration_ms: u64,
    pub status: PlaybackStatus,
}

impl PlaybackHandle {
    /// A playback that has just started.
    pub fn new(file: String, duration_ms: u64) -> (handle: Self)
        ensures
            handle.file == file,
            handle.duration_ms == duration_ms,
            handle.status == (PlaybackStatus {
                canceling: false,
                done: false,
                played_ms: 0,
                underruns: 0,
            }),
    {
        PlaybackHandle {
            file,
            duration_ms,
            status: PlaybackStatus {
                canceling: false,
                done: false,
                played_ms: 0,
                underruns: 0,
            },
        }
    }

    /// Takes note of how far the audio has got.
    pub fn observe(&mut self, done: bool, played_ms: u64, underruns: u64)
        ensures
            final(self).file == old(self).file,
            final(self).duration_ms == old(self).duration_ms,
            final(self).status == (PlaybackStatus {
                canceling: old(self).status.canceling,
                done,
                played_ms,
                underruns,
            }),
    {
        self.status.done = done;
        self.status.played_ms = played_ms;
        self.status.underruns = underruns;
    }

    /// Takes note of how far the audio, which is played at rate `rate`, has got.
    pub fn watch<I>(&mut self, meter: &Meter<I>, rate: u32)
        requires
            rate > 0,
            meter.consumed * 1000 <= u64::MAX,
        ensures
            final(self).file == old(self).file,
            final(self).duration_ms == old(self).duration_ms,
            final(self).status == (PlaybackStatus {
                canceling: old(self).status.canceling,
                done: meter.done,
                played_ms: (meter.consumed * 1000 / (rate as int)) as u64,
                underruns: meter.underruns,
            }),
    {
        self.observe(meter.done, duration_ms(meter.consumed, 1, rate), meter.underruns);
    }

    /// Asks the playback to stop. Nothing takes that back.
    pub fn cancel_now(&mut self)
        ensures
            final(self).file == old(self).file,
            final(self).duration_ms == old(self).duration_ms,
            final(self).status == (PlaybackStatus { canceling: true, ..old(self).status }),
    {
        self.status.canceling = true;
    }

    /// Whether the playback was asked to stop.
    pub fn is_canceling(&self) -> (yes: bool)
        ensures
            yes == self.status.canceling,
    {
        self.status.canceling
    }

    /// Whether all audio was played.
    pub fn done(&self) -> (yes: bool)
        ensures
            yes == self.status.done,
    {
        self.status.done
    }

    /// Milliseconds of audio actually played so far.
    pub fn elapsed_ms(&self) -> (ms: u64)
        ensures
            ms == self.status.played_ms,
    {
        self.status.played_ms
    }

    /// How many callbacks found too little to play.
    pub fn underruns(&self) -> (count: u64)
        ensures
            count == self.status.underruns,
    {
        self.status.underruns
    }

    /// Whether the playback has ended, or is to end.
    pub fn finished(&self) -> (yes: bool)
        ensures
            yes == self.status.ended(),
    {
        self.status.canceling || self.status.done
    }

    /// Whether the playback goes on.
    pub fn playing(&self) -> (yes: bool)
        ensures
            yes == !self.status.ended(),
    {
        !self.status.canceling && !self.status.done
    }
}

/// What the supervisor of a playback does next.
#[derive(Clone, Copy, Debug, PartialEq, Eq, Structural)]
pub enum SuperviseAction {
    /// Look again after [`WATCH_MS`].
    Watch,
    /// Leave the playback alone for [`GRACE_MS`].
    Grace,
    /// Stop the audio, and wait for the bulbs.
    Shutdown,
    /// Nothing more.
    Over,
}

/// Where the supervisor of a playback stands.
#[derive(Clone, Copy, Debug, PartialEq, Eq, Structural)]
pub enum Supervisor {
    /// The playback goes on.
    Watching,
    /// The playback ended by itself, and is to be shut down.
    Ending,
    /// The playback was shut down.
    Ended,
}

/// What the supervisor does, and where it stands after that.
pub open spec fn supervised(at: Supervisor, status: PlaybackStatus) -> (
    Supervisor,
    SuperviseAction,
) {
    match at {
        Supervisor::Watching => if !status.ended() {
            (Supervisor::Watching, SuperviseAction::Watch)
        } else if status.done && !status.canceling {
            (Supervisor::Ending, SuperviseAction::Grace)
        } else {
            (Supervisor::Ended, SuperviseAction::Shutdown)
        },
        Supervisor::Ending => (Supervisor::Ended, SuperviseAction::Shutdown),
        Supervisor::Ended => (Supervisor::Ended, SuperviseAction::Over),
    }
}

impl Supervisor {
    /// Decides what to do, given what the playback shows of itself now.
    pub fn supervise(&mut self, handle: &PlaybackHandle) -> (action: SuperviseAction)
        ensures
            (*final(self), action) == supervised(*old(self), handle.status),
    {
        match *self {
            Supervisor::Watching => {
                if !handle.finished() {
                    SuperviseAction::Watch
                } else if handle.done() && !handle.is_canceling() {
                    *self = Supervisor::Ending;
                    SuperviseAction::Grace
                } else {
                    *self = Supervisor::Ended;
                    SuperviseAction::Shutdown
                }
            },
            Supervisor::Ending => {
                *self = Supervisor::Ended;
                SuperviseAction::Shutdown
            },
            Supervisor::Ended => SuperviseAction::Over,
        }
    }
}

/// What a supervisor that stands at `at` does as the playback shows `seen`.
pub open spec fn supervision(at: Supervisor, seen: Seq<PlaybackStatus>) -> Seq<SuperviseAction>
    decreases seen.len(),
{
    if seen.len() == 0 {
        Seq::empty()
    } else {
        let (next, action) = supervised(at, seen[0]);
        seq![action] + supervision(next, seen.skip(1))
    }
}

/// Where a supervisor that stands at `at` stands after the playback showed `seen`.
pub open spec fn supervisor_after(at: Supervisor, seen: Seq<PlaybackStatus>) -> Supervisor
    decreases seen.len(),
{
    if seen.len() == 0 {
        at
    } else {
        supervisor_after(supervised(at, seen[0]).0, seen.skip(1))
    }
}

/// A playback is shut down once, and never twice, whatever it shows of itself.
pub proof fn a_playback_is_shut_down_once(at: Supervisor, seen: Seq<PlaybackStatus>)
    ensures
        supervision(at, seen).filter(|a: SuperviseAction| a is Shutdown).len() == if at !is Ended
            && supervisor_after(at, seen) is Ended {
            1int
        } else {
            0
        },
    decreases seen.len(),
{
    let pred = |a: SuperviseAction| a is Shutdown;
    if seen.len() > 0 {
        let (next, action) = supervised(at, seen[0]);
        a_playback_is_shut_down_once(next, seen.skip(1));
        Seq::filter_distributes_over_add(seq![action], supervision(next, seen.skip(1)), pred);
        order::lemma_filter_one(action, pred);
        if next is Ended {
            lemma_ended_stays(next, seen.skip(1));
        }
    } else {
        order::lemma_filter_none(supervision(at, seen), pred);
    }
}

proof fn lemma_ended_stays(at: Supervisor, seen: Seq<PlaybackStatus>)
    requires
        at is Ended,
    ensures
        supervisor_after(at, seen) is Ended,
    decreases seen.len(),
{
    if seen.len() > 0 {
        lemma_ended_stays(at, seen.skip(1));
    }
}

/// A playback that has ended is shut down at the next look, or, if it ended by itself, at the one
/// after it.
pub proof fn an_ended_playback_is_shut_down(first: PlaybackStatus, second: PlaybackStatus)
    requires
        first.ended(),
    ensures
        supervision(Supervisor::Watching, seq![first, second]) == if first.done
            && !first.canceling {
            seq![SuperviseAction::Grace, SuperviseAction::Shutdown]
        } else {
            seq![SuperviseAction::Shutdown, SuperviseAction::Over]
        },
{
    let seen = seq![first, second];
    assert(seen.skip(1) =~= seq![second]);
    assert(seen.skip(1).skip(1) =~= Seq::<PlaybackStatus>::empty());
    reveal_with_fuel(supervision, 3);
    assert(supervision(Supervisor::Watching, seen) =~= if first.done && !first.canceling {
        seq![SuperviseAction::Grace, SuperviseAction::Shutdown]
    } else {
        seq![SuperviseAction::Shutdown, SuperviseAction::Over]
    });
}

// ---------------------------------------------------------------------------------------------
// What holds of every playback
// ---------------------------------------------------------------------------------------------

/// A frame takes one sample of every channel, and an incomplete one does not count. Samples
/// without channels are frames themselves.
pub proof fn frames_take_a_sample_of_every_channel(samples: int, channels: int)
    requires
        0 <= samples,
        0 <= channels,
    ensures
        channels >= 1 ==> whole_frames(samples, channels) * channels <= samples < (whole_frames(
            samples,
            channels,
        ) + 1) * channels,
        channels == 0 ==> whole_frames(samples, channels) == samples,
{
    if channels >= 1 {
        let frames = whole_frames(samples, channels);
        vstd::arithmetic::div_mod::lemma_fundamental_div_mod(samples, channels);
        vstd::arithmetic::div_mod::lemma_mod_bound(samples, channels);
        assert(channels * frames == frames * channels && (frames + 1) * channels == frames
            * channels + channels) by (nonlinear_arith);
    }
}

/// Every device that has color or can be dimmed is driven, at its address and in its place, and
/// no other.
pub proof fn every_device_that_lights_up_is_driven(devices: Seq<Device>, next: Device)
    ensures
        bulb_addresses(Seq::empty()).len() == 0,
        bulb_addresses(devices.push(next)) == if next.is_color || next.is_dimmable {
            bulb_addresses(devices).push(next.ip)
        } else {
            bulb_addresses(devices)
        },
{
    let pred = |d: Device| d.lights_up();
    let address = |d: Device| d.ip;
    order::lemma_filter_none(Seq::<Device>::empty(), pred);
    devices.lemma_filter_push(next, pred);
    if pred(next) {
        assert(devices.filter(pred).push(next).map_values(address) =~= devices.filter(
            pred,
        ).map_values(address).push(next.ip));
    }
}

/// The commands that ramp in less than a tenth of a second are the flashes.
pub proof fn short_ramps_are_flashes(steps: Seq<LightStep>, next: LightStep)
    ensures
        flashes(Seq::empty()).len() == 0,
        flashes(steps.push(next)) == if next.transition_ms < 100 {
            flashes(steps).push(next)
        } else {
            flashes(steps)
        },
{
    let pred = |s: LightStep| s.transition_ms < FLASH_BELOW_MS;
    order::lemma_filter_none(Seq::<LightStep>::empty(), pred);
    steps.lemma_filter_push(next, pred);
}

/// A device is described by its address, model and name, and by what it can do.
pub proof fn a_line_tells_what_a_device_can_do(device: Device)
    ensures
        device.line_text() == device.ip@ + "\t"@ + device.model@ + "\t"@ + device.alias@
            + "\tcolor="@ + (if device.is_color {
            "yes"@
        } else {
            "no"@
        }) + "\tdimmable="@ + (if device.is_dimmable {
            "yes"@
        } else {
            "no"@
        }),
{
}

/// A look at a playback that goes on leads to another; one that finds it over by itself leads to
/// a time of grace, and one that finds it asked to stop to its end. After the grace it ends,
/// whatever it shows then, and after that nothing is done.
pub proof fn every_look_has_its_consequence(status: PlaybackStatus)
    ensures
        !status.done && !status.canceling <==> supervised(Supervisor::Watching, status).1 is Watch,
        status.done && !status.canceling <==> supervised(Supervisor::Watching, status).1 is Grace,
        status.canceling <==> supervised(Supervisor::Watching, status).1 is Shutdown,
        !status.done && !status.canceling <==> supervised(
            Supervisor::Watching,
            status,
        ).0 is Watching,
        status.done && !status.canceling <==> supervised(Supervisor::Watching, status).0 is Ending,
        status.canceling <==> supervised(Supervisor::Watching, status).0 is Ended,
        supervised(Supervisor::Ending, status) == (Supervisor::Ended, SuperviseAction::Shutdown),
        supervised(Supervisor::Ended, status) == (Supervisor::Ended, SuperviseAction::Over),
{
}

/// As long as a playback goes on it is watched, look after look, and nothing is done to it; what
/// happens then does not depend on how long that was.
pub proof fn a_playback_is_watched_while_it_goes_on(
    seen: Seq<PlaybackStatus>,
    rest: Seq<PlaybackStatus>,
)
    requires
        forall|i: int| 0 <= i < seen.len() ==> !(#[trigger] seen[i]).done && !seen[i].canceling,
    ensures
        supervision(Supervisor::Watching, seen + rest) == Seq::new(
            seen.len(),
            |i: int| SuperviseAction::Watch,
        ) + supervision(Supervisor::Watching, rest),
        supervisor_after(Supervisor::Watching, seen + rest) == supervisor_after(
            Supervisor::Watching,
            rest,
        ),
    decreases seen.len(),
{
    let all = seen + rest;
    let watched = Seq::new(seen.len(), |i: int| SuperviseAction::Watch);
    if seen.len() > 0 {
        let later = seen.skip(1);
        assert(!seen[0].done && !seen[0].canceling);
        assert forall|i: int| 0 <= i < later.len() implies !(#[trigger] later[i]).done
            && !later[i].canceling by {
            assert(later[i] == seen[i + 1]);
        }
        a_playback_is_watched_while_it_goes_on(later, rest);
        assert(all.skip(1) =~= later + rest);
        assert(all[0] == seen[0]);
        assert(supervision(Supervisor::Watching, all) =~= watched + supervision(
            Supervisor::Watching,
            rest,
        ));
    } else {
        assert(all =~= rest);
        assert(watched + supervision(Supervisor::Watching, rest) =~= supervision(
            Supervisor::Watching,
            rest,
        ));
    }
}

/// The errors say what is wrong.
pub proof fn errors_say_what_is_wrong(targets: usize)
    ensures
        NoBulbs::NoDevice.text()
            == "no Kasa devices answered discovery — pass --bulb <ip> or check the network"@,
        NoBulbs::OnlyOthers.text() == "discovered Kasa devices but none of them are bulbs"@,
        (NoUsableBulbs { targets }).text() == "no usable bulbs out of "@ + text::decimal(
            targets as nat,
        ) + " target(s); not playing"@,
{
}

} // verus!
