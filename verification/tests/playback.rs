//! Which bulbs are driven, when a playback starts and stops, and how each bulb is driven.

use bulbbeat::analyze::LightStep;
use bulbbeat::output::PlaybackShared;
use bulbbeat::playback::{
    credentials, duration_ms, resolve_bulbs, summarize, Device, NoBulbs, PlaybackHandle,
    PlanSummary, ReadyTally, Report, SuperviseAction, Supervisor,
};
use bulbbeat::scheduler::{
    command_for, lead_ns, BulbAction, BulbJoin, BulbRun, JoinAction, JoinEvent, LightCommand,
};

fn device(ip: &str, is_color: bool, is_dimmable: bool) -> Device {
    Device {
        ip: ip.to_string(),
        model: "KL130(US)".to_string(),
        alias: "Office Lamp".to_string(),
        is_color,
        is_dimmable,
    }
}

fn step(start_ms: u64, transition_ms: u32) -> LightStep {
    LightStep { start_ms, hue: 130, sat: 55, bri: 12, transition_ms }
}

#[test]
fn credentials_come_in_pairs() {
    assert!(credentials(None, None).unwrap().is_none());
    let both = credentials(Some("e".to_string()), Some("p".to_string())).unwrap().unwrap();
    assert_eq!(both.email, "e");
    assert_eq!(both.password, "p");
    let error = credentials(Some("e".to_string()), None).unwrap_err();
    assert_eq!(error.message(), "--email and --password must be given together");
    assert!(credentials(None, Some("p".to_string())).is_err());
}

#[test]
fn named_bulbs_are_driven() {
    let named = vec!["10.0.0.9".to_string()];
    assert_eq!(resolve_bulbs(named.clone(), &vec![device("10.0.0.1", true, true)]), Ok(named));
}

#[test]
fn without_names_every_bulb_is_driven() {
    let devices =
        vec![device("a", true, false), device("b", false, false), device("c", false, true)];
    assert_eq!(resolve_bulbs(vec![], &devices), Ok(vec!["a".to_string(), "c".to_string()]));
    assert_eq!(resolve_bulbs(vec![], &vec![]), Err(NoBulbs::NoDevice));
    assert_eq!(
        resolve_bulbs(vec![], &vec![device("b", false, false)]),
        Err(NoBulbs::OnlyOthers)
    );
    assert_eq!(
        NoBulbs::NoDevice.message(),
        "no Kasa devices answered discovery — pass --bulb <ip> or check the network"
    );
    assert_eq!(
        NoBulbs::OnlyOthers.message(),
        "discovered Kasa devices but none of them are bulbs"
    );
}

#[test]
fn a_device_in_one_line() {
    assert_eq!(
        device("192.168.1.83", true, false).line(),
        "192.168.1.83\tKL130(US)\tOffice Lamp\tcolor=yes\tdimmable=no"
    );
}

#[test]
fn durations_count_whole_frames() {
    assert_eq!(duration_ms(44_100 * 2 * 3, 2, 44_100), 3000);
    assert_eq!(duration_ms(8004, 1, 8000), 1000);
    assert_eq!(duration_ms(8004, 0, 8000), 1000);
    assert_eq!(duration_ms(7, 4, 1), 1000);
}

#[test]
fn a_plan_is_summed_up() {
    let steps = vec![step(0, 900), step(100, 40), step(330, 380), step(500, 99), step(600, 100)];
    assert_eq!(
        summarize(&steps, 61_999),
        PlanSummary { minutes: 1, seconds: 1, commands: 5, flashes: 2, per_second: 0 }
    );
    assert_eq!(summarize(&steps, 1000).per_second, 5);
    assert_eq!(summarize(&steps, 0).per_second, 5);
}

#[test]
fn a_playback_needs_one_bulb() {
    let mut tally = ReadyTally::new(3);
    tally.record(Report::Unavailable);
    assert!(tally.waits());
    tally.record(Report::Ready);
    tally.record(Report::Unavailable);
    assert!(!tally.waits());
    assert!(tally.verdict().is_ok());

    let mut none = ReadyTally::new(2);
    none.record(Report::Unavailable);
    none.record(Report::Closed);
    assert!(!none.waits());
    assert_eq!(
        none.verdict().unwrap_err().message(),
        "no usable bulbs out of 2 target(s); not playing"
    );
}

#[test]
fn a_playback_shows_how_far_it_has_got() {
    let mut handle = PlaybackHandle::new("song.mp3".to_string(), 3000);
    assert!(handle.playing() && !handle.finished());
    assert_eq!(handle.elapsed_ms(), 0);
    handle.observe(false, 1200, 2);
    assert_eq!(handle.elapsed_ms(), 1200);
    assert_eq!(handle.underruns(), 2);
    handle.cancel_now();
    assert!(handle.is_canceling() && handle.finished() && !handle.playing());
    handle.observe(true, 3000, 2);
    assert!(handle.is_canceling() && handle.done());
}

#[test]
fn a_playback_watches_its_audio() {
    let mut shared: PlaybackShared<i32, u64> = PlaybackShared::new(4);
    shared.extend(&[1, 2, 3, 4, 5, 6]);
    let mut handle = PlaybackHandle::new("song.mp3".to_string(), 2000);
    let mut out = [0; 6];
    shared.pull(3, 2, 0, 0, &mut out);
    shared.pull(3, 2, 1, 0, &mut out);
    let meter = shared.meter();
    assert_eq!(meter.consumed, 3);
    assert_eq!(meter.t0, Some(0));
    handle.watch(&meter, 2);
    assert_eq!(handle.elapsed_ms(), 1500);
    assert_eq!(handle.underruns(), 1);
    assert!(handle.playing());
}

#[test]
fn a_playback_that_ends_gets_a_grace() {
    let mut handle = PlaybackHandle::new("song.mp3".to_string(), 3000);
    let mut supervisor = Supervisor::Watching;
    assert_eq!(supervisor.supervise(&handle), SuperviseAction::Watch);
    handle.observe(true, 3000, 0);
    assert_eq!(supervisor.supervise(&handle), SuperviseAction::Grace);
    assert_eq!(supervisor.supervise(&handle), SuperviseAction::Shutdown);
    assert_eq!(supervisor.supervise(&handle), SuperviseAction::Over);
}

#[test]
fn a_playback_that_is_stopped_is_shut_down_at_once() {
    let mut handle = PlaybackHandle::new("song.mp3".to_string(), 3000);
    let mut supervisor = Supervisor::Watching;
    handle.observe(true, 3000, 0);
    handle.cancel_now();
    assert_eq!(supervisor.supervise(&handle), SuperviseAction::Shutdown);
    assert_eq!(supervisor.supervise(&handle), SuperviseAction::Over);
}

#[test]
fn the_lead_is_half_a_round_trip_and_a_bit() {
    assert_eq!(lead_ns(None, 10_000_000), 30_000_000);
    assert_eq!(lead_ns(Some(7), 10_000_000), 7_000_000);
    assert_eq!(lead_ns(Some(0), 10_000_000), 0);
}

#[test]
fn bulbs_without_color_get_brightness() {
    let shown = step(0, 900);
    assert_eq!(
        command_for(&shown, true),
        LightCommand::Hsv { hue: 130, sat: 55, bri: 12, transition_ms: 900 }
    );
    assert_eq!(
        command_for(&shown, false),
        LightCommand::Brightness { bri: 12, transition_ms: 900 }
    );
}

#[test]
fn a_bulb_reports_once() {
    let mut join = BulbJoin::new(None);
    assert_eq!(join.next(JoinEvent::Done), JoinAction::Connect);
    assert_eq!(join.next(JoinEvent::Done), JoinAction::Probe);
    assert_eq!(
        join.next(JoinEvent::RoundTrip { ns: 4_000_000 }),
        JoinAction::Ready { lead_ns: 27_000_000 }
    );
    assert_eq!(join.next(JoinEvent::Failed), JoinAction::Settled);
}

#[test]
fn a_told_lead_is_not_measured() {
    let mut join = BulbJoin::new(Some(50));
    assert_eq!(join.next(JoinEvent::Done), JoinAction::Connect);
    assert_eq!(join.next(JoinEvent::Done), JoinAction::Ready { lead_ns: 50_000_000 });
}

#[test]
fn a_bulb_that_fails_is_unusable() {
    let mut join = BulbJoin::new(None);
    join.next(JoinEvent::Done);
    assert_eq!(join.next(JoinEvent::Failed), JoinAction::Unusable);
    assert_eq!(join.next(JoinEvent::Done), JoinAction::Settled);

    let mut probed = BulbJoin::new(None);
    probed.next(JoinEvent::Done);
    probed.next(JoinEvent::Done);
    assert_eq!(probed.next(JoinEvent::Failed), JoinAction::Unusable);
}

fn send(due_ns: i128) -> BulbAction {
    BulbAction::Send { due_ns, command: command_for(&step(0, 900), true) }
}

#[test]
fn an_undisturbed_run() {
    let steps = vec![step(0, 900), step(1000, 900)];
    let mut run = BulbRun::new(steps, 30_000_000, true, true);
    assert_eq!(run.next(false, false), BulbAction::Poll);
    assert_eq!(run.next(true, false), send(-30_000_000));
    assert_eq!(run.next(true, false), send(970_000_000));
    assert_eq!(run.next(true, false), BulbAction::LetRampFinish);
    assert_eq!(run.next(true, false), BulbAction::Restore);
    assert_eq!(run.next(true, false), BulbAction::Finish);
}

#[test]
fn a_run_that_is_stopped_sends_no_more() {
    let mut run = BulbRun::new(vec![step(0, 900), step(1000, 900)], 0, true, true);
    assert_eq!(run.next(true, false), send(0));
    assert_eq!(run.next(true, true), BulbAction::Restore);
    assert_eq!(run.next(true, true), BulbAction::Finish);
}

#[test]
fn a_run_that_never_starts_restores() {
    let mut run = BulbRun::new(vec![step(0, 900)], 0, true, true);
    assert_eq!(run.next(false, true), BulbAction::Restore);
    assert_eq!(run.next(false, true), BulbAction::Finish);
    let mut left = BulbRun::new(vec![step(0, 900)], 0, true, false);
    assert_eq!(left.next(false, true), BulbAction::Finish);
}

#[test]
fn a_run_that_does_not_restore_just_ends() {
    let mut run = BulbRun::new(vec![step(0, 900)], 0, false, false);
    assert_eq!(
        run.next(true, false),
        BulbAction::Send {
            due_ns: 0,
            command: LightCommand::Brightness { bri: 12, transition_ms: 900 }
        }
    );
    assert_eq!(run.next(true, false), BulbAction::Finish);
}
