//! Driving one bulb: every light command is sent ahead of the audio it belongs to.

use crate::analyze::LightStep;
use crate::order;
use vstd::prelude::*;

verus! {

/// What a command is sent ahead by, besides half a round trip.
pub const LEAD_BASE_MS: u64 = 25;

/// How often the audio clock origin is looked for.
pub const T0_POLL_MS: u64 = 10;

/// How long the ramp of the last command is left to finish before the bulb is restored.
pub const RESTORE_TAIL_MS: u64 = 1000;

/// Nanoseconds in a millisecond.
pub const NS_PER_MS: u64 = 1_000_000;

// ---------------------------------------------------------------------------------------------
// Timing
// ---------------------------------------------------------------------------------------------

/// How far ahead of the audio commands are sent: as told, or half a round trip and a bit.
pub open spec fn lead_of(told_ms: Option<u64>, round_trip_ns: int) -> int {
    match told_ms {
        Some(ms) => ms * NS_PER_MS,
        None => round_trip_ns / 2 + LEAD_BASE_MS * NS_PER_MS,
    }
}

/// How far ahead of the audio commands are sent, in nanoseconds: `told_ms`, or half a round trip
/// and a bit.
pub fn lead_ns(told_ms: Option<u64>, round_trip_ns: u64) -> (lead: u128)
    ensures
        lead == lead_of(told_ms, round_trip_ns as int),
        lead <= i128::MAX,
        told_ms matches Some(ms) ==> lead == ms * 1_000_000,
        told_ms is None ==> lead == round_trip_ns / 2 + 25_000_000,
{
    match told_ms {
        Some(ms) => ms as u128 * NS_PER_MS as u128,
        None => (round_trip_ns / 2) as u128 + (LEAD_BASE_MS * NS_PER_MS) as u128,
    }
}

/// When a command that starts at `start_ms` is sent, in nanoseconds after the audio clock origin.
pub open spec fn due(start_ms: u64, lead: int) -> int {
    start_ms * NS_PER_MS - lead
}

// ---------------------------------------------------------------------------------------------
// Joining
// ---------------------------------------------------------------------------------------------

/// What a bulb that is to join is asked, and what is told of it.
#[derive(Clone, Copy, Debug, PartialEq, Eq, Structural)]
pub enum JoinAction {
    /// Connect to the bulb.
    Connect,
    /// Measure the round trip to the bulb.
    Probe,
    /// Tell that the bulb joined; its commands are sent so far ahead.
    Ready { lead_ns: u128 },
    /// Tell that the bulb cannot be used.
    Unusable,
    /// Nothing more.
    Settled,
}

/// What came of the last thing that a bulb was asked.
#[derive(Clone, Copy, Debug, PartialEq, Eq, Structural)]
pub enum JoinEvent {
    /// It was done.
    Done,
    /// The round trip took so long.
    RoundTrip { ns: u64 },
    /// It failed.
    Failed,
}

/// How far a bulb has got with joining.
#[derive(Clone, Copy, Debug, PartialEq, Eq, Structural)]
pub enum JoinPhase {
    Fresh,
    Connecting,
    Probing,
    Told,
}

/// What is done next, and how far the bulb has got by that. The round trip is measured unless
/// the lead was told.
pub open spec fn joined(told_ms: Option<u64>, phase: JoinPhase, event: JoinEvent) -> (
    JoinPhase,
    JoinAction,
) {
    match (phase, event) {
        (JoinPhase::Fresh, _) => (JoinPhase::Connecting, JoinAction::Connect),
        (JoinPhase::Told, _) => (JoinPhase::Told, JoinAction::Settled),
        (_, JoinEvent::Failed) => (JoinPhase::Told, JoinAction::Unusable),
        (JoinPhase::Connecting, _) => if told_ms is Some {
            (JoinPhase::Told, JoinAction::Ready { lead_ns: lead_of(told_ms, 0) as u128 })
        } else {
            (JoinPhase::Probing, JoinAction::Probe)
        },
        (JoinPhase::Probing, JoinEvent::RoundTrip { ns }) => (
            JoinPhase::Told,
            JoinAction::Ready { lead_ns: lead_of(told_ms, ns as int) as u128 },
        ),
        (JoinPhase::Probing, JoinEvent::Done) => (JoinPhase::Probing, JoinAction::Probe),
    }
}

/// Lets one bulb join.
#[derive(Clone, Copy, Debug, PartialEq, Eq, Structural)]
pub struct BulbJoin {
    pub told_ms: Option<u64>,
    pub phase: JoinPhase,
}

impl BulbJoin {
    /// A bulb that nothing was asked yet.
    pub fn new(told_ms: Option<u64>) -> (join: Self)
        ensures
            join == (BulbJoin { told_ms, phase: JoinPhase::Fresh }),
    {
        BulbJoin { told_ms, phase: JoinPhase::Fresh }
    }

    /// Decides what to do next, after `event`.
    pub fn next(&mut self, event: JoinEvent) -> (action: JoinAction)
        ensures
            final(self).told_ms == old(self).told_ms,
            (final(self).phase, action) == joined(old(self).told_ms, old(self).phase, event),
    {
        match (self.phase, event) {
            (JoinPhase::Fresh, _) => {
                self.phase = JoinPhase::Connecting;
                JoinAction::Connect
            },
            (JoinPhase::Told, _) => JoinAction::Settled,
            (_, JoinEvent::Failed) => {
                self.phase = JoinPhase::Told;
                JoinAction::Unusable
            },
            (JoinPhase::Connecting, _) => {
                if self.told_ms.is_some() {
                    self.phase = JoinPhase::Told;
                    JoinAction::Ready { lead_ns: lead_ns(self.told_ms, 0) }
                } else {
                    self.phase = JoinPhase::Probing;
                    JoinAction::Probe
                }
            },
            (JoinPhase::Probing, JoinEvent::RoundTrip { ns }) => {
                self.phase = JoinPhase::Told;
                JoinAction::Ready { lead_ns: lead_ns(self.told_ms, ns) }
            },
            (JoinPhase::Probing, JoinEvent::Done) => JoinAction::Probe,
        }
    }
}

/// What is done from `phase` on, as `events` come in.
pub open spec fn joining(told_ms: Option<u64>, phase: JoinPhase, events: Seq<JoinEvent>) -> Seq<
    JoinAction,
>
    decreases events.len(),
{
    if events.len() == 0 {
        Seq::empty()
    } else {
        let (next, action) = joined(told_ms, phase, events[0]);
        seq![action] + joining(told_ms, next, events.skip(1))
    }
}

/// How far a bulb has got after `events`.
pub open spec fn join_after(told_ms: Option<u64>, phase: JoinPhase, events: Seq<JoinEvent>) -> JoinPhase
    decreases events.len(),
{
    if events.len() == 0 {
        phase
    } else {
        join_after(told_ms, joined(told_ms, phase, events[0]).0, events.skip(1))
    }
}

/// What is told of a bulb.
pub open spec fn reports(actions: Seq<JoinAction>) -> Seq<JoinAction> {
    actions.filter(|a: JoinAction| a is Ready || a is Unusable)
}

/// It is told exactly once whether a bulb joined, and not before that is settled.
pub proof fn a_bulb_reports_once(told_ms: Option<u64>, phase: JoinPhase, events: Seq<JoinEvent>)
    ensures
        reports(joining(told_ms, phase, events)).len() == if phase !is Told && join_after(
            told_ms,
            phase,
            events,
        ) is Told {
            1int
        } else {
            0
        },
    decreases events.len(),
{
    let pred = |a: JoinAction| a is Ready || a is Unusable;
    if events.len() > 0 {
        let (next, action) = joined(told_ms, phase, events[0]);
        let rest = joining(told_ms, next, events.skip(1));
        order::lemma_filter_prepend(rest, action, pred);
        a_bulb_reports_once(told_ms, next, events.skip(1));
        if next is Told {
            lemma_told_stays(told_ms, events.skip(1));
        }
    } else {
        order::lemma_filter_none(joining(told_ms, phase, events), pred);
    }
}

proof fn lemma_told_stays(told_ms: Option<u64>, events: Seq<JoinEvent>)
    ensures
        join_after(told_ms, JoinPhase::Told, events) is Told,
    decreases events.len(),
{
    if events.len() > 0 {
        lemma_told_stays(told_ms, events.skip(1));
    }
}

// ---------------------------------------------------------------------------------------------
// Commands
// ---------------------------------------------------------------------------------------------

/// What is sent to a bulb.
#[derive(Clone, Copy, Debug, PartialEq, Eq, Structural)]
pub enum LightCommand {
    /// Color and brightness.
    Hsv { hue: u16, sat: u8, bri: u8, transition_ms: u32 },
    /// Brightness alone, for a bulb without color.
    Brightness { bri: u8, transition_ms: u32 },
}

/// The command that shows `step` on a bulb.
pub open spec fn command_of(step: LightStep, color: bool) -> LightCommand {
    if color {
        LightCommand::Hsv {
            hue: step.hue,
            sat: step.sat,
            bri: step.bri,
            transition_ms: step.transition_ms,
        }
    } else {
        LightCommand::Brightness { bri: step.bri, transition_ms: step.transition_ms }
    }
}

/// The command that shows `step` on a bulb, with color or without.
pub fn command_for(step: &LightStep, color: bool) -> (command: LightCommand)
    ensures
        command == command_of(*step, color),
{
    if color {
        LightCommand::Hsv {
            hue: step.hue,
            sat: step.sat,
            bri: step.bri,
            transition_ms: step.transition_ms,
        }
    } else {
        LightCommand::Brightness { bri: step.bri, transition_ms: step.transition_ms }
    }
}

// ---------------------------------------------------------------------------------------------
// The run of one bulb
// ---------------------------------------------------------------------------------------------

/// What the driver of a bulb does next.
#[derive(Clone, Copy, Debug, PartialEq, Eq, Structural)]
pub enum BulbAction {
    /// Look for the audio clock origin again after [`T0_POLL_MS`].
    Poll,
    /// Wait until `due_ns` nanoseconds after the audio clock origin, if that is still to come,
    /// and send the command. If it cannot be sent, that is all: a stale color is worse than a
    /// missed one.
    Send { due_ns: i128, command: LightCommand },
    /// Wait for [`RESTORE_TAIL_MS`].
    LetRampFinish,
    /// Put the bulb back as it was found.
    Restore,
    /// Nothing more.
    Finish,
}

/// How far the driver of a bulb has got.
#[derive(Clone, Copy, Debug, PartialEq, Eq, Structural)]
pub enum Phase {
    /// Audio has not started.
    Waiting,
    /// So many commands were sent.
    Sending(usize),
    /// All commands were sent; the bulb is to be restored.
    Restoring,
    /// Nothing is left to do.
    Finished,
}

/// What drives a bulb: the commands of the track, how far ahead they are sent, whether the bulb
/// has color, and whether it is restored in the end.
pub struct BulbPlan {
    pub steps: Seq<LightStep>,
    pub lead: int,
    pub color: bool,
    pub restore: bool,
}

/// What is done once no more commands are sent.
pub open spec fn wound_up(plan: BulbPlan, canceled: bool) -> (Phase, BulbAction) {
    if !plan.restore {
        (Phase::Finished, BulbAction::Finish)
    } else if canceled {
        (Phase::Finished, BulbAction::Restore)
    } else {
        (Phase::Restoring, BulbAction::LetRampFinish)
    }
}

/// What is done after `sent` commands.
pub open spec fn sent_on(plan: BulbPlan, sent: int, canceled: bool) -> (Phase, BulbAction) {
    if canceled || sent >= plan.steps.len() {
        wound_up(plan, canceled)
    } else {
        (
            Phase::Sending((sent + 1) as usize),
            BulbAction::Send {
                due_ns: due(plan.steps[sent].start_ms, plan.lead) as i128,
                command: command_of(plan.steps[sent], plan.color),
            },
        )
    }
}

/// What the driver does next, and how far it has got by that: `started` says whether the audio
/// clock origin is known, `canceled` whether the playback was asked to stop.
pub open spec fn driven(plan: BulbPlan, phase: Phase, started: bool, canceled: bool) -> (
    Phase,
    BulbAction,
) {
    match phase {
        Phase::Waiting => if started {
            sent_on(plan, 0, canceled)
        } else if !canceled {
            (Phase::Waiting, BulbAction::Poll)
        } else if plan.restore {
            (Phase::Finished, BulbAction::Restore)
        } else {
            (Phase::Finished, BulbAction::Finish)
        },
        Phase::Sending(sent) => sent_on(plan, sent as int, canceled),
        Phase::Restoring => (Phase::Finished, BulbAction::Restore),
        Phase::Finished => (Phase::Finished, BulbAction::Finish),
    }
}

/// Drives one bulb through a playback.
pub struct BulbRun {
    steps: Vec<LightStep>,
    lead: u128,
    color: bool,
    restore: bool,
    phase: Phase,
}

impl BulbRun {
    /// What drives the bulb.
    pub closed spec fn plan(self) -> BulbPlan {
        BulbPlan {
            steps: self.steps@,
            lead: self.lead as int,
            color: self.color,
            restore: self.restore,
        }
    }

    /// How far the driver has got.
    pub closed spec fn at(self) -> Phase {
        self.phase
    }

    /// The lead is one that can be timed.
    pub open spec fn timeable(self) -> bool {
        0 <= self.plan().lead <= i128::MAX
    }

    /// A driver that waits for the audio to start.
    pub fn new(steps: Vec<LightStep>, lead: u128, color: bool, restore: bool) -> (run: Self)
        requires
            lead <= i128::MAX,
        ensures
            run.timeable(),
            run.plan() == (BulbPlan { steps: steps@, lead: lead as int, color, restore }),
            run.at() == Phase::Waiting,
    {
        BulbRun { steps, lead, color, restore, phase: Phase::Waiting }
    }

    /// Decides what to do next.
    pub fn next(&mut self, started: bool, canceled: bool) -> (action: BulbAction)
        requires
            old(self).timeable(),
        ensures
            final(self).timeable(),
            final(self).plan() == old(self).plan(),
            (final(self).at(), action) == driven(
                old(self).plan(),
                old(self).at(),
                started,
                canceled,
            ),
            action matches BulbAction::Send { due_ns, .. } ==> due_ns + old(self).plan().lead
                == old(self).plan().steps[sent_by(old(self).at())].start_ms * 1_000_000,
    {
        match self.phase {
            Phase::Waiting => {
                if started {
                    self.send_on(0, canceled)
                } else if !canceled {
                    BulbAction::Poll
                } else {
                    self.phase = Phase::Finished;
                    if self.restore {
                        BulbAction::Restore
                    } else {
                        BulbAction::Finish
                    }
                }
            },
            Phase::Sending(sent) => self.send_on(sent, canceled),
            Phase::Restoring => {
                self.phase = Phase::Finished;
                BulbAction::Restore
            },
            Phase::Finished => BulbAction::Finish,
        }
    }

    fn send_on(&mut self, sent: usize, canceled: bool) -> (action: BulbAction)
        requires
            old(self).timeable(),
        ensures
            final(self).timeable(),
            final(self).plan() == old(self).plan(),
            (final(self).at(), action) == sent_on(old(self).plan(), sent as int, canceled),
            action matches BulbAction::Send { due_ns, .. } ==> due_ns + old(self).plan().lead
                == old(self).plan().steps[sent as int].start_ms * 1_000_000,
    {
        if canceled || sent >= self.steps.len() {
            if !self.restore {
                self.phase = Phase::Finished;
                return BulbAction::Finish;
            }
            if canceled {
                self.phase = Phase::Finished;
                return BulbAction::Restore;
            }
            self.phase = Phase::Restoring;
            return BulbAction::LetRampFinish;
        }
        let step = self.steps[sent];
        self.phase = Phase::Sending(sent + 1);
        let start_ns: i128 = step.start_ms as i128 * NS_PER_MS as i128;
        BulbAction::Send {
            due_ns: start_ns - self.lead as i128,
            command: command_for(&step, self.color),
        }
    }
}

// ---------------------------------------------------------------------------------------------
// What holds of every run
// ---------------------------------------------------------------------------------------------

/// What the driver does from `phase` on, as it sees `seen`: at each look, whether audio has
/// started and whether the playback was asked to stop.
pub open spec fn run_of(plan: BulbPlan, phase: Phase, seen: Seq<(bool, bool)>) -> Seq<BulbAction>
    decreases seen.len(),
{
    if seen.len() == 0 {
        Seq::empty()
    } else {
        let (next, action) = driven(plan, phase, seen[0].0, seen[0].1);
        seq![action] + run_of(plan, next, seen.skip(1))
    }
}

/// How far the driver has got after it saw `seen`.
pub open spec fn phase_after(plan: BulbPlan, phase: Phase, seen: Seq<(bool, bool)>) -> Phase
    decreases seen.len(),
{
    if seen.len() == 0 {
        phase
    } else {
        phase_after(plan, driven(plan, phase, seen[0].0, seen[0].1).0, seen.skip(1))
    }
}

/// What is sent to a bulb.
pub open spec fn sends(actions: Seq<BulbAction>) -> Seq<BulbAction> {
    actions.filter(|a: BulbAction| a is Send)
}

/// How often the bulb is restored.
pub open spec fn restores(actions: Seq<BulbAction>) -> Seq<BulbAction> {
    actions.filter(|a: BulbAction| a is Restore)
}

/// Sending the commands `from` to `to`, each in time.
pub open spec fn sent_in_time(plan: BulbPlan, from: int, to: int) -> Seq<BulbAction> {
    Seq::new(
        (to - from) as nat,
        |k: int|
            BulbAction::Send {
                due_ns: due(plan.steps[from + k].start_ms, plan.lead) as i128,
                command: command_of(plan.steps[from + k], plan.color),
            },
    )
}

/// How many commands were sent by the time the driver got to `phase`, if it says so.
pub open spec fn sent_by(phase: Phase) -> int {
    match phase {
        Phase::Sending(sent) => sent as int,
        _ => 0,
    }
}

/// The commands still to be sent are at hand.
pub open spec fn on_course(plan: BulbPlan, phase: Phase) -> bool {
    plan.steps.len() <= usize::MAX && sent_by(phase) <= plan.steps.len()
}

/// Sending the next command, and then those after it.
proof fn lemma_next_sent_in_time(
    plan: BulbPlan,
    phase: Phase,
    started: bool,
    canceled: bool,
    to: int,
)
    requires
        on_course(plan, phase),
        driven(plan, phase, started, canceled).1 is Send,
        sent_by(driven(plan, phase, started, canceled).0) <= to <= plan.steps.len(),
    ensures
        sent_by(driven(plan, phase, started, canceled).0) == sent_by(phase) + 1,
        sent_in_time(plan, sent_by(phase), to) == seq![driven(plan, phase, started, canceled).1]
            + sent_in_time(plan, sent_by(phase) + 1, to),
{
    let from = sent_by(phase);
    let action = driven(plan, phase, started, canceled).1;
    assert(sent_in_time(plan, from, to) =~= seq![action] + sent_in_time(plan, from + 1, to));
}

/// Commands are sent in the order of the plan, each once and none left out before the last one
/// sent, each as far ahead of its audio as the lead says.
#[verifier::spinoff_prover]
pub proof fn commands_are_sent_in_order(plan: BulbPlan, phase: Phase, seen: Seq<(bool, bool)>)
    requires
        on_course(plan, phase),
    ensures
        exists|to: int|
            sent_by(phase) <= to <= plan.steps.len() && #[trigger] sent_in_time(
                plan,
                sent_by(phase),
                to,
            ) == sends(run_of(plan, phase, seen)),
    decreases seen.len(),
{
    let pred = |a: BulbAction| a is Send;
    let from = sent_by(phase);
    if seen.len() > 0 {
        let (next, action) = driven(plan, phase, seen[0].0, seen[0].1);
        let rest = run_of(plan, next, seen.skip(1));
        order::lemma_filter_prepend(rest, action, pred);
        commands_are_sent_in_order(plan, next, seen.skip(1));
        let to = choose|to: int|
            sent_by(next) <= to <= plan.steps.len() && #[trigger] sent_in_time(
                plan,
                sent_by(next),
                to,
            ) == sends(rest);
        if action is Send {
            lemma_next_sent_in_time(plan, phase, seen[0].0, seen[0].1, to);
            assert(sent_in_time(plan, from, to) == sends(run_of(plan, phase, seen)));
        } else if phase is Waiting && next is Waiting {
            assert(sent_in_time(plan, from, to) == sends(run_of(plan, phase, seen)));
        } else {
            lemma_no_more_sends(plan, next, seen.skip(1));
            assert(sent_in_time(plan, from, from) =~= Seq::<BulbAction>::empty());
        }
    } else {
        order::lemma_filter_none(run_of(plan, phase, seen), pred);
        assert(sent_in_time(plan, from, from) =~= Seq::<BulbAction>::empty());
    }
}

proof fn lemma_no_more_sends(plan: BulbPlan, phase: Phase, seen: Seq<(bool, bool)>)
    requires
        phase is Restoring || phase is Finished,
    ensures
        sends(run_of(plan, phase, seen)) == Seq::<BulbAction>::empty(),
    decreases seen.len(),
{
    let pred = |a: BulbAction| a is Send;
    if seen.len() > 0 {
        let (next, action) = driven(plan, phase, seen[0].0, seen[0].1);
        lemma_no_more_sends(plan, next, seen.skip(1));
        order::lemma_filter_prepend(run_of(plan, next, seen.skip(1)), action, pred);
    } else {
        order::lemma_filter_none(run_of(plan, phase, seen), pred);
    }
}

/// Once the driver sees that the playback was asked to stop, it sends no command any more.
pub proof fn nothing_is_sent_after_cancel(plan: BulbPlan, phase: Phase, seen: Seq<(bool, bool)>)
    requires
        seen.len() > 0,
        seen[0].1,
    ensures
        sends(run_of(plan, phase, seen)) == Seq::<BulbAction>::empty(),
{
    let pred = |a: BulbAction| a is Send;
    let (next, action) = driven(plan, phase, seen[0].0, seen[0].1);
    order::lemma_filter_prepend(run_of(plan, next, seen.skip(1)), action, pred);
    lemma_no_more_sends(plan, next, seen.skip(1));
}

/// Once the driver sees that the playback was asked to stop, it restores the bulb if it is to,
/// and has finished.
pub proof fn a_stopped_run_ends_at_once(plan: BulbPlan, phase: Phase, started: bool)
    ensures
        driven(plan, phase, started, true).0 is Finished,
        plan.restore && phase !is Finished ==> driven(plan, phase, started, true).1 is Restore,
{
}

/// As long as audio has not started, nothing is sent.
pub proof fn nothing_is_sent_before_the_audio(plan: BulbPlan, seen: Seq<(bool, bool)>)
    requires
        forall|i: int| 0 <= i < seen.len() ==> !(#[trigger] seen[i]).0,
    ensures
        sends(run_of(plan, Phase::Waiting, seen)) == Seq::<BulbAction>::empty(),
    decreases seen.len(),
{
    let pred = |a: BulbAction| a is Send;
    if seen.len() > 0 {
        assert(!seen[0].0);
        let (next, action) = driven(plan, Phase::Waiting, seen[0].0, seen[0].1);
        order::lemma_filter_prepend(run_of(plan, next, seen.skip(1)), action, pred);
        if next is Waiting {
            nothing_is_sent_before_the_audio(plan, seen.skip(1));
        } else {
            lemma_no_more_sends(plan, next, seen.skip(1));
        }
    } else {
        order::lemma_filter_none(run_of(plan, Phase::Waiting, seen), pred);
    }
}

/// A bulb is restored exactly once by the time its driver has finished, if it is to be restored,
/// and never otherwise: whether the track was played to its end, was stopped, or never started.
pub proof fn a_bulb_is_restored_once(plan: BulbPlan, phase: Phase, seen: Seq<(bool, bool)>)
    ensures
        restores(run_of(plan, phase, seen)).len() == if (plan.restore || phase is Restoring)
            && phase !is Finished && phase_after(plan, phase, seen) is Finished {
            1int
        } else {
            0
        },
    decreases seen.len(),
{
    let pred = |a: BulbAction| a is Restore;
    if seen.len() > 0 {
        let (next, action) = driven(plan, phase, seen[0].0, seen[0].1);
        order::lemma_filter_prepend(run_of(plan, next, seen.skip(1)), action, pred);
        a_bulb_is_restored_once(plan, next, seen.skip(1));
        if next is Finished {
            lemma_finished_stays(plan, seen.skip(1));
        }
    } else {
        order::lemma_filter_none(run_of(plan, phase, seen), pred);
    }
}

proof fn lemma_finished_stays(plan: BulbPlan, seen: Seq<(bool, bool)>)
    ensures
        phase_after(plan, Phase::Finished, seen) is Finished,
    decreases seen.len(),
{
    if seen.len() > 0 {
        lemma_finished_stays(plan, seen.skip(1));
    }
}

/// A playback that is not stopped sends every command, lets the last ramp finish, restores the
/// bulb if it is to, and finishes.
pub proof fn an_undisturbed_run_is_complete(plan: BulbPlan, sent: int, seen: Seq<(bool, bool)>)
    requires
        plan.steps.len() <= usize::MAX,
        0 <= sent <= plan.steps.len(),
        seen.len() == plan.steps.len() - sent + 3,
        forall|i: int| 0 <= i < seen.len() ==> (#[trigger] seen[i]).0 && !seen[i].1,
    ensures
        run_of(plan, Phase::Sending(sent as usize), seen) == sent_in_time(
            plan,
            sent,
            plan.steps.len() as int,
        ) + if plan.restore {
            seq![BulbAction::LetRampFinish, BulbAction::Restore, BulbAction::Finish]
        } else {
            seq![BulbAction::Finish, BulbAction::Finish, BulbAction::Finish]
        },
    decreases plan.steps.len() - sent,
{
    let n = plan.steps.len() as int;
    let phase = Phase::Sending(sent as usize);
    let ending = if plan.restore {
        seq![BulbAction::LetRampFinish, BulbAction::Restore, BulbAction::Finish]
    } else {
        seq![BulbAction::Finish, BulbAction::Finish, BulbAction::Finish]
    };
    assert(seen[0].0 && !seen[0].1);
    if sent < n {
        let (next, action) = driven(plan, phase, seen[0].0, seen[0].1);
        assert forall|i: int| 0 <= i < seen.skip(1).len() implies (#[trigger] seen.skip(1)[i]).0
            && !seen.skip(1)[i].1 by {
            assert(seen[i + 1].0 && !seen[i + 1].1);
        }
        an_undisturbed_run_is_complete(plan, sent + 1, seen.skip(1));
        assert(sent_in_time(plan, sent, n) =~= seq![action] + sent_in_time(plan, sent + 1, n));
        assert(run_of(plan, phase, seen) =~= sent_in_time(plan, sent, n) + ending);
    } else {
        reveal_with_fuel(run_of, 4);
        assert(seen.skip(1).skip(1).skip(1).len() == 0);
        assert(sent_in_time(plan, sent, n) =~= Seq::<BulbAction>::empty());
        assert(run_of(plan, phase, seen) =~= sent_in_time(plan, sent, n) + ending);
    }
}

// ---------------------------------------------------------------------------------------------
// When commands are sent, and what they say
// ---------------------------------------------------------------------------------------------

/// A command is sent exactly the lead before its audio: `due_ns` and the lead together are the
/// nanoseconds of its start. It shows what its step shows, as far as the bulb can, and the next
/// command in line is sent whenever there is one and nothing stops it.
pub proof fn commands_are_sent_the_lead_ahead(
    plan: BulbPlan,
    phase: Phase,
    started: bool,
    canceled: bool,
)
    requires
        0 <= plan.lead <= i128::MAX,
        plan.steps.len() <= usize::MAX,
    ensures
        ({
            let (next, action) = driven(plan, phase, started, canceled);
            let k = match phase {
                Phase::Sending(sent) => sent as int,
                _ => 0,
            };
            let running = phase is Sending || (phase is Waiting && started);
            &&& action is Send <==> running && !canceled && k < plan.steps.len()
            &&& action matches BulbAction::Send { due_ns, command } ==> {
                &&& due_ns + plan.lead == plan.steps[k].start_ms * 1_000_000
                &&& next == Phase::Sending((k + 1) as usize)
                &&& match command {
                    LightCommand::Hsv { hue, sat, bri, transition_ms } => {
                        &&& plan.color
                        &&& hue == plan.steps[k].hue
                        &&& sat == plan.steps[k].sat
                        &&& bri == plan.steps[k].bri
                        &&& transition_ms == plan.steps[k].transition_ms
                    },
                    LightCommand::Brightness { bri, transition_ms } => {
                        &&& !plan.color
                        &&& bri == plan.steps[k].bri
                        &&& transition_ms == plan.steps[k].transition_ms
                    },
                }
            }
        }),
{
}

/// Two commands are sent as far apart as they start, whatever the lead.
pub proof fn commands_are_sent_as_far_apart_as_they_start(plan: BulbPlan, one: usize, other: usize)
    requires
        0 <= plan.lead <= i128::MAX,
        one < plan.steps.len(),
        other < plan.steps.len(),
    ensures
        driven(plan, Phase::Sending(other), true, false).1->due_ns - driven(
            plan,
            Phase::Sending(one),
            true,
            false,
        ).1->due_ns == (plan.steps[other as int].start_ms - plan.steps[one as int].start_ms)
            * 1_000_000,
{
}

/// Of all that a run sends, the command at place `k` shows step `k` of the plan, and is due the
/// lead before it.
pub proof fn the_commands_of_a_run_keep_time(plan: BulbPlan, seen: Seq<(bool, bool)>, k: int)
    requires
        0 <= plan.lead <= i128::MAX,
        plan.steps.len() <= usize::MAX,
        0 <= k < run_of(plan, Phase::Waiting, seen).filter(|a: BulbAction| a is Send).len(),
    ensures
        k < plan.steps.len(),
        ({
            let sent = run_of(plan, Phase::Waiting, seen).filter(|a: BulbAction| a is Send)[k];
            &&& sent->due_ns + plan.lead == plan.steps[k].start_ms * 1_000_000
            &&& match sent->command {
                LightCommand::Hsv { hue, sat, bri, transition_ms } => {
                    &&& hue == plan.steps[k].hue
                    &&& sat == plan.steps[k].sat
                    &&& bri == plan.steps[k].bri
                    &&& transition_ms == plan.steps[k].transition_ms
                },
                LightCommand::Brightness { bri, transition_ms } => {
                    &&& bri == plan.steps[k].bri
                    &&& transition_ms == plan.steps[k].transition_ms
                },
            }
        }),
{
    let all = sends(run_of(plan, Phase::Waiting, seen));
    commands_are_sent_in_order(plan, Phase::Waiting, seen);
    let to = choose|to: int|
        0 <= to <= plan.steps.len() && #[trigger] sent_in_time(plan, 0, to) == all;
    assert(all[k] == sent_in_time(plan, 0, to)[k]);
}

/// The lead is what was told, in nanoseconds; else half of the round trip and 25 ms.
pub proof fn the_lead_is_half_a_round_trip(told_ms: u64, round_trip_ns: u64)
    ensures
        lead_of(Some(told_ms), round_trip_ns as int) == told_ms * 1_000_000,
        2 * (lead_of(None, round_trip_ns as int) - 25_000_000) <= round_trip_ns,
        round_trip_ns < 2 * (lead_of(None, round_trip_ns as int) - 25_000_000) + 2,
{
}

/// A bulb joins step by step: it is connected to, measured unless its lead was told, and ready
/// with the lead that follows from that. Whatever fails makes it unusable, and nothing is done
/// after it was told.
pub proof fn a_bulb_joins_step_by_step(told_ms: Option<u64>, event: JoinEvent, ns: u64)
    ensures
        joined(told_ms, JoinPhase::Fresh, event) == (JoinPhase::Connecting, JoinAction::Connect),
        joined(told_ms, JoinPhase::Connecting, JoinEvent::Failed) == (
            JoinPhase::Told,
            JoinAction::Unusable,
        ),
        joined(told_ms, JoinPhase::Probing, JoinEvent::Failed) == (
            JoinPhase::Told,
            JoinAction::Unusable,
        ),
        joined(told_ms, JoinPhase::Told, event) == (JoinPhase::Told, JoinAction::Settled),
        told_ms is Some && event !is Failed ==> ({
            let (next, action) = joined(told_ms, JoinPhase::Connecting, event);
            next is Told && action is Ready && action->lead_ns == told_ms->0 * 1_000_000
        }),
        told_ms is None && event !is Failed ==> joined(told_ms, JoinPhase::Connecting, event) == (
            JoinPhase::Probing,
            JoinAction::Probe,
        ),
        joined(told_ms, JoinPhase::Probing, JoinEvent::Done) == (
            JoinPhase::Probing,
            JoinAction::Probe,
        ),
        ({
            let (next, action) = joined(told_ms, JoinPhase::Probing, JoinEvent::RoundTrip { ns });
            &&& next is Told
            &&& action is Ready
            &&& action->lead_ns == match told_ms {
                Some(ms) => ms * 1_000_000,
                None => ns / 2 + 25_000_000,
            }
        }),
{
}

/// Before the audio starts a bulb waits and looks again; it sends nothing and is left alone.
pub proof fn a_run_waits_for_the_audio(plan: BulbPlan, polls: nat)
    ensures
        run_of(plan, Phase::Waiting, Seq::new(polls, |i: int| (false, false))) == Seq::new(
            polls,
            |i: int| BulbAction::Poll,
        ),
        phase_after(plan, Phase::Waiting, Seq::new(polls, |i: int| (false, false)))
            == Phase::Waiting,
    decreases polls,
{
    let seen = Seq::new(polls, |i: int| (false, false));
    if polls > 0 {
        let fewer = Seq::new((polls - 1) as nat, |i: int| (false, false));
        a_run_waits_for_the_audio(plan, (polls - 1) as nat);
        assert(seen.skip(1) =~= fewer);
        assert(run_of(plan, Phase::Waiting, seen) =~= Seq::new(polls, |i: int| BulbAction::Poll));
    } else {
        assert(run_of(plan, Phase::Waiting, seen) =~= Seq::new(polls, |i: int| BulbAction::Poll));
    }
}

/// A run winds up once: after the last command, or at once when it is stopped. A bulb that is to
/// be restored is, after the last ramp if nothing stopped the run; another one is left as it is,
/// and nothing more is done to it.
pub proof fn a_run_winds_up(plan: BulbPlan, phase: Phase, started: bool, canceled: bool)
    requires
        plan.steps.len() <= usize::MAX,
        match phase {
            Phase::Sending(sent) => canceled || sent >= plan.steps.len(),
            Phase::Waiting => canceled || (started && plan.steps.len() == 0),
            _ => true,
        },
    ensures
        ({
            let (next, action) = driven(plan, phase, started, canceled);
            match phase {
                Phase::Finished => next is Finished && action is Finish,
                Phase::Restoring => next is Finished && action is Restore,
                _ => {
                    &&& !plan.restore ==> next is Finished && action is Finish
                    &&& plan.restore && canceled ==> next is Finished && action is Restore
                    &&& plan.restore && !canceled ==> next is Restoring && action is LetRampFinish
                },
            }
        }),
{
}

} // verus!
