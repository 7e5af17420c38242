//! One boot of the beacon, from reset to deep sleep.
//!
//! Every boot runs the same line: bring the platform up, give the USB port
//! time to enumerate, release the pin holds left by the previous sleep, take
//! the peripherals, run one GNSS session, log what it brought, count down,
//! and enter deep sleep. A failure on the way is logged and the boot goes on
//! to deep sleep, so that the device never stays awake.

use crate::session::{Outcome, DEFAULT_TIMEOUT_MS};
use crate::decoder::Fix;
use vstd::prelude::*;

verus! {

/// Power enable of the GNSS module; high powers the module.
pub const GNSS_POWER_PIN: u8 = 3;

/// Enable of the ADC subsystem.
pub const ADC_ENABLE_PIN: u8 = 2;

/// UART controller wired to the GNSS module.
pub const GNSS_UART: u8 = 1;

/// Transmit line, beacon to module.
pub const GNSS_TX_PIN: u8 = 33;

/// Receive line, module to beacon.
pub const GNSS_RX_PIN: u8 = 34;

/// Time given to the USB port after a reset, so that early log lines are
/// seen.
pub const USB_SETTLE_MS: u32 = 3_000;

/// Length of the countdown before sleep, in seconds.
pub const COUNTDOWN_SECONDS: u8 = 5;

/// Time spent in deep sleep, in microseconds.
pub const DEEP_SLEEP_US: u64 = 10_000_000;

/// What a boot writes to the log about its GNSS session.
#[derive(Clone, Copy, Debug, PartialEq, Eq)]
pub enum Report {
    Fix(Fix),
    NoFix,
    /// A pin or the UART could not be set up or driven.
    HardwareSetup,
    /// The peripherals had been taken before in this boot.
    RegistryReuse,
}

/// What the firmware is to do next.
#[derive(Clone, Copy, Debug, PartialEq, Eq)]
pub enum BootStep {
    /// Bring up the platform: link patches and the logger.
    InitPlatform,
    Delay { ms: u32 },
    /// Release the hold that the previous deep sleep left on the pin.
    ReleaseHold { pin: u8 },
    /// Take the pins and the UART controller from the registry.
    TakePeripherals,
    /// Run a GNSS session to its end.
    AcquireFix { uart: u8, rx_pin: u8, tx_pin: u8, power_pin: u8, timeout_ms: u64 },
    Log(Report),
    /// Announce the seconds that are left, then wait one second.
    Countdown { seconds_left: u8 },
    EnterDeepSleep { pin_a: u8, pin_b: u8, duration_us: u64 },
}

/// What the firmware reports after it has performed a step.
#[derive(Clone, Copy, Debug, PartialEq, Eq)]
pub enum BootEvent {
    Done,
    Failed,
    /// The GNSS session has ended.
    Session(Outcome),
}

#[derive(Clone, Copy, Debug, PartialEq, Eq)]
pub enum Stage {
    Reset,
    Initialising,
    Settling,
    ReleasingPower,
    ReleasingAdc,
    TakingPeripherals,
    Acquiring,
    Reporting,
    CountingDown { seconds_left: u8 },
    Sleeping,
}

/// The state of a boot as the contracts see it.
pub struct BootState {
    pub stage: Stage,
    /// The steps handed out so far, oldest first.
    pub issued: Seq<BootStep>,
}

pub open spec fn initial() -> BootState {
    BootState { stage: Stage::Reset, issued: Seq::empty() }
}

pub open spec fn acquire_fix() -> BootStep {
    BootStep::AcquireFix {
        uart: GNSS_UART,
        rx_pin: GNSS_RX_PIN,
        tx_pin: GNSS_TX_PIN,
        power_pin: GNSS_POWER_PIN,
        timeout_ms: DEFAULT_TIMEOUT_MS,
    }
}

pub open spec fn enter_deep_sleep() -> BootStep {
    BootStep::EnterDeepSleep {
        pin_a: GNSS_POWER_PIN,
        pin_b: ADC_ENABLE_PIN,
        duration_us: DEEP_SLEEP_US,
    }
}

/// What is logged about a session that ended with `event`.
pub open spec fn report_of(event: BootEvent) -> Report {
    match event {
        BootEvent::Session(Outcome::Fix(fix)) => Report::Fix(fix),
        BootEvent::Session(Outcome::NoFix) => Report::NoFix,
        _ => Report::HardwareSetup,
    }
}

/// The step that follows the log line: the countdown if there is one, else
/// deep sleep.
pub open spec fn count_or_sleep(seconds_left: u8) -> (Stage, BootStep) {
    if seconds_left > 0 {
        (Stage::CountingDown { seconds_left }, BootStep::Countdown { seconds_left })
    } else {
        (Stage::Sleeping, enter_deep_sleep())
    }
}

/// The stage after `event` and the step that answers it.
pub open spec fn advance(stage: Stage, event: BootEvent) -> (Stage, BootStep) {
    match stage {
        Stage::Reset => (Stage::Initialising, BootStep::InitPlatform),
        Stage::Initialising => (Stage::Settling, BootStep::Delay { ms: USB_SETTLE_MS }),
        Stage::Settling => (Stage::ReleasingPower, BootStep::ReleaseHold { pin: GNSS_POWER_PIN }),
        Stage::ReleasingPower => (
            Stage::ReleasingAdc,
            BootStep::ReleaseHold { pin: ADC_ENABLE_PIN },
        ),
        Stage::ReleasingAdc => (Stage::TakingPeripherals, BootStep::TakePeripherals),
        Stage::TakingPeripherals => if event is Failed {
            (Stage::Reporting, BootStep::Log(Report::RegistryReuse))
        } else {
            (Stage::Acquiring, acquire_fix())
        },
        Stage::Acquiring => (Stage::Reporting, BootStep::Log(report_of(event))),
        Stage::Reporting => count_or_sleep(COUNTDOWN_SECONDS),
        Stage::CountingDown { seconds_left } => if seconds_left > 1 {
            count_or_sleep((seconds_left - 1) as u8)
        } else {
            (Stage::Sleeping, enter_deep_sleep())
        },
        Stage::Sleeping => (Stage::Sleeping, enter_deep_sleep()),
    }
}

/// The transition function.
pub open spec fn next(s: BootState, event: BootEvent) -> (BootState, BootStep) {
    let (stage, step) = advance(s.stage, event);
    (BootState { stage, issued: s.issued.push(step) }, step)
}

/// How many steps have been handed out when a boot is at `stage`, for the
/// stages that come before the session.
pub open spec fn steps_before(stage: Stage) -> int {
    match stage {
        Stage::Reset => 0,
        Stage::Initialising => 1,
        Stage::Settling => 2,
        Stage::ReleasingPower => 3,
        Stage::ReleasingAdc => 4,
        _ => 5,
    }
}

/// The first five steps of every boot.
pub open spec fn opening() -> Seq<BootStep> {
    seq![
        BootStep::InitPlatform,
        BootStep::Delay { ms: USB_SETTLE_MS },
        BootStep::ReleaseHold { pin: GNSS_POWER_PIN },
        BootStep::ReleaseHold { pin: ADC_ENABLE_PIN },
        BootStep::TakePeripherals,
    ]
}

/// A step that configures or drives the two enable pins.
pub open spec fn touches_pins(step: BootStep) -> bool {
    step is AcquireFix || step is EnterDeepSleep
}

/// What holds of a boot in every state it can reach: it has begun with the
/// opening steps, as far as it has come, and has touched the pins only after
/// them.
pub open spec fn consistent(s: BootState) -> bool {
    &&& s.issued.len() >= steps_before(s.stage)
    &&& steps_before(s.stage) < 5 ==> s.issued.len() == steps_before(s.stage)
    &&& forall|i: int| 0 <= i < s.issued.len() && i < 5 ==> #[trigger] s.issued[i] == opening()[i]
    &&& forall|i: int| 0 <= i < s.issued.len() && touches_pins(#[trigger] s.issued[i]) ==> i >= 5
    &&& s.stage matches Stage::CountingDown { seconds_left } ==> 1 <= seconds_left
        <= COUNTDOWN_SECONDS
}

/// One boot of the beacon.
pub struct DutyCycle {
    stage: Stage,
    issued: Ghost<Seq<BootStep>>,
}

impl View for DutyCycle {
    type V = BootState;

    closed spec fn view(&self) -> BootState {
        BootState { stage: self.stage, issued: self.issued@ }
    }
}

impl DutyCycle {
    pub open spec fn wf(&self) -> bool {
        consistent(self@)
    }

    /// The state right after reset.
    pub fn new() -> (boot: Self)
        ensures
            boot@ == initial(),
            boot.wf(),
    {
        DutyCycle { stage: Stage::Reset, issued: Ghost(Seq::empty()) }
    }

    pub fn stage(&self) -> (stage: Stage)
        ensures
            stage == self@.stage,
    {
        self.stage
    }

    fn count_or_sleep(seconds_left: u8) -> (r: (Stage, BootStep))
        ensures
            r == count_or_sleep(seconds_left),
    {
        if seconds_left > 0 {
            (Stage::CountingDown { seconds_left }, BootStep::Countdown { seconds_left })
        } else {
            (Stage::Sleeping, Self::deep_sleep())
        }
    }

    fn deep_sleep() -> (step: BootStep)
        ensures
            step == enter_deep_sleep(),
    {
        BootStep::EnterDeepSleep {
            pin_a: GNSS_POWER_PIN,
            pin_b: ADC_ENABLE_PIN,
            duration_us: DEEP_SLEEP_US,
        }
    }

    /// Takes the result of the last step and says what to do next.
    pub fn step(&mut self, event: BootEvent) -> (step: BootStep)
        requires
            old(self).wf(),
        ensures
            final(self).wf(),
            (final(self)@, step) == next(old(self)@, event),
    {
        proof {
            lemma_consistency_is_kept(self@, event);
        }
        let (stage, step) = match self.stage {
            Stage::Reset => (Stage::Initialising, BootStep::InitPlatform),
            Stage::Initialising => (Stage::Settling, BootStep::Delay { ms: USB_SETTLE_MS }),
            Stage::Settling => (
                Stage::ReleasingPower,
                BootStep::ReleaseHold { pin: GNSS_POWER_PIN },
            ),
            Stage::ReleasingPower => (
                Stage::ReleasingAdc,
                BootStep::ReleaseHold { pin: ADC_ENABLE_PIN },
            ),
            Stage::ReleasingAdc => (Stage::TakingPeripherals, BootStep::TakePeripherals),
            Stage::TakingPeripherals => match event {
                BootEvent::Failed => (Stage::Reporting, BootStep::Log(Report::RegistryReuse)),
                _ => (
                    Stage::Acquiring,
                    BootStep::AcquireFix {
                        uart: GNSS_UART,
                        rx_pin: GNSS_RX_PIN,
                        tx_pin: GNSS_TX_PIN,
                        power_pin: GNSS_POWER_PIN,
                        timeout_ms: DEFAULT_TIMEOUT_MS,
                    },
                ),
            },
            Stage::Acquiring => {
                let report = match event {
                    BootEvent::Session(Outcome::Fix(fix)) => Report::Fix(fix),
                    BootEvent::Session(Outcome::NoFix) => Report::NoFix,
                    _ => Report::HardwareSetup,
                };
                (Stage::Reporting, BootStep::Log(report))
            },
            Stage::Reporting => Self::count_or_sleep(COUNTDOWN_SECONDS),
            Stage::CountingDown { seconds_left } => {
                if seconds_left > 1 {
                    Self::count_or_sleep(seconds_left - 1)
                } else {
                    (Stage::Sleeping, Self::deep_sleep())
                }
            },
            Stage::Sleeping => (Stage::Sleeping, Self::deep_sleep()),
        };
        self.stage = stage;
        proof {
            self.issued@ = self.issued@.push(step);
        }
        step
    }
}

/// Every transition keeps a consistent state consistent.
pub proof fn lemma_consistency_is_kept(s: BootState, event: BootEvent)
    requires
        consistent(s),
    ensures
        consistent(next(s, event).0),
{
    let (t, step) = next(s, event);
    let n = s.issued.len() as int;
    assert(t.issued[n] == step);
    assert forall|i: int| 0 <= i < t.issued.len() && i < 5 implies #[trigger] t.issued[i]
        == opening()[i] by {
        if i < n {
            assert(t.issued[i] == s.issued[i]);
        }
    }
    assert forall|i: int| 0 <= i < t.issued.len() && touches_pins(#[trigger] t.issued[i]) implies i
        >= 5 by {
        if i < n {
            assert(t.issued[i] == s.issued[i]);
        }
    }
}

/// The state of a boot after it has answered a sequence of events.
pub open spec fn run(s: BootState, events: Seq<BootEvent>) -> BootState
    decreases events.len(),
{
    if events.len() == 0 {
        s
    } else {
        run(next(s, events[0]).0, events.skip(1))
    }
}

/// Whatever the hardware reports, a boot releases the holds on both enable
/// pins before any step that configures or drives them: every session and
/// every entry into deep sleep comes after the two releases.
pub proof fn lemma_holds_released_first(events: Seq<BootEvent>)
    ensures
        run(initial(), events).issued.len() == events.len(),
        forall|i: int|
            0 <= i < events.len() && touches_pins(#[trigger] run(initial(), events).issued[i])
                ==> i >= 5 && run(initial(), events).issued[2] == (BootStep::ReleaseHold {
                pin: GNSS_POWER_PIN,
            }) && run(initial(), events).issued[3] == (BootStep::ReleaseHold {
                pin: ADC_ENABLE_PIN,
            }),
{
    lemma_run(initial(), events);
    let last = run(initial(), events);
    assert forall|i: int| 0 <= i < events.len() && touches_pins(#[trigger] last.issued[i]) implies i
        >= 5 && last.issued[2] == (BootStep::ReleaseHold { pin: GNSS_POWER_PIN })
        && last.issued[3] == (BootStep::ReleaseHold { pin: ADC_ENABLE_PIN }) by {
        assert(last.issued[2] == opening()[2]);
        assert(last.issued[3] == opening()[3]);
    }
}

/// Whatever the hardware reports, a boot reaches deep sleep: at the latest
/// the thirteenth step is the entry into deep sleep, with both enable pins
/// and the planned duration, and so is every step after it.
pub proof fn lemma_boot_ends_in_sleep(events: Seq<BootEvent>)
    ensures
        forall|i: int|
            12 <= i < events.len() ==> #[trigger] run(initial(), events).issued[i]
                == enter_deep_sleep(),
{
    lemma_run(initial(), events);
    assert forall|i: int| 12 <= i < events.len() implies #[trigger] run(
        initial(),
        events,
    ).issued[i] == enter_deep_sleep() by {
        lemma_step_at(initial(), events, i);
    }
}

/// Steps still to come before deep sleep is sure to be entered.
pub open spec fn distance_to_sleep(stage: Stage) -> int {
    match stage {
        Stage::Reset => 12,
        Stage::Initialising => 11,
        Stage::Settling => 10,
        Stage::ReleasingPower => 9,
        Stage::ReleasingAdc => 8,
        Stage::TakingPeripherals => 7,
        Stage::Acquiring => 6,
        Stage::Reporting => 5,
        Stage::CountingDown { seconds_left } => seconds_left - 1,
        Stage::Sleeping => 0,
    }
}

proof fn lemma_step_at(s: BootState, events: Seq<BootEvent>, i: int)
    requires
        consistent(s),
        s.issued.len() <= i < s.issued.len() + events.len(),
        i - s.issued.len() >= distance_to_sleep(s.stage),
    ensures
        run(s, events).issued[i] == enter_deep_sleep(),
    decreases events.len(),
{
    let (t, step) = next(s, events[0]);
    lemma_consistency_is_kept(s, events[0]);
    lemma_run(t, events.skip(1));
    if i == s.issued.len() {
        assert(t.issued[i] == step);
        lemma_run_keeps_issued(t, events.skip(1), i);
    } else {
        lemma_step_at(t, events.skip(1), i);
    }
}

proof fn lemma_run_keeps_issued(s: BootState, events: Seq<BootEvent>, i: int)
    requires
        0 <= i < s.issued.len(),
    ensures
        run(s, events).issued.len() == s.issued.len() + events.len(),
        run(s, events).issued[i] == s.issued[i],
    decreases events.len(),
{
    if events.len() > 0 {
        lemma_run_keeps_issued(next(s, events[0]).0, events.skip(1), i);
    }
}

proof fn lemma_run(s: BootState, events: Seq<BootEvent>)
    requires
        consistent(s),
    ensures
        consistent(run(s, events)),
        run(s, events).issued.len() == s.issued.len() + events.len(),
    decreases events.len(),
{
    if events.len() > 0 {
        lemma_consistency_is_kept(s, events[0]);
        lemma_run(next(s, events[0]).0, events.skip(1));
    }
}

} // verus!
