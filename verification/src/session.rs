//! One attempt to get a position from the GNSS module.
//!
//! The session is a state machine. It hands out one command at a time; the
//! firmware performs the command and reports the result as an event,
//! together with the time that has passed since the session began.
//!
//! ```text
//! PowerOn -> Delay -> OpenUart -> SendInit -> Read <-> Yield
//!                                              |
//!                         PowerOff <-----------+   (fix, timeout or failure)
//!                            |
//!                          Finish
//! ```

use crate::accumulator::free_of_line_feed;
use crate::acquisition::{
    fresh, lemma_scan_keeps_no_line_feed, lemma_scan_returns_first_fix, scan, Acquisition,
    Progress,
};
use crate::decoder::{is_complete, Fix, Position};
use vstd::prelude::*;

verus! {

/// Time given to the module to boot after its power is switched on.
pub const BOOT_DELAY_MS: u32 = 500;

/// Line speed of the link to the module: 8 data bits, no parity, 1 stop bit,
/// no flow control.
pub const BAUD_RATE: u32 = 115_200;

/// Most bytes asked for in one read.
pub const READ_CHUNK_LEN: usize = 256;

/// Longest wait of one read.
pub const READ_WAIT_MS: u32 = 100;

/// Pause after a read that brought nothing.
pub const IDLE_YIELD_MS: u32 = 10;

/// Time after which a session without a fix gives up.
pub const DEFAULT_TIMEOUT_MS: u64 = 300_000;

/// The bytes of `$CFGSYS,h35155*68` followed by carriage return and line
/// feed, which put the receiver into its multi-constellation mode.
pub open spec fn init_sentence_bytes() -> Seq<u8> {
    seq![
        0x24u8, 0x43u8, 0x46u8, 0x47u8, 0x53u8, 0x59u8, 0x53u8, 0x2Cu8, 0x68u8, 0x33u8,
        0x35u8, 0x31u8, 0x35u8, 0x35u8, 0x2Au8, 0x36u8, 0x38u8, 0x0Du8, 0x0Au8,
    ]
}

/// The frame to transmit for `Command::SendInit`.
pub fn init_sentence() -> (bytes: Vec<u8>)
    ensures
        bytes@ == init_sentence_bytes(),
{
    let bytes: Vec<u8> = vec![
        0x24u8, 0x43u8, 0x46u8, 0x47u8, 0x53u8, 0x59u8, 0x53u8, 0x2Cu8, 0x68u8, 0x33u8,
        0x35u8, 0x31u8, 0x35u8, 0x35u8, 0x2Au8, 0x36u8, 0x38u8, 0x0Du8, 0x0Au8,
    ];
    proof {
        assert(bytes@ =~= init_sentence_bytes());
    }
    bytes
}

/// The hardware that a session uses.
#[derive(Clone, Copy, Debug, PartialEq, Eq)]
pub struct Wiring {
    pub uart: u8,
    pub tx_pin: u8,
    pub rx_pin: u8,
    pub power_pin: u8,
}

#[derive(Clone, Copy, Debug, PartialEq, Eq)]
pub enum Phase {
    Idle,
    PoweringOn,
    Booting,
    OpeningUart,
    SendingInit,
    Reading,
    Yielding,
    PoweringOff,
    Finished,
}

/// What is known of the power pin from the drives that were acknowledged.
#[derive(Clone, Copy, Debug, PartialEq, Eq)]
pub enum PinLevel {
    Unknown,
    High,
    Low,
}

/// How a session ended.
#[derive(Clone, Copy, Debug, PartialEq, Eq)]
pub enum Outcome {
    Fix(Fix),
    /// The timeout passed without a fix.
    NoFix,
    /// A pin or the UART could not be set up or driven.
    HardwareSetup,
}

/// What the firmware reports after it has performed a command.
pub enum Event {
    /// The command was carried out. For a read: nothing arrived.
    Done,
    /// The command failed.
    Failed,
    /// A read returned these bytes.
    Data(Vec<u8>),
}

/// What the firmware is to do next.
#[derive(Clone, Copy, Debug, PartialEq, Eq)]
pub enum Command {
    /// Drive the power pin high.
    PowerOn { pin: u8 },
    Delay { ms: u32 },
    OpenUart { uart: u8, tx_pin: u8, rx_pin: u8, baud: u32 },
    /// Transmit `init_sentence()`.
    SendInit,
    /// Read up to `max_len` bytes, waiting no longer than `wait_ms`.
    Read { max_len: usize, wait_ms: u32 },
    Yield { ms: u32 },
    /// Drive the power pin low.
    PowerOff { pin: u8 },
    /// The session is over; close the UART and hand the power pin back.
    Finish(Outcome),
}

/// The state of a session as the contracts see it.
pub struct SessionState {
    pub wiring: Wiring,
    pub timeout_ms: u64,
    pub phase: Phase,
    /// What `Finish` is going to report.
    pub outcome: Outcome,
    pub power: PinLevel,
    pub progress: Progress,
}

pub open spec fn initial(wiring: Wiring, timeout_ms: u64) -> SessionState {
    SessionState {
        wiring,
        timeout_ms,
        phase: Phase::Idle,
        outcome: Outcome::NoFix,
        power: PinLevel::Unknown,
        progress: fresh(),
    }
}

/// Ends the session: the power pin goes low before anything is reported.
pub open spec fn power_down(s: SessionState, outcome: Outcome) -> (SessionState, Command) {
    (
        SessionState { phase: Phase::PoweringOff, outcome, ..s },
        Command::PowerOff { pin: s.wiring.power_pin },
    )
}

/// Top of the acquisition loop: another read, unless the time is used up.
pub open spec fn read_or_give_up(s: SessionState, elapsed_ms: u64) -> (SessionState, Command) {
    if elapsed_ms > s.timeout_ms {
        power_down(s, Outcome::NoFix)
    } else {
        (
            SessionState { phase: Phase::Reading, ..s },
            Command::Read { max_len: READ_CHUNK_LEN, wait_ms: READ_WAIT_MS },
        )
    }
}

/// What a read brought: bytes go through the acquisition loop, which ends
/// the session at the first fix; nothing, or an error, is followed by a
/// yield.
pub open spec fn after_read(s: SessionState, event: Event, elapsed_ms: u64) -> (
    SessionState,
    Command,
) {
    match event {
        Event::Data(bytes) => if bytes@.len() > 0 {
            let (progress, fix) = scan(s.progress, bytes@);
            let scanned = SessionState { progress, ..s };
            match fix {
                Some(fix) => power_down(scanned, Outcome::Fix(fix)),
                None => read_or_give_up(scanned, elapsed_ms),
            }
        } else {
            (SessionState { phase: Phase::Yielding, ..s }, Command::Yield { ms: IDLE_YIELD_MS })
        },
        _ => (SessionState { phase: Phase::Yielding, ..s }, Command::Yield { ms: IDLE_YIELD_MS }),
    }
}

/// The transition function: the state after `event`, which arrived
/// `elapsed_ms` after the session began, and the command that answers it.
pub open spec fn next(s: SessionState, event: Event, elapsed_ms: u64) -> (SessionState, Command) {
    match s.phase {
        Phase::Idle => (
            SessionState { phase: Phase::PoweringOn, ..s },
            Command::PowerOn { pin: s.wiring.power_pin },
        ),
        Phase::PoweringOn => if event is Failed {
            power_down(SessionState { power: PinLevel::Unknown, ..s }, Outcome::HardwareSetup)
        } else {
            (
                SessionState { phase: Phase::Booting, power: PinLevel::High, ..s },
                Command::Delay { ms: BOOT_DELAY_MS },
            )
        },
        Phase::Booting => (
            SessionState { phase: Phase::OpeningUart, ..s },
            Command::OpenUart {
                uart: s.wiring.uart,
                tx_pin: s.wiring.tx_pin,
                rx_pin: s.wiring.rx_pin,
                baud: BAUD_RATE,
            },
        ),
        Phase::OpeningUart => if event is Failed {
            power_down(s, Outcome::HardwareSetup)
        } else {
            (SessionState { phase: Phase::SendingInit, ..s }, Command::SendInit)
        },
        Phase::SendingInit => if event is Failed {
            power_down(s, Outcome::HardwareSetup)
        } else {
            read_or_give_up(s, elapsed_ms)
        },
        Phase::Reading => after_read(s, event, elapsed_ms),
        Phase::Yielding => read_or_give_up(s, elapsed_ms),
        Phase::PoweringOff => if event is Failed {
            (
                SessionState {
                    phase: Phase::Finished,
                    outcome: Outcome::HardwareSetup,
                    power: PinLevel::Unknown,
                    ..s
                },
                Command::Finish(Outcome::HardwareSetup),
            )
        } else {
            (
                SessionState { phase: Phase::Finished, power: PinLevel::Low, ..s },
                Command::Finish(s.outcome),
            )
        },
        Phase::Finished => (s, Command::Finish(s.outcome)),
    }
}

/// What holds of a session in every state it can reach.
pub open spec fn consistent(s: SessionState) -> bool {
    &&& free_of_line_feed(s.progress.pending)
    &&& match s.phase {
        Phase::PoweringOff => match s.outcome {
            Outcome::Fix(fix) => s.progress.position == (Position {
                latitude: Some(fix.latitude_bits),
                longitude: Some(fix.longitude_bits),
            }),
            _ => true,
        },
        Phase::Finished => {
            &&& s.power is Low || s.outcome is HardwareSetup
            &&& match s.outcome {
                Outcome::Fix(fix) => s.progress.position == (Position {
                    latitude: Some(fix.latitude_bits),
                    longitude: Some(fix.longitude_bits),
                }),
                _ => true,
            }
        },
        _ => !is_complete(s.progress.position),
    }
}

/// A GNSS session.
pub struct Session {
    wiring: Wiring,
    timeout_ms: u64,
    phase: Phase,
    outcome: Outcome,
    power: PinLevel,
    acquisition: Acquisition,
}

impl View for Session {
    type V = SessionState;

    closed spec fn view(&self) -> SessionState {
        SessionState {
            wiring: self.wiring,
            timeout_ms: self.timeout_ms,
            phase: self.phase,
            outcome: self.outcome,
            power: self.power,
            progress: self.acquisition@,
        }
    }
}

/// Begins a session on the given UART and pins. The session gives up when
/// more than `timeout_ms` have passed since it began.
pub fn get_lat_lon(uart: u8, rx_pin: u8, tx_pin: u8, power_pin: u8, timeout_ms: u64) -> (session:
    Session)
    ensures
        session@ == initial(Wiring { uart, tx_pin, rx_pin, power_pin }, timeout_ms),
        session.wf(),
{
    Session {
        wiring: Wiring { uart, tx_pin, rx_pin, power_pin },
        timeout_ms,
        phase: Phase::Idle,
        outcome: Outcome::NoFix,
        power: PinLevel::Unknown,
        acquisition: Acquisition::new(),
    }
}

impl Session {
    pub open spec fn wf(&self) -> bool {
        consistent(self@)
    }

    pub fn phase(&self) -> (phase: Phase)
        ensures
            phase == self@.phase,
    {
        self.phase
    }

    /// The level of the power pin, as far as acknowledged drives tell.
    pub fn power(&self) -> (level: PinLevel)
        ensures
            level == self@.power,
    {
        self.power
    }

    fn power_down(&mut self, outcome: Outcome) -> (command: Command)
        ensures
            (final(self)@, command) == power_down(old(self)@, outcome),
    {
        self.phase = Phase::PoweringOff;
        self.outcome = outcome;
        Command::PowerOff { pin: self.wiring.power_pin }
    }

    fn read_or_give_up(&mut self, elapsed_ms: u64) -> (command: Command)
        ensures
            (final(self)@, command) == read_or_give_up(old(self)@, elapsed_ms),
    {
        if elapsed_ms > self.timeout_ms {
            self.power_down(Outcome::NoFix)
        } else {
            self.phase = Phase::Reading;
            Command::Read { max_len: READ_CHUNK_LEN, wait_ms: READ_WAIT_MS }
        }
    }

    fn yield_now(&mut self) -> (command: Command)
        ensures
            final(self)@ == (SessionState { phase: Phase::Yielding, ..old(self)@ }),
            command == (Command::Yield { ms: IDLE_YIELD_MS }),
    {
        self.phase = Phase::Yielding;
        Command::Yield { ms: IDLE_YIELD_MS }
    }

    fn after_read(&mut self, event: Event, elapsed_ms: u64) -> (command: Command)
        requires
            free_of_line_feed(old(self)@.progress.pending),
        ensures
            (final(self)@, command) == after_read(old(self)@, event, elapsed_ms),
    {
        match event {
            Event::Data(bytes) => {
                if bytes.len() > 0 {
                    match self.acquisition.scan(&bytes) {
                        Some(fix) => self.power_down(Outcome::Fix(fix)),
                        None => self.read_or_give_up(elapsed_ms),
                    }
                } else {
                    self.yield_now()
                }
            },
            _ => self.yield_now(),
        }
    }

    /// Takes the result of the last command and says what to do next.
    pub fn step(&mut self, event: Event, elapsed_ms: u64) -> (command: Command)
        requires
            old(self).wf(),
        ensures
            final(self).wf(),
            (final(self)@, command) == next(old(self)@, event, elapsed_ms),
    {
        proof {
            lemma_consistency_is_kept(self@, event, elapsed_ms);
        }
        let failed = matches!(event, Event::Failed);
        match self.phase {
            Phase::Idle => {
                self.phase = Phase::PoweringOn;
                Command::PowerOn { pin: self.wiring.power_pin }
            },
            Phase::PoweringOn => {
                if failed {
                    self.power = PinLevel::Unknown;
                    self.power_down(Outcome::HardwareSetup)
                } else {
                    self.phase = Phase::Booting;
                    self.power = PinLevel::High;
                    Command::Delay { ms: BOOT_DELAY_MS }
                }
            },
            Phase::Booting => {
                self.phase = Phase::OpeningUart;
                Command::OpenUart {
                    uart: self.wiring.uart,
                    tx_pin: self.wiring.tx_pin,
                    rx_pin: self.wiring.rx_pin,
                    baud: BAUD_RATE,
                }
            },
            Phase::OpeningUart => {
                if failed {
                    self.power_down(Outcome::HardwareSetup)
                } else {
                    self.phase = Phase::SendingInit;
                    Command::SendInit
                }
            },
            Phase::SendingInit => {
                if failed {
                    self.power_down(Outcome::HardwareSetup)
                } else {
                    self.read_or_give_up(elapsed_ms)
                }
            },
            Phase::Reading => self.after_read(event, elapsed_ms),
            Phase::Yielding => self.read_or_give_up(elapsed_ms),
            Phase::PoweringOff => {
                self.phase = Phase::Finished;
                if failed {
                    self.outcome = Outcome::HardwareSetup;
                    self.power = PinLevel::Unknown;
                } else {
                    self.power = PinLevel::Low;
                }
                Command::Finish(self.outcome)
            },
            Phase::Finished => Command::Finish(self.outcome),
        }
    }
}

/// Every transition keeps a consistent state consistent.
pub proof fn lemma_consistency_is_kept(s: SessionState, event: Event, elapsed_ms: u64)
    requires
        consistent(s),
    ensures
        consistent(next(s, event, elapsed_ms).0),
{
    if s.phase is Reading {
        match event {
            Event::Data(bytes) => {
                if bytes@.len() > 0 {
                    lemma_scan_returns_first_fix(s.progress, bytes@);
                    lemma_scan_keeps_no_line_feed(s.progress, bytes@);
                }
            },
            _ => {},
        }
    }
}

/// The commands that a session gives in answer to `events`, each event with
/// its time of arrival, and the state it is in afterwards.
pub open spec fn run(s: SessionState, events: Seq<(Event, u64)>) -> (SessionState, Seq<Command>)
    decreases events.len(),
{
    if events.len() == 0 {
        (s, Seq::empty())
    } else {
        let (after, command) = next(s, events[0].0, events[0].1);
        let (last, commands) = run(after, events.skip(1));
        (last, seq![command] + commands)
    }
}

/// A session that has begun to end goes on to end: the command that leads
/// into the last two phases is the one that belongs to them, and `Finish` is
/// given in no other phase.
pub proof fn lemma_finish_follows_power_off(s: SessionState, event: Event, elapsed_ms: u64)
    ensures
        next(s, event, elapsed_ms).1 is Finish ==> s.phase is PoweringOff || s.phase is Finished,
        next(s, event, elapsed_ms).1 is Finish <==> next(s, event, elapsed_ms).0.phase is Finished,
        next(s, event, elapsed_ms).1 is PowerOff <==> next(s, event, elapsed_ms).0.phase
            is PoweringOff,
        next(s, event, elapsed_ms).1 is PowerOn ==> s.phase is Idle,
        next(s, event, elapsed_ms).1 matches Command::Finish(outcome) ==> outcome == next(
            s,
            event,
            elapsed_ms,
        ).0.outcome,
{
}

/// Order of the commands in a run from any state.
proof fn lemma_run_order(s: SessionState, events: Seq<(Event, u64)>)
    requires
        consistent(s),
    ensures
        run(s, events).1.len() == events.len(),
        consistent(run(s, events).0),
        events.len() == 0 ==> run(s, events).0 == s,
        events.len() > 0 ==> (run(s, events).1.last() is Finish <==> run(s, events).0.phase
            is Finished),
        events.len() > 0 ==> (run(s, events).1.last() matches Command::Finish(outcome)
            ==> outcome == run(s, events).0.outcome),
        events.len() > 0 && run(s, events).1[0] is Finish ==> s.phase is PoweringOff || s.phase
            is Finished,
        events.len() > 0 && run(s, events).1[0] is PowerOn ==> s.phase is Idle,
        forall|k: int|
            1 <= k < events.len() && #[trigger] run(s, events).1[k] is Finish ==> run(
                s,
                events,
            ).1[k - 1] is PowerOff || run(s, events).1[k - 1] is Finish,
        forall|k: int| 1 <= k < events.len() ==> !(#[trigger] run(s, events).1[k] is PowerOn),
    decreases events.len(),
{
    if events.len() > 0 {
        let (after, command) = next(s, events[0].0, events[0].1);
        let tail = events.skip(1);
        let (last, commands) = run(after, tail);
        let all = seq![command] + commands;
        lemma_consistency_is_kept(s, events[0].0, events[0].1);
        lemma_finish_follows_power_off(s, events[0].0, events[0].1);
        lemma_run_order(after, tail);
        assert(all[0] == command);
        if tail.len() > 0 {
            assert(all.last() == commands.last());
        }
        assert forall|k: int| 1 <= k < events.len() && #[trigger] all[k] is Finish implies all[k
            - 1] is PowerOff || all[k - 1] is Finish by {
            assert(all[k] == commands[k - 1]);
            if k >= 2 {
                assert(all[k - 1] == commands[k - 2]);
            }
        }
        assert forall|k: int| 1 <= k < events.len() implies !(#[trigger] all[k] is PowerOn) by {
            assert(all[k] == commands[k - 1]);
        }
    }
}

/// Whatever the hardware reports, and in whatever order, a session that
/// reports its end has driven the power pin low first: `Finish` is never the
/// first command, it follows immediately on `PowerOff` (or on an earlier
/// `Finish`), the pin is not driven high again after the first command, and
/// when `Finish` is given the last acknowledged level of the pin is low. The
/// one exception is that the drive to low itself failed; the outcome is then
/// `HardwareSetup`.
pub proof fn lemma_power_is_low_on_return(
    wiring: Wiring,
    timeout_ms: u64,
    events: Seq<(Event, u64)>,
)
    ensures
        run(initial(wiring, timeout_ms), events).1.len() == events.len(),
        forall|k: int|
            0 <= k < events.len() && #[trigger] run(initial(wiring, timeout_ms), events).1[k]
                is Finish ==> k >= 1 && (run(initial(wiring, timeout_ms), events).1[k - 1]
                is PowerOff || run(initial(wiring, timeout_ms), events).1[k - 1] is Finish),
        forall|k: int|
            1 <= k < events.len() ==> !(#[trigger] run(initial(wiring, timeout_ms), events).1[k]
                is PowerOn),
        events.len() > 0 ==> (run(initial(wiring, timeout_ms), events).1.last() matches Command::Finish(
            outcome,
        ) ==> outcome is HardwareSetup || run(initial(wiring, timeout_ms), events).0.power
            is Low),
{
    lemma_run_order(initial(wiring, timeout_ms), events);
}

/// Once the timeout has passed no further read is started. A yield is only
/// ever the answer to a read, so the one wait that can still follow a read
/// that was under way is a single yield; the answer to that yield, and to
/// bytes that bring no fix, is to switch the module off.
pub proof fn lemma_timeout_ends_acquisition(s: SessionState, event: Event, elapsed_ms: u64)
    ensures
        elapsed_ms > s.timeout_ms ==> !(next(s, event, elapsed_ms).1 is Read),
        next(s, event, elapsed_ms).1 is Yield ==> s.phase is Reading,
        elapsed_ms > s.timeout_ms && s.phase is Yielding ==> next(s, event, elapsed_ms).1
            == (Command::PowerOff { pin: s.wiring.power_pin }) && next(
            s,
            event,
            elapsed_ms,
        ).0.outcome is NoFix,
        next(s, event, elapsed_ms).1 matches Command::Read { max_len, wait_ms } ==> max_len
            == READ_CHUNK_LEN && wait_ms == READ_WAIT_MS,
        next(s, event, elapsed_ms).1 matches Command::Yield { ms } ==> ms == IDLE_YIELD_MS,
{
}

} // verus!
