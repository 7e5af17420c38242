//! Entry into timer-triggered deep sleep with two pins held low.
//!
//! The controller hands out one hardware operation at a time. The order is
//! fixed: the levels are driven before the per-pin holds are enabled, the
//! per-pin holds before the hold of the deep-sleep domain, the timer is
//! armed before sleep is triggered. When an operation on the pins fails, the
//! rest of the pin work is given up and the controller goes on to the timer,
//! so that the device sleeps in any case.

use vstd::prelude::*;

verus! {

#[derive(Clone, Copy, Debug, PartialEq, Eq)]
pub enum SleepOp {
    /// Make the pin a digital output.
    ConfigureOutput { pin: u8 },
    /// Drive the pin low.
    SetLow { pin: u8 },
    /// Latch the pad's level so that it survives the sleep transition.
    HoldEnable { pin: u8 },
    /// Keep the latched pads armed while the CPU is halted.
    DeepSleepHoldEnable,
    /// Arm the wake timer.
    ArmTimer { micros: u64 },
    /// Trigger deep sleep. The device wakes through its reset vector.
    Sleep,
}

/// The pins to hold low and the time to sleep.
#[derive(Clone, Copy, Debug, PartialEq, Eq)]
pub struct SleepPlan {
    pub pin_a: u8,
    pub pin_b: u8,
    pub duration_us: u64,
}

/// Number of operations of an undisturbed entry into deep sleep.
pub const SEQUENCE_LEN: u8 = 9;

/// Place of `ArmTimer` in the sequence; every operation before it works on
/// the pins.
pub const TIMER_STEP: u8 = 7;

/// Place of `Sleep` in the sequence.
pub const SLEEP_STEP: u8 = 8;

/// The operation at one place of the sequence.
pub open spec fn op_at(plan: SleepPlan, step: int) -> SleepOp {
    if step == 0 {
        SleepOp::ConfigureOutput { pin: plan.pin_a }
    } else if step == 1 {
        SleepOp::ConfigureOutput { pin: plan.pin_b }
    } else if step == 2 {
        SleepOp::SetLow { pin: plan.pin_a }
    } else if step == 3 {
        SleepOp::SetLow { pin: plan.pin_b }
    } else if step == 4 {
        SleepOp::HoldEnable { pin: plan.pin_a }
    } else if step == 5 {
        SleepOp::HoldEnable { pin: plan.pin_b }
    } else if step == 6 {
        SleepOp::DeepSleepHoldEnable
    } else if step == 7 {
        SleepOp::ArmTimer { micros: plan.duration_us }
    } else {
        SleepOp::Sleep
    }
}

/// The undisturbed entry into deep sleep.
pub open spec fn sequence(plan: SleepPlan) -> Seq<SleepOp> {
    Seq::new(SEQUENCE_LEN as nat, |step: int| op_at(plan, step))
}

/// Where a kind of operation stands in the order of kinds.
pub open spec fn rank(op: SleepOp) -> int {
    match op {
        SleepOp::ConfigureOutput { .. } => 0,
        SleepOp::SetLow { .. } => 1,
        SleepOp::HoldEnable { .. } => 2,
        SleepOp::DeepSleepHoldEnable => 3,
        SleepOp::ArmTimer { .. } => 4,
        SleepOp::Sleep => 5,
    }
}

/// The state of the controller as the contracts see it.
pub struct SleepState {
    pub plan: SleepPlan,
    /// Place in the sequence of the operation that comes next.
    pub step: int,
    /// An operation has been reported as failed.
    pub faulted: bool,
    /// How many operations on the pins have been handed out.
    pub pin_ops: int,
    /// The operations handed out so far, oldest first.
    pub issued: Seq<SleepOp>,
}

pub open spec fn initial(plan: SleepPlan) -> SleepState {
    SleepState { plan, step: 0, faulted: false, pin_ops: 0, issued: Seq::empty() }
}

/// The place of the operation that answers a report on the previous one:
/// after a failure on the pins, the timer.
pub open spec fn resume_at(s: SleepState, previous_failed: bool) -> int {
    if previous_failed && 0 < s.step <= TIMER_STEP {
        TIMER_STEP as int
    } else {
        s.step
    }
}

/// The transition function: the next operation and the state after it has
/// been handed out. `previous_failed` reports on the operation handed out
/// before; on the first call there is none, and once sleep has been
/// triggered nothing returns, so there the report is ignored.
pub open spec fn next(s: SleepState, previous_failed: bool) -> (SleepState, SleepOp) {
    let at = resume_at(s, previous_failed);
    let op = op_at(s.plan, at);
    (
        SleepState {
            plan: s.plan,
            step: if at >= SLEEP_STEP {
                SEQUENCE_LEN as int
            } else {
                at + 1
            },
            faulted: s.faulted || (previous_failed && 0 < s.step <= SLEEP_STEP),
            pin_ops: if at < TIMER_STEP {
                s.pin_ops + 1
            } else {
                s.pin_ops
            },
            issued: s.issued.push(op),
        },
        op,
    )
}

/// A trace of `len` operations of which the first `pin_ops` are the
/// beginning of the undisturbed sequence: then comes the timer, then sleep.
pub open spec fn shaped(plan: SleepPlan, pin_ops: int, len: nat) -> Seq<SleepOp> {
    Seq::new(
        len,
        |i: int|
            if i < pin_ops {
                op_at(plan, i)
            } else if i == pin_ops {
                SleepOp::ArmTimer { micros: plan.duration_us }
            } else {
                SleepOp::Sleep
            },
    )
}

/// What holds of the controller in every state it can reach.
pub open spec fn consistent(s: SleepState) -> bool {
    &&& 0 <= s.step <= SEQUENCE_LEN
    &&& 0 <= s.pin_ops <= TIMER_STEP
    &&& s.issued == shaped(s.plan, s.pin_ops, s.issued.len())
    &&& s.step <= TIMER_STEP ==> s.pin_ops == s.step && s.issued.len() == s.step
    &&& s.step == SLEEP_STEP ==> s.issued.len() == s.pin_ops + 1
    &&& s.step == SEQUENCE_LEN ==> s.issued.len() >= s.pin_ops + 2
    &&& !s.faulted && s.step > TIMER_STEP ==> s.pin_ops == TIMER_STEP
}

/// The deep-sleep controller.
pub struct DeepSleep {
    plan: SleepPlan,
    step: u8,
    faulted: bool,
    pin_ops: Ghost<int>,
    issued: Ghost<Seq<SleepOp>>,
}

impl View for DeepSleep {
    type V = SleepState;

    closed spec fn view(&self) -> SleepState {
        SleepState {
            plan: self.plan,
            step: self.step as int,
            faulted: self.faulted,
            pin_ops: self.pin_ops@,
            issued: self.issued@,
        }
    }
}

/// Begins the entry into deep sleep: `pin_a` and `pin_b` are to be held low
/// while the device sleeps for `duration_us` microseconds.
pub fn enter_deep_sleep(pin_a: u8, pin_b: u8, duration_us: u64) -> (controller: DeepSleep)
    ensures
        controller@ == initial(SleepPlan { pin_a, pin_b, duration_us }),
        controller.wf(),
{
    let controller = DeepSleep {
        plan: SleepPlan { pin_a, pin_b, duration_us },
        step: 0,
        faulted: false,
        pin_ops: Ghost(0),
        issued: Ghost(Seq::empty()),
    };
    proof {
        lemma_initial_is_consistent(SleepPlan { pin_a, pin_b, duration_us });
    }
    controller
}

impl DeepSleep {
    pub open spec fn wf(&self) -> bool {
        consistent(self@)
    }

    pub fn plan(&self) -> (plan: SleepPlan)
        ensures
            plan == self@.plan,
    {
        self.plan
    }

    /// Whether an operation has been reported as failed.
    pub fn faulted(&self) -> (faulted: bool)
        ensures
            faulted == self@.faulted,
    {
        self.faulted
    }

    fn op(&self, step: u8) -> (op: SleepOp)
        ensures
            op == op_at(self@.plan, step as int),
    {
        if step == 0 {
            SleepOp::ConfigureOutput { pin: self.plan.pin_a }
        } else if step == 1 {
            SleepOp::ConfigureOutput { pin: self.plan.pin_b }
        } else if step == 2 {
            SleepOp::SetLow { pin: self.plan.pin_a }
        } else if step == 3 {
            SleepOp::SetLow { pin: self.plan.pin_b }
        } else if step == 4 {
            SleepOp::HoldEnable { pin: self.plan.pin_a }
        } else if step == 5 {
            SleepOp::HoldEnable { pin: self.plan.pin_b }
        } else if step == 6 {
            SleepOp::DeepSleepHoldEnable
        } else if step == 7 {
            SleepOp::ArmTimer { micros: self.plan.duration_us }
        } else {
            SleepOp::Sleep
        }
    }

    /// Hands out the next operation. `previous_failed` says whether the
    /// operation handed out before has failed.
    pub fn next(&mut self, previous_failed: bool) -> (op: SleepOp)
        requires
            old(self).wf(),
        ensures
            final(self).wf(),
            (final(self)@, op) == next(old(self)@, previous_failed),
    {
        proof {
            lemma_consistency_is_kept(self@, previous_failed);
        }
        let skip: bool = previous_failed && 0 < self.step && self.step <= TIMER_STEP;
        let at: u8 = if skip {
            TIMER_STEP
        } else {
            self.step
        };
        let op = self.op(at);
        if previous_failed && 0 < self.step && self.step <= SLEEP_STEP {
            self.faulted = true;
        }
        self.step = if at >= SLEEP_STEP {
            SEQUENCE_LEN
        } else {
            at + 1
        };
        proof {
            if at < TIMER_STEP {
                self.pin_ops@ = self.pin_ops@ + 1;
            }
            self.issued@ = self.issued@.push(op);
        }
        op
    }
}

pub proof fn lemma_initial_is_consistent(plan: SleepPlan)
    ensures
        consistent(initial(plan)),
{
    assert(initial(plan).issued =~= shaped(plan, 0, 0));
}

/// Every transition keeps a consistent state consistent.
pub proof fn lemma_consistency_is_kept(s: SleepState, previous_failed: bool)
    requires
        consistent(s),
    ensures
        consistent(next(s, previous_failed).0),
{
    let t = next(s, previous_failed).0;
    assert(t.issued =~= shaped(t.plan, t.pin_ops, t.issued.len()));
}

/// The order of the hardware trace, in every state that the controller can
/// reach and so whatever was reported of the operations: kinds of operation
/// never go backwards (configure, drive low, hold, hold of the deep-sleep
/// domain, timer, sleep); a pin's hold is enabled only after that pin has
/// been driven low; the hold of the deep-sleep domain comes only after both
/// pins are held; the timer is armed with the planned duration, once, after
/// all work on the pins; sleep is triggered only after the timer has been
/// armed.
pub proof fn lemma_hold_ordering(s: SleepState)
    requires
        consistent(s),
    ensures
        forall|i: int, j: int|
            0 <= i <= j < s.issued.len() ==> rank(#[trigger] s.issued[i]) <= rank(
                #[trigger] s.issued[j],
            ),
        forall|i: int|
            0 <= i < s.issued.len() && #[trigger] s.issued[i] is HoldEnable ==> i >= 2
                && s.issued[i - 2] == (SleepOp::SetLow { pin: s.issued[i]->HoldEnable_pin }),
        forall|i: int|
            0 <= i < s.issued.len() && #[trigger] s.issued[i] is DeepSleepHoldEnable ==> i == 6
                && s.issued[4] == (SleepOp::HoldEnable { pin: s.plan.pin_a }) && s.issued[5] == (
            SleepOp::HoldEnable { pin: s.plan.pin_b }),
        forall|i: int|
            0 <= i < s.issued.len() && #[trigger] s.issued[i] is ArmTimer ==> i == s.pin_ops
                && s.issued[i] == (SleepOp::ArmTimer { micros: s.plan.duration_us }),
        forall|i: int|
            0 <= i < s.issued.len() && #[trigger] s.issued[i] is Sleep ==> i > s.pin_ops
                && s.issued[s.pin_ops] is ArmTimer,
{
    let t = shaped(s.plan, s.pin_ops, s.issued.len());
    assert forall|i: int, j: int| 0 <= i <= j < s.issued.len() implies rank(
        #[trigger] s.issued[i],
    ) <= rank(#[trigger] s.issued[j]) by {
        assert(s.issued[i] == t[i]);
        assert(s.issued[j] == t[j]);
    }
    assert forall|i: int| 0 <= i < s.issued.len() && #[trigger] s.issued[i] is HoldEnable implies i
        >= 2 && s.issued[i - 2] == (SleepOp::SetLow { pin: s.issued[i]->HoldEnable_pin }) by {
        assert(s.issued[i] == t[i]);
        assert(i == 4 || i == 5);
        assert(s.issued[i - 2] == t[i - 2]);
    }
    assert forall|i: int|
        0 <= i < s.issued.len() && #[trigger] s.issued[i] is DeepSleepHoldEnable implies i == 6
        && s.issued[4] == (SleepOp::HoldEnable { pin: s.plan.pin_a }) && s.issued[5] == (
    SleepOp::HoldEnable { pin: s.plan.pin_b }) by {
        assert(s.issued[i] == t[i]);
        assert(s.issued[4] == t[4]);
        assert(s.issued[5] == t[5]);
    }
    assert forall|i: int| 0 <= i < s.issued.len() && #[trigger] s.issued[i] is ArmTimer implies i
        == s.pin_ops && s.issued[i] == (SleepOp::ArmTimer { micros: s.plan.duration_us }) by {
        assert(s.issued[i] == t[i]);
    }
    assert forall|i: int| 0 <= i < s.issued.len() && #[trigger] s.issued[i] is Sleep implies i
        > s.pin_ops && s.issued[s.pin_ops] is ArmTimer by {
        assert(s.issued[i] == t[i]);
        assert(s.issued[s.pin_ops] == t[s.pin_ops]);
    }
}

/// The state of the controller after it has answered a sequence of reports.
pub open spec fn run(s: SleepState, reports: Seq<bool>) -> SleepState
    decreases reports.len(),
{
    if reports.len() == 0 {
        s
    } else {
        run(next(s, reports[0]).0, reports.skip(1))
    }
}

/// Whatever is reported of the operations, the controller stays consistent,
/// so that its trace is in order; it hands out one operation per report; and
/// from the ninth operation on, every operation is `Sleep`.
pub proof fn lemma_trace_is_ordered(plan: SleepPlan, reports: Seq<bool>)
    ensures
        consistent(run(initial(plan), reports)),
        run(initial(plan), reports).plan == plan,
        run(initial(plan), reports).issued.len() == reports.len(),
        forall|i: int|
            SLEEP_STEP <= i < reports.len() ==> #[trigger] run(initial(plan), reports).issued[i]
                is Sleep,
{
    lemma_initial_is_consistent(plan);
    lemma_run(initial(plan), reports);
    let last = run(initial(plan), reports);
    let t = shaped(last.plan, last.pin_ops, last.issued.len());
    assert forall|i: int| SLEEP_STEP <= i < reports.len() implies #[trigger] last.issued[i]
        is Sleep by {
        assert(last.issued[i] == t[i]);
    }
}

proof fn lemma_run(s: SleepState, reports: Seq<bool>)
    requires
        consistent(s),
    ensures
        consistent(run(s, reports)),
        run(s, reports).issued.len() == s.issued.len() + reports.len(),
        run(s, reports).plan == s.plan,
        !s.faulted && (forall|i: int| 0 <= i < reports.len() ==> !reports[i]) ==> !run(
            s,
            reports,
        ).faulted,
    decreases reports.len(),
{
    if reports.len() > 0 {
        lemma_consistency_is_kept(s, reports[0]);
        let tail = reports.skip(1);
        assert forall|i: int| 0 <= i < tail.len() implies tail[i] == reports[i + 1] by {}
        lemma_run(next(s, reports[0]).0, tail);
    }
}

/// When no operation fails, the trace is the undisturbed sequence, as far as
/// it has come.
pub proof fn lemma_undisturbed_trace(plan: SleepPlan, reports: Seq<bool>)
    requires
        forall|i: int| 0 <= i < reports.len() ==> !reports[i],
    ensures
        forall|i: int|
            0 <= i < reports.len() && i < SEQUENCE_LEN ==> #[trigger] run(
                initial(plan),
                reports,
            ).issued[i] == sequence(plan)[i],
{
    lemma_initial_is_consistent(plan);
    lemma_run(initial(plan), reports);
    let last = run(initial(plan), reports);
    let t = shaped(last.plan, last.pin_ops, last.issued.len());
    assert forall|i: int| 0 <= i < reports.len() && i < SEQUENCE_LEN implies #[trigger] last.issued[i]
        == sequence(plan)[i] by {
        assert(last.issued[i] == t[i]);
    }
}

} // verus!
