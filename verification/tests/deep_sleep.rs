use gnss_beacon::deep_sleep::{
    enter_deep_sleep, DeepSleep, SleepOp, SleepPlan, SEQUENCE_LEN, SLEEP_STEP, TIMER_STEP,
};

fn drive(controller: &mut DeepSleep, failing: &[SleepOp]) -> Vec<SleepOp> {
    let mut trace = Vec::new();
    let mut failed = false;
    loop {
        let op = controller.next(failed);
        trace.push(op);
        if op == SleepOp::Sleep {
            return trace;
        }
        failed = failing.contains(&op);
    }
}

fn place(trace: &[SleepOp], op: SleepOp) -> usize {
    trace.iter().position(|o| *o == op).unwrap_or_else(|| panic!("{op:?} missing"))
}

#[test]
fn deep_sleep_latch() {
    let mut controller = enter_deep_sleep(3, 2, 10_000_000);
    assert_eq!(controller.plan(), SleepPlan { pin_a: 3, pin_b: 2, duration_us: 10_000_000 });
    let trace = drive(&mut controller, &[]);
    assert_eq!(
        trace,
        vec![
            SleepOp::ConfigureOutput { pin: 3 },
            SleepOp::ConfigureOutput { pin: 2 },
            SleepOp::SetLow { pin: 3 },
            SleepOp::SetLow { pin: 2 },
            SleepOp::HoldEnable { pin: 3 },
            SleepOp::HoldEnable { pin: 2 },
            SleepOp::DeepSleepHoldEnable,
            SleepOp::ArmTimer { micros: 10_000_000 },
            SleepOp::Sleep,
        ]
    );
    assert!(!controller.faulted());
    for pin in [3, 2] {
        assert!(place(&trace, SleepOp::SetLow { pin }) < place(&trace, SleepOp::HoldEnable { pin }));
        assert!(place(&trace, SleepOp::HoldEnable { pin }) < place(&trace, SleepOp::DeepSleepHoldEnable));
    }
    assert!(place(&trace, SleepOp::DeepSleepHoldEnable) < place(&trace, SleepOp::ArmTimer { micros: 10_000_000 }));
    assert!(place(&trace, SleepOp::ArmTimer { micros: 10_000_000 }) < place(&trace, SleepOp::Sleep));
}

#[test]
fn sequence_places() {
    assert_eq!(SEQUENCE_LEN, 9);
    assert_eq!(TIMER_STEP, 7);
    assert_eq!(SLEEP_STEP, 8);
}

#[test]
fn a_failure_on_the_pins_goes_straight_to_the_timer() {
    for (failing, done) in [
        (SleepOp::ConfigureOutput { pin: 3 }, 1),
        (SleepOp::ConfigureOutput { pin: 2 }, 2),
        (SleepOp::SetLow { pin: 3 }, 3),
        (SleepOp::SetLow { pin: 2 }, 4),
        (SleepOp::HoldEnable { pin: 3 }, 5),
        (SleepOp::HoldEnable { pin: 2 }, 6),
        (SleepOp::DeepSleepHoldEnable, 7),
    ] {
        let mut clean = enter_deep_sleep(3, 2, 42);
        let nominal = drive(&mut clean, &[]);
        let mut controller = enter_deep_sleep(3, 2, 42);
        let trace = drive(&mut controller, &[failing]);
        let mut expected = nominal[..done].to_vec();
        expected.push(SleepOp::ArmTimer { micros: 42 });
        expected.push(SleepOp::Sleep);
        assert_eq!(trace, expected, "failing {failing:?}");
        assert!(controller.faulted());
    }
}

#[test]
fn a_failure_of_the_timer_does_not_keep_the_device_awake() {
    let mut controller = enter_deep_sleep(3, 2, 42);
    let trace = drive(&mut controller, &[SleepOp::ArmTimer { micros: 42 }]);
    assert_eq!(trace.len(), 9);
    assert_eq!(trace[8], SleepOp::Sleep);
    assert!(controller.faulted());
}

#[test]
fn the_first_report_is_ignored() {
    let mut controller = enter_deep_sleep(3, 2, 42);
    assert_eq!(controller.next(true), SleepOp::ConfigureOutput { pin: 3 });
    assert!(!controller.faulted());
    assert_eq!(controller.next(false), SleepOp::ConfigureOutput { pin: 2 });
}

#[test]
fn after_sleep_only_sleep() {
    let mut controller = enter_deep_sleep(7, 8, 1);
    drive(&mut controller, &[]);
    assert_eq!(controller.next(false), SleepOp::Sleep);
    assert_eq!(controller.next(true), SleepOp::Sleep);
    assert!(!controller.faulted());
}

#[test]
fn one_pin_given_twice() {
    let mut controller = enter_deep_sleep(5, 5, u64::MAX);
    let trace = drive(&mut controller, &[]);
    assert_eq!(trace.len(), 9);
    assert_eq!(trace[7], SleepOp::ArmTimer { micros: u64::MAX });
    assert_eq!(trace[4], trace[5]);
}
