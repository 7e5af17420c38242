use gnss_beacon::decoder::Fix;
use gnss_beacon::deep_sleep::{enter_deep_sleep, SleepOp};
use gnss_beacon::duty_cycle::{
    BootEvent, BootStep, DutyCycle, Report, Stage, ADC_ENABLE_PIN, COUNTDOWN_SECONDS,
    DEEP_SLEEP_US, GNSS_POWER_PIN, GNSS_RX_PIN, GNSS_TX_PIN, GNSS_UART, USB_SETTLE_MS,
};
use gnss_beacon::session::{get_lat_lon, Command, Event, Outcome};

const RMC: &[u8] = b"$GPRMC,123519,A,4807.038,N,01131.000,E,022.4,084.4,230394,003.1,W*6A\r\n";

const ACQUIRE: BootStep =
    BootStep::AcquireFix { uart: 1, rx_pin: 34, tx_pin: 33, power_pin: 3, timeout_ms: 300_000 };
const SLEEP: BootStep = BootStep::EnterDeepSleep { pin_a: 3, pin_b: 2, duration_us: 10_000_000 };

/// What the hardware saw, across the three controllers.
#[derive(Debug, PartialEq, Clone, Copy)]
enum Seen {
    Boot(BootStep),
    Session(Command),
    Sleep(SleepOp),
}

fn boot(answer: impl Fn(BootStep) -> BootEvent) -> Vec<BootStep> {
    let mut cycle = DutyCycle::new();
    let mut steps = Vec::new();
    let mut event = BootEvent::Done;
    loop {
        let step = cycle.step(event);
        steps.push(step);
        if matches!(step, BootStep::EnterDeepSleep { .. }) {
            assert_eq!(cycle.stage(), Stage::Sleeping);
            return steps;
        }
        event = answer(step);
    }
}

fn whole_boot(uart: &[u8]) -> Vec<Seen> {
    let mut seen = Vec::new();
    let mut cycle = DutyCycle::new();
    let mut event = BootEvent::Done;
    loop {
        let step = cycle.step(event);
        seen.push(Seen::Boot(step));
        event = BootEvent::Done;
        match step {
            BootStep::AcquireFix { uart: port, rx_pin, tx_pin, power_pin, timeout_ms } => {
                let mut session = get_lat_lon(port, rx_pin, tx_pin, power_pin, timeout_ms);
                let mut sent = false;
                let mut command = session.step(Event::Done, 0);
                loop {
                    seen.push(Seen::Session(command));
                    let answer = match command {
                        Command::Finish(outcome) => {
                            event = BootEvent::Session(outcome);
                            break;
                        }
                        Command::Read { .. } if !sent => {
                            sent = true;
                            Event::Data(uart.to_vec())
                        }
                        Command::Read { .. } => Event::Data(Vec::new()),
                        _ => Event::Done,
                    };
                    command = session.step(answer, 600);
                }
            }
            BootStep::EnterDeepSleep { pin_a, pin_b, duration_us } => {
                let mut controller = enter_deep_sleep(pin_a, pin_b, duration_us);
                loop {
                    let op = controller.next(false);
                    seen.push(Seen::Sleep(op));
                    if op == SleepOp::Sleep {
                        return seen;
                    }
                }
            }
            _ => {}
        }
    }
}

#[test]
fn board_constants() {
    assert_eq!(GNSS_POWER_PIN, 3);
    assert_eq!(ADC_ENABLE_PIN, 2);
    assert_eq!(GNSS_UART, 1);
    assert_eq!(GNSS_TX_PIN, 33);
    assert_eq!(GNSS_RX_PIN, 34);
    assert_eq!(USB_SETTLE_MS, 3_000);
    assert_eq!(COUNTDOWN_SECONDS, 5);
    assert_eq!(DEEP_SLEEP_US, 10 * 1_000_000);
}

#[test]
fn a_boot_with_a_fix() {
    let fix = Fix { latitude_bits: 48.1173f64.to_bits(), longitude_bits: 11.5167f64.to_bits() };
    let steps = boot(|step| match step {
        BootStep::AcquireFix { .. } => BootEvent::Session(Outcome::Fix(fix)),
        _ => BootEvent::Done,
    });
    assert_eq!(
        steps,
        vec![
            BootStep::InitPlatform,
            BootStep::Delay { ms: 3_000 },
            BootStep::ReleaseHold { pin: 3 },
            BootStep::ReleaseHold { pin: 2 },
            BootStep::TakePeripherals,
            ACQUIRE,
            BootStep::Log(Report::Fix(fix)),
            BootStep::Countdown { seconds_left: 5 },
            BootStep::Countdown { seconds_left: 4 },
            BootStep::Countdown { seconds_left: 3 },
            BootStep::Countdown { seconds_left: 2 },
            BootStep::Countdown { seconds_left: 1 },
            SLEEP,
        ]
    );
}

#[test]
fn a_boot_without_a_fix_logs_its_absence() {
    let steps = boot(|step| match step {
        BootStep::AcquireFix { .. } => BootEvent::Session(Outcome::NoFix),
        _ => BootEvent::Done,
    });
    assert_eq!(steps[6], BootStep::Log(Report::NoFix));
    assert_eq!(steps.len(), 13);
    assert_eq!(steps[12], SLEEP);
}

#[test]
fn a_hardware_failure_is_logged_and_the_device_sleeps() {
    for event in [BootEvent::Session(Outcome::HardwareSetup), BootEvent::Failed, BootEvent::Done] {
        let steps = boot(|step| match step {
            BootStep::AcquireFix { .. } => event,
            _ => BootEvent::Done,
        });
        assert_eq!(steps[6], BootStep::Log(Report::HardwareSetup));
        assert_eq!(steps[12], SLEEP);
    }
}

#[test]
fn taking_the_peripherals_twice_is_logged_and_the_device_sleeps() {
    let steps = boot(|step| match step {
        BootStep::TakePeripherals => BootEvent::Failed,
        _ => BootEvent::Done,
    });
    assert_eq!(steps[..5], boot(|_| BootEvent::Done)[..5]);
    assert_eq!(steps[5], BootStep::Log(Report::RegistryReuse));
    assert!(!steps.contains(&ACQUIRE));
    assert_eq!(steps.len(), 12);
    assert_eq!(steps[11], SLEEP);
}

#[test]
fn failures_before_the_registry_do_not_change_the_line() {
    let steps = boot(|step| match step {
        BootStep::AcquireFix { .. } => BootEvent::Session(Outcome::NoFix),
        BootStep::TakePeripherals => BootEvent::Done,
        _ => BootEvent::Failed,
    });
    assert_eq!(
        steps,
        boot(|step| match step {
            BootStep::AcquireFix { .. } => BootEvent::Session(Outcome::NoFix),
            _ => BootEvent::Done,
        })
    );
}

#[test]
fn a_sleeping_boot_stays_asleep() {
    let mut cycle = DutyCycle::new();
    assert_eq!(cycle.stage(), Stage::Reset);
    for _ in 0..12 {
        cycle.step(BootEvent::Done);
    }
    assert_eq!(cycle.stage(), Stage::CountingDown { seconds_left: 1 });
    for event in [BootEvent::Done, BootEvent::Failed, BootEvent::Session(Outcome::NoFix)] {
        assert_eq!(cycle.step(event), SLEEP);
        assert_eq!(cycle.stage(), Stage::Sleeping);
    }
}

#[test]
fn wake_recovery() {
    let first = whole_boot(RMC);
    let second = whole_boot(RMC);
    assert_eq!(first, second);

    // The first boot ends with both pins held low.
    let n = first.len();
    assert_eq!(first[n - 1], Seen::Sleep(SleepOp::Sleep));
    assert!(first.contains(&Seen::Sleep(SleepOp::HoldEnable { pin: 3 })));
    assert!(first.contains(&Seen::Sleep(SleepOp::HoldEnable { pin: 2 })));

    // The second boot releases both holds before anything configures or
    // drives the two pins.
    let release_power = second.iter().position(|s| *s == Seen::Boot(BootStep::ReleaseHold { pin: 3 })).unwrap();
    let release_adc = second.iter().position(|s| *s == Seen::Boot(BootStep::ReleaseHold { pin: 2 })).unwrap();
    let first_touch = second
        .iter()
        .position(|s| {
            matches!(
                s,
                Seen::Boot(BootStep::AcquireFix { .. })
                    | Seen::Boot(BootStep::EnterDeepSleep { .. })
                    | Seen::Session(_)
                    | Seen::Sleep(_)
            )
        })
        .unwrap();
    assert!(release_power < first_touch);
    assert!(release_adc < first_touch);
    assert_eq!(second[..4], [
        Seen::Boot(BootStep::InitPlatform),
        Seen::Boot(BootStep::Delay { ms: 3_000 }),
        Seen::Boot(BootStep::ReleaseHold { pin: 3 }),
        Seen::Boot(BootStep::ReleaseHold { pin: 2 }),
    ]);

    // The session of the second boot proceeds as usual.
    let fix = Fix {
        latitude_bits: (48.0 + 7.038 / 60.0f64).to_bits(),
        longitude_bits: (11.0 + 31.0 / 60.0f64).to_bits(),
    };
    assert!(second.contains(&Seen::Session(Command::PowerOn { pin: 3 })));
    assert!(second.contains(&Seen::Session(Command::Finish(Outcome::Fix(fix)))));
    assert!(second.contains(&Seen::Boot(BootStep::Log(Report::Fix(fix)))));
    assert!(second.contains(&Seen::Sleep(SleepOp::ArmTimer { micros: 10_000_000 })));
}
