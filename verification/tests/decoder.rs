use gnss_beacon::decoder::{fix_of, Decoder, Fix, Position, Reading};

const RMC: &[u8] = b"$GPRMC,123519,A,4807.038,N,01131.000,E,022.4,084.4,230394,003.1,W*6A";
const GGA: &[u8] = b"$GPGGA,092750.000,5321.6802,N,00630.3372,W,1,8,1.03,61.7,M,55.2,M,,*76";
const GSV: &[u8] = b"$GPGSV,3,1,11,03,03,111,00,04,15,270,00,06,01,010,00,13,06,292,00*74";

const NOTHING: Position = Position { latitude: None, longitude: None };

fn with_checksum(body: &str) -> Vec<u8> {
    let sum = body.bytes().fold(0u8, |acc, byte| acc ^ byte);
    format!("${body}*{sum:02X}").into_bytes()
}

fn degrees(bits: Option<u64>) -> f64 {
    f64::from_bits(bits.expect("coordinate present"))
}

#[test]
fn rmc_sentence_gives_both_coordinates() {
    let mut decoder = Decoder::new();
    let reading = decoder.feed(&RMC.to_vec());
    assert!(reading.accepted);
    let fix = fix_of(&reading).expect("a position sentence yields a fix");
    assert!((f64::from_bits(fix.latitude_bits) - 48.1173).abs() < 1e-9);
    assert!((f64::from_bits(fix.longitude_bits) - (11.0 + 31.0 / 60.0)).abs() < 1e-9);
}

#[test]
fn gga_sentence_in_the_south_west_gives_negative_degrees() {
    let mut decoder = Decoder::new();
    let reading = decoder.feed(&with_checksum("GPGGA,092750.000,5321.6802,S,00630.3372,W,1,8,1.03,61.7,M,55.2,M,,"));
    assert!(reading.accepted);
    assert!((degrees(reading.position.latitude) + (53.0 + 21.6802 / 60.0)).abs() < 1e-9);
    assert!((degrees(reading.position.longitude) + (6.0 + 30.3372 / 60.0)).abs() < 1e-9);
}

#[test]
fn checksum_helper_agrees_with_the_reference_sentences() {
    assert_eq!(with_checksum(std::str::from_utf8(&RMC[1..RMC.len() - 3]).unwrap()), RMC.to_vec());
    assert_eq!(with_checksum(std::str::from_utf8(&GGA[1..GGA.len() - 3]).unwrap()), GGA.to_vec());
}

#[test]
fn unknown_sentence_type_is_rejected() {
    let mut decoder = Decoder::new();
    let reading = decoder.feed(&b"$GPXXX*00".to_vec());
    assert_eq!(reading, Reading { accepted: false, position: NOTHING });
    assert_eq!(fix_of(&reading), None);
}

#[test]
fn wrong_checksum_is_rejected() {
    let mut decoder = Decoder::new();
    let mut line = RMC.to_vec();
    let last = line.len() - 1;
    line[last] = b'B';
    assert_eq!(decoder.feed(&line), Reading { accepted: false, position: NOTHING });
}

#[test]
fn bytes_outside_ascii_are_rejected() {
    let mut decoder = Decoder::new();
    let mut line = RMC.to_vec();
    line[8] = 0xB1;
    assert_eq!(decoder.feed(&line), Reading { accepted: false, position: NOTHING });
    assert_eq!(decoder.feed(&vec![0xFF; 300]), Reading { accepted: false, position: NOTHING });
}

#[test]
fn satellite_lists_leave_the_position_alone() {
    let mut decoder = Decoder::new();
    let before = decoder.feed(&GSV.to_vec());
    assert_eq!(before.position, NOTHING);
    assert_eq!(fix_of(&before), None);
    let fixed = decoder.feed(&RMC.to_vec());
    for _ in 0..40 {
        let after = decoder.feed(&GSV.to_vec());
        assert_eq!(after.position, fixed.position);
    }
}

#[test]
fn rejected_sentence_keeps_the_position_that_was_held() {
    let mut decoder = Decoder::new();
    let fixed = decoder.feed(&GGA.to_vec());
    assert!(fixed.accepted);
    let after = decoder.feed(&b"$GPXXX*00".to_vec());
    assert_eq!(after, Reading { accepted: false, position: fixed.position });
    assert_eq!(fix_of(&after), None);
}

#[test]
fn position_sentence_without_a_position_clears_both_coordinates() {
    let mut decoder = Decoder::new();
    assert!(fix_of(&decoder.feed(&RMC.to_vec())).is_some());
    let void = decoder.feed(&with_checksum("GPRMC,,V,,,,,,,,,"));
    assert_eq!(void, Reading { accepted: true, position: NOTHING });
    assert_eq!(fix_of(&void), None);
}

#[test]
fn fix_of_needs_an_accepted_sentence_and_both_coordinates() {
    let both = Position { latitude: Some(1), longitude: Some(2) };
    assert_eq!(
        fix_of(&Reading { accepted: true, position: both }),
        Some(Fix { latitude_bits: 1, longitude_bits: 2 })
    );
    assert_eq!(fix_of(&Reading { accepted: false, position: both }), None);
    assert_eq!(fix_of(&Reading { accepted: true, position: Position { latitude: Some(1), longitude: None } }), None);
    assert_eq!(fix_of(&Reading { accepted: true, position: Position { latitude: None, longitude: Some(2) } }), None);
    assert_eq!(fix_of(&Reading { accepted: true, position: NOTHING }), None);
}
