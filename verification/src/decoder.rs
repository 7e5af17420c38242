//! The NMEA decoder and what the session reads from it.
//!
//! Decoding is done by the `nmea` crate. Its decoder is a state object that
//! is updated by one sentence after the other; the session reads two things
//! from it, the latest latitude and the latest longitude. This module states
//! what a sentence does to those two, and leaves everything else that the
//! decoder keeps to the decoder.
//!
//! The crate is built with the sentence types that carry a position (GGA,
//! GLL, GNS, RMC) and no others. Satellite lists (GSA, GSV) are left out on
//! purpose: the decoder collects them in tables of fixed size and panics when
//! one overflows, which a long run of such sentences can bring about.

use vstd::prelude::*;

verus! {

#[verifier::external_type_specification]
#[verifier::external_body]
pub struct ExNmea(nmea::Nmea);

/// Latitude and longitude as the decoder holds them, each present or absent.
/// A coordinate is carried as the bit pattern of an IEEE 754 double that
/// gives signed decimal degrees (north and east positive).
#[derive(Clone, Copy, Debug, PartialEq, Eq)]
pub struct Position {
    pub latitude: Option<u64>,
    pub longitude: Option<u64>,
}

/// A position of which both coordinates are known.
#[derive(Clone, Copy, Debug, PartialEq, Eq)]
pub struct Fix {
    pub latitude_bits: u64,
    pub longitude_bits: u64,
}

/// What one sentence does to the position that the decoder holds.
pub enum SentenceEffect {
    /// The decoder returned an error: malformed, wrong checksum, unknown or
    /// unsupported type. The position stays as it was.
    Rejected,
    /// The decoder took the sentence, which carries no position field. The
    /// position stays as it was.
    Kept,
    /// The decoder took the sentence and replaced latitude and longitude
    /// together by what the sentence carries.
    Replaced(Position),
}

/// The decoder's answer to one sentence, with the position it holds
/// afterwards.
#[derive(Clone, Copy, Debug, PartialEq, Eq)]
pub struct Reading {
    pub accepted: bool,
    pub position: Position,
}

/// The effect of `nmea::Nmea::parse` on the decoder's latitude and longitude
/// when it is given `line`, each byte taken as one character.
pub uninterp spec fn sentence_effect(line: Seq<u8>) -> SentenceEffect;

/// The fields `latitude` and `longitude` of a decoder.
pub uninterp spec fn held_position(decoder: nmea::Nmea) -> Position;

pub open spec fn no_position() -> Position {
    Position { latitude: None, longitude: None }
}

/// The position held after a sentence with the given effect.
pub open spec fn position_after(held: Position, effect: SentenceEffect) -> Position {
    match effect {
        SentenceEffect::Replaced(position) => position,
        _ => held,
    }
}

/// The reading taken after a sentence with the given effect.
pub open spec fn reading_after(held: Position, effect: SentenceEffect) -> Reading {
    Reading { accepted: !(effect is Rejected), position: position_after(held, effect) }
}

pub open spec fn is_complete(position: Position) -> bool {
    position.latitude is Some && position.longitude is Some
}

/// The fix that a reading yields: after an accepted sentence, the pair of
/// coordinates if both are present in that reading.
pub open spec fn fix_in(reading: Reading) -> Option<Fix> {
    if reading.accepted && is_complete(reading.position) {
        Some(
            Fix {
                latitude_bits: reading.position.latitude->0,
                longitude_bits: reading.position.longitude->0,
            },
        )
    } else {
        None
    }
}

/// `nmea::Nmea::default()`: a decoder in which every optional field is
/// absent, among them latitude and longitude.
#[verifier::external_body]
fn blank_decoder() -> (decoder: nmea::Nmea)
    ensures
        held_position(decoder) == no_position(),
{
    nmea::Nmea::default()
}

/// `nmea::Nmea::parse` on `line`, each byte taken as one character, followed
/// by a read of the decoder's fields `latitude` and `longitude`.
///
/// The contract claims of `parse`: whether it returns `Ok` depends on the
/// sentence alone; on an error it leaves latitude and longitude as they
/// were; on success it either leaves both as they were or overwrites both
/// with values taken from the sentence alone. It claims further that `parse`
/// returns for every input, which rests on the choice of sentence types that
/// the crate is built with.
#[verifier::external_body]
fn parse_line(decoder: &mut nmea::Nmea, line: &Vec<u8>) -> (reading: Reading)
    ensures
        reading.accepted == !(sentence_effect(line@) is Rejected),
        reading.position == held_position(*final(decoder)),
        held_position(*final(decoder)) == position_after(
            held_position(*old(decoder)),
            sentence_effect(line@),
        ),
{
    let text: String = line.iter().map(|byte| char::from(*byte)).collect();
    let accepted = decoder.parse(&text).is_ok();
    let latitude = match decoder.latitude {
        Some(degrees) => Some(degrees.to_bits()),
        None => None,
    };
    let longitude = match decoder.longitude {
        Some(degrees) => Some(degrees.to_bits()),
        None => None,
    };
    Reading { accepted, position: Position { latitude, longitude } }
}

/// The fix in a reading, if it holds one.
pub fn fix_of(reading: &Reading) -> (fix: Option<Fix>)
    ensures
        fix == fix_in(*reading),
{
    if !reading.accepted {
        return None;
    }
    match (reading.position.latitude, reading.position.longitude) {
        (Some(latitude_bits), Some(longitude_bits)) => Some(Fix { latitude_bits, longitude_bits }),
        _ => None,
    }
}

/// The decoder of one session, together with the list of sentences it has
/// been given.
pub struct Decoder {
    inner: nmea::Nmea,
    seen: Ghost<Seq<Seq<u8>>>,
}

impl Decoder {
    /// The latitude and longitude that the decoder holds.
    pub closed spec fn position(&self) -> Position {
        held_position(self.inner)
    }

    /// The sentences that the decoder has been given, oldest first.
    pub closed spec fn seen(&self) -> Seq<Seq<u8>> {
        self.seen@
    }

    pub fn new() -> (decoder: Self)
        ensures
            decoder.position() == no_position(),
            decoder.seen() == Seq::<Seq<u8>>::empty(),
    {
        Decoder { inner: blank_decoder(), seen: Ghost(Seq::empty()) }
    }

    /// Gives one sentence to the decoder and reads the position it holds
    /// afterwards.
    pub fn feed(&mut self, line: &Vec<u8>) -> (reading: Reading)
        ensures
            reading == reading_after(old(self).position(), sentence_effect(line@)),
            final(self).position() == reading.position,
            final(self).seen() == old(self).seen().push(line@),
    {
        let reading = parse_line(&mut self.inner, line);
        proof {
            self.seen@ = self.seen@.push(line@);
        }
        reading
    }
}

} // verus!
