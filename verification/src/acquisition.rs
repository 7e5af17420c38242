//! The byte-by-byte part of the acquisition loop: reassemble lines, give
//! each to the decoder, stop at the first fix.

use crate::accumulator::{
    absorb, completed, framed, free_of_line_feed, is_sentence,
    lemma_lines_of_framed, lines, remainder, NmeaAccumulator,
};
use crate::decoder::{
    fix_in, fix_of, is_complete, no_position, reading_after, sentence_effect, Decoder, Fix,
    Position, SentenceEffect,
};
use vstd::prelude::*;

verus! {

/// How far an acquisition has come: the unfinished line, the position that
/// the decoder holds, and the sentences that the decoder has been given.
pub struct Progress {
    pub pending: Seq<u8>,
    pub position: Position,
    pub seen: Seq<Seq<u8>>,
}

/// An acquisition that has received nothing yet.
pub open spec fn fresh() -> Progress {
    Progress { pending: Seq::empty(), position: no_position(), seen: Seq::empty() }
}

/// One byte of the acquisition loop. The byte is appended to the unfinished
/// line. A line feed completes the line; unless it is empty once stripped,
/// it goes to the decoder, and after an accepted sentence the decoder's
/// latitude and longitude, if both are present, are the fix.
pub open spec fn scan_byte(state: Progress, byte: u8) -> (Progress, Option<Fix>) {
    let pending = absorb(state.pending, byte);
    match completed(state.pending, byte) {
        Some(line) => if line.len() > 0 {
            let reading = reading_after(state.position, sentence_effect(line));
            (
                Progress { pending, position: reading.position, seen: state.seen.push(line) },
                fix_in(reading),
            )
        } else {
            (Progress { pending, ..state }, None)
        },
        None => (Progress { pending, ..state }, None),
    }
}

/// The acquisition loop over one chunk: byte after byte, up to and including
/// the byte that gives a fix. What follows that byte is not looked at.
pub open spec fn scan(state: Progress, bytes: Seq<u8>) -> (Progress, Option<Fix>)
    decreases bytes.len(),
{
    if bytes.len() == 0 {
        (state, None)
    } else {
        let (next, fix) = scan_byte(state, bytes[0]);
        if fix is Some {
            (next, fix)
        } else {
            scan(next, bytes.skip(1))
        }
    }
}

/// The fix that a sentence carries in itself: the decoder takes it and it
/// sets both coordinates.
pub open spec fn sentence_fix(line: Seq<u8>) -> Option<Fix> {
    match sentence_effect(line) {
        SentenceEffect::Replaced(position) => if is_complete(position) {
            Some(
                Fix {
                    latitude_bits: position.latitude->0,
                    longitude_bits: position.longitude->0,
                },
            )
        } else {
            None
        },
        _ => None,
    }
}

/// The number of sentences at the front of `sentences` that carry no fix.
pub open spec fn leading_without_fix(sentences: Seq<Seq<u8>>) -> nat
    decreases sentences.len(),
{
    if sentences.len() == 0 || sentence_fix(sentences[0]) is Some {
        0
    } else {
        1 + leading_without_fix(sentences.skip(1))
    }
}

/// The sentences up to and including the first that carries a fix, or all of
/// them if none does.
pub open spec fn through_first_fix(sentences: Seq<Seq<u8>>) -> Seq<Seq<u8>> {
    let k = leading_without_fix(sentences);
    if k < sentences.len() {
        sentences.take(k as int + 1)
    } else {
        sentences
    }
}

/// The fix of the first sentence that carries one.
pub open spec fn first_fix(sentences: Seq<Seq<u8>>) -> Option<Fix> {
    let k = leading_without_fix(sentences);
    if k < sentences.len() {
        sentence_fix(sentences[k as int])
    } else {
        None
    }
}

/// The accumulator and the decoder of one session.
pub struct Acquisition {
    accumulator: NmeaAccumulator,
    decoder: Decoder,
}

impl View for Acquisition {
    type V = Progress;

    closed spec fn view(&self) -> Progress {
        Progress {
            pending: self.accumulator@,
            position: self.decoder.position(),
            seen: self.decoder.seen(),
        }
    }
}

impl Acquisition {
    /// The unfinished line holds no line feed.
    pub open spec fn wf(&self) -> bool {
        free_of_line_feed(self@.pending)
    }

    pub fn new() -> (acquisition: Self)
        ensures
            acquisition@ == fresh(),
            acquisition.wf(),
    {
        Acquisition { accumulator: NmeaAccumulator::new(), decoder: Decoder::new() }
    }

    /// Runs the acquisition loop over one chunk of received bytes.
    pub fn scan(&mut self, bytes: &Vec<u8>) -> (fix: Option<Fix>)
        requires
            old(self).wf(),
        ensures
            final(self).wf(),
            (final(self)@, fix) == scan(old(self)@, bytes@),
    {
        let n: usize = bytes.len();
        let mut i: usize = 0;
        proof {
            assert(bytes@.skip(0) =~= bytes@);
        }
        while i < n
            invariant
                i <= n,
                n == bytes.len(),
                self.wf(),
                scan(old(self)@, bytes@) == scan(self@, bytes@.skip(i as int)),
            decreases n - i,
        {
            let ghost before = self@;
            let ghost rest = bytes@.skip(i as int);
            proof {
                assert(rest[0] == bytes@[i as int]);
                assert(rest.skip(1) =~= bytes@.skip(i + 1));
            }
            let byte: u8 = bytes[i];
            match self.accumulator.push(byte) {
                Some(line) => {
                    if line.len() > 0 {
                        let reading = self.decoder.feed(&line);
                        let found = fix_of(&reading);
                        proof {
                            assert((self@, found) == scan_byte(before, byte));
                        }
                        if found.is_some() {
                            return found;
                        }
                    } else {
                        proof {
                            assert((self@, None::<Fix>) == scan_byte(before, byte));
                        }
                    }
                },
                None => {
                    proof {
                        assert((self@, None::<Fix>) == scan_byte(before, byte));
                    }
                },
            }
            i += 1;
        }
        None
    }
}

/// The acquisition loop leaves no line feed in the unfinished line.
pub proof fn lemma_scan_keeps_no_line_feed(state: Progress, bytes: Seq<u8>)
    requires
        free_of_line_feed(state.pending),
    ensures
        free_of_line_feed(scan(state, bytes).0.pending),
    decreases bytes.len(),
{
    if bytes.len() > 0 {
        let (after, fix) = scan_byte(state, bytes[0]);
        if fix is None {
            lemma_scan_keeps_no_line_feed(after, bytes.skip(1));
        }
    }
}

/// While the decoder holds no complete position, the fix that the loop
/// returns is the one carried by the first sentence that carries any, taken
/// from the decoder right after that sentence; the decoder has then seen the
/// completed lines in their order of arrival, each whole, up to and including
/// that sentence, and nothing else. Without such a sentence there is no fix,
/// the decoder has seen every completed line, and it still holds no complete
/// position.
pub proof fn lemma_scan_returns_first_fix(state: Progress, bytes: Seq<u8>)
    requires
        !is_complete(state.position),
    ensures
        scan(state, bytes).1 == first_fix(lines(state.pending, bytes)),
        scan(state, bytes).0.seen == state.seen + through_first_fix(lines(state.pending, bytes)),
        match scan(state, bytes).1 {
            Some(fix) => scan(state, bytes).0.position == Position {
                latitude: Some(fix.latitude_bits),
                longitude: Some(fix.longitude_bits),
            },
            None => !is_complete(scan(state, bytes).0.position) && scan(state, bytes).0.pending
                == remainder(state.pending, bytes),
        },
    decreases bytes.len(),
{
    let all = lines(state.pending, bytes);
    if bytes.len() == 0 {
        assert(state.seen + through_first_fix(all) =~= state.seen);
    } else {
        let (next, fix) = scan_byte(state, bytes[0]);
        let tail = bytes.skip(1);
        let rest = lines(next.pending, tail);
        match completed(state.pending, bytes[0]) {
            Some(line) => {
                if line.len() > 0 {
                    assert(all == seq![line] + rest);
                    assert(all[0] == line);
                    assert(all.skip(1) =~= rest);
                    assert(fix == sentence_fix(line));
                    if fix is Some {
                        assert(all.take(1) =~= seq![line]);
                        assert(state.seen + seq![line] =~= state.seen.push(line));
                    } else {
                        lemma_scan_returns_first_fix(next, tail);
                        let k = leading_without_fix(rest);
                        assert(leading_without_fix(all) == k + 1);
                        if k < rest.len() {
                            assert(all.take(k as int + 2) =~= seq![line] + rest.take(k as int + 1));
                            assert(all[k as int + 1] == rest[k as int]);
                        }
                        assert(through_first_fix(all) =~= seq![line] + through_first_fix(rest));
                        assert(state.seen + (seq![line] + through_first_fix(rest))
                            =~= state.seen.push(line) + through_first_fix(rest));
                    }
                } else {
                    lemma_scan_returns_first_fix(next, tail);
                }
            },
            None => {
                lemma_scan_returns_first_fix(next, tail);
            },
        }
    }
}

/// Cutting a stream into two chunks does not change what the loop does with
/// it, as long as the first chunk gives no fix.
pub proof fn lemma_scan_chunking(state: Progress, first: Seq<u8>, second: Seq<u8>)
    ensures
        scan(state, first + second) == if scan(state, first).1 is Some {
            scan(state, first)
        } else {
            scan(scan(state, first).0, second)
        },
    decreases first.len(),
{
    if first.len() == 0 {
        assert(first + second =~= second);
    } else {
        let whole = first + second;
        assert(whole[0] == first[0]);
        assert(whole.skip(1) =~= first.skip(1) + second);
        let (next, fix) = scan_byte(state, first[0]);
        if fix is None {
            lemma_scan_chunking(next, first.skip(1), second);
        }
    }
}

/// Sentences that arrive one after the other at a fresh acquisition, each
/// with its line ending, reach the decoder as exactly those sentences in
/// that order, up to and including the first that carries a fix, whose fix
/// is returned.
pub proof fn lemma_scan_of_framed(sentences: Seq<Seq<u8>>)
    requires
        forall|i: int| 0 <= i < sentences.len() ==> is_sentence(#[trigger] sentences[i]),
    ensures
        scan(fresh(), framed(sentences)).1 == first_fix(sentences),
        scan(fresh(), framed(sentences)).0.seen == through_first_fix(sentences),
{
    lemma_lines_of_framed(sentences);
    lemma_scan_returns_first_fix(fresh(), framed(sentences));
    assert(Seq::<Seq<u8>>::empty() + through_first_fix(sentences) =~= through_first_fix(
        sentences,
    ));
}

} // verus!
