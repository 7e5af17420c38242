//! Reassembly of the receiver's byte stream into lines.
//!
//! The receiver talks in lines that end with a line feed. Bytes arrive in
//! chunks of arbitrary size, so a line may be spread over several chunks and
//! one chunk may hold several lines. The accumulator keeps the unfinished
//! tail of the stream; the spec functions `lines` and `remainder` say which
//! lines a stretch of bytes completes and what is left over afterwards.

use vstd::prelude::*;

verus! {

pub const LINE_FEED: u8 = 0x0A;

pub const CARRIAGE_RETURN: u8 = 0x0D;

pub const HORIZONTAL_TAB: u8 = 0x09;

pub const SPACE: u8 = 0x20;

/// The bytes that are stripped from both ends of a line.
pub open spec fn is_blank(byte: u8) -> bool {
    byte == SPACE || byte == CARRIAGE_RETURN || byte == LINE_FEED || byte == HORIZONTAL_TAB
}

/// `s` without the blank bytes at its front.
pub open spec fn strip_front(s: Seq<u8>) -> Seq<u8>
    decreases s.len(),
{
    if s.len() > 0 && is_blank(s[0]) {
        strip_front(s.skip(1))
    } else {
        s
    }
}

/// `s` without the blank bytes at its back.
pub open spec fn strip_back(s: Seq<u8>) -> Seq<u8>
    decreases s.len(),
{
    if s.len() > 0 && is_blank(s.last()) {
        strip_back(s.drop_last())
    } else {
        s
    }
}

/// `s` without the blank bytes at either end.
pub open spec fn trimmed(s: Seq<u8>) -> Seq<u8> {
    strip_back(strip_front(s))
}

/// No byte of `s` is a line feed.
pub open spec fn free_of_line_feed(s: Seq<u8>) -> bool {
    forall|i: int| 0 <= i < s.len() ==> s[i] != LINE_FEED
}

/// The unfinished line after `byte` has been appended to `pending`.
pub open spec fn absorb(pending: Seq<u8>, byte: u8) -> Seq<u8> {
    if byte == LINE_FEED {
        Seq::empty()
    } else {
        pending.push(byte)
    }
}

/// The line that `byte` completes, stripped, if it completes one.
pub open spec fn completed(pending: Seq<u8>, byte: u8) -> Option<Seq<u8>> {
    if byte == LINE_FEED {
        Some(trimmed(pending.push(byte)))
    } else {
        None
    }
}

/// The unfinished line after all of `bytes` have been appended, in order, to
/// an accumulator that held `pending`.
pub open spec fn remainder(pending: Seq<u8>, bytes: Seq<u8>) -> Seq<u8>
    decreases bytes.len(),
{
    if bytes.len() == 0 {
        pending
    } else {
        remainder(absorb(pending, bytes[0]), bytes.skip(1))
    }
}

/// The non-empty stripped lines that `bytes` complete, in order of arrival,
/// for an accumulator that held `pending`.
pub open spec fn lines(pending: Seq<u8>, bytes: Seq<u8>) -> Seq<Seq<u8>>
    decreases bytes.len(),
{
    if bytes.len() == 0 {
        Seq::empty()
    } else {
        let rest = lines(absorb(pending, bytes[0]), bytes.skip(1));
        match completed(pending, bytes[0]) {
            Some(line) => if line.len() > 0 {
                seq![line] + rest
            } else {
                rest
            },
            None => rest,
        }
    }
}

/// The stream that carries `sentences` one after the other, each followed by
/// a carriage return and a line feed.
pub open spec fn framed(sentences: Seq<Seq<u8>>) -> Seq<u8>
    decreases sentences.len(),
{
    if sentences.len() == 0 {
        Seq::empty()
    } else {
        sentences[0] + seq![CARRIAGE_RETURN, LINE_FEED] + framed(sentences.skip(1))
    }
}

/// A sentence as a receiver sends it: not empty, no line feed inside, and no
/// blank byte at either end.
pub open spec fn is_sentence(s: Seq<u8>) -> bool {
    &&& s.len() > 0
    &&& free_of_line_feed(s)
    &&& !is_blank(s[0])
    &&& !is_blank(s.last())
}

pub fn is_ascii_blank(byte: u8) -> (r: bool)
    ensures
        r == is_blank(byte),
{
    byte == SPACE || byte == CARRIAGE_RETURN || byte == LINE_FEED || byte == HORIZONTAL_TAB
}

/// Copies `line` without the blank bytes at either end.
pub fn trim(line: &Vec<u8>) -> (out: Vec<u8>)
    ensures
        out@ == trimmed(line@),
{
    let n: usize = line.len();
    let mut start: usize = 0;
    proof {
        assert(line@.skip(0) =~= line@);
    }
    while start < n && is_ascii_blank(line[start])
        invariant
            start <= n,
            n == line.len(),
            strip_front(line@) == strip_front(line@.skip(start as int)),
        decreases n - start,
    {
        proof {
            assert(line@.skip(start as int).skip(1) =~= line@.skip(start + 1));
        }
        start += 1;
    }
    assert(strip_front(line@) == line@.skip(start as int));
    let mut end: usize = n;
    proof {
        assert(line@.skip(start as int) =~= line@.subrange(start as int, end as int));
    }
    while end > start && is_ascii_blank(line[end - 1])
        invariant
            start <= end <= n,
            n == line.len(),
            trimmed(line@) == strip_back(line@.subrange(start as int, end as int)),
        decreases end,
    {
        proof {
            assert(line@.subrange(start as int, end as int).drop_last() =~= line@.subrange(
                start as int,
                end - 1,
            ));
        }
        end -= 1;
    }
    assert(trimmed(line@) == line@.subrange(start as int, end as int));
    let mut out: Vec<u8> = Vec::new();
    let mut i: usize = start;
    while i < end
        invariant
            start <= i <= end <= n,
            n == line.len(),
            out@ == line@.subrange(start as int, i as int),
        decreases end - i,
    {
        out.push(line[i]);
        proof {
            assert(out@ =~= line@.subrange(start as int, i + 1));
        }
        i += 1;
    }
    out
}

/// The partial current line: every byte received since the last line feed.
pub struct NmeaAccumulator {
    bytes: Vec<u8>,
}

impl View for NmeaAccumulator {
    type V = Seq<u8>;

    closed spec fn view(&self) -> Seq<u8> {
        self.bytes@
    }
}

impl NmeaAccumulator {
    /// The accumulator holds no line feed.
    pub open spec fn wf(&self) -> bool {
        free_of_line_feed(self@)
    }

    pub fn new() -> (acc: Self)
        ensures
            acc@ == Seq::<u8>::empty(),
            acc.wf(),
    {
        NmeaAccumulator { bytes: Vec::new() }
    }

    pub fn len(&self) -> (n: usize)
        ensures
            n == self@.len(),
    {
        self.bytes.len()
    }

    pub fn clear(&mut self)
        ensures
            final(self)@ == Seq::<u8>::empty(),
            final(self).wf(),
    {
        self.bytes.clear();
    }

    /// Appends one byte. A line feed completes the line: the accumulator's
    /// contents are handed back stripped and the accumulator is emptied.
    pub fn push(&mut self, byte: u8) -> (line: Option<Vec<u8>>)
        requires
            old(self).wf(),
        ensures
            final(self).wf(),
            final(self)@ == absorb(old(self)@, byte),
            match line {
                Some(l) => completed(old(self)@, byte) == Some(l@),
                None => completed(old(self)@, byte) is None,
            },
    {
        self.bytes.push(byte);
        if byte == LINE_FEED {
            let line = trim(&self.bytes);
            self.bytes.clear();
            Some(line)
        } else {
            None
        }
    }
}

/// Appending bytes never leaves a line feed in the accumulator, and right
/// after a line feed the accumulator is empty.
pub proof fn lemma_remainder_integrity(pending: Seq<u8>, bytes: Seq<u8>)
    requires
        free_of_line_feed(pending),
    ensures
        free_of_line_feed(remainder(pending, bytes)),
        bytes.len() > 0 && bytes.last() == LINE_FEED ==> remainder(pending, bytes).len() == 0,
    decreases bytes.len(),
{
    if bytes.len() > 0 {
        let tail = bytes.skip(1);
        lemma_remainder_integrity(absorb(pending, bytes[0]), tail);
        if tail.len() > 0 {
            assert(tail.last() == bytes.last());
        }
    }
}

/// Cutting a stream into two chunks changes neither the lines that come out
/// nor their order, nor what is left in the accumulator.
pub proof fn lemma_chunking(pending: Seq<u8>, first: Seq<u8>, second: Seq<u8>)
    ensures
        lines(pending, first + second) == lines(pending, first) + lines(
            remainder(pending, first),
            second,
        ),
        remainder(pending, first + second) == remainder(remainder(pending, first), second),
    decreases first.len(),
{
    if first.len() == 0 {
        assert(first + second =~= second);
        assert(lines(pending, first) + lines(pending, second) =~= lines(pending, second));
    } else {
        let whole = first + second;
        assert(whole[0] == first[0]);
        assert(whole.skip(1) =~= first.skip(1) + second);
        let next = absorb(pending, first[0]);
        lemma_chunking(next, first.skip(1), second);
        let a = lines(next, first.skip(1));
        let b = lines(remainder(next, first.skip(1)), second);
        match completed(pending, first[0]) {
            Some(line) => {
                if line.len() > 0 {
                    assert(seq![line] + (a + b) =~= (seq![line] + a) + b);
                }
            },
            None => {},
        }
    }
}

/// Stripping leaves a sentence as it is once its line ending is taken off.
pub proof fn lemma_trimmed_sentence(sentence: Seq<u8>)
    requires
        is_sentence(sentence),
    ensures
        trimmed(sentence + seq![CARRIAGE_RETURN, LINE_FEED]) == sentence,
{
    let with_ending = sentence + seq![CARRIAGE_RETURN, LINE_FEED];
    let with_return = sentence + seq![CARRIAGE_RETURN];
    assert(with_ending[0] == sentence[0]);
    assert(strip_front(with_ending) == with_ending);
    assert(with_ending.last() == LINE_FEED);
    assert(with_ending.drop_last() =~= with_return);
    assert(with_return.last() == CARRIAGE_RETURN);
    assert(with_return.drop_last() =~= sentence);
    assert(strip_back(sentence) == sentence);
    assert(strip_back(with_return) == sentence);
    assert(strip_back(with_ending) == sentence);
}

/// A sentence and its line ending, arriving at an empty accumulator, give
/// that sentence as one line and leave the accumulator empty.
pub proof fn lemma_one_sentence(sentence: Seq<u8>)
    requires
        is_sentence(sentence),
    ensures
        lines(Seq::empty(), sentence + seq![CARRIAGE_RETURN, LINE_FEED]) == seq![sentence],
        remainder(Seq::empty(), sentence + seq![CARRIAGE_RETURN, LINE_FEED]).len() == 0,
{
    let body = sentence + seq![CARRIAGE_RETURN];
    let feed = seq![LINE_FEED];
    assert(sentence + seq![CARRIAGE_RETURN, LINE_FEED] =~= body + feed);
    assert(free_of_line_feed(body));
    lemma_unfinished(Seq::empty(), body);
    lemma_chunking(Seq::empty(), body, feed);
    assert(Seq::<u8>::empty() + body =~= body);
    assert(body.push(LINE_FEED) =~= sentence + seq![CARRIAGE_RETURN, LINE_FEED]);
    lemma_trimmed_sentence(sentence);
    let after = feed.skip(1);
    assert(after.len() == 0);
    assert(lines(Seq::empty(), after) =~= Seq::<Seq<u8>>::empty());
    assert(remainder(Seq::empty(), after) =~= Seq::<u8>::empty());
    assert(feed[0] == LINE_FEED);
    assert(completed(body, feed[0]) == Some(sentence));
    assert(absorb(body, feed[0]) =~= Seq::<u8>::empty());
    assert(lines(body, feed) =~= seq![sentence]);
    assert(remainder(body, feed) =~= Seq::<u8>::empty());
    assert(Seq::<Seq<u8>>::empty() + seq![sentence] =~= seq![sentence]);
}

/// Bytes without a line feed complete no line: they all stay in the
/// accumulator.
pub proof fn lemma_unfinished(pending: Seq<u8>, bytes: Seq<u8>)
    requires
        free_of_line_feed(bytes),
    ensures
        lines(pending, bytes).len() == 0,
        remainder(pending, bytes) == pending + bytes,
    decreases bytes.len(),
{
    if bytes.len() == 0 {
        assert(pending + bytes =~= pending);
    } else {
        lemma_unfinished(pending.push(bytes[0]), bytes.skip(1));
        assert(pending.push(bytes[0]) + bytes.skip(1) =~= pending + bytes);
    }
}

/// Sentences that arrive one after the other, each with its line ending,
/// come out as exactly those sentences in that order, whole, with nothing
/// left over.
pub proof fn lemma_lines_of_framed(sentences: Seq<Seq<u8>>)
    requires
        forall|i: int| 0 <= i < sentences.len() ==> is_sentence(#[trigger] sentences[i]),
    ensures
        lines(Seq::empty(), framed(sentences)) == sentences,
        remainder(Seq::empty(), framed(sentences)).len() == 0,
    decreases sentences.len(),
{
    if sentences.len() == 0 {
        assert(lines(Seq::empty(), framed(sentences)) =~= sentences);
    } else {
        let head = sentences[0] + seq![CARRIAGE_RETURN, LINE_FEED];
        let tail = sentences.skip(1);
        assert(framed(sentences) =~= head + framed(tail));
        lemma_one_sentence(sentences[0]);
        lemma_chunking(Seq::empty(), head, framed(tail));
        assert(remainder(Seq::empty(), head) =~= Seq::<u8>::empty());
        assert forall|i: int| 0 <= i < tail.len() implies is_sentence(#[trigger] tail[i]) by {
            assert(tail[i] == sentences[i + 1]);
        }
        lemma_lines_of_framed(tail);
        assert(seq![sentences[0]] + tail =~= sentences);
    }
}

} // verus!
