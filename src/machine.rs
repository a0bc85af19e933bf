//! The quote-tracking state machine.
use vstd::prelude::*;
use vstd::string::*;
use vstd::utf8::*;

use crate::decoder::{
    decode_stream, emitted, lemma_decode_stream_encoded, pending_after, per_char, Utf8Decoder,
};

verus! {

/// Where the machine stands with respect to quotation marks.
#[derive(Debug, Clone, Copy, PartialEq, Eq, Structural)]
pub enum QuotesStates {
    /// Inside a quote: the buffer holds the span being built.
    LeftQuote,
    /// A span has just been closed; the next unit decides whether a new one opens.
    RightQuote,
    /// Outside any quote.
    Ignore,
}

/// `"` or `“`: a character that can open a quote.
pub open spec fn is_opening_char(c: char) -> bool {
    c == '"' || c == '\u{201C}'
}

/// `"` or `”`: a character that can close a quote.
pub open spec fn is_closing_char(c: char) -> bool {
    c == '"' || c == '\u{201D}'
}

/// A unit of text that is exactly one opening mark.
pub open spec fn is_opening_mark(item: Seq<char>) -> bool {
    item.len() == 1 && is_opening_char(item[0])
}

/// A unit of text that is exactly one closing mark.
pub open spec fn is_closing_mark(item: Seq<char>) -> bool {
    item.len() == 1 && is_closing_char(item[0])
}

/// The abstract contents of a `CollectQuotes`.
pub struct QuotesView {
    pub state: QuotesStates,
    /// The span being built.
    pub buffer: Seq<char>,
    /// The completed spans, in order of appearance.
    pub saved: Seq<Seq<char>>,
    /// Bytes of a character whose encoding has not been completed yet.
    pub pending: Seq<u8>,
}

impl QuotesView {
    /// A fresh machine: outside any quote, with everything empty.
    pub open spec fn initial() -> QuotesView {
        QuotesView {
            state: QuotesStates::Ignore,
            buffer: Seq::empty(),
            saved: Seq::empty(),
            pending: Seq::empty(),
        }
    }

    /// The machine after it has consumed the unit of text `item`.
    ///
    /// Outside a quote, or right after one has closed, an opening mark starts a
    /// new span; inside a quote a closing mark ends the span and stores it,
    /// anything else is appended. Since `"` both opens and closes, it toggles.
    pub open spec fn step(self, item: Seq<char>) -> QuotesView {
        match self.state {
            QuotesStates::Ignore => if is_opening_mark(item) {
                QuotesView { state: QuotesStates::LeftQuote, buffer: item, ..self }
            } else {
                self
            },
            QuotesStates::LeftQuote => if is_closing_mark(item) {
                QuotesView {
                    state: QuotesStates::RightQuote,
                    buffer: Seq::empty(),
                    saved: self.saved.push(self.buffer + item),
                    ..self
                }
            } else {
                QuotesView { buffer: self.buffer + item, ..self }
            },
            QuotesStates::RightQuote => if is_opening_mark(item) {
                QuotesView { state: QuotesStates::LeftQuote, buffer: item, ..self }
            } else {
                QuotesView { state: QuotesStates::Ignore, ..self }
            },
        }
    }

    /// The machine after one more input byte: the byte goes to the decoder,
    /// and a unit of text that it completes is consumed by `step`.
    pub open spec fn feed(self, byte: u8) -> QuotesView {
        let decoded = QuotesView { pending: pending_after(self.pending, byte), ..self };
        match emitted(self.pending, byte) {
            Some(item) => decoded.step(item),
            None => decoded,
        }
    }

    /// The machine after consuming `units` in order.
    pub open spec fn step_all(self, units: Seq<Seq<char>>) -> QuotesView
        decreases units.len(),
    {
        if units.len() == 0 {
            self
        } else {
            self.step_all(units.drop_last()).step(units.last())
        }
    }

    /// The machine after consuming the characters `s`, one unit per character.
    pub open spec fn consume(self, s: Seq<char>) -> QuotesView {
        self.step_all(per_char(s))
    }

    /// The machine after the bytes `b`, fed one at a time.
    pub open spec fn feed_all(self, b: Seq<u8>) -> QuotesView
        decreases b.len(),
    {
        if b.len() == 0 {
            self
        } else {
            self.feed_all(b.drop_last()).feed(b.last())
        }
    }
}

/// Collects the quoted spans of a text.
#[derive(Debug)]
pub struct CollectQuotes {
    /// The span being built.
    pub buffer: String,
    /// The completed spans, in order of appearance.
    pub saved: Vec<String>,
    pub state: QuotesStates,
    /// Turns the incoming bytes into units of text.
    pub decoder: Utf8Decoder,
}

impl View for CollectQuotes {
    type V = QuotesView;

    open spec fn view(&self) -> QuotesView {
        QuotesView {
            state: self.state,
            buffer: self.buffer@,
            saved: self.saved@.map_values(|s: String| s@),
            pending: self.decoder.pending@,
        }
    }
}

impl CollectQuotes {
    /// Whether `item` is one opening quotation mark.
    pub fn is_left_quote(&self, item: &str) -> (r: bool)
        ensures
            r == is_opening_mark(item@),
    {
        if item.unicode_len() != 1 {
            return false;
        }
        let c = item.get_char(0);
        c == '"' || c == '\u{201C}'
    }

    /// Whether `item` is one closing quotation mark.
    pub fn is_right_quote(&self, item: &str) -> (r: bool)
        ensures
            r == is_closing_mark(item@),
    {
        if item.unicode_len() != 1 {
            return false;
        }
        let c = item.get_char(0);
        c == '"' || c == '\u{201D}'
    }

    /// A machine outside any quote, with no span collected.
    pub fn new() -> (r: Self)
        ensures
            r@ == QuotesView::initial(),
    {
        let r = CollectQuotes {
            buffer: String::new(),
            saved: Vec::new(),
            state: QuotesStates::Ignore,
            decoder: Utf8Decoder::new(),
        };
        assert(r@.saved =~= Seq::empty());
        r
    }

    /// Consumes one decoded unit of text.
    pub fn process(&mut self, item: &str)
        ensures
            final(self)@ == old(self)@.step(item@),
    {
        match self.state {
            QuotesStates::Ignore => {
                if self.is_left_quote(item) {
                    self.state = QuotesStates::LeftQuote;
                    self.buffer = item.to_owned();
                }
            },
            QuotesStates::LeftQuote => {
                if self.is_right_quote(item) {
                    self.state = QuotesStates::RightQuote;
                    self.buffer.append(item);
                    self.saved.push(self.buffer.clone());
                    self.buffer = String::new();
                } else {
                    self.buffer.append(item);
                }
            },
            QuotesStates::RightQuote => {
                if self.is_left_quote(item) {
                    self.state = QuotesStates::LeftQuote;
                    self.buffer = item.to_owned();
                } else {
                    self.state = QuotesStates::Ignore;
                }
            },
        }
        assert(self@.saved =~= old(self)@.step(item@).saved);
    }

    /// Drives one raw byte through the decoder, and a unit of text that it
    /// completes through `process`.
    pub fn feed_byte(&mut self, byte: u8)
        ensures
            final(self)@ == old(self)@.feed(byte),
    {
        match self.decoder.feed(byte) {
            Some(item) => self.process(item.as_str()),
            None => {},
        }
    }

    /// The spans collected so far, in order of appearance.
    ///
    /// It reads the machine only, so calls with no input in between give the
    /// same spans.
    pub fn results(&self) -> (r: &Vec<String>)
        ensures
            r@.map_values(|s: String| s@) == self@.saved,
    {
        &self.saved
    }
}

/// Consuming text leaves the decoder's pending bytes alone.
pub(crate) proof fn lemma_step_all_pending(m: QuotesView, units: Seq<Seq<char>>)
    ensures
        m.step_all(units).pending == m.pending,
    decreases units.len(),
{
    if units.len() > 0 {
        lemma_step_all_pending(m, units.drop_last());
    }
}

/// Feeding bytes is decoding them, then consuming the units decoded.
pub(crate) proof fn lemma_feed_all(m: QuotesView, b: Seq<u8>)
    ensures
        m.feed_all(b) == (QuotesView {
            pending: decode_stream(m.pending, b).1,
            ..m.step_all(decode_stream(m.pending, b).0)
        }),
    decreases b.len(),
{
    if b.len() > 0 {
        lemma_feed_all(m, b.drop_last());
        let (u, r) = decode_stream(m.pending, b.drop_last());
        match emitted(r, b.last()) {
            Some(item) => assert(u.push(item).drop_last() =~= u),
            None => {},
        }
    }
}

/// Feeding the UTF-8 encoding of `s` to a machine with nothing pending
/// consumes the characters of `s`, and leaves nothing pending.
pub(crate) proof fn lemma_feed_encoded(m: QuotesView, s: Seq<char>)
    requires
        m.pending.len() == 0,
    ensures
        m.feed_all(encode_utf8(s)) == m.consume(s),
{
    lemma_feed_all(m, encode_utf8(s));
    lemma_decode_stream_encoded(s);
    lemma_step_all_pending(m, per_char(s));
    assert(m.pending =~= Seq::<u8>::empty());
}

/// Runs the machine over the bytes of `string`, one byte at a time, and
/// returns it.
pub fn process_string(string: String) -> (r: CollectQuotes)
    ensures
        r@ == QuotesView::initial().consume(string@),
{
    let bytes = string.as_str().as_bytes();
    let mut dfa = CollectQuotes::new();
    let mut i: usize = 0;
    while i < bytes.len()
        invariant
            i <= bytes@.len(),
            bytes@ == encode_utf8(string@),
            dfa@ == QuotesView::initial().feed_all(bytes@.subrange(0, i as int)),
        decreases bytes@.len() - i,
    {
        proof {
            assert(bytes@.subrange(0, i + 1).drop_last() =~= bytes@.subrange(0, i as int));
        }
        dfa.feed_byte(bytes[i]);
        i = i + 1;
    }
    proof {
        assert(bytes@.subrange(0, i as int) =~= bytes@);
        lemma_feed_encoded(QuotesView::initial(), string@);
    }
    dfa
}

} // verus!
