//! Properties that hold of every input.
use vstd::prelude::*;
use vstd::utf8::*;

use crate::decoder::{decode_stream, lemma_decode_stream_encoded, per_char};
use crate::machine::{is_closing_char, is_opening_char, lemma_feed_all, QuotesStates, QuotesView};

verus! {

/// `"`, `“` or `”`.
pub open spec fn is_quote_char(c: char) -> bool {
    is_opening_char(c) || is_closing_char(c)
}

/// Whether the quotation marks of `s` pair up: outside a quote the next mark
/// can open one, inside a quote the next mark can close it, and `s` ends
/// outside any quote. `inside` tells whether `s` starts within an open quote.
pub open spec fn balanced(s: Seq<char>, inside: bool) -> bool
    decreases s.len(),
{
    if s.len() == 0 {
        !inside
    } else if !is_quote_char(s[0]) {
        balanced(s.drop_first(), inside)
    } else if inside {
        is_closing_char(s[0]) && balanced(s.drop_first(), false)
    } else {
        is_opening_char(s[0]) && balanced(s.drop_first(), true)
    }
}

/// The number of marks of `s` that close a quote, pairing marks as `balanced`
/// does.
pub open spec fn closing_marks(s: Seq<char>, inside: bool) -> nat
    decreases s.len(),
{
    if s.len() == 0 {
        0
    } else if !is_quote_char(s[0]) {
        closing_marks(s.drop_first(), inside)
    } else if inside {
        1 + closing_marks(s.drop_first(), false)
    } else {
        closing_marks(s.drop_first(), true)
    }
}

/// A span as the machine stores it: an opening mark, what it enclosed, and a
/// closing mark.
pub open spec fn is_delimited(span: Seq<char>) -> bool {
    span.len() >= 2 && is_opening_char(span[0]) && is_closing_char(span.last())
}

/// The machine's buffer and spans are as its transitions build them.
pub open spec fn well_formed(m: QuotesView) -> bool {
    &&& m.state == QuotesStates::LeftQuote ==> m.buffer.len() >= 1 && is_opening_char(
        m.buffer[0],
    )
    &&& m.state != QuotesStates::LeftQuote ==> m.buffer.len() == 0
    &&& forall|i: int| 0 <= i < m.saved.len() ==> is_delimited(#[trigger] m.saved[i])
}

/// Consuming units one after another, seen from the first unit.
proof fn lemma_step_all_first(m: QuotesView, units: Seq<Seq<char>>)
    requires
        units.len() > 0,
    ensures
        m.step_all(units) == m.step(units[0]).step_all(units.drop_first()),
    decreases units.len(),
{
    if units.len() == 1 {
        assert(units.drop_last() =~= Seq::<Seq<char>>::empty());
        assert(units.drop_first() =~= Seq::<Seq<char>>::empty());
        assert(units.last() == units[0]);
        assert(m.step_all(units) == m.step_all(units.drop_last()).step(units.last()));
        assert(m.step_all(Seq::<Seq<char>>::empty()) == m);
        assert(m.step(units[0]).step_all(Seq::<Seq<char>>::empty()) == m.step(units[0]));
    } else {
        lemma_step_all_first(m, units.drop_last());
        assert(units.drop_last()[0] == units[0]);
        assert(units.drop_first().drop_last() =~= units.drop_last().drop_first());
        assert(units.drop_first().last() == units.last());
        let n = m.step(units[0]);
        assert(n.step_all(units.drop_first()) == n.step_all(units.drop_first().drop_last()).step(
            units.drop_first().last(),
        ));
    }
}

/// From a machine that is inside a quote exactly when `inside` holds, the
/// spans stored while consuming balanced text are its closing marks.
proof fn lemma_spans_counted(m: QuotesView, s: Seq<char>, inside: bool)
    requires
        inside == (m.state == QuotesStates::LeftQuote),
        balanced(s, inside),
    ensures
        m.consume(s).saved.len() == m.saved.len() + closing_marks(s, inside),
    decreases s.len(),
{
    if s.len() > 0 {
        let c = s[0];
        lemma_step_all_first(m, per_char(s));
        assert(per_char(s)[0] == seq![c]);
        assert(per_char(s).drop_first() =~= per_char(s.drop_first()));
        let next = m.step(seq![c]);
        if !is_quote_char(c) {
            lemma_spans_counted(next, s.drop_first(), inside);
        } else if inside {
            lemma_spans_counted(next, s.drop_first(), false);
        } else {
            lemma_spans_counted(next, s.drop_first(), true);
        }
    }
}

/// For text whose quotation marks pair up, the machine stores one span for
/// each mark that closes a quote.
pub proof fn lemma_one_span_per_closing_mark(s: Seq<char>)
    requires
        balanced(s, false),
    ensures
        QuotesView::initial().consume(s).saved.len() == closing_marks(s, false),
{
    lemma_spans_counted(QuotesView::initial(), s, false);
}

/// Each transition keeps the machine well formed.
proof fn lemma_step_well_formed(m: QuotesView, item: Seq<char>)
    requires
        well_formed(m),
    ensures
        well_formed(m.step(item)),
{
    if m.state == QuotesStates::LeftQuote && item.len() == 1 && is_closing_char(item[0]) {
        let span = m.buffer + item;
        assert(span[0] == m.buffer[0]);
        assert(span.last() == item[0]);
        let saved = m.saved.push(span);
        assert forall|i: int| 0 <= i < saved.len() implies is_delimited(#[trigger] saved[i]) by {
            if i < m.saved.len() {
                assert(saved[i] == m.saved[i]);
            }
        }
    } else if m.state == QuotesStates::LeftQuote {
        assert((m.buffer + item)[0] == m.buffer[0]);
    }
}

proof fn lemma_step_all_well_formed(m: QuotesView, units: Seq<Seq<char>>)
    requires
        well_formed(m),
    ensures
        well_formed(m.step_all(units)),
    decreases units.len(),
{
    if units.len() > 0 {
        lemma_step_all_well_formed(m, units.drop_last());
        lemma_step_well_formed(m.step_all(units.drop_last()), units.last());
    }
}

/// Whatever bytes a fresh machine is fed, every span it stores starts with an
/// opening mark and ends with a closing mark.
pub proof fn lemma_spans_delimited(b: Seq<u8>)
    ensures
        forall|i: int|
            0 <= i < QuotesView::initial().feed_all(b).saved.len() ==> is_delimited(
                #[trigger] QuotesView::initial().feed_all(b).saved[i],
            ),
{
    let m = QuotesView::initial();
    lemma_feed_all(m, b);
    lemma_step_all_well_formed(m, decode_stream(m.pending, b).0);
}

/// Fed one byte at a time from nothing pending, valid UTF-8 comes out as the
/// same characters that decoding it whole gives, one unit per character, with
/// nothing left pending.
pub proof fn lemma_decode_round_trip(bytes: Seq<u8>)
    requires
        valid_utf8(bytes),
    ensures
        decode_stream(Seq::empty(), bytes) == (per_char(decode_utf8(bytes)), Seq::<u8>::empty()),
{
    decode_utf8_encode_utf8(bytes);
    lemma_decode_stream_encoded(decode_utf8(bytes));
}

} // verus!
