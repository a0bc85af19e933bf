//! Incremental UTF-8 decoding, one byte at a time.
use vstd::prelude::*;
use vstd::utf8::*;

verus! {

/// The text that `pending` followed by `byte` decodes to, once those bytes
/// form valid UTF-8; `None` while they do not.
pub open spec fn emitted(pending: Seq<u8>, byte: u8) -> Option<Seq<char>> {
    if valid_utf8(pending.push(byte)) {
        Some(decode_utf8(pending.push(byte)))
    } else {
        None
    }
}

/// The pending bytes once `byte` has been fed: emptied when they decode,
/// kept otherwise.
pub open spec fn pending_after(pending: Seq<u8>, byte: u8) -> Seq<u8> {
    if valid_utf8(pending.push(byte)) {
        Seq::empty()
    } else {
        pending.push(byte)
    }
}

/// Feeding `bytes` one by one, starting with `pending`: the units emitted, in
/// order, and the bytes left pending.
pub open spec fn decode_stream(pending: Seq<u8>, bytes: Seq<u8>) -> (Seq<Seq<char>>, Seq<u8>)
    decreases bytes.len(),
{
    if bytes.len() == 0 {
        (Seq::empty(), pending)
    } else {
        let (units, rest) = decode_stream(pending, bytes.drop_last());
        let units = match emitted(rest, bytes.last()) {
            Some(u) => units.push(u),
            None => units,
        };
        (units, pending_after(rest, bytes.last()))
    }
}

/// Each character of `s` as a unit of text of its own.
pub open spec fn per_char(s: Seq<char>) -> Seq<Seq<char>> {
    s.map_values(|c: char| seq![c])
}

/// One character is encoded as its scalar.
proof fn lemma_encode_single(c: char)
    ensures
        encode_utf8(seq![c]) == encode_scalar(c as u32),
{
    reveal_with_fuel(encode_utf8, 2);
    assert(seq![c].drop_first() =~= Seq::<char>::empty());
    assert(encode_utf8(Seq::<char>::empty()) =~= Seq::<u8>::empty());
    assert(encode_utf8(seq![c]) =~= encode_scalar(c as u32));
}

/// Appending one character appends its encoding.
proof fn lemma_encode_push(s: Seq<char>, c: char)
    ensures
        encode_utf8(s.push(c)) == encode_utf8(s) + encode_scalar(c as u32),
    decreases s.len(),
{
    if s.len() == 0 {
        lemma_encode_single(c);
        assert(s.push(c) =~= seq![c]);
        assert(encode_utf8(s.push(c)) =~= encode_utf8(s) + encode_scalar(c as u32));
    } else {
        lemma_encode_push(s.drop_first(), c);
        assert(s.push(c).drop_first() =~= s.drop_first().push(c));
        assert(encode_utf8(s.push(c)) =~= encode_utf8(s) + encode_scalar(c as u32));
    }
}

/// Feeding `a + b` is feeding `a`, then `b` from where `a` left off.
proof fn lemma_decode_stream_concat(p: Seq<u8>, a: Seq<u8>, b: Seq<u8>)
    ensures
        decode_stream(p, a + b) == ({
            let (ua, ra) = decode_stream(p, a);
            let (ub, rb) = decode_stream(ra, b);
            (ua + ub, rb)
        }),
    decreases b.len(),
{
    let (ua, ra) = decode_stream(p, a);
    if b.len() == 0 {
        assert(a + b =~= a);
        assert(ua + Seq::<Seq<char>>::empty() =~= ua);
    } else {
        lemma_decode_stream_concat(p, a, b.drop_last());
        assert((a + b).drop_last() =~= a + b.drop_last());
        assert((a + b).last() == b.last());
        let (ub, rb) = decode_stream(ra, b.drop_last());
        match emitted(rb, b.last()) {
            Some(u) => assert((ua + ub).push(u) =~= ua + ub.push(u)),
            None => {},
        }
    }
}

/// No proper prefix of a character's encoding is valid UTF-8.
proof fn lemma_encoding_prefix_invalid(c: char, k: int)
    requires
        0 < k < encode_scalar(c as u32).len(),
    ensures
        !valid_utf8(encode_scalar(c as u32).subrange(0, k)),
{
    let e = encode_scalar(c as u32);
    lemma_encode_single(c);
    encode_utf8_first_scalar(seq![c]);
    let p = e.subrange(0, k);
    assert(p[0] == e[0]);
    if k >= 2 {
        assert(p[1] == e[1]);
    }
    if k >= 3 {
        assert(p[2] == e[2]);
    }
}

/// The proper prefixes of a character's encoding stay pending, and emit nothing.
proof fn lemma_decode_stream_prefix(c: char, k: int)
    requires
        0 <= k < encode_scalar(c as u32).len(),
    ensures
        decode_stream(Seq::empty(), encode_scalar(c as u32).subrange(0, k)) == (
            Seq::<Seq<char>>::empty(),
            encode_scalar(c as u32).subrange(0, k),
        ),
    decreases k,
{
    let e = encode_scalar(c as u32);
    if k == 0 {
        assert(e.subrange(0, 0) =~= Seq::<u8>::empty());
    } else {
        lemma_decode_stream_prefix(c, k - 1);
        assert(e.subrange(0, k).drop_last() =~= e.subrange(0, k - 1));
        assert(e.subrange(0, k - 1).push(e[k - 1]) =~= e.subrange(0, k));
        lemma_encoding_prefix_invalid(c, k);
    }
}

/// Fed from nothing pending, the encoding of one character yields exactly that
/// character, as a unit of its own, and leaves nothing pending.
proof fn lemma_decode_stream_char(c: char)
    ensures
        decode_stream(Seq::empty(), encode_scalar(c as u32)) == (
            seq![seq![c]],
            Seq::<u8>::empty(),
        ),
{
    let e = encode_scalar(c as u32);
    let n = e.len() as int;
    lemma_encode_single(c);
    encode_utf8_valid_utf8(seq![c]);
    encode_utf8_decode_utf8(seq![c]);
    lemma_decode_stream_prefix(c, n - 1);
    assert(e.drop_last() =~= e.subrange(0, n - 1));
    assert(e.subrange(0, n - 1).push(e[n - 1]) =~= e);
    assert(Seq::<Seq<char>>::empty().push(seq![c]) =~= seq![seq![c]]);
}

/// Feeding the UTF-8 encoding of `s` from nothing pending yields the
/// characters of `s`, one unit each, and leaves nothing pending.
pub(crate) proof fn lemma_decode_stream_encoded(s: Seq<char>)
    ensures
        decode_stream(Seq::empty(), encode_utf8(s)) == (per_char(s), Seq::<u8>::empty()),
    decreases s.len(),
{
    if s.len() == 0 {
        assert(per_char(s) =~= Seq::<Seq<char>>::empty());
    } else {
        let t = s.drop_last();
        let c = s.last();
        assert(t.push(c) =~= s);
        lemma_encode_push(t, c);
        lemma_decode_stream_encoded(t);
        lemma_decode_stream_concat(Seq::empty(), encode_utf8(t), encode_scalar(c as u32));
        lemma_decode_stream_char(c);
        assert(per_char(t) + seq![seq![c]] =~= per_char(s));
    }
}

/// Relies on `std::str::from_utf8`: it succeeds exactly when the bytes are
/// valid UTF-8, and then yields the text that they encode.
#[verifier::external_body]
fn decode_whole(bytes: &[u8]) -> (r: Option<String>)
    ensures
        r is Some <==> valid_utf8(bytes@),
        r matches Some(s) ==> s@ == decode_utf8(bytes@),
{
    match std::str::from_utf8(bytes) {
        Ok(s) => Some(s.to_string()),
        Err(_) => None,
    }
}

/// Accumulates bytes until they form a complete UTF-8 encoding.
#[derive(Debug)]
pub struct Utf8Decoder {
    /// Bytes of a character whose encoding is not complete yet.
    pub pending: Vec<u8>,
}

impl Utf8Decoder {
    /// A decoder with nothing pending.
    pub fn new() -> (r: Self)
        ensures
            r.pending@ == Seq::<u8>::empty(),
    {
        Utf8Decoder { pending: Vec::new() }
    }

    /// Appends `byte` to the pending bytes; once they decode, returns their text
    /// and empties the pending bytes.
    ///
    /// Bytes that never become valid UTF-8 are kept pending: nothing is rejected.
    pub fn feed(&mut self, byte: u8) -> (r: Option<String>)
        ensures
            r matches Some(s) ==> emitted(old(self).pending@, byte) == Some(s@),
            r is None ==> emitted(old(self).pending@, byte) is None,
            final(self).pending@ == pending_after(old(self).pending@, byte),
    {
        self.pending.push(byte);
        let r = decode_whole(self.pending.as_slice());
        if r.is_some() {
            self.pending.clear();
        }
        r
    }
}

} // verus!
