//! The code-point reader: exclusively owns a byte buffer and hands out one
//! decoded Unicode scalar value at a time, hiding UTF-8 byte boundaries.
//!
//! Bytes are consumed in 4-byte chunks (the longest UTF-8 encoding) into a
//! zero-filled scratch buffer. The maximal prefix of complete, well-formed
//! encodings is decoded into a FIFO of characters; when a chunk ends in an
//! incomplete encoding, the position is rewound so that the trailing bytes
//! are re-read as a complete encoding next time. Past the end of the buffer
//! the scratch bytes stay null, so a final short chunk decodes with trailing
//! NUL characters; the tokenizer treats NUL as its end-of-input sentinel.
use vstd::prelude::*;
use vstd::utf8::codepoint_width_1;
use vstd::utf8::codepoint_width_2;
use vstd::utf8::codepoint_width_3;
use vstd::utf8::codepoint_width_4;
use vstd::utf8::is_continuation_byte;
use vstd::utf8::is_leading_byte_width_1;
use vstd::utf8::is_leading_byte_width_2;
use vstd::utf8::is_leading_byte_width_3;
use vstd::utf8::is_leading_byte_width_4;
use vstd::utf8::is_scalar;
use vstd::utf8::not_overlong_encoding;
use vstd::utf8::not_surrogate;

verus! {

/// Width in bytes of the UTF-8 encoding whose leading byte is `b`, or 0 when
/// `b` cannot lead an encoding.
pub open spec fn lead_width(b: u8) -> int {
    if is_leading_byte_width_1(b) {
        1
    } else if is_leading_byte_width_2(b) {
        2
    } else if is_leading_byte_width_3(b) {
        3
    } else if is_leading_byte_width_4(b) {
        4
    } else {
        0
    }
}

/// The Unicode scalar value encoded at offset `i` of the 4-byte chunk and the
/// width of its encoding, or `None` when no complete, well-formed encoding
/// starts there (following the UTF-8 rules of `vstd::utf8`).
pub open spec fn scalar_at(chunk: Seq<u8>, i: int) -> Option<(u32, int)>
    recommends
        chunk.len() == 4,
        0 <= i <= 4,
{
    if i < 0 || i >= 4 {
        None
    } else {
        let w = lead_width(chunk[i]);
        if w == 0 || i + w > 4 {
            None
        } else if !(forall|k: int| i < k < i + w ==> is_continuation_byte(#[trigger] chunk[k])) {
            None
        } else {
            let cp = if w == 1 {
                codepoint_width_1(chunk[i])
            } else if w == 2 {
                codepoint_width_2(chunk[i], chunk[i + 1])
            } else if w == 3 {
                codepoint_width_3(chunk[i], chunk[i + 1], chunk[i + 2])
            } else {
                codepoint_width_4(chunk[i], chunk[i + 1], chunk[i + 2], chunk[i + 3])
            };
            if not_overlong_encoding(cp, w) && not_surrogate(cp) {
                Some((cp, w))
            } else {
                None
            }
        }
    }
}

/// The characters decoded from the maximal run of complete, well-formed
/// encodings of the chunk starting at offset `i`, and the offset at which
/// that run ends (the analogue of `valid_up_to` of a UTF-8 decode).
pub open spec fn chunk_decode(chunk: Seq<u8>, i: int) -> (Seq<char>, int)
    decreases 4 - i,
    when 0 <= i <= 4
{
    match scalar_at(chunk, i) {
        None => (Seq::empty(), i),
        Some((cp, w)) => {
            let rest = chunk_decode(chunk, i + w);
            (seq![cp as char] + rest.0, rest.1)
        },
    }
}

/// The 4-byte chunk read at `pos`: the next bytes of the buffer, padded with
/// null bytes where fewer than 4 remain (the scratch buffer stays zeroed).
pub open spec fn chunk_at(bytes: Seq<u8>, pos: int) -> Seq<u8> {
    let r = if bytes.len() - pos < 4 {
        bytes.len() - pos
    } else {
        4
    };
    bytes.subrange(pos, pos + r) + Seq::new((4 - r) as nat, |k: int| 0u8)
}

/// Every character the reader yields from position `pos` on, in order,
/// before it reports exhaustion. Each step decodes one 4-byte chunk: a fully
/// valid chunk contributes all its characters; one cut short by an incomplete
/// encoding contributes its valid prefix and the position is rewound to the
/// start of the incomplete encoding; one that starts with an invalid encoding
/// ends the sequence at once. Null padding of a final short chunk appears as
/// NUL characters, which the tokenizer takes as its end-of-input sentinel.
pub open spec fn read_stream(bytes: Seq<u8>, pos: int) -> Seq<char>
    decreases bytes.len() - pos,
    when 0 <= pos
{
    if pos >= bytes.len() {
        Seq::empty()
    } else {
        let r = if bytes.len() - pos < 4 {
            bytes.len() - pos
        } else {
            4
        };
        let dec = chunk_decode(chunk_at(bytes, pos), 0);
        if dec.1 == 4 {
            dec.0 + read_stream(bytes, pos + r)
        } else if dec.1 <= 0 {
            Seq::empty()
        } else {
            dec.0 + read_stream(bytes, pos + (if dec.1 < r {
                dec.1
            } else {
                r
            }))
        }
    }
}

/// Every scalar the chunk decoder accepts is exactly the scalar that the
/// UTF-8 rules of `vstd::utf8` decode at that offset: multi-byte characters
/// come out as the characters their bytes encode.
pub proof fn lemma_scalar_at_sound(chunk: Seq<u8>, i: int)
    requires
        chunk.len() == 4,
        0 <= i < 4,
    ensures
        scalar_at(chunk, i) matches Some((cp, w)) ==> {
            let suf = chunk.skip(i);
            &&& vstd::utf8::valid_first_scalar(suf)
            &&& vstd::utf8::length_of_first_scalar(suf) == w
            &&& vstd::utf8::decode_first_scalar(suf) == cp
        },
{
    let suf = chunk.skip(i);
    match scalar_at(chunk, i) {
        Some((cp, w)) => {
            assert(suf[0] == chunk[i]);
            if w >= 2 {
                assert(suf[1] == chunk[i + 1]);
            }
            if w >= 3 {
                assert(suf[2] == chunk[i + 2]);
            }
            if w >= 4 {
                assert(suf[3] == chunk[i + 3]);
            }
            assert(vstd::utf8::valid_leading_and_continuation_bytes_first_codepoint(suf));
            assert(vstd::utf8::length_of_first_codepoint(suf) == w);
            assert(vstd::utf8::decode_first_codepoint(suf) == cp);
        },
        None => {},
    }
}

/// The chunk decoder yields exactly the UTF-8 decoding, per the rules of
/// `vstd::utf8`, of the bytes it consumes: the consumed prefix is valid
/// UTF-8 and the characters are its decoding.
pub proof fn lemma_chunk_decode_sound(chunk: Seq<u8>, i: int)
    requires
        chunk.len() == 4,
        0 <= i <= 4,
    ensures
        ({
            let dec = chunk_decode(chunk, i);
            &&& i <= dec.1 <= 4
            &&& vstd::utf8::valid_utf8(chunk.subrange(i, dec.1))
            &&& dec.0 == vstd::utf8::decode_utf8(chunk.subrange(i, dec.1))
        }),
    decreases 4 - i,
{
    let dec = chunk_decode(chunk, i);
    match scalar_at(chunk, i) {
        None => {
            assert(chunk.subrange(i, i) =~= Seq::<u8>::empty());
        },
        Some((cp, w)) => {
            lemma_scalar_at_sound(chunk, i);
            lemma_chunk_decode_bounds(chunk, i + w);
            lemma_chunk_decode_sound(chunk, i + w);
            let v = dec.1;
            assert(v == chunk_decode(chunk, i + w).1);
            assert(i + w <= v <= 4);
            let part = chunk.subrange(i, v);
            let suf = chunk.skip(i);
            assert(part.len() >= w);
            assert forall|d: int| 0 <= d < part.len() implies part[d] == suf[d] by {
                assert(part[d] == chunk[i + d]);
                assert(suf[d] == chunk[i + d]);
            }
            assert(vstd::utf8::valid_leading_and_continuation_bytes_first_codepoint(part));
            assert(vstd::utf8::length_of_first_codepoint(part)
                == vstd::utf8::length_of_first_codepoint(suf));
            assert(vstd::utf8::decode_first_codepoint(part)
                == vstd::utf8::decode_first_codepoint(suf));
            assert(vstd::utf8::valid_first_scalar(part));
            assert(vstd::utf8::pop_first_scalar(part) =~= chunk.subrange(i + w, v));
            assert(vstd::utf8::valid_utf8(part));
            assert(vstd::utf8::decode_utf8(part) == seq![cp as char] + vstd::utf8::decode_utf8(
                chunk.subrange(i + w, v),
            ));
        },
    }
}

/// The offset at which chunk decoding stops never precedes where it starts
/// and never passes the chunk's end.
proof fn lemma_chunk_decode_bounds(chunk: Seq<u8>, i: int)
    requires
        chunk.len() == 4,
        0 <= i <= 4,
    ensures
        i <= chunk_decode(chunk, i).1 <= 4,
    decreases 4 - i,
{
    match scalar_at(chunk, i) {
        None => {},
        Some((cp, w)) => {
            lemma_chunk_decode_bounds(chunk, i + w);
        },
    }
}

/// Relies on char::from_u32: for every Unicode scalar value it returns the
/// character with exactly that value.
#[verifier::external_body]
fn char_from_u32(v: u32) -> (c: char)
    requires
        is_scalar(v),
    ensures
        c == v as char,
{
    match char::from_u32(v) {
        Some(c) => c,
        None => ' ',
    }
}

/// Decodes the maximal valid prefix of one 4-byte chunk; returns the decoded
/// characters and the offset where decoding stopped.
fn decode_chunk(chunk: &Vec<u8>) -> (out: (Vec<char>, usize))
    requires
        chunk@.len() == 4,
    ensures
        out.0@ == chunk_decode(chunk@, 0).0,
        out.1 as int == chunk_decode(chunk@, 0).1,
        0 <= out.1 <= 4,
{
    let mut cs: Vec<char> = Vec::new();
    let mut i: usize = 0;
    let mut stopped = false;
    while !stopped && i < 4
        invariant
            chunk@.len() == 4,
            i <= 4,
            chunk_decode(chunk@, 0).0 == cs@ + chunk_decode(chunk@, i as int).0,
            chunk_decode(chunk@, 0).1 == chunk_decode(chunk@, i as int).1,
            stopped ==> scalar_at(chunk@, i as int) is None,
        decreases 5 - i, if stopped { 0int } else { 1int },
    {
        let b0 = chunk[i];
        let w: usize = if b0 < 0x80 {
            1
        } else if 0xc0 <= b0 && b0 <= 0xdf {
            2
        } else if 0xe0 <= b0 && b0 <= 0xef {
            3
        } else if 0xf0 <= b0 && b0 <= 0xf7 {
            4
        } else {
            0
        };
        assert(w as int == lead_width(chunk@[i as int]));
        let complete = w >= 1 && i + w <= 4;
        let conts_ok = complete && (w < 2 || (0x80 <= chunk[i + 1] && chunk[i + 1] <= 0xbf)) && (w
            < 3 || (0x80 <= chunk[i + 2] && chunk[i + 2] <= 0xbf)) && (w < 4 || (0x80 <= chunk[i
            + 3] && chunk[i + 3] <= 0xbf));
        if !conts_ok {
            proof {
                if complete {
                    assert(exists|k: int|
                        i < k < i + w && !is_continuation_byte(#[trigger] chunk@[k]));
                }
                assert(scalar_at(chunk@, i as int) is None);
            }
            stopped = true;
        } else {
            let cp: u32 = if w == 1 {
                (b0 & 0x7f) as u32
            } else if w == 2 {
                (((b0 & 0x1f) as u32) << 6) | ((chunk[i + 1] & 0x3f) as u32)
            } else if w == 3 {
                (((b0 & 0x0f) as u32) << 12) | (((chunk[i + 1] & 0x3f) as u32) << 6) | ((chunk[i
                    + 2] & 0x3f) as u32)
            } else {
                (((b0 & 0x07) as u32) << 18) | (((chunk[i + 1] & 0x3f) as u32) << 12) | (((chunk[i
                    + 2] & 0x3f) as u32) << 6) | ((chunk[i + 3] & 0x3f) as u32)
            };
            let sound: bool = if w == 2 {
                cp >= 0x80
            } else if w == 3 {
                cp >= 0x800 && !(0xd800 <= cp && cp <= 0xdfff)
            } else if w == 4 {
                0x10000 <= cp && cp <= 0x10ffff
            } else {
                true
            };
            proof {
                let b1 = chunk@[i + 1];
                let b2 = chunk@[i + 2];
                if w == 1 {
                    assert(b0 & 0x7f <= 0x7f) by (bit_vector);
                }
                if w == 2 {
                    assert((((b0 & 0x1f) as u32) << 6) | ((b1 & 0x3f) as u32) <= 0x7ff)
                        by (bit_vector);
                }
                if w == 3 {
                    assert((((b0 & 0x0f) as u32) << 12) | (((b1 & 0x3f) as u32) << 6) | ((b2
                        & 0x3f) as u32) <= 0xffff) by (bit_vector);
                }
                assert forall|k: int| i < k < i + w implies is_continuation_byte(
                    #[trigger] chunk@[k]) by {
                    assert(k == i + 1 || k == i + 2 || k == i + 3);
                }
            }
            if !sound {
                assert(scalar_at(chunk@, i as int) is None);
                stopped = true;
            } else {
                assert(scalar_at(chunk@, i as int) == Some((cp, w as int)));
                assert(is_scalar(cp));
                let c = char_from_u32(cp);
                let ghost prev = cs@;
                cs.push(c);
                proof {
                    let rest = chunk_decode(chunk@, i + w);
                    assert(chunk_decode(chunk@, i as int).0 == seq![cp as char] + rest.0);
                    assert(cs@ + rest.0 =~= prev + chunk_decode(chunk@, i as int).0);
                }
                i = i + w;
            }
        }
    }
    proof {
        assert(scalar_at(chunk@, i as int) is None);
        assert(chunk_decode(chunk@, i as int).0 =~= Seq::<char>::empty());
        assert(chunk_decode(chunk@, 0).0 =~= cs@);
    }
    (cs, i)
}

/// Reads input data and hands it out character by character. It exclusively
/// owns its byte buffer and consumes it destructively, in a single pass.
pub struct JsonReader {
    /// The input bytes, consumed from `pos` on.
    bytes: Vec<u8>,
    /// How many bytes have been decoded so far.
    pos: usize,
    /// Characters already decoded from the current chunk but not yet handed
    /// out; a 4-byte read can serve up to 4 calls.
    fifo: Vec<char>,
}

impl View for JsonReader {
    type V = Seq<char>;

    /// The characters this reader still has to yield.
    closed spec fn view(&self) -> Seq<char> {
        self.fifo@ + read_stream(self.bytes@, self.pos as int)
    }
}

impl JsonReader {
    /// Creates a reader that owns and consumes the given bytes.
    pub fn new(bytes: Vec<u8>) -> (r: JsonReader)
        ensures
            r@ == read_stream(bytes@, 0),
    {
        let r = JsonReader { bytes, pos: 0, fifo: Vec::new() };
        proof {
            assert(r@ =~= read_stream(r.bytes@, 0));
        }
        r
    }

    /// Creates a reader over a copy of the given byte slice.
    pub fn from_bytes(bytes: &[u8]) -> (r: JsonReader)
        ensures
            r@ == read_stream(bytes@, 0),
    {
        let mut own: Vec<u8> = Vec::new();
        let mut k: usize = 0;
        while k < bytes.len()
            invariant
                k <= bytes@.len(),
                own@ == bytes@.subrange(0, k as int),
            decreases bytes@.len() - k,
        {
            let b = bytes[k];
            own.push(b);
            proof {
                assert(own@ =~= bytes@.subrange(0, k + 1));
            }
            k = k + 1;
        }
        proof {
            assert(own@ =~= bytes@);
        }
        JsonReader::new(own)
    }

    /// Yields the next character, or `None` once the buffer is exhausted or
    /// decoding cannot make progress on an invalid encoding.
    pub fn next(&mut self) -> (r: Option<char>)
        ensures
            old(self)@.len() > 0 ==> r == Some(old(self)@[0]) && final(self)@ == old(self)@.skip(1),
            old(self)@.len() == 0 ==> r is None && final(self)@ == old(self)@,
    {
        if self.fifo.len() > 0 {
            let ghost fifo0 = self.fifo@;
            let c = self.fifo.remove(0);
            proof {
                assert(self@ =~= old(self)@.skip(1));
                assert(old(self)@[0] == fifo0[0]);
            }
            return Some(c);
        }
        if self.pos >= self.bytes.len() {
            return None;
        }
        let remaining = self.bytes.len() - self.pos;
        let r: usize = if remaining < 4 {
            remaining
        } else {
            4
        };
        let n = self.bytes.len();
        let mut chunk: Vec<u8> = Vec::new();
        let mut k: usize = 0;
        while k < r
            invariant
                self.bytes@.len() == n,
                self.pos + r <= n,
                k <= r,
                chunk@ == self.bytes@.subrange(self.pos as int, self.pos + k),
            decreases r - k,
        {
            let b = self.bytes[self.pos + k];
            chunk.push(b);
            proof {
                assert(chunk@ =~= self.bytes@.subrange(self.pos as int, self.pos + k + 1));
            }
            k = k + 1;
        }
        while chunk.len() < 4
            invariant
                chunk@.len() >= r,
                chunk@.len() <= 4,
                chunk@.subrange(0, r as int) == self.bytes@.subrange(self.pos as int, self.pos + r),
                forall|j: int| r <= j < chunk@.len() ==> chunk@[j] == 0u8,
            decreases 4 - chunk@.len(),
        {
            chunk.push(0);
        }
        proof {
            assert(chunk@ =~= chunk_at(self.bytes@, self.pos as int));
        }
        let (cs, v) = decode_chunk(&chunk);
        if v == 0 {
            proof {
                assert(old(self)@.len() == 0);
            }
            return None;
        }
        let adv: usize = if v == 4 {
            r
        } else if v < r {
            v
        } else {
            r
        };
        let ghost stream0 = read_stream(self.bytes@, self.pos as int);
        proof {
            assert(stream0 == cs@ + read_stream(self.bytes@, self.pos + adv));
            assert(cs@.len() > 0) by {
                assert(chunk_decode(chunk@, 0).1 != 0);
                assert(scalar_at(chunk@, 0) is Some);
            }
        }
        self.pos = self.pos + adv;
        self.fifo = cs;
        let c = self.fifo.remove(0);
        proof {
            assert(old(self)@ == stream0);
            assert(self@ =~= old(self)@.skip(1));
        }
        Some(c)
    }

    /// Drains the reader, returning every remaining character in order.
    pub fn read_to_end(&mut self) -> (out: Vec<char>)
        ensures
            out@ == old(self)@,
            final(self)@ == Seq::<char>::empty(),
    {
        let mut out: Vec<char> = Vec::new();
        loop
            invariant
                out@ + self@ == old(self)@,
            ensures
                out@ + self@ == old(self)@,
                self@.len() == 0,
            decreases self@.len(),
        {
            let ghost snap = self@;
            match self.next() {
                Some(c) => {
                    let ghost prev = out@;
                    out.push(c);
                    proof {
                        assert(snap.len() > 0);
                        assert(seq![c] + self@ =~= snap);
                        assert(out@ + self@ =~= prev + snap);
                    }
                },
                None => {
                    break ;
                },
            }
        }
        proof {
            assert(out@ =~= old(self)@);
            assert(self@ =~= Seq::<char>::empty());
        }
        out
    }
}

} // verus!
