//! Byte-stuffing frame codec.
//!
//! A frame is the escaped payload followed by one terminator octet. The two
//! reserved octet values never appear unescaped inside a frame: a payload byte
//! `b >= ESCAPE` is emitted as the pair `(ESCAPE, b - ESCAPE)`.
use vstd::prelude::*;

use crate::messages::GatewayError;

verus! {

/// Octet that marks the end of a frame on the wire.
pub const TERMINATOR: u8 = 0xFF;

/// Octet that marks a two-byte escape sequence inside a frame.
pub const ESCAPE: u8 = 0xFE;

/// Maximum size of one frame on the wire, terminator included.
pub const MAX_FRAME_SIZE: usize = 256;

/// Every payload no longer than this encodes within `MAX_FRAME_SIZE`,
/// whatever its bytes are.
pub const MAX_PAYLOAD_SIZE: usize = 127;

/// The escaped form of one payload byte.
pub open spec fn escape_byte(b: u8) -> Seq<u8> {
    if b >= ESCAPE {
        seq![ESCAPE, (b - ESCAPE) as u8]
    } else {
        seq![b]
    }
}

/// The escaped form of a whole payload (without the terminator).
pub open spec fn escape_seq(payload: Seq<u8>) -> Seq<u8>
    decreases payload.len(),
{
    if payload.len() == 0 {
        Seq::empty()
    } else {
        escape_byte(payload[0]) + escape_seq(payload.drop_first())
    }
}

/// The value a received byte decodes to, given whether an escape octet
/// immediately preceded it.
pub open spec fn unescape_byte(b: u8, pending: bool) -> u8 {
    if pending {
        if b + ESCAPE > u8::MAX {
            (b + ESCAPE - 256) as u8
        } else {
            (b + ESCAPE) as u8
        }
    } else {
        b
    }
}

/// The payload decoded from received bytes: octets are consumed until the
/// first terminator; an escape octet is not emitted but makes the following
/// octet decode shifted back up.
pub open spec fn unescape_seq(s: Seq<u8>, pending: bool) -> Seq<u8>
    decreases s.len(),
{
    if s.len() == 0 {
        Seq::empty()
    } else if s[0] == TERMINATOR {
        Seq::empty()
    } else if s[0] == ESCAPE {
        unescape_seq(s.drop_first(), true)
    } else {
        seq![unescape_byte(s[0], pending)] + unescape_seq(s.drop_first(), false)
    }
}

/// Whether an escape octet is pending after the given bytes have been
/// consumed (meaningful only while no terminator has been seen).
pub open spec fn pending_after(s: Seq<u8>, pending: bool) -> bool
    decreases s.len(),
{
    if s.len() == 0 {
        pending
    } else if s[0] == ESCAPE {
        pending_after(s.drop_first(), true)
    } else {
        pending_after(s.drop_first(), false)
    }
}

/// Escaping distributes over concatenation.
pub proof fn lemma_escape_seq_append(a: Seq<u8>, b: Seq<u8>)
    ensures
        escape_seq(a + b) == escape_seq(a) + escape_seq(b),
    decreases a.len(),
{
    if a.len() == 0 {
        assert(a + b =~= b);
        assert(escape_seq(a) + escape_seq(b) =~= escape_seq(b));
    } else {
        assert((a + b).drop_first() =~= a.drop_first() + b);
        lemma_escape_seq_append(a.drop_first(), b);
        assert(escape_seq(a + b) =~= escape_seq(a) + escape_seq(b));
    }
}

/// Decoding splits at any point before the first terminator.
pub proof fn lemma_unescape_seq_split(s: Seq<u8>, i: int, pending: bool)
    requires
        0 <= i <= s.len(),
        forall|j: int| 0 <= j < i ==> s[j] != TERMINATOR,
    ensures
        unescape_seq(s, pending) == unescape_seq(s.take(i), pending) + unescape_seq(
            s.skip(i),
            pending_after(s.take(i), pending),
        ),
        pending_after(s, pending) == pending_after(
            s.skip(i),
            pending_after(s.take(i), pending),
        ),
    decreases i,
{
    if i == 0 {
        assert(s.take(0) =~= Seq::<u8>::empty());
        assert(s.skip(0) =~= s);
        assert(unescape_seq(s.take(0), pending) + unescape_seq(s, pending) =~= unescape_seq(
            s,
            pending,
        ));
    } else {
        let p2 = if s[0] == ESCAPE {
            true
        } else {
            false
        };
        assert(s.drop_first().take(i - 1) =~= s.take(i).drop_first());
        assert(s.drop_first().skip(i - 1) =~= s.skip(i));
        lemma_unescape_seq_split(s.drop_first(), i - 1, p2);
        if s[0] == ESCAPE {
            assert(unescape_seq(s.take(i), pending) == unescape_seq(s.take(i).drop_first(), true));
        } else {
            assert(unescape_seq(s, pending) =~= unescape_seq(s.take(i), pending) + unescape_seq(
                s.skip(i),
                pending_after(s.take(i), pending),
            ));
        }
    }
}

/// Escaping a single byte gives exactly its escaped form.
pub proof fn lemma_escape_seq_singleton(b: u8)
    ensures
        escape_seq(seq![b]) == escape_byte(b),
{
    let s = seq![b];
    assert(s.drop_first() =~= Seq::<u8>::empty());
    assert(escape_seq(Seq::<u8>::empty()) == Seq::<u8>::empty());
    assert(escape_seq(s) == escape_byte(b) + Seq::<u8>::empty());
    assert(escape_byte(b) + Seq::<u8>::empty() =~= escape_byte(b));
}

/// Decoding a single non-reserved byte emits exactly its decoded value;
/// a single escape octet emits nothing and leaves an escape pending.
pub proof fn lemma_unescape_seq_singleton(b: u8, pending: bool)
    ensures
        b == ESCAPE ==> unescape_seq(seq![b], pending) == Seq::<u8>::empty() && pending_after(
            seq![b],
            pending,
        ),
        b != TERMINATOR && b != ESCAPE ==> unescape_seq(seq![b], pending) == seq![
            unescape_byte(b, pending),
        ] && !pending_after(seq![b], pending),
{
    let s = seq![b];
    assert(s.drop_first() =~= Seq::<u8>::empty());
    assert(unescape_seq(Seq::<u8>::empty(), true) == Seq::<u8>::empty());
    assert(unescape_seq(Seq::<u8>::empty(), false) == Seq::<u8>::empty());
    assert(pending_after(Seq::<u8>::empty(), true) == true);
    assert(pending_after(Seq::<u8>::empty(), false) == false);
    if b != TERMINATOR && b != ESCAPE {
        assert(unescape_seq(s, pending) == seq![unescape_byte(b, pending)] + Seq::<u8>::empty());
        assert(seq![unescape_byte(b, pending)] + Seq::<u8>::empty() =~= seq![
            unescape_byte(b, pending),
        ]);
    }
}

/// No byte of an escaped payload is the terminator: inside a well-formed
/// frame the terminator can only be its final byte.
pub proof fn lemma_escape_seq_no_terminator(payload: Seq<u8>)
    ensures
        forall|i: int| 0 <= i < escape_seq(payload).len() ==> escape_seq(payload)[i] != TERMINATOR,
    decreases payload.len(),
{
    if payload.len() > 0 {
        lemma_escape_seq_no_terminator(payload.drop_first());
        let head = escape_byte(payload[0]);
        let tail = escape_seq(payload.drop_first());
        assert forall|i: int| 0 <= i < escape_seq(payload).len() implies escape_seq(payload)[i]
            != TERMINATOR by {
            if i >= head.len() {
                assert(escape_seq(payload)[i] == tail[i - head.len()]);
            }
        }
    }
}

/// The escaped payload is at least as long as the payload and at most twice
/// as long.
pub proof fn lemma_escape_seq_len(payload: Seq<u8>)
    ensures
        payload.len() <= escape_seq(payload).len() <= 2 * payload.len(),
    decreases payload.len(),
{
    if payload.len() > 0 {
        lemma_escape_seq_len(payload.drop_first());
    }
}

/// Round trip: decoding an escaped payload gives the payload back, with no
/// escape left pending.
pub proof fn lemma_unescape_escape(payload: Seq<u8>)
    ensures
        unescape_seq(escape_seq(payload), false) == payload,
        pending_after(escape_seq(payload), false) == false,
    decreases payload.len(),
{
    if payload.len() == 0 {
        assert(unescape_seq(escape_seq(payload), false) =~= payload);
    } else {
        let b = payload[0];
        let head = escape_byte(b);
        let tail = escape_seq(payload.drop_first());
        lemma_unescape_escape(payload.drop_first());
        lemma_escape_seq_no_terminator(payload);
        lemma_unescape_seq_split(escape_seq(payload), head.len() as int, false);
        assert(escape_seq(payload).take(head.len() as int) =~= head);
        assert(escape_seq(payload).skip(head.len() as int) =~= tail);
        if b >= ESCAPE {
            let low = (b - ESCAPE) as u8;
            assert(head.drop_first() =~= seq![low]);
            lemma_unescape_seq_singleton(low, true);
            assert(unescape_byte(low, true) == b);
            assert(unescape_seq(head, false) == seq![b]);
            assert(pending_after(head, false) == false);
        } else {
            lemma_unescape_seq_singleton(b, false);
            assert(head =~= seq![b]);
            assert(unescape_seq(head, false) == seq![b]);
            assert(pending_after(head, false) == false);
        }
        assert(unescape_seq(escape_seq(payload), false) =~= seq![b] + unescape_seq(tail, false));
        assert(seq![b] + payload.drop_first() =~= payload);
    }
}

/// Each payload byte stands in the escaped output exactly as its own escaped
/// form, in payload order: a reserved byte always becomes the two-byte pair
/// `(ESCAPE, b - ESCAPE)` and nothing else.
pub proof fn lemma_escape_seq_at(payload: Seq<u8>, i: int)
    requires
        0 <= i < payload.len(),
    ensures
        escape_seq(payload) == escape_seq(payload.take(i)) + escape_byte(payload[i]) + escape_seq(
            payload.skip(i + 1),
        ),
{
    assert(payload =~= payload.take(i) + seq![payload[i]] + payload.skip(i + 1));
    lemma_escape_seq_append(payload.take(i) + seq![payload[i]], payload.skip(i + 1));
    lemma_escape_seq_append(payload.take(i), seq![payload[i]]);
    lemma_escape_seq_singleton(payload[i]);
}

/// Encodes one payload into a frame: the escaped payload followed by the
/// terminator. Fails with `Overflow` exactly when the frame would exceed
/// `MAX_FRAME_SIZE`.
pub fn encode_frame(payload: &[u8]) -> (r: Result<Vec<u8>, GatewayError>)
    ensures
        r is Ok <==> escape_seq(payload@).len() < MAX_FRAME_SIZE,
        r matches Ok(frame) ==> frame@ == escape_seq(payload@) + seq![TERMINATOR],
        r matches Err(e) ==> e == GatewayError::Overflow,
{
    let mut out: Vec<u8> = Vec::new();
    let mut i: usize = 0;
    while i < payload.len()
        invariant
            0 <= i <= payload@.len(),
            out@ == escape_seq(payload@.take(i as int)),
            out@.len() < MAX_FRAME_SIZE,
        decreases payload@.len() - i,
    {
        let b = payload[i];
        proof {
            lemma_escape_seq_at(payload@, i as int);
            assert(payload@.take(i as int + 1) =~= payload@.take(i as int) + seq![
                payload@[i as int],
            ]);
            lemma_escape_seq_append(payload@.take(i as int), seq![payload@[i as int]]);
            lemma_escape_seq_singleton(payload@[i as int]);
            lemma_escape_seq_len(payload@.skip(i as int + 1));
        }
        if b >= ESCAPE {
            if out.len() >= MAX_FRAME_SIZE - 2 {
                return Err(GatewayError::Overflow);
            }
            out.push(ESCAPE);
            out.push(b - ESCAPE);
        } else {
            if out.len() >= MAX_FRAME_SIZE - 1 {
                return Err(GatewayError::Overflow);
            }
            out.push(b);
        }
        i = i + 1;
    }
    proof {
        assert(payload@.take(payload@.len() as int) =~= payload@);
    }
    out.push(TERMINATOR);
    Ok(out)
}

/// Terminator safety: in an encoded frame the terminator value occurs only as
/// the final byte, never before it.
pub proof fn lemma_terminator_only_at_end(payload: Seq<u8>)
    ensures
        (escape_seq(payload) + seq![TERMINATOR]).last() == TERMINATOR,
        forall|i: int|
            0 <= i < (escape_seq(payload) + seq![TERMINATOR]).len() - 1 ==> (escape_seq(payload)
                + seq![TERMINATOR])[i] != TERMINATOR,
{
    lemma_escape_seq_no_terminator(payload);
    assert(forall|i: int|
        0 <= i < escape_seq(payload).len() ==> (escape_seq(payload) + seq![TERMINATOR])[i]
            == escape_seq(payload)[i]);
}

/// Round trip at wire level: consuming a whole frame — the escaped payload
/// and then the terminator — decodes back to the payload.
pub proof fn lemma_unescape_frame(payload: Seq<u8>)
    ensures
        unescape_seq(escape_seq(payload) + seq![TERMINATOR], false) == payload,
{
    lemma_unescape_escape(payload);
    lemma_escape_seq_no_terminator(payload);
    let escaped = escape_seq(payload);
    let frame = escaped + seq![TERMINATOR];
    lemma_unescape_seq_split(frame, escaped.len() as int, false);
    assert(frame.take(escaped.len() as int) =~= escaped);
    assert(frame.skip(escaped.len() as int) =~= seq![TERMINATOR]);
    assert(unescape_seq(seq![TERMINATOR], pending_after(escaped, false)) == Seq::<u8>::empty());
    assert(payload + Seq::<u8>::empty() =~= payload);
}

/// Round trip: every payload of at most `MAX_PAYLOAD_SIZE` bytes encodes
/// within the maximum frame size, and decoding the encoded frame gives the
/// payload back.
pub proof fn lemma_round_trip(payload: Seq<u8>)
    requires
        payload.len() <= MAX_PAYLOAD_SIZE,
    ensures
        escape_seq(payload).len() < MAX_FRAME_SIZE,
        unescape_seq(escape_seq(payload), false) == payload,
        unescape_seq(escape_seq(payload) + seq![TERMINATOR], false) == payload,
{
    lemma_escape_seq_len(payload);
    lemma_unescape_escape(payload);
    lemma_unescape_frame(payload);
}

/// What one pushed byte does to the decoder.
#[derive(Clone, Copy, Debug, PartialEq, Eq, Structural)]
pub enum DecodeStep {
    /// The byte was consumed; the frame is not complete yet.
    Consumed,
    /// The byte was the terminator: the payload decoded so far is the frame's.
    Complete,
    /// Storing the byte would need more than the maximum buffer size.
    Overflow,
}

/// Incremental frame decoder: accepts the wire bytes one octet at a time, as
/// the channel delivers them, and accumulates the decoded payload until the
/// terminator arrives.
pub struct FrameDecoder {
    /// Payload bytes decoded so far.
    pub payload: Vec<u8>,
    /// Whether an escape octet was consumed and its partner is still awaited.
    pub pending: bool,
}

impl FrameDecoder {
    /// A decoder with nothing consumed yet.
    pub fn new() -> (d: FrameDecoder)
        ensures
            d.payload@ == Seq::<u8>::empty(),
            !d.pending,
    {
        FrameDecoder { payload: Vec::new(), pending: false }
    }

    /// Consumes one wire byte, mirroring one step of `unescape_seq`.
    pub fn push(&mut self, b: u8) -> (r: DecodeStep)
        ensures
            b == TERMINATOR ==> r == DecodeStep::Complete && *final(self) == *old(self),
            b == ESCAPE ==> r == DecodeStep::Consumed && final(self).payload@ == old(
                self,
            ).payload@ && final(self).pending,
            b != TERMINATOR && b != ESCAPE && old(self).payload@.len() < MAX_FRAME_SIZE ==> r
                == DecodeStep::Consumed && final(self).payload@ == old(self).payload@.push(
                unescape_byte(b, old(self).pending),
            ) && !final(self).pending,
            b != TERMINATOR && b != ESCAPE && old(self).payload@.len() >= MAX_FRAME_SIZE ==> r
                == DecodeStep::Overflow && *final(self) == *old(self),
    {
        if b == TERMINATOR {
            DecodeStep::Complete
        } else if b == ESCAPE {
            self.pending = true;
            DecodeStep::Consumed
        } else if self.payload.len() >= MAX_FRAME_SIZE {
            DecodeStep::Overflow
        } else {
            let decoded: u8 = if self.pending {
                b.wrapping_add(ESCAPE)
            } else {
                b
            };
            self.payload.push(decoded);
            self.pending = false;
            DecodeStep::Consumed
        }
    }
}

/// Decodes the bytes of one frame, consuming octets up to the first
/// terminator (or all of them, when the terminator was already stripped).
/// Fails with `Overflow` exactly when the decoded payload would exceed the
/// maximum buffer size.
pub fn decode_frame(frame: &[u8]) -> (r: Result<Vec<u8>, GatewayError>)
    ensures
        r is Ok <==> unescape_seq(frame@, false).len() <= MAX_FRAME_SIZE,
        r matches Ok(payload) ==> payload@ == unescape_seq(frame@, false),
        r matches Err(e) ==> e == GatewayError::Overflow,
{
    let mut decoder = FrameDecoder::new();
    let ghost whole = unescape_seq(frame@, false);
    let mut i: usize = 0;
    proof {
        assert(frame@.take(0) =~= Seq::<u8>::empty());
    }
    while i < frame.len()
        invariant
            0 <= i <= frame@.len(),
            forall|j: int| 0 <= j < i ==> frame@[j] != TERMINATOR,
            decoder.payload@ == unescape_seq(frame@.take(i as int), false),
            decoder.pending == pending_after(frame@.take(i as int), false),
            decoder.payload@.len() <= MAX_FRAME_SIZE,
            whole == unescape_seq(frame@, false),
        decreases frame@.len() - i,
    {
        let b = frame[i];
        proof {
            lemma_unescape_seq_split(frame@.take(i as int + 1), i as int, false);
            assert(frame@.take(i as int + 1).take(i as int) =~= frame@.take(i as int));
            assert(frame@.take(i as int + 1).skip(i as int) =~= seq![b]);
            lemma_unescape_seq_singleton(b, pending_after(frame@.take(i as int), false));
            lemma_unescape_seq_split(frame@, i as int, false);
            assert(frame@.skip(i as int)[0] == b);
        }
        let step = decoder.push(b);
        match step {
            DecodeStep::Complete => {
                // A terminator inside the buffer: the frame ends here.
                proof {
                    assert(unescape_seq(frame@.skip(i as int), pending_after(
                        frame@.take(i as int),
                        false,
                    )) == Seq::<u8>::empty());
                    assert(whole =~= decoder.payload@);
                }
                return Ok(decoder.payload);
            },
            DecodeStep::Overflow => {
                proof {
                    assert(unescape_seq(frame@.skip(i as int), pending_after(
                        frame@.take(i as int),
                        false,
                    )).len() >= 1);
                    assert(whole.len() > MAX_FRAME_SIZE);
                }
                return Err(GatewayError::Overflow);
            },
            DecodeStep::Consumed => {},
        }
        proof {
            assert(decoder.payload@ =~= unescape_seq(frame@.take(i as int + 1), false));
        }
        i = i + 1;
    }
    proof {
        assert(frame@.take(frame@.len() as int) =~= frame@);
    }
    Ok(decoder.payload)
}

} // verus!
