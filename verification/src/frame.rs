//! WebSocket frames as a client sends them: the header byte with the final bit
//! and the opcode, the length byte with the mask bit, an optional extended
//! length, an optional masking key, and the payload.
use vstd::prelude::*;
use vstd::utf8::{valid_utf8, decode_utf8};
use crate::text::utf8_to_string;

verus! {

/// The kind of a frame.
#[derive(Debug, Clone, Copy, PartialEq, Eq, Structural)]
pub enum Opcode {
    Cont,
    Text,
    Binary,
    NonCtrl,
    ConnClosed,
    Ping,
    Pong,
    Ctrl,
}

/// A frame received from a client.
#[derive(Debug)]
pub struct Frame {
    pub is_final: bool,
    pub opcode: Opcode,
    pub is_masked: bool,
    pub masking_key: u32,
    pub payload_len: u64,
    pub payload: String,
}

/// The mathematical content of a [`Frame`].
pub struct FrameView {
    pub is_final: bool,
    pub opcode: Opcode,
    pub is_masked: bool,
    pub masking_key: u32,
    pub payload_len: u64,
    pub payload: Seq<char>,
}

impl View for Frame {
    type V = FrameView;

    open spec fn view(&self) -> FrameView {
        FrameView {
            is_final: self.is_final,
            opcode: self.opcode,
            is_masked: self.is_masked,
            masking_key: self.masking_key,
            payload_len: self.payload_len,
            payload: self.payload@,
        }
    }
}

/// What reading a frame from the bytes received so far gives.
pub enum FrameParse {
    /// The frame is not complete: this many more bytes are needed before the
    /// next part of it can be read.
    NeedMore(u64),
    /// The first byte names an opcode that is not served.
    Rejected,
    /// A complete frame, and the number of bytes it takes.
    Parsed(Frame, usize),
}

/// The mathematical content of a [`FrameParse`].
pub enum ParseOutcome {
    NeedMore(nat),
    Rejected,
    Parsed(FrameView, nat),
}

impl View for FrameParse {
    type V = ParseOutcome;

    open spec fn view(&self) -> ParseOutcome {
        match self {
            FrameParse::NeedMore(n) => ParseOutcome::NeedMore(*n as nat),
            FrameParse::Rejected => ParseOutcome::Rejected,
            FrameParse::Parsed(f, n) => ParseOutcome::Parsed(f@, *n as nat),
        }
    }
}

/// The opcode named by the low four bits of a frame's first byte: text (1),
/// binary (2), ping (9) and pong (10) are served, every other value is not.
pub open spec fn opcode_of(b: u8) -> Option<Opcode> {
    let low = b & 0x0f;
    if low == 1 {
        Some(Opcode::Text)
    } else if low == 2 {
        Some(Opcode::Binary)
    } else if low == 9 {
        Some(Opcode::Ping)
    } else if low == 10 {
        Some(Opcode::Pong)
    } else {
        None
    }
}

/// The value of bytes read as a big-endian unsigned number.
pub open spec fn be_value(s: Seq<u8>) -> nat
    decreases s.len(),
{
    if s.len() == 0 {
        0
    } else {
        be_value(s.drop_last()) * 256 + s.last() as nat
    }
}

/// `256` to the power `n`.
pub open spec fn pow256(n: nat) -> nat
    decreases n,
{
    if n == 0 {
        1
    } else {
        256 * pow256((n - 1) as nat)
    }
}

proof fn lemma_be_value_bound(s: Seq<u8>)
    ensures
        be_value(s) < pow256(s.len()),
    decreases s.len(),
{
    if s.len() > 0 {
        lemma_be_value_bound(s.drop_last());
    }
}

proof fn lemma_pow256_mono(i: nat, j: nat)
    requires
        i <= j,
    ensures
        pow256(i) <= pow256(j),
    decreases j,
{
    if i < j {
        lemma_pow256_mono(i, (j - 1) as nat);
    }
}

proof fn lemma_pow256_8()
    ensures
        pow256(8) == 0x1_0000_0000_0000_0000,
{
    reveal_with_fuel(pow256, 9);
}

/// `raw` with byte `i` xor-ed with byte `i % 4` of `key`.
pub open spec fn unmasked(raw: Seq<u8>, key: Seq<u8>) -> Seq<u8> {
    Seq::new(raw.len(), |i: int| raw[i] ^ key[i % 4])
}

/// The text of a payload: its UTF-8 text, or nothing where it is not UTF-8.
pub open spec fn payload_text(bytes: Seq<u8>) -> Seq<char> {
    if valid_utf8(bytes) {
        decode_utf8(bytes)
    } else {
        Seq::empty()
    }
}

/// The payload length read from the length byte and, where it says so, the
/// following bytes, with the position just past it; `None` where those bytes
/// have not all arrived. A 7-bit length of 126 is followed by a 16-bit length,
/// and a length of 127 (7-bit, or 16-bit) by a 64-bit length.
pub open spec fn payload_length(b: Seq<u8>) -> Option<(nat, nat)> {
    let len7 = (b[1] & 0x7f) as nat;
    if len7 == 126 && b.len() < 4 {
        None
    } else {
        let len1: nat = if len7 == 126 { be_value(b.subrange(2, 4)) } else { len7 };
        let p1: nat = if len7 == 126 { 4 } else { 2 };
        if len1 == 127 {
            if b.len() < p1 + 8 {
                None
            } else {
                Some((be_value(b.subrange(p1 as int, (p1 + 8) as int)), p1 + 8))
            }
        } else {
            Some((len1, p1))
        }
    }
}

/// The position just past the length fields, where those have not all arrived.
pub open spec fn length_fields_end(b: Seq<u8>) -> nat {
    let len7 = (b[1] & 0x7f) as nat;
    if len7 == 126 && b.len() < 4 {
        4
    } else {
        let p1: nat = if len7 == 126 { 4 } else { 2 };
        p1 + 8
    }
}

/// What reading a frame from the bytes `b` gives.
pub open spec fn parse_outcome(b: Seq<u8>) -> ParseOutcome {
    if b.len() < 1 {
        ParseOutcome::NeedMore((1 - b.len()) as nat)
    } else if opcode_of(b[0]) is None {
        ParseOutcome::Rejected
    } else if b.len() < 2 {
        ParseOutcome::NeedMore((2 - b.len()) as nat)
    } else {
        match payload_length(b) {
            None => ParseOutcome::NeedMore((length_fields_end(b) - b.len()) as nat),
            Some((len, p2)) => {
                let masked = b[1] & 0x80 != 0;
                if masked && b.len() < p2 + 4 {
                    ParseOutcome::NeedMore((p2 + 4 - b.len()) as nat)
                } else {
                    let key: Seq<u8> = if masked {
                        b.subrange(p2 as int, (p2 + 4) as int)
                    } else {
                        seq![0u8, 0u8, 0u8, 0u8]
                    };
                    let p3: nat = if masked { p2 + 4 } else { p2 };
                    if b.len() < p3 + len {
                        ParseOutcome::NeedMore((p3 + len - b.len()) as nat)
                    } else {
                        ParseOutcome::Parsed(
                            FrameView {
                                is_final: b[0] & 0x80 != 0,
                                opcode: opcode_of(b[0])->0,
                                is_masked: masked,
                                masking_key: 0,
                                payload_len: len as u64,
                                payload: payload_text(
                                    unmasked(b.subrange(p3 as int, (p3 + len) as int), key),
                                ),
                            },
                            p3 + len,
                        )
                    }
                }
            },
        }
    }
}

impl Frame {
    /// The final bit and the opcode of a frame's first byte.
    pub fn parse_op_code(byte: [u8; 1]) -> (r: (bool, Option<Opcode>))
        ensures
            r.0 == (byte@[0] & 0x80 != 0),
            r.1 == opcode_of(byte@[0]),
    {
        let b = byte[0];
        let is_final = b & 0b10000000 != 0;
        let low = b & 0b00001111;
        let opcode = if low == 0x1 {
            Some(Opcode::Text)
        } else if low == 0x2 {
            Some(Opcode::Binary)
        } else if low == 0x9 {
            Some(Opcode::Ping)
        } else if low == 0xA {
            Some(Opcode::Pong)
        } else {
            None
        };
        (is_final, opcode)
    }

    /// The mask bit and the 7-bit payload length of a frame's second byte.
    pub fn parse_payload_len(byte: [u8; 1]) -> (r: (bool, u64))
        ensures
            r.0 == (byte@[0] & 0x80 != 0),
            r.1 == (byte@[0] & 0x7f) as u64,
    {
        let b = byte[0];
        let is_masked = b & 0b10000000 != 0;
        let payload_len = b & 0b01111111;
        (is_masked, payload_len as u64)
    }

    /// The extended payload length: two bytes, or eight where `is_64_bit`,
    /// read as a big-endian number.
    pub fn parse_extended_payload_len(bytes: &[u8], is_64_bit: bool) -> (r: u64)
        requires
            bytes@.len() == (if is_64_bit { 8int } else { 2int }),
        ensures
            r == be_value(bytes@),
    {
        let n: usize = if is_64_bit {
            8
        } else {
            2
        };
        let mut acc: u64 = 0;
        let mut i: usize = 0;
        while i < n
            invariant
                i <= n == bytes@.len() <= 8,
                acc == be_value(bytes@.take(i as int)),
            decreases n - i,
        {
            proof {
                assert(bytes@.take(i + 1).drop_last() =~= bytes@.take(i as int));
                lemma_be_value_bound(bytes@.take(i + 1));
                lemma_pow256_mono((i + 1) as nat, 8);
                lemma_pow256_8();
            }
            acc = acc * 256 + bytes[i] as u64;
            i = i + 1;
        }
        assert(bytes@.take(n as int) =~= bytes@);
        acc
    }

    /// Unmasks a payload in place with `mask_key` (byte `i` xor-ed with key byte
    /// `i % 4`) and returns its UTF-8 text, or an empty string where the
    /// unmasked bytes are not UTF-8. An unmasked frame carries the key 0, which
    /// leaves the bytes as they are.
    pub fn read_payload(payload_buff: &mut Vec<u8>, is_masked: bool, mask_key: [u8; 4]) -> (s:
        String)
        ensures
            final(payload_buff)@ == unmasked(old(payload_buff)@, mask_key@),
            s@ == payload_text(unmasked(old(payload_buff)@, mask_key@)),
    {
        let n = payload_buff.len();
        let ghost raw = payload_buff@;
        let mut i: usize = 0;
        while i < n
            invariant
                i <= n == payload_buff@.len() == raw.len(),
                mask_key@.len() == 4,
                forall|k: int| 0 <= k < i ==> payload_buff@[k] == raw[k] ^ mask_key@[k % 4],
                forall|k: int| i <= k < n ==> payload_buff@[k] == raw[k],
            decreases n - i,
        {
            let b = payload_buff[i] ^ mask_key[i % 4];
            payload_buff.set(i, b);
            i = i + 1;
        }
        assert(payload_buff@ =~= unmasked(raw, mask_key@));
        let bytes = payload_buff.clone();
        match utf8_to_string(bytes) {
            Some(s) => s,
            None => String::new(),
        }
    }

    /// Reads one frame from the start of `buf`, the bytes received so far: the
    /// opcode byte (an opcode that is not served rejects the frame), the length
    /// byte, the extended length where the length byte asks for one, the masking
    /// key where the mask bit is set, and the payload, unmasked and read as
    /// UTF-8. Where `buf` ends before the next of these parts, says how many more
    /// bytes that part needs.
    pub fn parse_frame_buffer(buf: &[u8]) -> (r: FrameParse)
        ensures
            r@ == parse_outcome(buf@),
    {
        let n = buf.len();
        if n < 1 {
            return FrameParse::NeedMore(1);
        }
        let (is_final, opcode) = Frame::parse_op_code([buf[0]]);
        let opcode = match opcode {
            Some(op) => op,
            None => {
                return FrameParse::Rejected;
            },
        };
        if n < 2 {
            return FrameParse::NeedMore(1);
        }
        let (is_masked, len7) = Frame::parse_payload_len([buf[1]]);
        let ghost b = buf@;
        let mut payload_len = len7;
        let mut pos: usize = 2;
        if len7 == 126 {
            if n < 4 {
                return FrameParse::NeedMore((4 - n) as u64);
            }
            let ext = slice_range(buf, 2, 4);
            payload_len = Frame::parse_extended_payload_len(ext, false);
            pos = 4;
        }
        if payload_len == 127 {
            if n < pos + 8 {
                return FrameParse::NeedMore((pos + 8 - n) as u64);
            }
            let ext = slice_range(buf, pos, pos + 8);
            payload_len = Frame::parse_extended_payload_len(ext, true);
            pos = pos + 8;
        }
        assert(payload_length(b) == Some((payload_len as nat, pos as nat)));
        let mut mask_key: [u8; 4] = [0; 4];
        if is_masked {
            if n < pos + 4 {
                return FrameParse::NeedMore((pos + 4 - n) as u64);
            }
            mask_key = [buf[pos], buf[pos + 1], buf[pos + 2], buf[pos + 3]];
            assert(mask_key@ =~= b.subrange(pos as int, pos + 4));
            pos = pos + 4;
        } else {
            assert(mask_key@ =~= seq![0u8, 0u8, 0u8, 0u8]);
        }
        let remaining = (n - pos) as u64;
        if remaining < payload_len {
            return FrameParse::NeedMore(payload_len - remaining);
        }
        let end = pos + payload_len as usize;
        let mut payload_buff = vstd::slice::slice_to_vec(slice_range(buf, pos, end));
        let payload = Frame::read_payload(&mut payload_buff, is_masked, mask_key);
        let frame = Frame { is_final, opcode, is_masked, masking_key: 0, payload_len, payload };
        FrameParse::Parsed(frame, end)
    }

    /// The frame at the start of `buf`, where `buf` holds a complete frame of a
    /// served kind.
    pub fn new(buf: &[u8]) -> (r: Option<Self>)
        ensures
            r is Some <==> parse_outcome(buf@) is Parsed,
            r matches Some(f) ==> parse_outcome(buf@) matches ParseOutcome::Parsed(v, _) && f@
                == v,
    {
        match Frame::parse_frame_buffer(buf) {
            FrameParse::Parsed(f, _) => Some(f),
            _ => None,
        }
    }
}

/// Whatever follows a complete frame does not change how it is read: a frame
/// read from `b` is read the same from `b` followed by any bytes, and a frame
/// rejected from `b` is rejected the same.
pub proof fn lemma_parse_extends(b: Seq<u8>, c: Seq<u8>)
    requires
        parse_outcome(b) is Parsed || parse_outcome(b) is Rejected,
    ensures
        parse_outcome(b + c) == parse_outcome(b),
{
    lemma_prefix_agrees(b, c);
}

/// A frame that needs `m` more bytes still needs the rest of them, and for the
/// same part, when fewer than `m` bytes arrive; and it always needs at least one.
pub proof fn lemma_need_more_extends(b: Seq<u8>, c: Seq<u8>)
    requires
        parse_outcome(b) is NeedMore,
        c.len() < parse_outcome(b)->NeedMore_0,
    ensures
        parse_outcome(b)->NeedMore_0 >= 1,
        parse_outcome(b + c) == ParseOutcome::NeedMore((parse_outcome(b)->NeedMore_0 - c.len()) as nat),
{
    lemma_prefix_agrees(b, c);
}

/// The facts about `b + c` that only depend on the bytes of `b`.
proof fn lemma_prefix_agrees(b: Seq<u8>, c: Seq<u8>)
    ensures
        forall|i: int| 0 <= i < b.len() ==> #[trigger] (b + c)[i] == b[i],
        forall|i: int, j: int|
            0 <= i <= j <= b.len() ==> #[trigger] (b + c).subrange(i, j) == b.subrange(i, j),
        (b + c).len() == b.len() + c.len(),
{
    assert forall|i: int, j: int| 0 <= i <= j <= b.len() implies #[trigger] (b + c).subrange(i, j)
        == b.subrange(i, j) by {
        assert((b + c).subrange(i, j) =~= b.subrange(i, j));
    }
}

/// Which part of a frame the bytes `b` stop in: the opcode byte (0), the length
/// byte (1), the 16-bit length (2), the 64-bit length (3), the masking key (4)
/// or the payload (5).
pub open spec fn missing_part(b: Seq<u8>) -> nat {
    if b.len() < 1 {
        0
    } else if b.len() < 2 {
        1
    } else {
        match payload_length(b) {
            None => if (b[1] & 0x7f) == 126 && b.len() < 4 { 2 } else { 3 },
            Some((len, p2)) => if b[1] & 0x80 != 0 && b.len() < p2 + 4 { 4 } else { 5 },
        }
    }
}

/// Supplying exactly the bytes a frame asks for completes the part it stopped
/// in: the frame is then read, rejected, or stops in a later part. So a frame
/// is read after at most six supplies of the bytes it asks for.
pub proof fn lemma_need_more_progress(b: Seq<u8>, c: Seq<u8>)
    requires
        parse_outcome(b) is NeedMore,
        c.len() == parse_outcome(b)->NeedMore_0,
        parse_outcome(b + c) is NeedMore,
    ensures
        missing_part(b + c) > missing_part(b),
        missing_part(b + c) <= 5,
{
    lemma_prefix_agrees(b, c);
}

/// The bytes a frame's payload decodes from: the `len` bytes from `p` on, each
/// xor-ed with byte `i % 4` of the four bytes before `p` where the mask bit of
/// `b` is set, as they are otherwise.
pub open spec fn payload_bytes(b: Seq<u8>, p: int, len: int) -> Seq<u8> {
    Seq::new(
        len as nat,
        |i: int|
            if b[1] & 0x80 != 0 {
                b[p + i] ^ b[p - 4 + i % 4]
            } else {
                b[p + i]
            },
    )
}

/// What a complete frame of `b` with payload length `len`, payload from `p`
/// on, gives.
pub open spec fn frame_read_as(b: Seq<u8>, p: int, len: int) -> bool {
    parse_outcome(b) matches ParseOutcome::Parsed(v, n) && n == p + len && v.payload_len == len
        && v.is_masked == (b[1] & 0x80 != 0) && v.is_final == (b[0] & 0x80 != 0) && v.masking_key
        == 0 && (valid_utf8(payload_bytes(b, p, len)) ==> v.payload == decode_utf8(
        payload_bytes(b, p, len),
    )) && (!valid_utf8(payload_bytes(b, p, len)) ==> v.payload.len() == 0)
}

/// The low four bits of the first byte name a served opcode.
pub open spec fn served_opcode(b0: u8) -> bool {
    (b0 & 0x0f) == 1 || (b0 & 0x0f) == 2 || (b0 & 0x0f) == 9 || (b0 & 0x0f) == 10
}

proof fn lemma_payload_bytes(b: Seq<u8>, p: int, len: int)
    requires
        0 <= len,
        (b[1] & 0x80 != 0) ==> 4 <= p,
        0 <= p,
        p + len <= b.len(),
    ensures
        payload_bytes(b, p, len) == unmasked(
            b.subrange(p, p + len),
            if b[1] & 0x80 != 0 {
                b.subrange(p - 4, p)
            } else {
                seq![0u8, 0u8, 0u8, 0u8]
            },
        ),
{
    let key = if b[1] & 0x80 != 0 {
        b.subrange(p - 4, p)
    } else {
        seq![0u8, 0u8, 0u8, 0u8]
    };
    let u = unmasked(b.subrange(p, p + len), key);
    assert forall|i: int| 0 <= i < len implies #[trigger] payload_bytes(b, p, len)[i] == u[i] by {
        let x = b[p + i];
        if b[1] & 0x80 == 0 {
            assert(key[i % 4] == 0);
            assert(x ^ 0u8 == x) by (bit_vector);
        }
    }
    assert(payload_bytes(b, p, len) =~= u);
}

/// A frame with a served opcode and a 7-bit length under 126 takes the two
/// header bytes, four key bytes where masked, and that many payload bytes.
pub proof fn lemma_frame_short_length(b: Seq<u8>)
    requires
        b.len() >= 2,
        served_opcode(b[0]),
        (b[1] & 0x7f) < 126,
        b.len() >= 2 + (if b[1] & 0x80 != 0 { 4int } else { 0int }) + (b[1] & 0x7f),
    ensures
        frame_read_as(
            b,
            2 + (if b[1] & 0x80 != 0 { 4int } else { 0int }),
            (b[1] & 0x7f) as int,
        ),
{
    let p = 2 + (if b[1] & 0x80 != 0 { 4int } else { 0int });
    lemma_payload_bytes(b, p, (b[1] & 0x7f) as int);
}

/// A frame with a served opcode and the 7-bit length 126 takes the 16-bit
/// length that follows, read big-endian (byte 2 times 256 plus byte 3), where
/// that is not 127.
pub proof fn lemma_frame_16_bit_length(b: Seq<u8>)
    requires
        b.len() >= 4,
        served_opcode(b[0]),
        (b[1] & 0x7f) == 126,
        b[2] * 256 + b[3] != 127,
        b.len() >= 4 + (if b[1] & 0x80 != 0 { 4int } else { 0int }) + b[2] * 256 + b[3],
    ensures
        frame_read_as(
            b,
            4 + (if b[1] & 0x80 != 0 { 4int } else { 0int }),
            b[2] * 256 + b[3],
        ),
{
    let s = b.subrange(2, 4);
    assert(s.drop_last() =~= seq![b[2]]);
    assert(seq![b[2]].drop_last() =~= Seq::<u8>::empty());
    assert(be_value(Seq::<u8>::empty()) == 0);
    assert(seq![b[2]].last() == b[2]);
    assert(be_value(seq![b[2]]) == b[2]);
    assert(s.last() == b[3]);
    assert(be_value(s) == b[2] * 256 + b[3]);
    let p = 4 + (if b[1] & 0x80 != 0 { 4int } else { 0int });
    lemma_payload_bytes(b, p, b[2] * 256 + b[3]);
}

/// The value of eight bytes from `q` on, read big-endian.
pub open spec fn u64_at(b: Seq<u8>, q: int) -> int {
    b[q] * 0x100_0000_0000_0000 + b[q + 1] * 0x1_0000_0000_0000 + b[q + 2] * 0x100_0000_0000
        + b[q + 3] * 0x1_0000_0000 + b[q + 4] * 0x100_0000 + b[q + 5] * 0x1_0000 + b[q + 6]
        * 0x100 + b[q + 7]
}

proof fn lemma_be_value_8(b: Seq<u8>, q: int)
    requires
        0 <= q,
        q + 8 <= b.len(),
    ensures
        be_value(b.subrange(q, q + 8)) == u64_at(b, q),
{
    let s = b.subrange(q, q + 8);
    assert(s.take(0) =~= Seq::<u8>::empty());
    assert(s.take(1).drop_last() =~= s.take(0));
    assert(s.take(2).drop_last() =~= s.take(1));
    assert(s.take(3).drop_last() =~= s.take(2));
    assert(s.take(4).drop_last() =~= s.take(3));
    assert(s.take(5).drop_last() =~= s.take(4));
    assert(s.take(6).drop_last() =~= s.take(5));
    assert(s.take(7).drop_last() =~= s.take(6));
    assert(s.take(8).drop_last() =~= s.take(7));
    assert(be_value(s.take(0)) == 0);
    assert(s.take(1).last() == b[q]);
    assert(s.take(2).last() == b[q + 1]);
    assert(s.take(3).last() == b[q + 2]);
    assert(s.take(4).last() == b[q + 3]);
    assert(s.take(5).last() == b[q + 4]);
    assert(s.take(6).last() == b[q + 5]);
    assert(s.take(7).last() == b[q + 6]);
    assert(s.take(8).last() == b[q + 7]);
    assert(be_value(s.take(1)) == b[q]);
    assert(be_value(s.take(2)) == b[q] * 0x100 + b[q + 1]);
    assert(be_value(s.take(3)) == b[q] * 0x1_0000 + b[q + 1] * 0x100 + b[q + 2]);
    assert(be_value(s.take(4)) == b[q] * 0x100_0000 + b[q + 1] * 0x1_0000 + b[q + 2] * 0x100
        + b[q + 3]);
    assert(be_value(s.take(5)) == b[q] * 0x1_0000_0000 + b[q + 1] * 0x100_0000 + b[q + 2]
        * 0x1_0000 + b[q + 3] * 0x100 + b[q + 4]);
    assert(be_value(s.take(6)) == b[q] * 0x100_0000_0000 + b[q + 1] * 0x1_0000_0000 + b[q + 2]
        * 0x100_0000 + b[q + 3] * 0x1_0000 + b[q + 4] * 0x100 + b[q + 5]);
    assert(be_value(s.take(7)) == b[q] * 0x1_0000_0000_0000 + b[q + 1] * 0x100_0000_0000 + b[q
        + 2] * 0x1_0000_0000 + b[q + 3] * 0x100_0000 + b[q + 4] * 0x1_0000 + b[q + 5] * 0x100
        + b[q + 6]);
    assert(be_value(s.take(8)) == u64_at(b, q));
    assert(s.take(8) =~= s);
}

/// A frame with a served opcode and the 7-bit length 127 takes the 64-bit
/// length that follows, read big-endian.
pub proof fn lemma_frame_64_bit_length(b: Seq<u8>)
    requires
        b.len() >= 10,
        served_opcode(b[0]),
        (b[1] & 0x7f) == 127,
        b.len() >= 10 + (if b[1] & 0x80 != 0 { 4int } else { 0int }) + u64_at(b, 2),
    ensures
        frame_read_as(b, 10 + (if b[1] & 0x80 != 0 { 4int } else { 0int }), u64_at(b, 2)),
{
    lemma_be_value_8(b, 2);
    let p = 10 + (if b[1] & 0x80 != 0 { 4int } else { 0int });
    lemma_payload_bytes(b, p, u64_at(b, 2));
}

/// A frame whose 7-bit length is 126 and whose 16-bit length is 127 takes a
/// further 64-bit length after it.
pub proof fn lemma_frame_16_bit_127(b: Seq<u8>)
    requires
        b.len() >= 12,
        served_opcode(b[0]),
        (b[1] & 0x7f) == 126,
        b[2] == 0,
        b[3] == 127,
        b.len() >= 12 + (if b[1] & 0x80 != 0 { 4int } else { 0int }) + u64_at(b, 4),
    ensures
        frame_read_as(b, 12 + (if b[1] & 0x80 != 0 { 4int } else { 0int }), u64_at(b, 4)),
{
    let s = b.subrange(2, 4);
    assert(s.drop_last() =~= seq![b[2]]);
    assert(seq![b[2]].drop_last() =~= Seq::<u8>::empty());
    assert(be_value(Seq::<u8>::empty()) == 0);
    assert(seq![b[2]].last() == b[2]);
    assert(be_value(seq![b[2]]) == b[2]);
    assert(s.last() == b[3]);
    assert(be_value(s) == 127);
    lemma_be_value_8(b, 4);
    let p = 12 + (if b[1] & 0x80 != 0 { 4int } else { 0int });
    lemma_payload_bytes(b, p, u64_at(b, 4));
}

/// The first byte decides whether a frame is served: one whose low four bits
/// are not 1, 2, 9 or 10 is rejected, and one that is read has the opcode those
/// bits name (text, binary, ping, pong).
pub proof fn lemma_frame_opcode(b: Seq<u8>)
    requires
        b.len() >= 1,
    ensures
        (parse_outcome(b) is Rejected) == !served_opcode(b[0]),
        parse_outcome(b) matches ParseOutcome::Parsed(v, _) ==> {
            &&& (b[0] & 0x0f) == 1 ==> v.opcode == Opcode::Text
            &&& (b[0] & 0x0f) == 2 ==> v.opcode == Opcode::Binary
            &&& (b[0] & 0x0f) == 9 ==> v.opcode == Opcode::Ping
            &&& (b[0] & 0x0f) == 10 ==> v.opcode == Opcode::Pong
        },
{
}

/// Unmasking with the same key twice gives back the original bytes: masking is
/// its own inverse.
pub proof fn lemma_unmask_involution(raw: Seq<u8>, key: Seq<u8>)
    requires
        key.len() == 4,
    ensures
        unmasked(unmasked(raw, key), key) == raw,
{
    let once = unmasked(raw, key);
    assert forall|i: int| 0 <= i < raw.len() implies #[trigger] unmasked(once, key)[i] == raw[i] by {
        let x = raw[i];
        let k = key[i % 4];
        assert(once[i] == x ^ k);
        assert((x ^ k) ^ k == x) by (bit_vector);
    }
    assert(unmasked(once, key) =~= raw);
}

/// The bytes `s[start..end]`.
fn slice_range(s: &[u8], start: usize, end: usize) -> (r: &[u8])
    requires
        start <= end <= s@.len(),
    ensures
        r@ == s@.subrange(start as int, end as int),
{
    vstd::slice::slice_subrange(s, start, end)
}

} // verus!
