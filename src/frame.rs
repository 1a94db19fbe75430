use rand::RngCore;
use vstd::prelude::*;
use vstd::string::StringSliceAdditionalSpecFns;

use crate::opcode::WebSocketOpcode;

verus! {

/// One unit of the wire protocol.
#[derive(Debug)]
pub struct WebSocketFrame {
    pub fin: bool,
    pub opcode: WebSocketOpcode,
    pub payload: Vec<u8>,
}

/// The mathematical content of a frame.
pub struct FrameView {
    pub fin: bool,
    pub opcode: WebSocketOpcode,
    pub payload: Seq<u8>,
}

impl View for WebSocketFrame {
    type V = FrameView;

    open spec fn view(&self) -> FrameView {
        FrameView { fin: self.fin, opcode: self.opcode, payload: self.payload@ }
    }
}

/// Why a byte sequence does not start with a decodable frame.
#[derive(Debug, Clone, Copy, PartialEq, Eq, Structural)]
pub enum DecodeError {
    /// More bytes are needed before the frame can be decoded.
    Incomplete,
    /// The bytes can never start a valid frame (an unknown opcode).
    Malformed,
}

/// `256` to the power `k`.
pub open spec fn pow256(k: nat) -> nat
    decreases k,
{
    if k == 0 {
        1
    } else {
        256 * pow256((k - 1) as nat)
    }
}

/// The unsigned big-endian number written by the bytes `s`.
pub open spec fn be_value(s: Seq<u8>) -> nat
    decreases s.len(),
{
    if s.len() == 0 {
        0
    } else {
        be_value(s.drop_last()) * 256 + s.last() as nat
    }
}

/// The `k` low-order bytes of `n`, most significant first.
pub open spec fn be_bytes(n: nat, k: nat) -> Seq<u8>
    decreases k,
{
    if k == 0 {
        Seq::empty()
    } else {
        be_bytes(n / 256, (k - 1) as nat).push((n % 256) as u8)
    }
}

/// Each byte of `p` XORed with the key byte at its index modulo four.
pub open spec fn xor_mask(p: Seq<u8>, key: Seq<u8>) -> Seq<u8> {
    Seq::new(p.len(), |i: int| p[i] ^ key[i % 4])
}

/// Bit 7 of the first byte.
pub open spec fn fin_bit(b0: u8) -> bool {
    b0 & 0x80 != 0
}

/// Bits 0 to 3 of the first byte.
pub open spec fn opcode_bits(b0: u8) -> u8 {
    b0 & 0x0F
}

/// Bit 7 of the second byte.
pub open spec fn mask_bit(b1: u8) -> bool {
    b1 & 0x80 != 0
}

/// Bits 0 to 6 of the second byte.
pub open spec fn base_len(b1: u8) -> u8 {
    b1 & 0x7F
}

/// Size of the extended length field announced by the second byte.
pub open spec fn ext_len_size(b1: u8) -> nat {
    if base_len(b1) == 126 {
        2
    } else if base_len(b1) == 127 {
        8
    } else {
        0
    }
}

/// Where the masking key (or, unmasked, the payload) starts.
pub open spec fn key_offset(b1: u8) -> nat {
    2 + ext_len_size(b1)
}

/// Size of the whole header: two bytes, extended length, masking key.
pub open spec fn header_size(b1: u8) -> nat {
    key_offset(b1) + if mask_bit(b1) {
        4nat
    } else {
        0nat
    }
}

/// The payload length announced by the header at the start of `s`.
pub open spec fn payload_len(s: Seq<u8>) -> nat {
    if base_len(s[1]) < 126 {
        base_len(s[1]) as nat
    } else {
        be_value(s.subrange(2, key_offset(s[1]) as int))
    }
}

/// Size of the frame that starts `s`: header and payload.
pub open spec fn frame_size(s: Seq<u8>) -> nat {
    header_size(s[1]) + payload_len(s)
}

/// The payload of the frame that starts `s`, unmasked where a key is present.
pub open spec fn decoded_payload(s: Seq<u8>) -> Seq<u8> {
    let raw = s.subrange(header_size(s[1]) as int, frame_size(s) as int);
    if mask_bit(s[1]) {
        xor_mask(raw, s.subrange(key_offset(s[1]) as int, key_offset(s[1]) + 4int))
    } else {
        raw
    }
}

/// What decoding the start of `s` gives: the frame and the number of bytes it
/// takes, or why there is none yet.
pub open spec fn decode(s: Seq<u8>) -> Result<(nat, FrameView), DecodeError> {
    if s.len() < 2 {
        Err(DecodeError::Incomplete)
    } else if WebSocketOpcode::spec_from_u8(opcode_bits(s[0])) is None {
        Err(DecodeError::Malformed)
    } else if s.len() < key_offset(s[1]) || s.len() < frame_size(s) {
        Err(DecodeError::Incomplete)
    } else {
        Ok(
            (
                frame_size(s),
                FrameView {
                    fin: fin_bit(s[0]),
                    opcode: WebSocketOpcode::spec_from_u8(opcode_bits(s[0])).unwrap(),
                    payload: decoded_payload(s),
                },
            ),
        )
    }
}

/// First byte of an encoded frame: FIN bit and opcode.
pub open spec fn first_byte(fin: bool, op: WebSocketOpcode) -> u8 {
    (if fin {
        0x80u8
    } else {
        0u8
    }) | (op.spec_value() & 0x0F)
}

/// The length bytes of an outbound frame, with the MASK bit set: the length
/// itself up to 125, else 126 and two bytes, else 127 and eight bytes.
pub open spec fn length_field(n: nat) -> Seq<u8> {
    if n <= 125 {
        seq![0x80u8 | (n as u8)]
    } else if n <= 65535 {
        seq![0x80u8 | 126u8] + be_bytes(n, 2)
    } else {
        seq![0x80u8 | 127u8] + be_bytes(n, 8)
    }
}

/// The bytes of the frame `f` sent with masking key `key`.
pub open spec fn encode(f: FrameView, key: Seq<u8>) -> Seq<u8> {
    seq![first_byte(f.fin, f.opcode)] + length_field(f.payload.len()) + key + xor_mask(f.payload, key)
}

proof fn lemma_pow256_monotone(i: nat, j: nat)
    requires
        i <= j,
    ensures
        pow256(i) <= pow256(j),
        pow256(i) >= 1,
    decreases j,
{
    if i < j {
        lemma_pow256_monotone(i, (j - 1) as nat);
    } else if i > 0 {
        lemma_pow256_monotone((i - 1) as nat, (i - 1) as nat);
    }
}

proof fn lemma_pow256_eight()
    ensures
        pow256(8) == 0x1_0000_0000_0000_0000,
{
    assert(pow256(0) == 1);
    assert(pow256(1) == 256);
    assert(pow256(2) == 0x1_0000);
    assert(pow256(3) == 0x100_0000);
    assert(pow256(4) == 0x1_0000_0000);
    assert(pow256(5) == 0x100_0000_0000);
    assert(pow256(6) == 0x1_0000_0000_0000);
    assert(pow256(7) == 0x100_0000_0000_0000);
}

/// Reads the `k` bytes at `start` as a big-endian number.
fn read_be(input: &[u8], start: usize, k: usize) -> (r: u64)
    requires
        k <= 8,
        start + k <= input@.len(),
    ensures
        r as nat == be_value(input@.subrange(start as int, start + k)),
{
    let mut v: u64 = 0;
    let mut i: usize = 0;
    while i < k
        invariant
            i <= k <= 8,
            start + k <= input.len(),
            v as nat == be_value(input@.subrange(start as int, start + i)),
            (v as nat) < pow256(i as nat),
        decreases k - i,
    {
        let b = input[start + i];
        proof {
            let s = input@.subrange(start as int, start + i + 1);
            assert(s.drop_last() =~= input@.subrange(start as int, start + i));
            lemma_pow256_monotone((i + 1) as nat, 8);
            lemma_pow256_eight();
            let p = pow256(i as nat);
            assert((v as nat) * 256 + (b as nat) < p * 256) by (nonlinear_arith)
                requires
                    (v as nat) < p,
                    (b as nat) < 256,
            ;
        }
        v = v * 256 + b as u64;
        i = i + 1;
    }
    v
}

impl WebSocketFrame {
    /// Decodes the frame at the start of `input`. On success gives the number
    /// of bytes the frame takes and the frame, its payload unmasked; bytes
    /// after it are left for the next call.
    pub fn parse(input: &[u8]) -> (r: Result<(usize, WebSocketFrame), DecodeError>)
        ensures
            match r {
                Ok((n, f)) => decode(input@) == Ok::<(nat, FrameView), DecodeError>((n as nat, f@)),
                Err(e) => decode(input@) == Err::<(nat, FrameView), DecodeError>(e),
            },
    {
        let len = input.len();
        if len < 2 {
            return Err(DecodeError::Incomplete);
        }
        let b0 = input[0];
        let b1 = input[1];
        let fin = b0 & 0x80 != 0;
        let opcode = match WebSocketOpcode::from_u8(b0 & 0x0F) {
            Some(op) => op,
            None => {
                return Err(DecodeError::Malformed);
            },
        };
        let masked = b1 & 0x80 != 0;
        let base = b1 & 0x7F;
        let ext: usize = if base == 126 {
            2
        } else if base == 127 {
            8
        } else {
            0
        };
        let key_start: usize = 2 + ext;
        if len < key_start {
            return Err(DecodeError::Incomplete);
        }
        let announced: u64 = if base < 126 {
            base as u64
        } else {
            read_be(input, 2, ext)
        };
        assert(announced as nat == payload_len(input@));
        let header: usize = if masked {
            key_start + 4
        } else {
            key_start
        };
        if len < header || ((len - header) as u64) < announced {
            return Err(DecodeError::Incomplete);
        }
        let plen = announced as usize;
        let mut payload: Vec<u8> = Vec::new();
        let mut i: usize = 0;
        while i < plen
            invariant
                i <= plen,
                header + plen <= len == input@.len(),
                key_start + 4 <= len || !masked,
                header == if masked { key_start + 4 } else { key_start as int },
                payload@.len() == i,
                forall|j: int|
                    0 <= j < i ==> payload@[j] == if masked {
                        input@[header + j] ^ input@[key_start + j % 4]
                    } else {
                        input@[header + j]
                    },
            decreases plen - i,
        {
            let raw = input[header + i];
            let byte = if masked {
                raw ^ input[key_start + i % 4]
            } else {
                raw
            };
            payload.push(byte);
            i = i + 1;
        }
        assert(payload@ =~= decoded_payload(input@));
        Ok((header + plen, WebSocketFrame { fin, opcode, payload }))
    }
}

proof fn lemma_be_bytes_len(n: nat, k: nat)
    ensures
        be_bytes(n, k).len() == k,
    decreases k,
{
    if k > 0 {
        lemma_be_bytes_len(n / 256, (k - 1) as nat);
    }
}

proof fn lemma_be_round_trip(n: nat, k: nat)
    requires
        n < pow256(k),
    ensures
        be_value(be_bytes(n, k)) == n,
    decreases k,
{
    if k > 0 {
        let q = n / 256;
        let p = pow256((k - 1) as nat);
        assert(q < p) by (nonlinear_arith)
            requires
                n < 256 * p,
                q == n / 256,
        ;
        lemma_be_round_trip(q, (k - 1) as nat);
        let s = be_bytes(n, k);
        assert(s.drop_last() =~= be_bytes(q, (k - 1) as nat));
    }
}

proof fn lemma_first_byte(fin: bool, op: WebSocketOpcode)
    ensures
        fin_bit(first_byte(fin, op)) == fin,
        WebSocketOpcode::spec_from_u8(opcode_bits(first_byte(fin, op))) == Some(op),
{
    let v = op.spec_value();
    assert(v < 16);
    let b = first_byte(fin, op);
    if fin {
        assert((0x80u8 | (v & 0x0F)) & 0x80 != 0) by (bit_vector);
        assert(v < 16 ==> ((0x80u8 | (v & 0x0F)) & 0x0F) == v) by (bit_vector);
    } else {
        assert((0u8 | (v & 0x0F)) & 0x80 == 0) by (bit_vector);
        assert(v < 16 ==> ((0u8 | (v & 0x0F)) & 0x0F) == v) by (bit_vector);
    }
}

proof fn lemma_length_field(n: nat)
    requires
        n <= u64::MAX,
    ensures
        length_field(n).len() >= 1,
        mask_bit(length_field(n)[0]),
        key_offset(length_field(n)[0]) == 1 + length_field(n).len(),
        base_len(length_field(n)[0]) < 126 ==> base_len(length_field(n)[0]) as nat == n,
        base_len(length_field(n)[0]) >= 126 ==> be_value(
            length_field(n).subrange(1, length_field(n).len() as int),
        ) == n,
{
    let lf = length_field(n);
    if n <= 125 {
        let x = n as u8;
        assert(x <= 125 ==> (0x80u8 | x) & 0x80 != 0 && (0x80u8 | x) & 0x7F == x) by (bit_vector);
    } else if n <= 65535 {
        assert((0x80u8 | 126u8) & 0x80 != 0 && (0x80u8 | 126u8) & 0x7F == 126) by (bit_vector);
        lemma_be_bytes_len(n, 2);
        assert(pow256(2) == 65536) by {
            assert(pow256(0) == 1);
            assert(pow256(1) == 256);
        }
        lemma_be_round_trip(n, 2);
        assert(lf.subrange(1, lf.len() as int) =~= be_bytes(n, 2));
    } else {
        assert((0x80u8 | 127u8) & 0x80 != 0 && (0x80u8 | 127u8) & 0x7F == 127) by (bit_vector);
        lemma_be_bytes_len(n, 8);
        lemma_pow256_eight();
        lemma_be_round_trip(n, 8);
        assert(lf.subrange(1, lf.len() as int) =~= be_bytes(n, 8));
    }
}

proof fn lemma_xor_mask_twice(p: Seq<u8>, key: Seq<u8>)
    requires
        key.len() == 4,
    ensures
        xor_mask(xor_mask(p, key), key) == p,
{
    assert forall|j: int| 0 <= j < p.len() implies #[trigger] xor_mask(xor_mask(p, key), key)[j]
        == p[j] by {
        let a = p[j];
        let b = key[j % 4];
        assert((a ^ b) ^ b == a) by (bit_vector);
    }
    assert(xor_mask(xor_mask(p, key), key) =~= p);
}

/// The header of an encoded frame, read back from any bytes that start with it.
proof fn lemma_encoded_header(f: FrameView, key: Seq<u8>, s: Seq<u8>)
    requires
        key.len() == 4,
        f.payload.len() <= u64::MAX,
        s.len() >= 1 + length_field(f.payload.len()).len() + 4,
        s.subrange(0, length_field(f.payload.len()).len() as int + 5) == encode(f, key).subrange(
            0,
            length_field(f.payload.len()).len() as int + 5,
        ),
    ensures
        encode(f, key).len() == header_size(s[1]) + f.payload.len(),
        header_size(s[1]) == 1 + length_field(f.payload.len()).len() + 4,
        key_offset(s[1]) + 4 == header_size(s[1]),
        frame_size(s) == encode(f, key).len(),
        fin_bit(s[0]) == f.fin,
        WebSocketOpcode::spec_from_u8(opcode_bits(s[0])) == Some(f.opcode),
        mask_bit(s[1]),
        s.subrange(key_offset(s[1]) as int, key_offset(s[1]) + 4int) == key,
{
    let n = f.payload.len();
    let e = encode(f, key);
    let lf = length_field(n);
    let h: int = lf.len() as int + 5;
    lemma_length_field(n);
    lemma_first_byte(f.fin, f.opcode);
    assert(s[0] == s.subrange(0, h)[0]);
    assert(s[1] == s.subrange(0, h)[1]);
    assert(e[0] == first_byte(f.fin, f.opcode));
    assert(e[1] == lf[0]);
    assert(s.subrange(2, key_offset(s[1]) as int) =~= lf.subrange(1, lf.len() as int)) by {
        assert forall|j: int| 0 <= j < lf.len() - 1 implies s.subrange(
            2,
            key_offset(s[1]) as int,
        )[j] == lf.subrange(1, lf.len() as int)[j] by {
            assert(s[2 + j] == s.subrange(0, h)[2 + j]);
            assert(e[2 + j] == lf[1 + j]);
        }
    }
    assert(s.subrange(key_offset(s[1]) as int, key_offset(s[1]) + 4int) =~= key) by {
        assert forall|j: int| 0 <= j < 4 implies s.subrange(
            key_offset(s[1]) as int,
            key_offset(s[1]) + 4int,
        )[j] == key[j] by {
            assert(s[1 + lf.len() + j] == s.subrange(0, h)[1 + lf.len() + j]);
            assert(e[1 + lf.len() + j] == key[j]);
        }
    }
}

/// A first byte whose opcode bits name no opcode makes the bytes malformed as
/// soon as the two header bytes are there; it is never read as another opcode.
pub proof fn lemma_unknown_opcode_malformed(s: Seq<u8>)
    requires
        s.len() >= 2,
        WebSocketOpcode::spec_from_u8(opcode_bits(s[0])) is None,
    ensures
        decode(s) == Err::<(nat, FrameView), DecodeError>(DecodeError::Malformed),
{
}

/// Decoding the bytes of an encoded frame, followed by any further bytes,
/// gives back the frame's FIN bit, opcode and payload, and takes exactly the
/// encoded bytes.
pub proof fn lemma_decode_encode(f: FrameView, key: Seq<u8>, rest: Seq<u8>)
    requires
        key.len() == 4,
        f.payload.len() <= u64::MAX,
    ensures
        decode(encode(f, key) + rest) == Ok::<(nat, FrameView), DecodeError>(
            (encode(f, key).len(), f),
        ),
{
    let n = f.payload.len();
    let e = encode(f, key);
    let s = e + rest;
    let lf = length_field(n);
    lemma_length_field(n);
    let h: int = lf.len() as int + 5;
    assert(s.subrange(0, h) =~= e.subrange(0, h));
    lemma_encoded_header(f, key, s);
    assert(s.subrange(h, h + n as int) =~= xor_mask(f.payload, key));
    lemma_xor_mask_twice(f.payload, key);
    assert(decoded_payload(s) =~= f.payload);
}

/// Every proper prefix of an encoded frame decodes as incomplete, never as
/// malformed: a reader that has only part of a frame keeps waiting for more.
pub proof fn lemma_prefix_incomplete(f: FrameView, key: Seq<u8>, k: nat)
    requires
        key.len() == 4,
        f.payload.len() <= u64::MAX,
        k < encode(f, key).len(),
    ensures
        decode(encode(f, key).subrange(0, k as int)) == Err::<(nat, FrameView), DecodeError>(
            DecodeError::Incomplete,
        ),
{
    let n = f.payload.len();
    let e = encode(f, key);
    let s = e.subrange(0, k as int);
    let lf = length_field(n);
    lemma_length_field(n);
    lemma_first_byte(f.fin, f.opcode);
    let h: int = lf.len() as int + 5;
    if k >= 2 {
        assert(s[0] == e[0]);
        assert(s[1] == e[1]);
        if k >= key_offset(s[1]) {
            assert(s.subrange(2, key_offset(s[1]) as int) =~= e.subrange(
                2,
                key_offset(e[1]) as int,
            ));
            lemma_encoded_header(f, key, e);
            assert(payload_len(s) == payload_len(e));
        }
    }
}

/// Splitting the bytes of an encoded frame at any point, and delivering the
/// two pieces one after the other, decodes to the same frame as delivering
/// them at once: with only the first piece buffered the decoder asks for more
/// bytes and consumes nothing, and with both pieces buffered (and whatever
/// follows) it gives the frame and takes the whole encoding. Since every
/// proper prefix is incomplete, the same holds for any number of pieces.
pub proof fn lemma_split_decode(f: FrameView, key: Seq<u8>, k: nat, rest: Seq<u8>)
    requires
        key.len() == 4,
        f.payload.len() <= u64::MAX,
        k <= encode(f, key).len(),
    ensures
        k < encode(f, key).len() ==> decode(encode(f, key).subrange(0, k as int)) == Err::<
            (nat, FrameView),
            DecodeError,
        >(DecodeError::Incomplete),
        decode(
            encode(f, key).subrange(0, k as int) + encode(f, key).subrange(
                k as int,
                encode(f, key).len() as int,
            ) + rest,
        ) == decode(encode(f, key) + rest),
        decode(encode(f, key) + rest) == Ok::<(nat, FrameView), DecodeError>(
            (encode(f, key).len(), f),
        ),
{
    let e = encode(f, key);
    if k < e.len() {
        lemma_prefix_incomplete(f, key, k);
    }
    assert(e.subrange(0, k as int) + e.subrange(k as int, e.len() as int) =~= e);
    lemma_decode_encode(f, key, rest);
}

/// Unmasking the payload bytes of an encoded frame with the key that the
/// bytes carry recovers the original payload.
pub proof fn lemma_unmask_recovers(f: FrameView, key: Seq<u8>)
    requires
        key.len() == 4,
        f.payload.len() <= u64::MAX,
    ensures
        ({
            let e = encode(f, key);
            let h = header_size(e[1]);
            let ko = key_offset(e[1]);
            &&& e.len() == h + f.payload.len()
            &&& xor_mask(e.subrange(h as int, e.len() as int), e.subrange(ko as int, ko + 4int))
                == f.payload
        }),
{
    let e = encode(f, key);
    let lf = length_field(f.payload.len());
    lemma_length_field(f.payload.len());
    let h: int = lf.len() as int + 5;
    lemma_encoded_header(f, key, e);
    assert(e.subrange(h, e.len() as int) =~= xor_mask(f.payload, key));
    lemma_xor_mask_twice(f.payload, key);
}

/// Appends the `k` low-order bytes of `n` to `out`, most significant first.
fn push_be(out: &mut Vec<u8>, n: u64, k: usize)
    ensures
        final(out)@ == old(out)@ + be_bytes(n as nat, k as nat),
    decreases k,
{
    if k > 0 {
        push_be(out, n / 256, k - 1);
        out.push((n % 256) as u8);
        assert(final(out)@ =~= old(out)@ + be_bytes(n as nat, k as nat));
    } else {
        assert(old(out)@ + be_bytes(n as nat, k as nat) =~= old(out)@);
    }
}

/// Relies on rand::thread_rng and RngCore::fill_bytes: `n` uniformly drawn
/// bytes; nothing is known of their values.
#[verifier::external_body]
pub(crate) fn random_bytes(n: usize) -> (r: Vec<u8>)
    ensures
        r@.len() == n,
{
    let mut bytes = vec![0u8; n];
    rand::thread_rng().fill_bytes(&mut bytes);
    bytes
}

impl WebSocketFrame {
    /// A final text frame carrying the UTF-8 bytes of `message`.
    pub fn from_message(message: &str) -> (r: WebSocketFrame)
        ensures
            r.fin,
            r.opcode == WebSocketOpcode::Text,
            r.payload@ == message.spec_bytes(),
    {
        WebSocketFrame {
            fin: true,
            opcode: WebSocketOpcode::Text,
            payload: vstd::slice::slice_to_vec(message.as_bytes()),
        }
    }

    /// A final close frame with an empty payload.
    pub fn build_close_frame() -> (r: WebSocketFrame)
        ensures
            r.fin,
            r.opcode == WebSocketOpcode::Close,
            r.payload@.len() == 0,
    {
        WebSocketFrame { fin: true, opcode: WebSocketOpcode::Close, payload: Vec::new() }
    }

    /// Encodes the frame for sending, masked with `key`.
    pub fn to_bytes_masked(&self, key: [u8; 4]) -> (r: Vec<u8>)
        ensures
            r@ == encode(self@, key@),
    {
        let mut frame: Vec<u8> = Vec::new();
        let high: u8 = if self.fin {
            0x80
        } else {
            0
        };
        frame.push(high | (self.opcode.to_u8() & 0x0F));
        let n = self.payload.len();
        if n <= 125 {
            frame.push(0x80u8 | (n as u8));
        } else if n <= 65535 {
            frame.push(0x80u8 | 126u8);
            push_be(&mut frame, n as u64, 2);
        } else {
            frame.push(0x80u8 | 127u8);
            push_be(&mut frame, n as u64, 8);
        }
        assert(frame@ =~= seq![first_byte(self.fin, self.opcode)] + length_field(n as nat));
        frame.push(key[0]);
        frame.push(key[1]);
        frame.push(key[2]);
        frame.push(key[3]);
        let ghost head = frame@;
        assert(head =~= seq![first_byte(self.fin, self.opcode)] + length_field(n as nat) + key@);
        let mut i: usize = 0;
        while i < n
            invariant
                i <= n == self.payload@.len(),
                frame@.len() == head.len() + i,
                frame@.subrange(0, head.len() as int) == head,
                forall|j: int| 0 <= j < i ==> frame@[head.len() + j] == self.payload@[j] ^ key@[j % 4],
            decreases n - i,
        {
            frame.push(self.payload[i] ^ key[i % 4]);
            assert(frame@.subrange(0, head.len() as int) =~= head);
            i = i + 1;
        }
        assert(frame@ =~= head + xor_mask(self.payload@, key@));
        frame
    }

    /// Encodes the frame for sending, masked with a freshly drawn random key
    /// that the bytes carry after the length field.
    pub fn to_bytes(&self) -> (r: Vec<u8>)
        ensures
            exists|key: Seq<u8>| key.len() == 4 && r@ == encode(self@, key),
    {
        let drawn = random_bytes(4);
        let key: [u8; 4] = [drawn[0], drawn[1], drawn[2], drawn[3]];
        let r = self.to_bytes_masked(key);
        assert(key@.len() == 4 && r@ == encode(self@, key@));
        r
    }
}

} // verus!
