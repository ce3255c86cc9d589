//! The chunk format of the cache device: a JSON header naming payload
//! size, encoding, compression and a 64-bit checksum, a NUL, the payload,
//! and zero padding out to a sector multiple.
//!
//! The header text is this module's own format, written and parsed by
//! verified code; the checksum and the compression are outside calls
//! behind trusted wrappers.

use vstd::prelude::*;
use std::io::Read;
use std::io::Write;

verus! {

#[derive(Debug, Copy, Clone, PartialEq, Eq, Structural)]
pub enum EncodeType {
    Json,
    Bincode,
}

#[derive(Debug, Copy, Clone, PartialEq, Eq, Structural)]
pub enum CompressType {
    Plain,
    Lz4,
}

/// Why a chunk failed to decode.
#[derive(Debug, Copy, Clone, PartialEq, Eq, Structural)]
pub enum ChunkError {
    /// The header text or framing is not well formed, or the stated
    /// payload length exceeds the buffer.
    Malformed,
    /// The stored checksum does not match the payload.
    Checksum,
    /// The payload would not decompress.
    Decompress,
}

/// The checksum that `seahash::hash` computes: a fixed-seed function of
/// the bytes alone.
pub uninterp spec fn sea_sum(data: Seq<u8>) -> u64;

/// What the LZ4 frame encoder produces for given bytes at this level:
/// a function of the bytes alone.
pub uninterp spec fn lz4_pack(data: Seq<u8>) -> Seq<u8>;

/// What the LZ4 frame decoder yields for given bytes: the original
/// payload for an encoder output, nothing for garbage.
pub uninterp spec fn lz4_unpack(data: Seq<u8>) -> Option<Seq<u8>>;

/// Relies on seahash::hash: a pure function of the input bytes, with
/// fixed internal seeds.
#[verifier::external_body]
fn sea_hash(data: &[u8]) -> (r: u64)
    ensures
        r == sea_sum(data@),
{
    seahash::hash(data)
}

/// Relies on lz4::EncoderBuilder / Encoder: compression at a fixed level
/// is a function of the input bytes, and decoding an encoder's output
/// yields the input again.
#[verifier::external_body]
fn lz4_compress(data: &[u8]) -> (r: Option<Vec<u8>>)
    ensures
        r matches Some(v) ==> v@ == lz4_pack(data@),
        r matches Some(v) ==> lz4_unpack(v@) == Some(data@),
{
    let encoder = lz4::EncoderBuilder::new().level(4).build(Vec::new()).ok()?;
    let mut encoder = encoder;
    encoder.write_all(data).ok()?;
    let (out, result) = encoder.finish();
    result.ok()?;
    Some(out)
}

/// Relies on lz4::Decoder: decoding is a function of the input bytes;
/// it fails exactly where no LZ4 frame is present.
#[verifier::external_body]
fn lz4_decompress(data: &[u8]) -> (r: Option<Vec<u8>>)
    ensures
        match lz4_unpack(data@) {
            Some(p) => r matches Some(v) && v@ == p,
            None => r is None,
        },
{
    let mut decoder = lz4::Decoder::new(data).ok()?;
    let mut out = Vec::new();
    decoder.read_to_end(&mut out).ok()?;
    let (_, result) = decoder.finish();
    result.ok()?;
    Some(out)
}

/// The decimal digits of `n`, most significant first.
pub open spec fn dec_digits(n: nat) -> Seq<u8>
    decreases n,
{
    if n < 10 {
        seq![(48 + n) as u8]
    } else {
        dec_digits(n / 10).push((48 + n % 10) as u8)
    }
}

pub open spec fn is_digit(b: u8) -> bool {
    48 <= b <= 57
}

/// The number a digit string denotes.
pub open spec fn num_val(digs: Seq<u8>) -> int
    decreases digs.len(),
{
    if digs.len() == 0 {
        0
    } else {
        num_val(digs.drop_last()) * 10 + (digs.last() - 48)
    }
}

/// The length of the digit run starting at `pos`.
pub open spec fn digit_run_len(buf: Seq<u8>, pos: int) -> int
    decreases buf.len() - pos,
{
    if 0 <= pos < buf.len() && is_digit(buf[pos]) {
        1 + digit_run_len(buf, pos + 1)
    } else {
        0
    }
}

/// `lit` occurs in `buf` at `pos`.
pub open spec fn lit_at(buf: Seq<u8>, pos: int, lit: Seq<u8>) -> bool {
    &&& 0 <= pos
    &&& pos + lit.len() <= buf.len()
    &&& buf.subrange(pos, pos + lit.len()) == lit
}

pub open spec fn lit_payload_size() -> Seq<u8> {
    seq![123u8, 34, 112, 97, 121, 108, 111, 97, 100, 95, 115, 105, 122, 101, 34, 58]
}

pub open spec fn lit_encoding() -> Seq<u8> {
    seq![44u8, 34, 101, 110, 99, 111, 100, 105, 110, 103, 34, 58, 34]
}

pub open spec fn lit_compression() -> Seq<u8> {
    seq![34u8, 44, 34, 99, 111, 109, 112, 114, 101, 115, 115, 105, 111, 110, 34, 58, 34]
}

pub open spec fn lit_checksum() -> Seq<u8> {
    seq![34u8, 44, 34, 99, 104, 101, 99, 107, 115, 117, 109, 34, 58]
}

pub open spec fn lit_json() -> Seq<u8> {
    seq![74u8, 115, 111, 110]
}

pub open spec fn lit_bincode() -> Seq<u8> {
    seq![66u8, 105, 110, 99, 111, 100, 101]
}

pub open spec fn lit_none() -> Seq<u8> {
    seq![78u8, 111, 110, 101]
}

pub open spec fn lit_lz4() -> Seq<u8> {
    seq![76u8, 122, 52]
}

pub open spec fn enc_token(enc: EncodeType) -> Seq<u8> {
    match enc {
        EncodeType::Json => lit_json(),
        EncodeType::Bincode => lit_bincode(),
    }
}

pub open spec fn comp_token(comp: CompressType) -> Seq<u8> {
    match comp {
        CompressType::Plain => lit_none(),
        CompressType::Lz4 => lit_lz4(),
    }
}

/// The header text: a one-line JSON object, fields in fixed order.
pub open spec fn header_bytes(
    payload_size: nat,
    enc: EncodeType,
    comp: CompressType,
    checksum: u64,
) -> Seq<u8> {
    lit_payload_size() + dec_digits(payload_size) + lit_encoding() + enc_token(enc)
        + lit_compression() + comp_token(comp) + lit_checksum() + dec_digits(checksum as nat)
        + seq![125u8, 0u8]
}

/// `n` rounded up to a multiple of `sector`.
pub open spec fn round_up(n: int, sector: int) -> int {
    ((n + sector - 1) / sector) * sector
}

/// The whole chunk: header, payload, zero padding to a sector multiple.
pub open spec fn spec_frame_bytes(
    pc: Seq<u8>,
    enc: EncodeType,
    comp: CompressType,
    checksum: u64,
    sector: int,
) -> Seq<u8> {
    let body = header_bytes(pc.len(), enc, comp, checksum) + pc;
    body + Seq::new((round_up(body.len() as int, sector) - body.len()) as nat, |_i: int| 0u8)
}

/// The fields read back out of a chunk.
pub struct FrameInfo {
    pub payload: Seq<u8>,
    pub encoding: EncodeType,
    pub compression: CompressType,
    pub checksum: u64,
    pub consumed: int,
}

/// Parse the frame structure: each literal, the two numbers, the tokens,
/// the NUL, and a payload of the stated length within the buffer.
pub open spec fn spec_parse_frame(buf: Seq<u8>, sector: int) -> Option<FrameInfo> {
    let p0 = lit_payload_size().len() as int;
    if !lit_at(buf, 0, lit_payload_size()) {
        None
    } else {
        let n1 = digit_run_len(buf, p0);
        if n1 <= 0 {
            None
        } else {
            let size = num_val(buf.subrange(p0, p0 + n1));
            let p1 = p0 + n1;
            if !lit_at(buf, p1, lit_encoding()) {
                None
            } else {
                let p2 = p1 + lit_encoding().len();
                let enc_opt: Option<EncodeType> = if lit_at(buf, p2, lit_json()) {
                    Some(EncodeType::Json)
                } else if lit_at(buf, p2, lit_bincode()) {
                    Some(EncodeType::Bincode)
                } else {
                    None
                };
                if enc_opt is None {
                    None
                } else {
                    let enc = enc_opt->Some_0;
                    let p3 = p2 + enc_token(enc).len();
                    if !lit_at(buf, p3, lit_compression()) {
                        None
                    } else {
                        let p4 = p3 + lit_compression().len();
                        let comp_opt: Option<CompressType> = if lit_at(buf, p4, lit_none()) {
                            Some(CompressType::Plain)
                        } else if lit_at(buf, p4, lit_lz4()) {
                            Some(CompressType::Lz4)
                        } else {
                            None
                        };
                        if comp_opt is None {
                            None
                        } else {
                            let comp = comp_opt->Some_0;
                            let p5 = p4 + comp_token(comp).len();
                            if !lit_at(buf, p5, lit_checksum()) {
                                None
                            } else {
                                let p6 = p5 + lit_checksum().len();
                                let n2 = digit_run_len(buf, p6);
                                if n2 <= 0 {
                                    None
                                } else {
                                    let sum = num_val(buf.subrange(p6, p6 + n2));
                                    let p7 = p6 + n2;
                                    if sum > u64::MAX
                                        || !lit_at(buf, p7, seq![125u8, 0u8]) {
                                        None
                                    } else {
                                        let hs = p7 + 2;
                                        if size > buf.len() - hs {
                                            None
                                        } else {
                                            Some(FrameInfo {
                                                payload: buf.subrange(hs, hs + size),
                                                encoding: enc,
                                                compression: comp,
                                                checksum: sum as u64,
                                                consumed: round_up(hs + size, sector),
                                            })
                                        }
                                    }
                                }
                            }
                        }
                    }
                }
            }
        }
    }
}

/// The compression each encoding travels under: JSON metadata is
/// compressed, compact binary is not.
pub open spec fn spec_compression_for(enc: EncodeType) -> CompressType {
    match enc {
        EncodeType::Json => CompressType::Lz4,
        EncodeType::Bincode => CompressType::Plain,
    }
}

/// The outcome the decoder owes for a buffer: the parsed payload and its
/// encoding where the frame is well formed, its checksum matches, and it
/// decompresses; the exact error otherwise.
pub open spec fn spec_decode(buf: Seq<u8>, sector: int) -> Result<
    (Seq<u8>, EncodeType, int),
    ChunkError,
> {
    match spec_parse_frame(buf, sector) {
        None => Err(ChunkError::Malformed),
        Some(f) => {
            if f.checksum != sea_sum(f.payload) {
                Err(ChunkError::Checksum)
            } else {
                match f.compression {
                    CompressType::Plain => Ok((f.payload, f.encoding, f.consumed)),
                    CompressType::Lz4 => match lz4_unpack(f.payload) {
                        Some(p) => Ok((p, f.encoding, f.consumed)),
                        None => Err(ChunkError::Decompress),
                    },
                }
            }
        },
    }
}


/// `10^n`.
pub open spec fn p10(n: nat) -> nat
    decreases n,
{
    if n == 0 {
        1
    } else {
        10 * p10((n - 1) as nat)
    }
}

proof fn lemma_p10_pos(n: nat)
    ensures
        p10(n) >= 1,
    decreases n,
{
    if n > 0 {
        lemma_p10_pos((n - 1) as nat);
    }
}

/// A number below `10^k` prints in at most `k` digits.
proof fn lemma_dec_digits_len(n: nat, k: nat)
    requires
        k >= 1,
        n < p10(k),
    ensures
        dec_digits(n).len() <= k,
    decreases k,
{
    if n >= 10 {
        assert(k >= 2) by {
            if k == 1 {
                assert(p10(1) == 10) by {
                    reveal_with_fuel(p10, 2);
                }
            }
        }
        assert(n / 10 < p10((k - 1) as nat)) by {
            assert(p10(k) == 10 * p10((k - 1) as nat));
            assert(n < 10 * p10((k - 1) as nat));
            vstd::arithmetic::div_mod::lemma_fundamental_div_mod(n as int, 10);
        }
        lemma_dec_digits_len(n / 10, (k - 1) as nat);
    }
}

/// Every `u64` prints in at most 20 digits.
proof fn lemma_dec_digits_len_u64(n: u64)
    ensures
        dec_digits(n as nat).len() <= 20,
{
    assert(p10(20) > u64::MAX) by {
        reveal_with_fuel(p10, 21);
    }
    lemma_dec_digits_len(n as nat, 20);
}

/// Decimal digits are digits.
proof fn lemma_dec_digits_are_digits(n: nat)
    ensures
        dec_digits(n).len() >= 1,
        forall|i: int| 0 <= i < dec_digits(n).len() ==> is_digit(#[trigger] dec_digits(n)[i]),
    decreases n,
{
    if n >= 10 {
        lemma_dec_digits_are_digits(n / 10);
        assert forall|i: int| 0 <= i < dec_digits(n).len()
            implies is_digit(#[trigger] dec_digits(n)[i]) by {
            if i < dec_digits(n / 10).len() {
                assert(dec_digits(n)[i] == dec_digits(n / 10)[i]);
            }
        }
    }
}

/// Printing then reading a number gives the number back.
proof fn lemma_num_val_inverse(n: nat)
    ensures
        num_val(dec_digits(n)) == n,
    decreases n,
{
    if n < 10 {
        let d = dec_digits(n);
        assert(d == seq![(48 + n) as u8]);
        assert(d.len() == 1);
        assert(d.last() == (48 + n) as u8);
        assert(d.drop_last() =~= Seq::<u8>::empty());
        assert(num_val(d) == num_val(d.drop_last()) * 10 + (d.last() - 48));
        assert(num_val(d.drop_last()) == 0);
        assert((48 + n) as u8 == 48 + n);
    } else {
        lemma_num_val_inverse(n / 10);
        let d = dec_digits(n);
        assert(d == dec_digits(n / 10).push((48 + n % 10) as u8));
        assert(d.drop_last() =~= dec_digits(n / 10));
        assert(d.last() == (48 + n % 10) as u8);
        assert((48 + n % 10) as u8 == 48 + n % 10);
        assert(num_val(d) == num_val(dec_digits(n / 10)) * 10 + (n % 10));
        vstd::arithmetic::div_mod::lemma_fundamental_div_mod(n as int, 10);
    }
}

/// The digit run at `pos` is exactly `digs` where the buffer holds `digs`
/// there and a non-digit (or the end) follows.
proof fn lemma_digit_run_at(buf: Seq<u8>, pos: int, digs: Seq<u8>)
    requires
        0 <= pos,
        pos + digs.len() <= buf.len(),
        buf.subrange(pos, pos + digs.len()) == digs,
        forall|i: int| 0 <= i < digs.len() ==> is_digit(#[trigger] digs[i]),
        pos + digs.len() == buf.len() || !is_digit(buf[pos + digs.len()]),
    ensures
        digit_run_len(buf, pos) == digs.len(),
    decreases digs.len(),
{
    if digs.len() == 0 {
        if pos < buf.len() {
            assert(!is_digit(buf[pos]));
        }
    } else {
        assert(buf[pos] == digs[0]);
        assert(is_digit(buf[pos]));
        assert(buf.subrange(pos + 1, pos + 1 + (digs.len() - 1)) =~= digs.skip(1));
        assert(forall|i: int| 0 <= i < digs.skip(1).len()
            ==> is_digit(#[trigger] digs.skip(1)[i]));
        lemma_digit_run_at(buf, pos + 1, digs.skip(1));
    }
}


/// Rounding up to a sector multiple lands within one sector.
pub proof fn lemma_round_up_bounds(n: int, s: int)
    requires
        s >= 1,
        n >= 0,
    ensures
        n <= round_up(n, s) < n + s,
        round_up(n, s) % s == 0,
{
    vstd::arithmetic::div_mod::lemma_fundamental_div_mod(n + s - 1, s);
    let q = (n + s - 1) / s;
    let r = (n + s - 1) % s;
    vstd::arithmetic::div_mod::lemma_mod_bound(n + s - 1, s);
    assert(round_up(n, s) == q * s) by (nonlinear_arith)
        requires
            round_up(n, s) == ((n + s - 1) / s) * s,
            q == (n + s - 1) / s,
    ;
    assert(q * s == s * q) by (nonlinear_arith);
    assert(q * s == n + s - 1 - r);
    vstd::arithmetic::div_mod::lemma_mod_multiples_basic(q, s);
    assert((q * s) % s == 0);
}

/// Reading back a freshly framed chunk yields exactly the fields that
/// were framed: the codec round-trips.
#[verifier::rlimit(100)]
#[verifier::spinoff_prover]
pub proof fn lemma_frame_round_trip(
    pc: Seq<u8>,
    enc: EncodeType,
    comp: CompressType,
    checksum: u64,
    sector: int,
)
    requires
        sector >= 1,
    ensures
        ({
            let frame = spec_frame_bytes(pc, enc, comp, checksum, sector);
            spec_parse_frame(frame, sector) == Some(FrameInfo {
                payload: pc,
                encoding: enc,
                compression: comp,
                checksum,
                consumed: frame.len() as int,
            })
        }),
{
    let l1 = lit_payload_size();
    let d1 = dec_digits(pc.len());
    let l2 = lit_encoding();
    let t1 = enc_token(enc);
    let l3 = lit_compression();
    let t2 = comp_token(comp);
    let l4 = lit_checksum();
    let d2 = dec_digits(checksum as nat);
    let tail = seq![125u8, 0u8];
    let header = header_bytes(pc.len(), enc, comp, checksum);
    let body = header + pc;
    let frame = spec_frame_bytes(pc, enc, comp, checksum, sector);
    lemma_round_up_bounds(body.len() as int, sector);
    assert(frame.len() == round_up(body.len() as int, sector));
    assert(body.len() <= frame.len());
    assert(forall|i: int| 0 <= i < body.len() ==> frame[i] == body[i]);

    lemma_dec_digits_are_digits(pc.len());
    lemma_dec_digits_are_digits(checksum as nat);
    lemma_num_val_inverse(pc.len());
    lemma_num_val_inverse(checksum as nat);

    let p0 = l1.len() as int;
    let p1 = p0 + d1.len();
    let p2 = p1 + l2.len();
    let p3 = p2 + t1.len();
    let p4 = p3 + l3.len();
    let p5 = p4 + t2.len();
    let p6 = p5 + l4.len();
    let p7 = p6 + d2.len();
    let hs = p7 + 2;
    assert(header.len() == hs);
    assert(body.len() == hs + pc.len());

    assert(frame.subrange(0, p0) =~= l1);
    assert(lit_at(frame, 0, l1));
    assert(frame.subrange(p0, p1) =~= d1);
    assert(p1 < frame.len() && frame[p1] == l2[0]);
    assert(!is_digit(44u8));
    lemma_digit_run_at(frame, p0, d1);
    assert(digit_run_len(frame, p0) == d1.len());
    assert(num_val(frame.subrange(p0, p1)) == pc.len());
    assert(frame.subrange(p1, p2) =~= l2);
    assert(lit_at(frame, p1, l2));
    assert(frame.subrange(p2, p3) =~= t1);
    assert(lit_at(frame, p2, t1));
    assert(frame.subrange(p3, p4) =~= l3);
    assert(lit_at(frame, p3, l3));
    assert(frame.subrange(p4, p5) =~= t2);
    assert(lit_at(frame, p4, t2));
    assert(frame.subrange(p5, p6) =~= l4);
    assert(lit_at(frame, p5, l4));
    assert(frame.subrange(p6, p7) =~= d2);
    assert(p7 < frame.len() && frame[p7] == 125u8);
    assert(!is_digit(125u8));
    lemma_digit_run_at(frame, p6, d2);
    assert(digit_run_len(frame, p6) == d2.len());
    assert(num_val(frame.subrange(p6, p7)) == checksum);
    assert(frame.subrange(p7, p7 + 2) =~= tail);
    assert(lit_at(frame, p7, tail));
    assert(frame.subrange(hs, hs + pc.len()) =~= pc);

    // the encoding tokens cannot be mistaken for one another
    match enc {
        EncodeType::Json => {
            assert(frame[p2] == 74u8);
        },
        EncodeType::Bincode => {
            assert(frame[p2] == 66u8);
            assert(!lit_at(frame, p2, lit_json())) by {
                if lit_at(frame, p2, lit_json()) {
                    assert(frame.subrange(p2, p2 + 4)[0] == 74u8);
                    assert(frame[p2] == 74u8);
                }
            }
        },
    }
    match comp {
        CompressType::Plain => {
            assert(frame[p4] == 78u8);
        },
        CompressType::Lz4 => {
            assert(frame[p4] == 76u8);
            assert(!lit_at(frame, p4, lit_none())) by {
                if lit_at(frame, p4, lit_none()) {
                    assert(frame.subrange(p4, p4 + 4)[0] == 78u8);
                    assert(frame[p4] == 78u8);
                }
            }
        },
    }
    assert(pc.len() <= frame.len() - hs);
    assert(round_up(hs + pc.len(), sector) == frame.len());
}


/// Any sector multiple at or above `n` is at or above `round_up(n, s)`.
proof fn lemma_round_up_is_least(n: int, s: int, m: int)
    requires
        s >= 1,
        n >= 0,
        m >= n,
        m % s == 0,
    ensures
        m >= round_up(n, s),
{
    lemma_round_up_bounds(n, s);
    if m < round_up(n, s) {
        let diff = round_up(n, s) - m;
        vstd::arithmetic::div_mod::lemma_mod_adds(m, diff, s);
        assert(diff % s == 0) by {
            vstd::arithmetic::div_mod::lemma_fundamental_div_mod(round_up(n, s), s);
            vstd::arithmetic::div_mod::lemma_fundamental_div_mod(m, s);
            let qa = round_up(n, s) / s;
            let qb = m / s;
            assert(diff == s * qa - s * qb);
            assert(s * qa - s * qb == s * (qa - qb)) by (nonlinear_arith);
            vstd::arithmetic::div_mod::lemma_mod_multiples_basic(qa - qb, s);
            assert((s * (qa - qb)) % s == 0) by {
                assert(s * (qa - qb) == (qa - qb) * s) by (nonlinear_arith);
            }
        }
        assert(diff >= 1);
        vstd::arithmetic::div_mod::lemma_fundamental_div_mod(diff, s);
        let qd = diff / s;
        assert(diff == s * qd);
        assert(qd >= 1) by (nonlinear_arith)
            requires
                diff == s * qd,
                diff >= 1,
                s >= 1,
        ;
        assert(diff >= s) by (nonlinear_arith)
            requires
                diff == s * qd,
                qd >= 1,
                s >= 1,
        ;
        assert(m <= round_up(n, s) - s);
        assert(round_up(n, s) < n + s);
    }
}

fn lit_vec_payload_size() -> (r: Vec<u8>)
    ensures
        r@ == lit_payload_size(),
{
    let mut v: Vec<u8> = Vec::new();
    v.push(123);
    v.push(34);
    v.push(112);
    v.push(97);
    v.push(121);
    v.push(108);
    v.push(111);
    v.push(97);
    v.push(100);
    v.push(95);
    v.push(115);
    v.push(105);
    v.push(122);
    v.push(101);
    v.push(34);
    v.push(58);
    proof {
        assert(v@ =~= lit_payload_size());
    }
    v
}

fn lit_vec_encoding() -> (r: Vec<u8>)
    ensures
        r@ == lit_encoding(),
{
    let mut v: Vec<u8> = Vec::new();
    v.push(44);
    v.push(34);
    v.push(101);
    v.push(110);
    v.push(99);
    v.push(111);
    v.push(100);
    v.push(105);
    v.push(110);
    v.push(103);
    v.push(34);
    v.push(58);
    v.push(34);
    proof {
        assert(v@ =~= lit_encoding());
    }
    v
}

fn lit_vec_compression() -> (r: Vec<u8>)
    ensures
        r@ == lit_compression(),
{
    let mut v: Vec<u8> = Vec::new();
    v.push(34);
    v.push(44);
    v.push(34);
    v.push(99);
    v.push(111);
    v.push(109);
    v.push(112);
    v.push(114);
    v.push(101);
    v.push(115);
    v.push(115);
    v.push(105);
    v.push(111);
    v.push(110);
    v.push(34);
    v.push(58);
    v.push(34);
    proof {
        assert(v@ =~= lit_compression());
    }
    v
}

fn lit_vec_checksum() -> (r: Vec<u8>)
    ensures
        r@ == lit_checksum(),
{
    let mut v: Vec<u8> = Vec::new();
    v.push(34);
    v.push(44);
    v.push(34);
    v.push(99);
    v.push(104);
    v.push(101);
    v.push(99);
    v.push(107);
    v.push(115);
    v.push(117);
    v.push(109);
    v.push(34);
    v.push(58);
    proof {
        assert(v@ =~= lit_checksum());
    }
    v
}

fn lit_vec_json() -> (r: Vec<u8>)
    ensures
        r@ == lit_json(),
{
    let mut v: Vec<u8> = Vec::new();
    v.push(74);
    v.push(115);
    v.push(111);
    v.push(110);
    proof {
        assert(v@ =~= lit_json());
    }
    v
}

fn lit_vec_bincode() -> (r: Vec<u8>)
    ensures
        r@ == lit_bincode(),
{
    let mut v: Vec<u8> = Vec::new();
    v.push(66);
    v.push(105);
    v.push(110);
    v.push(99);
    v.push(111);
    v.push(100);
    v.push(101);
    proof {
        assert(v@ =~= lit_bincode());
    }
    v
}

fn lit_vec_none() -> (r: Vec<u8>)
    ensures
        r@ == lit_none(),
{
    let mut v: Vec<u8> = Vec::new();
    v.push(78);
    v.push(111);
    v.push(110);
    v.push(101);
    proof {
        assert(v@ =~= lit_none());
    }
    v
}

fn lit_vec_lz4() -> (r: Vec<u8>)
    ensures
        r@ == lit_lz4(),
{
    let mut v: Vec<u8> = Vec::new();
    v.push(76);
    v.push(122);
    v.push(52);
    proof {
        assert(v@ =~= lit_lz4());
    }
    v
}

fn append_bytes(out: &mut Vec<u8>, piece: &Vec<u8>)
    ensures
        final(out)@ == old(out)@ + piece@,
{
    let mut i: usize = 0;
    while i < piece.len()
        invariant
            i <= piece@.len(),
            out@ == old(out)@ + piece@.take(i as int),
        decreases piece@.len() - i,
    {
        proof {
            assert(old(out)@ + piece@.take(i + 1)
                =~= (old(out)@ + piece@.take(i as int)).push(piece@[i as int]));
        }
        let b = piece[i];
        out.push(b);
        i = i + 1;
    }
    proof {
        assert(old(out)@ + piece@.take(piece@.len() as int) =~= old(out)@ + piece@);
    }
}

/// Whether `lit` occurs in `buf` at `pos`.
fn check_lit(buf: &Vec<u8>, pos: usize, lit: &Vec<u8>) -> (r: bool)
    ensures
        r == lit_at(buf@, pos as int, lit@),
{
    if buf.len() < lit.len() || pos > buf.len() - lit.len() {
        proof {
            assert(!lit_at(buf@, pos as int, lit@));
        }
        return false;
    }
    let blen = buf.len();
    let mut i: usize = 0;
    while i < lit.len()
        invariant
            i <= lit@.len(),
            blen == buf@.len(),
            pos + lit@.len() <= blen,
            forall|x: int| 0 <= x < i ==> buf@[pos + x] == lit@[x],
        decreases lit@.len() - i,
    {
        if buf[pos + i] != lit[i] {
            proof {
                assert(buf@.subrange(pos as int, pos + lit@.len())[i as int] != lit@[i as int]);
            }
            return false;
        }
        i = i + 1;
    }
    proof {
        assert(buf@.subrange(pos as int, pos + lit@.len()) =~= lit@);
    }
    true
}

/// The decimal text of `n`.
fn u64_to_dec(n: u64) -> (r: Vec<u8>)
    ensures
        r@ == dec_digits(n as nat),
    decreases n,
{
    if n < 10 {
        let mut v: Vec<u8> = Vec::new();
        v.push(48 + n as u8);
        proof {
            assert(v@ =~= dec_digits(n as nat));
        }
        v
    } else {
        let mut v = u64_to_dec(n / 10);
        v.push(48 + (n % 10) as u8);
        proof {
            assert(v@ =~= dec_digits(n as nat));
        }
        v
    }
}

/// Non-negative, as any digit string's value is.
proof fn lemma_num_val_nonneg(digs: Seq<u8>)
    requires
        forall|i: int| 0 <= i < digs.len() ==> is_digit(#[trigger] digs[i]),
    ensures
        num_val(digs) >= 0,
    decreases digs.len(),
{
    if digs.len() > 0 {
        assert(forall|i: int| 0 <= i < digs.drop_last().len()
            ==> is_digit(#[trigger] digs.drop_last()[i]));
        lemma_num_val_nonneg(digs.drop_last());
    }
}

/// Scan the digit run at `pos`: its length, and its value where that
/// fits in a `u64`.
fn scan_number(buf: &Vec<u8>, pos: usize) -> (r: (usize, Option<u64>))
    requires
        pos <= buf@.len(),
    ensures
        r.0 == digit_run_len(buf@, pos as int),
        pos + r.0 <= buf@.len(),
        match r.1 {
            Some(v) => v == num_val(buf@.subrange(pos as int, pos + r.0)),
            None => num_val(buf@.subrange(pos as int, pos + r.0)) > u64::MAX,
        },
{
    let mut end: usize = pos;
    while end < buf.len() && buf[end] >= 48 && buf[end] <= 57
        invariant
            pos <= end <= buf@.len(),
            digit_run_len(buf@, pos as int) == (end - pos) + digit_run_len(buf@, end as int),
            forall|x: int| pos <= x < end ==> is_digit(buf@[x]),
        decreases buf@.len() - end,
    {
        end = end + 1;
    }
    proof {
        assert(digit_run_len(buf@, end as int) == 0);
    }
    let n = end - pos;
    let mut acc: u64 = 0;
    let mut overflow = false;
    let mut i: usize = 0;
    proof {
        assert(buf@.subrange(pos as int, pos as int) =~= Seq::<u8>::empty());
    }
    while i < n
        invariant
            i <= n,
            pos + n <= buf@.len(),
            n == end - pos,
            forall|x: int| pos <= x < pos + n ==> is_digit(buf@[x]),
            !overflow ==> acc == num_val(buf@.subrange(pos as int, pos + i)),
            overflow ==> num_val(buf@.subrange(pos as int, pos + i)) > u64::MAX,
        decreases n - i,
    {
        let d = buf[pos + i] - 48;
        let ghost prefix = buf@.subrange(pos as int, pos + i);
        let ghost prefix1 = buf@.subrange(pos as int, pos + i + 1);
        proof {
            assert(prefix1.drop_last() =~= prefix);
            assert(prefix1.last() == buf@[pos + i]);
            assert(num_val(prefix1) == num_val(prefix) * 10 + d);
            assert(forall|x: int| 0 <= x < prefix.len() ==> is_digit(#[trigger] prefix[x]));
            lemma_num_val_nonneg(prefix);
        }
        if overflow {
            proof {
                assert(num_val(prefix) > u64::MAX);
                assert(num_val(prefix) * 10 >= num_val(prefix)) by (nonlinear_arith)
                    requires
                        num_val(prefix) >= 0,
                ;
            }
        } else {
            let limit = (u64::MAX - d as u64) / 10;
            if acc > limit {
                overflow = true;
                proof {
                    vstd::arithmetic::div_mod::lemma_fundamental_div_mod(
                        u64::MAX - d as u64,
                        10,
                    );
                    vstd::arithmetic::div_mod::lemma_mod_bound(u64::MAX - d as u64, 10);
                    assert(acc * 10 >= (limit + 1) * 10) by (nonlinear_arith)
                        requires
                            acc >= limit + 1,
                    ;
                    assert((limit + 1) * 10 > u64::MAX - d as u64);
                }
            } else {
                proof {
                    vstd::arithmetic::div_mod::lemma_fundamental_div_mod(
                        u64::MAX - d as u64,
                        10,
                    );
                    vstd::arithmetic::div_mod::lemma_mod_bound(u64::MAX - d as u64, 10);
                    assert(acc * 10 <= limit * 10) by (nonlinear_arith)
                        requires
                            acc <= limit,
                    ;
                    assert(limit * 10 <= u64::MAX - d as u64);
                }
                acc = acc * 10 + d as u64;
            }
        }
        i = i + 1;
    }
    if overflow {
        (n, None)
    } else {
        (n, Some(acc))
    }
}


/// Copy `buf[start .. start + len]`.
fn copy_range(buf: &Vec<u8>, start: usize, len: usize) -> (r: Vec<u8>)
    requires
        start + len <= buf@.len(),
    ensures
        r@ == buf@.subrange(start as int, start + len),
{
    let mut out: Vec<u8> = Vec::new();
    let mut i: usize = 0;
    let blen = buf.len();
    while i < len
        invariant
            i <= len,
            blen == buf@.len(),
            start + len <= blen,
            out@ =~= buf@.subrange(start as int, start + i),
        decreases len - i,
    {
        let b = buf[start + i];
        out.push(b);
        proof {
            assert(out@ =~= buf@.subrange(start as int, start + i + 1));
        }
        i = i + 1;
    }
    out
}

/// Pack a payload into a chunk: compress it as the encoding dictates,
/// checksum it, write the header, and pad to a sector multiple. `None`
/// only where the compressor itself failed.
///
/// On success, decoding the chunk yields the payload back: the ensures
/// states the decode outcome of the produced bytes.
pub fn chunk_to_raw(encoding: EncodeType, payload: &Vec<u8>, sector_size: usize) -> (r: Option<
    Vec<u8>,
>)
    requires
        sector_size >= 1,
    ensures
        r matches Some(out) ==> {
            &&& spec_decode(out@, sector_size as int) == Ok::<_, ChunkError>((
                payload@,
                encoding,
                out@.len() as int,
            ))
            &&& (out@.len() as int) % (sector_size as int) == 0
            // the header names this chunk's own encoding and compression
            &&& spec_parse_frame(out@, sector_size as int) matches Some(f)
                && f.encoding == encoding
                && f.compression == spec_compression_for(encoding)
                && f.checksum == sea_sum(f.payload)
        },
        encoding == EncodeType::Bincode ==> r is Some,
        // only the compressor can fail
        r is None ==> encoding == EncodeType::Json,
{
    let compression = match encoding {
        EncodeType::Json => CompressType::Lz4,
        EncodeType::Bincode => CompressType::Plain,
    };
    let pc: Vec<u8> = match compression {
        CompressType::Lz4 => {
            match lz4_compress(payload.as_slice()) {
                Some(v) => v,
                None => {
                    return None;
                },
            }
        },
        CompressType::Plain => copy_range(payload, 0, payload.len()),
    };
    proof {
        assert(payload@.subrange(0, payload@.len() as int) =~= payload@);
    }
    let checksum = sea_hash(pc.as_slice());
    let mut out = lit_vec_payload_size();
    let digits1 = u64_to_dec(pc.len() as u64);
    append_bytes(&mut out, &digits1);
    let l2 = lit_vec_encoding();
    append_bytes(&mut out, &l2);
    let t1 = match encoding {
        EncodeType::Json => lit_vec_json(),
        EncodeType::Bincode => lit_vec_bincode(),
    };
    append_bytes(&mut out, &t1);
    let l3 = lit_vec_compression();
    append_bytes(&mut out, &l3);
    let t2 = match compression {
        CompressType::Plain => lit_vec_none(),
        CompressType::Lz4 => lit_vec_lz4(),
    };
    append_bytes(&mut out, &t2);
    let l4 = lit_vec_checksum();
    append_bytes(&mut out, &l4);
    let digits2 = u64_to_dec(checksum);
    append_bytes(&mut out, &digits2);
    out.push(125);
    out.push(0);
    proof {
        assert(out@ =~= header_bytes(pc@.len(), encoding, compression, checksum));
    }
    append_bytes(&mut out, &pc);
    let ghost body = out@;
    proof {
        lemma_round_up_bounds(body.len() as int, sector_size as int);
    }
    while out.len() % sector_size != 0
        invariant
            sector_size >= 1,
            body.len() <= out@.len() <= round_up(body.len() as int, sector_size as int),
            out@ =~= body + Seq::new((out@.len() - body.len()) as nat, |_x: int| 0u8),
        decreases round_up(body.len() as int, sector_size as int) - out@.len(),
    {
        proof {
            lemma_round_up_bounds(body.len() as int, sector_size as int);
            if out@.len() == round_up(body.len() as int, sector_size as int) {
                assert((out@.len() as int) % (sector_size as int) == 0);
            }
            assert(out@.len() < round_up(body.len() as int, sector_size as int));
        }
        out.push(0);
        proof {
            assert(out@ =~= body + Seq::new((out@.len() - body.len()) as nat, |_x: int| 0u8));
        }
    }
    proof {
        lemma_round_up_is_least(body.len() as int, sector_size as int, out@.len() as int);
        assert(out@.len() == round_up(body.len() as int, sector_size as int));
        assert(out@ =~= spec_frame_bytes(pc@, encoding, compression, checksum, sector_size as int));
        lemma_frame_round_trip(pc@, encoding, compression, checksum, sector_size as int);
    }
    Some(out)
}

/// Unpack a chunk: parse the header, verify the checksum against the
/// payload, and decompress. Returns the payload and how many bytes of
/// the buffer the chunk occupied, or the exact error `spec_decode` owes.
#[verifier::rlimit(100)]
#[verifier::spinoff_prover]
pub fn chunk_from_raw(buf: &Vec<u8>, sector_size: usize) -> (r: Result<
    (Vec<u8>, EncodeType, usize),
    ChunkError,
>)
    requires
        sector_size >= 1,
        buf@.len() + sector_size <= usize::MAX,
    ensures
        match spec_decode(buf@, sector_size as int) {
            Ok((p, enc, c)) => r matches Ok(pr) && pr.0@ == p && pr.1 == enc && pr.2 == c,
            Err(e) => r matches Err(e2) && e2 == e,
        },
{
    let l1 = lit_vec_payload_size();
    if !check_lit(buf, 0, &l1) {
        return Err(ChunkError::Malformed);
    }
    let p0 = l1.len();
    let (n1, size_opt) = scan_number(buf, p0);
    if n1 == 0 {
        return Err(ChunkError::Malformed);
    }
    let p1 = p0 + n1;
    let l2 = lit_vec_encoding();
    if !check_lit(buf, p1, &l2) {
        return Err(ChunkError::Malformed);
    }
    let p2 = p1 + l2.len();
    let jt = lit_vec_json();
    let bt = lit_vec_bincode();
    let enc: EncodeType = if check_lit(buf, p2, &jt) {
        EncodeType::Json
    } else if check_lit(buf, p2, &bt) {
        EncodeType::Bincode
    } else {
        return Err(ChunkError::Malformed);
    };
    let p3 = match enc {
        EncodeType::Json => p2 + jt.len(),
        EncodeType::Bincode => p2 + bt.len(),
    };
    let l3 = lit_vec_compression();
    if !check_lit(buf, p3, &l3) {
        return Err(ChunkError::Malformed);
    }
    let p4 = p3 + l3.len();
    let nt = lit_vec_none();
    let zt = lit_vec_lz4();
    let comp: CompressType = if check_lit(buf, p4, &nt) {
        CompressType::Plain
    } else if check_lit(buf, p4, &zt) {
        CompressType::Lz4
    } else {
        return Err(ChunkError::Malformed);
    };
    let p5 = match comp {
        CompressType::Plain => p4 + nt.len(),
        CompressType::Lz4 => p4 + zt.len(),
    };
    let l4 = lit_vec_checksum();
    if !check_lit(buf, p5, &l4) {
        return Err(ChunkError::Malformed);
    }
    let p6 = p5 + l4.len();
    let (n2, sum_opt) = scan_number(buf, p6);
    if n2 == 0 {
        return Err(ChunkError::Malformed);
    }
    let p7 = p6 + n2;
    let mut endlit: Vec<u8> = Vec::new();
    endlit.push(125);
    endlit.push(0);
    proof {
        assert(endlit@ =~= seq![125u8, 0u8]);
    }
    let sum = match sum_opt {
        Some(v) => v,
        None => {
            return Err(ChunkError::Malformed);
        },
    };
    if !check_lit(buf, p7, &endlit) {
        return Err(ChunkError::Malformed);
    }
    let hs = p7 + 2;
    let size = match size_opt {
        Some(v) => v,
        None => {
            // the stated size exceeds any buffer this machine can hold
            return Err(ChunkError::Malformed);
        },
    };
    if size > (buf.len() - hs) as u64 {
        return Err(ChunkError::Malformed);
    }
    let size_us = size as usize;
    let data = copy_range(buf, hs, size_us);
    let actual = sea_hash(data.as_slice());
    if sum != actual {
        return Err(ChunkError::Checksum);
    }
    let total = hs + size_us;
    proof {
        assert(total <= buf@.len());
        lemma_round_up_bounds(total as int, sector_size as int);
        assert(((total + sector_size - 1) as int / sector_size as int) * (sector_size as int)
            == round_up(total as int, sector_size as int));
    }
    let consumed = ((total + sector_size - 1) / sector_size) * sector_size;
    proof {
        assert(consumed == round_up(total as int, sector_size as int));
    }
    match comp {
        CompressType::Plain => Ok((data, enc, consumed)),
        CompressType::Lz4 => match lz4_decompress(data.as_slice()) {
            Some(p) => Ok((p, enc, consumed)),
            None => Err(ChunkError::Decompress),
        },
    }
}

} // verus!
