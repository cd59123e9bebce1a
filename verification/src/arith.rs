//! Binary arithmetic coder: 16-bit interval registers, bit-wise
//! renormalisation, and "follow" bits for the undecided middle of the
//! interval.
//!
//! The coder is modelled bit by bit. An encoder run is a fold of
//! [`encode_step`] over the [`Decision`]s it was given; a decoder run is a fold
//! of [`decode_step`] over the probabilities it was asked with. The law that
//! ties the two together is [`decoding_inverts_encoding`].

use crate::error::Result;
use vstd::prelude::*;

verus! {

/// Width of the interval registers in bits.
pub const RANGE_BITS: u32 = 16;

/// Top bit of the registers.
const TOP: u32 = 0x8000;

/// Second bit of the registers.
const SECOND: u32 = 0x4000;

/// Largest probability denominator the coder uses.
const MAX_DEN: u32 = 0x8000;

/// One coded symbol with the probability estimate it was coded under: the
/// symbol is `1` with probability `p1_num / p1_den`.
pub struct Decision {
    /// The symbol; `0` is zero, everything else counts as one.
    pub symbol: u8,
    /// Numerator of the probability of a one.
    pub p1_num: u32,
    /// Denominator of the probability of a one.
    pub p1_den: u32,
}

// ---------------------------------------------------------------------------
// Bits and bytes
// ---------------------------------------------------------------------------

/// Bit `k` of `b`, with bit 0 the least significant.
pub open spec fn bit8(b: u8, k: u8) -> bool {
    (b >> k) & 1u8 == 1u8
}

/// The byte whose bits are `b7` (most significant) down to `b0`.
pub open spec fn byte_of(
    b7: bool,
    b6: bool,
    b5: bool,
    b4: bool,
    b3: bool,
    b2: bool,
    b1: bool,
    b0: bool,
) -> u8 {
    (if b7 { 128u8 } else { 0u8 }) | (if b6 { 64u8 } else { 0u8 }) | (if b5 { 32u8 } else { 0u8 })
        | (if b4 { 16u8 } else { 0u8 }) | (if b3 { 8u8 } else { 0u8 }) | (if b2 { 4u8 } else { 0u8 })
        | (if b1 { 2u8 } else { 0u8 }) | (if b0 { 1u8 } else { 0u8 })
}

/// Bit `i` of a finite bit string followed by zeros without end.
pub open spec fn bit_or_zero(bits: Seq<bool>, i: int) -> bool {
    0 <= i < bits.len() && bits[i]
}

/// Bit `i` of a byte string, most significant bit of each byte first, followed
/// by zeros without end.
pub open spec fn channel_bit(bytes: Seq<u8>, i: int) -> bool {
    0 <= i < 8 * bytes.len() && bit8(bytes[i / 8], (7 - i % 8) as u8)
}

/// `bits` packed into bytes, most significant bit first, the last byte padded
/// with zeros.
pub open spec fn pack(bits: Seq<bool>) -> Seq<u8> {
    Seq::new(
        ((bits.len() + 7) / 8) as nat,
        |i: int|
            byte_of(
                bit_or_zero(bits, 8 * i),
                bit_or_zero(bits, 8 * i + 1),
                bit_or_zero(bits, 8 * i + 2),
                bit_or_zero(bits, 8 * i + 3),
                bit_or_zero(bits, 8 * i + 4),
                bit_or_zero(bits, 8 * i + 5),
                bit_or_zero(bits, 8 * i + 6),
                bit_or_zero(bits, 8 * i + 7),
            ),
    )
}

proof fn lemma_byte_of_bits(
    b7: bool,
    b6: bool,
    b5: bool,
    b4: bool,
    b3: bool,
    b2: bool,
    b1: bool,
    b0: bool,
)
    ensures
        bit8(byte_of(b7, b6, b5, b4, b3, b2, b1, b0), 7) == b7,
        bit8(byte_of(b7, b6, b5, b4, b3, b2, b1, b0), 6) == b6,
        bit8(byte_of(b7, b6, b5, b4, b3, b2, b1, b0), 5) == b5,
        bit8(byte_of(b7, b6, b5, b4, b3, b2, b1, b0), 4) == b4,
        bit8(byte_of(b7, b6, b5, b4, b3, b2, b1, b0), 3) == b3,
        bit8(byte_of(b7, b6, b5, b4, b3, b2, b1, b0), 2) == b2,
        bit8(byte_of(b7, b6, b5, b4, b3, b2, b1, b0), 1) == b1,
        bit8(byte_of(b7, b6, b5, b4, b3, b2, b1, b0), 0) == b0,
{
    let x7: u8 = if b7 { 128 } else { 0 };
    let x6: u8 = if b6 { 64 } else { 0 };
    let x5: u8 = if b5 { 32 } else { 0 };
    let x4: u8 = if b4 { 16 } else { 0 };
    let x3: u8 = if b3 { 8 } else { 0 };
    let x2: u8 = if b2 { 4 } else { 0 };
    let x1: u8 = if b1 { 2 } else { 0 };
    let x0: u8 = if b0 { 1 } else { 0 };
    let v: u8 = x7 | x6 | x5 | x4 | x3 | x2 | x1 | x0;
    assert(((v >> 7) & 1 == 1) == (x7 == 128) && ((v >> 6) & 1 == 1) == (x6 == 64) && ((v >> 5) & 1
        == 1) == (x5 == 32) && ((v >> 4) & 1 == 1) == (x4 == 16) && ((v >> 3) & 1 == 1) == (x3 == 8)
        && ((v >> 2) & 1 == 1) == (x2 == 4) && ((v >> 1) & 1 == 1) == (x1 == 2) && ((v >> 0) & 1
        == 1) == (x0 == 1)) by (bit_vector)
        requires
            v == x7 | x6 | x5 | x4 | x3 | x2 | x1 | x0,
            x7 == 128 || x7 == 0,
            x6 == 64 || x6 == 0,
            x5 == 32 || x5 == 0,
            x4 == 16 || x4 == 0,
            x3 == 8 || x3 == 0,
            x2 == 4 || x2 == 0,
            x1 == 2 || x1 == 0,
            x0 == 1 || x0 == 0,
    ;
}

/// A byte is determined by its bits.
proof fn lemma_bits_determine_byte(b: u8)
    ensures
        b == byte_of(
            bit8(b, 7),
            bit8(b, 6),
            bit8(b, 5),
            bit8(b, 4),
            bit8(b, 3),
            bit8(b, 2),
            bit8(b, 1),
            bit8(b, 0),
        ),
{
    let x7: u8 = if bit8(b, 7) { 128 } else { 0 };
    let x6: u8 = if bit8(b, 6) { 64 } else { 0 };
    let x5: u8 = if bit8(b, 5) { 32 } else { 0 };
    let x4: u8 = if bit8(b, 4) { 16 } else { 0 };
    let x3: u8 = if bit8(b, 3) { 8 } else { 0 };
    let x2: u8 = if bit8(b, 2) { 4 } else { 0 };
    let x1: u8 = if bit8(b, 1) { 2 } else { 0 };
    let x0: u8 = if bit8(b, 0) { 1 } else { 0 };
    assert(b == x7 | x6 | x5 | x4 | x3 | x2 | x1 | x0) by (bit_vector)
        requires
            x7 == (if (b >> 7) & 1 == 1 { 128u8 } else { 0u8 }),
            x6 == (if (b >> 6) & 1 == 1 { 64u8 } else { 0u8 }),
            x5 == (if (b >> 5) & 1 == 1 { 32u8 } else { 0u8 }),
            x4 == (if (b >> 4) & 1 == 1 { 16u8 } else { 0u8 }),
            x3 == (if (b >> 3) & 1 == 1 { 8u8 } else { 0u8 }),
            x2 == (if (b >> 2) & 1 == 1 { 4u8 } else { 0u8 }),
            x1 == (if (b >> 1) & 1 == 1 { 2u8 } else { 0u8 }),
            x0 == (if (b >> 0) & 1 == 1 { 1u8 } else { 0u8 }),
    ;
}

/// Reading a packed bit string gives the bit string back, followed by zeros.
pub proof fn lemma_pack_reads_back(bits: Seq<bool>, i: int)
    requires
        0 <= i,
    ensures
        channel_bit(pack(bits), i) == bit_or_zero(bits, i),
{
    let bytes = pack(bits);
    if i < 8 * bytes.len() {
        let j = i / 8;
        lemma_byte_of_bits(
            bit_or_zero(bits, 8 * j),
            bit_or_zero(bits, 8 * j + 1),
            bit_or_zero(bits, 8 * j + 2),
            bit_or_zero(bits, 8 * j + 3),
            bit_or_zero(bits, 8 * j + 4),
            bit_or_zero(bits, 8 * j + 5),
            bit_or_zero(bits, 8 * j + 6),
            bit_or_zero(bits, 8 * j + 7),
        );
        assert(i == 8 * j + i % 8);
    }
}

/// A byte string whose bits are `bits` followed by fewer than eight zeros is
/// `pack(bits)`.
pub proof fn lemma_pack_unique(bits: Seq<bool>, bytes: Seq<u8>)
    requires
        bytes.len() == (bits.len() + 7) / 8,
        forall|i: int| 0 <= i < 8 * bytes.len() ==> channel_bit(bytes, i) == bit_or_zero(bits, i),
    ensures
        bytes == pack(bits),
{
    assert forall|j: int| 0 <= j < bytes.len() implies bytes[j] == pack(bits)[j] by {
        lemma_bits_determine_byte(bytes[j]);
        assert(channel_bit(bytes, 8 * j) == bit_or_zero(bits, 8 * j));
        assert(channel_bit(bytes, 8 * j + 1) == bit_or_zero(bits, 8 * j + 1));
        assert(channel_bit(bytes, 8 * j + 2) == bit_or_zero(bits, 8 * j + 2));
        assert(channel_bit(bytes, 8 * j + 3) == bit_or_zero(bits, 8 * j + 3));
        assert(channel_bit(bytes, 8 * j + 4) == bit_or_zero(bits, 8 * j + 4));
        assert(channel_bit(bytes, 8 * j + 5) == bit_or_zero(bits, 8 * j + 5));
        assert(channel_bit(bytes, 8 * j + 6) == bit_or_zero(bits, 8 * j + 6));
        assert(channel_bit(bytes, 8 * j + 7) == bit_or_zero(bits, 8 * j + 7));
    }
    assert(bytes =~= pack(bits));
}

// ---------------------------------------------------------------------------
// Model of the coder
// ---------------------------------------------------------------------------

/// The probability denominator the coder uses for a requested one.
pub open spec fn used_den(p1_den: u32) -> int {
    if p1_den < 2 {
        2
    } else if p1_den > 0x8000 {
        0x8000
    } else {
        p1_den as int
    }
}

/// The probability numerator the coder uses for a requested estimate: never 0
/// and never the whole denominator.
pub open spec fn used_num(p1_num: u32, p1_den: u32) -> int {
    if p1_num < 1 {
        1
    } else if p1_num > used_den(p1_den) - 1 {
        used_den(p1_den) - 1
    } else {
        p1_num as int
    }
}

/// Width of the part of an interval of width `range` that stands for a zero.
pub open spec fn zero_width(range: int, p1_num: u32, p1_den: u32) -> int {
    let den = used_den(p1_den);
    let s = (range * (den - used_num(p1_num, p1_den))) / den;
    if s < 1 {
        1
    } else if s > range - 1 {
        range - 1
    } else {
        s
    }
}

/// State of an encoder: the interval `[low, low + range)` inside
/// `[0, 2^16)`, the number of undecided follow bits, and the bits already
/// written.
pub struct EncoderState {
    /// Lower end of the interval.
    pub low: int,
    /// Width of the interval.
    pub range: int,
    /// Follow bits not written yet.
    pub pending: nat,
    /// Bits written so far.
    pub bits: Seq<bool>,
}

/// The interval lies inside the registers.
pub open spec fn interval_ok(low: int, range: int) -> bool {
    0 <= low && 1 <= range && low + range <= 0x10000
}

/// The interval needs no renormalisation.
pub open spec fn settled(low: int, range: int) -> bool {
    &&& interval_ok(low, range)
    &&& low + range > 0x8000
    &&& low < 0x8000
    &&& !(low >= 0x4000 && low + range <= 0xC000)
}

/// State of an encoder that has coded nothing.
pub open spec fn encoder_start() -> EncoderState {
    EncoderState { low: 0, range: 0x10000, pending: 0, bits: Seq::empty() }
}

/// Write `bit` and the follow bits, which are its complement.
pub open spec fn emit(bits: Seq<bool>, pending: nat, bit: bool) -> Seq<bool> {
    bits.push(bit) + Seq::new(pending, |i: int| !bit)
}

/// Shift out every bit of the interval that is decided.
pub open spec fn encoder_renorm(st: EncoderState) -> EncoderState
    decreases 0x10000 - st.range,
{
    if !interval_ok(st.low, st.range) {
        st
    } else if st.low + st.range <= 0x8000 {
        encoder_renorm(
            EncoderState {
                low: 2 * st.low,
                range: 2 * st.range,
                pending: 0,
                bits: emit(st.bits, st.pending, false),
            },
        )
    } else if st.low >= 0x8000 {
        encoder_renorm(
            EncoderState {
                low: 2 * (st.low - 0x8000),
                range: 2 * st.range,
                pending: 0,
                bits: emit(st.bits, st.pending, true),
            },
        )
    } else if st.low >= 0x4000 && st.low + st.range <= 0xC000 {
        encoder_renorm(
            EncoderState {
                low: 2 * (st.low - 0x4000),
                range: 2 * st.range,
                pending: st.pending + 1,
                bits: st.bits,
            },
        )
    } else {
        st
    }
}

/// Narrow the interval to the part that stands for the symbol.
pub open spec fn encoder_narrow(st: EncoderState, d: Decision) -> EncoderState {
    let z = zero_width(st.range, d.p1_num, d.p1_den);
    if d.symbol == 0 {
        EncoderState { range: z, ..st }
    } else {
        EncoderState { low: st.low + z, range: st.range - z, ..st }
    }
}

/// Encode one decision.
pub open spec fn encode_step(st: EncoderState, d: Decision) -> EncoderState {
    encoder_renorm(encoder_narrow(st, d))
}

/// Encode the decisions in order, starting from `st`.
pub open spec fn encode_run(st: EncoderState, decisions: Seq<Decision>) -> EncoderState
    decreases decisions.len(),
{
    if decisions.len() == 0 {
        st
    } else {
        encode_step(encode_run(st, decisions.drop_last()), decisions.last())
    }
}

/// All bits of a run that ends in `st`.
pub open spec fn encoder_flush(st: EncoderState) -> Seq<bool> {
    emit(st.bits, st.pending + 1, st.low >= 0x4000)
}

/// The byte stream of an encoder that was given `decisions`.
pub open spec fn arith_encoded(decisions: Seq<Decision>) -> Seq<u8> {
    pack(encoder_flush(encode_run(encoder_start(), decisions)))
}

/// State of a decoder: the interval, the 16-bit code value inside it, and how
/// many channel bits were read.
pub struct DecoderState {
    /// Lower end of the interval.
    pub low: int,
    /// Width of the interval.
    pub range: int,
    /// Code value.
    pub value: int,
    /// Number of channel bits read.
    pub pos: nat,
}

/// The bit at `pos`, as a number.
pub open spec fn channel_digit(bytes: Seq<u8>, pos: int) -> int {
    if channel_bit(bytes, pos) {
        1
    } else {
        0
    }
}

/// The first `k` channel bits as a number.
pub open spec fn channel_prefix(bytes: Seq<u8>, k: nat) -> int
    decreases k,
{
    if k == 0 {
        0
    } else {
        2 * channel_prefix(bytes, (k - 1) as nat) + channel_digit(bytes, k - 1)
    }
}

/// State of a decoder that has decoded nothing.
pub open spec fn decoder_start(bytes: Seq<u8>) -> DecoderState {
    DecoderState { low: 0, range: 0x10000, value: channel_prefix(bytes, 16), pos: 16 }
}

/// Shift in a channel bit for every bit of the interval that is decided.
pub open spec fn decoder_renorm(bytes: Seq<u8>, st: DecoderState) -> DecoderState
    decreases 0x10000 - st.range,
{
    if !interval_ok(st.low, st.range) || settled(st.low, st.range) {
        st
    } else {
        let off: int = if st.low + st.range <= 0x8000 {
            0
        } else if st.low >= 0x8000 {
            0x8000
        } else {
            0x4000
        };
        decoder_renorm(
            bytes,
            DecoderState {
                low: 2 * (st.low - off),
                range: 2 * st.range,
                value: 2 * (st.value - off) + channel_digit(bytes, st.pos as int),
                pos: st.pos + 1,
            },
        )
    }
}

/// The symbol that a decoder in state `st` finds next.
pub open spec fn decoder_symbol(st: DecoderState, p1_num: u32, p1_den: u32) -> u8 {
    if st.value - st.low < zero_width(st.range, p1_num, p1_den) {
        0
    } else {
        1
    }
}

/// Decode one symbol.
pub open spec fn decode_step(
    bytes: Seq<u8>,
    st: DecoderState,
    p1_num: u32,
    p1_den: u32,
) -> DecoderState {
    let z = zero_width(st.range, p1_num, p1_den);
    decoder_renorm(
        bytes,
        if decoder_symbol(st, p1_num, p1_den) == 0 {
            DecoderState { range: z, ..st }
        } else {
            DecoderState { low: st.low + z, range: st.range - z, ..st }
        },
    )
}

/// State of a decoder over `bytes` that was asked with `asked`, in order.
pub open spec fn decode_run(bytes: Seq<u8>, asked: Seq<(u32, u32)>) -> DecoderState
    decreases asked.len(),
{
    if asked.len() == 0 {
        decoder_start(bytes)
    } else {
        decode_step(
            bytes,
            decode_run(bytes, asked.drop_last()),
            asked.last().0,
            asked.last().1,
        )
    }
}

/// The symbol a decoder over `bytes` returns when asked with
/// `p1_num / p1_den` after it was asked with `asked`.
pub open spec fn arith_decoded(
    bytes: Seq<u8>,
    asked: Seq<(u32, u32)>,
    p1_num: u32,
    p1_den: u32,
) -> u8 {
    decoder_symbol(decode_run(bytes, asked), p1_num, p1_den)
}

/// Some probability below one is left for each symbol.
proof fn lemma_zero_width(range: int, p1_num: u32, p1_den: u32)
    requires
        range >= 2,
    ensures
        1 <= zero_width(range, p1_num, p1_den) <= range - 1,
{
}

// ---------------------------------------------------------------------------
// Encoder
// ---------------------------------------------------------------------------

/// Encoder side of the coder. [`ArithEncoder::finish`] returns the byte stream
/// that [`ArithDecoder`] reads.
pub struct ArithEncoder {
    low: u32,
    range: u32,
    /// One entry for each follow bit that is not written yet.
    pending: Vec<bool>,
    out: Vec<u8>,
    bit_buf: u8,
    bit_count: u8,
    log: Ghost<Seq<Decision>>,
}

/// The bits held by full bytes followed by the low `bit_count` bits of
/// `bit_buf`.
spec fn held_bits(out: Seq<u8>, bit_buf: u8, bit_count: u8) -> Seq<bool> {
    Seq::new(
        (8 * out.len() + bit_count) as nat,
        |i: int|
            if i < 8 * out.len() {
                channel_bit(out, i)
            } else {
                bit8(bit_buf, (bit_count - 1 - (i - 8 * out.len())) as u8)
            },
    )
}

proof fn lemma_shift_in(buf: u8, bit: u8, k: u8)
    requires
        k < 8,
        bit <= 1,
    ensures
        k >= 1 ==> bit8((buf << 1) | bit, k) == bit8(buf, (k - 1) as u8),
        bit8((buf << 1) | bit, 0) == (bit == 1),
{
    assert(k >= 1 && k < 8 && bit <= 1 ==> ((((buf << 1) | bit) >> k) & 1u8 == 1u8) == ((buf >> (
    (k - 1) as u8)) & 1u8 == 1u8)) by (bit_vector);
    assert(bit <= 1 ==> ((((buf << 1) | bit) >> 0) & 1u8 == 1u8) == (bit == 1)) by (bit_vector);
}

impl ArithEncoder {
    /// The state the encoder is in.
    pub closed spec fn state(self) -> EncoderState {
        EncoderState {
            low: self.low as int,
            range: self.range as int,
            pending: self.pending@.len(),
            bits: held_bits(self.out@, self.bit_buf, self.bit_count),
        }
    }

    /// The decisions the encoder was given, in order.
    pub closed spec fn log(self) -> Seq<Decision> {
        self.log@
    }

    spec fn registers_ok(self) -> bool {
        &&& interval_ok(self.low as int, self.range as int)
        &&& self.bit_count < 8
    }

    /// The encoder is in the state that its decisions lead to.
    pub closed spec fn wf(self) -> bool {
        &&& self.registers_ok()
        &&& settled(self.low as int, self.range as int)
        &&& self.state() == encode_run(encoder_start(), self.log@)
    }

    /// An encoder that has coded nothing.
    pub fn new() -> (e: Self)
        ensures
            e.wf(),
            e.log() == Seq::<Decision>::empty(),
    {
        let e = ArithEncoder {
            low: 0,
            range: 0x10000,
            pending: Vec::new(),
            out: Vec::new(),
            bit_buf: 0,
            bit_count: 0,
            log: Ghost(Seq::empty()),
        };
        assert(e.state().bits =~= Seq::empty());
        e
    }

    /// Encode one binary symbol whose probability of being `1` is
    /// `p1_num / p1_den`. A symbol other than `0` counts as `1`.
    pub fn encode_bit(&mut self, symbol: u8, p1_num: u32, p1_den: u32)
        requires
            old(self).wf(),
        ensures
            final(self).wf(),
            final(self).log() == old(self).log().push(Decision { symbol, p1_num, p1_den }),
    {
        let ghost d = Decision { symbol, p1_num, p1_den };
        let ghost before = self.state();
        let den: u32 = if p1_den < 2 {
            2
        } else if p1_den > MAX_DEN {
            MAX_DEN
        } else {
            p1_den
        };
        let num: u32 = if p1_num < 1 {
            1
        } else if p1_num > den - 1 {
            den - 1
        } else {
            p1_num
        };
        assert(self.range * (den - num) <= 0x10000 * 0x8000) by (nonlinear_arith)
            requires
                self.range <= 0x10000,
                1 <= den - num <= 0x8000,
        ;
        assert(self.range * (den - num) >= 0) by (nonlinear_arith)
            requires
                self.range >= 0,
                den - num >= 0,
        ;
        let raw: u32 = (self.range * (den - num)) / den;
        let split: u32 = if raw < 1 {
            1
        } else if raw > self.range - 1 {
            self.range - 1
        } else {
            raw
        };
        assert(split == zero_width(before.range, p1_num, p1_den));
        proof {
            lemma_zero_width(before.range, p1_num, p1_den);
        }
        if symbol == 0 {
            self.range = split;
        } else {
            self.low = self.low + split;
            self.range = self.range - split;
        }
        assert(self.state() == encoder_narrow(before, d));
        self.renormalize();
        proof {
            self.log@ = self.log@.push(d);
            assert(self.log@.drop_last() =~= old(self).log@);
        }
    }

    /// Shift out the decided bits.
    fn renormalize(&mut self)
        requires
            old(self).registers_ok(),
        ensures
            final(self).registers_ok(),
            settled(final(self).low as int, final(self).range as int),
            final(self).state() == encoder_renorm(old(self).state()),
            final(self).log@ == old(self).log@,
    {
        while self.low + self.range <= TOP || self.low >= TOP || (self.low >= SECOND && self.low
            + self.range <= TOP + SECOND)
            invariant
                self.registers_ok(),
                encoder_renorm(self.state()) == encoder_renorm(old(self).state()),
                self.log@ == old(self).log@,
            decreases 0x10000 - self.range,
        {
            if self.low + self.range <= TOP {
                self.emit_bit(0);
            } else if self.low >= TOP {
                self.emit_bit(1);
                self.low = self.low - TOP;
            } else {
                self.pending.push(true);
                self.low = self.low - SECOND;
            }
            self.low = self.low * 2;
            self.range = self.range * 2;
        }
    }

    /// Write `bit` and the follow bits.
    fn emit_bit(&mut self, bit: u8)
        requires
            old(self).bit_count < 8,
            bit <= 1,
        ensures
            final(self).low == old(self).low,
            final(self).range == old(self).range,
            final(self).pending@.len() == 0,
            final(self).bit_count < 8,
            final(self).state().bits == emit(
                old(self).state().bits,
                old(self).pending@.len(),
                bit == 1,
            ),
            final(self).log@ == old(self).log@,
    {
        self.push_bit(bit);
        let ghost first = self.state().bits;
        let ghost n = self.pending@.len();
        let ghost mut i: nat = 0;
        assert(first + Seq::new(0, |j: int| bit != 1) =~= first);
        while self.pending.len() > 0
            invariant
                i + self.pending@.len() == n,
                bit <= 1,
                self.bit_count < 8,
                self.low == old(self).low,
                self.range == old(self).range,
                self.log@ == old(self).log@,
                self.state().bits == first + Seq::new(i, |j: int| bit != 1),
            decreases self.pending@.len(),
        {
            self.push_bit(1 - bit);
            self.pending.pop();
            proof {
                assert((first + Seq::new(i, |j: int| bit != 1)).push(bit != 1) =~= first
                    + Seq::new(i + 1, |j: int| bit != 1));
                i = i + 1;
            }
        }
        assert(self.state().bits =~= emit(old(self).state().bits, n, bit == 1));
    }

    /// Write one bit.
    fn push_bit(&mut self, bit: u8)
        requires
            old(self).bit_count < 8,
            bit <= 1,
        ensures
            final(self).low == old(self).low,
            final(self).range == old(self).range,
            final(self).pending@ == old(self).pending@,
            final(self).bit_count < 8,
            final(self).state().bits == old(self).state().bits.push(bit == 1),
            final(self).log@ == old(self).log@,
    {
        let ghost before = self.state().bits;
        let ghost buf = self.bit_buf;
        let ghost count = self.bit_count;
        let ghost out = self.out@;
        self.bit_buf = (self.bit_buf << 1) | bit;
        self.bit_count = self.bit_count + 1;
        proof {
            assert forall|k: u8| 1 <= k < 8 implies bit8(self.bit_buf, k) == #[trigger] bit8(
                buf,
                (k - 1) as u8,
            ) by {
                lemma_shift_in(buf, bit, k);
            }
            lemma_shift_in(buf, bit, 0);
            let now = held_bits(self.out@, self.bit_buf, self.bit_count);
            assert forall|i: int| 0 <= i < now.len() implies now[i] == before.push(bit == 1)[i] by {
                if 8 * out.len() <= i < before.len() {
                    let k = (self.bit_count - 1 - (i - 8 * out.len())) as u8;
                    assert(1 <= k < 8);
                    assert(bit8(self.bit_buf, k) == bit8(buf, (k - 1) as u8));
                }
            }
            assert(now =~= before.push(bit == 1));
        }
        if self.bit_count == 8 {
            let ghost full = held_bits(self.out@, self.bit_buf, self.bit_count);
            self.out.push(self.bit_buf);
            proof {
                let now = held_bits(self.out@, 0, 0);
                assert forall|i: int| 0 <= i < now.len() implies now[i] == full[i] by {
                    if i < 8 * out.len() {
                        assert(self.out@[i / 8] == out[i / 8]);
                    } else {
                        assert(i / 8 == out.len());
                        assert((7 - i % 8) as u8 == (8 - 1 - (i - 8 * out.len())) as u8);
                    }
                }
                assert(now =~= full);
            }
            self.bit_buf = 0;
            self.bit_count = 0;
        }
    }

    /// Flush the trailing bits and return the byte stream.
    pub fn finish(self) -> (bytes: Vec<u8>)
        requires
            self.wf(),
        ensures
            bytes@ == arith_encoded(self.log()),
    {
        let mut e = self;
        e.pending.push(true);
        if e.low < SECOND {
            e.emit_bit(0);
        } else {
            e.emit_bit(1);
        }
        let ghost bits = encoder_flush(self.state());
        assert(e.state().bits == bits);
        let ghost out = e.out@;
        if e.bit_count != 0 {
            let ghost buf = e.bit_buf;
            let ghost n = e.bit_count;
            let last: u8 = e.bit_buf << (8 - e.bit_count);
            e.out.push(last);
            proof {
                assert forall|i: int| 0 <= i < 8 * e.out@.len() implies channel_bit(e.out@, i)
                    == bit_or_zero(bits, i) by {
                    if i < 8 * out.len() {
                        assert(e.out@[i / 8] == out[i / 8]);
                        assert(bits[i] == channel_bit(out, i));
                    } else {
                        let k = (7 - i % 8) as u8;
                        assert(k < 8 && 1 <= n < 8 && k >= sub8(n) ==> (((buf << sub8(n)) >> k) & 1u8
                            == 1u8) == ((buf >> ((k - sub8(n)) as u8)) & 1u8 == 1u8)) by (bit_vector);
                        assert(k < 8 && 1 <= n < 8 && k < sub8(n) ==> ((buf << sub8(n)) >> k) & 1u8
                            == 0u8) by (bit_vector);
                        assert(sub8(n) == (8 - n) as u8);
                        assert(bit8(last, k) == channel_bit(e.out@, i));
                        if k >= 8 - n {
                            assert((k - sub8(n)) as u8 == (n - 1 - (i - 8 * out.len())) as u8);
                        }
                    }
                }
                lemma_pack_unique(bits, e.out@);
            }
        } else {
            proof {
                assert forall|i: int| 0 <= i < 8 * e.out@.len() implies channel_bit(e.out@, i)
                    == bit_or_zero(bits, i) by {
                    assert(bits[i] == channel_bit(out, i));
                }
                lemma_pack_unique(bits, e.out@);
            }
        }
        e.out
    }
}

/// How far the last `n` bits of a byte are from its top.
spec fn sub8(n: u8) -> u8 {
    (8u8 - n) as u8
}

impl Default for ArithEncoder {
    fn default() -> (e: Self)
        ensures
            e.wf(),
            e.log() == Seq::<Decision>::empty(),
    {
        ArithEncoder::new()
    }
}

// ---------------------------------------------------------------------------
// Decoder
// ---------------------------------------------------------------------------

/// Decoder side of the coder.
pub struct ArithDecoder<'a> {
    low: u32,
    range: u32,
    value: u32,
    bytes: &'a [u8],
    byte_pos: usize,
    bit_pos: u8,
    read: Ghost<nat>,
    asked: Ghost<Seq<(u32, u32)>>,
}

impl<'a> ArithDecoder<'a> {
    /// The byte stream the decoder reads.
    pub closed spec fn channel(self) -> Seq<u8> {
        self.bytes@
    }

    /// The probabilities the decoder was asked with, in order.
    pub closed spec fn asked(self) -> Seq<(u32, u32)> {
        self.asked@
    }

    /// The state the decoder is in.
    pub closed spec fn state(self) -> DecoderState {
        DecoderState {
            low: self.low as int,
            range: self.range as int,
            value: self.value as int,
            pos: self.read@,
        }
    }

    spec fn cursor_ok(self) -> bool {
        &&& self.bit_pos < 8
        &&& self.byte_pos <= self.bytes@.len()
        &&& self.byte_pos < self.bytes@.len() ==> self.read@ == 8 * self.byte_pos + self.bit_pos
        &&& self.byte_pos == self.bytes@.len() ==> self.read@ >= 8 * self.bytes@.len()
    }

    spec fn registers_ok(self) -> bool {
        &&& interval_ok(self.low as int, self.range as int)
        &&& self.low <= self.value < self.low + self.range
        &&& self.cursor_ok()
    }

    /// The decoder is in the state that its questions lead to.
    pub closed spec fn wf(self) -> bool {
        &&& self.registers_ok()
        &&& settled(self.low as int, self.range as int)
        &&& self.state() == decode_run(self.bytes@, self.asked@)
    }

    /// A decoder over `bytes` that has decoded nothing. Never fails: bits past
    /// the end of `bytes` read as zero.
    pub fn new(bytes: &'a [u8]) -> (r: Result<Self>)
        ensures
            r is Ok,
            r->Ok_0.wf(),
            r->Ok_0.channel() == bytes@,
            r->Ok_0.asked() == Seq::<(u32, u32)>::empty(),
    {
        let mut d = ArithDecoder {
            low: 0,
            range: 0x10000,
            value: 0,
            bytes,
            byte_pos: 0,
            bit_pos: 0,
            read: Ghost(0),
            asked: Ghost(Seq::empty()),
        };
        let mut i: u32 = 0;
        let mut bound: u32 = 1;
        while i < RANGE_BITS
            invariant
                i <= 16,
                d.low == 0,
                d.range == 0x10000,
                d.bytes@ == bytes@,
                d.asked@ == Seq::<(u32, u32)>::empty(),
                d.cursor_ok(),
                d.read@ == i,
                d.value == channel_prefix(bytes@, i as nat),
                d.value < bound,
                i < 16 ==> bound <= 0x8000,
                i == 0 ==> bound == 1,
                i == 1 ==> bound == 2,
                i == 2 ==> bound == 4,
                i == 3 ==> bound == 8,
                i == 4 ==> bound == 16,
                i == 5 ==> bound == 32,
                i == 6 ==> bound == 64,
                i == 7 ==> bound == 128,
                i == 8 ==> bound == 256,
                i == 9 ==> bound == 512,
                i == 10 ==> bound == 1024,
                i == 11 ==> bound == 2048,
                i == 12 ==> bound == 4096,
                i == 13 ==> bound == 8192,
                i == 14 ==> bound == 16384,
                i == 15 ==> bound == 32768,
                i == 16 ==> bound == 65536,
            decreases 16 - i,
        {
            let b = d.read_bit();
            d.value = d.value * 2 + b;
            bound = bound * 2;
            i = i + 1;
        }
        Ok(d)
    }

    /// Read the next channel bit.
    fn read_bit(&mut self) -> (b: u32)
        requires
            old(self).cursor_ok(),
        ensures
            final(self).cursor_ok(),
            b == channel_digit(old(self).bytes@, old(self).read@ as int),
            final(self).read@ == old(self).read@ + 1,
            final(self).low == old(self).low,
            final(self).range == old(self).range,
            final(self).value == old(self).value,
            final(self).bytes@ == old(self).bytes@,
            final(self).asked@ == old(self).asked@,
    {
        proof {
            self.read@ = self.read@ + 1;
        }
        if self.byte_pos >= self.bytes.len() {
            return 0;
        }
        let byte: u8 = self.bytes[self.byte_pos];
        let k: u8 = 7 - self.bit_pos;
        let bit: u8 = (byte >> k) & 1;
        assert((byte >> k) & 1 <= 1) by (bit_vector);
        assert((7 - old(self).read@ % 8) as u8 == k);
        if self.bit_pos == 7 {
            self.bit_pos = 0;
            self.byte_pos = self.byte_pos + 1;
        } else {
            self.bit_pos = self.bit_pos + 1;
        }
        bit as u32
    }

    /// Decode one binary symbol whose probability of being `1` is
    /// `p1_num / p1_den`. Never fails.
    pub fn decode_bit(&mut self, p1_num: u32, p1_den: u32) -> (r: Result<u8>)
        requires
            old(self).wf(),
        ensures
            final(self).wf(),
            final(self).channel() == old(self).channel(),
            final(self).asked() == old(self).asked().push((p1_num, p1_den)),
            r is Ok,
            r->Ok_0 == arith_decoded(old(self).channel(), old(self).asked(), p1_num, p1_den),
    {
        let ghost before = self.state();
        let den: u32 = if p1_den < 2 {
            2
        } else if p1_den > MAX_DEN {
            MAX_DEN
        } else {
            p1_den
        };
        let num: u32 = if p1_num < 1 {
            1
        } else if p1_num > den - 1 {
            den - 1
        } else {
            p1_num
        };
        assert(self.range * (den - num) <= 0x10000 * 0x8000) by (nonlinear_arith)
            requires
                self.range <= 0x10000,
                1 <= den - num <= 0x8000,
        ;
        assert(self.range * (den - num) >= 0) by (nonlinear_arith)
            requires
                self.range >= 0,
                den - num >= 0,
        ;
        let raw: u32 = (self.range * (den - num)) / den;
        let split: u32 = if raw < 1 {
            1
        } else if raw > self.range - 1 {
            self.range - 1
        } else {
            raw
        };
        assert(split == zero_width(before.range, p1_num, p1_den));
        proof {
            lemma_zero_width(before.range, p1_num, p1_den);
        }
        let offset: u32 = self.value - self.low;
        let symbol: u8 = if offset < split {
            self.range = split;
            0
        } else {
            self.low = self.low + split;
            self.range = self.range - split;
            1
        };
        self.renormalize_decoder();
        proof {
            self.asked@ = self.asked@.push((p1_num, p1_den));
            assert(self.asked@.drop_last() =~= old(self).asked@);
        }
        Ok(symbol)
    }

    /// Shift in a channel bit for every decided bit.
    fn renormalize_decoder(&mut self)
        requires
            old(self).registers_ok(),
        ensures
            final(self).registers_ok(),
            settled(final(self).low as int, final(self).range as int),
            final(self).state() == decoder_renorm(old(self).bytes@, old(self).state()),
            final(self).bytes@ == old(self).bytes@,
            final(self).asked@ == old(self).asked@,
    {
        while self.low + self.range <= TOP || self.low >= TOP || (self.low >= SECOND && self.low
            + self.range <= TOP + SECOND)
            invariant
                self.registers_ok(),
                decoder_renorm(self.bytes@, self.state()) == decoder_renorm(
                    old(self).bytes@,
                    old(self).state(),
                ),
                self.bytes@ == old(self).bytes@,
                self.asked@ == old(self).asked@,
            decreases 0x10000 - self.range,
        {
            if self.low + self.range <= TOP {
            } else if self.low >= TOP {
                self.low = self.low - TOP;
                self.value = self.value - TOP;
            } else {
                self.low = self.low - SECOND;
                self.value = self.value - SECOND;
            }
            let bit = self.read_bit();
            self.low = self.low * 2;
            self.range = self.range * 2;
            self.value = self.value * 2 + bit;
        }
    }
}

// ---------------------------------------------------------------------------
// Decoding inverts encoding
// ---------------------------------------------------------------------------

/// The probabilities of the decisions, in order.
pub open spec fn probabilities(decisions: Seq<Decision>) -> Seq<(u32, u32)> {
    Seq::new(decisions.len(), |i: int| (decisions[i].p1_num, decisions[i].p1_den))
}

/// The symbol the coder keeps: everything but `0` counts as `1`.
pub open spec fn kept_symbol(symbol: u8) -> u8 {
    if symbol == 0 {
        0
    } else {
        1
    }
}

/// `c` with `p` complements of its first bit after that bit.
spec fn stretch(c: Seq<bool>, p: nat) -> Seq<bool> {
    seq![c[0]] + Seq::new(p, |i: int| !c[0]) + c.skip(1)
}

/// The bits that an encoder with interval `[low, low + range)` and no follow
/// bits still writes when it renormalises, codes `ds` and flushes.
spec fn code(low: int, range: int, ds: Seq<Decision>) -> Seq<bool>
    decreases ds.len(), 0x10000 - range,
{
    if !interval_ok(low, range) {
        Seq::empty()
    } else if low + range <= 0x8000 {
        seq![false] + code(2 * low, 2 * range, ds)
    } else if low >= 0x8000 {
        seq![true] + code(2 * (low - 0x8000), 2 * range, ds)
    } else if low >= 0x4000 && low + range <= 0xC000 {
        stretch(code(2 * (low - 0x4000), 2 * range, ds), 1)
    } else if ds.len() == 0 {
        if low >= 0x4000 {
            seq![true, false]
        } else {
            seq![false, true]
        }
    } else {
        let z = zero_width(range, ds[0].p1_num, ds[0].p1_den);
        if ds[0].symbol == 0 {
            code(low, z, ds.drop_first())
        } else {
            code(low + z, range - z, ds.drop_first())
        }
    }
}

proof fn lemma_code_len(low: int, range: int, ds: Seq<Decision>)
    requires
        interval_ok(low, range),
    ensures
        code(low, range, ds).len() >= 2,
    decreases ds.len(), 0x10000 - range,
{
    if low + range <= 0x8000 {
        lemma_code_len(2 * low, 2 * range, ds);
    } else if low >= 0x8000 {
        lemma_code_len(2 * (low - 0x8000), 2 * range, ds);
    } else if low >= 0x4000 && low + range <= 0xC000 {
        lemma_code_len(2 * (low - 0x4000), 2 * range, ds);
    } else if ds.len() > 0 {
        lemma_zero_width(range, ds[0].p1_num, ds[0].p1_den);
        let z = zero_width(range, ds[0].p1_num, ds[0].p1_den);
        if ds[0].symbol == 0 {
            lemma_code_len(low, z, ds.drop_first());
        } else {
            lemma_code_len(low + z, range - z, ds.drop_first());
        }
    }
}

/// Coding the first decision first.
proof fn lemma_encode_run_front(st: EncoderState, ds: Seq<Decision>)
    requires
        ds.len() > 0,
    ensures
        encode_run(st, ds) == encode_run(encode_step(st, ds[0]), ds.drop_first()),
    decreases ds.len(),
{
    if ds.len() > 1 {
        lemma_encode_run_front(st, ds.drop_last());
        assert(ds.drop_last().drop_first() =~= ds.drop_first().drop_last());
        assert(ds.drop_last()[0] == ds[0]);
        assert(ds.drop_first().last() == ds.last());
    } else {
        assert(ds.drop_last() =~= Seq::empty());
        assert(ds.drop_first() =~= Seq::empty());
        assert(ds.last() == ds[0]);
        assert(encode_run(st, ds.drop_last()) == st);
    }
}

/// What a run writes is what was written, followed by the code of the state
/// with the follow bits stretched in.
proof fn lemma_run_writes_code(st: EncoderState, ds: Seq<Decision>)
    requires
        interval_ok(st.low, st.range),
    ensures
        encoder_flush(encode_run(encoder_renorm(st), ds)) == st.bits + stretch(
            code(st.low, st.range, ds),
            st.pending,
        ),
    decreases ds.len(), 0x10000 - st.range,
{
    let low = st.low;
    let range = st.range;
    let p = st.pending;
    let c = code(low, range, ds);
    lemma_code_len(low, range, ds);
    if low + range <= 0x8000 || low >= 0x8000 {
        let b = low >= 0x8000;
        let low1 = if b {
            2 * (low - 0x8000)
        } else {
            2 * low
        };
        let st1 = EncoderState {
            low: low1,
            range: 2 * range,
            pending: 0,
            bits: emit(st.bits, p, b),
        };
        assert(encoder_renorm(st) == encoder_renorm(st1));
        lemma_code_len(low1, 2 * range, ds);
        lemma_run_writes_code(st1, ds);
        let c1 = code(low1, 2 * range, ds);
        assert(stretch(c1, 0) =~= c1);
        assert(c == seq![b] + c1);
        assert(st1.bits + c1 =~= st.bits + stretch(c, p));
    } else if low >= 0x4000 && low + range <= 0xC000 {
        let st1 = EncoderState {
            low: 2 * (low - 0x4000),
            range: 2 * range,
            pending: p + 1,
            bits: st.bits,
        };
        assert(encoder_renorm(st) == encoder_renorm(st1));
        lemma_code_len(st1.low, st1.range, ds);
        lemma_run_writes_code(st1, ds);
        let c1 = code(st1.low, st1.range, ds);
        assert(stretch(c1, p + 1) =~= stretch(stretch(c1, 1), p));
    } else if ds.len() == 0 {
        assert(encoder_renorm(st) == st);
        assert(encode_run(st, ds) == st);
        assert(encoder_flush(st) =~= st.bits + stretch(c, p));
    } else {
        assert(encoder_renorm(st) == st);
        lemma_encode_run_front(st, ds);
        let st1 = encoder_narrow(st, ds[0]);
        lemma_zero_width(range, ds[0].p1_num, ds[0].p1_den);
        lemma_run_writes_code(st1, ds.drop_first());
    }
}

spec fn digit_or_zero(c: Seq<bool>, i: int) -> int {
    if bit_or_zero(c, i) {
        1
    } else {
        0
    }
}

/// The first `k` bits of `c`, followed by zeros, as a number.
spec fn window(c: Seq<bool>, k: nat) -> int
    decreases k,
{
    if k == 0 {
        0
    } else {
        2 * window(c, (k - 1) as nat) + digit_or_zero(c, k - 1)
    }
}

spec fn two_to(k: nat) -> int
    decreases k,
{
    if k == 0 {
        1
    } else {
        2 * two_to((k - 1) as nat)
    }
}

proof fn lemma_window_cons(b: bool, c: Seq<bool>, k: nat)
    requires
        k >= 1,
    ensures
        window(seq![b] + c, k) == (if b {
            two_to((k - 1) as nat)
        } else {
            0
        }) + window(c, (k - 1) as nat),
    decreases k,
{
    let d = seq![b] + c;
    if k == 1 {
        reveal_with_fuel(window, 2);
        reveal_with_fuel(two_to, 2);
    } else {
        lemma_window_cons(b, c, (k - 1) as nat);
        assert(bit_or_zero(d, k - 1) == bit_or_zero(c, k - 2));
    }
}

proof fn lemma_window_empty(k: nat)
    ensures
        window(Seq::empty(), k) == 0,
    decreases k,
{
    if k > 0 {
        lemma_window_empty((k - 1) as nat);
    }
}

proof fn lemma_two_to_16()
    ensures
        two_to(13) == 0x2000,
        two_to(14) == 0x4000,
        two_to(15) == 0x8000,
{
    reveal_with_fuel(two_to, 16);
}

/// The window of a stretched code.
proof fn lemma_window_stretch(c: Seq<bool>)
    requires
        c.len() >= 1,
    ensures
        window(stretch(c, 1), 16) == window(c, 15) + 0x4000,
{
    let r = c.skip(1);
    lemma_two_to_16();
    assert(c =~= seq![c[0]] + r);
    assert(stretch(c, 1) =~= seq![c[0]] + (seq![!c[0]] + r));
    lemma_window_cons(c[0], seq![!c[0]] + r, 16);
    lemma_window_cons(!c[0], r, 15);
    lemma_window_cons(c[0], r, 15);
}

/// The first 16 bits of the code of an interval are a number in the interval.
proof fn lemma_code_in_interval(low: int, range: int, ds: Seq<Decision>)
    requires
        interval_ok(low, range),
    ensures
        low <= window(code(low, range, ds), 16) < low + range,
    decreases ds.len(), 0x10000 - range,
{
    lemma_two_to_16();
    if low + range <= 0x8000 {
        lemma_code_in_interval(2 * low, 2 * range, ds);
        lemma_window_cons(false, code(2 * low, 2 * range, ds), 16);
        assert(window(code(2 * low, 2 * range, ds), 16) == 2 * window(
            code(2 * low, 2 * range, ds),
            15,
        ) + digit_or_zero(code(2 * low, 2 * range, ds), 15));
    } else if low >= 0x8000 {
        let c1 = code(2 * (low - 0x8000), 2 * range, ds);
        lemma_code_in_interval(2 * (low - 0x8000), 2 * range, ds);
        lemma_window_cons(true, c1, 16);
        assert(window(c1, 16) == 2 * window(c1, 15) + digit_or_zero(c1, 15));
    } else if low >= 0x4000 && low + range <= 0xC000 {
        let c1 = code(2 * (low - 0x4000), 2 * range, ds);
        lemma_code_in_interval(2 * (low - 0x4000), 2 * range, ds);
        lemma_code_len(2 * (low - 0x4000), 2 * range, ds);
        lemma_window_stretch(c1);
        assert(window(c1, 16) == 2 * window(c1, 15) + digit_or_zero(c1, 15));
    } else if ds.len() == 0 {
        let b = low >= 0x4000;
        assert(seq![b, !b] =~= seq![b] + (seq![!b] + Seq::<bool>::empty()));
        lemma_window_cons(b, seq![!b] + Seq::<bool>::empty(), 16);
        lemma_window_cons(!b, Seq::<bool>::empty(), 15);
        lemma_window_empty(14);
    } else {
        lemma_zero_width(range, ds[0].p1_num, ds[0].p1_den);
        let z = zero_width(range, ds[0].p1_num, ds[0].p1_den);
        if ds[0].symbol == 0 {
            lemma_code_in_interval(low, z, ds.drop_first());
        } else {
            lemma_code_in_interval(low + z, range - z, ds.drop_first());
        }
    }
}

/// The decoder's code value and what it has yet to read are `c`.
spec fn follows(bytes: Seq<u8>, st: DecoderState, c: Seq<bool>) -> bool {
    &&& st.value == window(c, 16)
    &&& forall|j: int| j >= 16 ==> bit_or_zero(c, j) == #[trigger] channel_bit(bytes, st.pos + (j - 16))
}

proof fn lemma_decoder_renorm_follows(bytes: Seq<u8>, st: DecoderState, ds: Seq<Decision>)
    requires
        interval_ok(st.low, st.range),
        follows(bytes, st, code(st.low, st.range, ds)),
    ensures
        ({
            let st1 = decoder_renorm(bytes, st);
            settled(st1.low, st1.range) && follows(bytes, st1, code(st1.low, st1.range, ds))
        }),
    decreases 0x10000 - st.range,
{
    if !settled(st.low, st.range) {
        let low = st.low;
        let range = st.range;
        let off: int = if low + range <= 0x8000 {
            0
        } else if low >= 0x8000 {
            0x8000
        } else {
            0x4000
        };
        let st1 = DecoderState {
            low: 2 * (low - off),
            range: 2 * range,
            value: 2 * (st.value - off) + channel_digit(bytes, st.pos as int),
            pos: st.pos + 1,
        };
        let c = code(low, range, ds);
        let c1 = code(st1.low, st1.range, ds);
        lemma_code_len(st1.low, st1.range, ds);
        lemma_two_to_16();
        if off == 0x4000 {
            lemma_window_stretch(c1);
        } else {
            lemma_window_cons(off == 0x8000, c1, 16);
        }
        assert(window(c, 16) == off + window(c1, 15));
        assert(window(c1, 16) == 2 * window(c1, 15) + digit_or_zero(c1, 15));
        assert forall|j: int| j >= 15 implies bit_or_zero(c1, j) == bit_or_zero(c, j + 1) by {
            if off == 0x4000 {
                assert(c == stretch(c1, 1));
                assert(c.len() == c1.len() + 1);
                if j < c1.len() {
                    assert(c[j + 1] == c1.skip(1)[j - 1]);
                }
            } else {
                assert(c == seq![off == 0x8000] + c1);
            }
        }
        assert(bit_or_zero(c, 16) == channel_bit(bytes, st.pos + (16 - 16)));
        assert(st1.value == window(c1, 16));
        assert forall|j: int| j >= 16 implies bit_or_zero(c1, j) == #[trigger] channel_bit(
            bytes,
            st1.pos + (j - 16),
        ) by {
            assert(bit_or_zero(c, j + 1) == channel_bit(bytes, st.pos + (j + 1 - 16)));
        }
        lemma_decoder_renorm_follows(bytes, st1, ds);
        assert(decoder_renorm(bytes, st) == decoder_renorm(bytes, st1));
    }
}

/// A decoder that follows the code of some decisions finds the first of them,
/// and then follows the code of the others.
proof fn lemma_decode_step_follows(bytes: Seq<u8>, st: DecoderState, ds: Seq<Decision>)
    requires
        settled(st.low, st.range),
        ds.len() > 0,
        follows(bytes, st, code(st.low, st.range, ds)),
    ensures
        decoder_symbol(st, ds[0].p1_num, ds[0].p1_den) == kept_symbol(ds[0].symbol),
        ({
            let st1 = decode_step(bytes, st, ds[0].p1_num, ds[0].p1_den);
            settled(st1.low, st1.range) && follows(
                bytes,
                st1,
                code(st1.low, st1.range, ds.drop_first()),
            )
        }),
{
    let z = zero_width(st.range, ds[0].p1_num, ds[0].p1_den);
    lemma_zero_width(st.range, ds[0].p1_num, ds[0].p1_den);
    let st1 = if ds[0].symbol == 0 {
        DecoderState { range: z, ..st }
    } else {
        DecoderState { low: st.low + z, range: st.range - z, ..st }
    };
    assert(code(st.low, st.range, ds) == code(st1.low, st1.range, ds.drop_first()));
    lemma_code_in_interval(st1.low, st1.range, ds.drop_first());
    lemma_decoder_renorm_follows(bytes, st1, ds.drop_first());
}

proof fn lemma_decode_run_follows(ds: Seq<Decision>, k: int)
    requires
        0 <= k <= ds.len(),
    ensures
        ({
            let bytes = arith_encoded(ds);
            let st = decode_run(bytes, probabilities(ds.take(k)));
            settled(st.low, st.range) && follows(bytes, st, code(st.low, st.range, ds.skip(k)))
        }),
    decreases k,
{
    let bytes = arith_encoded(ds);
    if k == 0 {
        let st = encoder_start();
        assert(encoder_renorm(st) == st);
        lemma_run_writes_code(st, ds);
        let c = code(0, 0x10000, ds);
        lemma_code_len(0, 0x10000, ds);
        assert(stretch(c, 0) =~= c);
        let bits = encoder_flush(encode_run(st, ds));
        assert(st.bits + stretch(c, 0) =~= c);
        assert(bits == c);
        assert forall|i: int| 0 <= i implies #[trigger] channel_bit(bytes, i) == bit_or_zero(c, i) by {
            lemma_pack_reads_back(bits, i);
        }
        lemma_window_is_prefix(bytes, c, 16);
        assert(ds.skip(0) =~= ds);
        assert(probabilities(ds.take(0)) =~= Seq::empty());
    } else {
        lemma_decode_run_follows(ds, k - 1);
        let asked = probabilities(ds.take(k));
        let st = decode_run(bytes, probabilities(ds.take(k - 1)));
        assert(asked.drop_last() =~= probabilities(ds.take(k - 1)));
        assert(ds.skip(k - 1)[0] == ds[k - 1]);
        assert(ds.skip(k - 1).drop_first() =~= ds.skip(k));
        lemma_decode_step_follows(bytes, st, ds.skip(k - 1));
    }
}

proof fn lemma_window_is_prefix(bytes: Seq<u8>, c: Seq<bool>, k: nat)
    requires
        forall|i: int| 0 <= i ==> #[trigger] channel_bit(bytes, i) == bit_or_zero(c, i),
    ensures
        channel_prefix(bytes, k) == window(c, k),
    decreases k,
{
    if k > 0 {
        lemma_window_is_prefix(bytes, c, (k - 1) as nat);
        assert(channel_bit(bytes, k - 1) == bit_or_zero(c, k - 1));
    }
}

/// **Decoding inverts encoding.** A decoder over the byte stream of an encoder
/// that was given `decisions`, asked with the same probabilities in the same
/// order, returns the symbol of every decision.
pub proof fn decoding_inverts_encoding(decisions: Seq<Decision>, k: int)
    requires
        0 <= k < decisions.len(),
    ensures
        arith_decoded(
            arith_encoded(decisions),
            probabilities(decisions.take(k)),
            decisions[k].p1_num,
            decisions[k].p1_den,
        ) == kept_symbol(decisions[k].symbol),
{
    let bytes = arith_encoded(decisions);
    lemma_decode_run_follows(decisions, k);
    let st = decode_run(bytes, probabilities(decisions.take(k)));
    assert(decisions.skip(k)[0] == decisions[k]);
    lemma_decode_step_follows(bytes, st, decisions.skip(k));
}

} // verus!
