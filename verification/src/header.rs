//! Bitstream framing: segment headers and packet headers.
//!
//! A stream is a sequence of segments. A segment is a twelve-byte header and a
//! body; the body is a sequence of packets, each a four-byte header and its
//! entropy-coded bytes.
//!
//! Segment header:
//!
//! | byte   | field                                                        |
//! |--------|--------------------------------------------------------------|
//! | 0, 1   | synchronisation prefix, not zero                             |
//! | 2      | priority order (1 bit), wavelet filter (3 bits),             |
//! |        | decomposition levels (3 bits), uncompressed (1 bit)          |
//! | 3, 4   | width                                                        |
//! | 5, 6   | height                                                       |
//! | 7      | number of bit planes (6 bits), transform-domain segment      |
//! |        | (1 bit), interleaved entropy coder (1 bit)                   |
//! | 8, 9   | length of the body                                           |
//! | 10, 11 | segment index; for a transform-domain segment the number of  |
//! |        | segments (8 bits) and the segment index (8 bits)             |
//!
//! Packet header:
//!
//! | byte | field                                                          |
//! |------|----------------------------------------------------------------|
//! | 0    | bit plane (6 bits), pass (2 bits)                              |
//! | 1, 2 | length of the body                                             |
//! | 3    | minimum-loss parameter                                         |

use crate::bytes::{be16, be16_bytes, lemma_be16_reads_back, read_be16, slice_of};
use crate::error::{fails_with, Fault, IcerError, Result};
use crate::text::with_number;
use vstd::prelude::*;

verus! {

/// Wavelet filter.
#[derive(Debug, Clone, Copy, PartialEq, Eq, Structural)]
pub enum WaveletFilter {
    /// Filter Q, the reversible 5/3 filter.
    Reversible53,
    /// Filter A.
    NineSevenA,
    /// Filter B.
    FilterB,
    /// Filter C.
    FilterC,
    /// Filter D.
    FilterD,
    /// Filter E.
    FilterE,
    /// Filter F.
    FilterF,
    /// Filter G. It is defined in floating point and has no integer transform:
    /// headers carry it, and what would have to be transformed is refused.
    FilterG,
}

impl WaveletFilter {
    /// Filter Q.
    #[allow(non_upper_case_globals)]
    pub const FilterQ: WaveletFilter = WaveletFilter::Reversible53;

    /// Filter A.
    #[allow(non_upper_case_globals)]
    pub const FilterA: WaveletFilter = WaveletFilter::NineSevenA;

    /// The number that stands for the filter in a header.
    pub open spec fn code(self) -> u8 {
        match self {
            WaveletFilter::Reversible53 => 0,
            WaveletFilter::NineSevenA => 1,
            WaveletFilter::FilterB => 2,
            WaveletFilter::FilterC => 3,
            WaveletFilter::FilterD => 4,
            WaveletFilter::FilterE => 5,
            WaveletFilter::FilterF => 6,
            WaveletFilter::FilterG => 7,
        }
    }

    /// The number that stands for the filter in a header.
    pub fn bits(self) -> (v: u8)
        ensures
            v == self.code(),
            v <= 7,
    {
        match self {
            WaveletFilter::Reversible53 => 0,
            WaveletFilter::NineSevenA => 1,
            WaveletFilter::FilterB => 2,
            WaveletFilter::FilterC => 3,
            WaveletFilter::FilterD => 4,
            WaveletFilter::FilterE => 5,
            WaveletFilter::FilterF => 6,
            WaveletFilter::FilterG => 7,
        }
    }

    /// The filter that a number stands for. Numbers above 7 are reserved.
    pub fn from_bits(v: u8) -> (r: Result<Self>)
        ensures
            v <= 7 ==> r is Ok && r->Ok_0.code() == v,
            v > 7 ==> fails_with(r, Fault::InvalidData),
    {
        match v {
            0 => Ok(WaveletFilter::Reversible53),
            1 => Ok(WaveletFilter::NineSevenA),
            2 => Ok(WaveletFilter::FilterB),
            3 => Ok(WaveletFilter::FilterC),
            4 => Ok(WaveletFilter::FilterD),
            5 => Ok(WaveletFilter::FilterE),
            6 => Ok(WaveletFilter::FilterF),
            7 => Ok(WaveletFilter::FilterG),
            _ => Err(
                IcerError::invalid(with_number("reserved wavelet filter id ", v as u64, "").as_str()),
            ),
        }
    }
}

/// The filter that a number from 0 to 7 stands for.
pub open spec fn filter_of(v: int) -> WaveletFilter {
    if v == 0 {
        WaveletFilter::Reversible53
    } else if v == 1 {
        WaveletFilter::NineSevenA
    } else if v == 2 {
        WaveletFilter::FilterB
    } else if v == 3 {
        WaveletFilter::FilterC
    } else if v == 4 {
        WaveletFilter::FilterD
    } else if v == 5 {
        WaveletFilter::FilterE
    } else if v == 6 {
        WaveletFilter::FilterF
    } else {
        WaveletFilter::FilterG
    }
}

/// Header of a segment.
#[derive(Debug, Clone, Copy, PartialEq, Eq, Structural)]
pub struct SegmentHeader {
    /// Synchronisation prefix.
    pub sync_prefix: u16,
    /// Wavelet filter.
    pub filter: WaveletFilter,
    /// Decomposition levels, 1 to 6.
    pub decomp_levels: u8,
    /// The segment carries raw pixels.
    pub uncompressed: bool,
    /// Width of the segment.
    pub width: u16,
    /// Height of the segment.
    pub height: u16,
    /// Number of bit planes, 1 to 32.
    pub bit_plane_count: u8,
    /// The packets are coded with the interleaved entropy coder.
    pub interleaved_entropy: bool,
    /// The segment is one of the transform domain; `width` and `height` are
    /// those of the image.
    pub transform_segmented: bool,
    /// Number of segments of the image, for a transform-domain segment.
    pub total_segments: u8,
    /// The packets follow the subband priority order.
    pub priority_interleaved: bool,
    /// Length of the body in bytes.
    pub segment_length: u16,
    /// Index of the segment.
    pub segment_index: u16,
}

/// 1 for true and 0 for false.
pub open spec fn flag_bit(b: bool) -> int {
    if b {
        1
    } else {
        0
    }
}

impl SegmentHeader {
    /// Size of an encoded header.
    pub const ENCODED_BYTES: usize = 12;

    /// Every field lies in the range that a header can carry.
    pub open spec fn valid(self) -> bool {
        &&& self.sync_prefix != 0
        &&& 1 <= self.decomp_levels <= 6
        &&& self.width != 0
        &&& self.height != 0
        &&& 1 <= self.bit_plane_count <= 32
        &&& self.transform_segmented ==> self.segment_index < 256
        &&& !self.transform_segmented ==> self.total_segments == 0
    }

    /// The encoded header.
    pub open spec fn to_bytes(self) -> Seq<u8> {
        let index: int = if self.transform_segmented {
            256 * self.total_segments + self.segment_index % 256
        } else {
            self.segment_index as int
        };
        be16_bytes(self.sync_prefix as int) + seq![
            (128 * flag_bit(self.priority_interleaved) + 16 * self.filter.code() + 2 * (
            self.decomp_levels % 8) + flag_bit(self.uncompressed)) as u8,
        ] + be16_bytes(self.width as int) + be16_bytes(self.height as int) + seq![
            (4 * (self.bit_plane_count % 64) + 2 * flag_bit(self.transform_segmented) + flag_bit(
                self.interleaved_entropy,
            )) as u8,
        ] + be16_bytes(self.segment_length as int) + be16_bytes(index)
    }
}

/// The header at the start of `bytes`, or why there is none.
pub open spec fn segment_header(bytes: Seq<u8>) -> core::result::Result<SegmentHeader, Fault> {
    if bytes.len() < 12 {
        Err(Fault::Truncated)
    } else if be16(bytes, 0) == 0 {
        Err(Fault::InvalidData)
    } else if !(1 <= bytes[2] / 2 % 8 <= 6) {
        Err(Fault::InvalidData)
    } else if be16(bytes, 3) == 0 || be16(bytes, 5) == 0 {
        Err(Fault::InvalidData)
    } else if !(1 <= bytes[7] / 4 <= 32) {
        Err(Fault::InvalidData)
    } else {
        let transform_segmented = bytes[7] / 2 % 2 == 1;
        Ok(
            SegmentHeader {
                sync_prefix: be16(bytes, 0) as u16,
                filter: filter_of((bytes[2] / 16 % 8) as int),
                decomp_levels: (bytes[2] / 2 % 8) as u8,
                uncompressed: bytes[2] % 2 == 1,
                width: be16(bytes, 3) as u16,
                height: be16(bytes, 5) as u16,
                bit_plane_count: (bytes[7] / 4) as u8,
                interleaved_entropy: bytes[7] % 2 == 1,
                transform_segmented,
                total_segments: if transform_segmented {
                    bytes[10]
                } else {
                    0
                },
                priority_interleaved: bytes[2] / 128 == 1,
                segment_length: be16(bytes, 8) as u16,
                segment_index: if transform_segmented {
                    bytes[11] as u16
                } else {
                    be16(bytes, 10) as u16
                },
            },
        )
    }
}

impl SegmentHeader {
    /// Parse the header at the start of `bytes`. Returns it with the number of
    /// bytes it takes.
    pub fn parse(bytes: &[u8]) -> (r: Result<(Self, usize)>)
        ensures
            match segment_header(bytes@) {
                Err(f) => fails_with(r, f),
                Ok(h) => {
                    &&& r is Ok
                    &&& r->Ok_0.0 == h
                    &&& r->Ok_0.1 == 12
                    &&& h.valid()
                    &&& bytes@.len() >= 12
                },
            },
    {
        if bytes.len() < SegmentHeader::ENCODED_BYTES {
            return Err(IcerError::Truncated);
        }
        let sync_prefix: u16 = read_be16(bytes, 0);
        if sync_prefix == 0 {
            return Err(IcerError::invalid("segment sync prefix is zero"));
        }
        let b2: u8 = bytes[2];
        let filter = match WaveletFilter::from_bits(b2 / 16 % 8) {
            Ok(f) => f,
            Err(e) => {
                return Err(e);
            },
        };
        assert(filter == filter_of((b2 / 16 % 8) as int));
        let decomp_levels: u8 = b2 / 2 % 8;
        if decomp_levels < 1 || decomp_levels > 6 {
            return Err(
                IcerError::invalid(
                    with_number("decomposition levels ", decomp_levels as u64, " outside [1,6]").as_str(),
                ),
            );
        }
        let uncompressed = b2 % 2 == 1;
        let priority_interleaved = b2 / 128 == 1;
        let width: u16 = read_be16(bytes, 3);
        let height: u16 = read_be16(bytes, 5);
        if width == 0 || height == 0 {
            return Err(IcerError::invalid("segment dimensions cannot be zero"));
        }
        let b7: u8 = bytes[7];
        let bit_plane_count: u8 = b7 / 4;
        if bit_plane_count == 0 || bit_plane_count > 32 {
            return Err(
                IcerError::invalid(
                    with_number("bit-plane count ", bit_plane_count as u64, " outside (0,32]").as_str(),
                ),
            );
        }
        let interleaved_entropy = b7 % 2 == 1;
        let transform_segmented = b7 / 2 % 2 == 1;
        let segment_length: u16 = read_be16(bytes, 8);
        let (total_segments, segment_index): (u8, u16) = if transform_segmented {
            (bytes[10], bytes[11] as u16)
        } else {
            (0, read_be16(bytes, 10))
        };
        Ok(
            (
                SegmentHeader {
                    sync_prefix,
                    filter,
                    decomp_levels,
                    uncompressed,
                    width,
                    height,
                    bit_plane_count,
                    interleaved_entropy,
                    transform_segmented,
                    total_segments,
                    priority_interleaved,
                    segment_length,
                    segment_index,
                },
                SegmentHeader::ENCODED_BYTES,
            ),
        )
    }

    /// Encode the header.
    pub fn encode(&self) -> (out: [u8; 12])
        ensures
            out@ == self.to_bytes(),
    {
        let index: u16 = if self.transform_segmented {
            256 * self.total_segments as u16 + self.segment_index % 256
        } else {
            self.segment_index
        };
        let mut b2: u8 = 16 * self.filter.bits() + 2 * (self.decomp_levels % 8);
        if self.uncompressed {
            b2 = b2 + 1;
        }
        if self.priority_interleaved {
            b2 = b2 + 128;
        }
        let mut b7: u8 = 4 * (self.bit_plane_count % 64);
        if self.transform_segmented {
            b7 = b7 + 2;
        }
        if self.interleaved_entropy {
            b7 = b7 + 1;
        }
        let out: [u8; 12] = [
            (self.sync_prefix / 256) as u8,
            (self.sync_prefix % 256) as u8,
            b2,
            (self.width / 256) as u8,
            (self.width % 256) as u8,
            (self.height / 256) as u8,
            (self.height % 256) as u8,
            b7,
            (self.segment_length / 256) as u8,
            (self.segment_length % 256) as u8,
            (index / 256) as u8,
            (index % 256) as u8,
        ];
        assert(out@ =~= self.to_bytes());
        out
    }
}

/// **A header gives back what was encoded**, whatever bytes follow it.
pub proof fn parsing_inverts_encoding(h: SegmentHeader, rest: Seq<u8>)
    requires
        h.valid(),
    ensures
        h.to_bytes().len() == 12,
        segment_header(h.to_bytes() + rest) == Ok::<SegmentHeader, Fault>(h),
{
    let b = h.to_bytes();
    let s = b + rest;
    assert(s.subrange(0, 2) =~= be16_bytes(h.sync_prefix as int));
    assert(s.subrange(3, 5) =~= be16_bytes(h.width as int));
    assert(s.subrange(5, 7) =~= be16_bytes(h.height as int));
    assert(s.subrange(8, 10) =~= be16_bytes(h.segment_length as int));
    lemma_be16_reads_back(s, 0, h.sync_prefix as int);
    lemma_be16_reads_back(s, 3, h.width as int);
    lemma_be16_reads_back(s, 5, h.height as int);
    lemma_be16_reads_back(s, 8, h.segment_length as int);
    let index: int = if h.transform_segmented {
        256 * h.total_segments + h.segment_index % 256
    } else {
        h.segment_index as int
    };
    assert(s.subrange(10, 12) =~= be16_bytes(index));
    lemma_be16_reads_back(s, 10, index);
    let b2 = 128 * flag_bit(h.priority_interleaved) + 16 * h.filter.code() + 2 * (h.decomp_levels
        % 8) + flag_bit(h.uncompressed);
    assert(s[2] == b2);
    let b7 = 4 * (h.bit_plane_count % 64) + 2 * flag_bit(h.transform_segmented) + flag_bit(
        h.interleaved_entropy,
    );
    assert(s[7] == b7);
    assert(filter_of(h.filter.code() as int) == h.filter);
}

/// Which of the passes of a bit plane a packet carries.
#[derive(Debug, Clone, Copy, PartialEq, Eq, Structural)]
pub enum BitPlanePass {
    /// Everything: raw pixels, or the combined pass of the priority order.
    Cleanup,
    /// Significance and signs.
    Significance,
    /// Refinement.
    Refinement,
}

impl BitPlanePass {
    /// The number that stands for the pass in a header.
    pub open spec fn code(self) -> u8 {
        match self {
            BitPlanePass::Cleanup => 0,
            BitPlanePass::Significance => 1,
            BitPlanePass::Refinement => 2,
        }
    }

    /// The pass that the low two bits of `v` stand for. The number 3 is
    /// reserved.
    pub fn from_bits(v: u8) -> (r: Result<Self>)
        ensures
            v % 4 < 3 ==> r is Ok && r->Ok_0.code() == v % 4,
            v % 4 == 3 ==> fails_with(r, Fault::InvalidData),
    {
        match v % 4 {
            0 => Ok(BitPlanePass::Cleanup),
            1 => Ok(BitPlanePass::Significance),
            2 => Ok(BitPlanePass::Refinement),
            _ => Err(
                IcerError::invalid(with_number("reserved bit-plane pass id ", v as u64, "").as_str()),
            ),
        }
    }
}

/// The pass that a number from 0 to 2 stands for.
pub open spec fn pass_of(v: int) -> BitPlanePass {
    if v == 0 {
        BitPlanePass::Cleanup
    } else if v == 1 {
        BitPlanePass::Significance
    } else {
        BitPlanePass::Refinement
    }
}

/// Header of a packet.
#[derive(Debug, Clone, Copy, PartialEq, Eq, Structural)]
pub struct PacketHeader {
    /// Bit plane, 0 for the most significant one; in the priority order the
    /// index of the priority group.
    pub bit_plane: u8,
    /// Pass.
    pub pass: BitPlanePass,
    /// Length of the body in bytes.
    pub body_length: u16,
    /// Minimum-loss parameter of the segment.
    pub min_loss: u8,
}

impl PacketHeader {
    /// Size of an encoded header.
    pub const ENCODED_BYTES: usize = 4;

    /// The encoded header.
    pub open spec fn to_bytes(self) -> Seq<u8> {
        seq![(4 * (self.bit_plane % 64) + self.pass.code()) as u8] + be16_bytes(
            self.body_length as int,
        ) + seq![self.min_loss]
    }
}

/// The packet header at the start of `bytes`, or why there is none.
pub open spec fn packet_header(bytes: Seq<u8>) -> core::result::Result<PacketHeader, Fault> {
    if bytes.len() < 4 {
        Err(Fault::Truncated)
    } else if bytes[0] % 4 == 3 {
        Err(Fault::InvalidData)
    } else {
        Ok(
            PacketHeader {
                bit_plane: (bytes[0] / 4) as u8,
                pass: pass_of((bytes[0] % 4) as int),
                body_length: be16(bytes, 1) as u16,
                min_loss: bytes[3],
            },
        )
    }
}

impl PacketHeader {
    /// Parse the header at the start of `bytes`. Returns it with the number of
    /// bytes it takes.
    pub fn parse(bytes: &[u8]) -> (r: Result<(Self, usize)>)
        ensures
            match packet_header(bytes@) {
                Err(f) => fails_with(r, f),
                Ok(h) => r is Ok && r->Ok_0.0 == h && r->Ok_0.1 == 4 && bytes@.len() >= 4,
            },
    {
        if bytes.len() < PacketHeader::ENCODED_BYTES {
            return Err(IcerError::Truncated);
        }
        let b0: u8 = bytes[0];
        let bit_plane: u8 = b0 / 4;
        let pass = match BitPlanePass::from_bits(b0 % 4) {
            Ok(p) => p,
            Err(e) => {
                return Err(e);
            },
        };
        let body_length: u16 = read_be16(bytes, 1);
        let min_loss: u8 = bytes[3];
        Ok(
            (
                PacketHeader { bit_plane, pass, body_length, min_loss },
                PacketHeader::ENCODED_BYTES,
            ),
        )
    }

    /// Encode the header.
    pub fn encode(&self) -> (out: [u8; 4])
        ensures
            out@ == self.to_bytes(),
    {
        let pass: u8 = match self.pass {
            BitPlanePass::Cleanup => 0,
            BitPlanePass::Significance => 1,
            BitPlanePass::Refinement => 2,
        };
        let b0: u8 = 4 * (self.bit_plane % 64) + pass;
        let out: [u8; 4] = [
            b0,
            (self.body_length / 256) as u8,
            (self.body_length % 256) as u8,
            self.min_loss,
        ];
        assert(out@ =~= self.to_bytes());
        out
    }
}

/// **A packet header gives back what was encoded**, whatever bytes follow it.
pub proof fn packet_parsing_inverts_encoding(h: PacketHeader, rest: Seq<u8>)
    requires
        h.bit_plane < 64,
    ensures
        h.to_bytes().len() == 4,
        packet_header(h.to_bytes() + rest) == Ok::<PacketHeader, Fault>(h),
{
    let s = h.to_bytes() + rest;
    assert(s.subrange(1, 3) =~= be16_bytes(h.body_length as int));
    lemma_be16_reads_back(s, 1, h.body_length as int);
    assert(s[0] == 4 * (h.bit_plane % 64) + h.pass.code());
    assert(s[3] == h.min_loss);
}

/// A packet of a segment: its header and its body.
#[derive(Debug, Clone, Copy)]
pub struct WalkedPacket<'a> {
    /// Header.
    pub header: PacketHeader,
    /// Body.
    pub body: &'a [u8],
}

/// A segment of a stream: its header, its packets and its size.
#[derive(Debug)]
pub struct WalkedSegment<'a> {
    /// Header.
    pub header: SegmentHeader,
    /// Packets.
    pub packets: Vec<WalkedPacket<'a>>,
    /// Bytes of the segment, its header among them.
    pub consumed: usize,
}

/// A packet as a value: its header and its body.
pub struct Packet {
    /// Header.
    pub header: PacketHeader,
    /// Body.
    pub body: Seq<u8>,
}

/// A segment as a value: its header and its packets.
pub struct Segment {
    /// Header.
    pub header: SegmentHeader,
    /// Packets.
    pub packets: Seq<Packet>,
}

impl<'a> WalkedPacket<'a> {
    /// The packet as a value.
    pub open spec fn packet(self) -> Packet {
        Packet { header: self.header, body: self.body@ }
    }
}

impl<'a> View for WalkedSegment<'a> {
    type V = Segment;

    open spec fn view(&self) -> Segment {
        Segment {
            header: self.header,
            packets: Seq::new(self.packets@.len(), |i: int| self.packets@[i].packet()),
        }
    }
}

/// The packets of `bytes` from `cursor` to `end`, or why they cannot be read.
pub open spec fn packets_between(bytes: Seq<u8>, cursor: int, end: int) -> core::result::Result<
    Seq<Packet>,
    Fault,
>
    decreases end - cursor,
{
    if cursor >= end || cursor < 0 {
        Ok(Seq::empty())
    } else {
        match packet_header(bytes.skip(cursor)) {
            Err(f) => Err(f),
            Ok(h) => {
                let stop = cursor + 4 + h.body_length;
                if stop > end {
                    Err(Fault::InvalidData)
                } else {
                    put_first(
                        seq![Packet { header: h, body: bytes.subrange(cursor + 4, stop) }],
                        packets_between(bytes, stop, end),
                    )
                }
            },
        }
    }
}

/// `first` before the packets of `r`.
pub open spec fn put_first(
    first: Seq<Packet>,
    r: core::result::Result<Seq<Packet>, Fault>,
) -> core::result::Result<Seq<Packet>, Fault> {
    match r {
        Err(f) => Err(f),
        Ok(rest) => Ok(first + rest),
    }
}

/// The segment at the start of `bytes`, or why there is none.
pub open spec fn segment_at_start(bytes: Seq<u8>) -> core::result::Result<Segment, Fault> {
    match segment_header(bytes) {
        Err(f) => Err(f),
        Ok(header) => if bytes.len() < 12 + header.segment_length {
            Err(Fault::Truncated)
        } else {
            match packets_between(bytes, 12, 12 + header.segment_length) {
                Err(f) => Err(f),
                Ok(packets) => Ok(Segment { header, packets }),
            }
        },
    }
}

/// Read the segment at the start of `bytes`.
pub fn walk_segment<'a>(bytes: &'a [u8]) -> (r: Result<WalkedSegment<'a>>)
    ensures
        match segment_at_start(bytes@) {
            Err(f) => fails_with(r, f),
            Ok(segment) => {
                &&& r is Ok
                &&& r->Ok_0@ == segment
                &&& r->Ok_0.consumed == 12 + segment.header.segment_length
                &&& r->Ok_0.consumed <= bytes@.len()
                &&& segment.header.valid()
            },
        },
{
    let (segment, hdr_len) = match SegmentHeader::parse(bytes) {
        Ok(v) => v,
        Err(e) => {
            return Err(e);
        },
    };
    let body_end: usize = hdr_len + segment.segment_length as usize;
    if bytes.len() < body_end {
        return Err(IcerError::Truncated);
    }
    let mut packets: Vec<WalkedPacket<'a>> = Vec::new();
    let mut cursor: usize = hdr_len;
    let ghost mut seen: Seq<Packet> = Seq::empty();
    assert(packets_between(bytes@, 12, body_end as int) == put_first(
        seen,
        packets_between(bytes@, cursor as int, body_end as int),
    )) by {
        let r = packets_between(bytes@, 12, body_end as int);
        if r is Ok {
            assert(seen + r->Ok_0 =~= r->Ok_0);
        }
    }
    while cursor < body_end
        invariant
            12 <= cursor <= body_end <= bytes@.len(),
            segment_header(bytes@) == Ok::<SegmentHeader, Fault>(segment),
            body_end == 12 + segment.segment_length,
            packets_between(bytes@, 12, body_end as int) == put_first(
                seen,
                packets_between(bytes@, cursor as int, body_end as int),
            ),
            seen.len() == packets@.len(),
            forall|i: int| 0 <= i < seen.len() ==> #[trigger] seen[i] == packets@[i].packet(),
        decreases body_end - cursor,
    {
        let tail = slice_of(bytes, cursor, bytes.len());
        assert(tail@ =~= bytes@.skip(cursor as int));
        let (packet, p_len) = match PacketHeader::parse(tail) {
            Ok(v) => v,
            Err(e) => {
                return Err(e);
            },
        };
        assert(cursor + 4 <= bytes@.len());
        let body_start: usize = cursor + p_len;
        if body_start > body_end || packet.body_length as usize > body_end - body_start {
            return Err(IcerError::invalid("packet body extends past segment boundary"));
        }
        let stop: usize = body_start + packet.body_length as usize;
        let body = slice_of(bytes, body_start, stop);
        let ghost p = Packet { header: packet, body: body@ };
        proof {
            let rest = packets_between(bytes@, stop as int, body_end as int);
            assert(packets_between(bytes@, cursor as int, body_end as int) == put_first(
                seq![p],
                rest,
            ));
            if rest is Ok {
                assert(seen + (seq![p] + rest->Ok_0) =~= seen.push(p) + rest->Ok_0);
            }
            seen = seen.push(p);
        }
        packets.push(WalkedPacket { header: packet, body });
        cursor = stop;
    }
    let w = WalkedSegment { header: segment, packets, consumed: body_end };
    assert(w@.packets =~= seen);
    assert(seen + Seq::<Packet>::empty() =~= seen);
    Ok(w)
}

} // verus!
