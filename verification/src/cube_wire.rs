//! The byte stream of a cube.
//!
//! | bytes     | field                                                     |
//! |-----------|-----------------------------------------------------------|
//! | 2         | zero, which no stream of an image starts with             |
//! | 1         | tag of cubes                                              |
//! | 1         | version                                                   |
//! | 2 + 2 + 2 | width, height, bands, each at least 1                     |
//! | 1         | bit depth, 1 to 16                                        |
//! | 1         | wavelet filter                                            |
//! | 1         | decomposition levels, 1 to 6                              |
//! | 1         | number of segments, at least 1                            |
//! | 2         | rows of a strip; 0 where the transform is segmented       |
//! | 1         | flags: bit 0 for the interleaved coder, bit 1 where the   |
//! |           | transform is segmented                                    |
//! | segments  | 1 byte index, 1 byte number of bit planes, 4 bytes mean   |
//! |           | of each band, 2 bytes number of packets, and packets of   |
//! |           | 1 byte priority, 4 bytes length and a body                |
//!
//! All fields are big-endian.

use crate::bitplane3d::{borrowed_packets, cube_packets, CodedGroup, CubePacket};
use crate::bytes::{append_bytes, be16, be16_bytes, be32, be32_bytes, push_be16, push_be32, read_be16, read_be32, slice_of};
use crate::error::{fails_with, Fault, IcerError, Result};
use crate::header::{filter_of, WaveletFilter};
use vstd::prelude::*;

verus! {

/// Leading bytes of a cube stream.
pub const CUBE_MAGIC: [u8; 4] = [0x00, 0x00, 0xC3, 0x01];

/// Bytes of the header behind [`CUBE_MAGIC`].
pub const HEADER_BODY_BYTES: usize = 13;

/// Bytes of a packet before its body.
pub const PACKET_OVERHEAD: usize = 5;

/// The header of a cube stream.
#[derive(Debug, Clone, Copy, PartialEq, Eq, Structural)]
pub struct CubeHeader {
    /// Columns.
    pub width: u16,
    /// Rows.
    pub height: u16,
    /// Bands.
    pub bands: u16,
    /// Bits of a sample.
    pub bit_depth: u8,
    /// Wavelet filter.
    pub filter: WaveletFilter,
    /// Decomposition levels.
    pub levels: u8,
    /// Number of segments.
    pub count: u8,
    /// Rows of a strip.
    pub strip: u16,
    /// The interleaved coder is used.
    pub interleaved: bool,
    /// The transform is segmented.
    pub transform: bool,
}

/// The first four bytes of a cube stream.
pub open spec fn magic_bytes() -> Seq<u8> {
    seq![0x00u8, 0x00u8, 0xC3u8, 0x01u8]
}

/// The bytes start like a cube stream.
pub open spec fn starts_cube(bytes: Seq<u8>) -> bool {
    bytes.len() >= 4 && bytes.take(4) == magic_bytes()
}

/// Whether the bytes start like a cube stream.
pub fn is_cube(bytes: &[u8]) -> (b: bool)
    ensures
        b == starts_cube(bytes@),
{
    let b: bool = bytes.len() >= 4 && bytes[0] == CUBE_MAGIC[0] && bytes[1] == CUBE_MAGIC[1]
        && bytes[2] == CUBE_MAGIC[2] && bytes[3] == CUBE_MAGIC[3];
    proof {
        if b {
            assert(bytes@.take(4) =~= magic_bytes());
        } else if bytes@.len() >= 4 && bytes@.take(4) == magic_bytes() {
            let t = bytes@.take(4);
            assert(t[0] == bytes@[0] && t[1] == bytes@[1] && t[2] == bytes@[2] && t[3]
                == bytes@[3]);
            assert(t[0] == magic_bytes()[0] && t[1] == magic_bytes()[1] && t[2]
                == magic_bytes()[2] && t[3] == magic_bytes()[3]);
        }
    }
    b
}

impl CubeHeader {
    /// The fields are in range, and strips make up the rows.
    pub open spec fn valid(self) -> bool {
        &&& self.width >= 1
        &&& self.height >= 1
        &&& self.bands >= 1
        &&& 1 <= self.bit_depth <= 16
        &&& 1 <= self.levels <= 6
        &&& self.count >= 1
        &&& if self.transform {
            self.strip == 0
        } else {
            &&& self.strip >= 1
            &&& (self.count - 1) * self.strip < self.height
            &&& self.height - (self.count - 1) * self.strip <= self.strip
        }
    }

    /// The flags.
    pub open spec fn flags(self) -> int {
        (if self.interleaved {
            1int
        } else {
            0
        }) + (if self.transform {
            2int
        } else {
            0
        })
    }

    /// The bytes of the header.
    pub open spec fn to_bytes(self) -> Seq<u8> {
        magic_bytes() + be16_bytes(self.width as int) + be16_bytes(self.height as int) + be16_bytes(
            self.bands as int,
        ) + seq![self.bit_depth, self.filter.code(), self.levels, self.count] + be16_bytes(
            self.strip as int,
        ) + seq![self.flags() as u8]
    }

    /// Append the bytes of the header.
    pub(crate) fn write(&self, out: &mut Vec<u8>)
        ensures
            final(out)@ == old(out)@ + self.to_bytes(),
    {
        append_bytes(out, &CUBE_MAGIC);
        push_be16(out, self.width);
        push_be16(out, self.height);
        push_be16(out, self.bands);
        out.push(self.bit_depth);
        out.push(self.filter.bits());
        out.push(self.levels);
        out.push(self.count);
        push_be16(out, self.strip);
        let flags: u8 = (if self.interleaved {
            1
        } else {
            0
        }) + (if self.transform {
            2
        } else {
            0
        });
        out.push(flags);
        assert(CUBE_MAGIC@ =~= magic_bytes());
        assert(out@ =~= old(out)@ + self.to_bytes());
    }
}

/// The fields of a header of 17 bytes.
pub open spec fn header_fields(bytes: Seq<u8>) -> CubeHeader {
    CubeHeader {
        width: be16(bytes, 4) as u16,
        height: be16(bytes, 6) as u16,
        bands: be16(bytes, 8) as u16,
        bit_depth: bytes[10],
        filter: filter_of(bytes[11] as int),
        levels: bytes[12],
        count: bytes[13],
        strip: be16(bytes, 14) as u16,
        interleaved: bytes[16] % 2 == 1,
        transform: bytes[16] / 2 == 1,
    }
}

/// The header at the start of a stream, or why there is none.
pub open spec fn cube_header(bytes: Seq<u8>) -> core::result::Result<CubeHeader, Fault> {
    if bytes.len() < 4 {
        Err(Fault::Truncated)
    } else if !starts_cube(bytes) {
        Err(Fault::InvalidData)
    } else if bytes.len() < 12 {
        Err(Fault::Truncated)
    } else if bytes[11] > 7 {
        Err(Fault::InvalidData)
    } else if bytes.len() < 17 {
        Err(Fault::Truncated)
    } else if bytes[16] > 3 || !header_fields(bytes).valid() {
        Err(Fault::InvalidData)
    } else {
        Ok(header_fields(bytes))
    }
}

/// Read the header at the start of a stream.
pub(crate) fn read_header(bytes: &[u8]) -> (r: Result<CubeHeader>)
    ensures
        match cube_header(bytes@) {
            Err(f) => fails_with(r, f),
            Ok(h) => r is Ok && r->Ok_0 == h,
        },
{
    if bytes.len() < 4 {
        return Err(IcerError::Truncated);
    }
    if !is_cube(bytes) {
        return Err(IcerError::invalid("not an ICER-3D cube stream"));
    }
    if bytes.len() < 12 {
        return Err(IcerError::Truncated);
    }
    let filter = match WaveletFilter::from_bits(bytes[11]) {
        Ok(f) => f,
        Err(e) => return Err(e),
    };
    assert(filter == filter_of(bytes@[11] as int));
    if bytes.len() < 17 {
        return Err(IcerError::Truncated);
    }
    let h = CubeHeader {
        width: read_be16(bytes, 4),
        height: read_be16(bytes, 6),
        bands: read_be16(bytes, 8),
        bit_depth: bytes[10],
        filter,
        levels: bytes[12],
        count: bytes[13],
        strip: read_be16(bytes, 14),
        interleaved: bytes[16] % 2 == 1,
        transform: bytes[16] / 2 == 1,
    };
    let flags: u8 = bytes[16];
    if h.width == 0 || h.height == 0 || h.bands == 0 {
        return Err(IcerError::invalid("cube dimension is zero"));
    }
    if h.bit_depth == 0 || h.bit_depth > 16 {
        return Err(IcerError::invalid("cube bit depth outside 1..=16"));
    }
    if h.levels < 1 || h.levels > 6 {
        return Err(IcerError::invalid("cube decomposition levels outside 1..=6"));
    }
    if flags > 3 {
        return Err(IcerError::invalid("reserved cube flag bits set"));
    }
    if h.count == 0 {
        return Err(IcerError::invalid("cube segment geometry is zero"));
    }
    if h.transform {
        if h.strip != 0 {
            return Err(
                IcerError::invalid("transform-domain cube stream carries a nonzero strip height"),
            );
        }
    } else {
        if h.strip == 0 {
            return Err(IcerError::invalid("cube segment geometry is zero"));
        }
        assert(0 <= (h.count - 1) * h.strip <= 254 * 0xFFFF) by (nonlinear_arith)
            requires
                1 <= h.count <= 255,
                0 <= h.strip <= 0xFFFF,
        ;
        let body: u32 = (h.count as u32 - 1) * h.strip as u32;
        if body >= h.height as u32 || h.height as u32 - body > h.strip as u32 {
            return Err(IcerError::invalid("strip layout does not tile the height"));
        }
    }
    Ok(h)
}

// ---------------------------------------------------------------------------
// Segments
// ---------------------------------------------------------------------------

/// What a segment of a cube carries.
pub struct SegmentData {
    /// Number of bit planes.
    pub q: u8,
    /// Mean of each band.
    pub means: Seq<i32>,
    /// Packets.
    pub packets: Seq<CodedGroup>,
}

/// The bytes of the first `k` means.
pub open spec fn means_bytes(means: Seq<i32>, k: int) -> Seq<u8>
    decreases k,
{
    if k <= 0 {
        Seq::empty()
    } else {
        means_bytes(means, k - 1) + be32_bytes(means[k - 1] as u32 as int)
    }
}

/// The bytes of a packet.
pub open spec fn group_bytes(g: CodedGroup) -> Seq<u8> {
    seq![g.priority] + be32_bytes(g.body.len() as int) + g.body
}

/// The bytes of the first `k` packets.
pub open spec fn groups_bytes(packets: Seq<CodedGroup>, k: int) -> Seq<u8>
    decreases k,
{
    if k <= 0 {
        Seq::empty()
    } else {
        groups_bytes(packets, k - 1) + group_bytes(packets[k - 1])
    }
}

/// The bytes of segment `index`.
pub open spec fn segment_bytes(index: int, s: SegmentData) -> Seq<u8> {
    seq![index as u8, s.q] + means_bytes(s.means, s.means.len() as int) + be16_bytes(
        s.packets.len() as int,
    ) + groups_bytes(s.packets, s.packets.len() as int)
}

/// The bytes of the first `k` segments.
pub open spec fn segments_bytes(list: Seq<SegmentData>, k: int) -> Seq<u8>
    decreases k,
{
    if k <= 0 {
        Seq::empty()
    } else {
        segments_bytes(list, k - 1) + segment_bytes(k - 1, list[k - 1])
    }
}

/// A cube stream.
pub open spec fn cube_bytes(h: CubeHeader, list: Seq<SegmentData>) -> Seq<u8> {
    h.to_bytes() + segments_bytes(list, list.len() as int)
}

/// A segment that is about to be written.
pub(crate) struct EncodedSegment {
    pub(crate) q: u8,
    pub(crate) means: Vec<i32>,
    pub(crate) packets: Vec<CubePacket>,
}

impl EncodedSegment {
    pub(crate) open spec fn data(self) -> SegmentData {
        SegmentData { q: self.q, means: self.means@, packets: cube_packets(self.packets@) }
    }
}

/// What segments carry.
pub(crate) open spec fn segment_list(v: Seq<EncodedSegment>) -> Seq<SegmentData> {
    Seq::new(v.len(), |i: int| v[i].data())
}

/// Append the bytes of a segment.
pub(crate) fn write_segment(out: &mut Vec<u8>, index: u8, s: &EncodedSegment)
    requires
        s.packets@.len() <= 0xFFFF,
        forall|i: int| 0 <= i < s.packets@.len() ==> (#[trigger] s.packets@[i]).body@.len()
            <= u32::MAX,
    ensures
        final(out)@ == old(out)@ + segment_bytes(index as int, s.data()),
{
    let ghost start = out@;
    let ghost data = s.data();
    out.push(index);
    out.push(s.q);
    let ghost head = start + seq![index, s.q];
    assert(out@ =~= head);
    assert(head + means_bytes(data.means, 0) =~= head);
    let mut i: usize = 0;
    while i < s.means.len()
        invariant
            i <= s.means@.len(),
            data == s.data(),
            out@ == head + means_bytes(data.means, i as int),
        decreases s.means@.len() - i,
    {
        push_be32(out, s.means[i] as u32);
        assert(out@ =~= head + means_bytes(data.means, i + 1));
        i = i + 1;
    }
    push_be16(out, s.packets.len() as u16);
    let ghost mid = head + means_bytes(data.means, data.means.len() as int) + be16_bytes(
        data.packets.len() as int,
    );
    assert(out@ =~= mid);
    assert(mid + groups_bytes(data.packets, 0) =~= mid);
    let mut i: usize = 0;
    while i < s.packets.len()
        invariant
            i <= s.packets@.len(),
            data == s.data(),
            forall|j: int| 0 <= j < s.packets@.len() ==> (#[trigger] s.packets@[j]).body@.len()
                <= u32::MAX,
            out@ == mid + groups_bytes(data.packets, i as int),
        decreases s.packets@.len() - i,
    {
        let p = &s.packets[i];
        assert(s.packets@[i as int].body@.len() <= u32::MAX);
        out.push(p.priority);
        push_be32(out, p.body.len() as u32);
        append_bytes(out, p.body.as_slice());
        proof {
            let g = data.packets[i as int];
            assert(out@ =~= mid + groups_bytes(data.packets, i as int) + group_bytes(g));
            assert(out@ =~= mid + groups_bytes(data.packets, i + 1));
        }
        i = i + 1;
    }
    assert(out@ =~= start + segment_bytes(index as int, data));
}

// ---------------------------------------------------------------------------
// Reading
// ---------------------------------------------------------------------------

/// The means at `pos`.
pub open spec fn means_at(bytes: Seq<u8>, pos: int, bands: int) -> Seq<i32> {
    Seq::new(bands as nat, |i: int| be32(bytes, pos + 4 * i) as u32 as i32)
}

/// Why there is no fixed part of segment `index` at `pos`.
pub open spec fn fixed_fault(bytes: Seq<u8>, pos: int, index: int, bands: int) -> Option<Fault> {
    if pos + 1 > bytes.len() {
        Some(Fault::Truncated)
    } else if bytes[pos] != index {
        Some(Fault::InvalidData)
    } else if pos + 2 > bytes.len() {
        Some(Fault::Truncated)
    } else if bytes[pos + 1] > 30 {
        Some(Fault::InvalidData)
    } else if pos + 2 + 4 * bands > bytes.len() {
        Some(Fault::Truncated)
    } else {
        None
    }
}

/// Packets that were read.
pub struct GroupsRead {
    /// The packets that are there.
    pub packets: Seq<CodedGroup>,
    /// Where the last of them ends.
    pub end: int,
    /// The bytes end before the next one.
    pub cut: bool,
}

/// The first `k` packets at `pos`.
pub open spec fn groups_read(bytes: Seq<u8>, pos: int, k: int) -> GroupsRead
    decreases k,
{
    if k <= 0 {
        GroupsRead { packets: Seq::empty(), end: pos, cut: false }
    } else {
        let before = groups_read(bytes, pos, k - 1);
        let at = before.end;
        if before.cut {
            before
        } else if at + 5 > bytes.len() || at + 5 + be32(bytes, at + 1) > bytes.len() {
            GroupsRead { cut: true, ..before }
        } else {
            let end = at + 5 + be32(bytes, at + 1);
            GroupsRead {
                packets: before.packets.push(
                    CodedGroup { priority: bytes[at], body: bytes.subrange(at + 5, end) },
                ),
                end,
                cut: false,
            }
        }
    }
}

/// A segment that was read, as far as it is there.
pub struct SegmentRead {
    /// The segment; its packets may be fewer than announced.
    pub data: Option<SegmentData>,
    /// Where it ends.
    pub end: int,
    /// Why it is not all there.
    pub fault: Option<Fault>,
}

/// Segment `index` at `pos`.
pub open spec fn segment_read(bytes: Seq<u8>, pos: int, index: int, bands: int) -> SegmentRead {
    match fixed_fault(bytes, pos, index, bands) {
        Some(f) => SegmentRead { data: None, end: pos, fault: Some(f) },
        None => {
            let q = bytes[pos + 1];
            let means = means_at(bytes, pos + 2, bands);
            let at = pos + 2 + 4 * bands;
            if at + 2 > bytes.len() {
                SegmentRead {
                    data: Some(SegmentData { q, means, packets: Seq::empty() }),
                    end: at,
                    fault: Some(Fault::Truncated),
                }
            } else {
                let r = groups_read(bytes, at + 2, be16(bytes, at));
                SegmentRead {
                    data: Some(SegmentData { q, means, packets: r.packets }),
                    end: r.end,
                    fault: if r.cut {
                        Some(Fault::Truncated)
                    } else {
                        None
                    },
                }
            }
        },
    }
}

/// Segments that were read.
pub struct Reading {
    /// The segments that are there.
    pub list: Seq<Option<SegmentData>>,
    /// Where the last of them ends.
    pub pos: int,
    /// Why the next one is not all there. What follows it cannot be found.
    pub fault: Option<Fault>,
}

/// The first `k` segments at `pos`.
pub open spec fn segments_read(bytes: Seq<u8>, pos: int, bands: int, k: int) -> Reading
    decreases k,
{
    if k <= 0 {
        Reading { list: Seq::empty(), pos, fault: None }
    } else {
        let before = segments_read(bytes, pos, bands, k - 1);
        if before.fault is Some {
            Reading { list: before.list.push(None), ..before }
        } else {
            let r = segment_read(bytes, before.pos, k - 1, bands);
            Reading { list: before.list.push(r.data), pos: r.end, fault: r.fault }
        }
    }
}

/// A segment that was read.
pub(crate) struct SegmentFields<'a> {
    pub(crate) q: u8,
    pub(crate) means: Vec<i32>,
    pub(crate) packets: Vec<(u8, &'a [u8])>,
}

impl<'a> SegmentFields<'a> {
    pub(crate) open spec fn data(self) -> SegmentData {
        SegmentData { q: self.q, means: self.means@, packets: borrowed_packets(self.packets@) }
    }
}

/// What a segment that was read carries.
pub(crate) open spec fn read_data(f: Option<SegmentFields>) -> Option<SegmentData> {
    match f {
        Some(s) => Some(s.data()),
        None => None,
    }
}

/// The fault of an error that may be there.
pub(crate) open spec fn fault_of(e: Option<IcerError>) -> Option<Fault> {
    match e {
        Some(x) => Some(x.fault()),
        None => None,
    }
}

fn read_means(bytes: &[u8], pos: usize, bands: usize) -> (means: Vec<i32>)
    requires
        pos + 4 * bands <= bytes@.len(),
    ensures
        means@ == means_at(bytes@, pos as int, bands as int),
{
    let mut means: Vec<i32> = Vec::new();
    let mut i: usize = 0;
    while i < bands
        invariant
            i <= bands,
            pos + 4 * bands <= bytes@.len(),
            means@.len() == i,
            forall|j: int| 0 <= j < i ==> #[trigger] means@[j] == means_at(
                bytes@,
                pos as int,
                bands as int,
            )[j],
        decreases bands - i,
    {
        assert(pos + 4 * i + 4 <= bytes.len());
        let v: u32 = read_be32(bytes, pos + 4 * i);
        means.push(v as i32);
        i = i + 1;
    }
    assert(means@ =~= means_at(bytes@, pos as int, bands as int));
    means
}

proof fn lemma_groups_stay_cut(bytes: Seq<u8>, pos: int, j: int, k: int)
    requires
        0 <= j <= k,
        groups_read(bytes, pos, j).cut,
    ensures
        groups_read(bytes, pos, k) == groups_read(bytes, pos, j),
    decreases k - j,
{
    if j < k {
        lemma_groups_stay_cut(bytes, pos, j, k - 1);
    }
}

fn read_groups<'a>(bytes: &'a [u8], pos: usize, count: usize) -> (r: (
    Vec<(u8, &'a [u8])>,
    usize,
    bool,
))
    requires
        pos <= bytes@.len(),
    ensures
        ({
            let g = groups_read(bytes@, pos as int, count as int);
            &&& borrowed_packets(r.0@) == g.packets
            &&& r.1 == g.end
            &&& r.2 == g.cut
            &&& r.1 <= bytes@.len()
        }),
{
    let mut packets: Vec<(u8, &'a [u8])> = Vec::new();
    let mut at: usize = pos;
    let mut k: usize = 0;
    assert(borrowed_packets(packets@) =~= Seq::empty());
    while k < count
        invariant
            k <= count,
            at <= bytes@.len(),
            ({
                let g = groups_read(bytes@, pos as int, k as int);
                &&& borrowed_packets(packets@) == g.packets
                &&& at == g.end
                &&& !g.cut
            }),
        decreases count - k,
    {
        let left: usize = bytes.len() - at;
        let mut fits: bool = left >= 5;
        let mut len: usize = 0;
        if fits {
            let n: u32 = read_be32(bytes, at + 1);
            fits = n as u64 <= (left - 5) as u64;
            if fits {
                len = n as usize;
            }
        }
        if !fits {
            proof {
                lemma_groups_stay_cut(bytes@, pos as int, k + 1, count as int);
            }
            return (packets, at, true);
        }
        let body = slice_of(bytes, at + 5, at + 5 + len);
        let ghost old_packets = packets@;
        packets.push((bytes[at], body));
        assert(borrowed_packets(packets@) =~= borrowed_packets(old_packets).push(
            CodedGroup { priority: bytes@[at as int], body: body@ },
        ));
        at = at + 5 + len;
        k = k + 1;
    }
    (packets, at, false)
}

/// Read segment `index` at `pos`, as far as it is there.
pub(crate) fn read_segment<'a>(bytes: &'a [u8], pos: usize, index: usize, bands: usize) -> (r: (
    Option<SegmentFields<'a>>,
    usize,
    Option<IcerError>,
))
    requires
        pos <= bytes@.len(),
        bands <= 0xFFFF,
    ensures
        ({
            let s = segment_read(bytes@, pos as int, index as int, bands as int);
            &&& read_data(r.0) == s.data
            &&& r.1 == s.end
            &&& fault_of(r.2) == s.fault
            &&& r.1 <= bytes@.len()
            &&& r.0 matches Some(f) ==> f.q <= 30 && f.means@.len() == bands
        }),
{
    let left: usize = bytes.len() - pos;
    if left < 1 {
        return (None, pos, Some(IcerError::Truncated));
    }
    if bytes[pos] as usize != index {
        return (None, pos, Some(IcerError::invalid("segment index out of order")));
    }
    if left < 2 {
        return (None, pos, Some(IcerError::Truncated));
    }
    let q: u8 = bytes[pos + 1];
    if q > 30 {
        return (None, pos, Some(IcerError::invalid("bit-plane count above 30")));
    }
    if left - 2 < 4 * bands {
        return (None, pos, Some(IcerError::Truncated));
    }
    let means = read_means(bytes, pos + 2, bands);
    let at: usize = pos + 2 + 4 * bands;
    if bytes.len() - at < 2 {
        let packets: Vec<(u8, &'a [u8])> = Vec::new();
        assert(borrowed_packets(packets@) =~= Seq::empty());
        return (Some(SegmentFields { q, means, packets }), at, Some(IcerError::Truncated));
    }
    let count: u16 = read_be16(bytes, at);
    let (packets, end, cut) = read_groups(bytes, at + 2, count as usize);
    let fault = if cut {
        Some(IcerError::Truncated)
    } else {
        None
    };
    (Some(SegmentFields { q, means, packets }), end, fault)
}

/// What segments that were read carry.
pub(crate) open spec fn read_list(v: Seq<Option<SegmentFields>>) -> Seq<Option<SegmentData>> {
    Seq::new(v.len(), |i: int| read_data(v[i]))
}

/// Read `count` segments at `pos`, as far as they are there.
pub(crate) fn read_segments<'a>(bytes: &'a [u8], pos: usize, bands: usize, count: usize) -> (r: (
    Vec<Option<SegmentFields<'a>>>,
    Option<IcerError>,
))
    requires
        pos <= bytes@.len(),
        bands <= 0xFFFF,
    ensures
        ({
            let s = segments_read(bytes@, pos as int, bands as int, count as int);
            &&& read_list(r.0@) == s.list
            &&& fault_of(r.1) == s.fault
            &&& r.0@.len() == count
            &&& forall|i: int|
                0 <= i < count ==> ((#[trigger] r.0@[i]) matches Some(f) ==> f.q <= 30
                    && f.means@.len() == bands)
        }),
{
    let mut list: Vec<Option<SegmentFields<'a>>> = Vec::new();
    let mut at: usize = pos;
    let mut fault: Option<IcerError> = None;
    let mut k: usize = 0;
    assert(read_list(list@) =~= Seq::empty());
    while k < count
        invariant
            k <= count,
            at <= bytes@.len(),
            bands <= 0xFFFF,
            ({
                let s = segments_read(bytes@, pos as int, bands as int, k as int);
                &&& read_list(list@) == s.list
                &&& at == s.pos
                &&& fault_of(fault) == s.fault
            }),
            list@.len() == k,
            forall|i: int|
                0 <= i < k ==> ((#[trigger] list@[i]) matches Some(f) ==> f.q <= 30
                    && f.means@.len() == bands),
        decreases count - k,
    {
        let ghost old_list = list@;
        if fault.is_some() {
            list.push(None);
            assert(read_list(list@) =~= read_list(old_list).push(None));
        } else {
            let (data, end, problem) = read_segment(bytes, at, k, bands);
            list.push(data);
            assert(read_list(list@) =~= read_list(old_list).push(read_data(data)));
            at = end;
            fault = problem;
        }
        k = k + 1;
    }
    (list, fault)
}

} // verus!
