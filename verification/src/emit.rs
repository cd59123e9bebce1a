//! From coded packets to the bytes of segments.
//!
//! A quota limits the bytes of a segment. The hard limit is never passed: the
//! first packet that would pass it ends the segment. The soft limit lets the
//! bit plane in which it is reached be finished.

use crate::bitplane::{coded_views, find_packet, index_from, Coded, EncodedPacket};
use crate::bytes::append_bytes;
use crate::decoder::{counted, pixels_of, segment_bytes, segments_from, stream_segments, DecodeLimits};
use crate::error::{fails_with, Fault, IcerError, Result};
use crate::header::{packet_parsing_inverts_encoding, packets_between, parsing_inverts_encoding, segment_at_start, BitPlanePass, Packet, PacketHeader, Segment};
use crate::text::with_number;
use vstd::prelude::*;

verus! {

// ---------------------------------------------------------------------------
// Bytes of packets, segments and streams
// ---------------------------------------------------------------------------

/// The bytes of packets one after the other.
pub open spec fn packets_bytes(packets: Seq<Packet>) -> Seq<u8>
    decreases packets.len(),
{
    if packets.len() == 0 {
        Seq::empty()
    } else {
        packets_bytes(packets.drop_last()) + packets.last().header.to_bytes()
            + packets.last().body
    }
}

/// The bytes of a segment.
pub open spec fn segment_stream(s: Segment) -> Seq<u8> {
    s.header.to_bytes() + packets_bytes(s.packets)
}

/// The bytes of segments one after the other.
pub open spec fn stream_of(segments: Seq<Segment>) -> Seq<u8>
    decreases segments.len(),
{
    if segments.len() == 0 {
        Seq::empty()
    } else {
        stream_of(segments.drop_last()) + segment_stream(segments.last())
    }
}

/// A packet whose header tells the truth and can be carried.
pub open spec fn packet_ok(p: Packet) -> bool {
    p.header.bit_plane < 64 && p.header.body_length == p.body.len()
}

/// A segment whose headers tell the truth and can be carried.
pub open spec fn segment_ok(s: Segment) -> bool {
    &&& s.header.valid()
    &&& s.header.segment_length == packets_bytes(s.packets).len()
    &&& forall|i: int| 0 <= i < s.packets.len() ==> packet_ok(#[trigger] s.packets[i])
}

pub proof fn lemma_packets_join(a: Seq<Packet>, b: Seq<Packet>)
    ensures
        packets_bytes(a + b) == packets_bytes(a) + packets_bytes(b),
    decreases b.len(),
{
    if b.len() == 0 {
        assert(a + b =~= a);
        assert(packets_bytes(a) + packets_bytes(b) =~= packets_bytes(a));
    } else {
        lemma_packets_join(a, b.drop_last());
        assert((a + b).drop_last() =~= a + b.drop_last());
        assert(packets_bytes(a + b) =~= packets_bytes(a) + packets_bytes(b));
    }
}

/// The packets that lie in `bytes` from `cursor` on read back.
proof fn lemma_packets_between(bytes: Seq<u8>, packets: Seq<Packet>, cursor: int, end: int)
    requires
        0 <= cursor,
        end <= bytes.len(),
        end == cursor + packets_bytes(packets).len(),
        bytes.subrange(cursor, end) == packets_bytes(packets),
        forall|i: int| 0 <= i < packets.len() ==> packet_ok(#[trigger] packets[i]),
    ensures
        packets_between(bytes, cursor, end) == Ok::<Seq<Packet>, Fault>(packets),
    decreases packets.len(),
{
    if packets.len() == 0 {
        assert(packets =~= Seq::empty());
    } else {
        let p = packets[0];
        let rest = packets.skip(1);
        assert(seq![p] + rest =~= packets);
        lemma_packets_join(seq![p], rest);
        assert(seq![p].drop_last() =~= Seq::empty());
        let first = packets_bytes(seq![p]);
        assert(packets_bytes(Seq::<Packet>::empty()) =~= Seq::empty());
        assert(first =~= p.header.to_bytes() + p.body);
        let tail = bytes.skip(cursor);
        let h = p.header.to_bytes();
        assert(packet_ok(p));
        packet_parsing_inverts_encoding(p.header, tail.skip(4));
        let all = packets_bytes(packets);
        assert(all.take(4) =~= h);
        assert forall|i: int| 0 <= i < all.len() implies bytes[cursor + i] == all[i] by {
            assert(bytes.subrange(cursor, end)[i] == all[i]);
        }
        assert(tail =~= h + tail.skip(4));
        let stop = cursor + 4 + p.header.body_length;
        assert(bytes.subrange(cursor + 4, stop) =~= p.body) by {
            assert forall|i: int| 0 <= i < p.body.len() implies bytes[cursor + 4 + i] == p.body[i] by {
                assert(all[4 + i] == first[4 + i]);
            }
        }
        assert(bytes.subrange(stop, end) =~= packets_bytes(rest)) by {
            let r = packets_bytes(rest);
            assert forall|i: int| 0 <= i < r.len() implies bytes[stop + i] == r[i] by {
                assert(all[first.len() + i] == r[i]);
            }
        }
        assert forall|i: int| 0 <= i < rest.len() implies packet_ok(#[trigger] rest[i]) by {
            assert(rest[i] == packets[i + 1]);
        }
        lemma_packets_between(bytes, rest, stop, end);
    }
}

/// **A segment reads back**, whatever follows it.
pub proof fn segment_reads_back(s: Segment, rest: Seq<u8>)
    requires
        segment_ok(s),
    ensures
        segment_at_start(segment_stream(s) + rest) == Ok::<Segment, Fault>(s),
        segment_stream(s).len() == segment_bytes(s),
{
    let bytes = segment_stream(s) + rest;
    let body = packets_bytes(s.packets);
    parsing_inverts_encoding(s.header, body + rest);
    assert(bytes =~= s.header.to_bytes() + (body + rest));
    assert(bytes.subrange(12, 12 + body.len() as int) =~= body);
    lemma_packets_between(bytes, s.packets, 12, 12 + body.len() as int);
}

/// Number of samples of the first `k` segments.
pub open spec fn pixels_until(segments: Seq<Segment>, k: int) -> int
    decreases k,
{
    if k <= 0 {
        0
    } else {
        pixels_until(segments, k - 1) + pixels_of(segments[k - 1].header)
    }
}

/// The segments lie within the limits.
pub open spec fn within_limits(segments: Seq<Segment>, limits: DecodeLimits) -> bool {
    &&& forall|i: int|
        0 <= i < segments.len() ==> pixels_of((#[trigger] segments[i]).header)
            <= limits.max_pixels_per_segment
    &&& pixels_until(segments, segments.len() as int) <= limits.max_total_pixels
}

proof fn lemma_pixels_grow(segments: Seq<Segment>, j: int, k: int)
    requires
        0 <= j <= k,
    ensures
        0 <= pixels_until(segments, j) <= pixels_until(segments, k),
    decreases k,
{
    let h = segments[k - 1].header;
    assert(h.width * h.height >= 0) by (nonlinear_arith)
        requires
            h.width >= 0,
            h.height >= 0,
    ;
    if k > j {
        lemma_pixels_grow(segments, j, k - 1);
    } else if k > 0 {
        lemma_pixels_grow(segments, k - 1, k - 1);
    }
}

proof fn lemma_stream_take(segments: Seq<Segment>, k: int)
    requires
        0 <= k <= segments.len(),
    ensures
        stream_of(segments.take(k)).len() <= stream_of(segments).len(),
        stream_of(segments).take(stream_of(segments.take(k)).len() as int) == stream_of(
            segments.take(k),
        ),
    decreases segments.len(),
{
    let all = stream_of(segments);
    if k == segments.len() {
        assert(segments.take(k) =~= segments);
        assert(all.take(all.len() as int) =~= all);
    } else {
        lemma_stream_take(segments.drop_last(), k);
        assert(segments.drop_last().take(k) =~= segments.take(k));
        let a = stream_of(segments.take(k));
        assert(all.take(a.len() as int) =~= stream_of(segments.drop_last()).take(a.len() as int));
    }
}

/// Segment `k` stands in the stream behind those before it.
proof fn lemma_segment_in_stream(segments: Seq<Segment>, k: int)
    requires
        0 <= k < segments.len(),
        segment_ok(segments[k]),
    ensures
        ({
            let cursor = stream_of(segments.take(k)).len() as int;
            &&& cursor < stream_of(segments).len()
            &&& segment_at_start(stream_of(segments).skip(cursor)) == Ok::<Segment, Fault>(
                segments[k],
            )
            &&& cursor + segment_bytes(segments[k]) == stream_of(segments.take(k + 1)).len()
        }),
{
    let bytes = stream_of(segments);
    let s = segments[k];
    let cursor = stream_of(segments.take(k)).len() as int;
    assert(segments.take(k + 1).drop_last() =~= segments.take(k));
    lemma_stream_take(segments, k + 1);
    let upto = stream_of(segments.take(k + 1));
    let tail = bytes.skip(cursor);
    let own = segment_stream(s);
    segment_reads_back(s, tail.skip(segment_bytes(s)));
    assert(upto == stream_of(segments.take(k)) + own);
    assert(tail =~= own + tail.skip(segment_bytes(s))) by {
        assert forall|i: int| 0 <= i < segment_bytes(s) implies tail[i] == own[i] by {
            assert(bytes.take(upto.len() as int)[cursor + i] == upto[cursor + i]);
        }
    }
}

proof fn lemma_segments_from(segments: Seq<Segment>, limits: DecodeLimits, k: int)
    requires
        0 <= k <= segments.len(),
        forall|i: int| 0 <= i < segments.len() ==> segment_ok(#[trigger] segments[i]),
        within_limits(segments, limits),
    ensures
        segments_from(
            stream_of(segments),
            stream_of(segments.take(k)).len() as int,
            pixels_until(segments, k),
            limits,
        ) == Ok::<Seq<Segment>, Fault>(segments.skip(k)),
    decreases segments.len() - k,
{
    let bytes = stream_of(segments);
    let cursor = stream_of(segments.take(k)).len() as int;
    if k == segments.len() {
        assert(segments.take(k) =~= segments);
        assert(segments.skip(k) =~= Seq::empty());
    } else {
        let s = segments[k];
        assert(segment_ok(s));
        lemma_segment_in_stream(segments, k);
        lemma_pixels_grow(segments, k + 1, segments.len() as int);
        lemma_segments_from(segments, limits, k + 1);
        let rest = segments.skip(k + 1);
        assert(seq![s] + rest =~= segments.skip(k));
        assert(counted(pixels_until(segments, k), pixels_of(s.header), limits) == Ok::<int, Fault>(
            pixels_until(segments, k + 1),
        ));
    }
}

/// **A stream of segments reads back**, within limits that allow its size.
pub proof fn stream_reads_back(segments: Seq<Segment>, limits: DecodeLimits)
    requires
        forall|i: int| 0 <= i < segments.len() ==> segment_ok(#[trigger] segments[i]),
        within_limits(segments, limits),
    ensures
        stream_segments(stream_of(segments), limits) == Ok::<Seq<Segment>, Fault>(segments),
{
    lemma_segments_from(segments, limits, 0);
    assert(segments.take(0) =~= Seq::empty());
    assert(segments.skip(0) =~= segments);
}

// ---------------------------------------------------------------------------
// Quotas
// ---------------------------------------------------------------------------

/// How many bytes a segment may have, its header among them.
#[derive(Debug, Clone, Copy, PartialEq, Eq, Structural)]
pub struct Quota {
    /// Hard limit.
    pub budget: Option<u64>,
    /// Soft limit.
    pub target: Option<u64>,
}

impl Quota {
    /// A segment with a body of `n` bytes passes the hard limit.
    pub open spec fn exceeded(self, n: int) -> bool {
        self.budget matches Some(b) && 12 + n > b
    }

    /// A segment with a body of `n` bytes reaches the soft limit.
    pub open spec fn reached(self, n: int) -> bool {
        self.target matches Some(t) && 12 + n >= t
    }

    fn is_exceeded(&self, n: usize, more: usize) -> (r: bool)
        ensures
            r == self.exceeded(n + more),
    {
        match self.budget {
            Some(b) => 12u128 + n as u128 + more as u128 > b as u128,
            None => false,
        }
    }

    fn is_reached(&self, n: usize) -> (r: bool)
        ensures
            r == self.reached(n as int),
    {
        match self.target {
            Some(t) => 12u128 + n as u128 >= t as u128,
            None => false,
        }
    }
}

/// The packets that a segment has so far.
pub struct Emission {
    /// The packets.
    pub packets: Seq<Packet>,
    /// The bit plane in which the soft limit was reached.
    pub soft: Option<int>,
    /// No packet follows.
    pub done: bool,
}

/// A coded packet of a bit plane as a packet of a segment.
pub open spec fn plane_packet(c: Coded, min_loss: u8) -> Packet {
    Packet {
        header: PacketHeader {
            bit_plane: c.bit_plane,
            pass: if c.is_significance {
                BitPlanePass::Significance
            } else {
                BitPlanePass::Refinement
            },
            body_length: c.body.len() as u16,
            min_loss,
        },
        body: c.body,
    }
}

/// A coded packet of the priority order as a packet of a segment.
pub open spec fn group_packet(c: Coded, min_loss: u8) -> Packet {
    Packet {
        header: PacketHeader {
            bit_plane: c.bit_plane,
            pass: BitPlanePass::Cleanup,
            body_length: c.body.len() as u16,
            min_loss,
        },
        body: c.body,
    }
}

/// The packets of a segment after `s` steps. Step `2 b` is that of the
/// significance packet of bit plane `b`, and the step behind it that of its
/// refinement packet. Bit planes whose lowest bit lies below `floor` are left
/// out. Where a choice of packets is given, packets that were not chosen are
/// left out, and one that would pass the hard limit ends nothing.
pub open spec fn planes_emitted(
    packets: Seq<Coded>,
    q: u8,
    min_loss: u8,
    quota: Quota,
    floor: u8,
    chosen: Option<Seq<bool>>,
    s: int,
) -> core::result::Result<Emission, Fault>
    decreases s,
{
    if s <= 0 {
        Ok(Emission { packets: Seq::empty(), soft: None, done: false })
    } else {
        match planes_emitted(packets, q, min_loss, quota, floor, chosen, s - 1) {
            Err(f) => Err(f),
            Ok(e) => {
                let plane = (s - 1) / 2;
                let is_significance = (s - 1) % 2 == 0;
                if e.done {
                    Ok(e)
                } else if (e.soft matches Some(b) && plane > b) || q - 1 - plane < floor {
                    Ok(Emission { done: true, ..e })
                } else {
                    match index_from(packets, plane as u8, is_significance, 0) {
                        None => Ok(e),
                        Some(i) => if chosen is Some && !chosen->0[i] {
                            Ok(e)
                        } else if packets[i].body.len() > 0xFFFF {
                            Err(Fault::Unsupported)
                        } else {
                            let more = e.packets.push(plane_packet(packets[i], min_loss));
                            if quota.exceeded(packets_bytes(more).len() as int) {
                                Ok(Emission { done: chosen is None, ..e })
                            } else {
                                Ok(
                                    Emission {
                                        packets: more,
                                        soft: if e.soft is None && quota.reached(
                                            packets_bytes(more).len() as int,
                                        ) {
                                            Some(plane)
                                        } else {
                                            e.soft
                                        },
                                        done: false,
                                    },
                                )
                            }
                        },
                    }
                }
            },
        }
    }
}

/// A list of packets that fits into a segment.
pub open spec fn fitting_body(r: core::result::Result<Emission, Fault>) -> core::result::Result<
    Seq<Packet>,
    Fault,
> {
    match r {
        Err(f) => Err(f),
        Ok(e) => if packets_bytes(e.packets).len() > 0xFFFF {
            Err(Fault::Unsupported)
        } else {
            Ok(e.packets)
        },
    }
}

/// The packets of a segment in the order of its bit planes, or why there are
/// none.
pub open spec fn planes_body(
    packets: Seq<Coded>,
    q: u8,
    min_loss: u8,
    quota: Quota,
    floor: u8,
    chosen: Option<Seq<bool>>,
) -> core::result::Result<Seq<Packet>, Fault> {
    fitting_body(planes_emitted(packets, q, min_loss, quota, floor, chosen, 2 * q))
}

/// The packets of a segment after the first `k` of the priority order.
pub open spec fn groups_emitted(packets: Seq<Coded>, min_loss: u8, quota: Quota, k: int) -> core::result::Result<
    Emission,
    Fault,
>
    decreases k,
{
    if k <= 0 {
        Ok(Emission { packets: Seq::empty(), soft: None, done: false })
    } else {
        match groups_emitted(packets, min_loss, quota, k - 1) {
            Err(f) => Err(f),
            Ok(e) => if e.done {
                Ok(e)
            } else if packets[k - 1].body.len() > 0xFFFF {
                Err(Fault::Unsupported)
            } else {
                let more = e.packets.push(group_packet(packets[k - 1], min_loss));
                let n = packets_bytes(more).len() as int;
                if quota.exceeded(n) {
                    Ok(Emission { done: true, ..e })
                } else {
                    Ok(Emission { packets: more, soft: None, done: quota.reached(n) })
                }
            },
        }
    }
}

/// The packets of a segment in the priority order, or why there are none.
pub open spec fn groups_body(packets: Seq<Coded>, min_loss: u8, quota: Quota) -> core::result::Result<
    Seq<Packet>,
    Fault,
> {
    fitting_body(groups_emitted(packets, min_loss, quota, packets.len() as int))
}

proof fn lemma_planes_done(
    packets: Seq<Coded>,
    q: u8,
    min_loss: u8,
    quota: Quota,
    floor: u8,
    chosen: Option<Seq<bool>>,
    s: int,
    n: int,
)
    requires
        0 <= s <= n,
        planes_emitted(packets, q, min_loss, quota, floor, chosen, s) is Err || planes_emitted(
            packets,
            q,
            min_loss,
            quota,
            floor,
            chosen,
            s,
        )->Ok_0.done,
    ensures
        planes_emitted(packets, q, min_loss, quota, floor, chosen, n) == planes_emitted(
            packets,
            q,
            min_loss,
            quota,
            floor,
            chosen,
            s,
        ),
    decreases n,
{
    if n > s {
        lemma_planes_done(packets, q, min_loss, quota, floor, chosen, s, n - 1);
    }
}

proof fn lemma_groups_done(packets: Seq<Coded>, min_loss: u8, quota: Quota, s: int, n: int)
    requires
        0 <= s <= n,
        groups_emitted(packets, min_loss, quota, s) is Err || groups_emitted(
            packets,
            min_loss,
            quota,
            s,
        )->Ok_0.done,
    ensures
        groups_emitted(packets, min_loss, quota, n) == groups_emitted(packets, min_loss, quota, s),
    decreases n,
{
    if n > s {
        lemma_groups_done(packets, min_loss, quota, s, n - 1);
    }
}

fn append_packet(body: &mut Vec<u8>, header: &PacketHeader, bytes: &Vec<u8>)
    ensures
        final(body)@ == old(body)@ + header.to_bytes() + bytes@,
{
    let head = header.encode();
    append_bytes(body, head.as_slice());
    append_bytes(body, bytes.as_slice());
}

fn oversized<T>(what: &str, n: usize) -> (r: Result<T>)
    ensures
        fails_with(r, Fault::Unsupported),
{
    Err(IcerError::Unsupported(with_number(what, n as u64, " exceeds u16 limit")))
}

/// The bytes of a segment in the order of its bit planes.
pub(crate) fn serialize_packets_msb_down(
    packets: &Vec<EncodedPacket>,
    q: u8,
    min_loss: u8,
    quota: Quota,
    floor: u8,
    chosen: Option<&Vec<bool>>,
) -> (r: Result<Vec<u8>>)
    requires
        q <= 31,
        chosen matches Some(c) ==> c@.len() == packets@.len(),
    ensures
        ({
            let mask = match chosen {
                Some(c) => Some(c@),
                None => None,
            };
            match planes_body(coded_views(packets@), q, min_loss, quota, floor, mask) {
                Err(f) => fails_with(r, f),
                Ok(list) => r is Ok && r->Ok_0@ == packets_bytes(list) && r->Ok_0@.len() <= 0xFFFF,
            }
        }),
{
    let ghost mask = match chosen {
        Some(c) => Some(c@),
        None => None,
    };
    let ghost all = coded_views(packets@);
    let mut body: Vec<u8> = Vec::new();
    let mut soft: u8 = 255;
    let mut done: bool = false;
    let ghost mut list: Seq<Packet> = Seq::empty();
    let mut s: u8 = 0;
    while s < 2 * q && !done
        invariant
            s <= 2 * q <= 62,
            all == coded_views(packets@),
            chosen matches Some(c) ==> c@.len() == packets@.len() && mask == Some(c@),
            chosen is None ==> mask is None,
            planes_emitted(all, q, min_loss, quota, floor, mask, s as int) == Ok::<
                Emission,
                Fault,
            >(
                Emission {
                    packets: list,
                    soft: if soft == 255 {
                        None
                    } else {
                        Some(soft as int)
                    },
                    done,
                },
            ),
            soft == 255 || soft < 31,
            body@ == packets_bytes(list),
        decreases 2 * q - s,
    {
        let plane: u8 = s / 2;
        let is_significance: bool = s % 2 == 0;
        s = s + 1;
        assert((s - 1) / 2 == plane && ((s - 1) % 2 == 0) == is_significance);
        if plane > soft || q - 1 - plane < floor {
            done = true;
        } else {
            match find_packet(packets.as_slice(), plane, is_significance) {
                None => {},
                Some(i) => {
                    assert(all[i as int] == packets@[i as int]@);
                    let wanted: bool = match chosen {
                        Some(c) => c[i],
                        None => true,
                    };
                    if wanted {
                        let n: usize = packets[i].body.len();
                        if n > 0xFFFF {
                            proof {
                                lemma_planes_done(
                                    all,
                                    q,
                                    min_loss,
                                    quota,
                                    floor,
                                    mask,
                                    s as int,
                                    2 * q,
                                );
                            }
                            return oversized("packet body ", n);
                        }
                        let ghost p = plane_packet(all[i as int], min_loss);
                        proof {
                            assert(list.push(p).drop_last() =~= list);
                            assert(packets_bytes(list.push(p)) == packets_bytes(list)
                                + p.header.to_bytes() + p.body);
                            assert(p.header.to_bytes().len() == 4);
                        }
                        if quota.is_exceeded(body.len(), 4 + n) {
                            match chosen {
                                None => {
                                    done = true;
                                },
                                Some(_) => {},
                            }
                        } else {
                            let header = PacketHeader {
                                bit_plane: packets[i].bit_plane,
                                pass: if packets[i].is_significance {
                                    BitPlanePass::Significance
                                } else {
                                    BitPlanePass::Refinement
                                },
                                body_length: n as u16,
                                min_loss,
                            };
                            append_packet(&mut body, &header, &packets[i].body);
                            proof {
                                list = list.push(p);
                            }
                            if soft == 255 && quota.is_reached(body.len()) {
                                soft = plane;
                            }
                        }
                    }
                },
            }
        }
    }
    proof {
        if done {
            lemma_planes_done(all, q, min_loss, quota, floor, mask, s as int, 2 * q);
        }
    }
    if body.len() > 0xFFFF {
        return oversized("compressed segment body ", body.len());
    }
    Ok(body)
}

/// The bytes of a segment in the priority order.
pub(crate) fn serialize_priority_packets(
    packets: &Vec<EncodedPacket>,
    min_loss: u8,
    quota: Quota,
) -> (r: Result<Vec<u8>>)
    ensures
        match groups_body(coded_views(packets@), min_loss, quota) {
            Err(f) => fails_with(r, f),
            Ok(list) => r is Ok && r->Ok_0@ == packets_bytes(list) && r->Ok_0@.len() <= 0xFFFF,
        },
{
    let ghost all = coded_views(packets@);
    let mut body: Vec<u8> = Vec::new();
    let mut done: bool = false;
    let ghost mut list: Seq<Packet> = Seq::empty();
    let mut k: usize = 0;
    while k < packets.len() && !done
        invariant
            k <= packets@.len(),
            all == coded_views(packets@),
            groups_emitted(all, min_loss, quota, k as int) == Ok::<Emission, Fault>(
                Emission { packets: list, soft: None, done },
            ),
            body@ == packets_bytes(list),
        decreases packets@.len() - k,
    {
        let n: usize = packets[k].body.len();
        assert(all[k as int] == packets@[k as int]@);
        if n > 0xFFFF {
            proof {
                lemma_groups_done(all, min_loss, quota, k + 1, all.len() as int);
            }
            return oversized("packet body ", n);
        }
        let ghost p = group_packet(all[k as int], min_loss);
        proof {
            assert(list.push(p).drop_last() =~= list);
            assert(packets_bytes(list.push(p)) == packets_bytes(list) + p.header.to_bytes()
                + p.body);
            assert(p.header.to_bytes().len() == 4);
        }
        if quota.is_exceeded(body.len(), 4 + n) {
            done = true;
        } else {
            let header = PacketHeader {
                bit_plane: packets[k].bit_plane,
                pass: BitPlanePass::Cleanup,
                body_length: n as u16,
                min_loss,
            };
            append_packet(&mut body, &header, &packets[k].body);
            proof {
                list = list.push(p);
            }
            if quota.is_reached(body.len()) {
                done = true;
            }
        }
        k = k + 1;
    }
    proof {
        if done {
            lemma_groups_done(all, min_loss, quota, k as int, all.len() as int);
        }
    }
    if body.len() > 0xFFFF {
        return oversized("compressed segment body ", body.len());
    }
    Ok(body)
}

} // verus!
