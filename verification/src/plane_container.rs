//! Container framing for images that are not one plane of 8-bit luma.
//!
//! A container holds one complete single-plane stream for each plane:
//!
//! | bytes | field                                                   |
//! |-------|---------------------------------------------------------|
//! | 2     | sentinel, zero                                          |
//! | 1     | format tag: 0 gray, 1 colour, 2 deep gray               |
//! | 1     | number of planes                                        |
//! | 0 / 1 | bit depth, for deep gray only                           |
//! | 4 * n | length of each stream, big-endian                       |
//! | ...   | the streams                                             |
//!
//! A single-plane stream starts with a synchronisation prefix that is never
//! zero, so the sentinel tells the two apart.

use crate::bytes::{append_bytes, be32, be32_bytes, lemma_be32_reads_back, push_be16, push_be32, read_be16, read_be32, slice_of};
use crate::error::{fails_with, Fault, IcerError, Result};
use crate::image::IcerPixelFormat;
use crate::text::{with_number, with_numbers};
use vstd::prelude::*;

verus! {

/// First two bytes of a container.
pub const CONTAINER_SENTINEL: u16 = 0;

/// Size of the header before the bit depth and the stream lengths.
const FIXED_PREFIX_BYTES: usize = 4;

/// Framing bytes of a deep gray container round its stream.
pub const DEEP_GRAY_OVERHEAD: usize = 9;

/// Format tag of a pixel format.
pub open spec fn format_tag_of(format: IcerPixelFormat) -> u8 {
    match format {
        IcerPixelFormat::Gray8 => 0,
        IcerPixelFormat::Yuv444P => 1,
        IcerPixelFormat::GrayDeep { .. } => 2,
    }
}

/// The bit depth of a deep format lies in its range.
pub open spec fn depth_ok(format: IcerPixelFormat) -> bool {
    match format {
        IcerPixelFormat::GrayDeep { bits } => 9 <= bits <= 16,
        _ => true,
    }
}

/// Where the table of stream lengths starts.
pub open spec fn table_start(format: IcerPixelFormat) -> int {
    match format {
        IcerPixelFormat::GrayDeep { .. } => 5,
        _ => 4,
    }
}

/// The header of a container up to the stream lengths.
pub open spec fn prefix_bytes(format: IcerPixelFormat) -> Seq<u8> {
    let fixed = seq![0u8, 0u8, format_tag_of(format), format.planes() as u8];
    match format {
        IcerPixelFormat::GrayDeep { bits } => fixed.push(bits),
        _ => fixed,
    }
}

/// The table of stream lengths.
pub open spec fn length_table(streams: Seq<Seq<u8>>) -> Seq<u8>
    decreases streams.len(),
{
    if streams.len() == 0 {
        Seq::empty()
    } else {
        length_table(streams.drop_last()) + be32_bytes(streams.last().len() as int)
    }
}

/// The streams one after the other.
pub open spec fn joined(streams: Seq<Seq<u8>>) -> Seq<u8>
    decreases streams.len(),
{
    if streams.len() == 0 {
        Seq::empty()
    } else {
        joined(streams.drop_last()) + streams.last()
    }
}

/// The container of `streams`.
pub open spec fn container_bytes(format: IcerPixelFormat, streams: Seq<Seq<u8>>) -> Seq<u8> {
    prefix_bytes(format) + length_table(streams) + joined(streams)
}

/// The byte strings that a slice of vectors holds.
pub open spec fn views(v: Seq<Vec<u8>>) -> Seq<Seq<u8>> {
    Seq::new(v.len(), |i: int| v[i]@)
}

/// Some stream is too long for its length field.
pub open spec fn some_oversized(streams: Seq<Seq<u8>>) -> bool {
    exists|i: int| 0 <= i < streams.len() && #[trigger] streams[i].len() > u32::MAX
}

/// Whether a bit depth can be a deep one: 9 to 16.
pub fn validate_deep_bits(bits: u8) -> (r: Result<()>)
    ensures
        r is Ok <==> 9 <= bits <= 16,
        r is Err ==> fails_with(r, Fault::InvalidData),
{
    if bits < 9 || bits > 16 {
        return Err(
            IcerError::invalid(
                with_number("deep-sample bit depth ", bits as u64, " outside 9..=16").as_str(),
            ),
        );
    }
    Ok(())
}

fn format_tag(format: IcerPixelFormat) -> (tag: u8)
    ensures
        tag == format_tag_of(format),
{
    match format {
        IcerPixelFormat::Gray8 => 0,
        IcerPixelFormat::Yuv444P => 1,
        IcerPixelFormat::GrayDeep { .. } => 2,
    }
}

/// Whether `bytes` starts with the sentinel of a container.
pub open spec fn starts_container(bytes: Seq<u8>) -> bool {
    bytes.len() >= 2 && bytes[0] == 0 && bytes[1] == 0
}

/// Whether `bytes` starts with the sentinel of a container.
pub fn is_container(bytes: &[u8]) -> (b: bool)
    ensures
        b == starts_container(bytes@),
{
    bytes.len() >= 2 && bytes[0] == 0 && bytes[1] == 0
}

/// Frame one stream for each plane of `format`.
pub fn encode_container(format: IcerPixelFormat, plane_streams: &[Vec<u8>]) -> (r: Result<Vec<u8>>)
    ensures
        ({
            let streams = views(plane_streams@);
            if streams.len() != format.planes() {
                fails_with(r, Fault::InvalidData)
            } else if some_oversized(streams) {
                fails_with(r, Fault::Unsupported)
            } else if !depth_ok(format) {
                fails_with(r, Fault::InvalidData)
            } else {
                r is Ok && r->Ok_0@ == container_bytes(format, streams)
            }
        }),
{
    let ghost streams = views(plane_streams@);
    let n: usize = format.plane_count();
    if plane_streams.len() != n {
        return Err(
            IcerError::invalid(
                with_numbers(
                    "plane-container expects ",
                    n as u64,
                    " plane streams, got ",
                    plane_streams.len() as u64,
                    "",
                ).as_str(),
            ),
        );
    }
    let mut i: usize = 0;
    while i < n
        invariant
            i <= n,
            n == plane_streams@.len(),
            n == format.planes(),
            streams == views(plane_streams@),
            forall|j: int| 0 <= j < i ==> #[trigger] streams[j].len() <= u32::MAX,
        decreases n - i,
    {
        if plane_streams[i].len() > u32::MAX as usize {
            assert(streams[i as int].len() > u32::MAX);
            return Err(
                IcerError::unsupported(
                    with_numbers(
                        "plane ",
                        i as u64,
                        " substream length ",
                        plane_streams[i].len() as u64,
                        " exceeds 32-bit container field",
                    ).as_str(),
                ),
            );
        }
        assert(streams[i as int].len() <= u32::MAX);
        i = i + 1;
    }
    let mut out: Vec<u8> = Vec::new();
    push_be16(&mut out, CONTAINER_SENTINEL);
    out.push(format_tag(format));
    out.push(n as u8);
    if let IcerPixelFormat::GrayDeep { bits } = format {
        match validate_deep_bits(bits) {
            Ok(_) => {},
            Err(e) => {
                return Err(e);
            },
        }
        out.push(bits);
    }
    assert(out@ =~= prefix_bytes(format));
    let mut k: usize = 0;
    assert(streams.take(0) =~= Seq::empty());
    assert(out@ =~= prefix_bytes(format) + length_table(streams.take(0)));
    while k < n
        invariant
            k <= n,
            n == plane_streams@.len(),
            streams == views(plane_streams@),
            forall|j: int| 0 <= j < n ==> #[trigger] streams[j].len() <= u32::MAX,
            out@ == prefix_bytes(format) + length_table(streams.take(k as int)),
        decreases n - k,
    {
        assert(streams[k as int].len() <= u32::MAX);
        push_be32(&mut out, plane_streams[k].len() as u32);
        assert(streams.take(k + 1).drop_last() =~= streams.take(k as int));
        assert(out@ =~= prefix_bytes(format) + length_table(streams.take(k + 1)));
        k = k + 1;
    }
    assert(streams.take(n as int) =~= streams);
    let mut m: usize = 0;
    assert(out@ =~= prefix_bytes(format) + length_table(streams) + joined(streams.take(0)));
    while m < n
        invariant
            m <= n,
            n == plane_streams@.len(),
            streams == views(plane_streams@),
            out@ == prefix_bytes(format) + length_table(streams) + joined(streams.take(m as int)),
        decreases n - m,
    {
        append_bytes(&mut out, plane_streams[m].as_slice());
        assert(streams.take(m + 1).drop_last() =~= streams.take(m as int));
        assert(out@ =~= prefix_bytes(format) + length_table(streams) + joined(streams.take(m + 1)));
        m = m + 1;
    }
    assert(streams.take(n as int) =~= streams);
    Ok(out)
}

/// A parsed container: its format and where each stream lies.
#[derive(Debug, Clone)]
pub struct ParsedContainer {
    /// Format of the image.
    pub format: IcerPixelFormat,
    /// Start and end of each stream in the container.
    pub plane_ranges: Vec<(usize, usize)>,
}

/// Where stream `i` of a container with `n` streams starts.
pub open spec fn plane_start(bytes: Seq<u8>, table: int, n: int, i: int) -> int
    decreases i,
{
    if i <= 0 {
        table + 4 * n
    } else {
        plane_start(bytes, table, n, i - 1) + be32(bytes, table + 4 * (i - 1))
    }
}

/// Why the streams from `i` on cannot be placed, if they cannot.
pub open spec fn placing_fault(bytes: Seq<u8>, table: int, n: int, i: int) -> Option<Fault>
    decreases n - i,
{
    if i >= n {
        None
    } else if plane_start(bytes, table, n, i + 1) > usize::MAX {
        Some(Fault::InvalidData)
    } else if plane_start(bytes, table, n, i + 1) > bytes.len() {
        Some(Fault::Truncated)
    } else {
        placing_fault(bytes, table, n, i + 1)
    }
}

/// The format that the header of a container names.
pub open spec fn container_format(bytes: Seq<u8>) -> core::result::Result<IcerPixelFormat, Fault> {
    if bytes.len() < 4 {
        Err(Fault::Truncated)
    } else if bytes[0] != 0 || bytes[1] != 0 {
        Err(Fault::InvalidData)
    } else if bytes[2] == 0 {
        Ok(IcerPixelFormat::Gray8)
    } else if bytes[2] == 1 {
        Ok(IcerPixelFormat::Yuv444P)
    } else if bytes[2] == 2 {
        if bytes.len() < 5 {
            Err(Fault::Truncated)
        } else if 9 <= bytes[4] <= 16 {
            Ok(IcerPixelFormat::GrayDeep { bits: bytes[4] })
        } else {
            Err(Fault::InvalidData)
        }
    } else {
        Err(Fault::InvalidData)
    }
}

/// Format and stream ranges of a container, or why it is refused.
pub open spec fn parsed(bytes: Seq<u8>) -> core::result::Result<
    (IcerPixelFormat, Seq<(int, int)>),
    Fault,
> {
    match container_format(bytes) {
        Err(f) => Err(f),
        Ok(format) => {
            let n = format.planes() as int;
            let table = table_start(format);
            if bytes[3] != n {
                Err(Fault::InvalidData)
            } else if bytes.len() < table + 4 * n {
                Err(Fault::Truncated)
            } else {
                match placing_fault(bytes, table, n, 0) {
                    Some(f) => Err(f),
                    None => Ok(
                        (
                            format,
                            Seq::new(
                                n as nat,
                                |i: int|
                                    (
                                        plane_start(bytes, table, n, i),
                                        plane_start(bytes, table, n, i + 1),
                                    ),
                            ),
                        ),
                    ),
                }
            }
        },
    }
}

impl ParsedContainer {
    /// The stream ranges as numbers.
    pub open spec fn ranges(self) -> Seq<(int, int)> {
        Seq::new(
            self.plane_ranges@.len(),
            |i: int| (self.plane_ranges@[i].0 as int, self.plane_ranges@[i].1 as int),
        )
    }

    /// The stream of plane `i`.
    pub fn plane_bytes<'a>(&self, bytes: &'a [u8], i: usize) -> (s: &'a [u8])
        requires
            i < self.plane_ranges@.len(),
            self.plane_ranges@[i as int].0 <= self.plane_ranges@[i as int].1 <= bytes@.len(),
        ensures
            s@ == bytes@.subrange(
                self.plane_ranges@[i as int].0 as int,
                self.plane_ranges@[i as int].1 as int,
            ),
    {
        let (start, end) = self.plane_ranges[i];
        slice_of(bytes, start, end)
    }
}

/// Parse the header of a container.
pub fn parse_container(bytes: &[u8]) -> (r: Result<ParsedContainer>)
    ensures
        match parsed(bytes@) {
            Err(f) => fails_with(r, f),
            Ok((format, ranges)) => {
                &&& r is Ok
                &&& r->Ok_0.format == format
                &&& r->Ok_0.ranges() == ranges
                &&& forall|i: int|
                    0 <= i < ranges.len() ==> 0 < (#[trigger] ranges[i]).0 <= ranges[i].1
                        <= bytes@.len()
            },
        },
{
    if bytes.len() < FIXED_PREFIX_BYTES {
        return Err(IcerError::Truncated);
    }
    let sentinel: u16 = read_be16(bytes, 0);
    if sentinel != CONTAINER_SENTINEL {
        return Err(IcerError::invalid("not a plane-container (sentinel mismatch)"));
    }
    let tag: u8 = bytes[2];
    let declared_n: usize = bytes[3] as usize;
    let mut table: usize = FIXED_PREFIX_BYTES;
    let format = match tag {
        0 => IcerPixelFormat::Gray8,
        1 => IcerPixelFormat::Yuv444P,
        2 => {
            if bytes.len() < FIXED_PREFIX_BYTES + 1 {
                return Err(IcerError::Truncated);
            }
            let bits: u8 = bytes[4];
            match validate_deep_bits(bits) {
                Ok(_) => {},
                Err(e) => {
                    return Err(e);
                },
            }
            table = FIXED_PREFIX_BYTES + 1;
            IcerPixelFormat::GrayDeep { bits }
        },
        _ => {
            return Err(
                IcerError::invalid(
                    with_number("unknown plane-container format tag ", tag as u64, "").as_str(),
                ),
            );
        },
    };
    assert(container_format(bytes@) == Ok::<IcerPixelFormat, Fault>(format));
    let expected_n: usize = format.plane_count();
    if declared_n != expected_n {
        return Err(
            IcerError::invalid(
                with_numbers(
                    "container plane count ",
                    declared_n as u64,
                    " disagrees with its format (",
                    expected_n as u64,
                    ")",
                ).as_str(),
            ),
        );
    }
    let table_end: usize = table + 4 * declared_n;
    if bytes.len() < table_end {
        return Err(IcerError::Truncated);
    }
    let mut plane_ranges: Vec<(usize, usize)> = Vec::new();
    let mut cursor: usize = table_end;
    let mut i: usize = 0;
    let ghost n = declared_n as int;
    while i < declared_n
        invariant
            i <= declared_n <= 3,
            n == declared_n,
            table <= 5,
            table + 4 * n <= bytes@.len(),
            0 < cursor <= bytes@.len(),
            cursor == plane_start(bytes@, table as int, n, i as int),
            placing_fault(bytes@, table as int, n, 0) == placing_fault(
                bytes@,
                table as int,
                n,
                i as int,
            ),
            plane_ranges@.len() == i,
            forall|j: int|
                0 <= j < i ==> (#[trigger] plane_ranges@[j]).0 == plane_start(
                    bytes@,
                    table as int,
                    n,
                    j,
                ) && plane_ranges@[j].1 == plane_start(bytes@, table as int, n, j + 1)
                    && 0 < plane_ranges@[j].0 <= plane_ranges@[j].1 <= bytes@.len(),
            parsed(bytes@) == (match placing_fault(bytes@, table as int, n, 0) {
                Some(f) => Err::<(IcerPixelFormat, Seq<(int, int)>), Fault>(f),
                None => Ok(
                    (
                        format,
                        Seq::new(
                            n as nat,
                            |k: int|
                                (
                                    plane_start(bytes@, table as int, n, k),
                                    plane_start(bytes@, table as int, n, k + 1),
                                ),
                        ),
                    ),
                ),
            }),
        decreases declared_n - i,
    {
        let len: u32 = read_be32(bytes, table + 4 * i);
        assert(plane_start(bytes@, table as int, n, i + 1) == cursor + len);
        if len as usize > usize::MAX - cursor {
            return Err(
                IcerError::invalid(with_number("plane ", i as u64, " length overflow").as_str()),
            );
        }
        let end: usize = cursor + len as usize;
        if end > bytes.len() {
            return Err(IcerError::Truncated);
        }
        plane_ranges.push((cursor, end));
        cursor = end;
        i = i + 1;
    }
    let p = ParsedContainer { format, plane_ranges };
    assert(p.ranges() =~= Seq::new(
        n as nat,
        |k: int|
            (plane_start(bytes@, table as int, n, k), plane_start(bytes@, table as int, n, k + 1)),
    ));
    Ok(p)
}

proof fn lemma_length_table_len(streams: Seq<Seq<u8>>)
    ensures
        length_table(streams).len() == 4 * streams.len(),
    decreases streams.len(),
{
    if streams.len() > 0 {
        lemma_length_table_len(streams.drop_last());
    }
}

proof fn lemma_length_table_entry(streams: Seq<Seq<u8>>, i: int)
    requires
        0 <= i < streams.len(),
    ensures
        length_table(streams).subrange(4 * i, 4 * i + 4) == be32_bytes(streams[i].len() as int),
    decreases streams.len(),
{
    lemma_length_table_len(streams);
    lemma_length_table_len(streams.drop_last());
    if i == streams.len() - 1 {
        assert(length_table(streams).subrange(4 * i, 4 * i + 4) =~= be32_bytes(
            streams.last().len() as int,
        ));
    } else {
        lemma_length_table_entry(streams.drop_last(), i);
        assert(length_table(streams).subrange(4 * i, 4 * i + 4) =~= length_table(
            streams.drop_last(),
        ).subrange(4 * i, 4 * i + 4));
    }
}

proof fn lemma_joined_part(streams: Seq<Seq<u8>>, i: int)
    requires
        0 <= i < streams.len(),
    ensures
        joined(streams.take(i)).len() + streams[i].len() == joined(streams.take(i + 1)).len(),
        joined(streams.take(i + 1)).len() <= joined(streams).len(),
        joined(streams).subrange(
            joined(streams.take(i)).len() as int,
            joined(streams.take(i + 1)).len() as int,
        ) == streams[i],
    decreases streams.len(),
{
    assert(streams.take(i + 1).drop_last() =~= streams.take(i));
    if i == streams.len() - 1 {
        assert(streams.take(i + 1) =~= streams);
        assert(joined(streams).subrange(
            joined(streams.take(i)).len() as int,
            joined(streams.take(i + 1)).len() as int,
        ) =~= streams[i]);
    } else {
        lemma_joined_part(streams.drop_last(), i);
        assert(streams.drop_last().take(i) =~= streams.take(i));
        assert(streams.drop_last().take(i + 1) =~= streams.take(i + 1));
        assert(joined(streams).subrange(
            joined(streams.take(i)).len() as int,
            joined(streams.take(i + 1)).len() as int,
        ) =~= joined(streams.drop_last()).subrange(
            joined(streams.take(i)).len() as int,
            joined(streams.take(i + 1)).len() as int,
        ));
    }
}

/// The streams that `parsed` finds in `bytes`.
pub open spec fn parsed_streams(bytes: Seq<u8>) -> Seq<Seq<u8>> {
    let ranges = parsed(bytes)->Ok_0.1;
    Seq::new(ranges.len(), |i: int| bytes.subrange(ranges[i].0, ranges[i].1))
}

/// Entry `i` of the table of a container is the length of stream `i`.
proof fn lemma_container_entry(format: IcerPixelFormat, streams: Seq<Seq<u8>>, i: int)
    requires
        !some_oversized(streams),
        0 <= i < streams.len(),
    ensures
        be32(container_bytes(format, streams), table_start(format) + 4 * i)
            == streams[i].len(),
{
    let bytes = container_bytes(format, streams);
    let table = table_start(format);
    let lengths = length_table(streams);
    let prefix = prefix_bytes(format);
    let tail = joined(streams);
    assert(prefix.len() == table);
    lemma_length_table_len(streams);
    lemma_length_table_entry(streams, i);
    assert(streams[i].len() <= u32::MAX);
    let entry = lengths.subrange(4 * i, 4 * i + 4);
    assert(bytes.subrange(table + 4 * i, table + 4 * i + 4) =~= entry) by {
        assert forall|k: int| 0 <= k < 4 implies bytes[table + 4 * i + k] == #[trigger] entry[k] by {
            assert((prefix + lengths)[table + 4 * i + k] == lengths[4 * i + k]);
        }
    }
    lemma_be32_reads_back(bytes, table + 4 * i, streams[i].len() as int);
}

proof fn lemma_container_places(format: IcerPixelFormat, streams: Seq<Seq<u8>>, i: int)
    requires
        streams.len() == format.planes(),
        !some_oversized(streams),
        container_bytes(format, streams).len() <= usize::MAX,
        0 <= i <= streams.len(),
    ensures
        ({
            let bytes = container_bytes(format, streams);
            let n = format.planes() as int;
            let table = table_start(format);
            &&& plane_start(bytes, table, n, i) == table + 4 * n + joined(streams.take(i)).len()
            &&& plane_start(bytes, table, n, i) <= bytes.len()
        }),
    decreases i,
{
    let bytes = container_bytes(format, streams);
    let n = format.planes() as int;
    let table = table_start(format);
    lemma_length_table_len(streams);
    assert(prefix_bytes(format).len() == table);
    if i == 0 {
        assert(streams.take(0) =~= Seq::empty());
    } else {
        lemma_container_places(format, streams, i - 1);
        lemma_joined_part(streams, i - 1);
        lemma_container_entry(format, streams, i - 1);
    }
}

proof fn lemma_container_no_fault(format: IcerPixelFormat, streams: Seq<Seq<u8>>, i: int)
    requires
        streams.len() == format.planes(),
        !some_oversized(streams),
        container_bytes(format, streams).len() <= usize::MAX,
        0 <= i <= streams.len(),
    ensures
        placing_fault(
            container_bytes(format, streams),
            table_start(format),
            format.planes() as int,
            i,
        ) is None,
    decreases streams.len() - i,
{
    if i < streams.len() {
        lemma_container_places(format, streams, i + 1);
        lemma_container_no_fault(format, streams, i + 1);
    }
}

/// **A container gives back what was framed**: its format and, for each plane,
/// exactly the stream that was put in.
pub proof fn parsing_inverts_framing(format: IcerPixelFormat, streams: Seq<Seq<u8>>)
    requires
        streams.len() == format.planes(),
        depth_ok(format),
        !some_oversized(streams),
        container_bytes(format, streams).len() <= usize::MAX,
    ensures
        starts_container(container_bytes(format, streams)),
        parsed(container_bytes(format, streams)) is Ok,
        parsed(container_bytes(format, streams))->Ok_0.0 == format,
        parsed_streams(container_bytes(format, streams)) == streams,
{
    let bytes = container_bytes(format, streams);
    let n = format.planes() as int;
    let table = table_start(format);
    lemma_length_table_len(streams);
    let prefix = prefix_bytes(format);
    assert(prefix.len() == table);
    assert(bytes[0] == prefix[0] && bytes[1] == prefix[1] && bytes[2] == prefix[2] && bytes[3]
        == prefix[3]);
    if format is GrayDeep {
        assert(bytes[4] == prefix[4]);
    }
    assert(container_format(bytes) == Ok::<IcerPixelFormat, Fault>(format));
    lemma_container_no_fault(format, streams, 0);
    assert forall|i: int| 0 <= i < n implies parsed_streams(bytes)[i] == streams[i] by {
        lemma_container_places(format, streams, i);
        lemma_container_places(format, streams, i + 1);
        lemma_joined_part(streams, i);
        let a = joined(streams.take(i)).len() as int;
        let b = joined(streams.take(i + 1)).len() as int;
        assert(bytes.subrange(table + 4 * n + a, table + 4 * n + b) =~= joined(streams).subrange(a, b));
    }
    assert(parsed_streams(bytes) =~= streams);
}

} // verus!
