//! One plane of an image from the segments of its stream.
//!
//! The strict form takes a complete stream. The lenient form takes one of
//! which segments are missing: missing strips come out flat, in the middle of
//! the range of the samples, and missing parts of a transform as zero
//! coefficients.

use crate::bytes::append_bytes;
use crate::decoder::{by_index, in_index_order, ordering_permutes, segment_views, sort_by_index, stream_segments, walk_stream, walked_ok, DecodeLimits};
use crate::error::{fails_with, Fault, IcerError, Result};
use crate::header::{Segment, WalkedSegment};
use crate::merge::{agree, decode_merged, image_merged, same_image};
use crate::scan::repeated;
use crate::strip::{decode_strip, depth_in_range, flat_bytes, sample_size, strip_decoded, write_samples, zero_coeffs};
use crate::text::with_number;
use vstd::prelude::*;

verus! {

/// A decoded plane: its size in samples and the bytes of its rows.
pub struct Picture {
    /// Width in samples.
    pub width: int,
    /// Height in samples.
    pub height: int,
    /// The rows one after the other.
    pub data: Seq<u8>,
}

/// A decoded plane and which of its segments were there.
pub struct PartialPicture {
    /// The plane.
    pub picture: Picture,
    /// For each index whether its segment was there.
    pub received: Seq<bool>,
}

/// A decoded plane: its size in samples and the bytes of its rows.
pub struct DecodedPlane {
    /// Width in samples.
    pub width: u32,
    /// Height in samples.
    pub height: u32,
    /// The rows one after the other.
    pub data: Vec<u8>,
}

impl View for DecodedPlane {
    type V = Picture;

    open spec fn view(&self) -> Picture {
        Picture { width: self.width as int, height: self.height as int, data: self.data@ }
    }
}

impl DecodedPlane {
    /// The plane holds the bytes of all its samples.
    pub open spec fn full(self, bits: u8) -> bool {
        &&& self.data@.len() == self.width * self.height * sample_size(bits)
        &&& self.width <= 0xFFFF
    }
}

/// The bytes of `width` by `height` samples are too many for this machine.
pub open spec fn too_large(width: int, height: int, bits: u8) -> bool {
    width * height * sample_size(bits) > usize::MAX
}

fn is_too_large(width: u16, height: u32, bits: u8) -> (r: bool)
    ensures
        r == too_large(width as int, height as int, bits),
{
    assert(0 <= width * height <= 0xFFFF * 0xFFFF_FFFF) by (nonlinear_arith)
        requires
            0 <= width <= 0xFFFF,
            0 <= height <= 0xFFFF_FFFF,
    ;
    let n: u64 = width as u64 * height as u64;
    let total: u64 = if bits > 8 {
        2 * n
    } else {
        n
    };
    total > usize::MAX as u64
}

fn size_refused<T>() -> (r: Result<T>)
    ensures
        fails_with(r, Fault::Unsupported),
{
    Err(IcerError::unsupported("the image does not fit into memory"))
}

// ---------------------------------------------------------------------------
// Strips, all of them there
// ---------------------------------------------------------------------------

/// Why the first `k` segments, in the order of their index, are not the strips
/// of one image.
pub open spec fn strips_fault(s: Seq<Segment>, k: int) -> Option<Fault>
    decreases k,
{
    if k <= 0 {
        None
    } else if strips_fault(s, k - 1) is Some {
        strips_fault(s, k - 1)
    } else if s[k - 1].header.width != s[0].header.width || s[k - 1].header.transform_segmented {
        Some(Fault::Unsupported)
    } else if s[k - 1].header.segment_index != k - 1 {
        Some(Fault::InvalidData)
    } else {
        None
    }
}

/// Height of the first `k` strips.
pub open spec fn strips_height(s: Seq<Segment>, k: int) -> int
    decreases k,
{
    if k <= 0 {
        0
    } else {
        strips_height(s, k - 1) + s[k - 1].header.height
    }
}

/// The bytes of the first `k` strips.
pub open spec fn strips_data(s: Seq<Segment>, bits: u8, k: int) -> core::result::Result<Seq<u8>, Fault>
    decreases k,
{
    if k <= 0 {
        Ok(Seq::empty())
    } else {
        match strips_data(s, bits, k - 1) {
            Err(f) => Err(f),
            Ok(before) => match strip_decoded(s[k - 1], bits) {
                Err(f) => Err(f),
                Ok(data) => Ok(before + data),
            },
        }
    }
}

/// The image of strips, in the order of their index.
pub open spec fn strips_picture(s: Seq<Segment>, bits: u8) -> core::result::Result<Picture, Fault> {
    let n = s.len() as int;
    let (width, height) = (s[0].header.width as int, strips_height(s, n));
    match strips_fault(s, n) {
        Some(f) => Err(f),
        None => if too_large(width, height, bits) {
            Err(Fault::Unsupported)
        } else {
            match strips_data(s, bits, n) {
                Err(f) => Err(f),
                Ok(data) => Ok(Picture { width, height, data }),
            }
        },
    }
}

proof fn lemma_strips_fail(s: Seq<Segment>, k: int, n: int)
    requires
        1 <= k <= n,
        strips_fault(s, k) is Some,
    ensures
        strips_fault(s, n) == strips_fault(s, k),
    decreases n,
{
    if n > k {
        lemma_strips_fail(s, k, n - 1);
    }
}

pub proof fn lemma_strips_data_fail(s: Seq<Segment>, bits: u8, k: int, n: int)
    requires
        1 <= k <= n,
        strips_data(s, bits, k) is Err,
    ensures
        strips_data(s, bits, n) == strips_data(s, bits, k),
    decreases n,
{
    if n > k {
        lemma_strips_data_fail(s, bits, k, n - 1);
    }
}

proof fn lemma_heights_grow(s: Seq<Segment>, j: int, k: int)
    requires
        0 <= j <= k,
    ensures
        0 <= strips_height(s, j) <= strips_height(s, k),
    decreases k,
{
    if k > j {
        lemma_heights_grow(s, j, k - 1);
    } else if k > 0 {
        lemma_heights_grow(s, k - 1, k - 1);
    }
}

proof fn lemma_part_fits(width: int, part: int, whole: int, bits: u8)
    requires
        width >= 0,
        0 <= part <= whole,
    ensures
        0 <= width * part * sample_size(bits) <= width * whole * sample_size(bits),
{
    let size = sample_size(bits);
    assert(0 <= width * part <= width * whole) by (nonlinear_arith)
        requires
            width >= 0,
            0 <= part <= whole,
    ;
    assert(0 <= (width * part) * size <= (width * whole) * size) by (nonlinear_arith)
        requires
            0 <= width * part <= width * whole,
            size >= 0,
    ;
}

proof fn lemma_rows_add(width: int, a: int, b: int, bits: u8)
    ensures
        width * (a + b) * sample_size(bits) == width * a * sample_size(bits) + width * b
            * sample_size(bits),
{
    assert(width * (a + b) * sample_size(bits) == width * a * sample_size(bits) + width * b
        * sample_size(bits)) by (nonlinear_arith);
}

/// What is known of the segments that the assembly takes.
pub open spec fn all_walked_ok(walked: Seq<WalkedSegment>) -> bool {
    forall|i: int| 0 <= i < walked.len() ==> walked_ok(#[trigger] walked[i])
}

fn decode_strips(walked: &Vec<WalkedSegment>, bits: u8) -> (r: Result<DecodedPlane>)
    requires
        walked@.len() > 0,
        all_walked_ok(walked@),
        depth_in_range(bits),
    ensures
        match strips_picture(segment_views(walked@), bits) {
            Err(f) => fails_with(r, f),
            Ok(p) => r is Ok && r->Ok_0@ == p && r->Ok_0.full(bits),
        },
{
    let ghost s = segment_views(walked@);
    let width: u16 = walked[0].header.width;
    let n: usize = walked.len();
    let mut total: u32 = 0;
    let mut k: usize = 0;
    while k < n
        invariant
            k <= n,
            n == walked@.len(),
            s == segment_views(walked@),
            all_walked_ok(walked@),
            width == s[0].header.width,
            strips_fault(s, k as int) is None,
            total == strips_height(s, k as int),
            k <= 0x1_0000,
            total <= k * 0xFFFF,
        decreases n - k,
    {
        let h = walked[k].header;
        assert(s[k as int].header == h);
        if h.width != width {
            proof {
                lemma_strips_fail(s, k + 1, n as int);
            }
            return Err(
                IcerError::Unsupported(
                    with_number("multi-segment width mismatch: segment ", h.segment_index as u64, ""),
                ),
            );
        }
        if h.transform_segmented {
            proof {
                lemma_strips_fail(s, k + 1, n as int);
            }
            return Err(IcerError::unsupported("strips mixed with transform-domain segments"));
        }
        if h.segment_index as usize != k {
            proof {
                lemma_strips_fail(s, k + 1, n as int);
            }
            return Err(
                IcerError::invalid(
                    with_number(
                        "non-contiguous segment indices: got ",
                        h.segment_index as u64,
                        "",
                    ).as_str(),
                ),
            );
        }
        total = total + h.height as u32;
        k = k + 1;
    }
    if is_too_large(width, total, bits) {
        return size_refused();
    }
    let mut data: Vec<u8> = Vec::new();
    let mut k: usize = 0;
    assert(width * 0 * sample_size(bits) == 0) by (nonlinear_arith);
    while k < n
        invariant
            k <= n,
            n == walked@.len(),
            s == segment_views(walked@),
            all_walked_ok(walked@),
            depth_in_range(bits),
            width == s[0].header.width,
            strips_fault(s, n as int) is None,
            total == strips_height(s, n as int),
            !too_large(width as int, total as int, bits),
            strips_data(s, bits, k as int) == Ok::<Seq<u8>, Fault>(data@),
            data@.len() == width * strips_height(s, k as int) * sample_size(bits),
        decreases n - k,
    {
        proof {
            let h = walked@[k as int].header;
            assert(s[k as int].header == h);
            assert(walked_ok(walked@[k as int]));
            if strips_fault(s, k + 1) is Some {
                lemma_strips_fail(s, k + 1, n as int);
            }
            assert(strips_fault(s, k + 1) is None);
            lemma_heights_grow(s, k + 1, n as int);
            lemma_heights_grow(s, k as int, n as int);
            lemma_part_fits(width as int, h.height as int, total as int, bits);
            lemma_rows_add(width as int, strips_height(s, k as int), h.height as int, bits);
        }
        let part = match decode_strip(&walked[k], bits) {
            Ok(d) => d,
            Err(e) => {
                proof {
                    assert(s[k as int] == walked@[k as int]@);
                    lemma_strips_data_fail(s, bits, k + 1, n as int);
                }
                return Err(e);
            },
        };
        assert(s[k as int] == walked@[k as int]@);
        append_bytes(&mut data, part.as_slice());
        k = k + 1;
    }
    Ok(DecodedPlane { width: width as u32, height: total, data })
}

// ---------------------------------------------------------------------------
// Parts of a transform
// ---------------------------------------------------------------------------

/// Why the first `k` segments, in the order of their index, are not parts of
/// one transform. Where all parts must be there, the index of each is its
/// place.
pub open spec fn parts_fault(s: Seq<Segment>, complete: bool, k: int) -> Option<Fault>
    decreases k,
{
    if k <= 0 {
        None
    } else if parts_fault(s, complete, k - 1) is Some {
        parts_fault(s, complete, k - 1)
    } else if !same_image(s[0].header, s[k - 1].header) {
        Some(Fault::Unsupported)
    } else if s[k - 1].header.segment_index >= s[0].header.total_segments {
        Some(Fault::InvalidData)
    } else if complete && s[k - 1].header.segment_index != k - 1 {
        Some(Fault::InvalidData)
    } else {
        None
    }
}

/// The image of parts of a transform.
pub open spec fn parts_picture(s: Seq<Segment>, complete: bool, bits: u8) -> core::result::Result<
    Picture,
    Fault,
> {
    let n = s.len() as int;
    let (width, height) = (s[0].header.width as int, s[0].header.height as int);
    match parts_fault(s, complete, n) {
        Some(f) => Err(f),
        None => if complete && n != s[0].header.total_segments {
            Err(Fault::InvalidData)
        } else if too_large(width, height, bits) {
            Err(Fault::Unsupported)
        } else {
            match image_merged(s, bits) {
                Err(f) => Err(f),
                Ok(data) => Ok(Picture { width, height, data }),
            }
        },
    }
}

proof fn lemma_parts_fail(s: Seq<Segment>, complete: bool, k: int, n: int)
    requires
        1 <= k <= n,
        parts_fault(s, complete, k) is Some,
    ensures
        parts_fault(s, complete, n) == parts_fault(s, complete, k),
    decreases n,
{
    if n > k {
        lemma_parts_fail(s, complete, k, n - 1);
    }
}

pub proof fn lemma_parts_ok(s: Seq<Segment>, complete: bool, k: int, n: int)
    requires
        1 <= k <= n,
        parts_fault(s, complete, n) is None,
    ensures
        same_image(s[0].header, s[k - 1].header),
        s[k - 1].header.segment_index < s[0].header.total_segments,
        complete ==> s[k - 1].header.segment_index == k - 1,
    decreases n,
{
    if n > k {
        lemma_parts_ok(s, complete, k, n - 1);
    }
}

fn decode_parts(walked: &Vec<WalkedSegment>, complete: bool, bits: u8) -> (r: Result<DecodedPlane>)
    requires
        walked@.len() > 0,
        all_walked_ok(walked@),
        depth_in_range(bits),
    ensures
        match parts_picture(segment_views(walked@), complete, bits) {
            Err(f) => fails_with(r, f),
            Ok(p) => r is Ok && r->Ok_0@ == p && r->Ok_0.full(bits),
        },
{
    let ghost s = segment_views(walked@);
    let first = walked[0].header;
    let n: usize = walked.len();
    let mut k: usize = 0;
    assert(s[0].header == first);
    while k < n
        invariant
            k <= n,
            n == walked@.len(),
            s == segment_views(walked@),
            all_walked_ok(walked@),
            s[0].header == first,
            parts_fault(s, complete, k as int) is None,
        decreases n - k,
    {
        let h = walked[k].header;
        assert(s[k as int].header == h);
        if !agree(&first, &h) {
            proof {
                lemma_parts_fail(s, complete, k + 1, n as int);
            }
            return Err(IcerError::unsupported("segments of different images"));
        }
        if h.segment_index >= first.total_segments as u16 || (complete && h.segment_index as usize
            != k) {
            proof {
                lemma_parts_fail(s, complete, k + 1, n as int);
            }
            return Err(
                IcerError::invalid(
                    with_number(
                        "non-contiguous segment indices: got ",
                        h.segment_index as u64,
                        "",
                    ).as_str(),
                ),
            );
        }
        k = k + 1;
    }
    if complete && n != first.total_segments as usize {
        return Err(IcerError::invalid("segments are missing"));
    }
    if is_too_large(first.width, first.height as u32, bits) {
        return size_refused();
    }
    proof {
        assert forall|i: int|
            #![trigger walked@[i]]
            0 <= i < walked@.len() implies walked@[i].header.valid() && same_image(
            walked@[0].header,
            walked@[i].header,
        ) && walked@[i].header.segment_index < walked@[0].header.total_segments by {
            assert(walked_ok(walked@[i]));
            assert(s[i].header == walked@[i].header);
            lemma_parts_ok(s, complete, i + 1, n as int);
        }
        assert(Seq::new(walked@.len(), |i: int| walked@[i]@) =~= s);
    }
    match decode_merged(walked, bits) {
        Ok(data) => Ok(
            DecodedPlane { width: first.width as u32, height: first.height as u32, data },
        ),
        Err(e) => Err(e),
    }
}

// ---------------------------------------------------------------------------
// A complete plane
// ---------------------------------------------------------------------------

/// The plane of a complete stream, or why it cannot be decoded.
pub open spec fn plane_decoded(bytes: Seq<u8>, bits: u8, limits: DecodeLimits) -> core::result::Result<
    Picture,
    Fault,
> {
    match stream_segments(bytes, limits) {
        Err(f) => Err(f),
        Ok(segments) => if segments.len() == 0 {
            Err(Fault::Truncated)
        } else {
            let s = by_index(segments);
            if s[0].header.transform_segmented {
                parts_picture(s, true, bits)
            } else {
                strips_picture(s, bits)
            }
        },
    }
}

/// The plane of a complete stream.
pub(crate) fn decode_plane(bytes: &[u8], bits: u8, limits: &DecodeLimits) -> (r: Result<DecodedPlane>)
    requires
        depth_in_range(bits),
    ensures
        match plane_decoded(bytes@, bits, *limits) {
            Err(f) => fails_with(r, f),
            Ok(p) => r is Ok && r->Ok_0@ == p && r->Ok_0.full(bits),
        },
{
    let mut walked = match walk_stream(bytes, limits) {
        Ok(w) => w,
        Err(e) => return Err(e),
    };
    if walked.len() == 0 {
        return Err(IcerError::Truncated);
    }
    sort_by_index(&mut walked);
    assert(segment_views(walked@)[0] == walked@[0]@);
    if walked[0].header.transform_segmented {
        decode_parts(&walked, true, bits)
    } else {
        decode_strips(&walked, bits)
    }
}

// ---------------------------------------------------------------------------
// Strips, some of them missing
// ---------------------------------------------------------------------------

/// Some segment has another width than the first, or is no strip.
pub open spec fn some_misfit(s: Seq<Segment>) -> bool {
    exists|i: int|
        0 <= i < s.len() && ((#[trigger] s[i]).header.width != s[0].header.width
            || s[i].header.transform_segmented)
}

/// Which of `n` segments are among the first `k`.
pub open spec fn received_of(s: Seq<Segment>, n: int, k: int) -> Seq<bool>
    decreases k,
{
    if k <= 0 {
        Seq::new(n as nat, |i: int| false)
    } else {
        received_of(s, n, k - 1).update(s[k - 1].header.segment_index as int, true)
    }
}

/// Number of false values among the first `k`.
pub open spec fn missing_of(received: Seq<bool>, k: int) -> int
    decreases k,
{
    if k <= 0 {
        0
    } else {
        missing_of(received, k - 1) + (if received[k - 1] {
            0int
        } else {
            1
        })
    }
}

/// The strips after the first `k` segments, in the order of their index. Every
/// strip but the last has the height of the first. Of segments of one index
/// the last counts.
pub open spec fn strips_placed(s: Seq<Segment>, bits: u8, k: int) -> core::result::Result<
    Seq<Option<Seq<u8>>>,
    Fault,
>
    decreases k,
{
    let last = s.last().header;
    if k <= 0 {
        Ok(Seq::new((last.segment_index + 1) as nat, |i: int| None))
    } else {
        match strips_placed(s, bits, k - 1) {
            Err(f) => Err(f),
            Ok(before) => {
                let h = s[k - 1].header;
                if h.segment_index != last.segment_index && h.height != s[0].header.height {
                    Err(Fault::Unsupported)
                } else if h.segment_index == last.segment_index && h.height > last.height {
                    Err(Fault::Unsupported)
                } else {
                    match strip_decoded(s[k - 1], bits) {
                        Err(f) => Err(f),
                        Ok(data) => Ok(before.update(h.segment_index as int, Some(data))),
                    }
                }
            },
        }
    }
}

/// The first `k` strips, one after the other, with `flat` for those that are
/// missing.
pub open spec fn strips_joined(strips: Seq<Option<Seq<u8>>>, flat: Seq<u8>, k: int) -> Seq<u8>
    decreases k,
{
    if k <= 0 {
        Seq::empty()
    } else {
        strips_joined(strips, flat, k - 1) + (match strips[k - 1] {
            Some(data) => data,
            None => flat,
        })
    }
}

/// The image of strips of which some are missing, in the order of their index.
pub open spec fn strips_partial(s: Seq<Segment>, bits: u8) -> core::result::Result<
    PartialPicture,
    Fault,
> {
    let n = s.len() as int;
    let first = s[0].header;
    let last = s.last().header;
    let count = last.segment_index + 1;
    let height = last.segment_index * first.height + last.height;
    if first.segment_index != 0 {
        Err(Fault::Truncated)
    } else if some_misfit(s) {
        Err(Fault::Unsupported)
    } else if too_large(first.width as int, height, bits) {
        Err(Fault::Unsupported)
    } else {
        match strips_placed(s, bits, n) {
            Err(f) => Err(f),
            Ok(strips) => Ok(
                PartialPicture {
                    picture: Picture {
                        width: first.width as int,
                        height,
                        data: strips_joined(
                            strips,
                            flat_bytes(first.width * first.height, bits),
                            count,
                        ),
                    },
                    received: received_of(s, count, n),
                },
            ),
        }
    }
}

proof fn lemma_placed_fail(s: Seq<Segment>, bits: u8, k: int, n: int)
    requires
        1 <= k <= n,
        strips_placed(s, bits, k) is Err,
    ensures
        strips_placed(s, bits, n) == strips_placed(s, bits, k),
    decreases n,
{
    if n > k {
        lemma_placed_fail(s, bits, k, n - 1);
    }
}

/// The byte strings of strips.
pub open spec fn strip_views(v: Seq<Option<Vec<u8>>>) -> Seq<Option<Seq<u8>>> {
    Seq::new(
        v.len(),
        |i: int|
            match v[i] {
                Some(d) => Some(d@),
                None => None,
            },
    )
}

fn place_strips(walked: &Vec<WalkedSegment>, bits: u8) -> (r: Result<Vec<Option<Vec<u8>>>>)
    requires
        walked@.len() > 0,
        all_walked_ok(walked@),
        depth_in_range(bits),
        in_index_order(segment_views(walked@)),
        !some_misfit(segment_views(walked@)),
        ({
            let s = segment_views(walked@);
            !too_large(
                s[0].header.width as int,
                s.last().header.segment_index * s[0].header.height + s.last().header.height,
                bits,
            )
        }),
    ensures
        ({
            let s = segment_views(walked@);
            match strips_placed(s, bits, s.len() as int) {
                Err(f) => fails_with(r, f),
                Ok(strips) => {
                    &&& r is Ok
                    &&& strip_views(r->Ok_0@) == strips
                    &&& strips.len() == s.last().header.segment_index + 1
                    &&& forall|i: int|
                        0 <= i < strips.len() - 1 ==> ((#[trigger] strips[i]) matches Some(d)
                            ==> d.len() == s[0].header.width * s[0].header.height * sample_size(
                            bits,
                        ))
                    &&& strips.last() is Some
                    &&& strips.last()->0.len() == s[0].header.width * s.last().header.height
                        * sample_size(bits)
                },
            }
        }),
{
    let ghost s = segment_views(walked@);
    let n: usize = walked.len();
    let first = walked[0].header;
    let last = walked[n - 1].header;
    let count: usize = last.segment_index as usize + 1;
    let mut strips: Vec<Option<Vec<u8>>> = Vec::new();
    let mut i: usize = 0;
    while i < count
        invariant
            i <= count,
            strips@.len() == i,
            forall|j: int| 0 <= j < i ==> (#[trigger] strips@[j]) is None,
        decreases count - i,
    {
        strips.push(None);
        i = i + 1;
    }
    proof {
        assert(s.last().header == last);
        assert(s[0].header == first);
        assert(strip_views(strips@) =~= strips_placed(s, bits, 0)->Ok_0);
    }
    let mut k: usize = 0;
    while k < n
        invariant
            k <= n,
            n == walked@.len(),
            s == segment_views(walked@),
            n > 0,
            all_walked_ok(walked@),
            depth_in_range(bits),
            in_index_order(s),
            !some_misfit(s),
            s.last().header == last,
            s[0].header == first,
            count == last.segment_index + 1,
            !too_large(
                first.width as int,
                last.segment_index * first.height + last.height,
                bits,
            ),
            strips@.len() == count,
            strips_placed(s, bits, k as int) == Ok::<Seq<Option<Seq<u8>>>, Fault>(
                strip_views(strips@),
            ),
            forall|i: int|
                0 <= i < count - 1 ==> ((#[trigger] strips@[i]) matches Some(d) ==> d@.len()
                    == first.width * first.height * sample_size(bits)),
            k == n ==> (strips@[count - 1] matches Some(d) && d@.len() == first.width * last.height
                * sample_size(bits)),
        decreases n - k,
    {
        let h = walked[k].header;
        assert(s[k as int] == walked@[k as int]@);
        let index: usize = h.segment_index as usize;
        assert(s[k as int].header.segment_index <= s[n - 1].header.segment_index);
        assert(h.width == first.width);
        if h.segment_index != last.segment_index && h.height != first.height {
            proof {
                lemma_placed_fail(s, bits, k + 1, n as int);
            }
            return Err(
                IcerError::Unsupported(
                    with_number("non-trailing segment ", index as u64, " has another height"),
                ),
            );
        }
        if h.segment_index == last.segment_index && h.height > last.height {
            proof {
                lemma_placed_fail(s, bits, k + 1, n as int);
            }
            return Err(
                IcerError::Unsupported(
                    with_number("segment ", index as u64, " came twice with different heights"),
                ),
            );
        }
        proof {
            assert(walked_ok(walked@[k as int]));
            let rest = last.segment_index * first.height;
            assert(rest >= 0 && (last.segment_index >= 1 ==> rest >= first.height)) by (nonlinear_arith)
                requires
                    rest == last.segment_index * first.height,
                    last.segment_index >= 0,
                    first.height >= 0,
            ;
            lemma_part_fits(first.width as int, h.height as int, rest + last.height, bits);
        }
        let part = match decode_strip(&walked[k], bits) {
            Ok(d) => d,
            Err(e) => {
                proof {
                    lemma_placed_fail(s, bits, k + 1, n as int);
                }
                return Err(e);
            },
        };
        let ghost before = strips@;
        let ghost data = part@;
        strips.set(index, Some(part));
        assert(strip_views(strips@) =~= strip_views(before).update(index as int, Some(data)));
        proof {
            if k + 1 == n {
                assert(h == last);
            }
        }
        k = k + 1;
    }
    proof {
        let out = strip_views(strips@);
        assert forall|i: int| 0 <= i < out.len() - 1 implies ((#[trigger] out[i]) matches Some(d)
            ==> d.len() == first.width * first.height * sample_size(bits)) by {
            assert(strips@[i] matches Some(d) ==> d@.len() == first.width * first.height
                * sample_size(bits));
        }
    }
    Ok(strips)
}

fn received_indices(walked: &Vec<WalkedSegment>, count: usize) -> (received: Vec<bool>)
    requires
        forall|i: int|
            0 <= i < walked@.len() ==> (#[trigger] walked@[i]).header.segment_index < count,
    ensures
        received@ == received_of(segment_views(walked@), count as int, walked@.len() as int),
        received@.len() == count,
{
    let ghost s = segment_views(walked@);
    let mut received = repeated(false, count);
    assert(received@ =~= received_of(s, count as int, 0));
    let mut k: usize = 0;
    while k < walked.len()
        invariant
            k <= walked@.len(),
            s == segment_views(walked@),
            received@.len() == count,
            received@ == received_of(s, count as int, k as int),
            forall|i: int|
                0 <= i < walked@.len() ==> (#[trigger] walked@[i]).header.segment_index < count,
        decreases walked@.len() - k,
    {
        assert(s[k as int] == walked@[k as int]@);
        let index: usize = walked[k].header.segment_index as usize;
        received.set(index, true);
        k = k + 1;
    }
    received
}

/// Number of false values.
pub(crate) fn count_missing(received: &Vec<bool>) -> (n: usize)
    ensures
        n == missing_of(received@, received@.len() as int),
        n <= received@.len(),
{
    let mut n: usize = 0;
    let mut k: usize = 0;
    while k < received.len()
        invariant
            k <= received@.len(),
            n <= k,
            n == missing_of(received@, k as int),
        decreases received@.len() - k,
    {
        if !received[k] {
            n = n + 1;
        }
        k = k + 1;
    }
    n
}

fn join_strips(strips: &Vec<Option<Vec<u8>>>, flat: &Vec<u8>) -> (out: Vec<u8>)
    requires
        strips@.len() > 0,
        strip_views(strips@).last() is Some,
        forall|i: int|
            0 <= i < strips@.len() - 1 ==> ((#[trigger] strip_views(strips@)[i]) matches Some(d)
                ==> d.len() == flat@.len()),
    ensures
        out@ == strips_joined(strip_views(strips@), flat@, strips@.len() as int),
        out@.len() == (strips@.len() - 1) * flat@.len() + strip_views(strips@).last()->0.len(),
{
    let ghost views = strip_views(strips@);
    let mut out: Vec<u8> = Vec::new();
    let mut k: usize = 0;
    while k < strips.len()
        invariant
            k <= strips@.len(),
            views == strip_views(strips@),
            views.last() is Some,
            forall|i: int|
                0 <= i < strips@.len() - 1 ==> ((#[trigger] views[i]) matches Some(d) ==> d.len()
                    == flat@.len()),
            out@ == strips_joined(views, flat@, k as int),
            k < strips@.len() ==> out@.len() == k * flat@.len(),
            k == strips@.len() ==> out@.len() == (strips@.len() - 1) * flat@.len()
                + views.last()->0.len(),
        decreases strips@.len() - k,
    {
        assert((k + 1) * flat@.len() == k * flat@.len() + flat@.len()) by (nonlinear_arith);
        assert(views[k as int] == (match strips@[k as int] {
            Some(d) => Some(d@),
            None => None,
        }));
        match &strips[k] {
            Some(d) => {
                append_bytes(&mut out, d.as_slice());
            },
            None => {
                append_bytes(&mut out, flat.as_slice());
            },
        }
        k = k + 1;
    }
    out
}

/// A plane of which segments may be missing.
pub struct PartialPlane {
    /// The plane.
    pub plane: DecodedPlane,
    /// For each index whether its segment was there.
    pub received: Vec<bool>,
}

impl View for PartialPlane {
    type V = PartialPicture;

    open spec fn view(&self) -> PartialPicture {
        PartialPicture { picture: self.plane@, received: self.received@ }
    }
}

fn decode_partial_strips(walked: &Vec<WalkedSegment>, bits: u8) -> (r: Result<PartialPlane>)
    requires
        walked@.len() > 0,
        all_walked_ok(walked@),
        depth_in_range(bits),
        in_index_order(segment_views(walked@)),
    ensures
        match strips_partial(segment_views(walked@), bits) {
            Err(f) => fails_with(r, f),
            Ok(p) => r is Ok && r->Ok_0@ == p && r->Ok_0.plane.full(bits),
        },
{
    let ghost s = segment_views(walked@);
    let n: usize = walked.len();
    let first = walked[0].header;
    let last = walked[n - 1].header;
    proof {
        assert(s.last().header == last);
        assert(s[0].header == first);
    }
    if first.segment_index != 0 {
        return Err(IcerError::Truncated);
    }
    let mut k: usize = 0;
    while k < n
        invariant
            k <= n,
            n == walked@.len(),
            s == segment_views(walked@),
            s[0].header == first,
            first.segment_index == 0,
            forall|i: int|
                0 <= i < k ==> (#[trigger] s[i]).header.width == first.width
                    && !s[i].header.transform_segmented,
        decreases n - k,
    {
        let h = walked[k].header;
        assert(s[k as int].header == h);
        if h.width != first.width || h.transform_segmented {
            assert(some_misfit(s));
            return Err(
                IcerError::Unsupported(
                    with_number("multi-segment width mismatch: segment ", h.segment_index as u64, ""),
                ),
            );
        }
        k = k + 1;
    }
    assert(!some_misfit(s));
    let ghost rest = last.segment_index * first.height;
    assert(0 <= rest <= 0xFFFF * 0xFFFF) by (nonlinear_arith)
        requires
            rest == last.segment_index * first.height,
            0 <= last.segment_index <= 0xFFFF,
            0 <= first.height <= 0xFFFF,
    ;
    let height: u32 = last.segment_index as u32 * first.height as u32 + last.height as u32;
    if is_too_large(first.width, height, bits) {
        return size_refused();
    }
    let strips = match place_strips(walked, bits) {
        Ok(v) => v,
        Err(e) => return Err(e),
    };
    let count: usize = last.segment_index as usize + 1;
    proof {
        assert forall|i: int| 0 <= i < walked@.len() implies (
        #[trigger] walked@[i]).header.segment_index < count by {
            assert(s[i] == walked@[i]@);
            assert(s[i].header.segment_index <= s[n - 1].header.segment_index);
        }
        let w = first.width as int;
        let size = sample_size(bits);
        assert((count - 1) * (w * first.height * size) == w * rest * size) by (nonlinear_arith)
            requires
                rest == (count - 1) * first.height,
        ;
        lemma_rows_add(w, rest, last.height as int, bits);
        lemma_part_fits(w, last.height as int, height as int, bits);
        assert(w * first.height <= 0xFFFE_0001 && w * first.height >= 0) by (nonlinear_arith)
            requires
                0 <= w <= 0xFFFF,
                0 <= first.height <= 0xFFFF,
        ;
    }
    let received = received_indices(walked, count);
    let zeros = repeated(0i32, first.width as usize * first.height as usize);
    assert(zeros@ =~= zero_coeffs(first.width * first.height));
    let flat = write_samples(&zeros, bits);
    let data = join_strips(&strips, &flat);
    Ok(PartialPlane { plane: DecodedPlane { width: first.width as u32, height, data }, received })
}

/// The image of parts of a transform of which some are missing.
pub open spec fn parts_partial(s: Seq<Segment>, bits: u8) -> core::result::Result<
    PartialPicture,
    Fault,
> {
    match parts_picture(s, false, bits) {
        Err(f) => Err(f),
        Ok(picture) => Ok(
            PartialPicture {
                picture,
                received: received_of(s, s[0].header.total_segments as int, s.len() as int),
            },
        ),
    }
}

/// The plane of a stream of which segments may be missing, or why it cannot be
/// decoded.
pub open spec fn plane_partial(bytes: Seq<u8>, bits: u8, limits: DecodeLimits) -> core::result::Result<
    PartialPicture,
    Fault,
> {
    match stream_segments(bytes, limits) {
        Err(f) => Err(f),
        Ok(segments) => if segments.len() == 0 {
            Err(Fault::Truncated)
        } else {
            let s = by_index(segments);
            if s[0].header.transform_segmented {
                parts_partial(s, bits)
            } else {
                strips_partial(s, bits)
            }
        },
    }
}

/// The plane of a stream of which segments may be missing.
pub(crate) fn decode_plane_lenient(bytes: &[u8], bits: u8, limits: &DecodeLimits) -> (r: Result<
    PartialPlane,
>)
    requires
        depth_in_range(bits),
    ensures
        match plane_partial(bytes@, bits, *limits) {
            Err(f) => fails_with(r, f),
            Ok(p) => r is Ok && r->Ok_0@ == p && r->Ok_0.plane.full(bits),
        },
{
    let mut walked = match walk_stream(bytes, limits) {
        Ok(w) => w,
        Err(e) => return Err(e),
    };
    if walked.len() == 0 {
        return Err(IcerError::Truncated);
    }
    let ghost read = segment_views(walked@);
    sort_by_index(&mut walked);
    let ghost s = segment_views(walked@);
    proof {
        ordering_permutes(read);
        assert(s[0] == walked@[0]@);
    }
    if !walked[0].header.transform_segmented {
        return decode_partial_strips(&walked, bits);
    }
    let plane = match decode_parts(&walked, false, bits) {
        Ok(p) => p,
        Err(e) => return Err(e),
    };
    let count: usize = walked[0].header.total_segments as usize;
    proof {
        assert forall|i: int| 0 <= i < walked@.len() implies (
        #[trigger] walked@[i]).header.segment_index < count by {
            assert(s[i] == walked@[i]@);
            lemma_parts_ok(s, false, i + 1, s.len() as int);
        }
    }
    let received = received_indices(&walked, count);
    Ok(PartialPlane { plane, received })
}

// ---------------------------------------------------------------------------
// The lenient form on complete streams
// ---------------------------------------------------------------------------

/// Every strip but the last has the height of the first.
pub open spec fn even_strips(s: Seq<Segment>) -> bool {
    forall|i: int|
        0 <= i < s.len() - 1 ==> (#[trigger] s[i]).header.height == s[0].header.height
}

/// The segments of a stream are parts of a transform, or strips of one height
/// but for the last.
pub open spec fn steady(bytes: Seq<u8>, limits: DecodeLimits) -> bool {
    let s = by_index(stream_segments(bytes, limits)->Ok_0);
    s[0].header.transform_segmented || even_strips(s)
}

pub proof fn lemma_strips_ok(s: Seq<Segment>, k: int, n: int)
    requires
        1 <= k <= n,
        strips_fault(s, n) is None,
    ensures
        s[k - 1].header.width == s[0].header.width,
        !s[k - 1].header.transform_segmented,
        s[k - 1].header.segment_index == k - 1,
    decreases n,
{
    if n > k {
        lemma_strips_ok(s, k, n - 1);
    }
}

pub proof fn lemma_even_height(s: Seq<Segment>, k: int)
    requires
        even_strips(s),
        0 <= k < s.len(),
    ensures
        strips_height(s, k) == k * s[0].header.height,
    decreases k,
{
    if k > 0 {
        lemma_even_height(s, k - 1);
        assert(s[k - 1].header.height == s[0].header.height);
        let h = s[0].header.height as int;
        assert((k - 1) * h + h == k * h) by (nonlinear_arith);
    } else {
        assert(0 * s[0].header.height == 0);
    }
}

/// Of a complete stream the first `k` segments fill the first `k` places.
pub proof fn lemma_complete_placed(s: Seq<Segment>, bits: u8, k: int)
    requires
        0 <= k <= s.len(),
        s.len() > 0,
        strips_fault(s, s.len() as int) is None,
        even_strips(s),
        strips_data(s, bits, s.len() as int) is Ok,
    ensures
        strips_placed(s, bits, k) is Ok,
        strips_placed(s, bits, k)->Ok_0.len() == s.len(),
        forall|i: int|
            0 <= i < k ==> #[trigger] strips_placed(s, bits, k)->Ok_0[i] == Some(
                strip_decoded(s[i], bits)->Ok_0,
            ),
        received_of(s, s.len() as int, k).len() == s.len(),
        forall|i: int| 0 <= i < k ==> #[trigger] received_of(s, s.len() as int, k)[i],
    decreases k,
{
    let n = s.len() as int;
    lemma_strips_ok(s, n, n);
    if k > 0 {
        lemma_complete_placed(s, bits, k - 1);
        lemma_strips_ok(s, k, n);
        if strips_data(s, bits, k) is Err {
            lemma_strips_data_fail(s, bits, k, n);
        }
        assert(strips_data(s, bits, k) is Ok);
        let before = strips_placed(s, bits, k - 1)->Ok_0;
        let after = strips_placed(s, bits, k)->Ok_0;
        assert(after =~= before.update(k - 1, Some(strip_decoded(s[k - 1], bits)->Ok_0)));
    }
}

proof fn lemma_complete_joined(s: Seq<Segment>, strips: Seq<Option<Seq<u8>>>, flat: Seq<u8>, bits: u8, k: int)
    requires
        0 <= k <= s.len() == strips.len(),
        strips_data(s, bits, s.len() as int) is Ok,
        forall|i: int|
            0 <= i < s.len() ==> #[trigger] strips[i] == Some(strip_decoded(s[i], bits)->Ok_0),
    ensures
        strips_data(s, bits, k) == Ok::<Seq<u8>, Fault>(strips_joined(strips, flat, k)),
    decreases k,
{
    if strips_data(s, bits, k) is Err {
        lemma_strips_data_fail(s, bits, k, s.len() as int);
    }
    if k > 0 {
        lemma_complete_joined(s, strips, flat, bits, k - 1);
        assert(strips[k - 1] == Some(strip_decoded(s[k - 1], bits)->Ok_0));
    }
}

proof fn lemma_none_missing(received: Seq<bool>, k: int)
    requires
        0 <= k <= received.len(),
        forall|i: int| 0 <= i < k ==> #[trigger] received[i],
    ensures
        missing_of(received, k) == 0,
    decreases k,
{
    if k > 0 {
        lemma_none_missing(received, k - 1);
    }
}

proof fn lemma_complete_received(s: Seq<Segment>, k: int)
    requires
        0 <= k <= s.len() == s[0].header.total_segments,
        parts_fault(s, true, s.len() as int) is None,
    ensures
        received_of(s, s.len() as int, k).len() == s.len(),
        forall|i: int| 0 <= i < k ==> #[trigger] received_of(s, s.len() as int, k)[i],
    decreases k,
{
    if k > 0 {
        lemma_complete_received(s, k - 1);
        lemma_parts_ok(s, true, k, s.len() as int);
    }
}

proof fn lemma_complete_parts(s: Seq<Segment>, k: int)
    requires
        0 <= k <= s.len(),
        parts_fault(s, true, s.len() as int) is None,
    ensures
        parts_fault(s, false, k) is None,
    decreases k,
{
    if k > 0 {
        lemma_complete_parts(s, k - 1);
        lemma_parts_ok(s, true, k, s.len() as int);
    }
}

/// **On a complete stream the lenient form gives the same plane and reports
/// nothing missing.** The strips are those of an encoder: all but the last of
/// one height.
pub proof fn lenient_agrees_on_complete_streams(bytes: Seq<u8>, bits: u8, limits: DecodeLimits)
    requires
        plane_decoded(bytes, bits, limits) is Ok,
        steady(bytes, limits),
    ensures
        plane_partial(bytes, bits, limits) is Ok,
        plane_partial(bytes, bits, limits)->Ok_0.picture == plane_decoded(
            bytes,
            bits,
            limits,
        )->Ok_0,
        missing_of(
            plane_partial(bytes, bits, limits)->Ok_0.received,
            plane_partial(bytes, bits, limits)->Ok_0.received.len() as int,
        ) == 0,
{
    let segments = stream_segments(bytes, limits)->Ok_0;
    ordering_permutes(segments);
    let s = by_index(segments);
    let n = s.len() as int;
    if s[0].header.transform_segmented {
        lemma_complete_parts(s, n);
        lemma_complete_received(s, n);
        lemma_none_missing(received_of(s, n, n), n);
    } else {
        lemma_strips_ok(s, n, n);
        lemma_strips_ok(s, 1, n);
        assert forall|i: int| 0 <= i < n implies (#[trigger] s[i]).header.width
            == s[0].header.width && !s[i].header.transform_segmented by {
            lemma_strips_ok(s, i + 1, n);
        }
        assert(!some_misfit(s));
        lemma_even_height(s, n - 1);
        lemma_complete_placed(s, bits, n);
        let flat = flat_bytes(s[0].header.width * s[0].header.height, bits);
        lemma_complete_joined(s, strips_placed(s, bits, n)->Ok_0, flat, bits, n);
        lemma_none_missing(received_of(s, n, n), n);
    }
}

} // verus!
