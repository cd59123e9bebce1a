//! Encoding of images.
//!
//! An image is encoded as one or more segments: strips of its rows, or parts
//! of its transform. A byte budget limits the whole stream; segments that do
//! not fit are left out, and an empty segment stands for each of them, so that
//! every stream frames the whole image.

use crate::analyze::{measure_stats, recommend_filter, recommended, stats_of};
use crate::bytes::append_bytes;
use crate::compress::{coefficients, encode_one_segment, make_strip_header, strip_header, strip_segment, Settings};
use crate::decoder::{depth_of_format, image_decoded, parse_icer, planes_decoded, DecodeLimits};
use crate::emit::{segment_stream, stream_of};
use crate::error::{fails_with, Fault, IcerError, Result};
use crate::header::{Segment, SegmentHeader, WaveletFilter};
use crate::image::{IcerImage, IcerPixelFormat, IcerPlane};
use crate::merge::{can_segment, divide_image};
use crate::partition::{ceil_div, div_up};
use crate::parts::{bytes_left, emit_skipped_placeholders, empty_segment, encode_parts, left_of, lemma_stream_push, others_missing, parts_encoded, placeholders, reserve_of, Written};
use crate::plane_container::{container_bytes, depth_ok, encode_container, parsed, some_oversized, starts_container, views, DEEP_GRAY_OVERHEAD};
use crate::quality::{bounds_between, lemma_samples_range, measure_words, plane_searched, search, search_plane, searched, unlimited_settings, words_error, Trial};
use crate::scan::repeated;
use crate::strip::{depth_in_range, read_samples, rows_inside, sample_len, sample_size, shifted_samples};
use crate::wavelet_int::{forward_2d_dyadic, has_integer_transform, is_integer};
use vstd::prelude::*;

verus! {

/// How an image is encoded.
#[derive(Debug, Clone)]
pub struct EncodeOptions {
    /// Synchronisation prefix of the headers. A stream with the prefix 0
    /// cannot be decoded.
    pub sync_prefix: u16,
    /// Wavelet filter.
    pub filter: WaveletFilter,
    /// Decomposition levels; at least 1 and at most 6 are used.
    pub wavelet_levels: u8,
    /// Least number of bit planes.
    pub bit_plane_count: u8,
    /// Write raw samples.
    pub uncompressed: bool,
    /// Number of segments.
    pub segment_count: u16,
    /// Hard limit in bytes, but for the headers of the segments. In a colour
    /// image it holds for each plane.
    pub byte_budget: Option<u64>,
    /// Soft limit of a segment in bytes: the bit plane in which it is reached
    /// is finished. It is off where packets are chosen by their promise, that
    /// is with `rd_pruning` and a hard limit.
    pub target_bytes: Option<u64>,
    /// Choose the wavelet filter from the statistics of the image.
    pub auto_filter: bool,
    /// With `auto_filter`: choose the wavelet filter by trial.
    pub auto_filter_rd: bool,
    /// For each segment its rank. Segments of lower rank are written first.
    pub segment_priorities: Option<Vec<u16>>,
    /// Choose packets by their promise, and not from the top bit plane down.
    pub rd_pruning: bool,
    /// Write raw samples for segments for which they are shorter.
    pub auto_uncompressed_fallback: bool,
    /// Find the smallest stream whose squared error, summed over all samples
    /// of the plane, is at most this.
    pub quality_target: Option<u64>,
    /// Use the interleaved entropy coder.
    pub interleaved_entropy: bool,
    /// Segment the image in the transform domain.
    pub transform_segments: bool,
    /// Minimum loss: the least important subband loses this many bit planes,
    /// the others fewer.
    pub min_loss: u8,
    /// Order the packets of a segment by priority.
    pub priority_interleaving: bool,
}

/// The options that a fresh value has.
pub open spec fn usual_options(o: EncodeOptions) -> bool {
    &&& o.sync_prefix == 0xACED
    &&& o.filter == WaveletFilter::Reversible53
    &&& o.wavelet_levels == 3
    &&& o.bit_plane_count == 8
    &&& o.segment_count == 1
    &&& o.byte_budget is None
    &&& o.target_bytes is None
    &&& !o.auto_filter
    &&& !o.auto_filter_rd
    &&& o.segment_priorities is None
    &&& !o.rd_pruning
    &&& !o.auto_uncompressed_fallback
    &&& o.quality_target is None
    &&& !o.interleaved_entropy
    &&& !o.transform_segments
    &&& o.min_loss == 0
    &&& !o.priority_interleaving
}

impl Default for EncodeOptions {
    fn default() -> (o: Self)
        ensures
            usual_options(o),
            o.uncompressed,
    {
        EncodeOptions {
            sync_prefix: 0xACED,
            filter: WaveletFilter::Reversible53,
            wavelet_levels: 3,
            bit_plane_count: 8,
            uncompressed: true,
            segment_count: 1,
            byte_budget: None,
            target_bytes: None,
            auto_filter: false,
            auto_filter_rd: false,
            segment_priorities: None,
            rd_pruning: false,
            auto_uncompressed_fallback: false,
            quality_target: None,
            interleaved_entropy: false,
            transform_segments: false,
            min_loss: 0,
            priority_interleaving: false,
        }
    }
}

/// Rank of segment `i` of `n` where the middle comes first: the middle one is
/// followed by the one above it, the one below it, and so on outwards.
pub open spec fn center_rank(n: int, i: int) -> int {
    if i < n / 2 {
        2 * (n / 2 - i) - 1
    } else {
        2 * (i - n / 2)
    }
}

impl EncodeOptions {
    /// Compressed segments, with the usual options else.
    pub fn compressed() -> (o: Self)
        ensures
            usual_options(o),
            !o.uncompressed,
    {
        EncodeOptions { uncompressed: false, ..EncodeOptions::default() }
    }

    /// Set the hard limit.
    #[must_use]
    pub fn with_byte_budget(self, n: u64) -> (o: Self)
        ensures
            o == (EncodeOptions { byte_budget: Some(n), ..self }),
    {
        EncodeOptions { byte_budget: Some(n), ..self }
    }

    /// Set the hard limit, and choose packets by their promise.
    #[must_use]
    pub fn with_rd_budget(self, n: u64) -> (o: Self)
        ensures
            o == (EncodeOptions { byte_budget: Some(n), rd_pruning: true, ..self }),
    {
        EncodeOptions { byte_budget: Some(n), rd_pruning: true, ..self }
    }

    /// Set the soft limit.
    #[must_use]
    pub fn with_target_bytes(self, n: u64) -> (o: Self)
        ensures
            o == (EncodeOptions { target_bytes: Some(n), ..self }),
    {
        EncodeOptions { target_bytes: Some(n), ..self }
    }

    /// Choose the wavelet filter from the statistics of the image.
    #[must_use]
    pub fn with_auto_filter(self) -> (o: Self)
        ensures
            o == (EncodeOptions { auto_filter: true, auto_filter_rd: false, ..self }),
    {
        EncodeOptions { auto_filter: true, auto_filter_rd: false, ..self }
    }

    /// Choose the wavelet filter by trial.
    #[must_use]
    pub fn with_auto_filter_rd(self) -> (o: Self)
        ensures
            o == (EncodeOptions { auto_filter: true, auto_filter_rd: true, ..self }),
    {
        EncodeOptions { auto_filter: true, auto_filter_rd: true, ..self }
    }

    /// Set the ranks of the segments. They must be the numbers below the
    /// number of segments, each once.
    #[must_use]
    pub fn with_segment_priorities(self, priorities: Vec<u16>) -> (o: Self)
        ensures
            o == (EncodeOptions { segment_priorities: Some(priorities), ..self }),
    {
        EncodeOptions { segment_priorities: Some(priorities), ..self }
    }

    /// Rank the segments from the middle of the image outwards.
    #[must_use]
    pub fn with_center_roi(self) -> (o: Self)
        ensures
            o == (EncodeOptions { segment_priorities: o.segment_priorities, ..self }),
            o.segment_priorities is Some,
            ({
                let n = if self.segment_count == 0 {
                    1int
                } else {
                    self.segment_count as int
                };
                o.segment_priorities->0@ == Seq::new(n as nat, |i: int| center_rank(n, i) as u16)
            }),
    {
        let n: usize = if self.segment_count == 0 {
            1
        } else {
            self.segment_count as usize
        };
        let mid: usize = n / 2;
        let mut ranks: Vec<u16> = Vec::new();
        let mut i: usize = 0;
        while i < n
            invariant
                i <= n <= 0xFFFF,
                mid == n / 2,
                ranks@.len() == i,
                forall|j: int| 0 <= j < i ==> #[trigger] ranks@[j] == center_rank(n as int, j) as u16,
            decreases n - i,
        {
            let rank: usize = if i < mid {
                2 * (mid - i) - 1
            } else {
                2 * (i - mid)
            };
            ranks.push(rank as u16);
            i = i + 1;
        }
        assert(ranks@ =~= Seq::new(n as nat, |i: int| center_rank(n as int, i) as u16));
        EncodeOptions { segment_priorities: Some(ranks), ..self }
    }

    /// Write raw samples for segments for which they are shorter.
    #[must_use]
    pub fn with_uncompressed_fallback(self) -> (o: Self)
        ensures
            o == (EncodeOptions { auto_uncompressed_fallback: true, ..self }),
    {
        EncodeOptions { auto_uncompressed_fallback: true, ..self }
    }

    /// Find the smallest stream whose squared error is at most `n`.
    #[must_use]
    pub fn with_quality_target(self, n: u64) -> (o: Self)
        ensures
            o == (EncodeOptions { quality_target: Some(n), ..self }),
    {
        EncodeOptions { quality_target: Some(n), ..self }
    }

    /// Use the interleaved entropy coder.
    #[must_use]
    pub fn with_interleaved_entropy(self) -> (o: Self)
        ensures
            o == (EncodeOptions { interleaved_entropy: true, ..self }),
    {
        EncodeOptions { interleaved_entropy: true, ..self }
    }

    /// Segment the image in the transform domain.
    #[must_use]
    pub fn with_transform_domain_segments(self) -> (o: Self)
        ensures
            o == (EncodeOptions { transform_segments: true, ..self }),
    {
        EncodeOptions { transform_segments: true, ..self }
    }

    /// Order the packets of a segment by priority.
    #[must_use]
    pub fn with_priority_interleaving(self) -> (o: Self)
        ensures
            o == (EncodeOptions { priority_interleaving: true, ..self }),
    {
        EncodeOptions { priority_interleaving: true, ..self }
    }

    /// Set the minimum loss.
    #[must_use]
    pub fn with_min_loss(self, m: u8) -> (o: Self)
        ensures
            o == (EncodeOptions { min_loss: m, ..self }),
    {
        EncodeOptions { min_loss: m, ..self }
    }

    /// Decomposition levels, 1 to 6.
    pub open spec fn levels(self) -> u8 {
        if self.wavelet_levels < 1 {
            1
        } else if self.wavelet_levels > 6 {
            6
        } else {
            self.wavelet_levels
        }
    }

    /// How segments are encoded with a filter and a bit depth.
    pub open spec fn settings(self, filter: WaveletFilter, bits: u8) -> Settings {
        Settings {
            sync_prefix: self.sync_prefix,
            filter,
            levels: self.levels(),
            bit_plane_count: self.bit_plane_count,
            interleaved: self.interleaved_entropy,
            priority: self.priority_interleaving,
            min_loss: self.min_loss,
            rd_pruning: self.rd_pruning,
            fallback: self.auto_uncompressed_fallback,
            uncompressed: self.uncompressed,
            target: self.target_bytes,
            bits,
            segment_count: self.segment_count,
            transform: self.transform_segments,
        }
    }

    /// How segments are encoded with a filter and a bit depth.
    pub(crate) fn make_settings(&self, filter: WaveletFilter, bits: u8) -> (set: Settings)
        ensures
            set == self.settings(filter, bits),
            1 <= set.levels <= 6,
    {
        let levels: u8 = if self.wavelet_levels < 1 {
            1
        } else if self.wavelet_levels > 6 {
            6
        } else {
            self.wavelet_levels
        };
        Settings {
            sync_prefix: self.sync_prefix,
            filter,
            levels,
            bit_plane_count: self.bit_plane_count,
            interleaved: self.interleaved_entropy,
            priority: self.priority_interleaving,
            min_loss: self.min_loss,
            rd_pruning: self.rd_pruning,
            fallback: self.auto_uncompressed_fallback,
            uncompressed: self.uncompressed,
            target: self.target_bytes,
            bits,
            segment_count: self.segment_count,
            transform: self.transform_segments,
        }
    }
}

/// **The ranks from the middle outwards are the numbers below the number of
/// segments, each once.**
pub proof fn center_ranks_are_ranks(n: int)
    requires
        1 <= n <= 0xFFFF,
    ensures
        is_ranking(Seq::new(n as nat, |i: int| center_rank(n, i) as u16), n),
{
    let v = Seq::new(n as nat, |i: int| center_rank(n, i) as u16);
    assert forall|i: int| 0 <= i < n implies #[trigger] v[i] < n by {
        assert(0 <= center_rank(n, i) < n);
    }
    assert forall|i: int, j: int| 0 <= i < j < n implies #[trigger] v[i] != #[trigger] v[j] by {
        assert(0 <= center_rank(n, i) < n);
        assert(0 <= center_rank(n, j) < n);
    }
}

// ---------------------------------------------------------------------------
// The order of segments
// ---------------------------------------------------------------------------

/// `v` holds the numbers below `n`, each once.
pub open spec fn is_ranking(v: Seq<u16>, n: int) -> bool {
    &&& v.len() == n
    &&& forall|i: int| 0 <= i < n ==> #[trigger] v[i] < n
    &&& forall|i: int, j: int| 0 <= i < j < n ==> #[trigger] v[i] != #[trigger] v[j]
}

/// The segment of a rank.
pub open spec fn at_rank(ranks: Seq<u16>, r: int) -> int {
    choose|i: int| 0 <= i < ranks.len() && #[trigger] ranks[i] == r
}

/// The order in which segments are written, or why there is none: by rank
/// where ranks are given, else by index.
pub open spec fn emission_order(ranks: Option<Vec<u16>>, n: int) -> core::result::Result<
    Seq<u16>,
    Fault,
> {
    match ranks {
        None => Ok(Seq::new(n as nat, |i: int| i as u16)),
        Some(v) => if is_ranking(v@, n) {
            Ok(Seq::new(n as nat, |r: int| at_rank(v@, r) as u16))
        } else {
            Err(Fault::Unsupported)
        },
    }
}

pub proof fn lemma_every_rank(v: Seq<u16>, n: int, r: int)
    requires
        is_ranking(v, n),
        0 <= r < n,
    ensures
        0 <= at_rank(v, r) < n,
        v[at_rank(v, r)] == r,
{
    if forall|i: int| 0 <= i < n ==> #[trigger] v[i] != r {
        // n values would be among the n - 1 numbers other than r
        let values = Set::new(|x: int| 0 <= x < n && x != r);
        vstd::set_lib::lemma_int_range(0, n);
        assert(values =~= vstd::set_lib::set_int_range(0, n).remove(r));
        assert(values.finite() && values.len() == n - 1);
        let taken = v.map_values(|x: u16| x as int);
        assert(taken.no_duplicates()) by {
            assert forall|i: int, j: int|
                0 <= i < taken.len() && 0 <= j < taken.len() && i != j implies taken[i]
                != taken[j] by {
                if i < j {
                    assert(v[i] != v[j]);
                } else {
                    assert(v[j] != v[i]);
                }
            }
        }
        taken.unique_seq_to_set();
        assert(taken.to_set().subset_of(values)) by {
            assert forall|x: int| taken.to_set().contains(x) implies values.contains(x) by {
                let i = choose|i: int| 0 <= i < taken.len() && taken[i] == x;
                assert(v[i] == x);
            }
        }
        vstd::set_lib::lemma_len_subset(taken.to_set(), values);
    }
    let i = choose|i: int| 0 <= i < n && #[trigger] v[i] == r;
    assert(0 <= i < v.len() && v[i] == r);
}

/// The order in which segments are written.
fn resolve_emission_order(ranks: &Option<Vec<u16>>, n: usize) -> (r: Result<Vec<u16>>)
    requires
        1 <= n <= 0xFFFF,
    ensures
        match emission_order(*ranks, n as int) {
            Err(f) => fails_with(r, f),
            Ok(order) => {
                &&& r is Ok
                &&& r->Ok_0@ == order
                &&& order.len() == n
                &&& forall|i: int| 0 <= i < n ==> #[trigger] order[i] < n
            },
        },
{
    match ranks {
        None => {
            let mut out: Vec<u16> = Vec::new();
            let mut i: usize = 0;
            while i < n
                invariant
                    i <= n <= 0xFFFF,
                    out@.len() == i,
                    forall|j: int| 0 <= j < i ==> #[trigger] out@[j] == j,
                decreases n - i,
            {
                out.push(i as u16);
                i = i + 1;
            }
            assert(out@ =~= Seq::new(n as nat, |i: int| i as u16));
            Ok(out)
        },
        Some(v) => {
            if v.len() != n {
                return Err(IcerError::unsupported("segment_priorities length != segment_count"));
            }
            let mut seen = repeated(false, n);
            let mut order = repeated(0u16, n);
            let mut i: usize = 0;
            while i < n
                invariant
                    i <= n <= 0xFFFF,
                    v@.len() == seen@.len() == order@.len() == n,
                    *ranks == Some(*v),
                    forall|j: int| 0 <= j < i ==> #[trigger] v@[j] < n,
                    forall|j: int, k: int|
                        0 <= j < k < i ==> #[trigger] v@[j] != #[trigger] v@[k],
                    forall|r: int|
                        0 <= r < n ==> (#[trigger] seen@[r] ==> order@[r] < i
                            && v@[order@[r] as int] == r),
                    forall|j: int| 0 <= j < i ==> seen@[#[trigger] v@[j] as int],
                decreases n - i,
            {
                let rank: usize = v[i] as usize;
                if rank >= n {
                    assert(!is_ranking(v@, n as int)) by {
                        assert(v@[i as int] >= n);
                    }
                    return Err(IcerError::unsupported("segment_priorities entry out of range"));
                }
                if seen[rank] {
                    assert(!is_ranking(v@, n as int)) by {
                        let j = order@[rank as int] as int;
                        assert(v@[j] == v@[i as int]);
                    }
                    return Err(
                        IcerError::unsupported("segment_priorities entry appears more than once"),
                    );
                }
                seen.set(rank, true);
                order.set(rank, i as u16);
                i = i + 1;
            }
            proof {
                assert(is_ranking(v@, n as int));
                let expected = Seq::new(n as nat, |r: int| at_rank(v@, r) as u16);
                assert forall|r: int| 0 <= r < n implies #[trigger] order@[r] == expected[r] && order@[r]
                    < n by {
                    lemma_every_rank(v@, n as int, r);
                    let i = at_rank(v@, r);
                    assert(seen@[v@[i] as int]);
                    let j = order@[r] as int;
                    assert(v@[j] == v@[i]);
                    if i < j {
                        assert(v@[i] != v@[j]);
                    } else if j < i {
                        assert(v@[j] != v@[i]);
                    }
                }
                assert(order@ =~= expected);
            }
            Ok(order)
        },
    }
}

// ---------------------------------------------------------------------------
// Strips
// ---------------------------------------------------------------------------

/// Height of strip `i`: every strip but the last has `each` rows.
pub open spec fn strip_rows(height: int, each: int, i: int) -> int {
    if height - i * each < each {
        height - i * each
    } else {
        each
    }
}

/// Strip `i` of a plane as a segment.
pub open spec fn strip_at(
    set: Settings,
    plane: IcerPlane,
    width: usize,
    height: int,
    each: int,
    i: int,
    budget: Option<u64>,
) -> core::result::Result<Segment, Fault> {
    strip_segment(
        set,
        plane,
        width,
        i * each,
        strip_rows(height, each, i) as usize,
        i as u16,
        budget,
    )
}

/// Headers of the empty strips.
pub open spec fn strip_headers(set: Settings, width: int, height: int, each: int, n: int) -> Seq<
    SegmentHeader,
> {
    Seq::new(
        n as nat,
        |i: int|
            strip_header(
                set,
                set.uncompressed,
                width,
                strip_rows(height, each, i),
                set.bit_plane_count,
                i as u16,
                0,
            ),
    )
}

/// The strips after the first `k` of `n`, in the order of their index, and
/// whether the budget was used up. A strip gets what the budget leaves beside
/// the empty segments of those behind it; one that does not fit is left out.
pub open spec fn strips_written(
    set: Settings,
    plane: IcerPlane,
    width: usize,
    height: int,
    each: int,
    n: int,
    budget: Option<u64>,
    k: int,
) -> core::result::Result<(Written, bool), Fault>
    decreases k,
{
    if k <= 0 {
        Ok((Written { segments: Seq::empty(), kept: Seq::new(n as nat, |i: int| false) }, false))
    } else {
        match strips_written(set, plane, width, height, each, n, budget, k - 1) {
            Err(f) => Err(f),
            Ok((w, full)) => {
                let used = stream_of(w.segments).len() as int;
                let reserve = 12 * (n - k);
                if full || (budget matches Some(b) && used >= b) {
                    Ok((w, true))
                } else {
                    let inner = match budget {
                        Some(b) => Some(left_of(b as int, used, reserve) as u64),
                        None => None,
                    };
                    match strip_at(set, plane, width, height, each, k - 1, inner) {
                        Err(f) => Err(f),
                        Ok(s) => if budget matches Some(b) && used + segment_stream(s).len()
                            + reserve > b {
                            Ok((w, false))
                        } else {
                            Ok(
                                (
                                    Written {
                                        segments: w.segments.push(s),
                                        kept: w.kept.update(k - 1, true),
                                    },
                                    false,
                                ),
                            )
                        },
                    }
                }
            },
        }
    }
}

/// The first `k` strips, each with the whole budget.
pub open spec fn all_strips(
    set: Settings,
    plane: IcerPlane,
    width: usize,
    height: int,
    each: int,
    budget: Option<u64>,
    k: int,
) -> core::result::Result<Seq<Segment>, Fault>
    decreases k,
{
    if k <= 0 {
        Ok(Seq::empty())
    } else {
        match all_strips(set, plane, width, height, each, budget, k - 1) {
            Err(f) => Err(f),
            Ok(before) => match strip_at(set, plane, width, height, each, k - 1, budget) {
                Err(f) => Err(f),
                Ok(s) => Ok(before.push(s)),
            },
        }
    }
}

/// The segments that are written after the first `k` of an order: those that
/// fit into the budget beside the empty segments of the others.
pub open spec fn ranked_written(strips: Seq<Segment>, order: Seq<u16>, budget: Option<u64>, k: int) -> Written
    decreases k,
{
    if k <= 0 {
        Written { segments: Seq::empty(), kept: Seq::new(strips.len(), |i: int| false) }
    } else {
        let w = ranked_written(strips, order, budget, k - 1);
        let i = order[k - 1] as int;
        if budget matches Some(b) && stream_of(w.segments).len() + segment_stream(strips[i]).len()
            + reserve_of(w.kept, i) > b {
            w
        } else {
            Written { segments: w.segments.push(strips[i]), kept: w.kept.update(i, true) }
        }
    }
}

/// A plane cannot be divided into `n` strips of at least two rows.
pub open spec fn strips_refused(width: int, height: int, n: int) -> bool {
    let each = ceil_div(height, n);
    each < 2 || ceil_div(height, each) != n || width > 0xFFFF || each > 0xFFFF
}

/// The segments of a plane in strips, or why it cannot be encoded.
pub open spec fn strips_encoded(
    ranks: Option<Vec<u16>>,
    set: Settings,
    plane: IcerPlane,
    width: usize,
    height: usize,
    n: int,
    budget: Option<u64>,
) -> core::result::Result<Seq<Segment>, Fault> {
    if n == 1 {
        if width > 0xFFFF || height > 0xFFFF {
            Err(Fault::Unsupported)
        } else {
            match strip_segment(set, plane, width, 0, height, 0, budget) {
                Err(f) => Err(f),
                Ok(s) => if budget matches Some(b) && segment_stream(s).len() > b {
                    Ok(
                        seq![
                            empty_segment(
                                strip_headers(set, width as int, height as int, height as int, 1)[0],
                            ),
                        ],
                    )
                } else {
                    Ok(seq![s])
                },
            }
        }
    } else {
        let each = ceil_div(height as int, n);
        let headers = strip_headers(set, width as int, height as int, each, n);
        if strips_refused(width as int, height as int, n) {
            Err(Fault::Unsupported)
        } else {
            match emission_order(ranks, n) {
                Err(f) => Err(f),
                Ok(order) => if ranks is None {
                    match strips_written(
                        set,
                        plane,
                        width,
                        height as int,
                        each,
                        n,
                        budget,
                        n,
                    ) {
                        Err(f) => Err(f),
                        Ok((w, _)) => Ok(w.segments + placeholders(w.kept, headers, n)),
                    }
                } else {
                    match all_strips(set, plane, width, height as int, each, budget, n) {
                        Err(f) => Err(f),
                        Ok(strips) => {
                            let w = ranked_written(strips, order, budget, n);
                            Ok(w.segments + placeholders(w.kept, headers, n))
                        },
                    }
                },
            }
        }
    }
}

/// The segments of a plane, or why it cannot be encoded.
pub open spec fn plane_segments(
    set: Settings,
    ranks: Option<Vec<u16>>,
    plane: IcerPlane,
    width: usize,
    height: usize,
    budget: Option<u64>,
) -> core::result::Result<Seq<Segment>, Fault> {
    let n = set.count();
    if set.conflicting() {
        Err(Fault::Unsupported)
    } else if set.transform {
        if width < 2 || height < 2 || width > 0xFFFF || height > 0xFFFF || n > 255 || !is_integer(
            set.filter,
        ) || !can_segment(width as int, height as int, set.levels as int, n) {
            Err(Fault::Unsupported)
        } else {
            match emission_order(ranks, n) {
                Err(f) => Err(f),
                Ok(order) => parts_encoded(
                    set,
                    coefficients(
                        set,
                        shifted_samples(plane, set.bits, width as int, 0, height as int),
                        width,
                        height,
                    ),
                    width,
                    height,
                    n as u8,
                    order,
                    budget,
                ),
            }
        }
    } else {
        strips_encoded(ranks, set, plane, width, height, n, budget)
    }
}

/// What encoding a plane asks of it: its rows are there, and their bytes can
/// be counted.
pub open spec fn plane_ok(plane: IcerPlane, width: int, height: int, bits: u8) -> bool {
    &&& depth_in_range(bits)
    &&& width * sample_size(bits) <= usize::MAX
    &&& width * height * sample_size(bits) <= usize::MAX
    &&& rows_inside(plane, width * sample_size(bits), height)
}

proof fn lemma_strip_ok(plane: IcerPlane, width: int, height: int, bits: u8, y0: int, rows: int)
    requires
        plane_ok(plane, width, height, bits),
        width >= 0,
        0 <= y0,
        1 <= rows,
        y0 + rows <= height,
    ensures
        width * rows * sample_size(bits) <= usize::MAX,
        rows_inside(plane, width * sample_size(bits), y0 + rows),
{
    let size = sample_size(bits);
    assert(width * rows * size <= width * height * size) by (nonlinear_arith)
        requires
            width >= 0,
            0 <= rows <= height,
            size >= 0,
    ;
    assert((y0 + rows - 1) * plane.stride <= (height - 1) * plane.stride) by (nonlinear_arith)
        requires
            0 <= y0 + rows - 1 <= height - 1,
            plane.stride >= 0,
    ;
}

fn transform_parts(
    set: &Settings,
    ranks: &Option<Vec<u16>>,
    plane: &IcerPlane,
    width: usize,
    height: usize,
    budget: Option<u64>,
) -> (r: Result<Vec<u8>>)
    requires
        set.transform,
        !set.conflicting(),
        set.ok(),
        width >= 1,
        height >= 1,
        plane_ok(*plane, width as int, height as int, set.bits),
    ensures
        match plane_segments(*set, *ranks, *plane, width, height, budget) {
            Err(f) => fails_with(r, f),
            Ok(segments) => r is Ok && r->Ok_0@ == stream_of(segments),
        },
{
    if width < 2 || height < 2 {
        return Err(IcerError::unsupported("compressed encode requires width >= 2 and height >= 2"));
    }
    if width > 0xFFFF || height > 0xFFFF {
        return Err(IcerError::unsupported("image larger than 65535 in a direction"));
    }
    let n: usize = set.segments();
    if n > 255 {
        return Err(IcerError::unsupported("transform-domain segment count exceeds 255"));
    }
    if !has_integer_transform(set.filter) {
        return Err(IcerError::unsupported("the wavelet filter has no integer transform"));
    }
    proof {
        let a = width * height;
        assert(0 <= a <= a * sample_size(set.bits)) by (nonlinear_arith)
            requires
                a == width * height,
                width >= 0,
                height >= 0,
                sample_size(set.bits) >= 1,
        ;
    }
    match divide_image(width, height, set.levels, n) {
        Ok(_) => {},
        Err(e) => return Err(e),
    }
    let order = match resolve_emission_order(ranks, n) {
        Ok(o) => o,
        Err(e) => return Err(e),
    };
    let mut coeffs = read_samples(plane, set.bits, width, 0, height);
    forward_2d_dyadic(&mut coeffs, width, height, set.levels, set.filter);
    assert(order@ == emission_order(*ranks, n as int)->Ok_0);
    encode_parts(set, &coeffs, width, height, n as u8, &order, budget)
}

fn make_strip_headers(set: &Settings, width: usize, height: usize, each: usize, n: usize) -> (headers: Vec<
    SegmentHeader,
>)
    requires
        1 <= n <= 0xFFFF,
        (n - 1) * each < height,
        each >= 1,
    ensures
        headers@ == strip_headers(*set, width as int, height as int, each as int, n as int),
{
    let mut headers: Vec<SegmentHeader> = Vec::new();
    let mut i: usize = 0;
    while i < n
        invariant
            i <= n <= 0xFFFF,
            (n - 1) * each < height,
            each >= 1,
            headers@.len() == i,
            forall|j: int|
                0 <= j < i ==> #[trigger] headers@[j] == strip_headers(
                    *set,
                    width as int,
                    height as int,
                    each as int,
                    n as int,
                )[j],
        decreases n - i,
    {
        let (_, rows) = strip_place(height, each, i, n);
        headers.push(
            make_strip_header(
                set,
                set.uncompressed,
                width,
                rows,
                set.bit_plane_count,
                i as u16,
                0,
            ),
        );
        i = i + 1;
    }
    assert(headers@ =~= strip_headers(*set, width as int, height as int, each as int, n as int));
    headers
}

/// Where strip `i` starts, and its height.
fn strip_place(height: usize, each: usize, i: usize, n: usize) -> (r: (usize, usize))
    requires
        i < n,
        (n - 1) * each < height,
    ensures
        r.0 == i * each,
        r.1 == strip_rows(height as int, each as int, i as int),
        r.0 + r.1 <= height,
        each >= 1 ==> r.1 >= 1,
{
    assert(0 <= i * each <= (n - 1) * each) by (nonlinear_arith)
        requires
            0 <= i <= n - 1,
            each >= 0,
    ;
    let start: usize = i * each;
    let left: usize = height - start;
    if left < each {
        (start, left)
    } else {
        (start, each)
    }
}

proof fn lemma_strips_stop(
    set: Settings,
    plane: IcerPlane,
    width: usize,
    height: int,
    each: int,
    n: int,
    budget: Option<u64>,
    k: int,
    m: int,
)
    requires
        0 <= k <= m,
        strips_written(set, plane, width, height, each, n, budget, k) is Err || strips_written(
            set,
            plane,
            width,
            height,
            each,
            n,
            budget,
            k,
        )->Ok_0.1,
    ensures
        strips_written(set, plane, width, height, each, n, budget, m) == strips_written(
            set,
            plane,
            width,
            height,
            each,
            n,
            budget,
            k,
        ),
    decreases m,
{
    if m > k {
        lemma_strips_stop(set, plane, width, height, each, n, budget, k, m - 1);
    }
}

/// Write strips in the order of their index.
fn write_strips(
    set: &Settings,
    plane: &IcerPlane,
    width: usize,
    height: usize,
    each: usize,
    n: usize,
    budget: Option<u64>,
) -> (r: Result<Vec<u8>>)
    requires
        set.ok(),
        1 <= n <= 0xFFFF,
        1 <= each,
        (n - 1) * each < height,
        plane_ok(*plane, width as int, height as int, set.bits),
    ensures
        match strips_written(
            *set,
            *plane,
            width,
            height as int,
            each as int,
            n as int,
            budget,
            n as int,
        ) {
            Err(f) => fails_with(r, f),
            Ok((w, _)) => r is Ok && r->Ok_0@ == stream_of(
                w.segments + placeholders(
                    w.kept,
                    strip_headers(*set, width as int, height as int, each as int, n as int),
                    n as int,
                ),
            ),
        },
{
    let mut out: Vec<u8> = Vec::new();
    let mut kept = repeated(false, n);
    let ghost mut w = Written {
        segments: Seq::empty(),
        kept: Seq::new(n as nat, |i: int| false),
    };
    assert(kept@ =~= w.kept);
    let mut full: bool = false;
    let mut k: usize = 0;
    while k < n && !full
        invariant
            k <= n <= 0xFFFF,
            set.ok(),
            1 <= each,
            (n - 1) * each < height,
            plane_ok(*plane, width as int, height as int, set.bits),
            strips_written(
                *set,
                *plane,
                width,
                height as int,
                each as int,
                n as int,
                budget,
                k as int,
            ) == Ok::<(Written, bool), Fault>((w, full)),
            w.kept == kept@,
            kept@.len() == n,
            out@ == stream_of(w.segments),
        decreases n - k,
    {
        k = k + 1;
        let used: usize = out.len();
        let used_up: bool = match budget {
            Some(b) => used as u64 >= b,
            None => false,
        };
        if used_up {
            full = true;
        } else {
            let inner: Option<u64> = match budget {
                Some(b) => Some(bytes_left(b, used, n - k)),
                None => None,
            };
            let (y0, rows) = strip_place(height, each, k - 1, n);
            proof {
                lemma_strip_ok(
                    *plane,
                    width as int,
                    height as int,
                    set.bits,
                    y0 as int,
                    rows as int,
                );
            }
            let bytes = match encode_one_segment(
                set,
                plane,
                width,
                y0,
                rows,
                (k - 1) as u16,
                inner,
            ) {
                Ok(b) => b,
                Err(e) => {
                    proof {
                        lemma_strips_stop(
                            *set,
                            *plane,
                            width,
                            height as int,
                            each as int,
                            n as int,
                            budget,
                            k as int,
                            n as int,
                        );
                    }
                    return Err(e);
                },
            };
            let fits: bool = match budget {
                Some(b) => used as u128 + bytes.len() as u128 + 12 * (n - k) as u128 <= b as u128,
                None => true,
            };
            if fits {
                append_bytes(&mut out, bytes.as_slice());
                kept.set(k - 1, true);
                proof {
                    let s = strip_at(
                        *set,
                        *plane,
                        width,
                        height as int,
                        each as int,
                        k - 1,
                        inner,
                    )->Ok_0;
                    lemma_stream_push(w.segments, s);
                    w = Written { segments: w.segments.push(s), kept: w.kept.update(k - 1, true) };
                }
            }
        }
    }
    proof {
        if full {
            lemma_strips_stop(
                *set,
                *plane,
                width,
                height as int,
                each as int,
                n as int,
                budget,
                k as int,
                n as int,
            );
        }
    }
    let headers = make_strip_headers(set, width, height, each, n);
    emit_skipped_placeholders(&mut out, &kept, &headers, Ghost(w.segments));
    Ok(out)
}

proof fn lemma_all_stop(
    set: Settings,
    plane: IcerPlane,
    width: usize,
    height: int,
    each: int,
    budget: Option<u64>,
    k: int,
    m: int,
)
    requires
        1 <= k <= m,
        all_strips(set, plane, width, height, each, budget, k) is Err,
    ensures
        all_strips(set, plane, width, height, each, budget, m) == all_strips(
            set,
            plane,
            width,
            height,
            each,
            budget,
            k,
        ),
    decreases m,
{
    if m > k {
        lemma_all_stop(set, plane, width, height, each, budget, k, m - 1);
    }
}

/// The bytes of segments.
pub open spec fn are_streams(v: Seq<Vec<u8>>, segments: Seq<Segment>) -> bool {
    &&& v.len() == segments.len()
    &&& forall|i: int| 0 <= i < v.len() ==> (#[trigger] v[i])@ == segment_stream(segments[i])
}

/// Write strips by their rank.
fn write_ranked(
    set: &Settings,
    plane: &IcerPlane,
    width: usize,
    height: usize,
    each: usize,
    n: usize,
    order: &Vec<u16>,
    budget: Option<u64>,
) -> (r: Result<Vec<u8>>)
    requires
        set.ok(),
        1 <= n <= 0xFFFF,
        1 <= each,
        (n - 1) * each < height,
        plane_ok(*plane, width as int, height as int, set.bits),
        order@.len() == n,
        forall|i: int| 0 <= i < n ==> #[trigger] order@[i] < n,
    ensures
        match all_strips(
            *set,
            *plane,
            width,
            height as int,
            each as int,
            budget,
            n as int,
        ) {
            Err(f) => fails_with(r, f),
            Ok(strips) => {
                let w = ranked_written(strips, order@, budget, n as int);
                r is Ok && r->Ok_0@ == stream_of(
                    w.segments + placeholders(
                        w.kept,
                        strip_headers(*set, width as int, height as int, each as int, n as int),
                        n as int,
                    ),
                )
            },
        },
{
    let mut encoded: Vec<Vec<u8>> = Vec::new();
    let ghost mut strips: Seq<Segment> = Seq::empty();
    let mut k: usize = 0;
    while k < n
        invariant
            k <= n <= 0xFFFF,
            set.ok(),
            1 <= each,
            (n - 1) * each < height,
            plane_ok(*plane, width as int, height as int, set.bits),
            all_strips(
                *set,
                *plane,
                width,
                height as int,
                each as int,
                budget,
                k as int,
            ) == Ok::<Seq<Segment>, Fault>(strips),
            strips.len() == k,
            are_streams(encoded@, strips),
        decreases n - k,
    {
        let (y0, rows) = strip_place(height, each, k, n);
        proof {
            lemma_strip_ok(
                *plane,
                width as int,
                height as int,
                set.bits,
                y0 as int,
                rows as int,
            );
        }
        match encode_one_segment(set, plane, width, y0, rows, k as u16, budget) {
            Ok(b) => {
                proof {
                    strips = strips.push(
                        strip_at(
                            *set,
                            *plane,
                            width,
                            height as int,
                            each as int,
                            k as int,
                            budget,
                        )->Ok_0,
                    );
                }
                encoded.push(b);
            },
            Err(e) => {
                proof {
                    lemma_all_stop(
                        *set,
                        *plane,
                        width,
                        height as int,
                        each as int,
                        budget,
                        k + 1,
                        n as int,
                    );
                }
                return Err(e);
            },
        }
        k = k + 1;
    }
    let mut out: Vec<u8> = Vec::new();
    let mut kept = repeated(false, n);
    let ghost mut w = ranked_written(strips, order@, budget, 0);
    assert(kept@ =~= w.kept);
    let mut k: usize = 0;
    while k < n
        invariant
            k <= n <= 0xFFFF,
            order@.len() == n,
            forall|i: int| 0 <= i < n ==> #[trigger] order@[i] < n,
            strips.len() == n,
            are_streams(encoded@, strips),
            w == ranked_written(strips, order@, budget, k as int),
            w.kept == kept@,
            kept@.len() == n,
            out@ == stream_of(w.segments),
        decreases n - k,
    {
        let index: usize = order[k] as usize;
        assert(order@[k as int] < n);
        assert(encoded@[index as int]@ == segment_stream(strips[index as int]));
        let fits: bool = match budget {
            Some(b) => {
                let others: usize = others_missing(&kept, index);
                out.len() as u128 + encoded[index].len() as u128 + 12 * others as u128 <= b as u128
            },
            None => true,
        };
        if fits {
            append_bytes(&mut out, encoded[index].as_slice());
            kept.set(index, true);
            proof {
                lemma_stream_push(w.segments, strips[index as int]);
                w = Written {
                    segments: w.segments.push(strips[index as int]),
                    kept: w.kept.update(index as int, true),
                };
            }
        }
        k = k + 1;
    }
    let headers = make_strip_headers(set, width, height, each, n);
    emit_skipped_placeholders(&mut out, &kept, &headers, Ghost(w.segments));
    Ok(out)
}

/// Encode a plane as one strip.
fn encode_single_strip(
    set: &Settings,
    plane: &IcerPlane,
    width: usize,
    height: usize,
    budget: Option<u64>,
) -> (r: Result<Vec<u8>>)
    requires
        set.ok(),
        width >= 1,
        height >= 1,
        plane_ok(*plane, width as int, height as int, set.bits),
    ensures
        match strips_encoded(None, *set, *plane, width, height, 1, budget) {
            Err(f) => fails_with(r, f),
            Ok(segments) => r is Ok && r->Ok_0@ == stream_of(segments),
        },
{
    if width > 0xFFFF || height > 0xFFFF {
        return Err(IcerError::unsupported("segment larger than 65535 in a direction"));
    }
    let bytes = match encode_one_segment(set, plane, width, 0, height, 0, budget) {
        Ok(b) => b,
        Err(e) => return Err(e),
    };
    let fits: bool = match budget {
        Some(b) => bytes.len() as u64 <= b,
        None => true,
    };
    proof {
        let s = strip_segment(*set, *plane, width, 0, height, 0, budget)->Ok_0;
        lemma_stream_push(Seq::empty(), s);
        assert(Seq::empty().push(s) =~= seq![s]);
        assert(stream_of(Seq::<Segment>::empty()) =~= Seq::empty());
        assert(stream_of(seq![s]) =~= segment_stream(s));
    }
    if fits {
        return Ok(bytes);
    }
    let headers = make_strip_headers(set, width, height, height, 1);
    let mut out: Vec<u8> = Vec::new();
    let kept = repeated(false, 1);
    emit_skipped_placeholders(&mut out, &kept, &headers, Ghost(Seq::empty()));
    proof {
        let p = placeholders(kept@, headers@, 1);
        assert(placeholders(kept@, headers@, 0) =~= Seq::<Segment>::empty());
        assert(Seq::<Segment>::empty() + p =~= seq![empty_segment(headers@[0])]);
    }
    Ok(out)
}

/// Encode a plane as more than one strip.
fn encode_strips(
    ranks: &Option<Vec<u16>>,
    set: &Settings,
    plane: &IcerPlane,
    width: usize,
    height: usize,
    n: usize,
    budget: Option<u64>,
) -> (r: Result<Vec<u8>>)
    requires
        set.ok(),
        width >= 1,
        height >= 1,
        2 <= n <= 0xFFFF,
        plane_ok(*plane, width as int, height as int, set.bits),
    ensures
        match strips_encoded(*ranks, *set, *plane, width, height, n as int, budget) {
            Err(f) => fails_with(r, f),
            Ok(segments) => r is Ok && r->Ok_0@ == stream_of(segments),
        },
{
    let each: usize = div_up(height, n);
    if each < 2 {
        return Err(IcerError::unsupported("segment_count too high for the image height"));
    }
    if div_up(height, each) != n {
        return Err(IcerError::unsupported("segment_count leaves strips empty"));
    }
    if width > 0xFFFF || each > 0xFFFF {
        return Err(IcerError::unsupported("segment larger than 65535 in a direction"));
    }
    let order = match resolve_emission_order(ranks, n) {
        Ok(o) => o,
        Err(e) => return Err(e),
    };
    proof {
        lemma_last_strip(height as int, each as int, n as int);
    }
    match ranks {
        None => write_strips(set, plane, width, height, each, n, budget),
        Some(_) => write_ranked(set, plane, width, height, each, n, &order, budget),
    }
}

/// Encode a plane within a budget.
pub(crate) fn encode_plane_once(
    set: &Settings,
    ranks: &Option<Vec<u16>>,
    plane: &IcerPlane,
    width: usize,
    height: usize,
    budget: Option<u64>,
) -> (r: Result<Vec<u8>>)
    requires
        set.ok(),
        width >= 1,
        height >= 1,
        plane_ok(*plane, width as int, height as int, set.bits),
    ensures
        match plane_segments(*set, *ranks, *plane, width, height, budget) {
            Err(f) => fails_with(r, f),
            Ok(segments) => r is Ok && r->Ok_0@ == stream_of(segments),
        },
{
    if set.is_conflicting() {
        return Err(IcerError::unsupported("the options contradict each other"));
    }
    if set.transform {
        return transform_parts(set, ranks, plane, width, height, budget);
    }
    let n: usize = set.segments();
    if n == 1 {
        return encode_single_strip(set, plane, width, height, budget);
    }
    encode_strips(ranks, set, plane, width, height, n, budget)
}

/// The last strip is not empty.
pub proof fn lemma_last_strip(height: int, each: int, n: int)
    requires
        each >= 1,
        n >= 1,
        ceil_div(height, each) == n,
    ensures
        (n - 1) * each < height,
        height <= n * each,
{
    let a = height + each - 1;
    vstd::arithmetic::div_mod::lemma_fundamental_div_mod(a, each);
    assert(0 <= a % each < each);
    assert(each * n == n * each) by (nonlinear_arith);
    assert((n - 1) * each == n * each - each) by (nonlinear_arith);
}

// ---------------------------------------------------------------------------
// Planes
// ---------------------------------------------------------------------------

/// Which limits hold for a stream.
#[derive(Debug, Clone, Copy, PartialEq, Eq, Structural)]
pub enum Limits {
    /// Those of the options.
    Given,
    /// Those of the options but for the quality target.
    Bytes,
    /// None.
    Free,
    /// A byte budget.
    Budget(u64),
}

/// What of a byte budget is left for the stream of a plane: deep gray samples
/// need a container of 9 bytes.
pub open spec fn inner_budget(format: IcerPixelFormat, budget: Option<u64>) -> Option<u64> {
    match (format, budget) {
        (IcerPixelFormat::GrayDeep { .. }, Some(b)) => Some(
            left_of(b as int, DEEP_GRAY_OVERHEAD as int, 0) as u64,
        ),
        _ => budget,
    }
}

fn budget_inside(format: IcerPixelFormat, budget: Option<u64>) -> (r: Option<u64>)
    ensures
        r == inner_budget(format, budget),
{
    match (format, budget) {
        (IcerPixelFormat::GrayDeep { .. }, Some(b)) => Some(
            if b < DEEP_GRAY_OVERHEAD as u64 {
                0
            } else {
                b - DEEP_GRAY_OVERHEAD as u64
            },
        ),
        _ => budget,
    }
}

/// The bytes of segments.
pub open spec fn as_stream(r: core::result::Result<Seq<Segment>, Fault>) -> core::result::Result<
    Seq<u8>,
    Fault,
> {
    match r {
        Err(f) => Err(f),
        Ok(segments) => Ok(stream_of(segments)),
    }
}

/// The stream of a plane with a filter, or why there is none. A quality target
/// does not go together with limits.
#[verifier::opaque]
pub open spec fn plane_stream(
    opts: &EncodeOptions,
    filter: WaveletFilter,
    limits: Limits,
    format: IcerPixelFormat,
    plane: &IcerPlane,
    width: usize,
    height: usize,
) -> core::result::Result<Seq<u8>, Fault> {
    let set = opts.settings(filter, depth_of_format(format));
    let ranks = &opts.segment_priorities;
    match limits {
        Limits::Given => if opts.quality_target is Some && !opts.uncompressed {
            if opts.byte_budget is Some || opts.target_bytes is Some || opts.rd_pruning {
                Err(Fault::Unsupported)
            } else {
                plane_searched(set, ranks, plane, width, height, opts.quality_target->0)
            }
        } else {
            as_stream(
                plane_segments(
                    set,
                    *ranks,
                    *plane,
                    width,
                    height,
                    inner_budget(format, opts.byte_budget),
                ),
            )
        },
        Limits::Bytes => as_stream(
            plane_segments(
                set,
                *ranks,
                *plane,
                width,
                height,
                inner_budget(format, opts.byte_budget),
            ),
        ),
        Limits::Free => as_stream(
            plane_segments(unlimited_settings(set), *ranks, *plane, width, height, None),
        ),
        Limits::Budget(b) => as_stream(
            plane_segments(set, *ranks, *plane, width, height, inner_budget(format, Some(b))),
        ),
    }
}

fn encode_plane_stream(
    opts: &EncodeOptions,
    filter: WaveletFilter,
    limits: Limits,
    format: IcerPixelFormat,
    plane: &IcerPlane,
    width: usize,
    height: usize,
) -> (r: Result<Vec<u8>>)
    requires
        width >= 1,
        height >= 1,
        plane_ok(*plane, width as int, height as int, depth_of_format(format)),
    ensures
        match plane_stream(opts, filter, limits, format, plane, width, height) {
            Err(f) => fails_with(r, f),
            Ok(bytes) => r is Ok && r->Ok_0@ == bytes,
        },
{
    reveal(plane_stream);
    let set = opts.make_settings(filter, format.bit_depth());
    let ranks = &opts.segment_priorities;
    match limits {
        Limits::Given => {
            match opts.quality_target {
                Some(target) => {
                    if !opts.uncompressed {
                        if opts.byte_budget.is_some() || opts.target_bytes.is_some()
                            || opts.rd_pruning {
                            return Err(
                                IcerError::unsupported(
                                    "quality_target conflicts with limits; pick one",
                                ),
                            );
                        }
                        return search_plane(&set, ranks, plane, width, height, target);
                    }
                },
                None => {},
            }
            let budget = budget_inside(format, opts.byte_budget);
            encode_plane_once(&set, ranks, plane, width, height, budget)
        },
        Limits::Bytes => {
            let budget = budget_inside(format, opts.byte_budget);
            encode_plane_once(&set, ranks, plane, width, height, budget)
        },
        Limits::Free => {
            let free = Settings { target: None, rd_pruning: false, fallback: false, ..set };
            encode_plane_once(&free, ranks, plane, width, height, None)
        },
        Limits::Budget(b) => {
            let budget = budget_inside(format, Some(b));
            encode_plane_once(&set, ranks, plane, width, height, budget)
        },
    }
}

// ---------------------------------------------------------------------------
// The choice of a filter by trial
// ---------------------------------------------------------------------------

/// The filters that are tried where none are given.
pub const DEFAULT_RD_CANDIDATES: [WaveletFilter; 2] = [
    WaveletFilter::Reversible53,
    WaveletFilter::NineSevenA,
];

/// The candidate of the shortest stream among the first `k`, with its length.
pub open spec fn shortest_until(outcomes: Seq<core::result::Result<Seq<u8>, Fault>>, k: int) -> Option<
    (int, int),
>
    decreases k,
{
    if k <= 0 {
        None
    } else {
        let before = shortest_until(outcomes, k - 1);
        match outcomes[k - 1] {
            Err(_) => before,
            Ok(bytes) => match before {
                None => Some((k - 1, bytes.len() as int)),
                Some((_, n)) => if bytes.len() < n {
                    Some((k - 1, bytes.len() as int))
                } else {
                    before
                },
            },
        }
    }
}

/// The candidate of the shortest stream with its length; where none has a
/// stream, the fault of the last.
pub open spec fn picked(outcomes: Seq<core::result::Result<Seq<u8>, Fault>>) -> core::result::Result<
    (int, int),
    Fault,
> {
    if outcomes.len() == 0 {
        Err(Fault::InvalidData)
    } else {
        match shortest_until(outcomes, outcomes.len() as int) {
            Some(p) => Ok(p),
            None => Err(outcomes.last()->Err_0),
        }
    }
}

/// **No candidate has a shorter stream than the one that is picked, and none
/// before it one as short.**
pub proof fn pick_is_shortest(outcomes: Seq<core::result::Result<Seq<u8>, Fault>>, k: int)
    requires
        0 <= k <= outcomes.len(),
    ensures
        match shortest_until(outcomes, k) {
            None => forall|i: int| 0 <= i < k ==> (#[trigger] outcomes[i]) is Err,
            Some((best, n)) => {
                &&& 0 <= best < k
                &&& outcomes[best] is Ok
                &&& outcomes[best]->Ok_0.len() == n
                &&& forall|i: int|
                    0 <= i < k && (#[trigger] outcomes[i]) is Ok ==> n <= outcomes[i]->Ok_0.len()
                        && (i < best ==> n < outcomes[i]->Ok_0.len())
            },
        },
    decreases k,
{
    if k > 0 {
        pick_is_shortest(outcomes, k - 1);
    }
}

/// The streams of a plane with the filters that are tried.
pub open spec fn plane_outcomes(
    opts: &EncodeOptions,
    limits: Limits,
    format: IcerPixelFormat,
    plane: &IcerPlane,
    width: usize,
    height: usize,
) -> Seq<core::result::Result<Seq<u8>, Fault>> {
    Seq::new(
        2,
        |i: int|
            plane_stream(
                opts,
                DEFAULT_RD_CANDIDATES@[i],
                limits,
                format,
                plane,
                width,
                height,
            ),
    )
}

/// The filter of a plane, or why there is none: that of the options, or where
/// they ask for it that of the statistics or that of the shortest stream.
pub open spec fn plane_filter(
    opts: &EncodeOptions,
    limits: Limits,
    format: IcerPixelFormat,
    plane: &IcerPlane,
    width: usize,
    height: usize,
) -> core::result::Result<WaveletFilter, Fault> {
    let bits = depth_of_format(format);
    if !opts.auto_filter || opts.uncompressed {
        Ok(opts.filter)
    } else if opts.auto_filter_rd {
        match picked(plane_outcomes(opts, limits, format, plane, width, height)) {
            Err(f) => Err(f),
            Ok((i, _)) => Ok(DEFAULT_RD_CANDIDATES@[i]),
        }
    } else {
        Ok(
            recommended(
                stats_of(
                    shifted_samples(*plane, bits, width as int, 0, height as int),
                    bits,
                    width as int,
                ),
            ),
        )
    }
}

fn choose_filter(
    opts: &EncodeOptions,
    limits: Limits,
    format: IcerPixelFormat,
    plane: &IcerPlane,
    width: usize,
    height: usize,
) -> (r: Result<WaveletFilter>)
    requires
        width >= 1,
        height >= 1,
        plane_ok(*plane, width as int, height as int, depth_of_format(format)),
    ensures
        match plane_filter(opts, limits, format, plane, width, height) {
            Err(f) => fails_with(r, f),
            Ok(filter) => r is Ok && r->Ok_0 == filter,
        },
{
    if !opts.auto_filter || opts.uncompressed {
        return Ok(opts.filter);
    }
    if !opts.auto_filter_rd {
        let bits: u8 = format.bit_depth();
        proof {
            let a = width * height;
            assert(0 <= a <= a * sample_size(bits)) by (nonlinear_arith)
                requires
                    a == width * height,
                    width >= 0,
                    height >= 0,
                    sample_size(bits) >= 1,
            ;
        }
        let samples = read_samples(plane, bits, width, 0, height);
        let stats = measure_stats(&samples, bits, width);
        return Ok(recommend_filter(&stats));
    }
    let ghost outcomes = plane_outcomes(opts, limits, format, plane, width, height);
    let mut best: Option<(usize, usize)> = None;
    let mut last = Fault::InvalidData;
    let mut k: usize = 0;
    while k < 2
        invariant
            k <= 2,
            width >= 1,
            height >= 1,
            plane_ok(*plane, width as int, height as int, depth_of_format(format)),
            outcomes == plane_outcomes(opts, limits, format, plane, width, height),
            shortest_until(outcomes, k as int) == (match best {
                Some((i, n)) => Some((i as int, n as int)),
                None => None,
            }),
            best matches Some((i, _)) ==> i < k,
            k > 0 && best is None ==> outcomes[k - 1] is Err && outcomes[k - 1]->Err_0 == last,
        decreases 2 - k,
    {
        let filter = DEFAULT_RD_CANDIDATES[k];
        match encode_plane_stream(opts, filter, limits, format, plane, width, height) {
            Ok(bytes) => {
                assert(outcomes[k as int] == Ok::<Seq<u8>, Fault>(bytes@));
                best = shorter(best, k, bytes.len());
            },
            Err(e) => {
                assert(outcomes[k as int] is Err);
                last = fault_of(&e);
            },
        }
        k = k + 1;
    }
    match best {
        Some((i, _)) => Ok(DEFAULT_RD_CANDIDATES[i]),
        None => Err(error_of_fault(last)),
    }
}

fn shorter(best: Option<(usize, usize)>, k: usize, n: usize) -> (r: Option<(usize, usize)>)
    ensures
        r == (match best {
            None => Some((k, n)),
            Some((i, m)) => if n < m {
                Some((k, n))
            } else {
                Some((i, m))
            },
        }),
{
    match best {
        None => Some((k, n)),
        Some((i, m)) => {
            if n < m {
                Some((k, n))
            } else {
                Some((i, m))
            }
        },
    }
}

fn fault_of(e: &IcerError) -> (f: Fault)
    ensures
        f == e.fault(),
{
    match e {
        IcerError::InvalidData(_) => Fault::InvalidData,
        IcerError::Unsupported(_) => Fault::Unsupported,
        IcerError::Truncated => Fault::Truncated,
    }
}

fn error_of_fault(f: Fault) -> (e: IcerError)
    ensures
        e.fault() == f,
{
    match f {
        Fault::InvalidData => IcerError::invalid("every candidate filter failed"),
        Fault::Unsupported => IcerError::unsupported("every candidate filter failed"),
        Fault::Truncated => IcerError::Truncated,
    }
}

// ---------------------------------------------------------------------------
// Images
// ---------------------------------------------------------------------------

/// How an image is encoded: with a filter or the one that the options lead to,
/// and within limits.
#[derive(Debug, Clone, Copy, PartialEq, Eq, Structural)]
pub struct Job {
    /// The filter, where it is fixed.
    pub filter: Option<WaveletFilter>,
    /// The limits.
    pub limits: Limits,
}

/// The stream of plane `i` of an image.
pub open spec fn image_plane_stream(opts: &EncodeOptions, job: Job, image: &IcerImage, i: int) -> core::result::Result<
    Seq<u8>,
    Fault,
> {
    let (format, plane) = (image.pixel_format, &image.planes@[i]);
    let (w, h) = (image.width as usize, image.height as usize);
    match job.filter {
        Some(filter) => plane_stream(opts, filter, job.limits, format, plane, w, h),
        None => match plane_filter(opts, job.limits, format, plane, w, h) {
            Err(f) => Err(f),
            Ok(filter) => plane_stream(opts, filter, job.limits, format, plane, w, h),
        },
    }
}

/// The streams of the first `k` planes of an image.
pub open spec fn plane_streams(opts: &EncodeOptions, job: Job, image: &IcerImage, k: int) -> core::result::Result<
    Seq<Seq<u8>>,
    Fault,
>
    decreases k,
{
    if k <= 0 {
        Ok(Seq::empty())
    } else {
        match plane_streams(opts, job, image, k - 1) {
            Err(f) => Err(f),
            Ok(before) => match image_plane_stream(opts, job, image, k - 1) {
                Err(f) => Err(f),
                Ok(bytes) => Ok(before.push(bytes)),
            },
        }
    }
}

/// An image cannot be encoded at all: planes are missing, a side has no
/// samples, or the bit depth is out of range.
pub open spec fn image_refused(image: IcerImage) -> bool {
    ||| !depth_ok(image.pixel_format)
    ||| image.width == 0
    ||| image.height == 0
    ||| image.planes@.len() == 0
    ||| image.pixel_format == IcerPixelFormat::Yuv444P && image.planes@.len() != 3
}

/// The streams of the planes of an image as one: that of a plane of 8-bit gray
/// as it is, and else a container.
pub open spec fn framed(format: IcerPixelFormat, streams: Seq<Seq<u8>>) -> core::result::Result<
    Seq<u8>,
    Fault,
> {
    if format == IcerPixelFormat::Gray8 {
        Ok(streams[0])
    } else if some_oversized(streams) {
        Err(Fault::Unsupported)
    } else {
        Ok(container_bytes(format, streams))
    }
}

/// The bytes of an image, or why it cannot be encoded.
#[verifier::opaque]
pub open spec fn image_encoded(opts: &EncodeOptions, job: Job, image: &IcerImage) -> core::result::Result<
    Seq<u8>,
    Fault,
> {
    if image_refused(*image) {
        Err(Fault::InvalidData)
    } else {
        match plane_streams(opts, job, image, image.pixel_format.planes() as int) {
            Err(f) => Err(f),
            Ok(streams) => framed(image.pixel_format, streams),
        }
    }
}

/// What encoding an image asks of it: the rows of the planes that its format
/// has are there, and their bytes can be counted. Planes beyond those are not
/// read.
pub open spec fn image_ok(image: IcerImage) -> bool {
    !image_refused(image) ==> forall|i: int|
        0 <= i < image.pixel_format.planes() ==> plane_ok(
            #[trigger] image.planes@[i],
            image.width as int,
            image.height as int,
            depth_of_format(image.pixel_format),
        )
}

proof fn lemma_streams_stop(opts: &EncodeOptions, job: Job, image: &IcerImage, k: int, n: int)
    requires
        1 <= k <= n,
        plane_streams(opts, job, image, k) is Err,
    ensures
        plane_streams(opts, job, image, n) == plane_streams(opts, job, image, k),
    decreases n,
{
    if n > k {
        lemma_streams_stop(opts, job, image, k, n - 1);
    }
}

fn is_refused(image: &IcerImage) -> (r: bool)
    ensures
        r == image_refused(*image),
{
    if image.width == 0 || image.height == 0 || image.planes.len() == 0 {
        return true;
    }
    match image.pixel_format {
        IcerPixelFormat::Gray8 => false,
        IcerPixelFormat::Yuv444P => image.planes.len() != 3,
        IcerPixelFormat::GrayDeep { bits } => bits < 9 || bits > 16,
    }
}

/// Encode an image as a job says.
pub(crate) fn encode_job(opts: &EncodeOptions, job: Job, image: &IcerImage) -> (r: Result<Vec<u8>>)
    requires
        image_ok(*image),
    ensures
        match image_encoded(opts, job, image) {
            Err(f) => fails_with(r, f),
            Ok(bytes) => r is Ok && r->Ok_0@ == bytes,
        },
{
    reveal(image_encoded);
    if is_refused(image) {
        return Err(IcerError::invalid("image without samples, planes or a valid bit depth"));
    }
    let format = image.pixel_format;
    let (w, h): (usize, usize) = (image.width as usize, image.height as usize);
    let n: usize = format.plane_count();
    let mut streams: Vec<Vec<u8>> = Vec::new();
    assert(views(streams@) =~= Seq::empty());
    let mut k: usize = 0;
    while k < n
        invariant
            k <= n,
            n == format.planes(),
            n <= image.planes@.len(),
            format == image.pixel_format,
            w == image.width,
            h == image.height,
            image_ok(*image),
            !image_refused(*image),
            streams@.len() == k,
            plane_streams(opts, job, image, k as int) == Ok::<Seq<Seq<u8>>, Fault>(
                views(streams@),
            ),
        decreases n - k,
    {
        let plane = &image.planes[k];
        assert(plane_ok(
            image.planes@[k as int],
            w as int,
            h as int,
            depth_of_format(format),
        ));
        let filter = match job.filter {
            Some(f) => Ok(f),
            None => choose_filter(opts, job.limits, format, plane, w, h),
        };
        let stream = match filter {
            Ok(f) => encode_plane_stream(opts, f, job.limits, format, plane, w, h),
            Err(e) => Err(e),
        };
        match stream {
            Ok(bytes) => {
                let ghost before = streams@;
                streams.push(bytes);
                assert(views(streams@) =~= views(before).push(bytes@));
            },
            Err(e) => {
                proof {
                    reveal(image_encoded);
                    lemma_streams_stop(opts, job, image, k + 1, n as int);
                }
                return Err(e);
            },
        }
        k = k + 1;
    }
    match format {
        IcerPixelFormat::Gray8 => match streams.pop() {
            Some(bytes) => Ok(bytes),
            None => Err(IcerError::invalid("image has no planes")),
        },
        _ => encode_container(format, streams.as_slice()),
    }
}

/// Encode an image.
///
/// A gray image of 8-bit samples is one stream. Other images are containers of
/// one stream for each plane.
pub fn encode_icer(image: &IcerImage, opts: &EncodeOptions) -> (r: Result<Vec<u8>>)
    requires
        image_ok(*image),
    ensures
        match image_encoded(opts, Job { filter: None, limits: Limits::Given }, image) {
            Err(f) => fails_with(r, f),
            Ok(bytes) => r is Ok && r->Ok_0@ == bytes,
        },
{
    encode_job(opts, Job { filter: None, limits: Limits::Given }, image)
}

/// The streams of an image with each of some filters.
pub open spec fn filter_outcomes(opts: &EncodeOptions, image: &IcerImage, candidates: Seq<WaveletFilter>) -> Seq<
    core::result::Result<Seq<u8>, Fault>,
> {
    Seq::new(
        candidates.len(),
        |i: int|
            image_encoded(
                opts,
                Job { filter: Some(candidates[i]), limits: Limits::Given },
                image,
            ),
    )
}

/// Encode an image with each of some filters, and return the filter of the
/// shortest stream with its length.
pub fn pick_filter_by_rate_distortion(
    image: &IcerImage,
    opts: &EncodeOptions,
    candidates: &[WaveletFilter],
) -> (r: Result<(WaveletFilter, usize)>)
    requires
        image_ok(*image),
    ensures
        match picked(filter_outcomes(opts, image, candidates@)) {
            Err(f) => fails_with(r, f),
            Ok((i, n)) => r is Ok && (r->Ok_0).0 == candidates@[i] && (r->Ok_0).1 == n,
        },
{
    if candidates.len() == 0 {
        return Err(IcerError::invalid("no candidate filters"));
    }
    let ghost outcomes = filter_outcomes(opts, image, candidates@);
    let mut best: Option<(usize, usize)> = None;
    let mut last = Fault::InvalidData;
    let mut k: usize = 0;
    while k < candidates.len()
        invariant
            k <= candidates@.len(),
            image_ok(*image),
            outcomes == filter_outcomes(opts, image, candidates@),
            shortest_until(outcomes, k as int) == (match best {
                Some((i, n)) => Some((i as int, n as int)),
                None => None,
            }),
            best matches Some((i, _)) ==> i < k,
            k > 0 && best is None ==> outcomes[k - 1] is Err && outcomes[k - 1]->Err_0 == last,
        decreases candidates@.len() - k,
    {
        let job = Job { filter: Some(candidates[k]), limits: Limits::Given };
        match encode_job(opts, job, image) {
            Ok(bytes) => {
                assert(outcomes[k as int] == Ok::<Seq<u8>, Fault>(bytes@));
                best = shorter(best, k, bytes.len());
            },
            Err(e) => {
                assert(outcomes[k as int] is Err);
                last = fault_of(&e);
            },
        }
        k = k + 1;
    }
    match best {
        Some((i, n)) => Ok((candidates[i], n)),
        None => Err(error_of_fault(last)),
    }
}

/// The budgets between which the search for an image runs: the headers of its
/// segments, and the stream without limits.
pub fn quality_search_bounds(image: &IcerImage, opts: &EncodeOptions) -> (r: Result<(u64, u64)>)
    requires
        image_ok(*image),
    ensures
        match image_encoded(opts, Job { filter: None, limits: Limits::Free }, image) {
            Err(f) => fails_with(r, f),
            Ok(bytes) => {
                let (low, high) = bounds_between(
                    opts.settings(opts.filter, 8).count(),
                    bytes.len() as int,
                );
                r is Ok && (r->Ok_0).0 == low && (r->Ok_0).1 == high
            },
        },
{
    let bytes = match encode_job(opts, Job { filter: None, limits: Limits::Free }, image) {
        Ok(b) => b,
        Err(e) => return Err(e),
    };
    let high: u64 = bytes.len() as u64;
    let n: u64 = if opts.segment_count == 0 {
        1
    } else {
        opts.segment_count as u64
    };
    if 12 * n < high {
        Ok((12 * n, high))
    } else {
        Ok((high, high))
    }
}

/// Encoding an image within a budget and decoding it again. The error is that
/// of the first plane.
pub struct ImageTrial<'a> {
    /// The options.
    pub opts: &'a EncodeOptions,
    /// The image.
    pub image: &'a IcerImage,
}

/// The squared error of the first plane of a stream against that of an image,
/// or why it cannot be decoded to one of the same size.
pub open spec fn image_error(bytes: Seq<u8>, image: &IcerImage) -> core::result::Result<int, Fault> {
    let bits = depth_of_format(image.pixel_format);
    let (w, h) = (image.width as int, image.height as int);
    match image_decoded(bytes, DecodeLimits::usual()) {
        Err(f) => Err(f),
        Ok((_, pictures)) => if pictures[0].width != w || pictures[0].height != h
            || pictures[0].data.len() != w * h * sample_size(bits) {
            Err(Fault::InvalidData)
        } else {
            Ok(
                words_error(
                    shifted_samples(image.planes@[0], bits, w, 0, h),
                    pictures[0].data,
                    bits,
                    w * h,
                ),
            )
        },
    }
}

impl<'a> Trial for ImageTrial<'a> {
    open spec fn outcome(&self, budget: u64) -> core::result::Result<(Seq<u8>, int), Fault> {
        match image_encoded(
            self.opts,
            Job { filter: None, limits: Limits::Budget(budget) },
            self.image,
        ) {
            Err(f) => Err(f),
            Ok(bytes) => match image_error(bytes, self.image) {
                Err(f) => Err(f),
                Ok(e) => Ok((bytes, e)),
            },
        }
    }

    open spec fn ready(&self) -> bool {
        image_ok(*self.image)
    }

    fn run(&self, budget: u64) -> (r: Result<(Vec<u8>, u128)>) {
        let image = self.image;
        let bytes = match encode_job(
            self.opts,
            Job { filter: None, limits: Limits::Budget(budget) },
            image,
        ) {
            Ok(b) => b,
            Err(e) => return Err(e),
        };
        let decoded = match parse_icer(bytes.as_slice()) {
            Ok(d) => d,
            Err(e) => return Err(e),
        };
        let bits: u8 = image.pixel_format.bit_depth();
        let (w, h): (usize, usize) = (image.width as usize, image.height as usize);
        proof {
            reveal(image_encoded);
            assert(plane_ok(image.planes@[0], w as int, h as int, bits));
            let a = w * h;
            assert(0 <= a <= a * sample_size(bits)) by (nonlinear_arith)
                requires
                    a == w * h,
                    w >= 0,
                    h >= 0,
                    sample_size(bits) >= 1,
            ;
            lemma_decoded_planes(bytes@);
        }
        if decoded.width != image.width || decoded.height != image.height
            || decoded.planes[0].data.len() != w * h * sample_len(bits) {
            return Err(IcerError::invalid("decoded image has another size"));
        }
        let samples = read_samples(&image.planes[0], bits, w, 0, h);
        proof {
            lemma_samples_range(image.planes@[0], w as int, h as int, bits);
        }
        let error: u128 = measure_words(&samples, &decoded.planes[0].data, bits);
        Ok((bytes, error))
    }
}

/// A decoded image has a plane.
proof fn lemma_decoded_planes(bytes: Seq<u8>)
    ensures
        image_decoded(bytes, DecodeLimits::usual()) matches Ok((_, pictures)) ==> pictures.len()
            >= 1,
{
    if starts_container(bytes) {
        match parsed(bytes) {
            Err(_) => {},
            Ok((format, ranges)) => {
                lemma_planes_counted(
                    bytes,
                    ranges,
                    depth_of_format(format),
                    DecodeLimits::usual(),
                    ranges.len() as int,
                );
            },
        }
    }
}

proof fn lemma_planes_counted(
    bytes: Seq<u8>,
    ranges: Seq<(int, int)>,
    bits: u8,
    limits: DecodeLimits,
    k: int,
)
    requires
        0 <= k,
    ensures
        planes_decoded(bytes, ranges, bits, limits, k) matches Ok(p) ==> p.len() == k,
    decreases k,
{
    if k > 0 {
        lemma_planes_counted(bytes, ranges, bits, limits, k - 1);
    }
}

/// The small stream of an image that the search finds, or why there is none.
pub open spec fn image_searched(opts: &EncodeOptions, image: &IcerImage, target: u64) -> core::result::Result<
    Seq<u8>,
    Fault,
> {
    match image_encoded(opts, Job { filter: None, limits: Limits::Free }, image) {
        Err(f) => Err(f),
        Ok(whole) => {
            let (low, high) = bounds_between(
                opts.settings(opts.filter, 8).count(),
                whole.len() as int,
            );
            if low >= high {
                image_encoded(opts, Job { filter: None, limits: Limits::Bytes }, image)
            } else {
                searched(ImageTrial { opts, image }, target as int, low as u64, high as u64)
            }
        },
    }
}

/// Find a small stream of an image whose squared error, summed over the first
/// plane, is at most `max_squared_error`; the stream without a budget where
/// there is none.
pub fn encode_to_quality_target(image: &IcerImage, opts: &EncodeOptions, max_squared_error: u64) -> (r: Result<
    Vec<u8>,
>)
    requires
        image_ok(*image),
    ensures
        match image_searched(opts, image, max_squared_error) {
            Err(f) => fails_with(r, f),
            Ok(bytes) => r is Ok && r->Ok_0@ == bytes,
        },
{
    let (low, high) = match quality_search_bounds(image, opts) {
        Ok(b) => b,
        Err(e) => return Err(e),
    };
    if low >= high {
        return encode_job(opts, Job { filter: None, limits: Limits::Bytes }, image);
    }
    let t = ImageTrial { opts, image };
    search(&t, max_squared_error, low, high)
}

/// **The middle comes first and the ends come last**: of two segments the one
/// that is nearer to the middle has the lower rank, and of two that are equally
/// near the upper one.
pub proof fn center_ranks_go_outwards(n: int, i: int, j: int)
    requires
        0 <= i < n,
        0 <= j < n,
        i != j,
    ensures
        ({
            let (a, b) = (i - n / 2, j - n / 2);
            let (far, near) = (
                if a < 0 {
                    -a
                } else {
                    a
                },
                if b < 0 {
                    -b
                } else {
                    b
                },
            );
            &&& far > near ==> center_rank(n, i) > center_rank(n, j)
            &&& far == near && i < j ==> center_rank(n, i) < center_rank(n, j)
        }),
{
}

} // verus!
