//! Quality targets are met where the whole stream is without a loss.

use crate::ample::{ample_budgets_change_nothing, bare};
use crate::budget::streams_are_bounded;
use crate::compress::Settings;
use crate::decoder::{depth_of_format, image_decoded, DecodeLimits};
use crate::emit::stream_of;
use crate::encoder::{image_encoded, image_error, image_ok, image_plane_stream, image_refused, image_searched, inner_budget, plane_filter, plane_ok, plane_segments, plane_stream, plane_streams, EncodeOptions, ImageTrial, Job, Limits};
use crate::error::Fault;
use crate::header::WaveletFilter;
use crate::image::{IcerImage, IcerPlane};
use crate::plane_container::{joined, length_table};
use crate::quality::{at_boundary, bounds_between, falls_short, plane_bounds, plane_searched, search_ends_at_a_boundary, search_meets_target, searched, stream_error, unlimited_settings, words_error, PlaneTrial, Trial};
use crate::roundtrip::{in_range, samples_give_rows};
use crate::roundtrip_image::{allows, announced, has_rows, has_size, images_read_back, plane_lossless, planes_read_back, usual_job};
use crate::roundtrip_stream::{decodable, generous, lossless};
use crate::strip::{depth_in_range, half_range, sample_bytes_of, sample_size, shifted_samples, word_at};
use vstd::prelude::*;

verus! {

/// Samples do not differ from the bytes that they give.
proof fn lemma_no_error(samples: Seq<i32>, bits: u8, k: int)
    requires
        depth_in_range(bits),
        in_range(samples, bits),
        0 <= k <= samples.len(),
    ensures
        words_error(samples, sample_bytes_of(samples, bits), bits, k) == 0,
    decreases k,
{
    if k > 0 {
        lemma_no_error(samples, bits, k - 1);
        let i = k - 1;
        let size = sample_size(bits);
        let bytes = sample_bytes_of(samples, bits);
        let v = samples[i] + half_range(bits);
        vstd::arithmetic::power2::lemma2_to64();
        if bits < 16 {
            vstd::arithmetic::power2::lemma_pow2_strictly_increases((bits - 1) as nat, 15);
        }
        assert(0 <= v < 2 * half_range(bits) <= 0x1_0000);
        assert(i * size + size <= samples.len() * size) by (nonlinear_arith)
            requires
                i + 1 <= samples.len(),
                size >= 1,
        ;
        assert(0 <= i * size) by (nonlinear_arith)
            requires
                i >= 0,
                size >= 1,
        ;
        assert((i * size) / size == i && (i * size) % size == 0) by (nonlinear_arith)
            requires
                size >= 1,
        ;
        if size == 2 {
            assert((i * 2 + 1) / 2 == i && (i * 2 + 1) % 2 == 1);
        } else {
            assert(half_range(bits) == 128);
        }
        assert(word_at(bytes, i * size, size) == v);
    }
}

/// **The stream that is found for a quality target meets it**, where the whole
/// stream is without a loss. Packets are not chosen by what they promise; raw
/// samples may stand in.
pub proof fn quality_targets_are_met(
    set: Settings,
    ranks: &Option<Vec<u16>>,
    plane: &IcerPlane,
    width: usize,
    height: usize,
    target: u64,
)
    requires
        decodable(set, *plane, width as int, height as int),
        !set.uncompressed,
        !set.rd_pruning,
        lossless(set, *plane, width as int, height as int),
        generous(DecodeLimits::usual(), width as int, height as int, announced(set)),
        plane_searched(set, ranks, plane, width, height, target) is Ok,
    ensures
        stream_error(
            plane_searched(set, ranks, plane, width, height, target)->Ok_0,
            *plane,
            width as int,
            height as int,
            set.bits,
        ) matches Ok(e) && e <= target,
{
    let (w, h) = (width as int, height as int);
    assert(unlimited_settings(set) == bare(set));
    let (low, high) = plane_bounds(set, *ranks, *plane, width, height)->Ok_0;
    streams_are_bounded(bare(set), *ranks, *plane, width, height, None);
    if low < high {
        ample_budgets_change_nothing(set, *ranks, *plane, width, height, high as u64);
    }
    let segments = plane_segments(set, *ranks, *plane, width, height, None)->Ok_0;
    let whole = stream_of(segments);
    planes_read_back(set, *ranks, *plane, width, height, None, DecodeLimits::usual());
    let samples = shifted_samples(*plane, set.bits, w, 0, h);
    samples_give_rows(*plane, set.bits, w, 0, h);
    assert(w * h >= 0) by (nonlinear_arith)
        requires
            w >= 1,
            h >= 1,
    ;
    lemma_no_error(samples, set.bits, w * h);
    if low < high {
        let t = PlaneTrial { set, ranks, plane, width, height };
        assert(t.outcome(high as u64) matches Ok((bytes, e)) && bytes == whole && e == 0);
        search_meets_target(t, target as int, low as u64, high as u64);
        let bytes = plane_searched(set, ranks, plane, width, height, target)->Ok_0;
        let b = choose|b: u64|
            (#[trigger] t.outcome(b)) matches Ok((x, e)) && x == bytes && e <= target;
        assert(t.outcome(b) matches Ok((x, e)) && x == bytes && e <= target);
    }
}

/// **The planes of an image meet its quality target**, each of them, where the
/// whole stream is without a loss, also where raw samples may stand in.
pub proof fn images_meet_their_targets(opts: &EncodeOptions, image: &IcerImage, i: int)
    requires
        image_ok(*image),
        !image_refused(*image),
        opts.sync_prefix != 0,
        opts.quality_target is Some,
        !opts.uncompressed,
        opts.min_loss == 0,
        0 <= i < image.pixel_format.planes(),
        in_range(
            shifted_samples(
                image.planes@[i],
                depth_of_format(image.pixel_format),
                image.width as int,
                0,
                image.height as int,
            ),
            depth_of_format(image.pixel_format),
        ),
        allows(DecodeLimits::usual(), *opts, *image),
        image_plane_stream(opts, usual_job(), image, i) is Ok,
    ensures
        stream_error(
            image_plane_stream(opts, usual_job(), image, i)->Ok_0,
            image.planes@[i],
            image.width as int,
            image.height as int,
            depth_of_format(image.pixel_format),
        ) matches Ok(e) && e <= opts.quality_target->0,
{
    reveal(plane_stream);
    let format = image.pixel_format;
    let plane = &image.planes@[i];
    let (w, h) = (image.width as usize, image.height as usize);
    let filter = plane_filter(opts, Limits::Given, format, plane, w, h)->Ok_0;
    let set = opts.settings(filter, depth_of_format(format));
    assert(plane_ok(image.planes@[i], w as int, h as int, depth_of_format(format)));
    quality_targets_are_met(set, &opts.segment_priorities, plane, w, h, opts.quality_target->0);
}

// ---------------------------------------------------------------------------
// The search for an image
// ---------------------------------------------------------------------------

/// The options without limits on the number of bytes or on the quality.
pub open spec fn released(opts: EncodeOptions) -> EncodeOptions {
    EncodeOptions { byte_budget: None, quality_target: None, ..opts }
}

/// The job of encoding an image without limits.
spec fn free_job() -> Job {
    Job { filter: None, limits: Limits::Free }
}

/// The job of encoding an image within a budget.
spec fn budget_job(b: u64) -> Job {
    Job { filter: None, limits: Limits::Budget(b) }
}

/// What is asked of options so that a budget can be large enough: packets are
/// not chosen by what they promise, bit planes are not left out, and the filter
/// does not depend on the length of the stream.
pub open spec fn steady_options(opts: EncodeOptions) -> bool {
    &&& !opts.rd_pruning
    &&& opts.target_bytes is None
    &&& !(opts.auto_filter && opts.auto_filter_rd)
}

proof fn lemma_released_plane(opts: &EncodeOptions, image: &IcerImage, i: int, b: u64)
    requires
        steady_options(*opts),
        image_plane_stream(opts, free_job(), image, i) matches Ok(free) && free.len()
            <= inner_budget(image.pixel_format, Some(b))->0,
    ensures
        image_plane_stream(opts, budget_job(b), image, i) == image_plane_stream(
            &released(*opts),
            usual_job(),
            image,
            i,
        ),
{
    reveal(plane_stream);
    let format = image.pixel_format;
    let plane = &image.planes@[i];
    let (w, h) = (image.width as usize, image.height as usize);
    let filter = plane_filter(opts, Limits::Free, format, plane, w, h)->Ok_0;
    let set = opts.settings(filter, depth_of_format(format));
    assert(unlimited_settings(set) == bare(set));
    ample_budgets_change_nothing(
        set,
        opts.segment_priorities,
        *plane,
        w,
        h,
        inner_budget(format, Some(b))->0,
    );
}

/// The first `k` streams without limits are there.
proof fn lemma_free_streams(opts: &EncodeOptions, image: &IcerImage, k: int)
    requires
        0 <= k,
        plane_streams(opts, free_job(), image, k) is Ok,
    ensures
        plane_streams(opts, free_job(), image, k)->Ok_0.len() == k,
        forall|i: int|
            #![trigger image_plane_stream(opts, free_job(), image, i)]
            0 <= i < k ==> image_plane_stream(opts, free_job(), image, i) == Ok::<Seq<u8>, Fault>(
                plane_streams(opts, free_job(), image, k)->Ok_0[i],
            ),
    decreases k,
{
    if k > 0 {
        lemma_free_streams(opts, image, k - 1);
    }
}

/// A budget does not change the stream of plane `i`.
spec fn is_ample(opts: &EncodeOptions, image: &IcerImage, b: u64, i: int) -> bool {
    image_plane_stream(opts, budget_job(b), image, i) == image_plane_stream(
        &released(*opts),
        usual_job(),
        image,
        i,
    )
}

proof fn lemma_released_streams(opts: &EncodeOptions, image: &IcerImage, b: u64, k: int)
    requires
        0 <= k,
        forall|i: int| 0 <= i < k ==> #[trigger] is_ample(opts, image, b, i),
    ensures
        plane_streams(opts, budget_job(b), image, k) == plane_streams(
            &released(*opts),
            usual_job(),
            image,
            k,
        ),
    decreases k,
{
    if k > 0 {
        lemma_released_streams(opts, image, b, k - 1);
        assert(is_ample(opts, image, b, k - 1));
    }
}

/// A stream is no longer than all of them.
proof fn lemma_joined_length(streams: Seq<Seq<u8>>, i: int)
    requires
        0 <= i < streams.len(),
    ensures
        streams[i].len() <= joined(streams).len(),
        length_table(streams).len() == 4 * streams.len(),
    decreases streams.len(),
{
    let less = streams.drop_last();
    if less.len() == 0 {
        assert(less =~= Seq::empty());
        assert(length_table(less).len() == 0);
    } else {
        lemma_joined_length(
            less,
            if i < less.len() {
                i
            } else {
                0
            },
        );
    }
}

/// Streams of at most `m` bytes make at most as many times `m` bytes.
proof fn lemma_joined_bound(streams: Seq<Seq<u8>>, m: int)
    requires
        forall|i: int| 0 <= i < streams.len() ==> (#[trigger] streams[i]).len() <= m,
    ensures
        joined(streams).len() <= m * streams.len(),
    decreases streams.len(),
{
    if streams.len() > 0 {
        let less = streams.drop_last();
        assert forall|i: int| 0 <= i < less.len() implies (#[trigger] less[i]).len() <= m by {
            assert(less[i] == streams[i]);
        }
        lemma_joined_bound(less, m);
        assert(m * streams.len() == m * less.len() + m) by (nonlinear_arith)
            requires
                streams.len() == less.len() + 1,
        ;
    }
}

proof fn lemma_free_plane_length(opts: &EncodeOptions, image: &IcerImage, i: int)
    requires
        image_plane_stream(opts, free_job(), image, i) is Ok,
    ensures
        image_plane_stream(opts, free_job(), image, i)->Ok_0.len() <= 0x1_0017 * 0xFFFF,
{
    reveal(plane_stream);
    let plane = &image.planes@[i];
    let (w, h) = (image.width as usize, image.height as usize);
    let filter = plane_filter(opts, Limits::Free, image.pixel_format, plane, w, h)->Ok_0;
    let set = unlimited_settings(opts.settings(filter, depth_of_format(image.pixel_format)));
    streams_are_bounded(set, opts.segment_priorities, *plane, w, h, None);
}

/// The length of an image without limits can be counted.
proof fn lemma_free_length(opts: &EncodeOptions, image: &IcerImage)
    requires
        image_encoded(opts, free_job(), image) is Ok,
    ensures
        image_encoded(opts, free_job(), image)->Ok_0.len() <= 0x10_0000_0000,
{
    reveal(image_encoded);
    let n = image.pixel_format.planes() as int;
    let streams = plane_streams(opts, free_job(), image, n)->Ok_0;
    lemma_free_streams(opts, image, n);
    let m: int = 0x1_0017 * 0xFFFFint;
    assert forall|i: int| 0 <= i < n implies (#[trigger] streams[i]).len() <= m by {
        assert(image_plane_stream(opts, free_job(), image, i) == Ok::<Seq<u8>, Fault>(streams[i]));
        lemma_free_plane_length(opts, image, i);
    }
    lemma_joined_bound(streams, m);
    lemma_joined_length(streams, 0);
}

/// **A budget as long as the stream of an image without limits changes
/// nothing**, also where raw samples may stand in.
pub proof fn free_length_is_ample(opts: &EncodeOptions, image: &IcerImage)
    requires
        steady_options(*opts),
        image_encoded(opts, Job { filter: None, limits: Limits::Free }, image) is Ok,
    ensures
        ({
            let high = image_encoded(
                opts,
                Job { filter: None, limits: Limits::Free },
                image,
            )->Ok_0.len() as u64;
            image_encoded(opts, Job { filter: None, limits: Limits::Budget(high) }, image)
                == image_encoded(&released(*opts), usual_job(), image)
        }),
{
    reveal(image_encoded);
    let format = image.pixel_format;
    let n = format.planes() as int;
    let whole = image_encoded(opts, free_job(), image)->Ok_0;
    let high = whole.len() as u64;
    let streams = plane_streams(opts, free_job(), image, n)->Ok_0;
    lemma_free_streams(opts, image, n);
    lemma_free_length(opts, image);
    assert forall|i: int| 0 <= i < n implies #[trigger] is_ample(opts, image, high, i) by {
        lemma_joined_length(streams, i);
        assert(image_plane_stream(opts, free_job(), image, i) == Ok::<Seq<u8>, Fault>(streams[i]));
        assert(streams[i].len() <= inner_budget(format, Some(high))->0);
        lemma_released_plane(opts, image, i, high);
    }
    lemma_released_streams(opts, image, high, n);
}

/// An image whose first plane is encoded without a loss has no error.
proof fn lemma_exact_image(opts: &EncodeOptions, image: &IcerImage)
    requires
        image_ok(*image),
        opts.sync_prefix != 0,
        allows(DecodeLimits::usual(), *opts, *image),
        image_encoded(opts, usual_job(), image) is Ok,
        image_encoded(opts, usual_job(), image)->Ok_0.len() <= usize::MAX,
        plane_lossless(*opts, *image, 0),
        !opts.uncompressed,
    ensures
        image_error(image_encoded(opts, usual_job(), image)->Ok_0, image) == Ok::<int, Fault>(0),
{
    images_read_back(opts, image, DecodeLimits::usual());
    let bytes = image_encoded(opts, usual_job(), image)->Ok_0;
    let picture = image_decoded(bytes, DecodeLimits::usual())->Ok_0.1[0];
    assert(has_size(picture, *image) && has_rows(picture, *image, 0));
    reveal(image_encoded);
    let bits = depth_of_format(image.pixel_format);
    let (w, h) = (image.width as int, image.height as int);
    let samples = shifted_samples(image.planes@[0], bits, w, 0, h);
    assert(plane_ok(image.planes@[0], w, h, bits));
    samples_give_rows(image.planes@[0], bits, w, 0, h);
    assert(w * h >= 0) by (nonlinear_arith)
        requires
            w >= 1,
            h >= 1,
    ;
    lemma_no_error(samples, bits, w * h);
    assert(samples.len() == w * h);
}

proof fn lemma_search_meets(
    opts: &EncodeOptions,
    image: &IcerImage,
    target: u64,
    low: u64,
    high: u64,
    bytes: Seq<u8>,
)
    requires
        low <= high,
        image_encoded(opts, budget_job(high), image) == Ok::<Seq<u8>, Fault>(bytes),
        image_error(bytes, image) == Ok::<int, Fault>(0),
        searched(ImageTrial { opts, image }, target as int, low, high) is Ok,
    ensures
        image_error(
            searched(ImageTrial { opts, image }, target as int, low, high)->Ok_0,
            image,
        ) matches Ok(e) && e <= target,
{
    let t = ImageTrial { opts, image };
    assert(t.outcome(high) == Ok::<(Seq<u8>, int), Fault>((bytes, 0int)));
    search_meets_target(t, target as int, low, high);
    let found = searched(t, target as int, low, high)->Ok_0;
    let b = choose|b: u64|
        (#[trigger] t.outcome(b)) matches Ok((x, e)) && x == found && e <= target;
    assert(t.outcome(b) matches Ok((x, e)) && x == found && e <= target);
}

/// **The stream that the search finds for an image meets the target**, where
/// the first plane is encoded without a loss, also where raw samples may stand
/// in.
pub proof fn image_searches_meet_their_targets(
    opts: &EncodeOptions,
    image: &IcerImage,
    target: u64,
)
    requires
        image_ok(*image),
        opts.sync_prefix != 0,
        steady_options(*opts),
        opts.byte_budget is None,
        !opts.uncompressed,
        plane_lossless(released(*opts), *image, 0),
        allows(DecodeLimits::usual(), *opts, *image),
        image_searched(opts, image, target) is Ok,
        image_encoded(&released(*opts), usual_job(), image) matches Ok(bytes) ==> bytes.len()
            <= usize::MAX,
    ensures
        image_error(image_searched(opts, image, target)->Ok_0, image) matches Ok(e) && e <= target,
{
    let whole = image_encoded(opts, free_job(), image)->Ok_0;
    let (low, high) = bounds_between(opts.settings(opts.filter, 8).count(), whole.len() as int);
    let free = released(*opts);
    free_length_is_ample(opts, image);
    lemma_free_length(opts, image);
    if low >= high {
        lemma_bytes_released(opts, image);
    }
    assert(image_encoded(&free, usual_job(), image) is Ok);
    assert(allows(DecodeLimits::usual(), free, *image));
    lemma_exact_image(&free, image);
    let bytes = image_encoded(&free, usual_job(), image)->Ok_0;
    if low < high {
        lemma_search_meets(opts, image, target, low as u64, high as u64, bytes);
    }
}

/// Without a budget a plane is encoded as without limits.
proof fn lemma_bytes_plane(opts: &EncodeOptions, image: &IcerImage, i: int)
    requires
        steady_options(*opts),
        opts.byte_budget is None,
    ensures
        image_plane_stream(opts, Job { filter: None, limits: Limits::Bytes }, image, i)
            == image_plane_stream(&released(*opts), usual_job(), image, i),
{
    reveal(plane_stream);
    let format = image.pixel_format;
    let plane = &image.planes@[i];
    let (w, h) = (image.width as usize, image.height as usize);
    let free = released(*opts);
    assert(plane_filter(opts, Limits::Bytes, format, plane, w, h) == plane_filter(
        &free,
        Limits::Given,
        format,
        plane,
        w,
        h,
    ));
    if plane_filter(opts, Limits::Bytes, format, plane, w, h) is Ok {
        let filter = plane_filter(opts, Limits::Bytes, format, plane, w, h)->Ok_0;
        let bits = depth_of_format(format);
        assert(opts.settings(filter, bits) == free.settings(filter, bits));
        assert(inner_budget(format, opts.byte_budget) == inner_budget(format, free.byte_budget));
    }
}

proof fn lemma_bytes_streams(opts: &EncodeOptions, image: &IcerImage, k: int)
    requires
        0 <= k,
        steady_options(*opts),
        opts.byte_budget is None,
    ensures
        plane_streams(opts, Job { filter: None, limits: Limits::Bytes }, image, k)
            == plane_streams(&released(*opts), usual_job(), image, k),
    decreases k,
{
    if k > 0 {
        lemma_bytes_streams(opts, image, k - 1);
        lemma_bytes_plane(opts, image, k - 1);
    }
}

/// Without a budget an image is encoded as without limits.
proof fn lemma_bytes_released(opts: &EncodeOptions, image: &IcerImage)
    requires
        steady_options(*opts),
        opts.byte_budget is None,
    ensures
        image_encoded(opts, Job { filter: None, limits: Limits::Bytes }, image) == image_encoded(
            &released(*opts),
            usual_job(),
            image,
        ),
{
    reveal(image_encoded);
    lemma_bytes_streams(opts, image, image.pixel_format.planes() as int);
}

// ---------------------------------------------------------------------------
// Where searches end
// ---------------------------------------------------------------------------

/// The stream of a plane within a budget meets a target: it decodes to the size
/// of the plane, and the squared error is at most the target.
pub open spec fn plane_budget_meets(
    set: Settings,
    ranks: Option<Vec<u16>>,
    plane: IcerPlane,
    width: usize,
    height: usize,
    b: u64,
    target: u64,
) -> bool {
    plane_segments(set, ranks, plane, width, height, Some(b)) matches Ok(segments) && (
    stream_error(stream_of(segments), plane, width as int, height as int, set.bits) matches Ok(e)
        && e <= target)
}

/// Budget `b` meets the target with the stream `bytes`, and budget `c`, at most
/// 8 bytes smaller, does not.
pub open spec fn plane_boundary(
    set: Settings,
    ranks: Option<Vec<u16>>,
    plane: IcerPlane,
    width: usize,
    height: usize,
    target: u64,
    bytes: Seq<u8>,
    b: u64,
    c: u64,
) -> bool {
    &&& c < b <= c + 8
    &&& plane_budget_meets(set, ranks, plane, width, height, b, target)
    &&& stream_of(plane_segments(set, ranks, plane, width, height, Some(b))->Ok_0) == bytes
    &&& !plane_budget_meets(set, ranks, plane, width, height, c, target)
}

/// The stream `found` of a plane is that of a smallest budget that meets a
/// target, but for 8 bytes, where the budget of the headers does not meet it
/// and that of the stream without limits does. Where the budget of the headers
/// meets it, it is the stream of that, and where the stream without limits
/// misses it, that of its length.
pub open spec fn plane_search_ends(
    set: Settings,
    ranks: Option<Vec<u16>>,
    plane: IcerPlane,
    width: usize,
    height: usize,
    target: u64,
    found: Seq<u8>,
) -> bool {
    let free = Settings { target: None, rd_pruning: false, fallback: false, ..set };
    let whole = plane_segments(free, ranks, plane, width, height, None);
    let low = 12 * set.count();
    let high = stream_of(whole->Ok_0).len() as int;
    let tried = |b: int| plane_segments(set, ranks, plane, width, height, Some(b as u64));
    let meets = |b: int| plane_budget_meets(set, ranks, plane, width, height, b as u64, target);
    &&& whole is Ok
    &&& high <= u64::MAX
    &&& low < high && !meets(high) ==> tried(high) is Ok && stream_of(tried(high)->Ok_0) == found
    &&& low < high && meets(high) && meets(low) ==> stream_of(tried(low)->Ok_0) == found
    &&& low < high && meets(high) && !meets(low) ==> exists|b: u64, c: u64|
        low <= c && b <= high && #[trigger] plane_boundary(
            set,
            ranks,
            plane,
            width,
            height,
            target,
            found,
            b,
            c,
        )
    &&& high <= low ==> (plane_segments(set, ranks, plane, width, height, None) matches Ok(
        segments,
    ) && stream_of(segments) == found)
}

/// **The stream that is found for a plane with a quality target is that of a
/// smallest budget, but for 8 bytes**: where the budget of the headers does not
/// meet the target and that of the stream without limits does, a budget at most
/// 8 bytes smaller than the one that is taken misses it. Where the budget of
/// the headers meets it, that is taken, and where the stream without limits
/// misses it, its budget is.
pub proof fn plane_searches_end_at_a_boundary(
    set: Settings,
    ranks: &Option<Vec<u16>>,
    plane: &IcerPlane,
    width: usize,
    height: usize,
    target: u64,
)
    requires
        plane_searched(set, ranks, plane, width, height, target) is Ok,
    ensures
        plane_search_ends(
            set,
            *ranks,
            *plane,
            width,
            height,
            target,
            plane_searched(set, ranks, plane, width, height, target)->Ok_0,
        ),
{
    let free = Settings { target: None, rd_pruning: false, fallback: false, ..set };
    assert(free == unlimited_settings(set));
    streams_are_bounded(free, *ranks, *plane, width, height, None);
    let whole = stream_of(plane_segments(free, *ranks, *plane, width, height, None)->Ok_0);
    let (low, high) = plane_bounds(set, *ranks, *plane, width, height)->Ok_0;
    if low < high {
        let t = PlaneTrial { set, ranks, plane, width, height };
        search_ends_at_a_boundary(t, target as int, low as u64, high as u64);
        assert forall|b: u64| #[trigger] falls_short(t, target as int, b) == !plane_budget_meets(
            set,
            *ranks,
            *plane,
            width,
            height,
            b,
            target,
        ) by {}
        let found = plane_searched(set, ranks, plane, width, height, target)->Ok_0;
        if !falls_short(t, target as int, high as u64) && falls_short(
            t,
            target as int,
            low as u64,
        ) {
            let b = choose|b: u64| #[trigger] at_boundary(t, target as int, found, low, high, 8, b);
            let c = choose|c: u64|
                low <= c < b && b - c <= 8 && #[trigger] falls_short(t, target as int, c);
            assert(falls_short(t, target as int, c));
            assert(!falls_short(t, target as int, b));
            assert(plane_boundary(set, *ranks, *plane, width, height, target, found, b, c));
        }
    }
}

/// **The planes of an image with a quality target are those of a smallest
/// budget, but for 8 bytes.**
pub proof fn targets_take_small_budgets(opts: &EncodeOptions, image: &IcerImage, i: int)
    requires
        opts.quality_target is Some,
        !opts.uncompressed,
        image_plane_stream(opts, usual_job(), image, i) is Ok,
    ensures
        exists|filter: WaveletFilter| #[trigger]
            plane_search_ends(
                opts.settings(filter, depth_of_format(image.pixel_format)),
                opts.segment_priorities,
                image.planes@[i],
                image.width as usize,
                image.height as usize,
                opts.quality_target->0,
                image_plane_stream(opts, usual_job(), image, i)->Ok_0,
            ) && (!opts.auto_filter ==> filter == opts.filter),
{
    reveal(plane_stream);
    let format = image.pixel_format;
    let plane = &image.planes@[i];
    let (w, h) = (image.width as usize, image.height as usize);
    let filter = plane_filter(opts, Limits::Given, format, plane, w, h)->Ok_0;
    let set = opts.settings(filter, depth_of_format(format));
    let target = opts.quality_target->0;
    plane_searches_end_at_a_boundary(set, &opts.segment_priorities, plane, w, h, target);
    assert(plane_search_ends(
        opts.settings(filter, depth_of_format(image.pixel_format)),
        opts.segment_priorities,
        image.planes@[i],
        w,
        h,
        target,
        image_plane_stream(opts, usual_job(), image, i)->Ok_0,
    ));
}

/// The stream of an image within a budget meets a target: it decodes to the
/// size of the image, and the squared error of the first plane is at most the
/// target.
pub open spec fn image_budget_meets(
    opts: &EncodeOptions,
    image: &IcerImage,
    b: u64,
    target: u64,
) -> bool {
    image_encoded(opts, Job { filter: None, limits: Limits::Budget(b) }, image) matches Ok(bytes)
        && (image_error(bytes, image) matches Ok(e) && e <= target)
}

/// Budget `b` meets the target with the stream `bytes`, and budget `c`, at most
/// 8 bytes smaller, does not.
pub open spec fn image_boundary(
    opts: &EncodeOptions,
    image: &IcerImage,
    target: u64,
    bytes: Seq<u8>,
    b: u64,
    c: u64,
) -> bool {
    &&& c < b <= c + 8
    &&& image_budget_meets(opts, image, b, target)
    &&& image_encoded(opts, Job { filter: None, limits: Limits::Budget(b) }, image)->Ok_0 == bytes
    &&& !image_budget_meets(opts, image, c, target)
}

/// **The stream that is found for an image with a quality target is that of a
/// smallest budget, but for 8 bytes**: where the budget of the headers does not
/// meet the target and that of the stream without limits does, a budget at most
/// 8 bytes smaller than the one that is taken misses it. Where the budget of
/// the headers meets it, that is taken, and where the stream without limits
/// misses it, its budget is.
pub proof fn image_searches_end_at_a_boundary(
    opts: &EncodeOptions,
    image: &IcerImage,
    target: u64,
)
    requires
        image_searched(opts, image, target) is Ok,
    ensures
        ({
            let whole = image_encoded(opts, Job { filter: None, limits: Limits::Free }, image);
            let low = 12 * opts.settings(opts.filter, 8).count();
            let high = whole->Ok_0.len() as int;
            let found = image_searched(opts, image, target)->Ok_0;
            let tried = |b: int|
                image_encoded(opts, Job { filter: None, limits: Limits::Budget(b as u64) }, image);
            let meets = |b: int| image_budget_meets(opts, image, b as u64, target);
            &&& whole is Ok
            &&& high <= u64::MAX
            &&& low < high && !meets(high) ==> tried(high) == Ok::<Seq<u8>, Fault>(found)
            &&& low < high && meets(high) && meets(low) ==> tried(low) == Ok::<Seq<u8>, Fault>(
                found,
            )
            &&& low < high && meets(high) && !meets(low) ==> exists|b: u64, c: u64|
                low <= c && b <= high && #[trigger] image_boundary(
                    opts,
                    image,
                    target,
                    found,
                    b,
                    c,
                )
            &&& high <= low ==> image_encoded(
                opts,
                Job { filter: None, limits: Limits::Bytes },
                image,
            ) == Ok::<Seq<u8>, Fault>(found)
        }),
{
    lemma_free_length(opts, image);
    let whole = image_encoded(opts, free_job(), image)->Ok_0;
    let (low, high) = bounds_between(opts.settings(opts.filter, 8).count(), whole.len() as int);
    if low < high {
        let t = ImageTrial { opts, image };
        search_ends_at_a_boundary(t, target as int, low as u64, high as u64);
        assert forall|b: u64| #[trigger] falls_short(t, target as int, b) == !image_budget_meets(
            opts,
            image,
            b,
            target,
        ) by {}
        let found = image_searched(opts, image, target)->Ok_0;
        if !falls_short(t, target as int, high as u64) && falls_short(
            t,
            target as int,
            low as u64,
        ) {
            let b = choose|b: u64| #[trigger] at_boundary(t, target as int, found, low, high, 8, b);
            let c = choose|c: u64|
                low <= c < b && b - c <= 8 && #[trigger] falls_short(t, target as int, c);
            assert(falls_short(t, target as int, c));
            assert(!falls_short(t, target as int, b));
            assert(image_boundary(opts, image, target, found, b, c));
        }
    }
}

} // verus!
