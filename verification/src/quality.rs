//! The smallest stream of a given quality.
//!
//! The quality of a stream is the squared error of the image that it decodes
//! to. A search by halves over byte budgets finds a small stream whose error
//! is at most a given number.

use crate::assemble::{decode_plane, plane_decoded};
use crate::compress::Settings;
use crate::decoder::DecodeLimits;
use crate::emit::stream_of;
use crate::encoder::{encode_plane_once, plane_ok, plane_segments};
use crate::error::{fails_with, Fault, IcerError, Result};
use crate::image::IcerPlane;
use crate::strip::{depth_in_range, half_range, half_value, read_samples, sample_len, sample_size, shifted_samples, word_at};
use vstd::arithmetic::power2::{lemma_pow2_unfold, pow2};
use vstd::prelude::*;

verus! {

/// Encoding within a budget and decoding again.
pub trait Trial: Sized {
    /// The stream of a budget and the squared error of what it decodes to, or
    /// why there is none.
    spec fn outcome(&self, budget: u64) -> core::result::Result<(Seq<u8>, int), Fault>;

    /// The trial can be run.
    spec fn ready(&self) -> bool;

    /// Run the trial with a budget.
    fn run(&self, budget: u64) -> (r: Result<(Vec<u8>, u128)>)
        requires
            self.ready(),
        ensures
            match self.outcome(budget) {
                Err(f) => fails_with(r, f),
                Ok((bytes, error)) => r is Ok && (r->Ok_0).0@ == bytes && (r->Ok_0).1 == error,
            },
    ;
}

/// The search ends where the budgets are this close.
pub const BISECT_TOL: u64 = 8;

/// Largest number of halvings.
pub const MAX_ITERATIONS: u32 = 48;

/// The stream that halving the budgets from `low` to `high` finds. The budget
/// `high` is known to do, with the stream `best`, and the budget `low` not to.
pub open spec fn bisected<T: Trial>(t: T, target: int, best: Seq<u8>, low: int, high: int, rounds: int) -> Seq<
    u8,
>
    decreases rounds,
{
    if rounds <= 0 || high - low <= BISECT_TOL {
        best
    } else {
        let mid = low + (high - low) / 2;
        match t.outcome(mid as u64) {
            Ok((bytes, error)) => if error <= target {
                bisected(t, target, bytes, low, mid, rounds - 1)
            } else {
                bisected(t, target, best, mid, high, rounds - 1)
            },
            Err(_) => bisected(t, target, best, mid, high, rounds - 1),
        }
    }
}

/// The stream that the search finds between two budgets: that of the high one
/// where it misses the target, that of the low one where it meets it, and else
/// what halving finds.
pub open spec fn searched<T: Trial>(t: T, target: int, low: u64, high: u64) -> core::result::Result<
    Seq<u8>,
    Fault,
> {
    match t.outcome(high) {
        Err(f) => Err(f),
        Ok((top, top_error)) => if top_error > target {
            Ok(top)
        } else {
            match t.outcome(low) {
                Err(f) => Err(f),
                Ok((bottom, bottom_error)) => if bottom_error <= target {
                    Ok(bottom)
                } else {
                    Ok(bisected(t, target, top, low as int, high as int, MAX_ITERATIONS as int))
                },
            }
        },
    }
}

/// `bytes` is the stream of some budget, and meets the target.
pub open spec fn meets<T: Trial>(t: T, target: int, bytes: Seq<u8>) -> bool {
    exists|budget: u64|
        (#[trigger] t.outcome(budget)) matches Ok((b, error)) && b == bytes && error <= target
}

proof fn lemma_bisected_meets<T: Trial>(t: T, target: int, best: Seq<u8>, low: int, high: int, rounds: int)
    requires
        meets(t, target, best),
        0 <= low <= high <= u64::MAX,
    ensures
        meets(t, target, bisected(t, target, best, low, high, rounds)),
    decreases rounds,
{
    if rounds > 0 && high - low > BISECT_TOL {
        let mid = low + (high - low) / 2;
        match t.outcome(mid as u64) {
            Ok((bytes, error)) => {
                if error <= target {
                    assert(meets(t, target, bytes));
                    lemma_bisected_meets(t, target, bytes, low, mid, rounds - 1);
                } else {
                    lemma_bisected_meets(t, target, best, mid, high, rounds - 1);
                }
            },
            Err(_) => {
                lemma_bisected_meets(t, target, best, mid, high, rounds - 1);
            },
        }
    }
}

/// **The stream that is found meets the target, unless the high budget misses
/// it.**
pub proof fn search_meets_target<T: Trial>(t: T, target: int, low: u64, high: u64)
    requires
        low <= high,
        searched(t, target, low, high) is Ok,
        t.outcome(high) is Ok,
        (t.outcome(high)->Ok_0).1 <= target,
    ensures
        meets(t, target, searched(t, target, low, high)->Ok_0),
{
    assert(meets(t, target, (t.outcome(high)->Ok_0).0));
    match t.outcome(low) {
        Err(_) => {},
        Ok((bottom, bottom_error)) => {
            if bottom_error <= target {
                assert(meets(t, target, bottom));
            } else {
                lemma_bisected_meets(
                    t,
                    target,
                    (t.outcome(high)->Ok_0).0,
                    low as int,
                    high as int,
                    MAX_ITERATIONS as int,
                );
            }
        },
    }
}

proof fn lemma_bisected_found<T: Trial>(t: T, target: int, best: Seq<u8>, low: int, high: int, rounds: int)
    requires
        comes_of_budget(t, best),
    ensures
        comes_of_budget(t, bisected(t, target, best, low, high, rounds)),
    decreases rounds,
{
    if rounds > 0 && high - low > BISECT_TOL {
        let mid = low + (high - low) / 2;
        match t.outcome(mid as u64) {
            Ok((bytes, error)) => {
                if error <= target {
                    assert(comes_of_budget(t, bytes));
                    lemma_bisected_found(t, target, bytes, low, mid, rounds - 1);
                } else {
                    lemma_bisected_found(t, target, best, mid, high, rounds - 1);
                }
            },
            Err(_) => {
                lemma_bisected_found(t, target, best, mid, high, rounds - 1);
            },
        }
    }
}

/// `bytes` is the stream of some budget.
pub open spec fn comes_of_budget<T: Trial>(t: T, bytes: Seq<u8>) -> bool {
    exists|budget: u64| (#[trigger] t.outcome(budget)) matches Ok((b, _)) && b == bytes
}

/// **The stream that is found is that of some budget**, whether or not it meets
/// the target.
pub proof fn search_finds_a_budget<T: Trial>(t: T, target: int, low: u64, high: u64)
    requires
        searched(t, target, low, high) is Ok,
    ensures
        comes_of_budget(t, searched(t, target, low, high)->Ok_0),
{
    let (top, top_error) = t.outcome(high)->Ok_0;
    assert(comes_of_budget(t, top));
    if top_error <= target {
        let (bottom, bottom_error) = t.outcome(low)->Ok_0;
        assert(comes_of_budget(t, bottom));
        lemma_bisected_found(
            t,
            target,
            top,
            low as int,
            high as int,
            MAX_ITERATIONS as int,
        );
    }
}

/// The trial of a budget fails, or its stream misses the target.
pub open spec fn falls_short<T: Trial>(t: T, target: int, budget: u64) -> bool {
    t.outcome(budget) matches Ok((_, error)) ==> error > target
}

/// Budget `b` meets the target with the stream `bytes`, and a budget from `low`
/// on that is at most `gap` bytes smaller does not.
pub open spec fn at_boundary<T: Trial>(
    t: T,
    target: int,
    bytes: Seq<u8>,
    low: int,
    high: int,
    gap: int,
    b: u64,
) -> bool {
    &&& low <= b <= high
    &&& t.outcome(b) matches Ok((x, error)) && x == bytes && error <= target
    &&& exists|c: u64| low <= c < b && b - c <= gap && #[trigger] falls_short(t, target, c)
}

/// Some budget that meets the target with the stream `bytes` lies at most 8
/// bytes above one that does not.
pub open spec fn found_at_boundary<T: Trial>(
    t: T,
    target: int,
    bytes: Seq<u8>,
    low: int,
    high: int,
) -> bool {
    exists|b: u64| #[trigger] at_boundary(t, target, bytes, low, high, 8, b)
}

/// What is left of a distance that is halved a number of times, rounded up.
spec fn halved(gap: int, rounds: int) -> int
    decreases rounds,
{
    if rounds <= 0 || gap <= 8 {
        gap
    } else {
        halved(gap - gap / 2, rounds - 1)
    }
}

proof fn lemma_halved_grows(a: int, b: int, rounds: int)
    requires
        0 <= a <= b,
        0 <= rounds,
    ensures
        halved(a, rounds) <= 8 || halved(a, rounds) <= halved(b, rounds),
        halved(b, rounds) <= 8 ==> halved(a, rounds) <= 8,
        halved(a, rounds) <= a,
    decreases rounds,
{
    if rounds > 0 && a > 8 {
        lemma_halved_grows(a - a / 2, b - b / 2, rounds - 1);
    } else if rounds > 0 && b > 8 {
        lemma_halved_floor(b - b / 2, rounds - 1);
    }
}

/// Halving stops above 4.
proof fn lemma_halved_floor(gap: int, rounds: int)
    requires
        0 <= gap,
    ensures
        0 <= halved(gap, rounds) <= gap,
    decreases rounds,
{
    if rounds > 0 && gap > 8 {
        lemma_halved_floor(gap - gap / 2, rounds - 1);
    }
}

/// Doubling the distance takes one more round.
proof fn lemma_halved_enough(gap: int, rounds: nat)
    requires
        0 <= gap <= 8 * pow2(rounds),
    ensures
        halved(gap, rounds as int) <= 8,
    decreases rounds,
{
    if rounds == 0 {
        vstd::arithmetic::power2::lemma2_to64();
    } else if gap > 8 {
        lemma_pow2_unfold(rounds);
        lemma_halved_enough(gap - gap / 2, (rounds - 1) as nat);
    }
}

proof fn lemma_bisected_boundary<T: Trial>(
    t: T,
    target: int,
    best: Seq<u8>,
    from: int,
    to: int,
    low: int,
    high: int,
    rounds: int,
)
    requires
        0 <= from <= low < high <= to <= u64::MAX,
        0 <= rounds,
        halved(high - low, rounds) <= 8,
        t.outcome(high as u64) matches Ok((x, error)) && x == best && error <= target,
        falls_short(t, target, low as u64),
    ensures
        found_at_boundary(
            t,
            target,
            bisected(t, target, best, low, high, rounds),
            from,
            to,
        ),
    decreases rounds,
{
    if rounds <= 0 || high - low <= BISECT_TOL {
        assert(high - low <= 8);
        assert(falls_short(t, target, low as u64));
        assert(at_boundary(t, target, best, from, to, 8, high as u64));
    } else {
        let mid = low + (high - low) / 2;
        lemma_halved_grows(mid - low, high - mid, rounds - 1);
        let found = bisected(t, target, best, low, high, rounds);
        if falls_short(t, target, mid as u64) {
            lemma_bisected_boundary(t, target, best, from, to, mid, high, rounds - 1);
            assert(found == bisected(t, target, best, mid, high, rounds - 1));
        } else {
            let bytes = (t.outcome(mid as u64)->Ok_0).0;
            lemma_bisected_boundary(t, target, bytes, from, to, low, mid, rounds - 1);
            assert(found == bisected(t, target, bytes, low, mid, rounds - 1));
        }
    }
}

/// **The search ends at a boundary.** Where the high budget meets the target,
/// the stream that is found is that of a budget that meets it too, and a budget
/// at most 8 bytes smaller falls short; unless the low budget meets it, whose
/// stream is found then. The high budget lies at most `8 * 2^48` bytes above the
/// low one, so that the halvings suffice. Where the high budget misses the
/// target, its stream is found.
pub proof fn search_ends_at_a_boundary<T: Trial>(t: T, target: int, low: u64, high: u64)
    requires
        low <= high,
        high - low <= 0x8_0000_0000_0000,
        searched(t, target, low, high) is Ok,
    ensures
        ({
            let found = searched(t, target, low, high)->Ok_0;
            &&& t.outcome(high) is Ok
            &&& falls_short(t, target, high) ==> found == (t.outcome(high)->Ok_0).0
            &&& !falls_short(t, target, high) && !falls_short(t, target, low) ==> found == (
            t.outcome(low)->Ok_0).0
            &&& !falls_short(t, target, high) && falls_short(t, target, low)
                ==> found_at_boundary(t, target, found, low as int, high as int)
        }),
{
    if !falls_short(t, target, high) && falls_short(t, target, low) {
        let top = (t.outcome(high)->Ok_0).0;
        vstd::arithmetic::power2::lemma2_to64();
        vstd::arithmetic::power2::lemma2_to64_rest();
        lemma_halved_enough(high - low, 48);
        lemma_bisected_boundary(
            t,
            target,
            top,
            low as int,
            high as int,
            low as int,
            high as int,
            MAX_ITERATIONS as int,
        );
    }
}

/// Search between two budgets.
pub fn search<T: Trial>(t: &T, target: u64, low: u64, high: u64) -> (r: Result<Vec<u8>>)
    requires
        t.ready(),
        low <= high,
    ensures
        match searched(*t, target as int, low, high) {
            Err(f) => fails_with(r, f),
            Ok(bytes) => r is Ok && r->Ok_0@ == bytes,
        },
{
    let (top, top_error) = match t.run(high) {
        Ok(v) => v,
        Err(e) => return Err(e),
    };
    if top_error > target as u128 {
        return Ok(top);
    }
    let (bottom, bottom_error) = match t.run(low) {
        Ok(v) => v,
        Err(e) => return Err(e),
    };
    if bottom_error <= target as u128 {
        return Ok(bottom);
    }
    let ghost found = bisected(
        *t,
        target as int,
        top@,
        low as int,
        high as int,
        MAX_ITERATIONS as int,
    );
    let mut best = top;
    let (mut lo, mut hi): (u64, u64) = (low, high);
    let mut rounds: u32 = MAX_ITERATIONS;
    while rounds > 0 && hi - lo > BISECT_TOL
        invariant
            t.ready(),
            lo <= hi,
            found == bisected(
                *t,
                target as int,
                best@,
                lo as int,
                hi as int,
                rounds as int,
            ),
        decreases rounds,
    {
        let mid: u64 = lo + (hi - lo) / 2;
        match t.run(mid) {
            Ok((bytes, error)) => {
                if error <= target as u128 {
                    best = bytes;
                    hi = mid;
                } else {
                    lo = mid;
                }
            },
            Err(_) => {
                lo = mid;
            },
        }
        rounds = rounds - 1;
    }
    Ok(best)
}

// ---------------------------------------------------------------------------
// Trials on a plane
// ---------------------------------------------------------------------------

/// Sum of the squared differences of the first `k` samples from the words in
/// `data`.
pub open spec fn words_error(samples: Seq<i32>, data: Seq<u8>, bits: u8, k: int) -> int
    decreases k,
{
    if k <= 0 {
        0
    } else {
        let size = sample_size(bits);
        let d = samples[k - 1] + half_range(bits) - word_at(data, (k - 1) * size, size);
        words_error(samples, data, bits, k - 1) + d * d
    }
}

pub(crate) fn measure_words(samples: &Vec<i32>, data: &Vec<u8>, bits: u8) -> (sum: u128)
    requires
        depth_in_range(bits),
        data@.len() == samples@.len() * sample_size(bits),
        forall|i: int|
            0 <= i < samples@.len() ==> -32768 <= #[trigger] samples@[i] <= 65535,
    ensures
        sum == words_error(samples@, data@, bits, samples@.len() as int),
{
    let half: i64 = half_value(bits);
    let size: usize = sample_len(bits);
    let mut sum: u128 = 0;
    let mut i: usize = 0;
    while i < samples.len()
        invariant
            i <= samples@.len(),
            depth_in_range(bits),
            half == half_range(bits),
            128 <= half <= 32768,
            size == sample_size(bits),
            data@.len() == samples@.len() * size,
            forall|i: int|
                0 <= i < samples@.len() ==> -32768 <= #[trigger] samples@[i] <= 65535,
            sum == words_error(samples@, data@, bits, i as int),
            sum <= i * 0x10_0000_0000,
        decreases samples@.len() - i,
    {
        assert(i * size + size <= samples@.len() * size) by (nonlinear_arith)
            requires
                i + 1 <= samples@.len(),
                size >= 1,
        ;
        assert(data@.len() == data.len());
        let off: usize = i * size;
        let word: i64 = if size == 2 {
            data[off] as i64 + 256 * data[off + 1] as i64
        } else {
            data[off] as i64
        };
        let d: i64 = samples[i] as i64 + half - word;
        assert(0 <= d * d <= 0x10_0000_0000) by (nonlinear_arith)
            requires
                -200000 <= d <= 200000,
        ;
        sum = sum + (d * d) as u128;
        i = i + 1;
    }
    sum
}

/// Encoding a plane within a budget and decoding it again.
pub struct PlaneTrial<'a> {
    /// How the plane is encoded.
    pub set: Settings,
    /// Ranks of the segments.
    pub ranks: &'a Option<Vec<u16>>,
    /// The plane.
    pub plane: &'a IcerPlane,
    /// Width in samples.
    pub width: usize,
    /// Height in samples.
    pub height: usize,
}

/// The squared error of a stream against a plane, or why it cannot be decoded
/// to one of the same size.
pub open spec fn stream_error(
    bytes: Seq<u8>,
    plane: IcerPlane,
    width: int,
    height: int,
    bits: u8,
) -> core::result::Result<int, Fault> {
    match plane_decoded(bytes, bits, DecodeLimits::usual()) {
        Err(f) => Err(f),
        Ok(p) => if p.width != width || p.height != height {
            Err(Fault::InvalidData)
        } else {
            Ok(
                words_error(
                    shifted_samples(plane, bits, width, 0, height),
                    p.data,
                    bits,
                    width * height,
                ),
            )
        },
    }
}

/// The squared error of a stream against a plane.
pub(crate) fn measure_stream(bytes: &Vec<u8>, plane: &IcerPlane, width: usize, height: usize, bits: u8) -> (r: Result<
    u128,
>)
    requires
        plane_ok(*plane, width as int, height as int, bits),
    ensures
        match stream_error(bytes@, *plane, width as int, height as int, bits) {
            Err(f) => fails_with(r, f),
            Ok(e) => r is Ok && r->Ok_0 == e,
        },
{
    let limits = DecodeLimits::default();
    let decoded = match decode_plane(bytes.as_slice(), bits, &limits) {
        Ok(d) => d,
        Err(e) => return Err(e),
    };
    if decoded.width as usize != width || decoded.height as usize != height {
        return Err(IcerError::invalid("decoded plane has another size"));
    }
    let samples = read_samples(plane, bits, width, 0, height);
    proof {
        let a = width * height;
        assert(a >= 0) by (nonlinear_arith)
            requires
                a == width * height,
                width >= 0,
                height >= 0,
        ;
        lemma_samples_range(*plane, width as int, height as int, bits);
    }
    Ok(measure_words(&samples, &decoded.data, bits))
}

pub proof fn lemma_samples_range(plane: IcerPlane, width: int, height: int, bits: u8)
    requires
        depth_in_range(bits),
    ensures
        forall|i: int|
            0 <= i < shifted_samples(plane, bits, width, 0, height).len() ==> -32768
                <= #[trigger] shifted_samples(plane, bits, width, 0, height)[i] <= 65535,
{
    vstd::arithmetic::power2::lemma2_to64();
    vstd::arithmetic::power2::lemma_pow2_pos((bits - 1) as nat);
    if bits < 16 {
        vstd::arithmetic::power2::lemma_pow2_strictly_increases((bits - 1) as nat, 15);
    }
}

impl<'a> Trial for PlaneTrial<'a> {
    open spec fn outcome(&self, budget: u64) -> core::result::Result<(Seq<u8>, int), Fault> {
        match plane_segments(
            self.set,
            *self.ranks,
            *self.plane,
            self.width,
            self.height,
            Some(budget),
        ) {
            Err(f) => Err(f),
            Ok(segments) => match stream_error(
                stream_of(segments),
                *self.plane,
                self.width as int,
                self.height as int,
                self.set.bits,
            ) {
                Err(f) => Err(f),
                Ok(e) => Ok((stream_of(segments), e)),
            },
        }
    }

    open spec fn ready(&self) -> bool {
        &&& self.set.ok()
        &&& self.width >= 1
        &&& self.height >= 1
        &&& plane_ok(*self.plane, self.width as int, self.height as int, self.set.bits)
    }

    fn run(&self, budget: u64) -> (r: Result<(Vec<u8>, u128)>) {
        let bytes = match encode_plane_once(
            &self.set,
            self.ranks,
            self.plane,
            self.width,
            self.height,
            Some(budget),
        ) {
            Ok(b) => b,
            Err(e) => return Err(e),
        };
        match measure_stream(&bytes, self.plane, self.width, self.height, self.set.bits) {
            Ok(error) => Ok((bytes, error)),
            Err(e) => Err(e),
        }
    }
}

/// The settings without limits and without raw samples.
pub open spec fn unlimited_settings(set: Settings) -> Settings {
    Settings { target: None, rd_pruning: false, fallback: false, ..set }
}

/// The budgets between which the search for a plane runs: the headers of its
/// segments, and the stream without a budget.
pub open spec fn plane_bounds(
    set: Settings,
    ranks: Option<Vec<u16>>,
    plane: IcerPlane,
    width: usize,
    height: usize,
) -> core::result::Result<(int, int), Fault> {
    match plane_segments(unlimited_settings(set), ranks, plane, width, height, None) {
        Err(f) => Err(f),
        Ok(segments) => Ok(bounds_between(set.count(), stream_of(segments).len() as int)),
    }
}

/// The budgets from the headers of `count` segments to `high`.
pub open spec fn bounds_between(count: int, high: int) -> (int, int) {
    (
        if 12 * count < high {
            12 * count
        } else {
            high
        },
        high,
    )
}

/// The smallest stream of a plane that the search finds.
pub open spec fn plane_searched(
    set: Settings,
    ranks: &Option<Vec<u16>>,
    plane: &IcerPlane,
    width: usize,
    height: usize,
    target: u64,
) -> core::result::Result<Seq<u8>, Fault> {
    match plane_bounds(set, *ranks, *plane, width, height) {
        Err(f) => Err(f),
        Ok((low, high)) => if low >= high {
            match plane_segments(set, *ranks, *plane, width, height, None) {
                Err(f) => Err(f),
                Ok(segments) => Ok(stream_of(segments)),
            }
        } else {
            searched(
                PlaneTrial { set, ranks, plane, width, height },
                target as int,
                low as u64,
                high as u64,
            )
        },
    }
}

/// The smallest stream of a plane that the search finds.
pub(crate) fn search_plane(
    set: &Settings,
    ranks: &Option<Vec<u16>>,
    plane: &IcerPlane,
    width: usize,
    height: usize,
    target: u64,
) -> (r: Result<Vec<u8>>)
    requires
        set.ok(),
        width >= 1,
        height >= 1,
        plane_ok(*plane, width as int, height as int, set.bits),
    ensures
        match plane_searched(*set, ranks, plane, width, height, target) {
            Err(f) => fails_with(r, f),
            Ok(bytes) => r is Ok && r->Ok_0@ == bytes,
        },
{
    let free = Settings { target: None, rd_pruning: false, fallback: false, ..*set };
    let whole = match encode_plane_once(&free, ranks, plane, width, height, None) {
        Ok(b) => b,
        Err(e) => return Err(e),
    };
    let high: u64 = whole.len() as u64;
    let heads: u64 = 12 * set.segments() as u64;
    let low: u64 = if heads < high {
        heads
    } else {
        high
    };
    if low >= high {
        return encode_plane_once(set, ranks, plane, width, height, None);
    }
    let t = PlaneTrial { set: *set, ranks, plane, width, height };
    search(&t, target, low, high)
}

} // verus!
