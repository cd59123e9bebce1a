//! The choice of packets under a byte budget.
//!
//! Each packet promises a reduction of the squared error of the image. The
//! promise of a packet is a sum over the coefficients that it tells of; the
//! weight of a coefficient is the energy that it has in the image. All numbers
//! are exact integers: energies are those of a coefficient of value 64, so
//! weights come in units of 1/4096, and promises in units of 1/16384.
//!
//! A packet of refinement bits needs the significance packets up to its bit
//! plane, and a significance packet needs all before it. So a plan is a depth
//! and a choice of refinement packets down to it. Refinement packets are taken
//! by their promise per byte. The plan is compared with plain truncation by
//! decoding both, and the better one counts.

use crate::bitplane::{bitplanes_coded, bitplanes_decoded, coded_views, decode_bitplanes_filtered, encode_bitplanes, find_packet, index_from, BitPlaneInput, Coded, EncodedPacket, ScanFilter};
use crate::bytes::copy_bytes;
use crate::entropy::EntropyKind;
use crate::error::{fails_with, Fault, IcerError, Result};
use crate::header::WaveletFilter;
use crate::priority::{clamp_levels, clamped_levels, classified, classify_position, lemma_index, two_to, SubbandType};
use crate::readback::lemma_packets;
use crate::scan::{everything, magnitude, magnitude_of, repeated, Grid};
use crate::strip::{clamped, depth_in_range, half_range, half_value};
use crate::wavelet_int::{inverse_2d_dyadic, inverse_levels, weights_of};
use vstd::prelude::*;
use vstd::arithmetic::power2::pow2;

verus! {

// ---------------------------------------------------------------------------
// Weights of coefficients
// ---------------------------------------------------------------------------

/// Value of the coefficient whose energy is measured.
pub const PROBE: i32 = 64;

/// Largest energy that is told apart.
pub const MAX_ENERGY: u32 = 0x400_0000;

/// Sum of the squares of the first `k` values.
pub open spec fn squares_until(s: Seq<i32>, k: int) -> int
    decreases k,
{
    if k <= 0 {
        0
    } else {
        squares_until(s, k - 1) + s[k - 1] * s[k - 1]
    }
}

/// The image of a lone coefficient of value 64.
pub open spec fn probe_image(
    width: usize,
    height: usize,
    levels: u8,
    filter: WaveletFilter,
    x: int,
    y: int,
) -> Seq<i32> {
    inverse_levels(
        weights_of(filter),
        width,
        height,
        Seq::new(
            (width * height) as nat,
            |i: int|
                if i == y * width + x {
                    PROBE
                } else {
                    0i32
                },
        ),
        levels as int,
    )
}

/// Energy of a lone coefficient of value 64 in the image.
pub open spec fn energy_of(
    width: usize,
    height: usize,
    levels: u8,
    filter: WaveletFilter,
    x: int,
    y: int,
) -> int {
    let image = probe_image(width, height, levels, filter, x, y);
    let e = squares_until(image, image.len() as int);
    if e < MAX_ENERGY {
        e
    } else {
        MAX_ENERGY as int
    }
}

proof fn lemma_square(v: i32)
    ensures
        0 <= v * v <= 0x4000_0000_0000_0000,
{
    assert(0 <= v * v <= 0x4000_0000_0000_0000) by (nonlinear_arith)
        requires
            -0x8000_0000 <= v <= 0x7FFF_FFFF,
    ;
}

fn basis_energy(
    width: usize,
    height: usize,
    levels: u8,
    filter: WaveletFilter,
    x: usize,
    y: usize,
) -> (e: u32)
    requires
        width * height <= usize::MAX,
        x < width,
        y < height,
        levels <= 31,
    ensures
        e == energy_of(width, height, levels, filter, x as int, y as int),
        e <= MAX_ENERGY,
{
    proof {
        lemma_index(x as int, y as int, width as int, height as int);
    }
    let mut buf = repeated(0i32, width * height);
    buf.set(y * width + x, PROBE);
    assert(buf@ =~= Seq::new(
        (width * height) as nat,
        |i: int|
            if i == y * width + x {
                PROBE
            } else {
                0i32
            },
    ));
    inverse_2d_dyadic(&mut buf, width, height, levels, filter);
    let mut sum: u128 = 0;
    let mut i: usize = 0;
    while i < buf.len()
        invariant
            i <= buf@.len(),
            sum == squares_until(buf@, i as int),
            sum <= i * 0x4000_0000_0000_0000,
        decreases buf@.len() - i,
    {
        let v: i128 = buf[i] as i128;
        proof {
            lemma_square(buf@[i as int]);
        }
        sum = sum + (v * v) as u128;
        i = i + 1;
    }
    if sum < MAX_ENERGY as u128 {
        sum as u32
    } else {
        MAX_ENERGY
    }
}

/// The first place from the `k`th of a block on, in raster order, of a
/// coefficient of a class.
pub open spec fn first_of_class(
    levels: int,
    class: (SubbandType, int),
    x0: int,
    x1: int,
    y0: int,
    y1: int,
    k: int,
) -> Option<(int, int)>
    decreases (x1 - x0) * (y1 - y0) - k,
{
    let (x, y) = (x0 + k % (x1 - x0), y0 + k / (x1 - x0));
    if k < 0 || k >= (x1 - x0) * (y1 - y0) {
        None
    } else if classified(x, y, 1, levels) == class {
        Some((x, y))
    } else {
        first_of_class(levels, class, x0, x1, y0, y1, k + 1)
    }
}

/// Inner part of a range: without four places at either end, where there are
/// more than eight.
pub open spec fn inner_range(n: int) -> (int, int) {
    if n > 8 {
        (4, n - 4)
    } else {
        (0, n)
    }
}

/// Where the energy of a class is measured: at its first place in the inner
/// part of the buffer, else at its first place.
pub open spec fn probe_place(width: int, height: int, levels: int, class: (SubbandType, int)) -> Option<
    (int, int),
> {
    let (x0, x1) = inner_range(width);
    let (y0, y1) = inner_range(height);
    match first_of_class(levels, class, x0, x1, y0, y1, 0) {
        Some(p) => Some(p),
        None => first_of_class(levels, class, 0, width, 0, height, 0),
    }
}

/// Weight of the coefficients of a class.
pub open spec fn class_weight(
    width: usize,
    height: usize,
    levels: u8,
    filter: WaveletFilter,
    class: (SubbandType, int),
) -> int {
    match probe_place(width as int, height as int, levels as int, class) {
        Some((x, y)) => energy_of(width, height, levels, filter, x, y),
        None => 0,
    }
}

/// Weights of all coefficients, in units of 1/4096: the square error in the
/// image for a square error of one in the coefficient.
pub open spec fn weight_map(width: usize, height: usize, levels: u8, filter: WaveletFilter) -> Seq<u32> {
    Seq::new(
        (width * height) as nat,
        |i: int|
            class_weight(
                width,
                height,
                levels,
                filter,
                classified(i % (width as int), i / (width as int), 1, levels as int),
            ) as u32,
    )
}

fn find_class(
    levels: u8,
    kind: SubbandType,
    level: u8,
    x0: usize,
    x1: usize,
    y0: usize,
    y1: usize,
) -> (r: Option<(usize, usize)>)
    requires
        x0 <= x1,
        y0 <= y1,
        levels <= 31,
        (x1 - x0) * (y1 - y0) <= usize::MAX,
    ensures
        first_of_class(
            levels as int,
            (kind, level as int),
            x0 as int,
            x1 as int,
            y0 as int,
            y1 as int,
            0,
        ) == (match r {
            Some((x, y)) => Some((x as int, y as int)),
            None => None,
        }),
        r matches Some((x, y)) ==> x0 <= x < x1 && y0 <= y < y1,
{
    let ghost class = (kind, level as int);
    let w: usize = x1 - x0;
    let n: usize = w * (y1 - y0);
    let mut k: usize = 0;
    while k < n
        invariant
            k <= n,
            x0 <= x1,
            y0 <= y1,
            w == x1 - x0,
            n == w * (y1 - y0),
            levels <= 31,
            class == (kind, level as int),
            first_of_class(
                levels as int,
                class,
                x0 as int,
                x1 as int,
                y0 as int,
                y1 as int,
                0,
            ) == first_of_class(
                levels as int,
                class,
                x0 as int,
                x1 as int,
                y0 as int,
                y1 as int,
                k as int,
            ),
        decreases n - k,
    {
        proof {
            assert(w > 0) by (nonlinear_arith)
                requires
                    0 <= k < n,
                    n == w * (y1 - y0),
                    w >= 0,
            ;
            assert(0 <= k / w < y1 - y0) by (nonlinear_arith)
                requires
                    0 <= k < w * (y1 - y0),
                    w > 0,
            ;
            assert(0 <= k % w < w) by (nonlinear_arith)
                requires
                    w > 0,
                    k >= 0,
            ;
        }
        let x: usize = x0 + k % w;
        let y: usize = y0 + k / w;
        let (kd, lv) = classify_position(x, y, levels);
        if kd == kind && lv == level {
            return Some((x, y));
        }
        k = k + 1;
    }
    None
}

fn inner_part(n: usize) -> (r: (usize, usize))
    ensures
        (r.0 as int, r.1 as int) == inner_range(n as int),
        r.0 <= r.1 <= n,
{
    if n > 8 {
        (4, n - 4)
    } else {
        (0, n)
    }
}

fn measure_class(
    width: usize,
    height: usize,
    levels: u8,
    filter: WaveletFilter,
    kind: SubbandType,
    level: u8,
) -> (e: u32)
    requires
        width * height <= usize::MAX,
        levels <= 31,
    ensures
        e == class_weight(width, height, levels, filter, (kind, level as int)),
        e <= MAX_ENERGY,
{
    let (x0, x1) = inner_part(width);
    let (y0, y1) = inner_part(height);
    assert((x1 - x0) * (y1 - y0) <= width * height) by (nonlinear_arith)
        requires
            0 <= x0 <= x1 <= width,
            0 <= y0 <= y1 <= height,
    ;
    match find_class(levels, kind, level, x0, x1, y0, y1) {
        Some((x, y)) => basis_energy(width, height, levels, filter, x, y),
        None => match find_class(levels, kind, level, 0, width, 0, height) {
            Some((x, y)) => basis_energy(width, height, levels, filter, x, y),
            None => 0,
        },
    }
}

/// Place of a class in a table of 28.
pub open spec fn class_slot(kind: SubbandType, level: int) -> int {
    7 * kind.rank() + level
}

fn slot_of(kind: SubbandType, level: u8) -> (s: usize)
    requires
        level <= 6,
    ensures
        s == class_slot(kind, level as int),
        s < 28,
{
    let r: usize = match kind {
        SubbandType::Ll => 0,
        SubbandType::Hl => 1,
        SubbandType::Lh => 2,
        SubbandType::Hh => 3,
    };
    7 * r + level as usize
}

/// The measured classes of a table have their weights.
pub open spec fn measured(
    table: Seq<Option<u32>>,
    width: usize,
    height: usize,
    levels: u8,
    filter: WaveletFilter,
) -> bool {
    forall|kind: SubbandType, level: int|
        #![trigger class_slot(kind, level)]
        0 <= level <= 6 ==> (table[class_slot(kind, level)] matches Some(e) ==> e == class_weight(
            width,
            height,
            levels,
            filter,
            (kind, level),
        ) && e <= MAX_ENERGY)
}

/// Weights of all coefficients, in units of 1/4096. Level counts out of range
/// stand for the nearest one in range.
pub fn subband_weight_map(width: usize, height: usize, levels: u8, filter: WaveletFilter) -> (out: Vec<
    u32,
>)
    requires
        width * height <= usize::MAX,
    ensures
        out@ == weight_map(width, height, clamped_levels(levels), filter),
        forall|i: int| 0 <= i < out@.len() ==> #[trigger] out@[i] <= MAX_ENERGY,
{
    let d: u8 = clamp_levels(levels);
    let mut table: Vec<Option<u32>> = Vec::new();
    let mut i: usize = 0;
    while i < 28
        invariant
            i <= 28,
            table@.len() == i,
            forall|j: int| 0 <= j < i ==> (#[trigger] table@[j]) is None,
        decreases 28 - i,
    {
        table.push(None);
        i = i + 1;
    }
    assert(measured(table@, width, height, d, filter));
    let ghost all = weight_map(width, height, d, filter);
    let n: usize = width * height;
    let mut out: Vec<u32> = Vec::new();
    let mut k: usize = 0;
    while k < n
        invariant
            k <= n,
            n == width * height,
            width * height <= usize::MAX,
            1 <= d <= 6,
            table@.len() == 28,
            measured(table@, width, height, d, filter),
            all == weight_map(width, height, d, filter),
            out@.len() == k,
            forall|j: int| 0 <= j < k ==> #[trigger] out@[j] == all[j],
            forall|j: int| 0 <= j < k ==> #[trigger] out@[j] <= MAX_ENERGY,
        decreases n - k,
    {
        assert(width > 0) by (nonlinear_arith)
            requires
                0 <= k < n,
                n == width * height,
                width >= 0,
        ;
        let x: usize = k % width;
        let y: usize = k / width;
        let (kind, level) = classify_position(x, y, d);
        let s: usize = slot_of(kind, level);
        let e: u32 = match table[s] {
            Some(e) => e,
            None => {
                let e: u32 = measure_class(width, height, d, filter, kind, level);
                let ghost before = table@;
                table.set(s, Some(e));
                assert(measured(table@, width, height, d, filter)) by {
                    assert forall|kd: SubbandType, lv: int|
                        #![trigger class_slot(kd, lv)]
                        0 <= lv <= 6 implies (table@[class_slot(kd, lv)] matches Some(v) ==> v
                        == class_weight(width, height, d, filter, (kd, lv)) && v
                        <= MAX_ENERGY) by {
                        if class_slot(kd, lv) == s {
                            assert(kd == kind && lv == level);
                        } else {
                            assert(table@[class_slot(kd, lv)] == before[class_slot(kd, lv)]);
                        }
                    }
                }
                e
            },
        };
        assert(e == class_weight(width, height, d, filter, (kind, level as int))) by {
            assert(class_slot(kind, level as int) == s);
        }
        out.push(e);
        k = k + 1;
    }
    assert(out@ =~= all);
    out
}

// ---------------------------------------------------------------------------
// Promises of packets
// ---------------------------------------------------------------------------

/// Sum of the weights of the coefficients among the first `k` whose magnitude
/// lies from `low` up to `high`.
pub open spec fn weight_between(coeffs: Seq<i32>, weights: Seq<u32>, low: int, high: int, k: int) -> int
    decreases k,
{
    if k <= 0 {
        0
    } else {
        weight_between(coeffs, weights, low, high, k - 1) + (if low <= magnitude_of(coeffs[k - 1])
            < high {
            weights[k - 1] as int
        } else {
            0
        })
    }
}

/// By how much a packet reduces the squared error, in units of 1/16384. A
/// coefficient that turns out to have its highest bit in plane `b` gives
/// `2 * 4^b`, one whose bit in plane `b` is told a quarter of `4^b`.
pub open spec fn promise_of(coeffs: Seq<i32>, weights: Seq<u32>, q: u8, plane: u8, is_significance: bool) -> int {
    let b = q - 1 - plane;
    let n = coeffs.len() as int;
    let low = pow2(b as nat) as int;
    let step = pow2((2 * b) as nat) as int;
    if is_significance {
        8 * step * weight_between(coeffs, weights, low, 2 * low, n)
    } else {
        step * weight_between(coeffs, weights, 2 * low, 0x1_0000_0000, n)
    }
}

/// The promises of packets.
pub open spec fn promises(coeffs: Seq<i32>, weights: Seq<u32>, q: u8, packets: Seq<Coded>) -> Seq<int> {
    Seq::new(
        packets.len(),
        |i: int|
            promise_of(coeffs, weights, q, packets[i].bit_plane, packets[i].is_significance),
    )
}

/// Largest promise.
pub const MAX_PROMISE: u128 = 0x200_0000_0000_0000_0000_0000_0000_0000;

fn weigh(coeffs: &[i32], weights: &[u32], low: u64, high: u64) -> (sum: u64)
    requires
        coeffs@.len() == weights@.len(),
        coeffs@.len() <= 0x1_0000_0000,
        forall|i: int| 0 <= i < weights@.len() ==> #[trigger] weights@[i] <= MAX_ENERGY,
    ensures
        sum == weight_between(coeffs@, weights@, low as int, high as int, coeffs@.len() as int),
        sum <= 0x400_0000_0000_0000,
{
    let mut sum: u64 = 0;
    let mut i: usize = 0;
    while i < coeffs.len()
        invariant
            i <= coeffs@.len(),
            coeffs@.len() == weights@.len(),
            coeffs@.len() <= 0x1_0000_0000,
            forall|i: int| 0 <= i < weights@.len() ==> #[trigger] weights@[i] <= MAX_ENERGY,
            sum == weight_between(coeffs@, weights@, low as int, high as int, i as int),
            sum <= i * MAX_ENERGY,
        decreases coeffs@.len() - i,
    {
        let m: u64 = magnitude(coeffs[i]) as u64;
        assert(weights@[i as int] <= MAX_ENERGY);
        if low <= m && m < high {
            sum = sum + weights[i] as u64;
        }
        i = i + 1;
    }
    sum
}

/// The promises of packets.
pub(crate) fn promise_all(
    coeffs: &[i32],
    weights: &[u32],
    q: u8,
    packets: &Vec<EncodedPacket>,
) -> (out: Vec<u128>)
    requires
        coeffs@.len() == weights@.len(),
        coeffs@.len() <= 0x1_0000_0000,
        forall|i: int| 0 <= i < weights@.len() ==> #[trigger] weights@[i] <= MAX_ENERGY,
        q <= 31,
        forall|i: int| 0 <= i < packets@.len() ==> (#[trigger] packets@[i]).bit_plane < q,
    ensures
        out@.len() == packets@.len(),
        forall|i: int|
            0 <= i < out@.len() ==> #[trigger] out@[i] == promises(
                coeffs@,
                weights@,
                q,
                coded_views(packets@),
            )[i],
        forall|i: int| 0 <= i < out@.len() ==> #[trigger] out@[i] <= MAX_PROMISE,
{
    let ghost all = promises(coeffs@, weights@, q, coded_views(packets@));
    let mut out: Vec<u128> = Vec::new();
    let mut k: usize = 0;
    while k < packets.len()
        invariant
            k <= packets@.len(),
            coeffs@.len() == weights@.len(),
            coeffs@.len() <= 0x1_0000_0000,
            forall|i: int| 0 <= i < weights@.len() ==> #[trigger] weights@[i] <= MAX_ENERGY,
            q <= 31,
            forall|i: int| 0 <= i < packets@.len() ==> (#[trigger] packets@[i]).bit_plane < q,
            all == promises(coeffs@, weights@, q, coded_views(packets@)),
            out@.len() == k,
            forall|i: int| 0 <= i < k ==> #[trigger] out@[i] == all[i],
            forall|i: int| 0 <= i < k ==> #[trigger] out@[i] <= MAX_PROMISE,
        decreases packets@.len() - k,
    {
        assert(packets@[k as int].bit_plane < q);
        assert(coded_views(packets@)[k as int] == packets@[k as int]@);
        let b: u8 = q - 1 - packets[k].bit_plane;
        let low: u64 = two_to(b) as u64;
        proof {
            vstd::arithmetic::power2::lemma2_to64();
            if b < 31 {
                vstd::arithmetic::power2::lemma_pow2_strictly_increases(b as nat, 31);
            }
            vstd::arithmetic::power2::lemma_pow2_adds(b as nat, b as nat);
            vstd::arithmetic::power2::lemma_pow2_pos(b as nat);
            if b < 30 {
                vstd::arithmetic::power2::lemma_pow2_strictly_increases((2 * b) as nat, 60);
                vstd::arithmetic::power2::lemma_pow2_strictly_increases(b as nat, 30);
            }
            vstd::arithmetic::power2::lemma_pow2_adds(30, 30);
            assert(low * low == pow2((2 * b) as nat));
            assert(pow2((2 * b) as nat) <= 0x1000_0000_0000_0000);
        }
        let step: u128 = low as u128 * low as u128;
        let v: u128 = if packets[k].is_significance {
            let sum: u128 = weigh(coeffs, weights, low, 2 * low) as u128;
            assert(0 <= 8 * step * sum <= 0x200_0000_0000_0000_0000_0000_0000_0000) by (nonlinear_arith)
                requires
                    0 <= step <= 0x1000_0000_0000_0000,
                    0 <= sum <= 0x400_0000_0000_0000,
            ;
            8 * step * sum
        } else {
            let sum: u128 = weigh(coeffs, weights, 2 * low, 0x1_0000_0000) as u128;
            assert(0 <= step * sum <= 0x200_0000_0000_0000_0000_0000_0000_0000) by (nonlinear_arith)
                requires
                    0 <= step <= 0x1000_0000_0000_0000,
                    0 <= sum <= 0x400_0000_0000_0000,
            ;
            step * sum
        };
        out.push(v);
        k = k + 1;
    }
    out
}

/// The weights that are given, or else those under which every coefficient
/// counts by its own square.
pub open spec fn weights_or_flat(weights: Option<&[u32]>, n: int) -> Seq<u32> {
    match weights {
        Some(w) => w@,
        None => Seq::new(n as nat, |i: int| 4096u32),
    }
}

fn flat_weights(n: usize) -> (w: Vec<u32>)
    ensures
        w@ == Seq::new(n as nat, |i: int| 4096u32),
{
    let mut w: Vec<u32> = Vec::new();
    while w.len() < n
        invariant
            w@.len() <= n,
            forall|i: int| 0 <= i < w@.len() ==> #[trigger] w@[i] == 4096u32,
        decreases n - w@.len(),
    {
        w.push(4096);
    }
    assert(w@ =~= Seq::new(n as nat, |i: int| 4096u32));
    w
}

/// Encode a buffer with the arithmetic coder, and tell of each packet by how
/// much it reduces the squared error of the image. The weights are those of
/// the coefficients, as [`subband_weight_map`] gives them; they do not change
/// the packets.
pub fn encode_bitplanes_weighted(input: &BitPlaneInput, weights: Option<&[u32]>) -> (r: Result<
    (Vec<EncodedPacket>, Vec<u128>),
>)
    requires
        input.grid().ok(),
        input.coeffs@.len() <= 0x1_0000_0000,
        weights matches Some(w) ==> forall|i: int|
            0 <= i < w@.len() ==> #[trigger] w@[i] <= MAX_ENERGY,
    ensures
        ({
            let ok = input.valid() && (weights matches Some(w) ==> w@.len() == input.coeffs@.len());
            let all = bitplanes_coded(
                input.grid(),
                input.coeffs@,
                everything(),
                EntropyKind::Arithmetic,
                input.q,
            );
            &&& r is Ok <==> ok
            &&& fails_with(r, Fault::InvalidData) <==> !ok
            &&& r matches Ok((packets, promised)) ==> coded_views(packets@) == all && numbers(
                promised@,
            ) == promises(
                input.coeffs@,
                weights_or_flat(weights, input.coeffs@.len() as int),
                input.q,
                all,
            )
        }),
{
    let packets = match encode_bitplanes(input) {
        Ok(p) => p,
        Err(e) => return Err(e),
    };
    let n: usize = input.coeffs.len();
    proof {
        lemma_packets(
            input.grid(),
            input.coeffs@,
            everything(),
            EntropyKind::Arithmetic,
            input.q,
            input.q as int,
        );
        assert forall|i: int| 0 <= i < packets@.len() implies (#[trigger] packets@[i]).bit_plane
            < input.q by {
            assert(coded_views(packets@)[i] == packets@[i]@);
        }
    }
    let promised = match weights {
        Some(w) => {
            if w.len() != n {
                return Err(
                    IcerError::invalid("as many weights as coefficients are needed"),
                );
            }
            promise_all(input.coeffs, w, input.q, &packets)
        },
        None => {
            let w = flat_weights(n);
            promise_all(input.coeffs, w.as_slice(), input.q, &packets)
        },
    };
    proof {
        let all = promises(
            input.coeffs@,
            weights_or_flat(weights, n as int),
            input.q,
            coded_views(packets@),
        );
        assert(numbers(promised@) =~= all);
    }
    Ok((packets, promised))
}

// ---------------------------------------------------------------------------
// Plans
// ---------------------------------------------------------------------------

/// A choice of packets with its bytes and its promise.
pub struct Plan {
    /// For each packet whether it is chosen.
    pub chosen: Seq<bool>,
    /// Bytes of the chosen packets with their headers.
    pub bytes: int,
    /// Sum of the promises.
    pub promise: int,
}

/// Bytes of a packet with its header.
pub open spec fn wire_size(packets: Seq<Coded>, i: int) -> int {
    4 + packets[i].body.len() as int
}

/// The plan of `n` packets that chooses none.
pub open spec fn empty_plan(n: int) -> Plan {
    Plan { chosen: Seq::new(n as nat, |i: int| false), bytes: 0, promise: 0 }
}

/// The plan with one packet more.
pub open spec fn with_packet(p: Plan, packets: Seq<Coded>, promises: Seq<int>, i: int) -> Plan {
    Plan {
        chosen: p.chosen.update(i, true),
        bytes: p.bytes + wire_size(packets, i),
        promise: p.promise + promises[i],
    }
}

/// The significance packets of the first `k` bit planes, where all are there.
pub open spec fn chain_plan(packets: Seq<Coded>, promises: Seq<int>, k: int) -> Option<Plan>
    decreases k,
{
    if k <= 0 {
        Some(empty_plan(packets.len() as int))
    } else {
        match (chain_plan(packets, promises, k - 1), index_from(packets, (k - 1) as u8, true, 0)) {
            (Some(p), Some(i)) => Some(with_packet(p, packets, promises, i)),
            _ => None,
        }
    }
}

/// Packet `a` promises more for its bytes than packet `b`; between equal ones
/// the first counts.
pub open spec fn promises_more(packets: Seq<Coded>, promises: Seq<int>, a: int, b: int) -> bool {
    let (left, right) = (
        promises[a] * wire_size(packets, b),
        promises[b] * wire_size(packets, a),
    );
    left > right || (left == right && a < b)
}

/// `list` with `x` behind those that promise more.
pub open spec fn insert_ranked(list: Seq<int>, x: int, packets: Seq<Coded>, promises: Seq<int>) -> Seq<int>
    decreases list.len(),
{
    if list.len() == 0 || promises_more(packets, promises, list.last(), x) {
        list.push(x)
    } else {
        insert_ranked(list.drop_last(), x, packets, promises).push(list.last())
    }
}

/// The refinement packets of the first `k` bit planes by their promise per
/// byte.
pub open spec fn ranked_refinements(packets: Seq<Coded>, promises: Seq<int>, k: int) -> Seq<int>
    decreases k,
{
    if k <= 0 {
        Seq::empty()
    } else {
        let before = ranked_refinements(packets, promises, k - 1);
        match index_from(packets, (k - 1) as u8, false, 0) {
            None => before,
            Some(i) => insert_ranked(before, i, packets, promises),
        }
    }
}

/// The plan with those of the first `k` packets of a list that promise
/// something and still fit into the budget.
pub open spec fn filled_plan(
    p: Plan,
    list: Seq<int>,
    packets: Seq<Coded>,
    promises: Seq<int>,
    budget: int,
    k: int,
) -> Plan
    decreases k,
{
    if k <= 0 {
        p
    } else {
        let before = filled_plan(p, list, packets, promises, budget, k - 1);
        let i = list[k - 1];
        if before.bytes + wire_size(packets, i) > budget || promises[i] <= 0 {
            before
        } else {
            with_packet(before, packets, promises, i)
        }
    }
}

/// `p` is the better of two plans: it promises more, or the same with fewer
/// bytes.
pub open spec fn improves(p: Plan, q: Plan) -> bool {
    p.promise > q.promise || (p.promise == q.promise && p.bytes < q.bytes)
}

/// The best plan of the depths below `k`.
pub open spec fn best_plan(packets: Seq<Coded>, promises: Seq<int>, budget: int, k: int) -> Plan
    decreases k,
{
    if k <= 0 {
        empty_plan(packets.len() as int)
    } else {
        let before = best_plan(packets, promises, budget, k - 1);
        match chain_plan(packets, promises, k) {
            None => before,
            Some(chain) => if chain.bytes > budget {
                before
            } else {
                let list = ranked_refinements(packets, promises, k);
                let p = filled_plan(chain, list, packets, promises, budget, list.len() as int);
                if improves(p, before) {
                    p
                } else {
                    before
                }
            },
        }
    }
}

proof fn lemma_chain_grows(packets: Seq<Coded>, promises: Seq<int>, j: int, k: int)
    requires
        0 <= j <= k,
    ensures
        chain_plan(packets, promises, j) is None ==> chain_plan(packets, promises, k) is None,
        chain_plan(packets, promises, k) matches Some(p) ==> (chain_plan(
            packets,
            promises,
            j,
        ) matches Some(o) && o.bytes <= p.bytes),
    decreases k,
{
    if k > j {
        lemma_chain_grows(packets, promises, j, k - 1);
    }
}

proof fn lemma_best_stops(packets: Seq<Coded>, promises: Seq<int>, budget: int, k: int, n: int)
    requires
        1 <= k <= n,
        chain_plan(packets, promises, k) is None || chain_plan(packets, promises, k)->0.bytes
            > budget,
    ensures
        best_plan(packets, promises, budget, n) == best_plan(packets, promises, budget, k - 1),
    decreases n,
{
    lemma_chain_grows(packets, promises, k, n);
    if n > k {
        lemma_best_stops(packets, promises, budget, k, n - 1);
    }
}

/// **A plan keeps to its budget, and chooses a refinement packet only with the
/// significance packets up to its bit plane.**
pub proof fn plans_are_decodable(packets: Seq<Coded>, promises: Seq<int>, budget: int, k: int)
    requires
        0 <= k <= 255,
        budget >= 0,
    ensures
        ({
            let p = best_plan(packets, promises, budget, k);
            &&& 0 <= p.bytes <= budget
            &&& p.chosen.len() == packets.len()
            &&& forall|i: int|
                0 <= i < packets.len() && #[trigger] p.chosen[i] ==> needs_met(
                    packets,
                    p.chosen,
                    i,
                )
        }),
    decreases k,
{
    if k > 0 {
        plans_are_decodable(packets, promises, budget, k - 1);
        match chain_plan(packets, promises, k) {
            None => {},
            Some(chain) => {
                if chain.bytes <= budget {
                    let list = ranked_refinements(packets, promises, k);
                    lemma_chain_chosen(packets, promises, k);
                    lemma_ranked(packets, promises, k);
                    lemma_filled(chain, list, packets, promises, budget, k, list.len() as int);
                    let p = filled_plan(
                        chain,
                        list,
                        packets,
                        promises,
                        budget,
                        list.len() as int,
                    );
                    assert forall|i: int| 0 <= i < packets.len() && #[trigger] p.chosen[i] implies needs_met(
                        packets,
                        p.chosen,
                        i,
                    ) by {
                        assert(packets[i].bit_plane < k);
                    }
                }
            },
        }
    }
}

/// The significance packets of all bit planes up to that of packet `i` are
/// chosen.
pub open spec fn needs_met(packets: Seq<Coded>, chosen: Seq<bool>, i: int) -> bool {
    forall|b: int|
        0 <= b <= packets[i].bit_plane ==> (#[trigger] index_from(packets, b as u8, true, 0)
            matches Some(j) && chosen[j])
}

pub proof fn lemma_index_bounds(packets: Seq<Coded>, plane: u8, sig: bool, k: int)
    requires
        0 <= k,
    ensures
        index_from(packets, plane, sig, k) matches Some(i) ==> k <= i < packets.len()
            && packets[i].bit_plane == plane && packets[i].is_significance == sig,
    decreases packets.len() - k,
{
    if k < packets.len() && !(packets[k].bit_plane == plane && packets[k].is_significance == sig) {
        lemma_index_bounds(packets, plane, sig, k + 1);
    }
}

/// What a plan of depth `k` has: the chain, and nothing deeper.
pub open spec fn of_depth(p: Plan, packets: Seq<Coded>, k: int) -> bool {
    &&& p.chosen.len() == packets.len()
    &&& p.bytes >= 0
    &&& forall|b: int|
        0 <= b < k ==> (#[trigger] index_from(packets, b as u8, true, 0) matches Some(j)
            && p.chosen[j])
    &&& forall|i: int|
        0 <= i < packets.len() && #[trigger] p.chosen[i] ==> packets[i].bit_plane < k
}

proof fn lemma_chain_chosen(packets: Seq<Coded>, promises: Seq<int>, k: int)
    requires
        0 <= k <= 256,
        chain_plan(packets, promises, k) is Some,
    ensures
        of_depth(chain_plan(packets, promises, k)->0, packets, k),
    decreases k,
{
    if k > 0 {
        lemma_chain_chosen(packets, promises, k - 1);
        lemma_index_bounds(packets, (k - 1) as u8, true, 0);
        let p = chain_plan(packets, promises, k)->0;
        let before = chain_plan(packets, promises, k - 1)->0;
        let i = index_from(packets, (k - 1) as u8, true, 0)->0;
        assert forall|b: int| 0 <= b < k implies (#[trigger] index_from(packets, b as u8, true, 0)
            matches Some(j) && p.chosen[j]) by {
            lemma_index_bounds(packets, b as u8, true, 0);
        }
    }
}

proof fn lemma_insert_ranked(list: Seq<int>, x: int, packets: Seq<Coded>, promises: Seq<int>, k: int)
    requires
        forall|j: int|
            0 <= j < list.len() ==> 0 <= #[trigger] list[j] < packets.len()
                && packets[list[j]].bit_plane < k,
        0 <= x < packets.len(),
        packets[x].bit_plane < k,
    ensures
        insert_ranked(list, x, packets, promises).len() == list.len() + 1,
        forall|j: int|
            0 <= j < insert_ranked(list, x, packets, promises).len() ==> 0
                <= #[trigger] insert_ranked(list, x, packets, promises)[j] < packets.len()
                && packets[insert_ranked(list, x, packets, promises)[j]].bit_plane < k,
    decreases list.len(),
{
    if list.len() == 0 || promises_more(packets, promises, list.last(), x) {
    } else {
        lemma_insert_ranked(list.drop_last(), x, packets, promises, k);
    }
}

pub proof fn lemma_ranked(packets: Seq<Coded>, promises: Seq<int>, k: int)
    requires
        0 <= k <= 256,
    ensures
        ranked_refinements(packets, promises, k).len() <= k,
        forall|j: int|
            0 <= j < ranked_refinements(packets, promises, k).len() ==> 0
                <= #[trigger] ranked_refinements(packets, promises, k)[j] < packets.len()
                && packets[ranked_refinements(packets, promises, k)[j]].bit_plane < k,
    decreases k,
{
    if k > 0 {
        lemma_ranked(packets, promises, k - 1);
        lemma_index_bounds(packets, (k - 1) as u8, false, 0);
        match index_from(packets, (k - 1) as u8, false, 0) {
            None => {},
            Some(i) => {
                lemma_insert_ranked(
                    ranked_refinements(packets, promises, k - 1),
                    i,
                    packets,
                    promises,
                    k,
                );
            },
        }
    }
}

proof fn lemma_filled(
    p: Plan,
    list: Seq<int>,
    packets: Seq<Coded>,
    promises: Seq<int>,
    budget: int,
    depth: int,
    k: int,
)
    requires
        0 <= k <= list.len(),
        of_depth(p, packets, depth),
        p.bytes <= budget,
        forall|j: int|
            0 <= j < list.len() ==> 0 <= #[trigger] list[j] < packets.len()
                && packets[list[j]].bit_plane < depth,
    ensures
        of_depth(filled_plan(p, list, packets, promises, budget, k), packets, depth),
        filled_plan(p, list, packets, promises, budget, k).bytes <= budget,
    decreases k,
{
    if k > 0 {
        lemma_filled(p, list, packets, promises, budget, depth, k - 1);
        let before = filled_plan(p, list, packets, promises, budget, k - 1);
        let after = filled_plan(p, list, packets, promises, budget, k);
        let i = list[k - 1];
        assert forall|b: int| 0 <= b < depth implies (#[trigger] index_from(
            packets,
            b as u8,
            true,
            0,
        ) matches Some(j) && after.chosen[j]) by {
            lemma_index_bounds(packets, b as u8, true, 0);
        }
    }
}

/// A choice of packets with its bytes and its promise.
struct Choice {
    chosen: Vec<bool>,
    bytes: u128,
    promise: u128,
}

impl Choice {
    spec fn plan(self) -> Plan {
        Plan { chosen: self.chosen@, bytes: self.bytes as int, promise: self.promise as int }
    }

    fn copy(&self) -> (c: Choice)
        ensures
            c.plan() == self.plan(),
    {
        let chosen = copy_flags(&self.chosen);
        Choice { chosen, bytes: self.bytes, promise: self.promise }
    }

    /// Add packet `i`.
    fn take(&mut self, packets: &Vec<EncodedPacket>, promised: &Vec<u128>, i: usize)
        requires
            i < packets@.len(),
            packets@.len() == promised@.len() == old(self).chosen@.len(),
            old(self).bytes + 4 + packets@[i as int].body@.len() <= u128::MAX,
            old(self).promise + promised@[i as int] <= u128::MAX,
        ensures
            final(self).plan() == with_packet(
                old(self).plan(),
                coded_views(packets@),
                numbers(promised@),
                i as int,
            ),
            final(self).chosen@.len() == old(self).chosen@.len(),
    {
        assert(coded_views(packets@)[i as int] == packets@[i as int]@);
        self.chosen.set(i, true);
        self.bytes = self.bytes + 4 + packets[i].body.len() as u128;
        self.promise = self.promise + promised[i];
    }
}

/// Numbers as integers.
pub open spec fn numbers(v: Seq<u128>) -> Seq<int> {
    Seq::new(v.len(), |i: int| v[i] as int)
}

fn copy_flags(v: &Vec<bool>) -> (r: Vec<bool>)
    ensures
        r@ == v@,
{
    let mut r: Vec<bool> = Vec::new();
    let mut i: usize = 0;
    assert(v@.take(0) =~= Seq::empty());
    while i < v.len()
        invariant
            i <= v@.len(),
            r@ == v@.take(i as int),
        decreases v@.len() - i,
    {
        r.push(v[i]);
        assert(v@.take(i + 1) =~= v@.take(i as int).push(v@[i as int]));
        i = i + 1;
    }
    assert(v@.take(v@.len() as int) =~= v@);
    r
}

proof fn lemma_quotients(pa: int, wa: int, pb: int, wb: int)
    requires
        wa > 0,
        wb > 0,
    ensures
        pa / wa > pb / wb ==> pa * wb > pb * wa,
        pa / wa < pb / wb ==> pa * wb < pb * wa,
        pa / wa == pb / wb ==> pa * wb - pb * wa == (pa % wa) * wb - (pb % wb) * wa,
{
    let (qa, ra, qb, rb) = (pa / wa, pa % wa, pb / wb, pb % wb);
    vstd::arithmetic::div_mod::lemma_fundamental_div_mod(pa, wa);
    vstd::arithmetic::div_mod::lemma_fundamental_div_mod(pb, wb);
    assert(0 <= ra < wa && 0 <= rb < wb);
    assert(pa * wb == qa * (wa * wb) + ra * wb) by (nonlinear_arith)
        requires
            pa == wa * qa + ra,
    ;
    assert(pb * wa == qb * (wa * wb) + rb * wa) by (nonlinear_arith)
        requires
            pb == wb * qb + rb,
    ;
    assert(0 <= ra * wb < wa * wb) by (nonlinear_arith)
        requires
            0 <= ra < wa,
            wb > 0,
    ;
    assert(0 <= rb * wa < wa * wb) by (nonlinear_arith)
        requires
            0 <= rb < wb,
            wa > 0,
    ;
    let area = wa * wb;
    if qa > qb {
        assert(qa * area >= qb * area + area) by (nonlinear_arith)
            requires
                qa >= qb + 1,
                area > 0,
        ;
    } else if qa < qb {
        assert(qb * area >= qa * area + area) by (nonlinear_arith)
            requires
                qb >= qa + 1,
                area > 0,
        ;
    }
}

/// Whether `pa / wa` is greater than `pb / wb`, and whether they are equal.
pub(crate) fn compare_quotients(pa: u128, wa: u128, pb: u128, wb: u128) -> (r: (bool, bool))
    requires
        wa > 0,
        wb > 0,
    ensures
        r.0 == (pa * wb > pb * wa),
        r.1 == (pa * wb == pb * wa),
    decreases wa + wb,
{
    proof {
        lemma_quotients(pa as int, wa as int, pb as int, wb as int);
    }
    let (qa, qb): (u128, u128) = (pa / wa, pb / wb);
    if qa != qb {
        return (qa > qb, false);
    }
    let (ra, rb): (u128, u128) = (pa % wa, pb % wb);
    if ra == 0 || rb == 0 {
        assert(0 * wb == 0 && 0 * wa == 0);
        assert(ra > 0 ==> ra * wb > 0) by (nonlinear_arith)
            requires
                wb > 0,
        ;
        assert(rb > 0 ==> rb * wa > 0) by (nonlinear_arith)
            requires
                wa > 0,
        ;
        return (rb == 0 && ra > 0, ra == 0 && rb == 0);
    }
    assert(wb * ra == ra * wb && wa * rb == rb * wa) by (nonlinear_arith);
    compare_quotients(wb, rb, wa, ra)
}

/// Whether packet `a` promises more for its bytes than packet `b`.
fn outranks(packets: &Vec<EncodedPacket>, promised: &Vec<u128>, a: usize, b: usize) -> (r: bool)
    requires
        a < packets@.len(),
        b < packets@.len(),
        packets@.len() == promised@.len(),
    ensures
        r == promises_more(coded_views(packets@), numbers(promised@), a as int, b as int),
{
    let ghost all = coded_views(packets@);
    assert(all[a as int] == packets@[a as int]@ && all[b as int] == packets@[b as int]@);
    let wa: u128 = 4 + packets[a].body.len() as u128;
    let wb: u128 = 4 + packets[b].body.len() as u128;
    let (greater, equal) = compare_quotients(promised[a], wa, promised[b], wb);
    greater || (equal && a < b)
}

/// A list of places as integers.
pub open spec fn places(v: Seq<usize>) -> Seq<int> {
    Seq::new(v.len(), |i: int| v[i] as int)
}

proof fn lemma_insert_place(list: Seq<int>, x: int, packets: Seq<Coded>, promises: Seq<int>, j: int)
    requires
        0 <= j <= list.len(),
        forall|i: int|
            j <= i < list.len() ==> !promises_more(packets, promises, #[trigger] list[i], x),
        j == 0 || promises_more(packets, promises, list[j - 1], x),
    ensures
        insert_ranked(list, x, packets, promises) == list.insert(j, x),
    decreases list.len(),
{
    if j == list.len() {
        assert(list.insert(j, x) =~= list.push(x));
    } else {
        assert(!promises_more(packets, promises, list[list.len() - 1], x));
        lemma_insert_place(list.drop_last(), x, packets, promises, j);
        assert(list.insert(j, x) =~= list.drop_last().insert(j, x).push(list.last()));
    }
}

fn rank(list: &mut Vec<usize>, x: usize, packets: &Vec<EncodedPacket>, promised: &Vec<u128>)
    requires
        x < packets@.len(),
        forall|i: int| 0 <= i < old(list)@.len() ==> #[trigger] old(list)@[i] < packets@.len(),
        packets@.len() == promised@.len(),
    ensures
        places(final(list)@) == insert_ranked(
            places(old(list)@),
            x as int,
            coded_views(packets@),
            numbers(promised@),
        ),
        final(list)@.len() == old(list)@.len() + 1,
        forall|i: int| 0 <= i < final(list)@.len() ==> #[trigger] final(list)@[i] < packets@.len(),
{
    let ghost before = places(list@);
    let ghost all = coded_views(packets@);
    let ghost nums = numbers(promised@);
    let mut j: usize = list.len();
    while j > 0 && !outranks(packets, promised, list[j - 1], x)
        invariant
            j <= list@.len(),
            x < packets@.len(),
            before == places(list@),
            all == coded_views(packets@),
            nums == numbers(promised@),
            forall|i: int| 0 <= i < list@.len() ==> #[trigger] list@[i] < packets@.len(),
            packets@.len() == promised@.len(),
            forall|i: int|
                j <= i < before.len() ==> !promises_more(all, nums, #[trigger] before[i], x as int),
        decreases j,
    {
        assert(before[j - 1] == list@[j - 1]);
        j = j - 1;
    }
    proof {
        if j > 0 {
            assert(before[j - 1] == list@[j - 1]);
        }
        lemma_insert_place(before, x as int, all, nums, j as int);
    }
    let ghost old_list = list@;
    list.insert(j, x);
    proof {
        assert(places(list@) =~= before.insert(j as int, x as int));
        assert forall|i: int| 0 <= i < list@.len() implies #[trigger] list@[i] < packets@.len() by {
            if i < j {
                assert(list@[i] == old_list[i]);
            } else if i > j {
                assert(list@[i] == old_list[i - 1]);
            }
        }
    }
}

/// Choose packets for a body of at most `budget` bytes.
pub(crate) fn select_packets_by_rd(
    packets: &Vec<EncodedPacket>,
    promised: &Vec<u128>,
    q: u8,
    budget: u64,
) -> (chosen: Vec<bool>)
    requires
        q <= 31,
        packets@.len() == promised@.len(),
        forall|i: int| 0 <= i < promised@.len() ==> #[trigger] promised@[i] <= MAX_PROMISE,
    ensures
        chosen@ == best_plan(
            coded_views(packets@),
            numbers(promised@),
            budget as int,
            q as int,
        ).chosen,
        chosen@.len() == packets@.len(),
{
    let ghost all = coded_views(packets@);
    let ghost nums = numbers(promised@);
    let n: usize = packets.len();
    let none = repeated(false, n);
    assert(none@ =~= empty_plan(n as int).chosen);
    let mut best = Choice { chosen: none, bytes: 0, promise: 0 };
    let mut chain = best.copy();
    let mut list: Vec<usize> = Vec::new();
    assert(places(list@) =~= Seq::empty());
    let mut k: u8 = 0;
    while k < q
        invariant
            k <= q <= 31,
            n == packets@.len() == promised@.len(),
            all == coded_views(packets@),
            nums == numbers(promised@),
            forall|i: int| 0 <= i < promised@.len() ==> #[trigger] promised@[i] <= MAX_PROMISE,
            best.plan() == best_plan(all, nums, budget as int, k as int),
            best.chosen@.len() == n,
            chain_plan(all, nums, k as int) == Some(chain.plan()),
            chain.chosen@.len() == n,
            chain.bytes <= k * 0x1_0000_0000_0000_0003,
            chain.promise <= k * MAX_PROMISE,
            chain.bytes <= budget,
            places(list@) == ranked_refinements(all, nums, k as int),
            list@.len() <= k,
            forall|i: int| 0 <= i < list@.len() ==> #[trigger] list@[i] < n,
        decreases q - k,
    {
        match find_packet(packets.as_slice(), k, true) {
            None => {
                proof {
                    lemma_best_stops(all, nums, budget as int, k + 1, q as int);
                }
                return best.chosen;
            },
            Some(i) => {
                assert(promised@[i as int] <= MAX_PROMISE);
                assert(packets@[i as int].body.len() <= usize::MAX);
                chain.take(packets, promised, i);
            },
        }
        assert(chain_plan(all, nums, k + 1) == Some(chain.plan()));
        if chain.bytes > budget as u128 {
            proof {
                lemma_best_stops(all, nums, budget as int, k + 1, q as int);
            }
            return best.chosen;
        }
        match find_packet(packets.as_slice(), k, false) {
            None => {},
            Some(i) => {
                rank(&mut list, i, packets, promised);
            },
        }
        assert(places(list@) == ranked_refinements(all, nums, k + 1));
        let mut plan = chain.copy();
        let ghost start = plan.plan();
        let ghost order = places(list@);
        let mut j: usize = 0;
        while j < list.len()
            invariant
                j <= list@.len() <= 31,
                order == places(list@),
                n == packets@.len() == promised@.len(),
                all == coded_views(packets@),
                nums == numbers(promised@),
                forall|i: int| 0 <= i < promised@.len() ==> #[trigger] promised@[i] <= MAX_PROMISE,
                forall|i: int| 0 <= i < list@.len() ==> #[trigger] list@[i] < n,
                plan.plan() == filled_plan(start, order, all, nums, budget as int, j as int),
                plan.chosen@.len() == n,
                plan.bytes <= (31 + j) * 0x1_0000_0000_0000_0003,
                plan.promise <= (31 + j) * MAX_PROMISE,
            decreases list@.len() - j,
        {
            let i: usize = list[j];
            assert(order[j as int] == i);
            assert(promised@[i as int] <= MAX_PROMISE);
            assert(all[i as int] == packets@[i as int]@);
            let size: u128 = 4 + packets[i].body.len() as u128;
            if plan.bytes + size <= budget as u128 && promised[i] > 0 {
                plan.take(packets, promised, i);
            }
            j = j + 1;
        }
        if plan.promise > best.promise || (plan.promise == best.promise && plan.bytes
            < best.bytes) {
            best = plan;
        }
        k = k + 1;
    }
    best.chosen
}

// ---------------------------------------------------------------------------
// Plain truncation, and the comparison
// ---------------------------------------------------------------------------

/// What plain truncation keeps after `s` steps: for each packet whether it is
/// kept, the bytes used, and whether a packet did not fit. Step `2 b` is that
/// of the significance packet of bit plane `b`, and the step behind it that of
/// its refinement packet.
pub open spec fn truncated_until(packets: Seq<Coded>, budget: int, s: int) -> (Seq<bool>, int, bool)
    decreases s,
{
    if s <= 0 {
        (Seq::new(packets.len(), |i: int| false), 0, false)
    } else {
        let (kept, used, full) = truncated_until(packets, budget, s - 1);
        match index_from(packets, ((s - 1) / 2) as u8, (s - 1) % 2 == 0, 0) {
            None => (kept, used, full),
            Some(i) => if full || used + wire_size(packets, i) > budget {
                (kept, used, true)
            } else {
                (kept.update(i, true), used + wire_size(packets, i), false)
            },
        }
    }
}

proof fn lemma_truncated_full(packets: Seq<Coded>, budget: int, s: int, n: int)
    requires
        0 <= s <= n,
        truncated_until(packets, budget, s).2,
    ensures
        truncated_until(packets, budget, n) == truncated_until(packets, budget, s),
    decreases n,
{
    if n > s {
        lemma_truncated_full(packets, budget, s, n - 1);
    }
}

/// The packets that plain truncation keeps for a body of at most `budget`
/// bytes.
pub(crate) fn strict_msb_prefix_mask(packets: &Vec<EncodedPacket>, q: u8, budget: u64) -> (kept: Vec<
    bool,
>)
    requires
        q <= 31,
    ensures
        kept@ == truncated_until(coded_views(packets@), budget as int, 2 * q).0,
        kept@.len() == packets@.len(),
{
    let ghost all = coded_views(packets@);
    let mut kept = repeated(false, packets.len());
    assert(kept@ =~= truncated_until(all, budget as int, 0).0);
    let mut used: u128 = 0;
    let mut s: u8 = 0;
    while s < 2 * q
        invariant
            s <= 2 * q <= 62,
            all == coded_views(packets@),
            kept@.len() == packets@.len(),
            truncated_until(all, budget as int, s as int) == (kept@, used as int, false),
            used <= s * 0x1_0000_0000_0000_0003,
        decreases 2 * q - s,
    {
        match find_packet(packets.as_slice(), s / 2, s % 2 == 0) {
            None => {},
            Some(i) => {
                assert(all[i as int] == packets@[i as int]@);
                let size: u128 = 4 + packets[i].body.len() as u128;
                if used + size > budget as u128 {
                    proof {
                        lemma_truncated_full(all, budget as int, s + 1, 2 * q);
                    }
                    return kept;
                }
                used = used + size;
                kept.set(i, true);
            },
        }
        s = s + 1;
    }
    kept
}

/// The chosen ones of the first `k` packets.
pub open spec fn chosen_of(packets: Seq<Coded>, chosen: Seq<bool>, k: int) -> Seq<Coded>
    decreases k,
{
    if k <= 0 {
        Seq::empty()
    } else if chosen[k - 1] {
        chosen_of(packets, chosen, k - 1).push(packets[k - 1])
    } else {
        chosen_of(packets, chosen, k - 1)
    }
}

/// Sum of the squared differences of the first `k` samples.
pub open spec fn squared_error(a: Seq<i32>, b: Seq<i32>, bits: u8, k: int) -> int
    decreases k,
{
    if k <= 0 {
        0
    } else {
        let d = clamped(a[k - 1] + half_range(bits), bits) - clamped(
            b[k - 1] + half_range(bits),
            bits,
        );
        squared_error(a, b, bits, k - 1) + d * d
    }
}

/// What is coded: shape, filter, coder, bit planes and bits of a sample.
#[derive(Debug, Clone, Copy, PartialEq, Eq, Structural)]
pub struct Coding2d {
    /// Columns.
    pub width: usize,
    /// Rows.
    pub height: usize,
    /// Decomposition levels.
    pub levels: u8,
    /// Wavelet filter.
    pub filter: WaveletFilter,
    /// Entropy coder.
    pub kind: EntropyKind,
    /// Bit planes.
    pub q: u8,
    /// Bits of a sample.
    pub bits: u8,
}

impl Coding2d {
    /// Shape of the coefficients.
    pub open spec fn grid(self) -> Grid {
        Grid { width: self.width, height: self.height, levels: self.levels }
    }

    /// The samples, less the middle of their range, that packets decode to.
    pub open spec fn decoded(self, packets: Seq<Coded>) -> Seq<i32> {
        inverse_levels(
            weights_of(self.filter),
            self.width,
            self.height,
            bitplanes_decoded(self.grid(), everything(), self.kind, self.q, packets),
            self.levels as int,
        )
    }

    /// Squared error of the image that the chosen packets decode to.
    pub open spec fn error_of(self, samples: Seq<i32>, packets: Seq<Coded>, chosen: Seq<bool>) -> int {
        squared_error(
            samples,
            self.decoded(chosen_of(packets, chosen, packets.len() as int)),
            self.bits,
            samples.len() as int,
        )
    }

    /// The plan that decodes to the smaller error; the first where both are
    /// equal.
    pub open spec fn better_of(
        self,
        samples: Seq<i32>,
        packets: Seq<Coded>,
        greedy: Seq<bool>,
        strict: Seq<bool>,
    ) -> Seq<bool> {
        if self.error_of(samples, packets, strict) < self.error_of(samples, packets, greedy) {
            strict
        } else {
            greedy
        }
    }
}

/// **The plan that is taken never decodes worse than either candidate.**
pub proof fn choice_is_never_worse(
    c: Coding2d,
    samples: Seq<i32>,
    packets: Seq<Coded>,
    greedy: Seq<bool>,
    strict: Seq<bool>,
)
    ensures
        ({
            let taken = c.better_of(samples, packets, greedy, strict);
            &&& c.error_of(samples, packets, taken) <= c.error_of(samples, packets, strict)
            &&& c.error_of(samples, packets, taken) <= c.error_of(samples, packets, greedy)
        }),
{
}

fn keep_chosen(packets: &Vec<EncodedPacket>, chosen: &Vec<bool>) -> (out: Vec<EncodedPacket>)
    requires
        packets@.len() == chosen@.len(),
    ensures
        coded_views(out@) == chosen_of(coded_views(packets@), chosen@, packets@.len() as int),
{
    let ghost all = coded_views(packets@);
    let mut out: Vec<EncodedPacket> = Vec::new();
    assert(coded_views(out@) =~= Seq::empty());
    let mut k: usize = 0;
    while k < packets.len()
        invariant
            k <= packets@.len() == chosen@.len(),
            all == coded_views(packets@),
            coded_views(out@) == chosen_of(all, chosen@, k as int),
        decreases packets@.len() - k,
    {
        if chosen[k] {
            let p = &packets[k];
            let body = copy_bytes(p.body.as_slice());
            let ghost before = out@;
            out.push(
                EncodedPacket { bit_plane: p.bit_plane, is_significance: p.is_significance, body },
            );
            assert(all[k as int] == p@);
            assert(coded_views(out@) =~= coded_views(before).push(p@));
        }
        k = k + 1;
    }
    out
}

fn sum_squares(a: &Vec<i32>, b: &Vec<i32>, bits: u8) -> (sum: u128)
    requires
        a@.len() == b@.len(),
        depth_in_range(bits),
    ensures
        sum == squared_error(a@, b@, bits, a@.len() as int),
{
    let half: i64 = half_value(bits);
    let mut sum: u128 = 0;
    let mut i: usize = 0;
    while i < a.len()
        invariant
            i <= a@.len() == b@.len(),
            depth_in_range(bits),
            half == half_range(bits),
            128 <= half <= 32768,
            sum == squared_error(a@, b@, bits, i as int),
            sum <= i * 0x1_0000_0000,
        decreases a@.len() - i,
    {
        let x: i64 = clamp_sample(a[i] as i64 + half, 2 * half - 1);
        let y: i64 = clamp_sample(b[i] as i64 + half, 2 * half - 1);
        let d: i64 = x - y;
        assert(0 <= d * d <= 0x1_0000_0000) by (nonlinear_arith)
            requires
                -0xFFFF <= d <= 0xFFFF,
        ;
        sum = sum + (d * d) as u128;
        i = i + 1;
    }
    sum
}

fn clamp_sample(v: i64, top: i64) -> (c: i64)
    requires
        top >= 0,
    ensures
        c == (if v < 0 {
            0
        } else if v > top {
            top as int
        } else {
            v as int
        }),
{
    if v < 0 {
        0
    } else if v > top {
        top
    } else {
        v
    }
}

fn measure_error(c: &Coding2d, samples: &Vec<i32>, packets: &Vec<EncodedPacket>, chosen: &Vec<bool>) -> (r: u128)
    requires
        c.grid().ok(),
        1 <= c.q <= 31,
        c.levels <= 31,
        depth_in_range(c.bits),
        samples@.len() == c.width * c.height,
        packets@.len() == chosen@.len(),
    ensures
        r == c.error_of(samples@, coded_views(packets@), chosen@),
{
    let kept = keep_chosen(packets, chosen);
    let filter = ScanFilter::all();
    let decoded = decode_bitplanes_filtered(
        kept.as_slice(),
        c.width,
        c.height,
        c.q,
        c.levels,
        c.kind,
        &filter,
    );
    match decoded {
        Ok(mut coeffs) => {
            inverse_2d_dyadic(&mut coeffs, c.width, c.height, c.levels, c.filter);
            sum_squares(samples, &coeffs, c.bits)
        },
        Err(_) => {
            assert(filter@.fits(c.grid().area()));
            0
        },
    }
}

/// The plan that decodes to the smaller error.
pub(crate) fn pick_lower_distortion_mask(
    c: &Coding2d,
    samples: &Vec<i32>,
    packets: &Vec<EncodedPacket>,
    greedy: Vec<bool>,
    strict: Vec<bool>,
) -> (taken: Vec<bool>)
    requires
        c.grid().ok(),
        1 <= c.q <= 31,
        c.levels <= 31,
        depth_in_range(c.bits),
        samples@.len() == c.width * c.height,
        packets@.len() == greedy@.len() == strict@.len(),
    ensures
        taken@ == c.better_of(samples@, coded_views(packets@), greedy@, strict@),
        taken@.len() == packets@.len(),
{
    let g: u128 = measure_error(c, samples, packets, &greedy);
    let s: u128 = measure_error(c, samples, packets, &strict);
    if s < g {
        strict
    } else {
        greedy
    }
}

} // verus!
