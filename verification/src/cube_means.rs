//! Means of the spatial averages of a transformed cube.
//!
//! The averages of a spatial plane are coded as differences from their mean,
//! band by band and window by window.

use crate::bitplane3d::{CubeGeometry, Layout};
use crate::priority::two_to;
use vstd::prelude::*;
use vstd::arithmetic::power2::pow2;

verus! {

/// Coefficient `i` is a spatial average inside the window.
pub open spec fn is_average(lay: Layout, i: int) -> bool {
    let pos = i % lay.volume.area();
    let step = pow2(lay.ts as nat) as int;
    &&& lay.covers(i)
    &&& (pos % lay.volume.width as int) % step == 0
    &&& (pos / lay.volume.width as int) % step == 0
}

/// Number of averages among the first `n` places of plane `l`.
pub open spec fn average_count(lay: Layout, l: int, n: int) -> int
    decreases n,
{
    if n <= 0 {
        0
    } else {
        average_count(lay, l, n - 1) + (if is_average(lay, l * lay.volume.area() + n - 1) {
            1int
        } else {
            0
        })
    }
}

/// Sum of the averages among the first `n` places of plane `l`.
pub open spec fn average_sum(lay: Layout, coeffs: Seq<i32>, l: int, n: int) -> int
    decreases n,
{
    if n <= 0 {
        0
    } else {
        average_sum(lay, coeffs, l, n - 1) + (if is_average(lay, l * lay.volume.area() + n - 1) {
            coeffs[l * lay.volume.area() + n - 1] as int
        } else {
            0
        })
    }
}

/// The integer next to `sum / count`; the greater one where two are equally
/// near.
pub open spec fn nearest(sum: int, count: int) -> int {
    (2 * sum + count) / (2 * count)
}

/// The mean of the averages of plane `l`; 0 where there are none.
pub open spec fn mean_of(lay: Layout, coeffs: Seq<i32>, l: int) -> i32 {
    let n = lay.volume.area();
    if average_count(lay, l, n) == 0 {
        0
    } else {
        nearest(average_sum(lay, coeffs, l, n), average_count(lay, l, n)) as i32
    }
}

/// The means of all planes.
pub open spec fn means_of(lay: Layout, coeffs: Seq<i32>) -> Seq<i32> {
    Seq::new(lay.volume.bands as nat, |l: int| mean_of(lay, coeffs, l))
}

/// Averages less the means of their planes.
pub open spec fn means_subtracted(lay: Layout, coeffs: Seq<i32>) -> Seq<i32> {
    Seq::new(
        coeffs.len(),
        |i: int|
            if is_average(lay, i) {
                (coeffs[i] - mean_of(lay, coeffs, i / lay.volume.area())) as i32
            } else {
                coeffs[i]
            },
    )
}

/// A sum, kept within the range of `i32`.
pub open spec fn saturated(v: int) -> int {
    if v > i32::MAX {
        i32::MAX as int
    } else if v < i32::MIN {
        i32::MIN as int
    } else {
        v
    }
}

/// Averages plus the means of their planes.
pub open spec fn means_added(lay: Layout, coeffs: Seq<i32>, means: Seq<i32>) -> Seq<i32> {
    Seq::new(
        coeffs.len(),
        |i: int|
            if is_average(lay, i) {
                saturated(coeffs[i] + means[i / lay.volume.area()]) as i32
            } else {
                coeffs[i]
            },
    )
}

/// The integer next to `sum / count`.
fn rounded_mean(sum: i128, count: i128) -> (m: i32)
    requires
        1 <= count <= 0x1_0000_0000_0000_0000,
        -(0x8000_0000 * count) <= sum <= 0x8000_0000 * count,
    ensures
        m == nearest(sum as int, count as int) as i32,
{
    let a: i128 = 2 * sum + count;
    let b: i128 = 2 * count;
    let q: i128 = if a >= 0 {
        a / b
    } else {
        let up: i128 = (-a + (b - 1)) / b;
        proof {
            let (x, y) = (a as int, b as int);
            let u = (-x + (y - 1)) / y;
            assert(x / y == -u) by (nonlinear_arith)
                requires
                    y >= 1,
                    u == (-x + (y - 1)) / y,
            ;
        }
        -up
    };
    q as i32
}

impl CubeGeometry {
    /// Whether coefficient `i` is a spatial average inside the window.
    fn averages(&self, i: usize, step: usize) -> (b: bool)
        requires
            self.wf(),
            i < self.layout().volume.count(),
            step == pow2(self.ts as nat),
            step >= 1,
        ensures
            b == is_average(self.layout(), i as int),
    {
        proof {
            self.layout().volume.lemma_area();
        }
        let area: usize = self.width * self.height;
        let pos: usize = i % area;
        let x: usize = pos % self.width;
        let y: usize = pos / self.width;
        self.codes(i) && x % step == 0 && y % step == 0
    }
}

/// The mean of the averages of plane `l`.
fn plane_mean(coeffs: &Vec<i32>, geom: &CubeGeometry, l: usize) -> (m: i32)
    requires
        geom.wf(),
        coeffs@.len() == geom.layout().volume.count(),
        l < geom.bands,
    ensures
        m == mean_of(geom.layout(), coeffs@, l as int),
{
    let ghost lay = geom.layout();
    let ghost v = lay.volume;
    proof {
        v.lemma_area();
        assert(0 <= l * v.area() && l * v.area() + v.area() <= v.count()) by (nonlinear_arith)
            requires
                0 <= l <= v.bands - 1,
                v.count() == v.area() * v.bands,
                v.area() >= 0,
        ;
    }
    let area: usize = geom.width * geom.height;
    let step: usize = two_to(geom.ts);
    let base: usize = l * area;
    let mut sum: i128 = 0;
    let mut count: i128 = 0;
    let mut n: usize = 0;
    while n < area
        invariant
            n <= area,
            geom.wf(),
            lay == geom.layout(),
            v == lay.volume,
            area == v.area(),
            l < v.bands,
            base == l * v.area(),
            coeffs@.len() == v.count(),
            step == pow2(lay.ts as nat),
            step >= 1,
            0 <= count <= n,
            -(0x8000_0000 * count) <= sum <= 0x8000_0000 * count,
            count == average_count(lay, l as int, n as int),
            sum == average_sum(lay, coeffs@, l as int, n as int),
        decreases area - n,
    {
        proof {
            v.lemma_sample(n as int, l as int);
        }
        if geom.averages(base + n, step) {
            sum = sum + coeffs[base + n] as i128;
            count = count + 1;
        }
        n = n + 1;
    }
    if count == 0 {
        0
    } else {
        rounded_mean(sum, count)
    }
}

/// Subtract the means of the averages inside the window, and return them.
pub(crate) fn subtract_plane_means(coeffs: &mut Vec<i32>, geom: &CubeGeometry) -> (means: Vec<i32>)
    requires
        geom.wf(),
        old(coeffs)@.len() == geom.layout().volume.count(),
    ensures
        means@ == means_of(geom.layout(), old(coeffs)@),
        final(coeffs)@ == means_subtracted(geom.layout(), old(coeffs)@),
        final(coeffs)@.len() == old(coeffs)@.len(),
{
    let ghost lay = geom.layout();
    let ghost v = lay.volume;
    let ghost start = coeffs@;
    let mut means: Vec<i32> = Vec::new();
    let mut l: usize = 0;
    while l < geom.bands
        invariant
            l <= geom.bands,
            geom.wf(),
            lay == geom.layout(),
            coeffs@ == start,
            coeffs@.len() == lay.volume.count(),
            means@.len() == l,
            forall|j: int| 0 <= j < l ==> #[trigger] means@[j] == mean_of(lay, start, j),
        decreases geom.bands - l,
    {
        let m: i32 = plane_mean(coeffs, geom, l);
        means.push(m);
        l = l + 1;
    }
    assert(means@ =~= means_of(lay, start));
    proof {
        v.lemma_area();
    }
    let area: usize = geom.width * geom.height;
    let step: usize = two_to(geom.ts);
    let ghost goal = means_subtracted(lay, start);
    let mut i: usize = 0;
    while i < coeffs.len()
        invariant
            i <= coeffs@.len(),
            geom.wf(),
            lay == geom.layout(),
            v == lay.volume,
            area == v.area(),
            coeffs@.len() > 0 ==> area >= 1,
            step == pow2(lay.ts as nat),
            step >= 1,
            coeffs@.len() == v.count() == start.len(),
            means@ == means_of(lay, start),
            goal == means_subtracted(lay, start),
            forall|j: int|
                0 <= j < coeffs@.len() ==> #[trigger] coeffs@[j] == (if j < i {
                    goal[j]
                } else {
                    start[j]
                }),
        decreases coeffs@.len() - i,
    {
        if geom.averages(i, step) {
            proof {
                v.lemma_split(i as int);
            }
            let m: i32 = means[i / area];
            let c: i32 = (coeffs[i] as i64 - m as i64) as i32;
            coeffs.set(i, c);
        }
        i = i + 1;
    }
    assert(coeffs@ =~= goal);
    means
}

/// Add the means back to the averages inside the window.
pub(crate) fn add_plane_means(coeffs: &mut Vec<i32>, geom: &CubeGeometry, means: &Vec<i32>)
    requires
        geom.wf(),
        old(coeffs)@.len() == geom.layout().volume.count(),
        means@.len() == geom.bands,
    ensures
        final(coeffs)@ == means_added(geom.layout(), old(coeffs)@, means@),
        final(coeffs)@.len() == old(coeffs)@.len(),
{
    let ghost lay = geom.layout();
    let ghost v = lay.volume;
    let ghost start = coeffs@;
    proof {
        v.lemma_area();
    }
    let area: usize = geom.width * geom.height;
    let step: usize = two_to(geom.ts);
    let ghost goal = means_added(lay, start, means@);
    let mut i: usize = 0;
    while i < coeffs.len()
        invariant
            i <= coeffs@.len(),
            geom.wf(),
            lay == geom.layout(),
            v == lay.volume,
            area == v.area(),
            coeffs@.len() > 0 ==> area >= 1,
            step == pow2(lay.ts as nat),
            step >= 1,
            coeffs@.len() == v.count() == start.len(),
            means@.len() == v.bands,
            goal == means_added(lay, start, means@),
            forall|j: int|
                0 <= j < coeffs@.len() ==> #[trigger] coeffs@[j] == (if j < i {
                    goal[j]
                } else {
                    start[j]
                }),
        decreases coeffs@.len() - i,
    {
        if geom.averages(i, step) {
            proof {
                v.lemma_split(i as int);
            }
            let sum: i64 = coeffs[i] as i64 + means[i / area] as i64;
            let c: i32 = if sum > 0x7FFF_FFFF {
                0x7FFF_FFFF
            } else if sum < -0x8000_0000 {
                -0x8000_0000
            } else {
                sum as i32
            };
            coeffs.set(i, c);
        }
        i = i + 1;
    }
    assert(coeffs@ =~= goal);
}

proof fn lemma_sum_bounded(lay: Layout, coeffs: Seq<i32>, l: int, n: int, b: int)
    requires
        lay.ok(),
        coeffs.len() == lay.volume.count(),
        0 <= l < lay.volume.bands,
        0 <= n <= lay.volume.area(),
        b >= 0,
        crate::wavelet_int::bounded(coeffs, b),
    ensures
        0 <= average_count(lay, l, n) <= n,
        -(b * average_count(lay, l, n)) <= average_sum(lay, coeffs, l, n) <= b * average_count(
            lay,
            l,
            n,
        ),
    decreases n,
{
    if n > 0 {
        lemma_sum_bounded(lay, coeffs, l, n - 1, b);
        lay.volume.lemma_sample(n - 1, l);
        let c = average_count(lay, l, n - 1);
        assert(b * (c + 1) == b * c + b) by (nonlinear_arith);
    }
}

/// The mean of bounded coefficients is bounded.
pub proof fn lemma_mean_bounded(lay: Layout, coeffs: Seq<i32>, l: int, b: int)
    requires
        lay.ok(),
        coeffs.len() == lay.volume.count(),
        0 <= l < lay.volume.bands,
        0 <= b <= 0x3FFF_FFFF,
        crate::wavelet_int::bounded(coeffs, b),
    ensures
        -b <= mean_of(lay, coeffs, l) <= b,
{
    let n = lay.volume.area();
    lay.volume.lemma_area();
    lemma_sum_bounded(lay, coeffs, l, n, b);
    let c = average_count(lay, l, n);
    let s = average_sum(lay, coeffs, l, n);
    if c > 0 {
        assert(-b <= (2 * s + c) / (2 * c) <= b) by (nonlinear_arith)
            requires
                c > 0,
                -(b * c) <= s <= b * c,
        ;
    }
}

/// **Adding the means back undoes subtracting them**, and the differences stay
/// small.
pub proof fn means_are_reversible(lay: Layout, coeffs: Seq<i32>, b: int)
    requires
        lay.ok(),
        coeffs.len() == lay.volume.count(),
        0 <= b <= 0x3FFF_FFFF,
        crate::wavelet_int::bounded(coeffs, b),
    ensures
        means_added(lay, means_subtracted(lay, coeffs), means_of(lay, coeffs)) == coeffs,
        crate::wavelet_int::bounded(means_subtracted(lay, coeffs), 2 * b),
{
    let less = means_subtracted(lay, coeffs);
    let again = means_added(lay, less, means_of(lay, coeffs));
    assert forall|i: int| 0 <= i < coeffs.len() implies again[i] == coeffs[i] && -2 * b
        <= #[trigger] less[i] <= 2 * b by {
        lay.volume.lemma_split(i);
        lemma_mean_bounded(lay, coeffs, i / lay.volume.area(), b);
        assert(-b <= coeffs[i] <= b);
    }
    assert forall|i: int| 0 <= i < coeffs.len() implies again[i] == coeffs[i] by {
        assert(-2 * b <= less[i]);
    }
    assert(again =~= coeffs);
}

} // verus!
