//! Reversible integer wavelet transform.
//!
//! A line of `n` samples is turned into `(n + 1) / 2` averages of neighbours
//! and `n / 2` differences from which a prediction has been subtracted. The
//! averages stand at the even places of the line and the differences at the
//! odd ones. A level of the transform of an image does this to every row and
//! then to every column of the places that hold averages of the level above.
//! The filters differ in how they predict.

use crate::header::WaveletFilter;
use crate::partition::div_up;
use crate::priority::{lemma_index, two_to};
use vstd::prelude::*;
use vstd::arithmetic::div_mod::{lemma_fundamental_div_mod, lemma_fundamental_div_mod_converse};
use vstd::arithmetic::power2::{lemma_pow2_pos, pow2};

verus! {

// ---------------------------------------------------------------------------
// Prediction
// ---------------------------------------------------------------------------

/// The weights of a filter, in sixteenths: of the difference of averages
/// before the last, of the last, of the next, and of the next detail.
pub struct FilterWeights {
    /// Weight of the difference of averages before the last one.
    pub far: i64,
    /// Weight of the last difference of averages.
    pub near: i64,
    /// Weight of the next difference of averages.
    pub next: i64,
    /// Weight of the next detail.
    pub detail: i64,
}

/// The filter has an integer transform.
pub open spec fn is_integer(filter: WaveletFilter) -> bool {
    !(filter is FilterG)
}

/// The weights of a filter.
pub open spec fn weights_of(filter: WaveletFilter) -> FilterWeights {
    match filter {
        WaveletFilter::Reversible53 => FilterWeights { far: 0, near: 4, next: 4, detail: 4 },
        WaveletFilter::NineSevenA => FilterWeights { far: 0, near: 4, next: 4, detail: 0 },
        WaveletFilter::FilterB => FilterWeights { far: 0, near: 4, next: 6, detail: 4 },
        WaveletFilter::FilterC => FilterWeights { far: (-1) as i64, near: 4, next: 8, detail: 6 },
        WaveletFilter::FilterD => FilterWeights { far: 0, near: 4, next: 5, detail: 2 },
        WaveletFilter::FilterE => FilterWeights { far: 0, near: 3, next: 8, detail: 6 },
        WaveletFilter::FilterF => FilterWeights { far: 0, near: 3, next: 9, detail: 8 },
        WaveletFilter::FilterG => FilterWeights { far: 0, near: 0, next: 0, detail: 0 },
    }
}

fn filter_weights(filter: WaveletFilter) -> (w: FilterWeights)
    ensures
        w == weights_of(filter),
{
    match filter {
        WaveletFilter::Reversible53 => FilterWeights { far: 0, near: 4, next: 4, detail: 4 },
        WaveletFilter::NineSevenA => FilterWeights { far: 0, near: 4, next: 4, detail: 0 },
        WaveletFilter::FilterB => FilterWeights { far: 0, near: 4, next: 6, detail: 4 },
        WaveletFilter::FilterC => FilterWeights { far: -1, near: 4, next: 8, detail: 6 },
        WaveletFilter::FilterD => FilterWeights { far: 0, near: 4, next: 5, detail: 2 },
        WaveletFilter::FilterE => FilterWeights { far: 0, near: 3, next: 8, detail: 6 },
        WaveletFilter::FilterF => FilterWeights { far: 0, near: 3, next: 9, detail: 8 },
        WaveletFilter::FilterG => FilterWeights { far: 0, near: 0, next: 0, detail: 0 },
    }
}

/// Whether the filter has an integer transform.
pub fn has_integer_transform(filter: WaveletFilter) -> (b: bool)
    ensures
        b == is_integer(filter),
{
    match filter {
        WaveletFilter::FilterG => false,
        _ => true,
    }
}

/// Average `k - 1` less average `k` of a line that holds averages at its even
/// places.
pub open spec fn slope(line: Seq<i32>, k: int) -> int {
    line[2 * (k - 1)] - line[2 * k]
}

/// The prediction of detail `k` from the averages at the even places of
/// `line`, where the next detail is `next`.
pub open spec fn predicted(w: FilterWeights, line: Seq<i32>, k: int, next: int) -> int {
    let n = line.len();
    if n <= 2 {
        0
    } else if k == 0 {
        slope(line, 1) / 4
    } else if 2 * k + 2 == n {
        slope(line, k) / 4
    } else if k == 1 && w.far != 0 {
        (4 * slope(line, 1) + 6 * slope(line, 2) - 4 * next + 8) / 16
    } else {
        ((if w.far != 0 {
            w.far * slope(line, k - 1)
        } else {
            0
        }) + w.near * slope(line, k) + w.next * slope(line, k + 1) - w.detail * next + 8) / 16
    }
}

/// Largest detail that a line of `i32` can hold before it is stored.
pub const DETAIL_LIMIT: i64 = 0x10_0000_0000;

fn slope_at(line: &Vec<i32>, k: usize) -> (s: i64)
    requires
        k >= 1,
        2 * k < line@.len(),
    ensures
        s == slope(line@, k as int),
        -0x1_0000_0000 < s < 0x1_0000_0000,
{
    assert(2 * k < line.len());
    line[2 * (k - 1)] as i64 - line[2 * k] as i64
}

fn floor_div(a: i64, b: i64) -> (q: i64)
    requires
        b == 2 || b == 4 || b == 16,
    ensures
        q == a as int / b as int,
{
    let t: i64 = a / b;
    let r: i64 = a % b;
    if r < 0 {
        t - 1
    } else {
        t
    }
}

fn predict(w: &FilterWeights, line: &Vec<i32>, k: usize, next: i64, Ghost(filter): Ghost<WaveletFilter>) -> (p:
    i64)
    requires
        *w == weights_of(filter),
        2 * k + 1 < line@.len(),
        -DETAIL_LIMIT <= next <= DETAIL_LIMIT,
    ensures
        p == predicted(*w, line@, k as int, next as int),
        -(DETAIL_LIMIT - 0x8000_0000) <= p <= DETAIL_LIMIT - 0x8000_0000,
{
    let n: usize = line.len();
    if n <= 2 {
        0
    } else if k == 0 {
        floor_div(slope_at(line, 1), 4)
    } else if 2 * k + 2 == n {
        floor_div(slope_at(line, k), 4)
    } else if k == 1 && w.far != 0 {
        floor_div(4 * slope_at(line, 1) + 6 * slope_at(line, 2) - 4 * next + 8, 16)
    } else {
        let far: i64 = if w.far != 0 {
            -slope_at(line, k - 1)
        } else {
            0
        };
        let near: i64 = slope_at(line, k);
        let ahead: i64 = slope_at(line, k + 1);
        proof {
            assert(w.far != 0 ==> w.far * slope(line@, k - 1) == far) by {
                if w.far != 0 {
                    let f = w.far as int;
                    let v = slope(line@, k - 1);
                    assert(f == -1);
                    assert(f * v == -v) by (nonlinear_arith)
                        requires
                            f == -1,
                    ;
                }
            }
            lemma_weighted(w.near as int, near as int, 4, 0x1_0000_0000);
            lemma_weighted(w.next as int, ahead as int, 9, 0x1_0000_0000);
            lemma_weighted(w.detail as int, next as int, 8, DETAIL_LIMIT as int);
        }
        floor_div(far + w.near * near + w.next * ahead - w.detail * next + 8, 16)
    }
}

proof fn lemma_weighted(w: int, v: int, top: int, limit: int)
    requires
        0 <= w <= top,
        -limit <= v <= limit,
        limit >= 0,
    ensures
        -(top * limit) <= w * v <= top * limit,
{
    assert(-(top * limit) <= w * v <= top * limit) by (nonlinear_arith)
        requires
            0 <= w <= top,
            -limit <= v <= limit,
            limit >= 0,
    ;
}

// ---------------------------------------------------------------------------
// Lines
// ---------------------------------------------------------------------------

/// Average `k` of a line of samples.
pub open spec fn average(x: Seq<i32>, k: int) -> int {
    if 2 * k + 1 < x.len() {
        (x[2 * k] + x[2 * k + 1]) / 2
    } else {
        x[2 * k] as int
    }
}

/// Detail `k` of a line of samples: the difference of two neighbours. Past
/// the end it is 0.
pub open spec fn detail(x: Seq<i32>, k: int) -> int {
    if 2 * k + 1 < x.len() {
        x[2 * k] - x[2 * k + 1]
    } else {
        0
    }
}

/// The averages of a line at its even places, and what they replace at the
/// others.
pub open spec fn averaged(x: Seq<i32>) -> Seq<i32> {
    Seq::new(
        x.len(),
        |i: int|
            if i % 2 == 0 {
                average(x, i / 2) as i32
            } else {
                x[i]
            },
    )
}

/// The transform of a line.
pub open spec fn line_forward(w: FilterWeights, x: Seq<i32>) -> Seq<i32> {
    Seq::new(
        x.len(),
        |i: int|
            if i % 2 == 0 {
                average(x, i / 2) as i32
            } else {
                (detail(x, i / 2) - predicted(w, averaged(x), i / 2, detail(x, i / 2 + 1))) as i32
            },
    )
}

/// The detail that place `2 * k + 1` of a transformed line stands for.
pub open spec fn recovered(w: FilterWeights, y: Seq<i32>, k: int) -> int
    decreases y.len() - k,
{
    if k < 0 || 2 * k + 1 >= y.len() {
        0
    } else {
        y[2 * k + 1] + predicted(w, y, k, recovered(w, y, k + 1))
    }
}

/// The samples of a transformed line.
pub open spec fn line_inverse(w: FilterWeights, y: Seq<i32>) -> Seq<i32> {
    Seq::new(
        y.len(),
        |i: int|
            {
                let k = i / 2;
                let first = if 2 * k + 1 < y.len() {
                    y[2 * k] + (recovered(w, y, k) + 1) / 2
                } else {
                    y[2 * k] as int
                };
                if i % 2 == 0 {
                    first as i32
                } else {
                    (first - recovered(w, y, k)) as i32
                }
            },
    )
}

/// Transform a line.
fn forward_line(w: &FilterWeights, x: &Vec<i32>, Ghost(filter): Ghost<WaveletFilter>) -> (y: Vec<i32>)
    requires
        *w == weights_of(filter),
    ensures
        y@ == line_forward(*w, x@),
{
    let n: usize = x.len();
    let mut base: Vec<i32> = Vec::new();
    let mut i: usize = 0;
    while i < n
        invariant
            i <= n,
            n == x@.len(),
            base@.len() == i,
            forall|j: int| 0 <= j < i ==> #[trigger] base@[j] == averaged(x@)[j],
        decreases n - i,
    {
        let v: i32 = if i % 2 == 0 {
            if i + 1 < n {
                floor_div(x[i] as i64 + x[i + 1] as i64, 2) as i32
            } else {
                x[i]
            }
        } else {
            x[i]
        };
        assert(v == averaged(x@)[i as int]) by {
            if i % 2 == 0 {
                assert(2 * (i as int / 2) == i);
            }
        }
        base.push(v);
        i = i + 1;
    }
    assert(base@ =~= averaged(x@));
    let mut y: Vec<i32> = Vec::new();
    let mut i: usize = 0;
    while i < n
        invariant
            i <= n,
            n == x@.len(),
            *w == weights_of(filter),
            base@ == averaged(x@),
            y@.len() == i,
            forall|j: int| 0 <= j < i ==> #[trigger] y@[j] == line_forward(*w, x@)[j],
        decreases n - i,
    {
        let v: i32 = if i % 2 == 0 {
            base[i]
        } else {
            let next: i64 = if i + 2 < n {
                x[i + 1] as i64 - x[i + 2] as i64
            } else {
                0
            };
            assert(2 * (i as int / 2) + 1 == i);
            assert(next == detail(x@, i as int / 2 + 1)) by {
                assert(2 * (i as int / 2 + 1) + 1 == i + 2);
            }
            let p: i64 = predict(w, &base, i / 2, next, Ghost(filter));
            (x[i - 1] as i64 - x[i] as i64 - p) as i32
        };
        assert(v == line_forward(*w, x@)[i as int]);
        y.push(v);
        i = i + 1;
    }
    assert(y@ =~= line_forward(*w, x@));
    y
}

/// Undo the transform of a line.
fn inverse_line(w: &FilterWeights, y: &Vec<i32>, Ghost(filter): Ghost<WaveletFilter>) -> (x: Vec<i32>)
    requires
        *w == weights_of(filter),
    ensures
        x@ == line_inverse(*w, y@),
{
    let n: usize = y.len();
    let details: usize = n / 2;
    let mut d: Vec<i64> = Vec::new();
    // details from the last to the first
    let mut next: i64 = 0;
    let mut done: usize = 0;
    while done < details
        invariant
            done <= details,
            n == y@.len(),
            details == n / 2,
            *w == weights_of(filter),
            next == recovered(*w, y@, details - done),
            -DETAIL_LIMIT <= next <= DETAIL_LIMIT,
            d@.len() == done,
            forall|j: int|
                0 <= j < done ==> #[trigger] d@[j] == recovered(*w, y@, details - 1 - j),
            forall|j: int|
                0 <= j < done ==> -DETAIL_LIMIT <= #[trigger] d@[j] <= DETAIL_LIMIT,
        decreases details - done,
    {
        let k: usize = details - 1 - done;
        let p: i64 = predict(w, y, k, next, Ghost(filter));
        next = y[2 * k + 1] as i64 + p;
        d.push(next);
        done = done + 1;
    }
    let mut x: Vec<i32> = Vec::new();
    let mut i: usize = 0;
    while i < n
        invariant
            i <= n,
            n == y@.len(),
            details == n / 2,
            d@.len() == details,
            forall|j: int|
                0 <= j < details ==> #[trigger] d@[j] == recovered(*w, y@, details - 1 - j),
            forall|j: int|
                0 <= j < details ==> -DETAIL_LIMIT <= #[trigger] d@[j] <= DETAIL_LIMIT,
            x@.len() == i,
            forall|j: int| 0 <= j < i ==> #[trigger] x@[j] == line_inverse(*w, y@)[j],
        decreases n - i,
    {
        let k: usize = i / 2;
        let v: i32 = if 2 * k + 1 < n {
            let dk: i64 = d[details - 1 - k];
            let first: i64 = y[2 * k] as i64 + floor_div(dk + 1, 2);
            if i % 2 == 0 {
                first as i32
            } else {
                (first - dk) as i32
            }
        } else {
            y[i]
        };
        assert(v == line_inverse(*w, y@)[i as int]);
        x.push(v);
        i = i + 1;
    }
    assert(x@ =~= line_inverse(*w, y@));
    x
}

/// Every value lies between `-b` and `b`.
pub open spec fn bounded(x: Seq<i32>, b: int) -> bool {
    forall|i: int| 0 <= i < x.len() ==> -b <= #[trigger] x[i] <= b
}

/// The bound of a transformed line.
pub open spec fn grown(b: int) -> int {
    5 * b + 2
}

proof fn lemma_prediction_bound(w: FilterWeights, filter: WaveletFilter, line: Seq<i32>, k: int, next: int, b: int)
    requires
        w == weights_of(filter),
        0 <= k,
        2 * k + 1 < line.len(),
        b >= 0,
        forall|j: int| 0 <= j < line.len() && j % 2 == 0 ==> -b <= #[trigger] line[j] <= b,
        -2 * b <= next <= 2 * b,
    ensures
        -(3 * b + 1) <= predicted(w, line, k, next) <= 3 * b + 1,
{
    let n = line.len();
    assert forall|j: int| 1 <= j && 2 * j < n implies -2 * b <= #[trigger] slope(line, j) <= 2 * b by {
        assert(-b <= line[2 * (j - 1)] <= b);
        assert(-b <= line[2 * j] <= b);
    }
    if n <= 2 {
    } else if k == 0 {
        assert(-2 * b <= slope(line, 1) <= 2 * b);
    } else if 2 * k + 2 == n {
        assert(-2 * b <= slope(line, k) <= 2 * b);
    } else if k == 1 && w.far != 0 {
        assert(-2 * b <= slope(line, 1) <= 2 * b);
        assert(-2 * b <= slope(line, 2) <= 2 * b);
    } else {
        assert(-2 * b <= slope(line, k) <= 2 * b);
        assert(-2 * b <= slope(line, k + 1) <= 2 * b);
        if w.far != 0 {
            assert(-2 * b <= slope(line, k - 1) <= 2 * b);
            assert(w.far == -1);
            assert((-1) * slope(line, k - 1) == -slope(line, k - 1));
        }
        lemma_weighted(w.near as int, slope(line, k), w.near as int, 2 * b);
        lemma_weighted(w.next as int, slope(line, k + 1), w.next as int, 2 * b);
        lemma_weighted(w.detail as int, next, w.detail as int, 2 * b);
        assert(w.near * (2 * b) == 2 * (w.near * b) && w.next * (2 * b) == 2 * (w.next * b)
            && w.detail * (2 * b) == 2 * (w.detail * b)) by (nonlinear_arith);
        assert(w.near * b + w.next * b + w.detail * b <= 20 * b) by (nonlinear_arith)
            requires
                w.near + w.next + w.detail <= 20,
                b >= 0,
        ;
    }
}

/// The transform of a bounded line is bounded.
pub proof fn lemma_line_bound(filter: WaveletFilter, x: Seq<i32>, b: int)
    requires
        b >= 0,
        grown(b) <= i32::MAX,
        bounded(x, b),
    ensures
        bounded(line_forward(weights_of(filter), x), grown(b)),
        forall|i: int|
            0 <= i < x.len() && i % 2 == 0 ==> -b <= #[trigger] line_forward(
                weights_of(filter),
                x,
            )[i] <= b,
        forall|i: int|
            0 <= i < x.len() ==> #[trigger] line_forward(weights_of(filter), x)[i] == (if i % 2
                == 0 {
                average(x, i / 2)
            } else {
                detail(x, i / 2) - predicted(
                    weights_of(filter),
                    averaged(x),
                    i / 2,
                    detail(x, i / 2 + 1),
                )
            }),
{
    let w = weights_of(filter);
    let y = line_forward(w, x);
    assert forall|i: int| 0 <= i < x.len() implies {
        &&& i % 2 == 0 ==> -b <= #[trigger] y[i] <= b
        &&& -grown(b) <= y[i] <= grown(b)
        &&& y[i] == (if i % 2 == 0 {
            average(x, i / 2)
        } else {
            detail(x, i / 2) - predicted(w, averaged(x), i / 2, detail(x, i / 2 + 1))
        })
    } by {
        let k = i / 2;
        assert(-b <= x[i] <= b);
        if i % 2 == 0 {
            assert(2 * k == i);
            if 2 * k + 1 < x.len() {
                assert(-b <= x[i + 1] <= b);
            }
        } else {
            assert(2 * k + 1 == i);
            assert(-b <= x[2 * k] <= b);
            let next = detail(x, k + 1);
            if 2 * (k + 1) + 1 < x.len() {
                assert(-b <= x[2 * (k + 1)] <= b);
                assert(-b <= x[2 * (k + 1) + 1] <= b);
            }
            assert forall|j: int| 0 <= j < x.len() && j % 2 == 0 implies -b
                <= #[trigger] averaged(x)[j] <= b by {
                assert(2 * (j / 2) == j);
                assert(-b <= x[j] <= b);
                if j + 1 < x.len() {
                    assert(-b <= x[j + 1] <= b);
                }
            }
            lemma_prediction_bound(w, filter, averaged(x), k, next, b);
        }
    }
}

proof fn lemma_prediction_same(w: FilterWeights, a: Seq<i32>, c: Seq<i32>, k: int, next: int)
    requires
        a.len() == c.len(),
        0 <= k,
        2 * k + 1 < a.len(),
        forall|j: int| 0 <= j < a.len() && j % 2 == 0 ==> #[trigger] a[j] == c[j],
    ensures
        predicted(w, a, k, next) == predicted(w, c, k, next),
{
    assert forall|j: int| 1 <= j && 2 * j < a.len() implies slope(a, j) == #[trigger] slope(c, j) by {
        assert(a[2 * (j - 1)] == c[2 * (j - 1)]);
        assert(a[2 * j] == c[2 * j]);
    }
    if a.len() > 2 {
        assert(slope(a, 1) == slope(c, 1));
        if k > 0 {
            assert(slope(a, k) == slope(c, k));
            if 2 * k + 2 != a.len() {
                assert(slope(a, k + 1) == slope(c, k + 1));
                assert(slope(a, 2) == slope(c, 2)) by {
                    assert(2 * 2 < a.len());
                }
                if k > 1 {
                    assert(slope(a, k - 1) == slope(c, k - 1));
                }
            }
        }
    }
}

proof fn lemma_recovered(filter: WaveletFilter, x: Seq<i32>, b: int, k: int)
    requires
        b >= 0,
        grown(b) <= i32::MAX,
        bounded(x, b),
        0 <= k,
        2 * k <= x.len() + 1,
    ensures
        recovered(weights_of(filter), line_forward(weights_of(filter), x), k) == detail(x, k),
    decreases x.len() - k,
{
    let w = weights_of(filter);
    let y = line_forward(w, x);
    lemma_line_bound(filter, x, b);
    if 2 * k + 1 < x.len() {
        lemma_recovered(filter, x, b, k + 1);
        assert forall|j: int| 0 <= j < x.len() && j % 2 == 0 implies #[trigger] y[j] == averaged(
            x,
        )[j] by {}
        lemma_prediction_same(w, y, averaged(x), k, detail(x, k + 1));
        assert(y[2 * k + 1] == detail(x, k) - predicted(w, averaged(x), k, detail(x, k + 1))) by {
            assert((2 * k + 1) / 2 == k);
        }
    }
}

/// **The transform of a line is reversible.**
pub proof fn line_is_reversible(filter: WaveletFilter, x: Seq<i32>, b: int)
    requires
        b >= 0,
        grown(b) <= i32::MAX,
        bounded(x, b),
    ensures
        line_inverse(weights_of(filter), line_forward(weights_of(filter), x)) == x,
{
    let w = weights_of(filter);
    let y = line_forward(w, x);
    let z = line_inverse(w, y);
    lemma_line_bound(filter, x, b);
    assert forall|i: int| 0 <= i < x.len() implies z[i] == x[i] by {
        let k = i / 2;
        lemma_recovered(filter, x, b, k);
        assert(y[2 * k] == average(x, k)) by {
            assert((2 * k) / 2 == k);
        }
        if i % 2 == 0 {
            assert(2 * k == i);
        } else {
            assert(2 * k + 1 == i);
        }
    }
    assert(z =~= x);
}

// ---------------------------------------------------------------------------
// Images
// ---------------------------------------------------------------------------

/// The places of one level of a buffer: every `stride`-th column and row.
pub struct Lattice {
    /// Columns of the buffer.
    pub width: usize,
    /// Rows of the buffer.
    pub height: usize,
    /// Distance of the places.
    pub stride: usize,
}

/// Number of multiples of `stride` below `extent`.
pub open spec fn multiples_below(extent: int, stride: int) -> int {
    (extent + stride - 1) / stride
}

impl Lattice {
    /// Number of coefficients in the buffer.
    pub open spec fn area(self) -> int {
        self.width * self.height
    }

    /// The buffer can be addressed.
    pub open spec fn ok(self) -> bool {
        self.stride >= 1 && self.area() <= usize::MAX
    }

    /// Coefficient `i` is a place of the level.
    pub open spec fn holds(self, i: int) -> bool {
        (i % self.width as int) % self.stride as int == 0 && (i / self.width as int)
            % self.stride as int == 0
    }

    /// Number of places on a line: of a column or of a row.
    pub open spec fn line_len(self, columns: bool) -> int {
        multiples_below(
            if columns {
                self.height as int
            } else {
                self.width as int
            },
            self.stride as int,
        )
    }

    /// Number of lines.
    pub open spec fn line_count(self, columns: bool) -> int {
        self.line_len(!columns)
    }

    /// Where place `u` of line `v` lies in the buffer.
    pub open spec fn place(self, columns: bool, u: int, v: int) -> int {
        if columns {
            u * self.stride * self.width + v * self.stride
        } else {
            v * self.stride * self.width + u * self.stride
        }
    }

    /// The place of `i` on its line.
    pub open spec fn along(self, columns: bool, i: int) -> int {
        if columns {
            (i / self.width as int) / self.stride as int
        } else {
            (i % self.width as int) / self.stride as int
        }
    }

    /// The line of `i`.
    pub open spec fn across(self, columns: bool, i: int) -> int {
        self.along(!columns, i)
    }

    /// Line `v` of a buffer.
    pub open spec fn line(self, buf: Seq<i32>, columns: bool, v: int) -> Seq<i32> {
        Seq::new(
            self.line_len(columns) as nat,
            |u: int| buf[self.place(columns, u, v)],
        )
    }
}

/// A line, transformed or brought back.
pub open spec fn line_mapped(w: FilterWeights, back: bool, line: Seq<i32>) -> Seq<i32> {
    if back {
        line_inverse(w, line)
    } else {
        line_forward(w, line)
    }
}

/// Every row, or every column, transformed or brought back.
pub open spec fn lines_mapped(w: FilterWeights, back: bool, columns: bool, lat: Lattice, buf: Seq<i32>) -> Seq<
    i32,
> {
    Seq::new(
        buf.len(),
        |i: int|
            if lat.holds(i) {
                line_mapped(w, back, lat.line(buf, columns, lat.across(columns, i)))[lat.along(
                    columns,
                    i,
                )]
            } else {
                buf[i]
            },
    )
}

proof fn lemma_multiples(extent: int, stride: int, k: int)
    requires
        extent >= 0,
        stride >= 1,
    ensures
        multiples_below(extent, stride) >= 0,
        multiples_below(extent, stride) <= extent,
        0 <= k < multiples_below(extent, stride) ==> 0 <= k * stride < extent && (k * stride)
            % stride == 0 && (k * stride) / stride == k,
        0 <= k < extent ==> 0 <= k / stride < multiples_below(extent, stride),
        0 <= k < extent && k % stride == 0 ==> (k / stride) * stride == k,
{
    let n = multiples_below(extent, stride);
    assert(n >= 0 && n <= extent && n * stride <= extent + stride - 1) by (nonlinear_arith)
        requires
            n == (extent + stride - 1) / stride,
            extent >= 0,
            stride >= 1,
    ;
    if 0 <= k < n {
        assert(0 <= k * stride && k * stride + stride <= n * stride) by (nonlinear_arith)
            requires
                0 <= k,
                k + 1 <= n,
                stride >= 1,
        ;
        lemma_fundamental_div_mod_converse(k * stride, stride, k, 0);
    }
    if 0 <= k < extent {
        assert(0 <= k / stride < n) by (nonlinear_arith)
            requires
                n == (extent + stride - 1) / stride,
                0 <= k < extent,
                stride >= 1,
        ;
        lemma_fundamental_div_mod(k, stride);
        let q = k / stride;
        assert(stride * q == q * stride) by (nonlinear_arith);
    }
}

proof fn lemma_lattice_place(lat: Lattice, columns: bool, u: int, v: int)
    requires
        lat.stride >= 1,
        0 <= u < lat.line_len(columns),
        0 <= v < lat.line_count(columns),
    ensures
        ({
            let i = lat.place(columns, u, v);
            &&& 0 <= i < lat.area()
            &&& lat.holds(i)
            &&& lat.along(columns, i) == u
            &&& lat.across(columns, i) == v
        }),
{
    let (a, b) = if columns {
        (v, u)
    } else {
        (u, v)
    };
    let s = lat.stride as int;
    lemma_multiples(lat.width as int, s, a);
    lemma_multiples(lat.height as int, s, b);
    lemma_index(a * s, b * s, lat.width as int, lat.height as int);
    assert(b * s * lat.width == (b * s) * lat.width);
}

proof fn lemma_lattice_index(lat: Lattice, columns: bool, i: int)
    requires
        lat.stride >= 1,
        0 <= i < lat.area(),
    ensures
        0 <= lat.along(columns, i) < lat.line_len(columns),
        0 <= lat.across(columns, i) < lat.line_count(columns),
        lat.holds(i) ==> lat.place(columns, lat.along(columns, i), lat.across(columns, i)) == i,
{
    let w = lat.width as int;
    let s = lat.stride as int;
    assert(w > 0 && 0 <= i % w < w && 0 <= i / w < lat.height) by (nonlinear_arith)
        requires
            0 <= i < w * lat.height,
    ;
    lemma_multiples(w, s, i % w);
    lemma_multiples(lat.height as int, s, i / w);
    lemma_fundamental_div_mod(i, w);
    let q = i / w;
    assert(w * q == q * w) by (nonlinear_arith);
}

fn count_multiples(extent: usize, stride: usize) -> (n: usize)
    requires
        stride >= 1,
    ensures
        n == multiples_below(extent as int, stride as int),
{
    div_up(extent, stride)
}

/// Transform, or bring back, every row or every column of a level.
fn map_lines(
    w: &FilterWeights,
    back: bool,
    columns: bool,
    lat: &Lattice,
    buf: &mut Vec<i32>,
    Ghost(filter): Ghost<WaveletFilter>,
)
    requires
        *w == weights_of(filter),
        lat.ok(),
        old(buf)@.len() == lat.area(),
    ensures
        final(buf)@ == lines_mapped(*w, back, columns, *lat, old(buf)@),
{
    let ghost start = buf@;
    let ghost target = lines_mapped(*w, back, columns, *lat, start);
    let across: usize = count_multiples(lat.width, lat.stride);
    let down: usize = count_multiples(lat.height, lat.stride);
    let (len, lines): (usize, usize) = if columns {
        (down, across)
    } else {
        (across, down)
    };
    let mut v: usize = 0;
    while v < lines
        invariant
            v <= lines,
            *w == weights_of(filter),
            lat.ok(),
            len == lat.line_len(columns),
            lines == lat.line_count(columns),
            start.len() == lat.area(),
            target == lines_mapped(*w, back, columns, *lat, start),
            buf@.len() == lat.area(),
            forall|i: int|
                0 <= i < lat.area() ==> #[trigger] buf@[i] == (if lat.holds(i) && lat.across(
                    columns,
                    i,
                ) < v {
                    target[i]
                } else {
                    start[i]
                }),
        decreases lines - v,
    {
        let mut line: Vec<i32> = Vec::new();
        let mut u: usize = 0;
        while u < len
            invariant
                u <= len,
                v < lines,
                lat.ok(),
                len == lat.line_len(columns),
                lines == lat.line_count(columns),
                start.len() == lat.area(),
                buf@.len() == lat.area(),
                forall|i: int|
                    0 <= i < lat.area() ==> #[trigger] buf@[i] == (if lat.holds(i) && lat.across(
                        columns,
                        i,
                    ) < v {
                        target[i]
                    } else {
                        start[i]
                    }),
                line@.len() == u,
                forall|k: int|
                    0 <= k < u ==> #[trigger] line@[k] == start[lat.place(columns, k, v as int)],
            decreases len - u,
        {
            let i: usize = lattice_place(lat, columns, u, v);
            proof {
                lemma_lattice_place(*lat, columns, u as int, v as int);
            }
            line.push(buf[i]);
            u = u + 1;
        }
        assert(line@ =~= lat.line(start, columns, v as int));
        let mapped = if back {
            inverse_line(w, &line, Ghost(filter))
        } else {
            forward_line(w, &line, Ghost(filter))
        };
        proof {
            assert forall|i: int| 0 <= i < lat.area() implies 0 <= #[trigger] lat.along(columns, i)
                < len by {
                lemma_lattice_index(*lat, columns, i);
            }
        }
        let mut u: usize = 0;
        while u < len
            invariant
                u <= len,
                v < lines,
                lat.ok(),
                len == lat.line_len(columns),
                lines == lat.line_count(columns),
                start.len() == lat.area(),
                target == lines_mapped(*w, back, columns, *lat, start),
                mapped@ == line_mapped(*w, back, lat.line(start, columns, v as int)),
                mapped@.len() == len,
                buf@.len() == lat.area(),
                forall|i: int|
                    0 <= i < lat.area() ==> #[trigger] buf@[i] == (if lat.holds(i) && (lat.across(
                        columns,
                        i,
                    ) < v || (lat.across(columns, i) == v && lat.along(columns, i) < u)) {
                        target[i]
                    } else {
                        start[i]
                    }),
            decreases len - u,
        {
            let i: usize = lattice_place(lat, columns, u, v);
            proof {
                lemma_lattice_place(*lat, columns, u as int, v as int);
                assert(target[i as int] == mapped@[u as int]);
                assert forall|j: int|
                    0 <= j < lat.area() && lat.holds(j) && lat.across(columns, j) == v && lat.along(
                        columns,
                        j,
                    ) == u implies j == i by {
                    lemma_lattice_index(*lat, columns, j);
                }
            }
            let value: i32 = mapped[u];
            buf.set(i, value);
            u = u + 1;
        }
        proof {
            assert forall|i: int| 0 <= i < lat.area() implies 0 <= #[trigger] lat.along(columns, i)
                < len by {
                lemma_lattice_index(*lat, columns, i);
            }
        }
        v = v + 1;
    }
    proof {
        assert forall|i: int| 0 <= i < lat.area() implies buf@[i] == target[i] by {
            lemma_lattice_index(*lat, columns, i);
        }
        assert(buf@ =~= target);
    }
}

fn lattice_place(lat: &Lattice, columns: bool, u: usize, v: usize) -> (i: usize)
    requires
        lat.ok(),
        u < lat.line_len(columns),
        v < lat.line_count(columns),
    ensures
        i == lat.place(columns, u as int, v as int),
        i < lat.area(),
{
    let (a, b): (usize, usize) = if columns {
        (v, u)
    } else {
        (u, v)
    };
    proof {
        lemma_lattice_place(*lat, columns, u as int, v as int);
        let s = lat.stride as int;
        lemma_multiples(lat.width as int, s, a as int);
        lemma_multiples(lat.height as int, s, b as int);
        assert((b * s) * lat.width >= 0) by (nonlinear_arith)
            requires
                b * s >= 0,
        ;
    }
    b * lat.stride * lat.width + a * lat.stride
}

/// One level of the transform: rows, then columns.
pub open spec fn level_forward(w: FilterWeights, lat: Lattice, buf: Seq<i32>) -> Seq<i32> {
    lines_mapped(w, false, true, lat, lines_mapped(w, false, false, lat, buf))
}

/// One level brought back: columns, then rows.
pub open spec fn level_inverse(w: FilterWeights, lat: Lattice, buf: Seq<i32>) -> Seq<i32> {
    lines_mapped(w, true, false, lat, lines_mapped(w, true, true, lat, buf))
}

/// The places of level `k`.
pub open spec fn level_lattice(width: usize, height: usize, k: int) -> Lattice {
    Lattice { width, height, stride: pow2((k - 1) as nat) as usize }
}

/// The first `levels` levels of the transform of a buffer.
pub open spec fn forward_levels(
    w: FilterWeights,
    width: usize,
    height: usize,
    buf: Seq<i32>,
    levels: int,
) -> Seq<i32>
    decreases levels,
{
    if levels <= 0 {
        buf
    } else {
        level_forward(
            w,
            level_lattice(width, height, levels),
            forward_levels(w, width, height, buf, levels - 1),
        )
    }
}

/// The first `levels` levels brought back, the last one first.
pub open spec fn inverse_levels(
    w: FilterWeights,
    width: usize,
    height: usize,
    buf: Seq<i32>,
    levels: int,
) -> Seq<i32>
    decreases levels,
{
    if levels <= 0 {
        buf
    } else {
        inverse_levels(
            w,
            width,
            height,
            level_inverse(w, level_lattice(width, height, levels), buf),
            levels - 1,
        )
    }
}

/// Transform a buffer in place.
pub fn forward_2d_dyadic(
    buf: &mut Vec<i32>,
    width: usize,
    height: usize,
    levels: u8,
    filter: WaveletFilter,
)
    requires
        width * height <= usize::MAX,
        old(buf)@.len() == width * height,
        levels <= 31,
    ensures
        final(buf)@ == forward_levels(
            weights_of(filter),
            width,
            height,
            old(buf)@,
            levels as int,
        ),
        final(buf)@.len() == old(buf)@.len(),
{
    let w = filter_weights(filter);
    let ghost start = buf@;
    let mut k: u8 = 0;
    while k < levels
        invariant
            k <= levels <= 31,
            w == weights_of(filter),
            width * height <= usize::MAX,
            buf@.len() == width * height,
            buf@ == forward_levels(w, width, height, start, k as int),
        decreases levels - k,
    {
        let lat = Lattice { width, height, stride: two_to(k) };
        map_lines(&w, false, false, &lat, buf, Ghost(filter));
        map_lines(&w, false, true, &lat, buf, Ghost(filter));
        k = k + 1;
    }
}

/// Bring a transformed buffer back in place.
pub fn inverse_2d_dyadic(
    buf: &mut Vec<i32>,
    width: usize,
    height: usize,
    levels: u8,
    filter: WaveletFilter,
)
    requires
        width * height <= usize::MAX,
        old(buf)@.len() == width * height,
        levels <= 31,
    ensures
        final(buf)@ == inverse_levels(
            weights_of(filter),
            width,
            height,
            old(buf)@,
            levels as int,
        ),
        final(buf)@.len() == old(buf)@.len(),
{
    let w = filter_weights(filter);
    let ghost start = buf@;
    let mut k: u8 = levels;
    while k > 0
        invariant
            k <= levels <= 31,
            w == weights_of(filter),
            width * height <= usize::MAX,
            buf@.len() == width * height,
            inverse_levels(w, width, height, buf@, k as int) == inverse_levels(
                w,
                width,
                height,
                start,
                levels as int,
            ),
        decreases k,
    {
        let lat = Lattice { width, height, stride: two_to(k - 1) };
        map_lines(&w, true, true, &lat, buf, Ghost(filter));
        map_lines(&w, true, false, &lat, buf, Ghost(filter));
        k = k - 1;
    }
}

// ---------------------------------------------------------------------------
// Reversibility
// ---------------------------------------------------------------------------

/// Every value at a place of the level lies between `-b` and `b`.
pub open spec fn lattice_bounded(lat: Lattice, buf: Seq<i32>, b: int) -> bool {
    forall|i: int| 0 <= i < buf.len() && lat.holds(i) ==> -b <= #[trigger] buf[i] <= b
}

proof fn lemma_mapped_line(
    w: FilterWeights,
    back: bool,
    columns: bool,
    lat: Lattice,
    buf: Seq<i32>,
    v: int,
)
    requires
        lat.ok(),
        buf.len() == lat.area(),
        0 <= v < lat.line_count(columns),
    ensures
        lat.line(lines_mapped(w, back, columns, lat, buf), columns, v) == line_mapped(
            w,
            back,
            lat.line(buf, columns, v),
        ),
{
    let out = lines_mapped(w, back, columns, lat, buf);
    let a = lat.line(out, columns, v);
    let b = line_mapped(w, back, lat.line(buf, columns, v));
    lemma_multiples(
        if columns {
            lat.height as int
        } else {
            lat.width as int
        },
        lat.stride as int,
        0,
    );
    assert forall|u: int| 0 <= u < a.len() implies a[u] == b[u] by {
        lemma_lattice_place(lat, columns, u, v);
    }
    assert(a =~= b);
}

/// Bounds of the lines of a level: those with an even number are bounded by
/// `b`, and the others by `c`.
spec fn lines_bounded(columns: bool, lat: Lattice, buf: Seq<i32>, b: int, c: int) -> bool {
    forall|i: int|
        0 <= i < buf.len() && lat.holds(i) ==> {
            &&& -c <= #[trigger] buf[i] <= c
            &&& lat.across(columns, i) % 2 == 0 ==> -b <= buf[i] <= b
        }
}

/// Mapping the lines of a level back undoes mapping them.
proof fn lemma_lines_reversible(
    filter: WaveletFilter,
    columns: bool,
    lat: Lattice,
    buf: Seq<i32>,
    b: int,
    c: int,
)
    requires
        lat.ok(),
        buf.len() == lat.area(),
        0 <= b <= c,
        grown(c) <= i32::MAX,
        lines_bounded(columns, lat, buf, b, c),
    ensures
        ({
            let w = weights_of(filter);
            let out = lines_mapped(w, false, columns, lat, buf);
            &&& lines_mapped(w, true, columns, lat, out) == buf
            &&& forall|i: int|
                0 <= i < buf.len() && lat.holds(i) ==> {
                    &&& -grown(c) <= #[trigger] out[i] <= grown(c)
                    &&& lat.across(columns, i) % 2 == 0 ==> -grown(b) <= out[i] <= grown(b)
                    &&& lat.along(columns, i) % 2 == 0 ==> -c <= out[i] <= c
                    &&& lat.along(columns, i) % 2 == 0 && lat.across(columns, i) % 2 == 0 ==> -b
                        <= out[i] <= b
                }
        }),
{
    let w = weights_of(filter);
    let out = lines_mapped(w, false, columns, lat, buf);
    let again = lines_mapped(w, true, columns, lat, out);
    assert forall|i: int| 0 <= i < buf.len() implies {
        &&& again[i] == buf[i]
        &&& lat.holds(i) ==> {
            &&& -grown(c) <= #[trigger] out[i] <= grown(c)
            &&& lat.across(columns, i) % 2 == 0 ==> -grown(b) <= out[i] <= grown(b)
            &&& lat.along(columns, i) % 2 == 0 ==> -c <= out[i] <= c
            &&& lat.along(columns, i) % 2 == 0 && lat.across(columns, i) % 2 == 0 ==> -b <= out[i]
                <= b
        }
    } by {
        if lat.holds(i) {
            lemma_lattice_index(lat, columns, i);
            let u = lat.along(columns, i);
            let v = lat.across(columns, i);
            let line = lat.line(buf, columns, v);
            assert forall|k: int| 0 <= k < line.len() implies {
                &&& -c <= #[trigger] line[k] <= c
                &&& v % 2 == 0 ==> -b <= line[k] <= b
            } by {
                lemma_lattice_place(lat, columns, k, v);
                assert(line[k] == buf[lat.place(columns, k, v)]);
            }
            lemma_mapped_line(w, false, columns, lat, buf, v);
            line_is_reversible(filter, line, c);
            lemma_line_bound(filter, line, c);
            let y = line_forward(w, line);
            assert(out[i] == y[u]);
            if v % 2 == 0 {
                assert(bounded(line, b));
                lemma_line_bound(filter, line, b);
            }
        }
    }
    assert(again =~= buf);
}

/// A level is reversible, and leaves the averages as small as they were.
proof fn lemma_level_reversible(filter: WaveletFilter, lat: Lattice, buf: Seq<i32>, b: int)
    requires
        lat.ok(),
        buf.len() == lat.area(),
        b >= 0,
        grown(grown(b)) <= i32::MAX,
        lattice_bounded(lat, buf, b),
        bounded(buf, grown(grown(b))),
    ensures
        ({
            let w = weights_of(filter);
            let out = level_forward(w, lat, buf);
            &&& level_inverse(w, lat, out) == buf
            &&& out.len() == buf.len()
            &&& bounded(out, grown(grown(b)))
            &&& forall|i: int|
                0 <= i < buf.len() && lat.holds(i) && lat.along(true, i) % 2 == 0 && lat.along(
                    false,
                    i,
                ) % 2 == 0 ==> -b <= #[trigger] out[i] <= b
        }),
{
    let w = weights_of(filter);
    let rows = lines_mapped(w, false, false, lat, buf);
    let out = level_forward(w, lat, buf);
    assert(lines_bounded(false, lat, buf, b, b));
    lemma_lines_reversible(filter, false, lat, buf, b, b);
    assert(lines_bounded(true, lat, rows, b, grown(b))) by {
        assert forall|i: int| 0 <= i < rows.len() && lat.holds(i) implies {
            &&& -grown(b) <= #[trigger] rows[i] <= grown(b)
            &&& lat.across(true, i) % 2 == 0 ==> -b <= rows[i] <= b
        } by {
            assert(lat.across(true, i) == lat.along(false, i));
        }
    }
    lemma_lines_reversible(filter, true, lat, rows, b, grown(b));
    assert forall|i: int| 0 <= i < out.len() implies -grown(grown(b)) <= #[trigger] out[i]
        <= grown(grown(b)) by {
        if !lat.holds(i) {
            assert(out[i] == buf[i]);
        }
    }
    assert forall|i: int|
        0 <= i < buf.len() && lat.holds(i) && lat.along(true, i) % 2 == 0 && lat.along(false, i)
            % 2 == 0 implies -b <= #[trigger] out[i] <= b by {
        assert(lat.across(true, i) == lat.along(false, i));
    }
}

proof fn lemma_next_lattice(width: usize, height: usize, k: int, i: int)
    requires
        1 <= k <= 31,
        0 <= i < width * height,
    ensures
        ({
            let lat = level_lattice(width, height, k);
            let next = level_lattice(width, height, k + 1);
            &&& lat.stride == pow2((k - 1) as nat)
            &&& next.stride == pow2(k as nat)
            &&& next.holds(i) ==> lat.holds(i) && lat.along(true, i) % 2 == 0 && lat.along(
                false,
                i,
            ) % 2 == 0
        }),
{
    vstd::arithmetic::power2::lemma2_to64();
    vstd::arithmetic::power2::lemma_pow2_unfold(k as nat);
    lemma_pow2_pos((k - 1) as nat);
    if k < 31 {
        vstd::arithmetic::power2::lemma_pow2_strictly_increases(k as nat, 31);
    }
    let s = pow2((k - 1) as nat) as int;
    let w = width as int;
    assert(w > 0 && 0 <= i % w && 0 <= i / w) by (nonlinear_arith)
        requires
            0 <= i < w * height,
    ;
    lemma_twice(i % w, s);
    lemma_twice(i / w, s);
}

proof fn lemma_twice(x: int, s: int)
    requires
        x >= 0,
        s >= 1,
    ensures
        x % (2 * s) == 0 ==> x % s == 0 && (x / s) % 2 == 0,
{
    if x % (2 * s) == 0 {
        lemma_fundamental_div_mod(x, 2 * s);
        let q = x / (2 * s);
        assert((2 * s) * q == (2 * q) * s) by (nonlinear_arith);
        lemma_fundamental_div_mod_converse(x, s, 2 * q, 0);
    }
}

proof fn lemma_levels_reversible(
    filter: WaveletFilter,
    width: usize,
    height: usize,
    buf: Seq<i32>,
    levels: int,
    b: int,
)
    requires
        width * height <= usize::MAX,
        buf.len() == width * height,
        0 <= levels <= 31,
        b >= 0,
        grown(grown(b)) <= i32::MAX,
        bounded(buf, b),
    ensures
        ({
            let w = weights_of(filter);
            let out = forward_levels(w, width, height, buf, levels);
            &&& inverse_levels(w, width, height, out, levels) == buf
            &&& out.len() == buf.len()
            &&& bounded(out, grown(grown(b)))
            &&& lattice_bounded(level_lattice(width, height, levels + 1), out, b)
        }),
    decreases levels,
{
    let w = weights_of(filter);
    if levels > 0 {
        lemma_levels_reversible(filter, width, height, buf, levels - 1, b);
        let before = forward_levels(w, width, height, buf, levels - 1);
        let lat = level_lattice(width, height, levels);
        lemma_pow2_pos((levels - 1) as nat);
        vstd::arithmetic::power2::lemma2_to64();
        if levels < 32 {
            vstd::arithmetic::power2::lemma_pow2_strictly_increases((levels - 1) as nat, 31);
        }
        lemma_level_reversible(filter, lat, before, b);
        let out = forward_levels(w, width, height, buf, levels);
        assert forall|i: int|
            0 <= i < out.len() && level_lattice(width, height, levels + 1).holds(i) implies -b
            <= #[trigger] out[i] <= b by {
            lemma_next_lattice(width, height, levels, i);
        }
    }
}

/// **The transform of an image is reversible**, and its coefficients stay
/// within a small multiple of the samples.
pub proof fn transform_is_reversible(
    filter: WaveletFilter,
    width: usize,
    height: usize,
    buf: Seq<i32>,
    levels: int,
    b: int,
)
    requires
        width * height <= usize::MAX,
        buf.len() == width * height,
        0 <= levels <= 31,
        b >= 0,
        grown(grown(b)) <= i32::MAX,
        bounded(buf, b),
    ensures
        ({
            let w = weights_of(filter);
            let out = forward_levels(w, width, height, buf, levels);
            &&& inverse_levels(w, width, height, out, levels) == buf
            &&& out.len() == buf.len()
            &&& bounded(out, grown(grown(b)))
        }),
{
    lemma_levels_reversible(filter, width, height, buf, levels, b);
}

/// Where nothing differs from zero, nothing is predicted.
proof fn lemma_recovered_zero(w: FilterWeights, y: Seq<i32>, k: int)
    requires
        0 <= k,
        bounded(y, 0),
    ensures
        recovered(w, y, k) == 0,
    decreases y.len() - k,
{
    if 2 * k + 1 < y.len() {
        lemma_recovered_zero(w, y, k + 1);
        let n = y.len();
        assert forall|j: int| 1 <= j && 2 * j < n implies #[trigger] slope(y, j) == 0 by {
            assert(y[2 * (j - 1)] == 0 && y[2 * j] == 0);
        }
        assert(y[2 * k + 1] == 0);
        assert(w.near * 0 == 0 && w.next * 0 == 0 && w.detail * 0 == 0 && w.far * 0 == 0)
            by (nonlinear_arith);
        if n > 2 {
            assert(slope(y, 1) == 0);
            if k > 0 && 2 * k + 2 != n {
                assert(slope(y, k) == 0);
                assert(slope(y, k + 1) == 0);
                if k > 1 {
                    assert(slope(y, k - 1) == 0);
                }
            }
        }
    }
}

proof fn lemma_lines_zero(w: FilterWeights, columns: bool, lat: Lattice, buf: Seq<i32>)
    requires
        lat.stride >= 1,
        buf.len() == lat.area(),
        bounded(buf, 0),
    ensures
        lines_mapped(w, true, columns, lat, buf) == buf,
{
    let out = lines_mapped(w, true, columns, lat, buf);
    assert forall|i: int| 0 <= i < buf.len() implies out[i] == buf[i] by {
        lemma_lattice_index(lat, columns, i);
        let v = lat.across(columns, i);
        let u = lat.along(columns, i);
        let line = lat.line(buf, columns, v);
        assert forall|j: int| 0 <= j < line.len() implies -0 <= #[trigger] line[j] <= 0 by {
            lemma_lattice_place(lat, columns, j, v);
            assert(buf[lat.place(columns, j, v)] == 0);
        }
        lemma_recovered_zero(w, line, u / 2);
        assert(buf[i] == 0);
        assert(line[2 * (u / 2)] == 0);
    }
    assert(out =~= buf);
}

/// **Coefficients that are all zero come of an image that is zero.**
pub proof fn nothing_comes_of_nothing(
    w: FilterWeights,
    width: usize,
    height: usize,
    buf: Seq<i32>,
    levels: int,
)
    requires
        buf.len() == width * height,
        0 <= levels <= 31,
        bounded(buf, 0),
    ensures
        inverse_levels(w, width, height, buf, levels) == buf,
    decreases levels,
{
    if levels > 0 {
        let lat = level_lattice(width, height, levels);
        vstd::arithmetic::power2::lemma2_to64();
        vstd::arithmetic::power2::lemma_pow2_pos((levels - 1) as nat);
        if levels < 32 {
            vstd::arithmetic::power2::lemma_pow2_strictly_increases((levels - 1) as nat, 31);
        }
        assert(lat.stride >= 1);
        lemma_lines_zero(w, true, lat, buf);
        lemma_lines_zero(w, false, lat, buf);
        nothing_comes_of_nothing(w, width, height, buf, levels - 1);
    }
}

// ---------------------------------------------------------------------------
// Smooth lines
// ---------------------------------------------------------------------------

/// A line that rises by `s` from each sample to the next.
pub open spec fn is_ramp(x: Seq<i32>, a: int, s: int) -> bool {
    &&& -0x1000_0000 <= s <= 0x1000_0000
    &&& forall|i: int|
        0 <= i < x.len() ==> #[trigger] x[i] == a + s * i && -0x4000_0000 <= x[i] <= 0x4000_0000
}

proof fn lemma_ramp_pair(x: Seq<i32>, a: int, s: int, k: int)
    requires
        is_ramp(x, a, s),
        0 <= k,
        2 * k + 1 < x.len(),
    ensures
        detail(x, k) == -s,
        average(x, k) == x[2 * k] + s / 2,
        averaged(x)[2 * k] == average(x, k),
{
    assert(x[2 * k] == a + s * (2 * k));
    assert(x[2 * k + 1] == a + s * (2 * k + 1));
    assert(s * (2 * k + 1) == s * (2 * k) + s) by (nonlinear_arith);
}

proof fn lemma_ramp_slope(x: Seq<i32>, a: int, s: int, k: int)
    requires
        is_ramp(x, a, s),
        1 <= k,
        2 * k + 1 < x.len(),
    ensures
        slope(averaged(x), k) == -2 * s,
{
    lemma_ramp_pair(x, a, s, k - 1);
    lemma_ramp_pair(x, a, s, k);
    assert(x[2 * (k - 1)] == a + s * (2 * (k - 1)));
    assert(x[2 * k] == a + s * (2 * k));
    assert(s * (2 * (k - 1)) == s * (2 * k) - 2 * s) by (nonlinear_arith);
}

proof fn lemma_times(w: int, c: int, t: int)
    requires
        w == c,
    ensures
        w * t == c * t,
{
}

/// **The filters A to F predict a ramp exactly**: away from the ends of a line
/// that rises evenly they leave no details. Its averages rise twice as fast.
pub proof fn ramps_have_no_details(filter: WaveletFilter, x: Seq<i32>, a: int, s: int, k: int)
    requires
        filter is NineSevenA || filter is FilterB || filter is FilterC || filter is FilterD
            || filter is FilterE || filter is FilterF,
        is_ramp(x, a, s),
        1 <= k,
        2 * k + 3 < x.len(),
    ensures
        line_forward(weights_of(filter), x)[2 * k + 1] == 0,
        line_forward(weights_of(filter), x)[2 * k] == x[2 * k] + s / 2,
{
    let w = weights_of(filter);
    lemma_ramp_pair(x, a, s, k);
    lemma_ramp_pair(x, a, s, k + 1);
    lemma_ramp_slope(x, a, s, k);
    lemma_ramp_slope(x, a, s, k + 1);
    if k >= 2 {
        lemma_ramp_slope(x, a, s, k - 1);
    }
    assert((2 * k + 1) / 2 == k && (2 * k) / 2 == k && (2 * k + 1) % 2 == 1 && (2 * k) % 2 == 0);
    let p = predicted(w, averaged(x), k, detail(x, k + 1));
    assert(averaged(x).len() == x.len());
    if k == 1 && w.far != 0 {
        assert(p == (-16 * s + 8) / 16);
    } else {
        let (near, next, detail) = match filter {
            WaveletFilter::FilterB => (4int, 6int, 4int),
            WaveletFilter::FilterC => (4int, 8int, 6int),
            WaveletFilter::FilterD => (4int, 5int, 2int),
            WaveletFilter::FilterE => (3int, 8int, 6int),
            WaveletFilter::FilterF => (3int, 9int, 8int),
            _ => (4int, 4int, 0int),
        };
        lemma_times(w.near as int, near, -2 * s);
        lemma_times(w.next as int, next, -2 * s);
        lemma_times(w.detail as int, detail, -s);
        if w.far != 0 {
            lemma_times(w.far as int, -1, -2 * s);
        }
        if filter is FilterC {
            assert(p == (2 * s + 4 * (-2 * s) + 8 * (-2 * s) - 6 * -s + 8) / 16);
        } else if filter is FilterB {
            assert(p == (4 * (-2 * s) + 6 * (-2 * s) - 4 * -s + 8) / 16);
        } else if filter is FilterD {
            assert(p == (4 * (-2 * s) + 5 * (-2 * s) - 2 * -s + 8) / 16);
        } else if filter is FilterE {
            assert(p == (3 * (-2 * s) + 8 * (-2 * s) - 6 * -s + 8) / 16);
        } else if filter is FilterF {
            assert(p == (3 * (-2 * s) + 9 * (-2 * s) - 8 * -s + 8) / 16);
        } else {
            assert(p == (4 * (-2 * s) + 4 * (-2 * s) + 8) / 16);
        }
        assert(p == (-16 * s + 8) / 16);
    }
    assert((-16 * s + 8) / 16 == -s);
}

/// **A flat line has no details and is its own average**, with every filter.
pub proof fn flat_lines_have_no_details(filter: WaveletFilter, x: Seq<i32>, v: i32, i: int)
    requires
        forall|j: int| 0 <= j < x.len() ==> #[trigger] x[j] == v,
        0 <= i < x.len(),
    ensures
        line_forward(weights_of(filter), x)[i] == (if i % 2 == 0 {
            v as int
        } else {
            0
        }),
{
    let w = weights_of(filter);
    let y = averaged(x);
    assert forall|j: int| 0 <= j < x.len() && j % 2 == 0 implies #[trigger] y[j] == v by {
        assert(x[j] == v);
        if j + 1 < x.len() {
            assert(x[j + 1] == v);
        }
        assert(2 * (j / 2) == j);
    }
    let k = i / 2;
    assert(x[2 * k] == v);
    if i % 2 == 1 {
        assert(x[2 * k + 1] == v);
        if 2 * (k + 1) + 1 < x.len() {
            assert(x[2 * (k + 1)] == v && x[2 * (k + 1) + 1] == v);
        }
        if k >= 1 {
            assert(y[2 * (k - 1)] == v && y[2 * k] == v);
        }
        if k >= 2 {
            assert(y[2 * (k - 2)] == v);
        }
        if 2 * (k + 1) < x.len() {
            assert(y[2 * (k + 1)] == v && y[2 * k] == v);
        }
        assert(w.near * 0 == 0 && w.next * 0 == 0 && w.detail * 0 == 0 && w.far * 0 == 0)
            by (nonlinear_arith);
    }
}

} // verus!
