//! What the best plan for the packets of a strip promises.

use crate::bitplane::{index_from, Coded};
use crate::choosing::chosen_bytes;
use crate::compress::{body_budget, packets_chosen, strip_coding, Settings};
use crate::rd::{best_plan, chain_plan, choice_is_never_worse, empty_plan, filled_plan, insert_ranked, promise_of, promises, ranked_refinements, truncated_until, weight_between, weight_map, wire_size, Plan};
use crate::roundtrip::{in_plane_order, lemma_index_in_order};
use vstd::arithmetic::power2::pow2;
use vstd::prelude::*;

verus! {

/// Sum of the promises of the chosen ones of the first `k` packets.
pub open spec fn chosen_promise(promised: Seq<int>, chosen: Seq<bool>, k: int) -> int
    decreases k,
{
    if k <= 0 {
        0
    } else {
        chosen_promise(promised, chosen, k - 1) + (if chosen[k - 1] {
            promised[k - 1]
        } else {
            0
        })
    }
}

/// Bytes of the significance packets of the first `d` bit planes.
pub open spec fn leading_bytes(packets: Seq<Coded>, d: int) -> int
    decreases d,
{
    if d <= 0 {
        0
    } else {
        leading_bytes(packets, d - 1) + 4 + packets[2 * (d - 1)].body.len()
    }
}

/// Sum of the promises of the significance packets of the first `d` bit planes.
pub open spec fn leading_promise(promised: Seq<int>, d: int) -> int
    decreases d,
{
    if d <= 0 {
        0
    } else {
        leading_promise(promised, d - 1) + promised[2 * (d - 1)]
    }
}

/// A plan says truly what its packets cost and promise.
spec fn exact(packets: Seq<Coded>, promised: Seq<int>, p: Plan) -> bool {
    let n = packets.len() as int;
    &&& p.chosen.len() == n
    &&& p.bytes == chosen_bytes(packets, p.chosen, n)
    &&& p.promise == chosen_promise(promised, p.chosen, n)
}

proof fn lemma_sums_update(packets: Seq<Coded>, promised: Seq<int>, chosen: Seq<bool>, i: int, k: int)
    requires
        0 <= i < chosen.len(),
        0 <= k <= chosen.len(),
        !chosen[i],
    ensures
        chosen_bytes(packets, chosen.update(i, true), k) == chosen_bytes(packets, chosen, k) + (
        if i < k {
            wire_size(packets, i)
        } else {
            0
        }),
        chosen_promise(promised, chosen.update(i, true), k) == chosen_promise(promised, chosen, k)
            + (if i < k {
            promised[i]
        } else {
            0
        }),
    decreases k,
{
    if k > 0 {
        lemma_sums_update(packets, promised, chosen, i, k - 1);
    }
}

proof fn lemma_sums_none(packets: Seq<Coded>, promised: Seq<int>, n: int, k: int)
    requires
        0 <= k <= n,
    ensures
        chosen_bytes(packets, empty_plan(n).chosen, k) == 0,
        chosen_promise(promised, empty_plan(n).chosen, k) == 0,
    decreases k,
{
    if k > 0 {
        lemma_sums_none(packets, promised, n, k - 1);
    }
}

/// The plan of the significance packets of the first `k` bit planes.
proof fn lemma_chain(packets: Seq<Coded>, promised: Seq<int>, q: u8, k: int)
    requires
        q <= 31,
        in_plane_order(packets, q),
        0 <= k <= q,
    ensures
        chain_plan(packets, promised, k) is Some,
        ({
            let p = chain_plan(packets, promised, k)->0;
            &&& exact(packets, promised, p)
            &&& p.bytes == leading_bytes(packets, k)
            &&& p.promise == leading_promise(promised, k)
            &&& forall|i: int|
                0 <= i < 2 * q ==> (#[trigger] p.chosen[i] <==> i % 2 == 0 && i / 2 < k)
        }),
    decreases k,
{
    if k > 0 {
        lemma_chain(packets, promised, q, k - 1);
        let before = chain_plan(packets, promised, k - 1)->0;
        let s = 2 * (k - 1);
        lemma_index_in_order(packets, q, s, 0);
        assert(s / 2 == k - 1 && s % 2 == 0);
        assert(index_from(packets, (k - 1) as u8, true, 0) == Some(s));
        lemma_sums_update(packets, promised, before.chosen, s, packets.len() as int);
        let p = chain_plan(packets, promised, k)->0;
        assert forall|i: int| 0 <= i < 2 * q implies (#[trigger] p.chosen[i] <==> i % 2 == 0 && i / 2
            < k) by {
            assert(i != s ==> p.chosen[i] == before.chosen[i]);
        }
    } else {
        lemma_sums_none(packets, promised, packets.len() as int, packets.len() as int);
    }
}

proof fn lemma_inserted(list: Seq<int>, x: int, packets: Seq<Coded>, promised: Seq<int>)
    requires
        !list.contains(x),
        list.no_duplicates(),
    ensures
        ({
            let r = insert_ranked(list, x, packets, promised);
            &&& r.no_duplicates()
            &&& forall|y: int| #[trigger] r.contains(y) <==> list.contains(y) || y == x
        }),
    decreases list.len(),
{
    let r = insert_ranked(list, x, packets, promised);
    if list.len() == 0 || crate::rd::promises_more(packets, promised, list.last(), x) {
        assert(r[list.len() as int] == x);
        assert forall|y: int| #[trigger] r.contains(y) <==> list.contains(y) || y == x by {
            if list.contains(y) {
                let i = list.index_of(y);
                assert(r[i] == y);
            }
            if r.contains(y) {
                let i = r.index_of(y);
                if i < list.len() {
                    assert(list[i] == y);
                }
            }
        }
    } else {
        let less = list.drop_last();
        let last = list.last();
        assert(!less.contains(x)) by {
            if less.contains(x) {
                assert(list[less.index_of(x)] == x);
            }
        }
        lemma_inserted(less, x, packets, promised);
        let s = insert_ranked(less, x, packets, promised);
        assert(!less.contains(last)) by {
            if less.contains(last) {
                let i = less.index_of(last);
                assert(list[i] == list[list.len() - 1]);
            }
        }
        assert(list.contains(last));
        assert(!s.contains(last));
        assert(r[s.len() as int] == last);
        assert forall|i: int, j: int| 0 <= i < r.len() && 0 <= j < r.len() && i != j implies r[i]
            != r[j] by {
            if i < s.len() {
                assert(s.contains(s[i]));
            }
            if j < s.len() {
                assert(s.contains(s[j]));
            }
        }
        assert forall|y: int| #[trigger] r.contains(y) <==> list.contains(y) || y == x by {
            if list.contains(y) {
                let i = list.index_of(y);
                if i < less.len() {
                    assert(less[i] == y);
                    assert(less.contains(y));
                    assert(s.contains(y));
                    let j = s.index_of(y);
                    assert(r[j] == y);
                }
            }
            if y == x {
                assert(s.contains(x));
                let j = s.index_of(x);
                assert(r[j] == x);
            }
            if r.contains(y) {
                let j = r.index_of(y);
                if j < s.len() {
                    assert(s[j] == y);
                    assert(s.contains(y));
                    if less.contains(y) {
                        let i = less.index_of(y);
                        assert(list[i] == y);
                    }
                }
            }
        }
    }
}

/// The refinement packets of the first `k` bit planes, each once.
proof fn lemma_refinements(packets: Seq<Coded>, promised: Seq<int>, q: u8, k: int)
    requires
        q <= 31,
        in_plane_order(packets, q),
        0 <= k <= q,
    ensures
        ({
            let list = ranked_refinements(packets, promised, k);
            &&& list.no_duplicates()
            &&& forall|y: int| #[trigger]
                list.contains(y) <==> 0 <= y < 2 * k && y % 2 == 1
        }),
    decreases k,
{
    let list = ranked_refinements(packets, promised, k);
    if k > 0 {
        lemma_refinements(packets, promised, q, k - 1);
        let before = ranked_refinements(packets, promised, k - 1);
        let s = 2 * (k - 1) + 1;
        lemma_index_in_order(packets, q, s, 0);
        assert(s / 2 == k - 1 && s % 2 == 1);
        assert(index_from(packets, (k - 1) as u8, false, 0) == Some(s));
        lemma_inserted(before, s, packets, promised);
        assert forall|y: int| #[trigger] list.contains(y) <==> 0 <= y < 2 * k && y % 2 == 1 by {
            assert(before.contains(y) <==> 0 <= y < 2 * (k - 1) && y % 2 == 1);
        }
    }
}

/// A plan of depth `d` after `k` refinements of a list were tried.
spec fn tried(
    p: Plan,
    packets: Seq<Coded>,
    promised: Seq<int>,
    list: Seq<int>,
    budget: int,
    d: int,
    k: int,
) -> bool {
    &&& exact(packets, promised, p)
    &&& p.bytes <= budget
    &&& p.promise >= leading_promise(promised, d)
    &&& forall|i: int|
        0 <= i < packets.len() && i % 2 == 0 ==> (#[trigger] p.chosen[i] <==> i / 2 < d)
    &&& forall|i: int|
        0 <= i < packets.len() && i % 2 == 1 && #[trigger] p.chosen[i] ==> list.take(k).contains(i)
    &&& forall|j: int|
        0 <= j < k ==> p.chosen[#[trigger] list[j]] || promised[list[j]] <= 0 || p.bytes
            + wire_size(packets, list[j]) > budget
}

proof fn lemma_filled(
    packets: Seq<Coded>,
    promised: Seq<int>,
    q: u8,
    budget: int,
    d: int,
    k: int,
)
    requires
        q <= 31,
        in_plane_order(packets, q),
        0 <= d <= q,
        leading_bytes(packets, d) <= budget,
        0 <= k <= ranked_refinements(packets, promised, d).len(),
    ensures
        tried(
            filled_plan(
                chain_plan(packets, promised, d)->0,
                ranked_refinements(packets, promised, d),
                packets,
                promised,
                budget,
                k,
            ),
            packets,
            promised,
            ranked_refinements(packets, promised, d),
            budget,
            d,
            k,
        ),
    decreases k,
{
    let list = ranked_refinements(packets, promised, d);
    let chain = chain_plan(packets, promised, d)->0;
    lemma_chain(packets, promised, q, d);
    lemma_refinements(packets, promised, q, d);
    if k > 0 {
        lemma_filled(packets, promised, q, budget, d, k - 1);
        let before = filled_plan(chain, list, packets, promised, budget, k - 1);
        let p = filled_plan(chain, list, packets, promised, budget, k);
        let i = list[k - 1];
        assert(list.contains(i));
        let first = list.take(k - 1);
        assert(!first.contains(i)) by {
            if first.contains(i) {
                let j = first.index_of(i);
                assert(list[j] == list[k - 1]);
            }
        }
        assert(!before.chosen[i]);
        lemma_sums_update(packets, promised, before.chosen, i, packets.len() as int);
        assert forall|x: int|
            0 <= x < packets.len() && x % 2 == 1 && #[trigger] p.chosen[x] implies list.take(
            k,
        ).contains(x) by {
            if x == i {
                assert(list.take(k)[k - 1] == i);
            } else {
                assert(before.chosen[x]);
                let j = first.index_of(x);
                assert(list.take(k)[j] == x);
            }
        }
        assert forall|x: int| 0 <= x < packets.len() && x % 2 == 0 implies (#[trigger] p.chosen[x]
            <==> x / 2 < d) by {
            assert(p.chosen[x] == before.chosen[x]);
        }
        assert forall|j: int| 0 <= j < k implies p.chosen[#[trigger] list[j]]
            || promised[list[j]] <= 0 || p.bytes + wire_size(packets, list[j]) > budget by {
            assert(list.contains(list[j]));
        }
    } else {
        assert forall|x: int|
            0 <= x < packets.len() && x % 2 == 1 && #[trigger] chain.chosen[x] implies list.take(
            k,
        ).contains(x) by {}
    }
}

/// A choice of packets has the significance packets of the first `d` bit planes
/// and none deeper, and leaves out no refinement of them that would fit and
/// promises anything.
pub open spec fn full_to_depth(
    packets: Seq<Coded>,
    promised: Seq<int>,
    chosen: Seq<bool>,
    budget: int,
    d: int,
) -> bool {
    let n = packets.len() as int;
    &&& forall|i: int| 0 <= i < n && i % 2 == 0 ==> (#[trigger] chosen[i] <==> i / 2 < d)
    &&& forall|i: int| 0 <= i < n && i % 2 == 1 && #[trigger] chosen[i] ==> i / 2 < d
    &&& forall|i: int|
        0 <= i < n && i % 2 == 1 && i / 2 < d && !#[trigger] chosen[i] && promised[i] > 0
            ==> chosen_bytes(packets, chosen, n) + 4 + packets[i].body.len() > budget
}

proof fn lemma_best(
    packets: Seq<Coded>,
    promised: Seq<int>,
    q: u8,
    budget: int,
    k: int,
) -> (depth: int)
    requires
        q <= 31,
        in_plane_order(packets, q),
        0 <= budget,
        0 <= k <= q,
    ensures
        ({
            let p = best_plan(packets, promised, budget, k);
            &&& exact(packets, promised, p)
            &&& p.bytes <= budget
            &&& 0 <= depth <= k
            &&& full_to_depth(packets, promised, p.chosen, budget, depth)
            &&& forall|d: int|
                0 <= d <= k && leading_bytes(packets, d) <= budget ==> p.promise
                    >= #[trigger] leading_promise(promised, d)
        }),
    decreases k,
{
    if k > 0 {
        let before_depth = lemma_best(packets, promised, q, budget, k - 1);
        lemma_chain(packets, promised, q, k);
        let before = best_plan(packets, promised, budget, k - 1);
        let best = best_plan(packets, promised, budget, k);
        if leading_bytes(packets, k) <= budget {
            let list = ranked_refinements(packets, promised, k);
            lemma_refinements(packets, promised, q, k);
            lemma_filled(packets, promised, q, budget, k, list.len() as int);
            let p = filled_plan(
                chain_plan(packets, promised, k)->0,
                list,
                packets,
                promised,
                budget,
                list.len() as int,
            );
            assert(list.take(list.len() as int) =~= list);
            if crate::rd::improves(p, before) {
                assert(best == p);
                assert forall|i: int|
                    0 <= i < packets.len() && i % 2 == 1 && i / 2 < k && !#[trigger] p.chosen[i]
                        && promised[i] > 0 implies p.bytes + wire_size(packets, i) > budget by {
                    assert(list.contains(i));
                    let j = list.index_of(i);
                    assert(list[j] == i);
                }
                k
            } else {
                assert(best == before);
                before_depth
            }
        } else {
            assert(best == before);
            before_depth
        }
    } else {
        lemma_sums_none(packets, promised, packets.len() as int, packets.len() as int);
        0
    }
}

/// **The best plan keeps to the budget and promises the most.** It promises no
/// less than the significance packets of any number of leading bit planes that
/// fit. It has the significance packets of some number of leading bit planes, and
/// every refinement of them that promises anything unless it would not fit.
pub proof fn best_plans_promise_the_most(
    packets: Seq<Coded>,
    promised: Seq<int>,
    q: u8,
    budget: int,
    d: int,
) -> (depth: int)
    requires
        q <= 31,
        in_plane_order(packets, q),
        0 <= budget,
        0 <= d <= q,
    ensures
        ({
            let chosen = best_plan(packets, promised, budget, q as int).chosen;
            let n = packets.len() as int;
            &&& chosen.len() == n
            &&& chosen_bytes(packets, chosen, n) <= budget
            &&& leading_bytes(packets, d) <= budget ==> chosen_promise(promised, chosen, n)
                >= leading_promise(promised, d)
            &&& 0 <= depth <= q
            &&& full_to_depth(packets, promised, chosen, budget, depth)
        }),
{
    let depth = lemma_best(packets, promised, q, budget, q as int);
    assert(leading_promise(promised, d) == leading_promise(promised, d));
    depth
}

/// **The packets that are chosen decode no worse than the best plan, nor than
/// plain truncation.**
pub proof fn choices_match_the_best_plan(
    set: Settings,
    samples: Seq<i32>,
    coeffs: Seq<i32>,
    packets: Seq<Coded>,
    width: usize,
    height: usize,
    q: u8,
    budget: u64,
)
    ensures
        ({
            let c = strip_coding(set, width, height, q);
            let chosen = packets_chosen(set, samples, coeffs, packets, width, height, q, budget);
            let weights = weight_map(width, height, set.levels, set.filter);
            let left = if budget < 12 {
                0
            } else {
                budget - 12
            };
            let best = best_plan(
                packets,
                promises(coeffs, weights, q, packets),
                left,
                q as int,
            ).chosen;
            &&& c.error_of(samples, packets, chosen) <= c.error_of(samples, packets, best)
            &&& c.error_of(samples, packets, chosen) <= c.error_of(
                samples,
                packets,
                truncated_until(packets, left, 2 * q).0,
            )
        }),
{
    let c = strip_coding(set, width, height, q);
    let weights = weight_map(width, height, set.levels, set.filter);
    let left = body_budget(budget);
    choice_is_never_worse(
        c,
        samples,
        packets,
        best_plan(packets, promises(coeffs, weights, q, packets), left, q as int).chosen,
        truncated_until(packets, left, 2 * q).0,
    );
}

// ---------------------------------------------------------------------------
// Promises
// ---------------------------------------------------------------------------

proof fn lemma_between_push(
    coeffs: Seq<i32>,
    weights: Seq<u32>,
    c: i32,
    w: u32,
    low: int,
    high: int,
    k: int,
)
    requires
        coeffs.len() == weights.len(),
        0 <= k <= coeffs.len(),
    ensures
        weight_between(coeffs.push(c), weights.push(w), low, high, k) == weight_between(
            coeffs,
            weights,
            low,
            high,
            k,
        ),
    decreases k,
{
    if k > 0 {
        lemma_between_push(coeffs, weights, c, w, low, high, k - 1);
    }
}

/// **A packet promises what each of its coefficients gives, by its weight.** In
/// bit plane `b`, counted from the lowest, a coefficient whose highest bit lies
/// there gives `8 * 4^b` to the significance packet, one with a higher bit gives
/// `4^b` to the refinement packet, and any other nothing.
pub proof fn promises_add_up(
    coeffs: Seq<i32>,
    weights: Seq<u32>,
    c: i32,
    w: u32,
    q: u8,
    plane: u8,
    is_significance: bool,
)
    requires
        coeffs.len() == weights.len(),
        plane < q <= 31,
    ensures
        ({
            let b = (q - 1 - plane) as nat;
            let m = if c < 0 {
                -c
            } else {
                c as int
            };
            let gives = if is_significance && pow2(b) <= m < pow2(b + 1) {
                8 * (pow2(2 * b) * w as int)
            } else if !is_significance && pow2(b + 1) <= m {
                pow2(2 * b) * w as int
            } else {
                0
            };
            promise_of(coeffs.push(c), weights.push(w), q, plane, is_significance) == promise_of(
                coeffs,
                weights,
                q,
                plane,
                is_significance,
            ) + gives
        }),
        promise_of(Seq::empty(), Seq::empty(), q, plane, is_significance) == 0,
{
    let b = (q - 1 - plane) as nat;
    let low = pow2(b) as int;
    let step = pow2(2 * b) as int;
    let n = coeffs.len() as int;
    let m = if c < 0 {
        -c
    } else {
        c as int
    };
    vstd::arithmetic::power2::lemma_pow2_unfold(b + 1);
    assert(pow2(b + 1) == 2 * low);
    let (from, to) = if is_significance {
        (low, 2 * low)
    } else {
        (2 * low, 0x1_0000_0000int)
    };
    lemma_between_push(coeffs, weights, c, w, from, to, n);
    let before = weight_between(coeffs, weights, from, to, n);
    let after = weight_between(coeffs.push(c), weights.push(w), from, to, n + 1);
    assert(crate::scan::magnitude_of(c) == m);
    let more = if from <= m < to {
        w as int
    } else {
        0
    };
    assert(after == before + more);
    assert(step * (before + more) == step * before + step * more) by (nonlinear_arith);
    assert(8 * step * (before + more) == 8 * step * before + 8 * (step * more))
        by (nonlinear_arith);
    assert(step * 0 == 0 && 8 * step * 0 == 0) by (nonlinear_arith);
}

} // verus!
