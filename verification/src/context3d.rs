//! Context selection of the hyperspectral coder. The context of a bit comes
//! from the two neighbours of its coefficient in the spectral direction: their
//! categories for a magnitude bit, their signs for a sign bit.

use crate::context::{fresh_counts, ContextModel};
use vstd::prelude::*;

verus! {

/// Number of contexts: 9 for category 0, 3 for category 1, 2 for category 2
/// and 5 for signs.
pub const CONTEXT_COUNT_3D: usize = 19;

/// First context of category 1.
pub const CTX_CAT1_BASE: usize = 9;

/// First context of category 2.
pub const CTX_CAT2_BASE: usize = 12;

/// First context of signs.
pub const CTX_SIGN_BASE: usize = 14;

/// A fresh model with the contexts of the hyperspectral coder.
pub fn new_model() -> (m: ContextModel)
    ensures
        m.wf(),
        m@ == fresh_counts(CONTEXT_COUNT_3D as nat),
{
    ContextModel::with_contexts(CONTEXT_COUNT_3D)
}

/// Category of a neighbour as the tables see it: 0, 1, or 2 and more.
pub open spec fn category_class(c: u8) -> int {
    if c < 2 {
        c as int
    } else {
        2
    }
}

/// Context of a magnitude bit in category 0, 1 or 2, from the categories of
/// the previous and of the next spectral neighbour.
pub open spec fn category_context(category: u8, c_minus: u8, c_plus: u8) -> int {
    if category == 0 {
        3 * category_class(c_plus) + category_class(c_minus)
    } else if category == 1 {
        if c_minus < 2 {
            CTX_CAT1_BASE as int
        } else {
            CTX_CAT1_BASE + category_class(c_plus)
        }
    } else if c_minus >= 2 && c_plus >= 2 {
        CTX_CAT2_BASE + 1
    } else {
        CTX_CAT2_BASE as int
    }
}

fn cls(c: u8) -> (k: usize)
    ensures
        k == category_class(c),
        k <= 2,
{
    if c < 2 {
        c as usize
    } else {
        2
    }
}

/// Context of a magnitude bit of a coefficient in category 0.
pub fn category0_context(c_minus: u8, c_plus: u8) -> (ctx: usize)
    ensures
        ctx == category_context(0, c_minus, c_plus),
        ctx < CTX_CAT1_BASE,
{
    3 * cls(c_plus) + cls(c_minus)
}

/// Context of a magnitude bit of a coefficient in category 1.
pub fn category1_context(c_minus: u8, c_plus: u8) -> (ctx: usize)
    ensures
        ctx == category_context(1, c_minus, c_plus),
        CTX_CAT1_BASE <= ctx < CTX_CAT2_BASE,
{
    if c_minus < 2 {
        CTX_CAT1_BASE
    } else {
        CTX_CAT1_BASE + cls(c_plus)
    }
}

/// Context of a magnitude bit of a coefficient in category 2.
pub fn category2_context(c_minus: u8, c_plus: u8) -> (ctx: usize)
    ensures
        ctx == category_context(2, c_minus, c_plus),
        CTX_CAT2_BASE <= ctx < CTX_SIGN_BASE,
{
    if c_minus >= 2 && c_plus >= 2 {
        CTX_CAT2_BASE + 1
    } else {
        CTX_CAT2_BASE
    }
}

/// Sign of a spectral neighbour.
#[derive(Debug, Clone, Copy, PartialEq, Eq, Structural)]
pub enum NeighbourSign {
    /// Not known: the neighbour has no coded one, or does not exist.
    Unknown,
    /// Positive.
    Positive,
    /// Negative.
    Negative,
}

/// The sign with its polarity reversed.
pub open spec fn opposite(s: NeighbourSign) -> NeighbourSign {
    match s {
        NeighbourSign::Unknown => NeighbourSign::Unknown,
        NeighbourSign::Positive => NeighbourSign::Negative,
        NeighbourSign::Negative => NeighbourSign::Positive,
    }
}

/// Predicted sign (`true` is negative) and context of a sign bit, from the
/// signs of the previous and of the next spectral neighbour.
pub open spec fn sign_rule(s_minus: NeighbourSign, s_plus: NeighbourSign) -> (bool, usize) {
    match (s_minus, s_plus) {
        (NeighbourSign::Positive, NeighbourSign::Positive) => (false, 18),
        (NeighbourSign::Positive, NeighbourSign::Unknown) => (false, 17),
        (NeighbourSign::Positive, NeighbourSign::Negative) => (false, 15),
        (NeighbourSign::Unknown, NeighbourSign::Positive) => (false, 16),
        (NeighbourSign::Unknown, NeighbourSign::Unknown) => (false, 14),
        (NeighbourSign::Unknown, NeighbourSign::Negative) => (true, 16),
        (NeighbourSign::Negative, NeighbourSign::Positive) => (true, 15),
        (NeighbourSign::Negative, NeighbourSign::Unknown) => (true, 17),
        (NeighbourSign::Negative, NeighbourSign::Negative) => (true, 18),
    }
}

/// Predicted sign (`true` is negative) and context of a sign bit.
pub fn sign_prediction_and_context(s_minus: NeighbourSign, s_plus: NeighbourSign) -> (r: (
    bool,
    usize,
))
    ensures
        r == sign_rule(s_minus, s_plus),
        CTX_SIGN_BASE <= r.1 < CONTEXT_COUNT_3D,
{
    let (neg, letter): (bool, usize) = match (s_minus, s_plus) {
        (NeighbourSign::Positive, NeighbourSign::Positive) => (false, 4),
        (NeighbourSign::Positive, NeighbourSign::Unknown) => (false, 3),
        (NeighbourSign::Positive, NeighbourSign::Negative) => (false, 1),
        (NeighbourSign::Unknown, NeighbourSign::Positive) => (false, 2),
        (NeighbourSign::Unknown, NeighbourSign::Unknown) => (false, 0),
        (NeighbourSign::Unknown, NeighbourSign::Negative) => (true, 2),
        (NeighbourSign::Negative, NeighbourSign::Positive) => (true, 1),
        (NeighbourSign::Negative, NeighbourSign::Unknown) => (true, 3),
        (NeighbourSign::Negative, NeighbourSign::Negative) => (true, 4),
    };
    (neg, CTX_SIGN_BASE + letter)
}

/// **One set of statistics serves both polarities.** Reversing both
/// neighbours keeps the context, and reverses the prediction unless nothing is
/// known of either.
pub proof fn sign_rule_is_antisymmetric(s_minus: NeighbourSign, s_plus: NeighbourSign)
    ensures
        sign_rule(opposite(s_minus), opposite(s_plus)).1 == sign_rule(s_minus, s_plus).1,
        !(s_minus is Unknown && s_plus is Unknown) ==> sign_rule(
            opposite(s_minus),
            opposite(s_plus),
        ).0 == !sign_rule(s_minus, s_plus).0,
{
}

/// **The contexts of the four kinds of bits do not overlap.**
pub proof fn context_ranges_are_disjoint(
    c_minus: u8,
    c_plus: u8,
    s_minus: NeighbourSign,
    s_plus: NeighbourSign,
)
    ensures
        0 <= category_context(0, c_minus, c_plus) < CTX_CAT1_BASE,
        CTX_CAT1_BASE <= category_context(1, c_minus, c_plus) < CTX_CAT2_BASE,
        CTX_CAT2_BASE <= category_context(2, c_minus, c_plus) < CTX_SIGN_BASE,
        CTX_SIGN_BASE <= sign_rule(s_minus, s_plus).1 < CONTEXT_COUNT_3D,
{
}

} // verus!
