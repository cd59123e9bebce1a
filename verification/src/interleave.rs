//! The interleaved entropy coder.
//!
//! A bit goes to the bin of its probability, turned around where a one is the
//! likelier. A bin gathers bits into an input codeword of its component code.
//! The stream holds the output codewords of all bins in the order in which
//! their input codewords were begun. So a decoder that needs a bit of a bin
//! finds the next codeword of that bin right where it stands.

use crate::arith::{bit_or_zero, channel_bit, kept_symbol, lemma_pack_reads_back, pack, probabilities, Decision};
use crate::bin_codes::{bin_codes_are_sound, in_tree, is_word, sound, MAX_WORD};
use crate::ixec::{bin_code, bin_for_probability, bin_from, binary, codewords_are_found_again, copy_bits, golomb_code, GOLOMB_DIGITS, lemma_digits, golomb_codes_are_prefix_free, int_to_bits, is_ceil_log2, lemma_binary_len, lookup, outputs, pairs_view, shorthand_of, starts_with, zeros, CodePairs, ComponentCode, GOLOMB_PARAMETERS};
use vstd::prelude::*;
use vstd::arithmetic::power2::{lemma_pow2_pos, lemma_pow2_unfold, pow2};

verus! {

// ---------------------------------------------------------------------------
// Codes of the bins
// ---------------------------------------------------------------------------

/// The first codeword from `i` on that is `bits`.
pub open spec fn find_word(code: CodePairs, bits: Seq<bool>, i: int) -> Option<int>
    decreases code.len() - i,
{
    if i >= code.len() {
        None
    } else if code[i].0 == bits {
        Some(i)
    } else {
        find_word(code, bits, i + 1)
    }
}

/// The first codeword from `i` on that begins with `bits`.
pub open spec fn find_start(code: CodePairs, bits: Seq<bool>, i: int) -> Option<int>
    decreases code.len() - i,
{
    if i >= code.len() {
        None
    } else if starts_with(code[i].0, bits) {
        Some(i)
    } else {
        find_start(code, bits, i + 1)
    }
}

/// The codeword that stands for `bits`: the one that they are, or else the
/// first one that begins with them.
pub open spec fn word_for(code: CodePairs, bits: Seq<bool>) -> Option<int> {
    match find_word(code, bits, 0) {
        Some(i) => Some(i),
        None => find_start(code, bits, 0),
    }
}

proof fn lemma_find_word(code: CodePairs, bits: Seq<bool>, i: int)
    requires
        0 <= i,
    ensures
        find_word(code, bits, i) matches Some(k) ==> i <= k < code.len() && code[k].0 == bits,
        find_word(code, bits, i) is None ==> forall|k: int|
            i <= k < code.len() ==> #[trigger] code[k].0 != bits,
    decreases code.len() - i,
{
    if i < code.len() && code[i].0 != bits {
        lemma_find_word(code, bits, i + 1);
    }
}

proof fn lemma_find_start(code: CodePairs, bits: Seq<bool>, i: int)
    requires
        0 <= i,
    ensures
        find_start(code, bits, i) matches Some(k) ==> i <= k < code.len() && starts_with(
            code[k].0,
            bits,
        ),
        find_start(code, bits, i) is None ==> forall|k: int|
            i <= k < code.len() ==> !starts_with(#[trigger] code[k].0, bits),
    decreases code.len() - i,
{
    if i < code.len() && !starts_with(code[i].0, bits) {
        lemma_find_start(code, bits, i + 1);
    }
}

/// Bits on the way to a codeword have one that stands for them.
proof fn lemma_word_for(code: CodePairs, bits: Seq<bool>)
    requires
        in_tree(code, bits),
    ensures
        word_for(code, bits) is Some,
        ({
            let i = word_for(code, bits)->0;
            &&& 0 <= i < code.len()
            &&& starts_with(code[i].0, bits)
            &&& is_word(code, bits) ==> code[i].0 == bits
        }),
{
    lemma_find_word(code, bits, 0);
    lemma_find_start(code, bits, 0);
    let k = choose|k: int| 0 <= k < code.len() && starts_with(#[trigger] code[k].0, bits);
    assert(starts_with(code[k].0, bits));
    if find_word(code, bits, 0) is Some {
        assert(bits.take(bits.len() as int) =~= bits);
    }
    if is_word(code, bits) {
        let e = choose|e: int| 0 <= e < code.len() && #[trigger] code[e].0 == bits;
        assert(code[e].0 == bits);
    }
}

/// As long as bits are no codeword, either bit leads on.
proof fn lemma_leads_on(code: CodePairs, bits: Seq<bool>, b: bool)
    requires
        sound(code),
        bits.len() == 0 || in_tree(code, bits) && !is_word(code, bits),
    ensures
        in_tree(code, bits.push(b)),
{
    if bits.len() == 0 {
        assert(code[0].0.len() >= 1);
        assert(in_tree(code, code[0].0.take(0).push(b)));
        assert(code[0].0.take(0).push(b) =~= bits.push(b));
    } else {
        let i = choose|i: int| 0 <= i < code.len() && starts_with(#[trigger] code[i].0, bits);
        let k = bits.len() as int;
        assert(code[i].0.take(k) == bits);
        if k == code[i].0.len() {
            assert(code[i].0 =~= bits);
        }
        assert(in_tree(code, code[i].0.take(k).push(b)));
    }
}

// ---------------------------------------------------------------------------
// Interleaving
// ---------------------------------------------------------------------------

/// A one is likelier than a zero.
pub open spec fn turned(p1_num: u32, p1_den: u32) -> bool {
    2 * p1_num > p1_den
}

/// The bin of a bit.
pub open spec fn bin_of(p1_num: u32, p1_den: u32) -> int {
    if turned(p1_num, p1_den) {
        bin_from(1, p1_num as int, p1_den as int)
    } else {
        bin_from(1, p1_den - p1_num, p1_den as int)
    }
}

/// The bit that a bin gets for a decision.
pub open spec fn fed(d: Decision) -> bool {
    (kept_symbol(d.symbol) == 1) != turned(d.p1_num, d.p1_den)
}

/// An input codeword that was begun.
pub struct Slot {
    /// Its bin.
    pub bin: int,
    /// Its bits so far.
    pub bits: Seq<bool>,
}

/// The encoder: all codewords that were begun, in order, and for each bin the
/// one that is not complete.
pub struct Interleaving {
    /// The codewords.
    pub slots: Seq<Slot>,
    /// For each bin the number of the codeword that is not complete.
    pub open: Seq<Option<int>>,
}

/// The encoder at the start.
pub open spec fn no_slots() -> Interleaving {
    Interleaving { slots: Seq::empty(), open: Seq::new(18, |j: int| None) }
}

/// The codeword that the next bit of bin `j` goes to.
pub open spec fn slot_for(st: Interleaving, j: int) -> int {
    match st.open[j] {
        Some(i) => i,
        None => st.slots.len() as int,
    }
}

/// The codewords after a bit for bin `j`.
pub open spec fn slots_after(st: Interleaving, j: int, bit: bool) -> Seq<Slot> {
    match st.open[j] {
        Some(i) => st.slots.update(i, Slot { bin: j, bits: st.slots[i].bits.push(bit) }),
        None => st.slots.push(Slot { bin: j, bits: seq![bit] }),
    }
}

/// The encoder after a bit for bin `j`.
pub open spec fn placed(st: Interleaving, j: int, bit: bool) -> Interleaving {
    let i = slot_for(st, j);
    let slots = slots_after(st, j, bit);
    Interleaving {
        slots,
        open: st.open.update(
            j,
            if is_word(bin_code(j), slots[i].bits) {
                None
            } else {
                Some(i)
            },
        ),
    }
}

/// The encoder after decisions.
pub open spec fn interleaved(decisions: Seq<Decision>) -> Interleaving
    decreases decisions.len(),
{
    if decisions.len() == 0 {
        no_slots()
    } else {
        let d = decisions.last();
        placed(interleaved(decisions.drop_last()), bin_of(d.p1_num, d.p1_den), fed(d))
    }
}

/// The output codeword of a slot.
pub open spec fn slot_output(s: Slot) -> Seq<bool> {
    bin_code(s.bin)[word_for(bin_code(s.bin), s.bits)->0].1
}

/// The output codewords of the first `k` slots.
pub open spec fn output_bits(slots: Seq<Slot>, k: int) -> Seq<bool>
    decreases k,
{
    if k <= 0 {
        Seq::empty()
    } else {
        output_bits(slots, k - 1) + slot_output(slots[k - 1])
    }
}

/// The byte stream of decisions.
pub open spec fn interleaved_encoded(decisions: Seq<Decision>) -> Seq<u8> {
    let slots = interleaved(decisions).slots;
    pack(output_bits(slots, slots.len() as int))
}

/// The decoder: where it stands in the stream, and for each bin the bits that
/// are left of its codeword.
pub struct Gathering {
    /// Bits of the stream that were read.
    pub pos: int,
    /// For each bin the bits that are left.
    pub left: Seq<Seq<bool>>,
}

/// The decoder at the start.
pub open spec fn nothing_gathered() -> Gathering {
    Gathering { pos: 0, left: Seq::new(18, |j: int| Seq::empty()) }
}

/// The next bits of the stream.
pub open spec fn upcoming(bytes: Seq<u8>, pos: int) -> Seq<bool> {
    Seq::new(MAX_WORD as nat, |i: int| channel_bit(bytes, pos + i))
}

/// The decoder with a bit for bin `j`: it reads the next codeword where none
/// is left.
pub open spec fn supplied(bytes: Seq<u8>, st: Gathering, j: int) -> Gathering {
    if st.left[j].len() > 0 {
        st
    } else {
        match lookup(outputs(bin_code(j)), upcoming(bytes, st.pos)) {
            Some(i) => Gathering {
                pos: st.pos + bin_code(j)[i].1.len(),
                left: st.left.update(j, bin_code(j)[i].0),
            },
            None => st,
        }
    }
}

/// The next bit of bin `j`.
pub open spec fn next_bit(st: Gathering, j: int) -> bool {
    st.left[j].len() > 0 && st.left[j][0]
}

/// The decoder after the next bit of bin `j`.
pub open spec fn taken(st: Gathering, j: int) -> Gathering {
    if st.left[j].len() > 0 {
        Gathering { left: st.left.update(j, st.left[j].skip(1)), ..st }
    } else {
        st
    }
}

/// The decoder after questions.
pub open spec fn gathered(bytes: Seq<u8>, asked: Seq<(u32, u32)>) -> Gathering
    decreases asked.len(),
{
    if asked.len() == 0 {
        nothing_gathered()
    } else {
        let (n, d) = asked.last();
        let j = bin_of(n, d);
        taken(supplied(bytes, gathered(bytes, asked.drop_last()), j), j)
    }
}

/// The symbol of a decoder over `bytes` that is asked with `p1_num / p1_den`
/// after it was asked with `asked`.
pub open spec fn interleaved_decoded(
    bytes: Seq<u8>,
    asked: Seq<(u32, u32)>,
    p1_num: u32,
    p1_den: u32,
) -> u8 {
    let j = bin_of(p1_num, p1_den);
    if next_bit(supplied(bytes, gathered(bytes, asked), j), j) != turned(p1_num, p1_den) {
        1
    } else {
        0
    }
}

// ---------------------------------------------------------------------------
// Decoding inverts encoding
// ---------------------------------------------------------------------------

proof fn lemma_bin_range(j: int, p_num: int, p_den: int)
    requires
        1 <= j <= 17,
    ensures
        j <= bin_from(j, p_num, p_den) <= 17,
    decreases 17 - j,
{
    if j < 17 {
        lemma_bin_range(j + 1, p_num, p_den);
    }
}

pub proof fn lemma_bin_of(p1_num: u32, p1_den: u32)
    ensures
        1 <= bin_of(p1_num, p1_den) <= 17,
{
    lemma_bin_range(1, p1_num as int, p1_den as int);
    lemma_bin_range(1, p1_den - p1_num, p1_den as int);
}

/// Every codeword is on its way or complete, and those that are not complete
/// are the open ones.
pub open spec fn orderly(st: Interleaving) -> bool {
    &&& st.open.len() == 18
    &&& forall|i: int|
        0 <= i < st.slots.len() ==> {
            let s = #[trigger] st.slots[i];
            &&& 1 <= s.bin <= 17
            &&& s.bits.len() >= 1
            &&& in_tree(bin_code(s.bin), s.bits)
            &&& st.open[s.bin] == Some(i) || is_word(bin_code(s.bin), s.bits)
        }
    &&& forall|j: int|
        1 <= j <= 17 ==> ((#[trigger] st.open[j]) matches Some(i) ==> {
            &&& 0 <= i < st.slots.len()
            &&& st.slots[i].bin == j
            &&& !is_word(bin_code(j), st.slots[i].bits)
        })
}

proof fn lemma_placed(st: Interleaving, j: int, bit: bool)
    requires
        orderly(st),
        1 <= j <= 17,
    ensures
        orderly(placed(st, j, bit)),
        ({
            let after = placed(st, j, bit);
            let i = slot_for(st, j);
            &&& st.slots.len() <= after.slots.len() <= st.slots.len() + 1
            &&& 0 <= i < after.slots.len()
            &&& after.slots[i].bin == j
            &&& forall|k: int|
                0 <= k < st.slots.len() && k != i ==> #[trigger] after.slots[k] == st.slots[k]
        }),
{
    let i = slot_for(st, j);
    let after = placed(st, j, bit);
    let code = bin_code(j);
    bin_codes_are_sound(j);
    let bits = after.slots[i].bits;
    if st.open[j] is Some {
        assert(st.slots[i].bin == j);
        lemma_leads_on(code, st.slots[i].bits, bit);
    } else {
        lemma_leads_on(code, Seq::empty(), bit);
        assert(Seq::<bool>::empty().push(bit) =~= seq![bit]);
    }
    assert forall|k: int| 0 <= k < after.slots.len() implies {
        let s = #[trigger] after.slots[k];
        &&& 1 <= s.bin <= 17
        &&& s.bits.len() >= 1
        &&& in_tree(bin_code(s.bin), s.bits)
        &&& after.open[s.bin] == Some(k) || is_word(bin_code(s.bin), s.bits)
    } by {
        if k != i {
            let s = st.slots[k];
            assert(after.slots[k] == s);
            if s.bin == j {
                assert(st.open[j] != Some(k));
            }
        }
    }
    assert forall|e: int| 1 <= e <= 17 implies ((#[trigger] after.open[e]) matches Some(k) ==> {
        &&& 0 <= k < after.slots.len()
        &&& after.slots[k].bin == e
        &&& !is_word(bin_code(e), after.slots[k].bits)
    }) by {
        if e != j {
            assert(after.open[e] == st.open[e]);
            if let Some(k) = st.open[e] {
                assert(st.slots[k].bin == e);
                assert(k != i);
            }
        }
    }
}

pub proof fn lemma_orderly(decisions: Seq<Decision>)
    ensures
        orderly(interleaved(decisions)),
    decreases decisions.len(),
{
    if decisions.len() > 0 {
        let d = decisions.last();
        lemma_orderly(decisions.drop_last());
        lemma_bin_of(d.p1_num, d.p1_den);
        lemma_placed(
            interleaved(decisions.drop_last()),
            bin_of(d.p1_num, d.p1_den),
            fed(d),
        );
    }
}

/// Codewords only grow, and complete ones stay.
proof fn lemma_slots_grow(decisions: Seq<Decision>, k: int, i: int)
    requires
        0 <= k <= decisions.len(),
        0 <= i < interleaved(decisions.take(k)).slots.len(),
    ensures
        ({
            let a = interleaved(decisions.take(k));
            let z = interleaved(decisions);
            let s = a.slots[i];
            &&& a.slots.len() <= z.slots.len()
            &&& z.slots[i].bin == s.bin
            &&& starts_with(z.slots[i].bits, s.bits)
            &&& a.open[s.bin] != Some(i) ==> z.slots[i] == s && z.open[s.bin] != Some(i)
        }),
    decreases decisions.len(),
{
    let a = interleaved(decisions.take(k));
    let z = interleaved(decisions);
    let n = decisions.len() as int;
    if k == n {
        assert(decisions.take(k) =~= decisions);
        assert(z.slots[i].bits.take(z.slots[i].bits.len() as int) =~= z.slots[i].bits);
    } else {
        let front = decisions.drop_last();
        assert(front.take(k) =~= decisions.take(k));
        lemma_slots_grow(front, k, i);
        lemma_orderly(front);
        let y = interleaved(front);
        let d = decisions.last();
        let j = bin_of(d.p1_num, d.p1_den);
        lemma_bin_of(d.p1_num, d.p1_den);
        lemma_placed(y, j, fed(d));
        let s = a.slots[i];
        assert(y.slots[i].bin == s.bin);
        if slot_for(y, j) == i {
            assert(y.open[j] == Some(i));
            assert(y.slots[i].bin == j);
            let more = y.slots[i].bits.push(fed(d));
            assert(z.slots[i].bits == more);
            assert(more.take(s.bits.len() as int) =~= y.slots[i].bits.take(s.bits.len() as int));
        } else {
            assert(z.slots[i] == y.slots[i]);
            if a.open[s.bin] != Some(i) {
                assert(y.open[s.bin] != Some(i));
            }
        }
    }
}

proof fn lemma_output_prefix(slots: Seq<Slot>, k: int, n: int)
    requires
        0 <= k <= n,
    ensures
        output_bits(slots, k).len() <= output_bits(slots, n).len(),
        output_bits(slots, k) == output_bits(slots, n).take(output_bits(slots, k).len() as int),
    decreases n - k,
{
    let a = output_bits(slots, k);
    let z = output_bits(slots, n);
    if k == n {
        assert(z.take(a.len() as int) =~= a);
    } else {
        lemma_output_prefix(slots, k, n - 1);
        let y = output_bits(slots, n - 1);
        assert(z.take(a.len() as int) =~= y.take(a.len() as int));
    }
}

/// The input codeword that slot `i` stands for in the end.
spec fn final_word(slots: Seq<Slot>, i: int) -> Seq<bool> {
    let code = bin_code(slots[i].bin);
    code[word_for(code, slots[i].bits)->0].0
}

/// The decoder follows the encoder after `k` decisions.
spec fn follows(decisions: Seq<Decision>, k: int) -> bool {
    let st = interleaved(decisions.take(k));
    let slots = interleaved(decisions).slots;
    let g = gathered(interleaved_encoded(decisions), probabilities(decisions.take(k)));
    &&& g.left.len() == 18
    &&& g.pos == output_bits(slots, st.slots.len() as int).len()
    &&& forall|j: int|
        1 <= j <= 17 ==> #[trigger] g.left[j] == (match st.open[j] {
            Some(i) => final_word(slots, i).skip(st.slots[i].bits.len() as int),
            None => Seq::empty(),
        })
}

/// The stream holds the output codeword of slot `i` where the decoder looks
/// for it.
proof fn lemma_word_read(decisions: Seq<Decision>, i: int)
    requires
        0 <= i < interleaved(decisions).slots.len(),
    ensures
        ({
            let slots = interleaved(decisions).slots;
            let code = bin_code(slots[i].bin);
            let bytes = interleaved_encoded(decisions);
            lookup(outputs(code), upcoming(bytes, output_bits(slots, i).len() as int)) == Some(
                word_for(code, slots[i].bits)->0,
            )
        }),
{
    let slots = interleaved(decisions).slots;
    let n = slots.len() as int;
    let code = bin_code(slots[i].bin);
    let bits = output_bits(slots, n);
    let bytes = pack(bits);
    let pos = output_bits(slots, i).len() as int;
    lemma_orderly(decisions);
    assert(in_tree(code, slots[i].bits));
    bin_codes_are_sound(slots[i].bin);
    lemma_word_for(code, slots[i].bits);
    let w = word_for(code, slots[i].bits)->0;
    let out = code[w].1;
    lemma_output_prefix(slots, i + 1, n);
    let next = upcoming(bytes, pos);
    let mine = output_bits(slots, i + 1);
    assert forall|e: int| 0 <= e < out.len() implies next[e] == out[e] by {
        assert(code[w].1.len() <= MAX_WORD);
        lemma_pack_reads_back(bits, pos + e);
        assert(mine[pos + e] == out[e]);
        assert(bits.take(mine.len() as int)[pos + e] == bits[pos + e]);
    }
    assert(code[w].1.len() <= MAX_WORD);
    let rest = next.skip(out.len() as int);
    assert(out + rest =~= next);
    codewords_are_found_again(code, w, rest);
}

proof fn lemma_follows(decisions: Seq<Decision>, k: int)
    requires
        0 <= k <= decisions.len(),
    ensures
        follows(decisions, k),
        k < decisions.len() ==> interleaved_decoded(
            interleaved_encoded(decisions),
            probabilities(decisions.take(k)),
            decisions[k].p1_num,
            decisions[k].p1_den,
        ) == kept_symbol(decisions[k].symbol),
    decreases k,
{
    let bytes = interleaved_encoded(decisions);
    let slots = interleaved(decisions).slots;
    if k == 0 {
        assert(decisions.take(0) =~= Seq::empty());
        assert(probabilities(decisions.take(0)) =~= Seq::empty());
    } else {
        lemma_follows(decisions, k - 1);
        lemma_step(decisions, k - 1);
        let asked = probabilities(decisions.take(k));
        assert(asked.drop_last() =~= probabilities(decisions.take(k - 1)));
        assert(decisions.take(k).drop_last() =~= decisions.take(k - 1));
    }
    if k < decisions.len() {
        lemma_step(decisions, k);
    }
}

/// One decision: the decoder answers with its bit, and follows on.
proof fn lemma_step(decisions: Seq<Decision>, k: int)
    requires
        0 <= k < decisions.len(),
        follows(decisions, k),
    ensures
        ({
            let bytes = interleaved_encoded(decisions);
            let d = decisions[k];
            let j = bin_of(d.p1_num, d.p1_den);
            let g = supplied(bytes, gathered(bytes, probabilities(decisions.take(k))), j);
            &&& next_bit(g, j) == fed(d)
            &&& {
                let st = interleaved(decisions.take(k + 1));
                let slots = interleaved(decisions).slots;
                let t = taken(g, j);
                &&& t.left.len() == 18
                &&& t.pos == output_bits(slots, st.slots.len() as int).len()
                &&& forall|e: int|
                    1 <= e <= 17 ==> #[trigger] t.left[e] == (match st.open[e] {
                        Some(i) => final_word(slots, i).skip(st.slots[i].bits.len() as int),
                        None => Seq::empty(),
                    })
            }
        }),
{
    let bytes = interleaved_encoded(decisions);
    let d = decisions[k];
    let j = bin_of(d.p1_num, d.p1_den);
    let bit = fed(d);
    lemma_bin_of(d.p1_num, d.p1_den);
    let a = interleaved(decisions.take(k));
    let z = interleaved(decisions.take(k + 1));
    let slots = interleaved(decisions).slots;
    assert(decisions.take(k + 1).drop_last() =~= decisions.take(k));
    assert(decisions.take(k + 1).last() == d);
    assert(z == placed(a, j, bit));
    lemma_orderly(decisions.take(k));
    lemma_orderly(decisions.take(k + 1));
    lemma_orderly(decisions);
    lemma_placed(a, j, bit);
    let i = slot_for(a, j);
    let n = z.slots[i].bits.len() as int;
    lemma_slots_grow(decisions, k + 1, i);
    let code = bin_code(j);
    assert(slots[i].bin == j);
    lemma_word_for(code, slots[i].bits);
    let word = final_word(slots, i);
    assert(starts_with(word, slots[i].bits));
    assert(word[n - 1] == bit) by {
        assert(z.slots[i].bits[n - 1] == bit);
        assert(slots[i].bits.take(n)[n - 1] == slots[i].bits[n - 1]);
        assert(word.take(slots[i].bits.len() as int)[n - 1] == word[n - 1]);
    }
    let g0 = gathered(bytes, probabilities(decisions.take(k)));
    let g = supplied(bytes, g0, j);
    if a.open[j] is Some {
        assert(g0.left[j] == word.skip(n - 1));
        assert(g0.left[j].len() > 0);
        assert(g == g0);
    } else {
        assert(g0.left[j].len() == 0);
        assert(i == a.slots.len());
        lemma_word_read(decisions, i);
        assert(g.left[j] == word);
        assert(n == 1);
        assert(word.skip(0) =~= word);
    }
    assert(g.left[j] == word.skip(n - 1));
    let t = taken(g, j);
    assert(word.skip(n - 1).skip(1) =~= word.skip(n));
    if z.open[j] is None {
        // the codeword is complete, and stays as it is
        assert(z.open[j] != Some(i));
        assert(slots[i] == z.slots[i]);
        assert(is_word(code, slots[i].bits));
        assert(word == slots[i].bits);
        assert(word.skip(n) =~= Seq::empty());
    }
    assert forall|e: int| 1 <= e <= 17 implies #[trigger] t.left[e] == (match z.open[e] {
        Some(x) => final_word(slots, x).skip(z.slots[x].bits.len() as int),
        None => Seq::empty(),
    }) by {
        if e != j {
            assert(t.left[e] == g0.left[e]);
            assert(z.open[e] == a.open[e]);
            if let Some(x) = a.open[e] {
                assert(a.slots[x].bin == e);
                assert(x != i);
                assert(z.slots[x] == a.slots[x]);
            }
        }
    }
}

/// **Decoding inverts encoding.** A decoder over the byte stream of an encoder
/// that was given `decisions`, asked with the same probabilities in the same
/// order, returns the symbol of every decision.
pub proof fn gathering_inverts_interleaving(decisions: Seq<Decision>, k: int)
    requires
        0 <= k < decisions.len(),
    ensures
        interleaved_decoded(
            interleaved_encoded(decisions),
            probabilities(decisions.take(k)),
            decisions[k].p1_num,
            decisions[k].p1_den,
        ) == kept_symbol(decisions[k].symbol),
{
    lemma_follows(decisions, k);
}

// ---------------------------------------------------------------------------
// Component codes at work
// ---------------------------------------------------------------------------

/// The codes of the bins, as far as they are tables.
struct Codes {
    tables: Vec<ComponentCode>,
}

fn equal_bits(a: &Vec<bool>, b: &Vec<bool>) -> (r: bool)
    ensures
        r == (a@ == b@),
{
    if a.len() != b.len() {
        return false;
    }
    let mut i: usize = 0;
    while i < a.len()
        invariant
            i <= a@.len() == b@.len(),
            forall|k: int| 0 <= k < i ==> a@[k] == b@[k],
        decreases a@.len() - i,
    {
        if a[i] != b[i] {
            return false;
        }
        i = i + 1;
    }
    assert(a@ =~= b@);
    true
}

/// Whether `word` begins with `bits`.
fn begins(word: &Vec<bool>, bits: &Vec<bool>) -> (r: bool)
    ensures
        r == starts_with(word@, bits@),
{
    if bits.len() > word.len() {
        return false;
    }
    let mut i: usize = 0;
    while i < bits.len()
        invariant
            i <= bits@.len() <= word@.len(),
            forall|k: int| 0 <= k < i ==> word@[k] == bits@[k],
        decreases bits@.len() - i,
    {
        if word[i] != bits[i] {
            assert(word@.take(bits@.len() as int)[i as int] != bits@[i as int]);
            return false;
        }
        i = i + 1;
    }
    assert(word@.take(bits@.len() as int) =~= bits@);
    true
}

impl Codes {
    spec fn wf(self) -> bool {
        &&& self.tables@.len() == 8
        &&& forall|j: int| 0 <= j < 8 ==> (#[trigger] self.tables@[j])@ == bin_code(j + 1)
    }

    fn new() -> (c: Self)
        ensures
            c.wf(),
    {
        let mut tables: Vec<ComponentCode> = Vec::new();
        tables.push(ComponentCode::uncoded());
        let mut j: usize = 2;
        while j <= 8
            invariant
                2 <= j <= 9,
                tables@.len() == j - 1,
                forall|e: int| 0 <= e < j - 1 ==> (#[trigger] tables@[e])@ == bin_code(e + 1),
            decreases 9 - j,
        {
            tables.push(ComponentCode::from_shorthand(shorthand_of(j)));
            j = j + 1;
        }
        Codes { tables }
    }

    /// Whether bits on the way to a codeword of bin `j` are one.
    fn completes(&self, j: u8, bits: &Vec<bool>) -> (r: bool)
        requires
            self.wf(),
            1 <= j <= 17,
            bits@.len() >= 1,
            in_tree(bin_code(j as int), bits@),
        ensures
            r == is_word(bin_code(j as int), bits@),
    {
        let ghost code = bin_code(j as int);
        if j <= 8 {
            let table = &self.tables[j as usize - 1];
            assert(table@ == code);
            let pairs = table.pairs();
            let mut i: usize = 0;
            while i < pairs.len()
                invariant
                    i <= pairs@.len(),
                    pairs_view(pairs@) == code,
                    code == bin_code(j as int),
                    forall|k: int| 0 <= k < i ==> #[trigger] code[k].0 != bits@,
                decreases pairs@.len() - i,
            {
                assert(code[i as int].0 == pairs@[i as int].0@);
                if equal_bits(&pairs[i].0, bits) {
                    assert(code[i as int].0 == bits@);
                    return true;
                }
                i = i + 1;
            }
            false
        } else {
            let m: usize = GOLOMB_PARAMETERS[j as usize - 9] as usize;
            let n: usize = bits.len();
            proof {
                lemma_digits(j as int);
                lemma_golomb_bits(m as int, GOLOMB_DIGITS@[j - 9] as nat, bits@);
            }
            bits[n - 1] || n == m
        }
    }

    /// The output codeword for bits on the way to a codeword of bin `j`.
    fn output(&self, j: u8, bits: &Vec<bool>) -> (out: Vec<bool>)
        requires
            self.wf(),
            1 <= j <= 17,
            bits@.len() >= 1,
            in_tree(bin_code(j as int), bits@),
        ensures
            out@ == slot_output(Slot { bin: j as int, bits: bits@ }),
    {
        let ghost code = bin_code(j as int);
        proof {
            lemma_word_for(code, bits@);
        }
        if j <= 8 {
            let table = &self.tables[j as usize - 1];
            assert(table@ == code);
            let pairs = table.pairs();
            let mut i: usize = 0;
            while i < pairs.len()
                invariant
                    i <= pairs@.len(),
                    pairs_view(pairs@) == code,
                    code == bin_code(j as int),
                    find_word(code, bits@, 0) == find_word(code, bits@, i as int),
                decreases pairs@.len() - i,
            {
                assert(code[i as int].0 == pairs@[i as int].0@);
                if equal_bits(&pairs[i].0, bits) {
                    assert(code[i as int].1 == pairs@[i as int].1@);
                    return copy_bits(&pairs[i].1);
                }
                i = i + 1;
            }
            assert(find_word(code, bits@, 0) is None);
            let mut i: usize = 0;
            while i < pairs.len()
                invariant
                    i <= pairs@.len(),
                    pairs_view(pairs@) == code,
                    code == bin_code(j as int),
                    find_start(code, bits@, 0) == find_start(code, bits@, i as int),
                    find_word(code, bits@, 0) is None,
                    word_for(code, bits@) is Some,
                decreases pairs@.len() - i,
            {
                assert(code[i as int].0 == pairs@[i as int].0@);
                if begins(&pairs[i].0, bits) {
                    assert(code[i as int].1 == pairs@[i as int].1@);
                    return copy_bits(&pairs[i].1);
                }
                i = i + 1;
            }
            Vec::new()
        } else {
            let m: u32 = GOLOMB_PARAMETERS[j as usize - 9];
            let l: u32 = GOLOMB_DIGITS[j as usize - 9];
            let n: usize = bits.len();
            proof {
                lemma_digits(j as int);
                lemma_golomb_bits(m as int, l as nat, bits@);
                lemma_golomb_word(m as int, l as nat, bits@);
            }
            let k: u32 = if bits[n - 1] {
                (n - 1) as u32
            } else {
                n as u32
            };
            let spare: u32 = golomb_spare(m, l);
            if k == m {
                let mut out: Vec<bool> = Vec::new();
                out.push(true);
                assert(out@ =~= seq![true]);
                out
            } else if k < spare {
                int_to_bits(k, l)
            } else {
                int_to_bits(k + spare, l + 1)
            }
        }
    }

    /// The codeword of bin `j` that the next bits of a stream start with, and
    /// the length of its output codeword.
    fn input(&self, j: u8, next: &Vec<bool>) -> (r: Option<(Vec<bool>, usize)>)
        requires
            self.wf(),
            1 <= j <= 17,
            next@.len() == MAX_WORD,
        ensures
            match lookup(outputs(bin_code(j as int)), next@) {
                None => r is None,
                Some(i) => r is Some && (r->0).0@ == bin_code(j as int)[i].0 && (r->0).1
                    == bin_code(j as int)[i].1.len() && (r->0).1 <= MAX_WORD,
            },
    {
        let ghost code = bin_code(j as int);
        proof {
            bin_codes_are_sound(j as int);
            lemma_lookup_range(outputs(code), next@);
        }
        if j <= 8 {
            let table = &self.tables[j as usize - 1];
            assert(table@ == code);
            table.decode_one(next.as_slice())
        } else {
            let m: u32 = GOLOMB_PARAMETERS[j as usize - 9];
            let l: u32 = GOLOMB_DIGITS[j as usize - 9];
            proof {
                lemma_digits(j as int);
            }
            Some(golomb_read(m, l, next))
        }
    }
}

proof fn lemma_lookup_range(words: Seq<Seq<bool>>, bits: Seq<bool>)
    ensures
        lookup(words, bits) matches Some(i) ==> 0 <= i < words.len(),
    decreases words.len(),
{
    if words.len() > 0 {
        lemma_lookup_range(words.drop_last(), bits);
    }
}

/// Bits on the way to a codeword of a Golomb code: zeros, and perhaps a one.
proof fn lemma_golomb_bits(m: int, l: nat, bits: Seq<bool>)
    requires
        1 <= m,
        bits.len() >= 1,
        in_tree(golomb_code(m, l), bits),
    ensures
        bits.len() <= m,
        bits.last() ==> bits == zeros((bits.len() - 1) as nat).push(true),
        !bits.last() ==> bits == zeros(bits.len() as nat),
        is_word(golomb_code(m, l), bits) <==> bits.last() || bits.len() == m,
{
    let code = golomb_code(m, l);
    let n = bits.len() as int;
    let i = choose|i: int| 0 <= i < code.len() && starts_with(#[trigger] code[i].0, bits);
    let word = code[i].0;
    assert(word.take(n) == bits);
    assert forall|k: int| 0 <= k < n - 1 implies !#[trigger] bits[k] by {
        assert(bits[k] == word[k]);
    }
    assert(bits[n - 1] == word[n - 1]);
    if bits.last() {
        assert(bits =~= zeros((n - 1) as nat).push(true));
        assert(i < m && n - 1 == i);
        assert(code[n - 1].0 == bits);
    } else {
        assert(bits =~= zeros(n as nat));
        assert(n <= m);
        if n == m {
            assert(code[m].0 == bits);
        }
        if is_word(code, bits) {
            let e = choose|e: int| 0 <= e < code.len() && #[trigger] code[e].0 == bits;
            if e < m {
                assert(code[e].0.last());
            }
        }
    }
}

/// Which codeword of a Golomb code stands for bits: the one with as many
/// zeros.
proof fn lemma_golomb_word(m: int, l: nat, bits: Seq<bool>)
    requires
        1 <= m,
        bits.len() >= 1,
        in_tree(golomb_code(m, l), bits),
    ensures
        word_for(golomb_code(m, l), bits) == Some(
            if bits.last() {
                bits.len() - 1
            } else {
                bits.len() as int
            },
        ),
{
    let code = golomb_code(m, l);
    lemma_golomb_bits(m, l, bits);
    lemma_find_word(code, bits, 0);
    lemma_find_start(code, bits, 0);
    let n = bits.len() as int;
    let k = if bits.last() {
        n - 1
    } else {
        n
    };
    match find_word(code, bits, 0) {
        Some(i) => {
            if i < m {
                assert(code[i].0.last());
                assert(code[i].0.len() == i + 1);
            } else {
                assert(!code[i].0.last());
            }
        },
        None => {
            if bits.last() {
                assert(code[n - 1].0 == bits);
            }
            if n == m {
                assert(code[m].0 == bits);
            }
            assert(code[k].0.take(n) =~= bits);
            assert(starts_with(code[k].0, bits));
            let i = find_start(code, bits, 0)->0;
            assert(i >= k) by {
                if i < k {
                    assert(code[i].0.len() == i + 1);
                    assert(code[i].0.take(n)[i] == code[i].0[i]);
                    assert(code[i].0.take(n) == bits);
                    assert(bits[i] == zeros(n as nat)[i]);
                }
            }
            lemma_first_start(code, bits, 0, k);
        },
    }
}

/// The first codeword that begins with bits is no later than any other.
proof fn lemma_first_start(code: CodePairs, bits: Seq<bool>, i: int, k: int)
    requires
        0 <= i <= k < code.len(),
        starts_with(code[k].0, bits),
    ensures
        find_start(code, bits, i) is Some,
        find_start(code, bits, i)->0 <= k,
    decreases k - i,
{
    if !starts_with(code[i].0, bits) {
        lemma_first_start(code, bits, i + 1, k);
    }
}

/// `2^l - m`.
fn golomb_spare(m: u32, l: u32) -> (i: u32)
    requires
        is_ceil_log2(m as int, l as nat),
        3 <= l <= 9,
        1 <= m <= 512,
    ensures
        i == pow2(l as nat) - m,
        i <= 512,
{
    proof {
        vstd::arithmetic::power2::lemma2_to64();
    }
    let p: u32 = crate::priority::two_to(l as u8) as u32;
    proof {
        if l < 9 {
            vstd::arithmetic::power2::lemma_pow2_strictly_increases(l as nat, 9);
        }
    }
    p - m
}

/// The first `n` of some bits as a number.
fn bits_value(next: &Vec<bool>, n: u32) -> (v: u32)
    requires
        n <= 16,
        n <= next@.len(),
    ensures
        binary(v as int, n as nat) == next@.take(n as int),
        v < pow2(n as nat),
    decreases n,
{
    proof {
        vstd::arithmetic::power2::lemma2_to64();
    }
    if n == 0 {
        assert(next@.take(0) =~= Seq::empty());
        0
    } else {
        let high: u32 = bits_value(next, n - 1);
        proof {
            lemma_pow2_unfold(n as nat);
            if n < 16 {
                vstd::arithmetic::power2::lemma_pow2_strictly_increases(n as nat, 16);
            }
        }
        let bit: bool = next[n as usize - 1];
        let v: u32 = 2 * high + (if bit {
            1
        } else {
            0
        });
        assert(v as int / 2 == high && (v as int % 2 == 1) == bit);
        assert(next@.take(n as int) =~= next@.take(n - 1).push(bit));
        v
    }
}

/// Read a codeword of a Golomb code.
fn golomb_read(m: u32, l: u32, next: &Vec<bool>) -> (r: (Vec<bool>, usize))
    requires
        is_ceil_log2(m as int, l as nat),
        3 <= l <= 9,
        5 <= m <= 512,
        next@.len() == MAX_WORD,
    ensures
        ({
            let code = golomb_code(m as int, l as nat);
            let i = lookup(outputs(code), next@);
            &&& i is Some
            &&& r.0@ == code[i->0].0
            &&& r.1 == code[i->0].1.len()
            &&& r.1 <= MAX_WORD
        }),
{
    let ghost code = golomb_code(m as int, l as nat);
    let ghost li = l as nat;
    proof {
        golomb_codes_are_prefix_free(m as int, li);
        lemma_pow2_unfold(li);
        lemma_pow2_unfold((li + 1) as nat);
    }
    let spare: u32 = golomb_spare(m, l);
    let mut k: u32 = m;
    let mut len: usize = 1;
    if !next[0] {
        let v: u32 = bits_value(next, l);
        let w: u32 = bits_value(next, l + 1);
        proof {
            lemma_high_half(v as int, li, next@);
            lemma_double(next@, v as int, w as int, li);
        }
        if v < spare {
            k = v;
            len = l as usize;
        } else {
            k = w - spare;
            len = l as usize + 1;
        }
    }
    proof {
        let e = k as int;
        let out = code[e].1;
        if e == m {
            assert(out =~= next@.take(1));
        } else {
            lemma_binary_len(e, li);
            lemma_binary_len(e + spare, (li + 1) as nat);
        }
        assert(out == next@.take(len as int));
        assert(out + next@.skip(len as int) =~= next@);
        codewords_are_found_again(code, e, next@.skip(len as int));
    }
    let mut word: Vec<bool> = Vec::new();
    let mut i: u32 = 0;
    while i < k
        invariant
            i <= k,
            word@ == zeros(i as nat),
        decreases k - i,
    {
        word.push(false);
        i = i + 1;
        assert(word@ =~= zeros(i as nat));
    }
    if k < m {
        word.push(true);
    }
    (word, len)
}

/// A number without a leading one is below half of its range.
proof fn lemma_high_half(v: int, n: nat, bits: Seq<bool>)
    requires
        n >= 1,
        0 <= v,
        n <= bits.len(),
        binary(v, n) == bits.take(n as int),
        !bits[0],
        v < pow2(n),
    ensures
        v < pow2((n - 1) as nat),
    decreases n,
{
    lemma_pow2_unfold(n);
    vstd::arithmetic::power2::lemma2_to64();
    let b = binary(v, n);
    lemma_binary_len(v, n);
    if n == 1 {
        reveal_with_fuel(binary, 2);
        assert(b[0] == (v % 2 == 1));
        assert(bits.take(1)[0] == bits[0]);
    } else {
        let high = binary(v / 2, (n - 1) as nat);
        lemma_binary_len(v / 2, (n - 1) as nat);
        assert(b.take(n - 1) =~= high);
        assert(bits.take(n as int).take(n - 1) =~= bits.take(n - 1));
        lemma_pow2_unfold((n - 1) as nat);
        lemma_high_half(v / 2, (n - 1) as nat, bits);
    }
}

/// One more digit.
proof fn lemma_double(bits: Seq<bool>, v: int, w: int, n: nat)
    requires
        n + 1 <= bits.len(),
        binary(v, n) == bits.take(n as int),
        binary(w, n + 1) == bits.take((n + 1) as int),
        0 <= v < pow2(n),
        0 <= w < pow2(n + 1),
    ensures
        w / 2 == v,
{
    lemma_pow2_unfold(n + 1);
    lemma_binary_len(w / 2, n);
    let high = binary(w / 2, n);
    assert(binary(w, n + 1).take(n as int) =~= high);
    assert(bits.take((n + 1) as int).take(n as int) =~= bits.take(n as int));
    crate::ixec::lemma_binary_injective(v, w / 2, n);
}

// ---------------------------------------------------------------------------
// The coder
// ---------------------------------------------------------------------------

/// Whether a bit is turned around, and its bin.
fn choose_bin(p1_num: u32, p1_den: u32) -> (r: (bool, u8))
    ensures
        r.0 == turned(p1_num, p1_den),
        r.1 == bin_of(p1_num, p1_den),
        1 <= r.1 <= 17,
{
    let flip: bool = 2 * p1_num as u64 > p1_den as u64;
    let zero: u32 = if flip {
        p1_num
    } else {
        p1_den - p1_num
    };
    (flip, bin_for_probability(zero, p1_den))
}

/// Encoder of the interleaved coder.
pub struct IxecEncoder {
    codes: Codes,
    /// Output codewords; those that are not complete are empty.
    outs: Vec<Vec<bool>>,
    /// For each bin the codeword that is not complete.
    open: Vec<Option<usize>>,
    /// For each bin the bits of that codeword.
    partial: Vec<Vec<bool>>,
    log: Ghost<Seq<Decision>>,
}

impl IxecEncoder {
    /// The decisions so far.
    pub closed spec fn log(self) -> Seq<Decision> {
        self.log@
    }

    /// The encoder is in the state that its decisions lead to.
    pub closed spec fn wf(self) -> bool {
        let st = interleaved(self.log@);
        &&& self.codes.wf()
        &&& self.outs@.len() == st.slots.len()
        &&& self.open@.len() == 18
        &&& self.partial@.len() == 18
        &&& forall|j: int|
            1 <= j <= 17 ==> ((#[trigger] self.open@[j]) is Some <==> st.open[j] is Some)
        &&& forall|j: int|
            1 <= j <= 17 ==> ((#[trigger] self.open@[j]) matches Some(i) ==> st.open[j] == Some(
                i as int,
            ))
        &&& forall|j: int|
            1 <= j <= 17 ==> (#[trigger] self.partial@[j])@ == (match st.open[j] {
                Some(i) => st.slots[i].bits,
                None => Seq::empty(),
            })
        &&& forall|i: int|
            0 <= i < st.slots.len() && st.open[st.slots[i].bin] != Some(i) ==> (
            #[trigger] self.outs@[i])@ == slot_output(st.slots[i])
    }

    /// An encoder without decisions.
    pub fn new() -> (e: Self)
        ensures
            e.wf(),
            e.log() == Seq::<Decision>::empty(),
    {
        let mut open: Vec<Option<usize>> = Vec::new();
        let mut partial: Vec<Vec<bool>> = Vec::new();
        let mut j: usize = 0;
        while j < 18
            invariant
                j <= 18,
                open@.len() == j,
                partial@.len() == j,
                forall|e: int| 0 <= e < j ==> (#[trigger] open@[e]) is None,
                forall|e: int| 0 <= e < j ==> (#[trigger] partial@[e])@ == Seq::<bool>::empty(),
            decreases 18 - j,
        {
            open.push(None);
            partial.push(Vec::new());
            j = j + 1;
        }
        IxecEncoder {
            codes: Codes::new(),
            outs: Vec::new(),
            open,
            partial,
            log: Ghost(Seq::empty()),
        }
    }

    /// Encode a symbol, which is one with probability `p1_num / p1_den`.
    pub fn encode_bit(&mut self, symbol: u8, p1_num: u32, p1_den: u32)
        requires
            old(self).wf(),
        ensures
            final(self).wf(),
            final(self).log() == old(self).log().push(Decision { symbol, p1_num, p1_den }),
    {
        let ghost d = Decision { symbol, p1_num, p1_den };
        let ghost a = interleaved(self.log@);
        let (flip, bin) = choose_bin(p1_num, p1_den);
        let bit: bool = (symbol != 0) != flip;
        let ghost j = bin as int;
        let ghost z = placed(a, j, bit);
        let ghost i = slot_for(a, j);
        proof {
            lemma_orderly(self.log@);
            lemma_placed(a, j, bit);
            let more = self.log@.push(d);
            assert(more.drop_last() =~= self.log@);
            assert(z == interleaved(more));
            assert(self.partial@[j]@ == (match a.open[j] {
                Some(i) => a.slots[i].bits,
                None => Seq::empty(),
            }));
        }
        let at: usize = match self.open[bin as usize] {
            Some(k) => k,
            None => {
                let fresh: usize = self.outs.len();
                self.outs.push(Vec::new());
                fresh
            },
        };
        assert(at == i);
        let mut word: Vec<bool> = Vec::new();
        self.partial.set_and_swap(bin as usize, &mut word);
        word.push(bit);
        assert(word@ =~= z.slots[i].bits);
        assert(in_tree(bin_code(j), z.slots[i].bits));
        if self.codes.completes(bin, &word) {
            let out = self.codes.output(bin, &word);
            self.outs.set(at, out);
            self.open.set(bin as usize, None);
        } else {
            self.partial.set_and_swap(bin as usize, &mut word);
            self.open.set(bin as usize, Some(at));
        }
        self.log = Ghost(self.log@.push(d));
        proof {
            assert(interleaved(self.log@) == z);
            assert forall|k: int|
                0 <= k < z.slots.len() && z.open[z.slots[k].bin] != Some(k) implies (
            #[trigger] self.outs@[k])@ == slot_output(z.slots[k]) by {
                if k != i {
                    assert(z.slots[k] == a.slots[k]);
                    if a.slots[k].bin == j {
                        assert(a.open[j] != Some(k));
                    }
                    assert(old(self).outs@[k]@ == slot_output(a.slots[k]));
                }
            }
        }
    }

    /// Complete the codewords that are begun, and return the byte stream.
    pub fn finish(self) -> (bytes: Vec<u8>)
        requires
            self.wf(),
        ensures
            bytes@ == interleaved_encoded(self.log()),
    {
        let ghost st = interleaved(self.log@);
        let ghost n = st.slots.len() as int;
        proof {
            lemma_orderly(self.log@);
        }
        let IxecEncoder { codes, outs, open, partial, log } = self;
        let mut outs = outs;
        let mut j: u8 = 1;
        while j <= 17
            invariant
                1 <= j <= 18,
                orderly(st),
                n == st.slots.len(),
                codes.wf(),
                outs@.len() == n,
                open@.len() == 18,
                partial@.len() == 18,
                forall|e: int|
                    1 <= e <= 17 ==> ((#[trigger] open@[e]) is Some <==> st.open[e] is Some),
                forall|e: int|
                    1 <= e <= 17 ==> ((#[trigger] open@[e]) matches Some(i) ==> st.open[e]
                        == Some(i as int)),
                forall|e: int|
                    1 <= e <= 17 ==> (#[trigger] partial@[e])@ == (match st.open[e] {
                        Some(i) => st.slots[i].bits,
                        None => Seq::empty(),
                    }),
                forall|i: int|
                    0 <= i < n && (st.open[st.slots[i].bin] != Some(i) || st.slots[i].bin < j) ==> (
                    #[trigger] outs@[i])@ == slot_output(st.slots[i]),
            decreases 18 - j,
        {
            let ghost before = outs@;
            if let Some(at) = open[j as usize] {
                proof {
                    assert(st.open[j as int] == Some(at as int));
                    assert(st.slots[at as int].bin == j);
                    assert(partial@[j as int]@ == st.slots[at as int].bits);
                }
                let out = codes.output(j, &partial[j as usize]);
                outs.set(at, out);
            }
            assert forall|i: int|
                0 <= i < n && (st.open[st.slots[i].bin] != Some(i) || st.slots[i].bin < j
                    + 1) implies (#[trigger] outs@[i])@ == slot_output(st.slots[i]) by {
                if st.slots[i].bin == j && st.open[j as int] == Some(i) {
                    assert(open@[j as int] is Some);
                } else {
                    assert(before[i]@ == slot_output(st.slots[i]));
                    if st.open[j as int] is Some {
                        assert(st.slots[(st.open[j as int])->0].bin == j);
                    }
                }
            }
            j = j + 1;
        }
        let mut bits: Vec<bool> = Vec::new();
        let mut k: usize = 0;
        while k < outs.len()
            invariant
                k <= outs@.len() == n,
                n == st.slots.len(),
                orderly(st),
                forall|i: int| 0 <= i < n ==> (#[trigger] outs@[i])@ == slot_output(st.slots[i]),
                bits@ == output_bits(st.slots, k as int),
            decreases outs@.len() - k,
        {
            append_bits(&mut bits, &outs[k]);
            k = k + 1;
        }
        pack_bits(&bits)
    }
}

fn append_bits(out: &mut Vec<bool>, s: &Vec<bool>)
    ensures
        final(out)@ == old(out)@ + s@,
{
    let mut i: usize = 0;
    while i < s.len()
        invariant
            i <= s@.len(),
            out@ == old(out)@ + s@.take(i as int),
        decreases s@.len() - i,
    {
        out.push(s[i]);
        assert(s@.take(i as int).push(s@[i as int]) =~= s@.take(i + 1));
        assert(out@ =~= old(out)@ + s@.take(i + 1));
        i = i + 1;
    }
    assert(s@.take(s@.len() as int) =~= s@);
}

fn bit_at(bits: &Vec<bool>, base: usize, k: usize) -> (b: bool)
    requires
        base < bits@.len(),
    ensures
        b == bit_or_zero(bits@, base + k),
{
    if k < bits.len() - base {
        bits[base + k]
    } else {
        false
    }
}

/// Pack bits into bytes.
fn pack_bits(bits: &Vec<bool>) -> (bytes: Vec<u8>)
    ensures
        bytes@ == pack(bits@),
{
    let ghost goal = pack(bits@);
    let mut bytes: Vec<u8> = Vec::new();
    let mut base: usize = 0;
    let mut more: bool = bits.len() > 0;
    while more
        invariant
            more ==> base < bits@.len() && base == 8 * bytes@.len(),
            !more ==> bytes@.len() == goal.len(),
            goal == pack(bits@),
            bytes@.len() <= goal.len(),
            forall|i: int| 0 <= i < bytes@.len() ==> #[trigger] bytes@[i] == goal[i],
        decreases goal.len() - bytes@.len() + (if more { 1int } else { 0 }),
    {
        let b: u8 = (if bit_at(bits, base, 0) { 128u8 } else { 0u8 }) | (if bit_at(bits, base, 1) { 64u8 } else { 0u8 })
            | (if bit_at(bits, base, 2) { 32u8 } else { 0u8 }) | (if bit_at(bits, base, 3) { 16u8 } else { 0u8 })
            | (if bit_at(bits, base, 4) { 8u8 } else { 0u8 }) | (if bit_at(bits, base, 5) { 4u8 } else { 0u8 })
            | (if bit_at(bits, base, 6) { 2u8 } else { 0u8 }) | (if bit_at(bits, base, 7) { 1u8 } else { 0u8 });
        assert(b == goal[bytes@.len() as int]);
        bytes.push(b);
        if bits.len() - base > 8 {
            base = base + 8;
        } else {
            more = false;
        }
    }
    assert(bytes@ =~= goal);
    bytes
}

/// Decoder of the interleaved coder.
pub struct IxecDecoder<'a> {
    codes: Codes,
    bytes: &'a [u8],
    /// Bits that were read, but no more than there are.
    pos: u128,
    /// For each bin its codeword.
    words: Vec<Vec<bool>>,
    /// For each bin how many bits of its codeword were used.
    used: Vec<usize>,
    asked: Ghost<Seq<(u32, u32)>>,
}

impl<'a> IxecDecoder<'a> {
    /// The byte stream.
    pub closed spec fn channel(self) -> Seq<u8> {
        self.bytes@
    }

    /// The probabilities that the decoder was asked with.
    pub closed spec fn asked(self) -> Seq<(u32, u32)> {
        self.asked@
    }

    /// The decoder is in the given state.
    spec fn stands_at(self, g: Gathering) -> bool {
        &&& self.codes.wf()
        &&& self.words@.len() == 18
        &&& self.used@.len() == 18
        &&& g.left.len() == 18
        &&& g.pos >= 0
        &&& self.pos == (if g.pos < 8 * self.bytes@.len() {
            g.pos
        } else {
            8 * self.bytes@.len() as int
        })
        &&& forall|j: int|
            1 <= j <= 17 ==> (#[trigger] self.used@[j]) <= self.words@[j]@.len() && g.left[j]
                == self.words@[j]@.skip(self.used@[j] as int)
    }

    /// The decoder is in the state that its questions lead to.
    pub closed spec fn wf(self) -> bool {
        self.stands_at(gathered(self.bytes@, self.asked@))
    }

    /// A decoder over a byte stream.
    pub fn new(bytes: &'a [u8]) -> (d: Self)
        ensures
            d.wf(),
            d.channel() == bytes@,
            d.asked() == Seq::<(u32, u32)>::empty(),
    {
        let mut words: Vec<Vec<bool>> = Vec::new();
        let mut used: Vec<usize> = Vec::new();
        let mut j: usize = 0;
        while j < 18
            invariant
                j <= 18,
                words@.len() == j,
                used@.len() == j,
                forall|e: int| 0 <= e < j ==> (#[trigger] used@[e]) == 0,
                forall|e: int| 0 <= e < j ==> (#[trigger] words@[e])@ == Seq::<bool>::empty(),
            decreases 18 - j,
        {
            words.push(Vec::new());
            used.push(0);
            j = j + 1;
        }
        let d = IxecDecoder {
            codes: Codes::new(),
            bytes,
            pos: 0,
            words,
            used,
            asked: Ghost(Seq::empty()),
        };
        assert forall|j: int| 1 <= j <= 17 implies (#[trigger] d.used@[j]) <= d.words@[j]@.len()
            && nothing_gathered().left[j] == d.words@[j]@.skip(d.used@[j] as int) by {
            assert(d.words@[j]@ == Seq::<bool>::empty());
            assert(Seq::<bool>::empty().skip(0) =~= Seq::empty());
        }
        d
    }

    /// The next bits of the stream.
    fn peek(&self, Ghost(pos): Ghost<int>) -> (next: Vec<bool>)
        requires
            pos >= 0,
            self.pos == (if pos < 8 * self.bytes@.len() {
                pos
            } else {
                8 * self.bytes@.len() as int
            }),
        ensures
            next@ == upcoming(self.bytes@, pos),
    {
        let total: u128 = 8 * self.bytes.len() as u128;
        let mut next: Vec<bool> = Vec::new();
        let mut i: usize = 0;
        while i < MAX_WORD
            invariant
                i <= MAX_WORD,
                pos >= 0,
                total == 8 * self.bytes@.len(),
                self.bytes@.len() <= usize::MAX,
                self.pos == (if pos < total {
                    pos
                } else {
                    total as int
                }),
                next@.len() == i,
                forall|k: int| 0 <= k < i ==> #[trigger] next@[k] == channel_bit(
                    self.bytes@,
                    pos + k,
                ),
            decreases MAX_WORD - i,
        {
            let at: u128 = self.pos + i as u128;
            let b: bool = if at < total {
                let byte: u8 = self.bytes[(at / 8) as usize];
                (byte >> (7 - (at % 8) as u8)) & 1u8 == 1u8
            } else {
                false
            };
            assert(b == channel_bit(self.bytes@, pos + i));
            next.push(b);
            i = i + 1;
        }
        assert(next@ =~= upcoming(self.bytes@, pos));
        next
    }

    /// Decode a symbol, which is one with probability `p1_num / p1_den`.
    pub fn decode_bit(&mut self, p1_num: u32, p1_den: u32) -> (symbol: u8)
        requires
            old(self).wf(),
        ensures
            final(self).wf(),
            final(self).channel() == old(self).channel(),
            final(self).asked() == old(self).asked().push((p1_num, p1_den)),
            symbol <= 1,
            symbol == interleaved_decoded(
                old(self).channel(),
                old(self).asked(),
                p1_num,
                p1_den,
            ),
    {
        let ghost bytes = self.bytes@;
        let ghost g0 = gathered(bytes, self.asked@);
        let (flip, bin) = choose_bin(p1_num, p1_den);
        let j: usize = bin as usize;
        let ghost g = supplied(bytes, g0, j as int);
        assert(self.used@[j as int] <= self.words@[j as int]@.len());
        if self.used[j] == self.words[j].len() {
            assert(g0.left[j as int].len() == 0);
            let next = self.peek(Ghost(g0.pos));
            if let Some((word, len)) = self.codes.input(bin, &next) {
                let total: u128 = 8 * self.bytes.len() as u128;
                let ahead: u128 = self.pos + len as u128;
                self.pos = if ahead < total {
                    ahead
                } else {
                    total
                };
                let ghost before = self.words@;
                assert(word@.skip(0) =~= word@);
                self.words.set(j, word);
                self.used.set(j, 0);
                assert forall|e: int| 1 <= e <= 17 implies (#[trigger] self.used@[e])
                    <= self.words@[e]@.len() && g.left[e] == self.words@[e]@.skip(
                    self.used@[e] as int,
                ) by {
                    if e != j {
                        assert(old(self).used@[e] <= old(self).words@[e]@.len());
                    }
                }
            }
        } else {
            assert(g0.left[j as int].len() > 0);
        }
        assert(self.stands_at(g));
        let ghost t = taken(g, j as int);
        assert(self.used@[j as int] <= self.words@[j as int]@.len());
        let bit: bool = if self.used[j] < self.words[j].len() {
            let b: bool = self.words[j][self.used[j]];
            let ghost seen = self.used@;
            let u: usize = self.used[j];
            self.used.set(j, u + 1);
            proof {
                assert(self.words@[j as int]@.skip(u as int).skip(1) =~= self.words@[j as int]@.skip(
                    u + 1,
                ));
                assert forall|e: int| 1 <= e <= 17 implies (#[trigger] self.used@[e])
                    <= self.words@[e]@.len() && t.left[e] == self.words@[e]@.skip(
                    self.used@[e] as int,
                ) by {
                    if e != j {
                        assert(seen[e] <= self.words@[e]@.len());
                    }
                }
            }
            b
        } else {
            false
        };
        proof {
            let more = self.asked@.push((p1_num, p1_den));
            assert(more.drop_last() =~= self.asked@);
            assert(gathered(bytes, more) == t);
        }
        self.asked = Ghost(self.asked@.push((p1_num, p1_den)));
        if bit != flip {
            1
        } else {
            0
        }
    }
}

} // verus!
