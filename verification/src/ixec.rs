//! Component codes of the interleaved entropy coder.
//!
//! A component code maps a set of input codewords to a set of output
//! codewords. Each of the seventeen bins has one: the first leaves bits as
//! they are, the next seven are written as decoding trees in a shorthand, and
//! the others are Golomb codes.

use vstd::arithmetic::power2::{lemma_pow2_pos, lemma_pow2_strictly_increases, lemma_pow2_unfold, pow2};
use vstd::prelude::*;

verus! {

/// A code as a value: pairs of an input and an output codeword.
pub type CodePairs = Seq<(Seq<bool>, Seq<bool>)>;

/// A variable-to-variable-length binary code.
#[derive(Debug, Clone)]
pub struct ComponentCode {
    pairs: Vec<(Vec<bool>, Vec<bool>)>,
}

impl View for ComponentCode {
    type V = CodePairs;

    closed spec fn view(&self) -> CodePairs {
        Seq::new(self.pairs@.len(), |i: int| (self.pairs@[i].0@, self.pairs@[i].1@))
    }
}

/// The input codewords of a code.
pub open spec fn inputs(code: CodePairs) -> Seq<Seq<bool>> {
    Seq::new(code.len(), |i: int| code[i].0)
}

/// The output codewords of a code.
pub open spec fn outputs(code: CodePairs) -> Seq<Seq<bool>> {
    Seq::new(code.len(), |i: int| code[i].1)
}

/// `word` is the beginning of `bits`.
pub open spec fn starts_with(bits: Seq<bool>, word: Seq<bool>) -> bool {
    word.len() <= bits.len() && bits.take(word.len() as int) == word
}

/// The codeword that `bits` starts with: the shortest, and of two equal ones
/// the later.
pub open spec fn lookup(words: Seq<Seq<bool>>, bits: Seq<bool>) -> Option<int>
    decreases words.len(),
{
    if words.len() == 0 {
        None
    } else {
        let i = words.len() - 1;
        let before = lookup(words.drop_last(), bits);
        if starts_with(bits, words[i]) && (before is None || words[i].len()
            <= words[before->0].len()) {
            Some(i)
        } else {
            before
        }
    }
}

/// No codeword is the beginning of another.
pub open spec fn prefix_free(words: Seq<Seq<bool>>) -> bool {
    forall|i: int, j: int|
        0 <= i < words.len() && 0 <= j < words.len() && i != j ==> !starts_with(
            #[trigger] words[i],
            #[trigger] words[j],
        )
}

pub proof fn lemma_lookup(words: Seq<Seq<bool>>, bits: Seq<bool>)
    ensures
        lookup(words, bits) matches Some(i) ==> 0 <= i < words.len() && starts_with(bits, words[i]),
        lookup(words, bits) is None ==> forall|i: int|
            0 <= i < words.len() ==> !starts_with(bits, #[trigger] words[i]),
    decreases words.len(),
{
    if words.len() > 0 {
        let w = words.drop_last();
        lemma_lookup(w, bits);
        assert(forall|i: int| 0 <= i < w.len() ==> w[i] == words[i]);
        if lookup(words, bits) is None {
            assert forall|i: int| 0 <= i < words.len() implies !starts_with(
                bits,
                #[trigger] words[i],
            ) by {
                if i < w.len() {
                    assert(!starts_with(bits, w[i]));
                }
            }
        }
    }
}

proof fn lemma_lookup_prefix_free(words: Seq<Seq<bool>>, bits: Seq<bool>, i: int)
    requires
        prefix_free(words),
        0 <= i < words.len(),
        starts_with(bits, words[i]),
    ensures
        lookup(words, bits) == Some(i),
{
    lemma_lookup(words, bits);
    match lookup(words, bits) {
        Some(j) => {
            if j != i {
                if words[j].len() <= words[i].len() {
                    assert(words[i].take(words[j].len() as int) =~= bits.take(
                        words[j].len() as int,
                    ));
                    assert(starts_with(words[i], words[j]));
                } else {
                    assert(words[j].take(words[i].len() as int) =~= bits.take(
                        words[i].len() as int,
                    ));
                    assert(starts_with(words[j], words[i]));
                }
            }
        },
        None => {
            assert(!starts_with(bits, words[i]));
        },
    }
}

/// **A code whose output codewords are prefix-free is undone by decoding**,
/// whatever bits follow: reading the output codeword of an input codeword finds
/// the pair again. The same holds of encoding where the input codewords are
/// prefix-free.
pub proof fn codewords_are_found_again(code: CodePairs, i: int, rest: Seq<bool>)
    requires
        0 <= i < code.len(),
    ensures
        prefix_free(inputs(code)) ==> lookup(inputs(code), code[i].0 + rest) == Some(i),
        prefix_free(outputs(code)) ==> lookup(outputs(code), code[i].1 + rest) == Some(i),
{
    assert((code[i].0 + rest).take(code[i].0.len() as int) =~= code[i].0);
    assert((code[i].1 + rest).take(code[i].1.len() as int) =~= code[i].1);
    if prefix_free(inputs(code)) {
        lemma_lookup_prefix_free(inputs(code), code[i].0 + rest, i);
    }
    if prefix_free(outputs(code)) {
        lemma_lookup_prefix_free(outputs(code), code[i].1 + rest, i);
    }
}

/// A copy of a bit string.
pub fn copy_bits(s: &Vec<bool>) -> (v: Vec<bool>)
    ensures
        v@ == s@,
{
    let mut v: Vec<bool> = Vec::new();
    let mut i: usize = 0;
    while i < s.len()
        invariant
            i <= s@.len(),
            v@ == s@.take(i as int),
        decreases s@.len() - i,
    {
        v.push(s[i]);
        assert(s@.take(i + 1) =~= s@.take(i as int).push(s@[i as int]));
        i = i + 1;
    }
    assert(v@ =~= s@);
    v
}

fn bits_start_with(bits: &[bool], word: &Vec<bool>) -> (b: bool)
    ensures
        b == starts_with(bits@, word@),
{
    if word.len() > bits.len() {
        return false;
    }
    let mut i: usize = 0;
    while i < word.len()
        invariant
            i <= word@.len() <= bits@.len(),
            forall|j: int| 0 <= j < i ==> bits@[j] == word@[j],
        decreases word@.len() - i,
    {
        if bits[i] != word[i] {
            assert(bits@.take(word@.len() as int)[i as int] != word@[i as int]);
            return false;
        }
        i = i + 1;
    }
    assert(bits@.take(word@.len() as int) =~= word@);
    true
}

// ---------------------------------------------------------------------------
// Golomb codes
// ---------------------------------------------------------------------------

/// `value` as `width` binary digits, most significant first.
pub open spec fn binary(value: int, width: nat) -> Seq<bool>
    decreases width,
{
    if width == 0 {
        Seq::empty()
    } else {
        binary(value / 2, (width - 1) as nat).push(value % 2 == 1)
    }
}

/// The smallest `l` with `2^l >= m`.
pub open spec fn is_ceil_log2(m: int, l: nat) -> bool {
    &&& pow2(l) >= m
    &&& l > 0 ==> pow2((l - 1) as nat) < m
}

/// `k` zeros.
pub open spec fn zeros(k: nat) -> Seq<bool> {
    Seq::new(k, |i: int| false)
}

/// The Golomb code with parameter `m`, where `l` is the ceiling of `log2 m`.
/// Input `0^k 1` with `k < m` maps to `k` in `l` digits when
/// `k < 2^l - m`, and else to `k + 2^l - m` in `l + 1` digits; input `0^m` maps
/// to the single digit 1.
pub open spec fn golomb_code(m: int, l: nat) -> CodePairs {
    let i = pow2(l) - m;
    Seq::new(
        m as nat,
        |k: int|
            (
                zeros(k as nat).push(true),
                if k < i {
                    binary(k, l)
                } else {
                    binary(k + i, l + 1)
                },
            ),
    ).push((zeros(m as nat), seq![true]))
}

/// The ceiling of `log2 m`.
pub fn ceil_log2(m: u32) -> (l: u32)
    requires
        m >= 1,
    ensures
        is_ceil_log2(m as int, l as nat),
        l <= 32,
        m <= 0x8000_0000 ==> l <= 31,
{
    let mut l: u32 = 0;
    let mut p: u64 = 1;
    proof {
        vstd::arithmetic::power2::lemma2_to64();
    }
    while p < m as u64
        invariant
            l <= 32,
            m <= 0x8000_0000 ==> l <= 31,
            p == pow2(l as nat),
            l > 0 ==> pow2((l - 1) as nat) < m,
            m >= 1,
            pow2(31) == 0x8000_0000,
            pow2(32) == 0x1_0000_0000,
        decreases 32 - l,
    {
        proof {
            lemma_pow2_unfold((l + 1) as nat);
            if l == 31 {
                assert(p == 0x8000_0000);
            } else if l >= 32 {
                assert(p == 0x1_0000_0000);
            }
        }
        p = p * 2;
        l = l + 1;
    }
    l
}

/// `value` as `width` binary digits, most significant first.
pub fn int_to_bits(value: u32, width: u32) -> (v: Vec<bool>)
    ensures
        v@ == binary(value as int, width as nat),
    decreases width,
{
    if width == 0 {
        Vec::new()
    } else {
        let mut v = int_to_bits(value / 2, width - 1);
        v.push(value % 2 == 1);
        v
    }
}

fn zero_run(k: u32) -> (v: Vec<bool>)
    ensures
        v@ == zeros(k as nat),
{
    let mut v: Vec<bool> = Vec::new();
    let mut i: u32 = 0;
    while i < k
        invariant
            i <= k,
            v@ == zeros(i as nat),
        decreases k - i,
    {
        v.push(false);
        i = i + 1;
        assert(v@ =~= zeros(i as nat));
    }
    v
}

pub proof fn lemma_binary_len(value: int, width: nat)
    ensures
        binary(value, width).len() == width,
    decreases width,
{
    if width > 0 {
        lemma_binary_len(value / 2, (width - 1) as nat);
    }
}

/// The leading digits of a number are those of the number shifted.
proof fn lemma_binary_take(value: int, width: nat, n: nat)
    requires
        0 <= value,
        n <= width,
    ensures
        binary(value, width).take(n as int) == binary(value / (pow2((width - n) as nat) as int), n),
    decreases width,
{
    lemma_binary_len(value, width);
    if n == width {
        vstd::arithmetic::power2::lemma2_to64();
        assert(binary(value, width).take(n as int) =~= binary(value, width));
        assert(value / 1 == value);
    } else {
        lemma_binary_len(value / 2, (width - 1) as nat);
        lemma_binary_take(value / 2, (width - 1) as nat, n);
        assert(binary(value, width).take(n as int) =~= binary(value / 2, (width - 1) as nat).take(
            n as int,
        ));
        let e = (width - 1 - n) as nat;
        lemma_pow2_unfold((e + 1) as nat);
        lemma_pow2_pos(e);
        vstd::arithmetic::div_mod::lemma_div_denominator(value, 2, pow2(e) as int);
        assert(value / 2 / (pow2(e) as int) == value / (2 * pow2(e) as int));
    }
}

/// Numbers that fit in `width` digits are told apart by them.
pub proof fn lemma_binary_injective(a: int, b: int, width: nat)
    requires
        0 <= a < pow2(width),
        0 <= b < pow2(width),
        binary(a, width) == binary(b, width),
    ensures
        a == b,
    decreases width,
{
    if width == 0 {
        vstd::arithmetic::power2::lemma2_to64();
    } else {
        lemma_pow2_unfold(width);
        let x = binary(a / 2, (width - 1) as nat);
        let y = binary(b / 2, (width - 1) as nat);
        assert(x =~= binary(a, width).drop_last());
        assert(y =~= binary(b, width).drop_last());
        assert(binary(a, width).last() == (a % 2 == 1));
        assert(binary(b, width).last() == (b % 2 == 1));
        lemma_binary_injective(a / 2, b / 2, (width - 1) as nat);
    }
}

proof fn lemma_golomb_inputs_prefix_free(m: int, l: nat)
    requires
        1 <= m,
    ensures
        prefix_free(inputs(golomb_code(m, l))),
{
    let w = inputs(golomb_code(m, l));
    assert forall|i: int, j: int|
        0 <= i < w.len() && 0 <= j < w.len() && i != j implies !starts_with(
        #[trigger] w[i],
        #[trigger] w[j],
    ) by {
        if starts_with(w[i], w[j]) {
            let t = w[i].take(w[j].len() as int);
            if j < m {
                assert(t[j] == w[j][j]);
            } else {
                assert(w[i].len() >= m);
                assert(t[m - 1] == w[j][m - 1]);
            }
        }
    }
}

proof fn lemma_golomb_outputs_prefix_free(m: int, l: nat)
    requires
        1 <= m,
        is_ceil_log2(m, l),
    ensures
        prefix_free(outputs(golomb_code(m, l))),
{
    let w = outputs(golomb_code(m, l));
    let i0 = pow2(l) - m;
    vstd::arithmetic::power2::lemma2_to64();
    if l > 0 {
        lemma_pow2_unfold(l);
    }
    lemma_pow2_unfold((l + 1) as nat);
    lemma_pow2_pos(l);
    assert forall|i: int, j: int|
        0 <= i < w.len() && 0 <= j < w.len() && i != j implies !starts_with(
        #[trigger] w[i],
        #[trigger] w[j],
    ) by {
        if starts_with(w[i], w[j]) {
            lemma_golomb_output(m, l, i);
            lemma_golomb_output(m, l, j);
            let a = golomb_value(m, l, i);
            let b = golomb_value(m, l, j);
            let wi = golomb_width(m, l, i);
            let wj = golomb_width(m, l, j);
            lemma_binary_len(a, wi);
            lemma_binary_len(b, wj);
            assert(wj <= wi);
            lemma_binary_take(a, wi, wj);
            lemma_pow2_pos((wi - wj) as nat);
            lemma_pow2_pos(wj);
            let top = a / (pow2((wi - wj) as nat) as int);
            vstd::arithmetic::power2::lemma_pow2_adds(wj, (wi - wj) as nat);
            assert(0 <= top < pow2(wj)) by (nonlinear_arith)
                requires
                    top == a / (pow2((wi - wj) as nat) as int),
                    0 <= a < pow2(wi),
                    pow2(wi) == pow2(wj) * pow2((wi - wj) as nat),
                    pow2((wi - wj) as nat) > 0,
            ;
            lemma_binary_injective(top, b, wj);
            if wi == wj {
                assert(top == a) by {
                    assert(pow2(0) == 1);
                }
            } else if j == m {
                // A single 1 against a word with a leading 0.
                lemma_pow2_unfold(wi);
                assert(top == 1);
                assert(a >= pow2((wi - 1) as nat)) by (nonlinear_arith)
                    requires
                        top == 1,
                        top == a / (pow2((wi - wj) as nat) as int),
                        wj == 1,
                        pow2((wi - wj) as nat) > 0,
                        a >= 0,
                ;
                if i < i0 {
                    assert(wi == l);
                    assert(false);
                } else {
                    assert(wi == l + 1);
                    assert(false);
                }
            } else {
                // A short word against a long one.
                assert(wi == l + 1 && wj == l);
                assert(pow2(1) == 2);
                assert(top == (i + i0) / 2);
                assert(i >= i0 && j < i0);
            }
        }
    }
}

spec fn golomb_value(m: int, l: nat, k: int) -> int {
    if k >= m {
        1
    } else if k < pow2(l) - m {
        k
    } else {
        k + (pow2(l) - m)
    }
}

spec fn golomb_width(m: int, l: nat, k: int) -> nat {
    if k >= m {
        1
    } else if k < pow2(l) - m {
        l
    } else {
        l + 1
    }
}

proof fn lemma_golomb_output(m: int, l: nat, k: int)
    requires
        1 <= m,
        is_ceil_log2(m, l),
        0 <= k <= m,
    ensures
        outputs(golomb_code(m, l))[k] == binary(golomb_value(m, l, k), golomb_width(m, l, k)),
        0 <= golomb_value(m, l, k) < pow2(golomb_width(m, l, k)),
{
    vstd::arithmetic::power2::lemma2_to64();
    lemma_pow2_unfold((l + 1) as nat);
    if k == m {
        reveal_with_fuel(binary, 2);
        assert(binary(1, 1) =~= seq![true]);
    }
}

/// **The Golomb codes are prefix-free on both sides**, so that each of their
/// codewords is found again by encoding and by decoding.
pub proof fn golomb_codes_are_prefix_free(m: int, l: nat)
    requires
        1 <= m,
        is_ceil_log2(m, l),
    ensures
        prefix_free(inputs(golomb_code(m, l))),
        prefix_free(outputs(golomb_code(m, l))),
{
    lemma_golomb_inputs_prefix_free(m, l);
    lemma_golomb_outputs_prefix_free(m, l);
}

// ---------------------------------------------------------------------------
// Shorthand of decoding trees
// ---------------------------------------------------------------------------

/// White space.
pub open spec fn is_space(c: char) -> bool {
    ||| '\u{9}' <= c <= '\u{d}'
    ||| c == '\u{20}'
    ||| c == '\u{85}'
    ||| c == '\u{a0}'
    ||| c == '\u{1680}'
    ||| '\u{2000}' <= c <= '\u{200a}'
    ||| c == '\u{2028}'
    ||| c == '\u{2029}'
    ||| c == '\u{202f}'
    ||| c == '\u{205f}'
    ||| c == '\u{3000}'
}

/// The first position from `i` on that holds no white space.
pub open spec fn skip_spaces(s: Seq<char>, i: int) -> int
    decreases s.len() - i,
{
    if 0 <= i < s.len() && is_space(s[i]) {
        skip_spaces(s, i + 1)
    } else {
        i
    }
}

/// A decimal digit.
pub open spec fn is_digit(c: char) -> bool {
    '0' <= c <= '9'
}

/// The number whose digits start at `i`, continuing `n`, and the position
/// behind it. `None` when it does not fit in 32 bits.
pub open spec fn run_length(s: Seq<char>, i: int, n: int) -> Option<(int, int)>
    decreases s.len() - i,
{
    if n > u32::MAX {
        None
    } else if 0 <= i < s.len() && is_digit(s[i]) {
        run_length(s, i + 1, 10 * n + (s[i] as int - '0' as int))
    } else {
        Some((n, i))
    }
}

/// How often the bit before `i` is repeated, and the position behind that: a
/// number behind a caret, and else once.
pub open spec fn repetition(s: Seq<char>, i: int) -> Option<(int, int)> {
    if 0 <= i < s.len() && s[i] == '^' {
        if i + 1 < s.len() && is_digit(s[i + 1]) {
            run_length(s, i + 1, 0)
        } else {
            None
        }
    } else {
        Some((1, i))
    }
}

/// `n` times `b`.
pub open spec fn repeated(b: bool, n: int) -> Seq<bool> {
    Seq::new(n as nat, |i: int| b)
}

/// The codeword that starts at `i`, continuing `bits`, and the position behind
/// it.
pub open spec fn leaf(s: Seq<char>, i: int, bits: Seq<bool>) -> Option<(Seq<bool>, int)>
    decreases s.len() - i,
{
    if 0 <= i < s.len() && is_space(s[i]) {
        leaf(s, i + 1, bits)
    } else if 0 <= i < s.len() && (s[i] == '0' || s[i] == '1') {
        match repetition(s, i + 1) {
            None => None,
            Some((n, j)) => if i < j <= s.len() {
                leaf(s, j, bits + repeated(s[i] == '1', n))
            } else {
                None
            },
        }
    } else {
        Some((bits, i))
    }
}

/// The pairs of the tree that starts at `i` under the branches `path`, and the
/// position behind it. A leaf is an input codeword; the branches that lead to
/// it are the output codeword.
pub open spec fn subtree(s: Seq<char>, i: int, path: Seq<bool>) -> Option<(CodePairs, int)>
    decreases s.len() - i,
{
    let k = skip_spaces(s, i);
    if !(0 <= i <= k < s.len()) {
        None
    } else if s[k] == '(' {
        match subtree(s, k + 1, path.push(false)) {
            None => None,
            Some((left, i1)) => {
                let k1 = skip_spaces(s, i1);
                if !(k < i1 <= k1 < s.len() && s[k1] == ',') {
                    None
                } else {
                    match subtree(s, k1 + 1, path.push(true)) {
                        None => None,
                        Some((right, i2)) => {
                            let k2 = skip_spaces(s, i2);
                            if !(k1 < i2 <= k2 < s.len() && s[k2] == ')') {
                                None
                            } else {
                                Some((left + right, k2 + 1))
                            }
                        },
                    }
                }
            },
        }
    } else if s[k] == '0' || s[k] == '1' {
        match leaf(s, k, Seq::empty()) {
            None => None,
            Some((bits, j)) => Some((seq![(bits, path)], j)),
        }
    } else {
        None
    }
}

/// The code that a shorthand describes, and `None` when it describes none.
pub open spec fn shorthand_code(s: Seq<char>) -> Option<CodePairs> {
    match subtree(s, 0, Seq::empty()) {
        Some((pairs, i)) => if skip_spaces(s, i) == s.len() {
            Some(pairs)
        } else {
            None
        },
        None => None,
    }
}

/// Every pair from under a branch has an output codeword that starts with it,
/// and these tell themselves apart.
proof fn lemma_subtree_outputs(s: Seq<char>, i: int, path: Seq<bool>)
    requires
        subtree(s, i, path) is Some,
    ensures
        prefix_free(outputs((subtree(s, i, path)->0).0)),
        forall|k: int|
            0 <= k < (subtree(s, i, path)->0).0.len() ==> starts_with(
                (#[trigger] (subtree(s, i, path)->0).0[k]).1,
                path,
            ),
    decreases s.len() - i,
{
    let k = skip_spaces(s, i);
    let all = (subtree(s, i, path)->0).0;
    if s[k] == '(' {
        let (left, i1) = subtree(s, k + 1, path.push(false))->0;
        let k1 = skip_spaces(s, i1);
        let (right, _) = subtree(s, k1 + 1, path.push(true))->0;
        lemma_subtree_outputs(s, k + 1, path.push(false));
        lemma_subtree_outputs(s, k1 + 1, path.push(true));
        let n = left.len() as int;
        assert forall|a: int| 0 <= a < all.len() implies starts_with((#[trigger] all[a]).1, path)
            && all[a].1.len() > path.len() && all[a].1[path.len() as int] == (a >= n) by {
            if a < n {
                assert(all[a] == left[a]);
                lemma_branch(all[a].1, path, false);
            } else {
                assert(all[a] == right[a - n]);
                lemma_branch(all[a].1, path, true);
            }
        }
        let words = outputs(all);
        assert forall|a: int, b: int|
            0 <= a < words.len() && 0 <= b < words.len() && a != b implies !starts_with(
            #[trigger] words[a],
            #[trigger] words[b],
        ) by {
            assert(words[a] == all[a].1 && words[b] == all[b].1);
            if a < n && b < n {
                assert(words[a] == outputs(left)[a] && words[b] == outputs(left)[b]);
            } else if a >= n && b >= n {
                assert(words[a] == outputs(right)[a - n] && words[b] == outputs(right)[b - n]);
            } else if starts_with(words[a], words[b]) {
                let d = path.len() as int;
                assert(words[a].take(words[b].len() as int)[d] == words[a][d]);
            }
        }
    } else {
        assert(path.take(path.len() as int) =~= path);
    }
}

proof fn lemma_branch(word: Seq<bool>, path: Seq<bool>, b: bool)
    requires
        starts_with(word, path.push(b)),
    ensures
        starts_with(word, path),
        word.len() > path.len(),
        word[path.len() as int] == b,
{
    let n = path.len() as int;
    let longer = word.take(n + 1);
    assert(word.take(n) =~= longer.take(n));
    assert(path.push(b).take(n) =~= path);
    assert(word[n] == longer[n]);
}

/// **A decoding tree has prefix-free output codewords**, whatever its leaves
/// are.
pub proof fn decoding_trees_are_prefix_free(s: Seq<char>)
    ensures
        shorthand_code(s) matches Some(code) ==> prefix_free(outputs(code)),
{
    if shorthand_code(s) is Some {
        lemma_subtree_outputs(s, 0, Seq::empty());
    }
}

fn char_is_space(c: char) -> (b: bool)
    ensures
        b == is_space(c),
{
    ('\u{9}' <= c && c <= '\u{d}') || c == '\u{20}' || c == '\u{85}' || c == '\u{a0}' || c
        == '\u{1680}' || ('\u{2000}' <= c && c <= '\u{200a}') || c == '\u{2028}' || c == '\u{2029}' || c
        == '\u{202f}' || c == '\u{205f}' || c == '\u{3000}'
}

fn pass_spaces(s: &Vec<char>, i: usize) -> (k: usize)
    requires
        i <= s@.len(),
    ensures
        k == skip_spaces(s@, i as int),
        i <= k <= s@.len(),
{
    let mut k: usize = i;
    while k < s.len() && char_is_space(s[k])
        invariant
            i <= k <= s@.len(),
            skip_spaces(s@, i as int) == skip_spaces(s@, k as int),
        decreases s@.len() - k,
    {
        k = k + 1;
    }
    k
}

fn digit_value(c: char) -> (d: Option<u64>)
    ensures
        is_digit(c) ==> d is Some && d->0 == c as int - '0' as int && d->0 <= 9,
        !is_digit(c) ==> d is None,
{
    match c {
        '0' => Some(0),
        '1' => Some(1),
        '2' => Some(2),
        '3' => Some(3),
        '4' => Some(4),
        '5' => Some(5),
        '6' => Some(6),
        '7' => Some(7),
        '8' => Some(8),
        '9' => Some(9),
        _ => None,
    }
}

fn read_repetition(s: &Vec<char>, i: usize) -> (r: Option<(u32, usize)>)
    requires
        i <= s@.len(),
    ensures
        match repetition(s@, i as int) {
            None => r is None,
            Some((n, j)) => r is Some && (r->0).0 == n && (r->0).1 == j && i <= j <= s@.len(),
        },
{
    if i >= s.len() || s[i] != '^' {
        return Some((1, i));
    }
    let mut k: usize = i + 1;
    if k >= s.len() || digit_value(s[k]).is_none() {
        return None;
    }
    let mut n: u64 = 0;
    while k < s.len()
        invariant
            i < k <= s@.len(),
            0 <= n <= u32::MAX,
            run_length(s@, i + 1, 0) == run_length(s@, k as int, n as int),
            repetition(s@, i as int) == run_length(s@, i + 1, 0),
        decreases s@.len() - k,
    {
        match digit_value(s[k]) {
            None => {
                return Some((n as u32, k));
            },
            Some(d) => {
                n = 10 * n + d;
                k = k + 1;
                if n > u32::MAX as u64 {
                    return None;
                }
            },
        }
    }
    Some((n as u32, k))
}

fn read_leaf(s: &Vec<char>, i: usize) -> (r: Option<(Vec<bool>, usize)>)
    requires
        i <= s@.len(),
    ensures
        match leaf(s@, i as int, Seq::empty()) {
            None => r is None,
            Some((bits, j)) => r is Some && (r->0).0@ == bits && (r->0).1 == j && i <= j <= s@.len(),
        },
{
    let mut bits: Vec<bool> = Vec::new();
    let mut k: usize = i;
    assert(bits@ =~= Seq::empty());
    while k < s.len()
        invariant
            i <= k <= s@.len(),
            leaf(s@, i as int, Seq::empty()) == leaf(s@, k as int, bits@),
        decreases s@.len() - k,
    {
        if char_is_space(s[k]) {
            k = k + 1;
        } else if s[k] == '0' || s[k] == '1' {
            let b = s[k] == '1';
            match read_repetition(s, k + 1) {
                None => {
                    return None;
                },
                Some((n, j)) => {
                    let ghost before = bits@;
                    let mut m: u32 = 0;
                    assert(before + repeated(b, 0) =~= before);
                    while m < n
                        invariant
                            m <= n,
                            bits@ == before + repeated(b, m as int),
                        decreases n - m,
                    {
                        bits.push(b);
                        m = m + 1;
                        assert(bits@ =~= before + repeated(b, m as int));
                    }
                    k = j;
                },
            }
        } else {
            return Some((bits, k));
        }
    }
    Some((bits, k))
}

/// The pairs of a vector as a value.
pub open spec fn pairs_view(v: Seq<(Vec<bool>, Vec<bool>)>) -> CodePairs {
    Seq::new(v.len(), |i: int| (v[i].0@, v[i].1@))
}

fn read_subtree(
    s: &Vec<char>,
    i: usize,
    path: &mut Vec<bool>,
    pairs: &mut Vec<(Vec<bool>, Vec<bool>)>,
) -> (r: Option<usize>)
    requires
        i <= s@.len(),
    ensures
        final(path)@ == old(path)@,
        match subtree(s@, i as int, old(path)@) {
            None => r is None,
            Some((p, j)) => r is Some && r->0 == j && i < j <= s@.len() && pairs_view(
                final(pairs)@,
            ) == pairs_view(old(pairs)@) + p,
        },
    decreases s@.len() - i,
{
    let k: usize = pass_spaces(s, i);
    if k >= s.len() {
        return None;
    }
    if s[k] == '(' {
        path.push(false);
        let left = read_subtree(s, k + 1, path, pairs);
        path.pop();
        assert(path@ =~= old(path)@);
        let i1: usize = match left {
            None => {
                return None;
            },
            Some(j) => j,
        };
        let ghost after_left = pairs_view(pairs@);
        let k1: usize = pass_spaces(s, i1);
        if k1 >= s.len() || s[k1] != ',' {
            return None;
        }
        path.push(true);
        let right = read_subtree(s, k1 + 1, path, pairs);
        path.pop();
        assert(path@ =~= old(path)@);
        let i2: usize = match right {
            None => {
                return None;
            },
            Some(j) => j,
        };
        let k2: usize = pass_spaces(s, i2);
        if k2 >= s.len() || s[k2] != ')' {
            return None;
        }
        proof {
            let l = (subtree(s@, k + 1, old(path)@.push(false))->0).0;
            let rr = (subtree(s@, k1 + 1, old(path)@.push(true))->0).0;
            assert(pairs_view(pairs@) =~= pairs_view(old(pairs)@) + (l + rr));
        }
        Some(k2 + 1)
    } else if s[k] == '0' || s[k] == '1' {
        match read_leaf(s, k) {
            None => None,
            Some((bits, j)) => {
                let ghost b = bits@;
                pairs.push((bits, copy_bits(path)));
                assert(pairs_view(pairs@) =~= pairs_view(old(pairs)@) + seq![(b, path@)]);
                proof {
                    lemma_leaf_advances(s@, k as int);
                }
                Some(j)
            },
        }
    } else {
        None
    }
}

/// A leaf is at least one character long.
proof fn lemma_leaf_advances(s: Seq<char>, k: int)
    requires
        0 <= k < s.len(),
        s[k] == '0' || s[k] == '1',
        leaf(s, k, Seq::empty()) is Some,
    ensures
        (leaf(s, k, Seq::empty())->0).1 > k,
{
    let (n, j) = repetition(s, k + 1)->0;
    lemma_leaf_end(s, j, Seq::<bool>::empty() + repeated(s[k] == '1', n));
}

proof fn lemma_leaf_end(s: Seq<char>, i: int, bits: Seq<bool>)
    requires
        leaf(s, i, bits) is Some,
    ensures
        (leaf(s, i, bits)->0).1 >= i,
    decreases s.len() - i,
{
    if 0 <= i < s.len() && is_space(s[i]) {
        lemma_leaf_end(s, i + 1, bits);
    } else if 0 <= i < s.len() && (s[i] == '0' || s[i] == '1') {
        let (n, j) = repetition(s, i + 1)->0;
        lemma_leaf_end(s, j, bits + repeated(s[i] == '1', n));
    }
}

// ---------------------------------------------------------------------------
// Codes
// ---------------------------------------------------------------------------

impl ComponentCode {
    /// Number of pairs.
    pub fn len(&self) -> (n: usize)
        ensures
            n == self@.len(),
    {
        self.pairs.len()
    }

    /// Whether the code has no pairs.
    pub fn is_empty(&self) -> (b: bool)
        ensures
            b == (self@.len() == 0),
    {
        self.pairs.len() == 0
    }

    /// The Golomb code with parameter `m`.
    pub fn golomb(m: u32) -> (c: Self)
        requires
            1 <= m <= 0x8000_0000,
        ensures
            exists|l: nat| is_ceil_log2(m as int, l) && c@ == #[trigger] golomb_code(m as int, l),
    {
        let l: u32 = ceil_log2(m);
        proof {
            vstd::arithmetic::power2::lemma2_to64();
            if l < 31 {
                lemma_pow2_strictly_increases(l as nat, 31);
            }
        }
        let mut p: u64 = 1;
        let mut e: u32 = 0;
        while e < l
            invariant
                e <= l <= 31,
                p == pow2(e as nat),
                pow2(31) == 0x8000_0000,
            decreases l - e,
        {
            proof {
                lemma_pow2_unfold((e + 1) as nat);
                lemma_pow2_strictly_increases(e as nat, 31);
            }
            p = p * 2;
            e = e + 1;
        }
        let i: u32 = (p - m as u64) as u32;
        let mut pairs: Vec<(Vec<bool>, Vec<bool>)> = Vec::new();
        let ghost full = golomb_code(m as int, l as nat);
        let mut k: u32 = 0;
        while k < m
            invariant
                k <= m <= 0x8000_0000,
                i == pow2(l as nat) - m,
                pow2(l as nat) <= 0x8000_0000,
                l <= 31,
                full == golomb_code(m as int, l as nat),
                pairs_view(pairs@) == full.take(k as int),
            decreases m - k,
        {
            let mut input = zero_run(k);
            input.push(true);
            let output = if k < i {
                int_to_bits(k, l)
            } else {
                int_to_bits(k + i, l + 1)
            };
            let ghost before = pairs_view(pairs@);
            let ghost pair = (input@, output@);
            assert(pair == full[k as int]);
            pairs.push((input, output));
            assert(pairs_view(pairs@) =~= before.push(pair));
            assert(full.take(k + 1) =~= full.take(k as int).push(full[k as int]));
            k = k + 1;
        }
        let one: Vec<bool> = vec![true];
        assert(one@ =~= seq![true]);
        let last = zero_run(m);
        let ghost before = pairs_view(pairs@);
        let ghost pair = (last@, one@);
        assert(pair == full[m as int]);
        pairs.push((last, one));
        assert(pairs_view(pairs@) =~= before.push(pair));
        assert(full =~= full.take(m as int).push(full[m as int]));
        let c = ComponentCode { pairs };
        assert(c@ =~= pairs_view(c.pairs@));
        assert(is_ceil_log2(m as int, l as nat) && c@ == golomb_code(m as int, l as nat));
        c
    }

    /// The code that a decoding tree in shorthand describes, and a code without
    /// pairs when `spec` is no such tree. A leaf is an input codeword, written
    /// with `0^4` for four zeros; a pair of branches is written `(zero, one)`.
    pub fn from_shorthand(spec: &str) -> (c: Self)
        ensures
            c@ == (match shorthand_code(spec@) {
                Some(pairs) => pairs,
                None => Seq::empty(),
            }),
    {
        let n: usize = spec.unicode_len();
        let mut s: Vec<char> = Vec::new();
        let mut i: usize = 0;
        while i < n
            invariant
                i <= n,
                n == spec@.len(),
                s@ == spec@.take(i as int),
            decreases n - i,
        {
            s.push(spec.get_char(i));
            assert(spec@.take(i + 1) =~= spec@.take(i as int).push(spec@[i as int]));
            i = i + 1;
        }
        assert(s@ =~= spec@);
        let mut path: Vec<bool> = Vec::new();
        let mut pairs: Vec<(Vec<bool>, Vec<bool>)> = Vec::new();
        assert(path@ =~= Seq::empty());
        match read_subtree(&s, 0, &mut path, &mut pairs) {
            Some(j) => {
                if pass_spaces(&s, j) == s.len() {
                    let c = ComponentCode { pairs };
                    assert(c@ =~= shorthand_code(spec@)->0);
                    return c;
                }
            },
            None => {},
        }
        let c = ComponentCode { pairs: Vec::new() };
        assert(c@ =~= Seq::empty());
        c
    }

    /// The code that leaves every bit as it is.
    pub fn uncoded() -> (c: Self)
        ensures
            c@ == uncoded_code(),
    {
        let mut pairs: Vec<(Vec<bool>, Vec<bool>)> = Vec::new();
        pairs.push((vec![false], vec![false]));
        pairs.push((vec![true], vec![true]));
        let c = ComponentCode { pairs };
        assert(c@[0].0 =~= seq![false] && c@[0].1 =~= seq![false]);
        assert(c@[1].0 =~= seq![true] && c@[1].1 =~= seq![true]);
        assert(c@ =~= uncoded_code());
        c
    }

    /// Read one input codeword from the front of `bits`. Returns the output
    /// codeword that it maps to and its length; `None` when `bits` starts with
    /// no input codeword.
    pub fn encode_one(&self, bits: &[bool]) -> (r: Option<(Vec<bool>, usize)>)
        ensures
            match lookup(inputs(self@), bits@) {
                None => r is None,
                Some(i) => r is Some && (r->0).0@ == self@[i].1 && (r->0).1 == self@[i].0.len(),
            },
    {
        let ghost words = inputs(self@);
        let mut best: Option<usize> = None;
        let mut i: usize = 0;
        assert(words.take(0) =~= Seq::empty());
        while i < self.pairs.len()
            invariant
                i <= self.pairs@.len(),
                words == inputs(self@),
                words.len() == self.pairs@.len(),
                best is Some ==> best->0 < i,
                lookup(words.take(i as int), bits@) == (match best {
                    None => None::<int>,
                    Some(b) => Some(b as int),
                }),
            decreases self.pairs@.len() - i,
        {
            let fits = bits_start_with(bits, &self.pairs[i].0) && (match best {
                None => true,
                Some(b) => self.pairs[i].0.len() <= self.pairs[b].0.len(),
            });
            assert(words.take(i + 1).drop_last() =~= words.take(i as int));
            assert(words[i as int] == self.pairs@[i as int].0@);
            if fits {
                best = Some(i);
            }
            i = i + 1;
        }
        assert(words.take(i as int) =~= words);
        match best {
            None => None,
            Some(b) => Some((copy_bits(&self.pairs[b].1), self.pairs[b].0.len())),
        }
    }

    /// Read one output codeword from the front of `bits`. Returns the input
    /// codeword that maps to it and its length; `None` when `bits` starts with
    /// no output codeword.
    pub fn decode_one(&self, bits: &[bool]) -> (r: Option<(Vec<bool>, usize)>)
        ensures
            match lookup(outputs(self@), bits@) {
                None => r is None,
                Some(i) => r is Some && (r->0).0@ == self@[i].0 && (r->0).1 == self@[i].1.len(),
            },
    {
        let ghost words = outputs(self@);
        let mut best: Option<usize> = None;
        let mut i: usize = 0;
        assert(words.take(0) =~= Seq::empty());
        while i < self.pairs.len()
            invariant
                i <= self.pairs@.len(),
                words == outputs(self@),
                words.len() == self.pairs@.len(),
                best is Some ==> best->0 < i,
                lookup(words.take(i as int), bits@) == (match best {
                    None => None::<int>,
                    Some(b) => Some(b as int),
                }),
            decreases self.pairs@.len() - i,
        {
            let fits = bits_start_with(bits, &self.pairs[i].1) && (match best {
                None => true,
                Some(b) => self.pairs[i].1.len() <= self.pairs[b].1.len(),
            });
            assert(words.take(i + 1).drop_last() =~= words.take(i as int));
            assert(words[i as int] == self.pairs@[i as int].1@);
            if fits {
                best = Some(i);
            }
            i = i + 1;
        }
        assert(words.take(i as int) =~= words);
        match best {
            None => None,
            Some(b) => Some((copy_bits(&self.pairs[b].0), self.pairs[b].1.len())),
        }
    }

    /// Length of the longest input codeword, and 0 for a code without pairs.
    pub fn max_input_len(&self) -> (n: usize)
        ensures
            forall|i: int| 0 <= i < self@.len() ==> (#[trigger] self@[i]).0.len() <= n,
            self@.len() == 0 ==> n == 0,
            self@.len() > 0 ==> exists|i: int|
                0 <= i < self@.len() && (#[trigger] self@[i]).0.len() == n,
    {
        let mut n: usize = 0;
        let mut i: usize = 0;
        while i < self.pairs.len()
            invariant
                i <= self.pairs@.len(),
                forall|j: int| 0 <= j < i ==> (#[trigger] self@[j]).0.len() <= n,
                i == 0 ==> n == 0,
                i > 0 ==> exists|j: int| 0 <= j < i && (#[trigger] self@[j]).0.len() == n,
            decreases self.pairs@.len() - i,
        {
            let len: usize = self.pairs[i].0.len();
            assert(self@[i as int].0.len() == len);
            if i == 0 || len > n {
                n = len;
            }
            i = i + 1;
        }
        n
    }

    /// The pairs, in order.
    pub fn pairs(&self) -> (p: &[(Vec<bool>, Vec<bool>)])
        ensures
            pairs_view(p@) == self@,
    {
        let p = self.pairs.as_slice();
        assert(pairs_view(p@) =~= self@);
        p
    }
}

/// The code that leaves every bit as it is.
pub open spec fn uncoded_code() -> CodePairs {
    seq![(seq![false], seq![false]), (seq![true], seq![true])]
}

// ---------------------------------------------------------------------------
// Bins
// ---------------------------------------------------------------------------

/// One bin: the probabilities of a zero that it covers and its code.
#[derive(Debug, Clone)]
pub struct Bin {
    /// Index, from 1.
    pub index: u8,
    /// Upper end of the covered probabilities, over [`Z_DENOM`]. The lower end
    /// is that of the bin before.
    pub cutoff_num: u32,
    /// Component code.
    pub code: ComponentCode,
}

/// Denominator of the cutoffs.
pub const Z_DENOM: u32 = 65536;

/// Lower end of the first bin: one half.
pub const Z0_NUM: u32 = 32768;

/// Upper ends of the bins.
pub const CUTOFFS: [u32; 17] = [
    35298,
    37345,
    40503,
    43591,
    47480,
    50133,
    53645,
    55902,
    57755,
    58894,
    60437,
    62267,
    63613,
    64557,
    65134,
    65392,
    65536,
];

/// Parameters of the Golomb codes of bins 9 to 17.
pub const GOLOMB_PARAMETERS: [u32; 9] = [5, 6, 7, 11, 17, 31, 70, 200, 512];

/// The shorthand of bin `j`, for `j` from 2 to 8.
pub open spec fn bin_shorthand(j: int) -> Seq<char> {
    if j == 2 {
        "(((((0^4 1, 1^4 ), 0^3 1), 001), 10), (01, (110, (0^5 , 1^3 0))))"@
    } else if j == 3 {
        "(((001, ((1101, 0^3 11), 1^3 )), 10), (01, (0^4 , (1100, 0^3 10))))"@
    } else if j == 4 {
        "((0^3 , 01), (10, (001, 11)))"@
    } else if j == 5 {
        "(((010, (10^4 , 110)), ((101, 011), ((10^3 1, 1^3 ), 1001))), 00)"@
    } else if j == 6 {
        "((0^5 , 1), ((0^3 1, 001), (010, (0^4 1, 011))))"@
    } else if j == 7 {
        "(0^3 , ((001, 010), (100, (11, (011, 101)))))"@
    } else {
        "(0^4 , ((001, 01), (10, (0^3 10, (0^3 11, 11)))))"@
    }
}

/// Digits of the Golomb codes of bins 9 to 17.
pub const GOLOMB_DIGITS: [u32; 9] = [3, 3, 3, 4, 5, 5, 7, 8, 9];

/// The component code of bin `j`.
pub open spec fn bin_code(j: int) -> CodePairs {
    if j <= 1 {
        uncoded_code()
    } else if j <= 8 {
        match shorthand_code(bin_shorthand(j)) {
            Some(pairs) => pairs,
            None => Seq::empty(),
        }
    } else {
        golomb_code(GOLOMB_PARAMETERS@[j - 9] as int, GOLOMB_DIGITS@[j - 9] as nat)
    }
}

/// The digits of the Golomb codes in use.
pub proof fn lemma_digits(j: int)
    requires
        9 <= j <= 17,
    ensures
        ({
            let m = GOLOMB_PARAMETERS@[j - 9] as int;
            let l = GOLOMB_DIGITS@[j - 9] as nat;
            &&& 5 <= m <= 512
            &&& 3 <= l <= 9
            &&& is_ceil_log2(m, l)
        }),
{
    vstd::arithmetic::power2::lemma2_to64();
}

proof fn lemma_same_digits(m: int, k: nat, l: nat)
    requires
        is_ceil_log2(m, k),
        is_ceil_log2(m, l),
    ensures
        k == l,
{
    if k < l {
        if k < l - 1 {
            lemma_pow2_strictly_increases(k, (l - 1) as nat);
        }
    } else if l < k {
        if l < k - 1 {
            lemma_pow2_strictly_increases(l, (k - 1) as nat);
        }
    }
}

pub(crate) fn shorthand_of(j: usize) -> (s: &'static str)
    ensures
        s@ == bin_shorthand(j as int),
{
    if j == 2 {
        "(((((0^4 1, 1^4 ), 0^3 1), 001), 10), (01, (110, (0^5 , 1^3 0))))"
    } else if j == 3 {
        "(((001, ((1101, 0^3 11), 1^3 )), 10), (01, (0^4 , (1100, 0^3 10))))"
    } else if j == 4 {
        "((0^3 , 01), (10, (001, 11)))"
    } else if j == 5 {
        "(((010, (10^4 , 110)), ((101, 011), ((10^3 1, 1^3 ), 1001))), 00)"
    } else if j == 6 {
        "((0^5 , 1), ((0^3 1, 001), (010, (0^4 1, 011))))"
    } else if j == 7 {
        "(0^3 , ((001, 010), (100, (11, (011, 101)))))"
    } else {
        "(0^4 , ((001, 01), (10, (0^3 10, (0^3 11, 11)))))"
    }
}

/// The seventeen bins.
pub fn bins() -> (r: Vec<Bin>)
    ensures
        r@.len() == 17,
        forall|i: int|
            0 <= i < 17 ==> (#[trigger] r@[i]).index == i + 1 && r@[i].cutoff_num == CUTOFFS@[i]
                && r@[i].code@ == bin_code(i + 1),
{
    let mut r: Vec<Bin> = Vec::new();
    let mut i: usize = 0;
    while i < 17
        invariant
            i <= 17,
            r@.len() == i,
            forall|k: int|
                0 <= k < i ==> (#[trigger] r@[k]).index == k + 1 && r@[k].cutoff_num == CUTOFFS@[k]
                    && r@[k].code@ == bin_code(k + 1),
        decreases 17 - i,
    {
        let code = if i == 0 {
            ComponentCode::uncoded()
        } else if i < 8 {
            ComponentCode::from_shorthand(shorthand_of(i + 1))
        } else {
            let m: u32 = GOLOMB_PARAMETERS[i - 8];
            assert(1 <= m <= 512);
            let c = ComponentCode::golomb(m);
            assert(m == GOLOMB_PARAMETERS@[i + 1 - 9]);
            proof {
                lemma_digits(i + 1);
                let l = choose|l: nat|
                    is_ceil_log2(m as int, l) && c@ == #[trigger] golomb_code(m as int, l);
                lemma_same_digits(m as int, l, GOLOMB_DIGITS@[i - 8] as nat);
            }
            c
        };
        r.push(Bin { index: (i + 1) as u8, cutoff_num: CUTOFFS[i], code });
        i = i + 1;
    }
    r
}

/// The bin from `j` on that covers the probability `p_num / p_den`.
pub open spec fn bin_from(j: int, p_num: int, p_den: int) -> int
    decreases 17 - j,
{
    if j >= 17 || p_num * 65536 < CUTOFFS@[j - 1] * p_den {
        j
    } else {
        bin_from(j + 1, p_num, p_den)
    }
}

/// The bin, from 1 to 17, that covers the probability of a zero
/// `p_num / p_den`: the first whose cutoff is above it, and the last bin when
/// none is.
pub fn bin_for_probability(p_num: u32, p_den: u32) -> (j: u8)
    ensures
        j == bin_from(1, p_num as int, p_den as int),
        1 <= j <= 17,
{
    let lhs: u64 = p_num as u64 * 65536;
    let mut idx: usize = 0;
    while idx < 17
        invariant
            idx <= 17,
            lhs == p_num * 65536,
            idx < 17 ==> bin_from(1, p_num as int, p_den as int) == bin_from(
                idx + 1,
                p_num as int,
                p_den as int,
            ),
            idx == 17 ==> bin_from(1, p_num as int, p_den as int) == 17,
        decreases 17 - idx,
    {
        let cut: u64 = CUTOFFS[idx] as u64;
        assert(cut * p_den <= 0xFFFF_FFFF * 0xFFFF_FFFF) by (nonlinear_arith)
            requires
                cut <= 0xFFFF_FFFF,
                p_den <= 0xFFFF_FFFF,
        ;
        let rhs: u64 = cut * p_den as u64;
        if lhs < rhs {
            return (idx + 1) as u8;
        }
        idx = idx + 1;
    }
    17
}

/// **The bin of a probability is the first whose cutoff is above it**: all bins
/// before it have cutoffs that are not, and it has one that is unless it is the
/// last.
pub proof fn bins_cover_probabilities(p_num: int, p_den: int, k: int)
    requires
        1 <= k <= 17,
    ensures
        ({
            let j = bin_from(1, p_num, p_den);
            &&& 1 <= j <= 17
            &&& k < j ==> p_num * 65536 >= CUTOFFS@[k - 1] * p_den
            &&& k == j && j < 17 ==> p_num * 65536 < CUTOFFS@[k - 1] * p_den
        }),
{
    lemma_bin_from(1, p_num, p_den, k);
}

proof fn lemma_bin_from(from: int, p_num: int, p_den: int, k: int)
    requires
        1 <= from <= k <= 17,
    ensures
        ({
            let j = bin_from(from, p_num, p_den);
            &&& from <= j <= 17
            &&& k < j ==> p_num * 65536 >= CUTOFFS@[k - 1] * p_den
            &&& k == j && j < 17 ==> p_num * 65536 < CUTOFFS@[k - 1] * p_den
        }),
    decreases 17 - from,
{
    if from < 17 && p_num * 65536 >= CUTOFFS@[from - 1] * p_den {
        lemma_bin_from(from + 1, p_num, p_den, if k == from {
            from + 1
        } else {
            k
        });
    }
}

/// **A higher probability is not in a lower bin.**
pub proof fn bins_follow_probabilities(a: int, b: int, den: int)
    requires
        0 < den,
        a <= b,
    ensures
        bin_from(1, a, den) <= bin_from(1, b, den),
{
    let (i, j) = (bin_from(1, a, den), bin_from(1, b, den));
    bins_cover_probabilities(a, den, 1);
    bins_cover_probabilities(b, den, 1);
    if j < i {
        bins_cover_probabilities(a, den, j);
        bins_cover_probabilities(b, den, j);
    }
}

} // verus!
