//! The codes of the bins: each can be used for coding, reads every string of
//! bits, and is undone by decoding.

use crate::ixec::{bin_code, codewords_are_found_again, decoding_trees_are_prefix_free, golomb_code, golomb_codes_are_prefix_free, inputs, is_ceil_log2, is_space, leaf, lemma_binary_len, lemma_digits, lemma_lookup, lookup, outputs, prefix_free, repeated, run_length, skip_spaces, starts_with, subtree, uncoded_code, zeros, CodePairs, GOLOMB_DIGITS, GOLOMB_PARAMETERS};
use vstd::arithmetic::power2::pow2;
use vstd::prelude::*;

verus! {

/// Longest output codeword.
pub const MAX_WORD: usize = 16;

/// `bits` are the beginning of an input codeword.
pub open spec fn in_tree(code: CodePairs, bits: Seq<bool>) -> bool {
    exists|i: int| 0 <= i < code.len() && starts_with(#[trigger] code[i].0, bits)
}

/// `bits` are an input codeword.
pub open spec fn is_word(code: CodePairs, bits: Seq<bool>) -> bool {
    exists|i: int| 0 <= i < code.len() && #[trigger] code[i].0 == bits
}

/// A code that can be used: its output codewords are short and tell themselves
/// apart, and as long as an input codeword is not complete, either bit leads
/// on.
pub open spec fn sound(code: CodePairs) -> bool {
    &&& code.len() > 0
    &&& prefix_free(outputs(code))
    &&& forall|i: int| 0 <= i < code.len() ==> (#[trigger] code[i]).1.len() <= MAX_WORD
    &&& forall|i: int| 0 <= i < code.len() ==> (#[trigger] code[i]).0.len() >= 1
    &&& forall|i: int, k: int, b: bool|
        0 <= i < code.len() && 0 <= k < code[i].0.len() ==> #[trigger] in_tree(
            code,
            code[i].0.take(k).push(b),
        )
}

// ---------------------------------------------------------------------------
// Trees of input codewords
// ---------------------------------------------------------------------------

/// A tree whose leaves are the input codewords of a code, by their numbers.
pub enum InputTree {
    /// The end of a codeword.
    Leaf(int),
    /// A zero leads to the first tree, a one to the second.
    Fork(Box<InputTree>, Box<InputTree>),
}

/// The tree of one codeword.
pub open spec fn leaf_at(i: int) -> InputTree {
    InputTree::Leaf(i)
}

/// Two trees under one.
pub open spec fn fork(zero: InputTree, one: InputTree) -> InputTree {
    InputTree::Fork(Box::new(zero), Box::new(one))
}

/// The leaves of the tree under `path` are input codewords of the code.
pub open spec fn fits(t: InputTree, path: Seq<bool>, code: CodePairs) -> bool
    decreases t,
{
    match t {
        InputTree::Leaf(i) => 0 <= i < code.len() && code[i].0 == path,
        InputTree::Fork(a, b) => fits(*a, path.push(false), code) && fits(
            *b,
            path.push(true),
            code,
        ),
    }
}

/// Codeword `i` is a leaf of the tree.
pub open spec fn has_leaf(t: InputTree, i: int) -> bool
    decreases t,
{
    match t {
        InputTree::Leaf(k) => i == k,
        InputTree::Fork(a, b) => has_leaf(*a, i) || has_leaf(*b, i),
    }
}

/// Length of the longest way to a leaf.
pub open spec fn height(t: InputTree) -> int
    decreases t,
{
    match t {
        InputTree::Leaf(_) => 0,
        InputTree::Fork(a, b) => 1 + (if height(*a) < height(*b) {
            height(*b)
        } else {
            height(*a)
        }),
    }
}

/// The leaf that the bits from `k` on lead to.
spec fn walk(t: InputTree, bits: Seq<bool>, k: int) -> Option<int>
    decreases t,
{
    match t {
        InputTree::Leaf(i) => Some(i),
        InputTree::Fork(a, b) => if k >= bits.len() {
            None
        } else if bits[k] {
            walk(*b, bits, k + 1)
        } else {
            walk(*a, bits, k + 1)
        },
    }
}

proof fn lemma_somewhere(t: InputTree, path: Seq<bool>, code: CodePairs)
    requires
        fits(t, path, code),
    ensures
        in_tree(code, path),
    decreases t,
{
    match t {
        InputTree::Leaf(i) => {
            assert(code[i].0.take(path.len() as int) =~= path);
            assert(starts_with(code[i].0, path));
        },
        InputTree::Fork(a, _) => {
            lemma_somewhere(*a, path.push(false), code);
            let i = choose|i: int|
                0 <= i < code.len() && starts_with(#[trigger] code[i].0, path.push(false));
            lemma_shorter_start(code[i].0, path, false);
        },
    }
}

proof fn lemma_shorter_start(bits: Seq<bool>, path: Seq<bool>, b: bool)
    requires
        starts_with(bits, path.push(b)),
    ensures
        starts_with(bits, path),
        bits[path.len() as int] == b,
{
    let n = path.len() as int;
    let longer = bits.take(n + 1);
    assert(longer == path.push(b));
    assert(bits.take(n) =~= longer.take(n));
    assert(path.push(b).take(n) =~= path);
    assert(bits[n] == longer[n]);
}

/// A codeword leads to its leaf.
proof fn lemma_walk_hits(t: InputTree, path: Seq<bool>, code: CodePairs, i: int)
    requires
        fits(t, path, code),
        has_leaf(t, i),
    ensures
        0 <= i < code.len(),
        starts_with(code[i].0, path),
        walk(t, code[i].0, path.len() as int) == Some(i),
    decreases t,
{
    match t {
        InputTree::Leaf(_) => {
            assert(path.take(path.len() as int) =~= path);
        },
        InputTree::Fork(a, b) => {
            if has_leaf(*a, i) {
                lemma_walk_hits(*a, path.push(false), code, i);
                lemma_shorter_start(code[i].0, path, false);
            } else {
                lemma_walk_hits(*b, path.push(true), code, i);
                lemma_shorter_start(code[i].0, path, true);
            }
        },
    }
}

/// What leads to a leaf leads there whatever follows.
proof fn lemma_walk_on(t: InputTree, word: Seq<bool>, bits: Seq<bool>, k: int)
    requires
        starts_with(bits, word),
        0 <= k,
        walk(t, word, k) is Some,
    ensures
        walk(t, bits, k) == walk(t, word, k),
    decreases t,
{
    match t {
        InputTree::Leaf(_) => {},
        InputTree::Fork(a, b) => {
            assert(bits.take(word.len() as int)[k] == word[k]);
            lemma_walk_on(
                if word[k] {
                    *b
                } else {
                    *a
                },
                word,
                bits,
                k + 1,
            );
        },
    }
}

/// Where bits lead to a leaf they start with its codeword.
proof fn lemma_walk_word(t: InputTree, path: Seq<bool>, code: CodePairs, bits: Seq<bool>)
    requires
        fits(t, path, code),
        starts_with(bits, path),
        bits.len() >= path.len() + height(t),
    ensures
        walk(t, bits, path.len() as int) matches Some(i) && 0 <= i < code.len() && starts_with(
            bits,
            code[i].0,
        ),
        height(t) >= 0,
    decreases t,
{
    match t {
        InputTree::Leaf(_) => {},
        InputTree::Fork(a, b) => {
            lemma_height(*a);
            lemma_height(*b);
            let n = path.len() as int;
            let next = path.push(bits[n]);
            assert(bits.take(n + 1) =~= bits.take(n).push(bits[n]));
            if bits[n] {
                lemma_walk_word(*b, next, code, bits);
            } else {
                lemma_walk_word(*a, next, code, bits);
            }
        },
    }
}

proof fn lemma_height(t: InputTree)
    ensures
        height(t) >= 0,
    decreases t,
{
    match t {
        InputTree::Leaf(_) => {},
        InputTree::Fork(a, b) => {
            lemma_height(*a);
            lemma_height(*b);
        },
    }
}

/// On the way to a codeword either bit leads on.
proof fn lemma_leads_on(t: InputTree, path: Seq<bool>, code: CodePairs, i: int, k: int, b: bool)
    requires
        fits(t, path, code),
        has_leaf(t, i),
        path.len() <= k < code[i].0.len(),
    ensures
        in_tree(code, code[i].0.take(k).push(b)),
    decreases t,
{
    lemma_walk_hits(t, path, code, i);
    match t {
        InputTree::Leaf(_) => {},
        InputTree::Fork(zero, one) => {
            if k == path.len() {
                if b {
                    lemma_somewhere(*one, path.push(true), code);
                } else {
                    lemma_somewhere(*zero, path.push(false), code);
                }
            } else if has_leaf(*zero, i) {
                lemma_leads_on(*zero, path.push(false), code, i, k, b);
            } else {
                lemma_leads_on(*one, path.push(true), code, i, k, b);
            }
        },
    }
}

/// A code whose input codewords are the leaves of a tree reads every string of
/// bits in one way.
proof fn lemma_tree_reads(t: InputTree, code: CodePairs)
    requires
        fits(t, Seq::empty(), code),
        forall|i: int| 0 <= i < code.len() ==> #[trigger] has_leaf(t, i),
    ensures
        prefix_free(inputs(code)),
        forall|bits: Seq<bool>|
            bits.len() >= height(t) ==> (#[trigger] lookup(inputs(code), bits)) is Some,
        forall|i: int, k: int, b: bool|
            0 <= i < code.len() && 0 <= k < code[i].0.len() ==> #[trigger] in_tree(
                code,
                code[i].0.take(k).push(b),
            ),
{
    let words = inputs(code);
    assert forall|i: int, j: int|
        0 <= i < words.len() && 0 <= j < words.len() && i != j implies !starts_with(
        #[trigger] words[i],
        #[trigger] words[j],
    ) by {
        if starts_with(words[i], words[j]) {
            assert(has_leaf(t, i) && has_leaf(t, j));
            lemma_walk_hits(t, Seq::empty(), code, i);
            lemma_walk_hits(t, Seq::empty(), code, j);
            lemma_walk_on(t, code[j].0, code[i].0, 0);
        }
    }
    assert forall|bits: Seq<bool>| bits.len() >= height(t) implies (#[trigger] lookup(
        words,
        bits,
    )) is Some by {
        assert(bits.take(0) =~= Seq::empty());
        lemma_walk_word(t, Seq::empty(), code, bits);
        lemma_lookup(words, bits);
        let i = walk(t, bits, 0)->0;
        assert(starts_with(bits, words[i]));
    }
    assert forall|i: int, k: int, b: bool|
        0 <= i < code.len() && 0 <= k < code[i].0.len() implies #[trigger] in_tree(
        code,
        code[i].0.take(k).push(b),
    ) by {
        assert(has_leaf(t, i));
        lemma_leads_on(t, Seq::empty(), code, i, k, b);
    }
}

// ---------------------------------------------------------------------------
// Bins with a decoding tree
// ---------------------------------------------------------------------------

/// The tree of the input codewords of bin `j`, for `j` from 1 to 8. A leaf is
/// the number of its pair.
pub open spec fn input_tree(j: int) -> InputTree {
    if j <= 1 {
        fork(leaf_at(0), leaf_at(1))
    } else if j == 2 {
        fork(
            fork(fork(fork(fork(leaf_at(7), leaf_at(0)), leaf_at(2)), leaf_at(3)), leaf_at(5)),
            fork(leaf_at(4), fork(leaf_at(6), fork(leaf_at(8), leaf_at(1)))),
        )
    } else if j == 3 {
        fork(
            fork(fork(fork(leaf_at(6), fork(leaf_at(8), leaf_at(2))), leaf_at(0)), leaf_at(5)),
            fork(leaf_at(4), fork(fork(leaf_at(7), leaf_at(1)), leaf_at(3))),
        )
    } else if j == 4 {
        fork(fork(fork(leaf_at(0), leaf_at(3)), leaf_at(1)), fork(leaf_at(2), leaf_at(4)))
    } else if j == 5 {
        fork(
            fork(leaf_at(8), fork(leaf_at(0), leaf_at(4))),
            fork(
                fork(fork(fork(leaf_at(1), leaf_at(5)), leaf_at(7)), leaf_at(3)),
                fork(leaf_at(2), leaf_at(6)),
            ),
        )
    } else if j == 6 {
        fork(
            fork(
                fork(fork(fork(leaf_at(0), leaf_at(5)), leaf_at(2)), leaf_at(3)),
                fork(leaf_at(4), leaf_at(6)),
            ),
            leaf_at(1),
        )
    } else if j == 7 {
        fork(
            fork(fork(leaf_at(0), leaf_at(1)), fork(leaf_at(2), leaf_at(5))),
            fork(fork(leaf_at(3), leaf_at(6)), leaf_at(4)),
        )
    } else {
        fork(
            fork(fork(fork(leaf_at(0), fork(leaf_at(4), leaf_at(5))), leaf_at(1)), leaf_at(2)),
            fork(leaf_at(3), leaf_at(6)),
        )
    }
}

/// The code of bin `j` is that of its tree of input codewords, and its
/// codewords are short.
pub open spec fn well_formed(j: int) -> bool {
    let code = bin_code(j);
    let t = input_tree(j);
    &&& code.len() > 0
    &&& fits(t, Seq::empty(), code)
    &&& forall|i: int| 0 <= i < code.len() ==> #[trigger] has_leaf(t, i)
    &&& forall|i: int|
        0 <= i < code.len() ==> 1 <= (#[trigger] code[i]).0.len() && code[i].1.len() <= MAX_WORD
    &&& height(t) <= 5
    &&& prefix_free(outputs(code))
}

/// `n` bits that are written out from `i` on.
spec fn written(s: Seq<char>, i: int, n: int) -> Seq<bool> {
    Seq::new(n as nat, |k: int| s[i + k] == '1')
}

/// `n` characters from `i` on are bits, and what follows ends a codeword.
spec fn plain_word(s: Seq<char>, i: int, n: int) -> bool {
    &&& 0 <= i
    &&& 0 <= n
    &&& i + n < s.len()
    &&& forall|k: int| i <= k < i + n ==> #[trigger] s[k] == '0' || s[k] == '1'
    &&& s[i + n] == ',' || s[i + n] == ')'
}

proof fn lemma_plain_leaf(s: Seq<char>, i: int, n: int, bits: Seq<bool>)
    requires
        plain_word(s, i, n),
    ensures
        leaf(s, i, bits) == Some((bits + written(s, i, n), i + n)),
    decreases n,
{
    if n == 0 {
        assert(bits + written(s, i, 0) =~= bits);
    } else {
        let b = s[i] == '1';
        assert(s[i] == '0' || s[i] == '1');
        assert(s[i + 1] != '^') by {
            if n > 1 {
                assert(s[i + 1] == '0' || s[i + 1] == '1');
            }
        }
        assert(repeated(b, 1) =~= seq![b]);
        lemma_plain_leaf(s, i + 1, n - 1, bits + repeated(b, 1));
        assert(bits + repeated(b, 1) + written(s, i + 1, n - 1) =~= bits + written(s, i, n));
    }
}

/// A codeword that is written out.
proof fn lemma_word(s: Seq<char>, i: int, path: Seq<bool>, n: int) -> (r: (CodePairs, int))
    requires
        plain_word(s, i, n),
        n >= 1,
    ensures
        r == (seq![(written(s, i, n), path)], i + n),
        subtree(s, i, path) == Some(r),
{
    lemma_plain_leaf(s, i, n, Seq::empty());
    assert(Seq::<bool>::empty() + written(s, i, n) =~= written(s, i, n));
    assert(s[i] == '0' || s[i] == '1');
    (seq![(written(s, i, n), path)], i + n)
}

/// The bits of a codeword with a run: `lead` bits, a run of `c`, and `n` bits.
spec fn with_run(s: Seq<char>, i: int, lead: int, c: int, n: int) -> Seq<bool> {
    written(s, i, lead) + repeated(s[i + lead] == '1', c) + written(s, i + lead + 4, n)
}

/// A codeword with a run and a space behind it.
proof fn lemma_run_word(s: Seq<char>, i: int, path: Seq<bool>, lead: int, c: int, n: int) -> (r: (
    CodePairs,
    int,
))
    requires
        0 <= i,
        0 <= lead <= 1,
        i + lead + 4 < s.len(),
        s[i] == '0' || s[i] == '1',
        s[i + lead] == '0' || s[i + lead] == '1',
        s[i + lead + 1] == '^',
        '0' <= s[i + lead + 2] <= '9',
        s[i + lead + 2] as int - '0' as int == c,
        s[i + lead + 3] == ' ',
        plain_word(s, i + lead + 4, n),
    ensures
        r == (seq![(with_run(s, i, lead, c, n), path)], i + lead + 4 + n),
        subtree(s, i, path) == Some(r),
{
    let none = Seq::<bool>::empty();
    let k = i + lead;
    let bits = none + written(s, i, lead);
    let run = bits + repeated(s[k] == '1', c);
    reveal_with_fuel(run_length, 3);
    lemma_plain_leaf(s, k + 4, n, run);
    assert(leaf(s, k + 3, run) == leaf(s, k + 4, run));
    assert(leaf(s, k, bits) == leaf(s, k + 3, run));
    if lead == 1 {
        assert(none + repeated(s[i] == '1', 1) =~= bits);
        assert(leaf(s, i, none) == leaf(s, k, bits));
    } else {
        assert(bits =~= none);
    }
    assert(run + written(s, k + 4, n) =~= with_run(s, i, lead, c, n));
    (seq![(with_run(s, i, lead, c, n), path)], k + 4 + n)
}

/// Two branches in brackets.
proof fn lemma_fork(
    s: Seq<char>,
    i: int,
    path: Seq<bool>,
    zero: (CodePairs, int),
    one: (CodePairs, int),
) -> (r: (CodePairs, int))
    requires
        0 <= i,
        i < zero.1,
        zero.1 + 2 < one.1 < s.len(),
        s[i] == '(',
        s[zero.1] == ',',
        s[zero.1 + 1] == ' ',
        !is_space(s[zero.1 + 2]),
        s[one.1] == ')',
        subtree(s, i + 1, path.push(false)) == Some(zero),
        subtree(s, zero.1 + 2, path.push(true)) == Some(one),
    ensures
        r == (zero.0 + one.0, one.1 + 1),
        subtree(s, i, path) == Some(r),
{
    let k = zero.1;
    reveal_with_fuel(skip_spaces, 2);
    assert(skip_spaces(s, k + 1) == k + 2);
    assert(subtree(s, k + 1, path.push(true)) == subtree(s, k + 2, path.push(true)));
    (zero.0 + one.0, one.1 + 1)
}

/// The shorthand of bin 2 describes a code that its tree of input codewords
/// fits.
#[verifier::rlimit(60)]
proof fn lemma_bin_2()
    ensures
        well_formed(2),
{
    let s = "(((((0^4 1, 1^4 ), 0^3 1), 001), 10), (01, (110, (0^5 , 1^3 0))))"@;
    reveal_strlit("(((((0^4 1, 1^4 ), 0^3 1), 001), 10), (01, (110, (0^5 , 1^3 0))))");
    let p = Seq::<bool>::empty();
    let p0 = p.push(false);
    let p1 = p.push(true);
    let p00 = p0.push(false);
    let p01 = p0.push(true);
    let p10 = p1.push(false);
    let p11 = p1.push(true);
    let p000 = p00.push(false);
    let p001 = p00.push(true);
    let p110 = p11.push(false);
    let p111 = p11.push(true);
    let p0000 = p000.push(false);
    let p0001 = p000.push(true);
    let p1110 = p111.push(false);
    let p1111 = p111.push(true);
    let p00000 = p0000.push(false);
    let p00001 = p0000.push(true);
    let t00000 = lemma_run_word(s, 5, p00000, 0, 4, 1);
    let t00001 = lemma_run_word(s, 12, p00001, 0, 4, 0);
    let t0000 = lemma_fork(s, 4, p0000, t00000, t00001);
    let t0001 = lemma_run_word(s, 19, p0001, 0, 3, 1);
    let t000 = lemma_fork(s, 3, p000, t0000, t0001);
    let t001 = lemma_word(s, 27, p001, 3);
    let t00 = lemma_fork(s, 2, p00, t000, t001);
    let t01 = lemma_word(s, 33, p01, 2);
    let t0 = lemma_fork(s, 1, p0, t00, t01);
    let t10 = lemma_word(s, 39, p10, 2);
    let t110 = lemma_word(s, 44, p110, 3);
    let t1110 = lemma_run_word(s, 50, p1110, 0, 5, 0);
    let t1111 = lemma_run_word(s, 56, p1111, 0, 3, 1);
    let t111 = lemma_fork(s, 49, p111, t1110, t1111);
    let t11 = lemma_fork(s, 43, p11, t110, t111);
    let t1 = lemma_fork(s, 38, p1, t10, t11);
    let t = lemma_fork(s, 0, p, t0, t1);
    let code = t.0;
    decoding_trees_are_prefix_free(s);
    assert(bin_code(2) == code);
    assert(code[0].0 =~= p00001);
    assert(code[1].0 =~= p1111);
    assert(code[2].0 =~= p0001);
    assert(code[3].0 =~= p001);
    assert(code[4].0 =~= p10);
    assert(code[5].0 =~= p01);
    assert(code[6].0 =~= p110);
    assert(code[7].0 =~= p00000);
    assert(code[8].0 =~= p1110);
    reveal_with_fuel(fits, 7);
    reveal_with_fuel(has_leaf, 7);
    reveal_with_fuel(height, 7);
}

/// The shorthand of bin 3 describes a code that its tree of input codewords
/// fits.
#[verifier::rlimit(60)]
proof fn lemma_bin_3()
    ensures
        well_formed(3),
{
    let s = "(((001, ((1101, 0^3 11), 1^3 )), 10), (01, (0^4 , (1100, 0^3 10))))"@;
    reveal_strlit("(((001, ((1101, 0^3 11), 1^3 )), 10), (01, (0^4 , (1100, 0^3 10))))");
    let p = Seq::<bool>::empty();
    let p0 = p.push(false);
    let p1 = p.push(true);
    let p00 = p0.push(false);
    let p01 = p0.push(true);
    let p10 = p1.push(false);
    let p11 = p1.push(true);
    let p000 = p00.push(false);
    let p001 = p00.push(true);
    let p110 = p11.push(false);
    let p111 = p11.push(true);
    let p0000 = p000.push(false);
    let p0001 = p000.push(true);
    let p0010 = p001.push(false);
    let p0011 = p001.push(true);
    let p1100 = p110.push(false);
    let p1101 = p110.push(true);
    let p1110 = p111.push(false);
    let p1111 = p111.push(true);
    let p00010 = p0001.push(false);
    let p00011 = p0001.push(true);
    let p00100 = p0010.push(false);
    let p00101 = p0010.push(true);
    let t000 = lemma_word(s, 3, p000, 3);
    let t00100 = lemma_word(s, 10, p00100, 4);
    let t00101 = lemma_run_word(s, 16, p00101, 0, 3, 2);
    let t0010 = lemma_fork(s, 9, p0010, t00100, t00101);
    let t0011 = lemma_run_word(s, 25, p0011, 0, 3, 0);
    let t001 = lemma_fork(s, 8, p001, t0010, t0011);
    let t00 = lemma_fork(s, 2, p00, t000, t001);
    let t01 = lemma_word(s, 33, p01, 2);
    let t0 = lemma_fork(s, 1, p0, t00, t01);
    let t10 = lemma_word(s, 39, p10, 2);
    let t110 = lemma_run_word(s, 44, p110, 0, 4, 0);
    let t1110 = lemma_word(s, 51, p1110, 4);
    let t1111 = lemma_run_word(s, 57, p1111, 0, 3, 2);
    let t111 = lemma_fork(s, 50, p111, t1110, t1111);
    let t11 = lemma_fork(s, 43, p11, t110, t111);
    let t1 = lemma_fork(s, 38, p1, t10, t11);
    let t = lemma_fork(s, 0, p, t0, t1);
    let code = t.0;
    decoding_trees_are_prefix_free(s);
    assert(bin_code(3) == code);
    assert(code[0].0 =~= p001);
    assert(code[1].0 =~= p1101);
    assert(code[2].0 =~= p00011);
    assert(code[3].0 =~= p111);
    assert(code[4].0 =~= p10);
    assert(code[5].0 =~= p01);
    assert(code[6].0 =~= p0000);
    assert(code[7].0 =~= p1100);
    assert(code[8].0 =~= p00010);
    reveal_with_fuel(fits, 7);
    reveal_with_fuel(has_leaf, 7);
    reveal_with_fuel(height, 7);
}

/// The shorthand of bin 4 describes a code that its tree of input codewords
/// fits.
#[verifier::rlimit(60)]
proof fn lemma_bin_4()
    ensures
        well_formed(4),
{
    let s = "((0^3 , 01), (10, (001, 11)))"@;
    reveal_strlit("((0^3 , 01), (10, (001, 11)))");
    let p = Seq::<bool>::empty();
    let p0 = p.push(false);
    let p1 = p.push(true);
    let p00 = p0.push(false);
    let p01 = p0.push(true);
    let p10 = p1.push(false);
    let p11 = p1.push(true);
    let p000 = p00.push(false);
    let p001 = p00.push(true);
    let p110 = p11.push(false);
    let p111 = p11.push(true);
    let t00 = lemma_run_word(s, 2, p00, 0, 3, 0);
    let t01 = lemma_word(s, 8, p01, 2);
    let t0 = lemma_fork(s, 1, p0, t00, t01);
    let t10 = lemma_word(s, 14, p10, 2);
    let t110 = lemma_word(s, 19, p110, 3);
    let t111 = lemma_word(s, 24, p111, 2);
    let t11 = lemma_fork(s, 18, p11, t110, t111);
    let t1 = lemma_fork(s, 13, p1, t10, t11);
    let t = lemma_fork(s, 0, p, t0, t1);
    let code = t.0;
    decoding_trees_are_prefix_free(s);
    assert(bin_code(4) == code);
    assert(code[0].0 =~= p000);
    assert(code[1].0 =~= p01);
    assert(code[2].0 =~= p10);
    assert(code[3].0 =~= p001);
    assert(code[4].0 =~= p11);
    reveal_with_fuel(fits, 7);
    reveal_with_fuel(has_leaf, 7);
    reveal_with_fuel(height, 7);
}

/// The shorthand of bin 5 describes a code that its tree of input codewords
/// fits.
#[verifier::rlimit(60)]
proof fn lemma_bin_5()
    ensures
        well_formed(5),
{
    let s = "(((010, (10^4 , 110)), ((101, 011), ((10^3 1, 1^3 ), 1001))), 00)"@;
    reveal_strlit("(((010, (10^4 , 110)), ((101, 011), ((10^3 1, 1^3 ), 1001))), 00)");
    let p = Seq::<bool>::empty();
    let p0 = p.push(false);
    let p1 = p.push(true);
    let p00 = p0.push(false);
    let p01 = p0.push(true);
    let p10 = p1.push(false);
    let p11 = p1.push(true);
    let p000 = p00.push(false);
    let p001 = p00.push(true);
    let p010 = p01.push(false);
    let p011 = p01.push(true);
    let p100 = p10.push(false);
    let p101 = p10.push(true);
    let p110 = p11.push(false);
    let p111 = p11.push(true);
    let p0010 = p001.push(false);
    let p0011 = p001.push(true);
    let p0100 = p010.push(false);
    let p0101 = p010.push(true);
    let p0110 = p011.push(false);
    let p0111 = p011.push(true);
    let p1000 = p100.push(false);
    let p1001 = p100.push(true);
    let p01100 = p0110.push(false);
    let p01101 = p0110.push(true);
    let p10000 = p1000.push(false);
    let p10001 = p1000.push(true);
    let t000 = lemma_word(s, 3, p000, 3);
    let t0010 = lemma_run_word(s, 9, p0010, 1, 4, 0);
    let t0011 = lemma_word(s, 16, p0011, 3);
    let t001 = lemma_fork(s, 8, p001, t0010, t0011);
    let t00 = lemma_fork(s, 2, p00, t000, t001);
    let t0100 = lemma_word(s, 25, p0100, 3);
    let t0101 = lemma_word(s, 30, p0101, 3);
    let t010 = lemma_fork(s, 24, p010, t0100, t0101);
    let t01100 = lemma_run_word(s, 38, p01100, 1, 3, 1);
    let t01101 = lemma_run_word(s, 46, p01101, 0, 3, 0);
    let t0110 = lemma_fork(s, 37, p0110, t01100, t01101);
    let t0111 = lemma_word(s, 53, p0111, 4);
    let t011 = lemma_fork(s, 36, p011, t0110, t0111);
    let t01 = lemma_fork(s, 23, p01, t010, t011);
    let t0 = lemma_fork(s, 1, p0, t00, t01);
    let t1 = lemma_word(s, 62, p1, 2);
    let t = lemma_fork(s, 0, p, t0, t1);
    let code = t.0;
    decoding_trees_are_prefix_free(s);
    assert(bin_code(5) == code);
    assert(code[0].0 =~= p010);
    assert(code[1].0 =~= p10000);
    assert(code[2].0 =~= p110);
    assert(code[3].0 =~= p101);
    assert(code[4].0 =~= p011);
    assert(code[5].0 =~= p10001);
    assert(code[6].0 =~= p111);
    assert(code[7].0 =~= p1001);
    assert(code[8].0 =~= p00);
    reveal_with_fuel(fits, 7);
    reveal_with_fuel(has_leaf, 7);
    reveal_with_fuel(height, 7);
}

/// The shorthand of bin 6 describes a code that its tree of input codewords
/// fits.
#[verifier::rlimit(60)]
proof fn lemma_bin_6()
    ensures
        well_formed(6),
{
    let s = "((0^5 , 1), ((0^3 1, 001), (010, (0^4 1, 011))))"@;
    reveal_strlit("((0^5 , 1), ((0^3 1, 001), (010, (0^4 1, 011))))");
    let p = Seq::<bool>::empty();
    let p0 = p.push(false);
    let p1 = p.push(true);
    let p00 = p0.push(false);
    let p01 = p0.push(true);
    let p10 = p1.push(false);
    let p11 = p1.push(true);
    let p000 = p00.push(false);
    let p001 = p00.push(true);
    let p010 = p01.push(false);
    let p011 = p01.push(true);
    let p100 = p10.push(false);
    let p101 = p10.push(true);
    let p110 = p11.push(false);
    let p111 = p11.push(true);
    let p0000 = p000.push(false);
    let p0001 = p000.push(true);
    let p1110 = p111.push(false);
    let p1111 = p111.push(true);
    let p00000 = p0000.push(false);
    let p00001 = p0000.push(true);
    let t00 = lemma_run_word(s, 2, p00, 0, 5, 0);
    let t01 = lemma_word(s, 8, p01, 1);
    let t0 = lemma_fork(s, 1, p0, t00, t01);
    let t100 = lemma_run_word(s, 14, p100, 0, 3, 1);
    let t101 = lemma_word(s, 21, p101, 3);
    let t10 = lemma_fork(s, 13, p10, t100, t101);
    let t110 = lemma_word(s, 28, p110, 3);
    let t1110 = lemma_run_word(s, 34, p1110, 0, 4, 1);
    let t1111 = lemma_word(s, 41, p1111, 3);
    let t111 = lemma_fork(s, 33, p111, t1110, t1111);
    let t11 = lemma_fork(s, 27, p11, t110, t111);
    let t1 = lemma_fork(s, 12, p1, t10, t11);
    let t = lemma_fork(s, 0, p, t0, t1);
    let code = t.0;
    decoding_trees_are_prefix_free(s);
    assert(bin_code(6) == code);
    assert(code[0].0 =~= p00000);
    assert(code[1].0 =~= p1);
    assert(code[2].0 =~= p0001);
    assert(code[3].0 =~= p001);
    assert(code[4].0 =~= p010);
    assert(code[5].0 =~= p00001);
    assert(code[6].0 =~= p011);
    reveal_with_fuel(fits, 7);
    reveal_with_fuel(has_leaf, 7);
    reveal_with_fuel(height, 7);
}

/// The shorthand of bin 7 describes a code that its tree of input codewords
/// fits.
#[verifier::rlimit(60)]
proof fn lemma_bin_7()
    ensures
        well_formed(7),
{
    let s = "(0^3 , ((001, 010), (100, (11, (011, 101)))))"@;
    reveal_strlit("(0^3 , ((001, 010), (100, (11, (011, 101)))))");
    let p = Seq::<bool>::empty();
    let p0 = p.push(false);
    let p1 = p.push(true);
    let p00 = p0.push(false);
    let p01 = p0.push(true);
    let p10 = p1.push(false);
    let p11 = p1.push(true);
    let p000 = p00.push(false);
    let p001 = p00.push(true);
    let p010 = p01.push(false);
    let p011 = p01.push(true);
    let p100 = p10.push(false);
    let p101 = p10.push(true);
    let p110 = p11.push(false);
    let p111 = p11.push(true);
    let p1110 = p111.push(false);
    let p1111 = p111.push(true);
    let p11110 = p1111.push(false);
    let p11111 = p1111.push(true);
    let t0 = lemma_run_word(s, 1, p0, 0, 3, 0);
    let t100 = lemma_word(s, 9, p100, 3);
    let t101 = lemma_word(s, 14, p101, 3);
    let t10 = lemma_fork(s, 8, p10, t100, t101);
    let t110 = lemma_word(s, 21, p110, 3);
    let t1110 = lemma_word(s, 27, p1110, 2);
    let t11110 = lemma_word(s, 32, p11110, 3);
    let t11111 = lemma_word(s, 37, p11111, 3);
    let t1111 = lemma_fork(s, 31, p1111, t11110, t11111);
    let t111 = lemma_fork(s, 26, p111, t1110, t1111);
    let t11 = lemma_fork(s, 20, p11, t110, t111);
    let t1 = lemma_fork(s, 7, p1, t10, t11);
    let t = lemma_fork(s, 0, p, t0, t1);
    let code = t.0;
    decoding_trees_are_prefix_free(s);
    assert(bin_code(7) == code);
    assert(code[0].0 =~= p000);
    assert(code[1].0 =~= p001);
    assert(code[2].0 =~= p010);
    assert(code[3].0 =~= p100);
    assert(code[4].0 =~= p11);
    assert(code[5].0 =~= p011);
    assert(code[6].0 =~= p101);
    reveal_with_fuel(fits, 7);
    reveal_with_fuel(has_leaf, 7);
    reveal_with_fuel(height, 7);
}

/// The shorthand of bin 8 describes a code that its tree of input codewords
/// fits.
#[verifier::rlimit(60)]
proof fn lemma_bin_8()
    ensures
        well_formed(8),
{
    let s = "(0^4 , ((001, 01), (10, (0^3 10, (0^3 11, 11)))))"@;
    reveal_strlit("(0^4 , ((001, 01), (10, (0^3 10, (0^3 11, 11)))))");
    let p = Seq::<bool>::empty();
    let p0 = p.push(false);
    let p1 = p.push(true);
    let p00 = p0.push(false);
    let p01 = p0.push(true);
    let p10 = p1.push(false);
    let p11 = p1.push(true);
    let p000 = p00.push(false);
    let p001 = p00.push(true);
    let p100 = p10.push(false);
    let p101 = p10.push(true);
    let p110 = p11.push(false);
    let p111 = p11.push(true);
    let p0000 = p000.push(false);
    let p0001 = p000.push(true);
    let p1110 = p111.push(false);
    let p1111 = p111.push(true);
    let p00010 = p0001.push(false);
    let p00011 = p0001.push(true);
    let p11110 = p1111.push(false);
    let p11111 = p1111.push(true);
    let t0 = lemma_run_word(s, 1, p0, 0, 4, 0);
    let t100 = lemma_word(s, 9, p100, 3);
    let t101 = lemma_word(s, 14, p101, 2);
    let t10 = lemma_fork(s, 8, p10, t100, t101);
    let t110 = lemma_word(s, 20, p110, 2);
    let t1110 = lemma_run_word(s, 25, p1110, 0, 3, 2);
    let t11110 = lemma_run_word(s, 34, p11110, 0, 3, 2);
    let t11111 = lemma_word(s, 42, p11111, 2);
    let t1111 = lemma_fork(s, 33, p1111, t11110, t11111);
    let t111 = lemma_fork(s, 24, p111, t1110, t1111);
    let t11 = lemma_fork(s, 19, p11, t110, t111);
    let t1 = lemma_fork(s, 7, p1, t10, t11);
    let t = lemma_fork(s, 0, p, t0, t1);
    let code = t.0;
    decoding_trees_are_prefix_free(s);
    assert(bin_code(8) == code);
    assert(code[0].0 =~= p0000);
    assert(code[1].0 =~= p001);
    assert(code[2].0 =~= p01);
    assert(code[3].0 =~= p10);
    assert(code[4].0 =~= p00010);
    assert(code[5].0 =~= p00011);
    assert(code[6].0 =~= p11);
    reveal_with_fuel(fits, 7);
    reveal_with_fuel(has_leaf, 7);
    reveal_with_fuel(height, 7);
}

proof fn lemma_bin_1()
    ensures
        well_formed(1),
{
    let code = uncoded_code();
    let p = Seq::<bool>::empty();
    assert(code[0].0 =~= p.push(false));
    assert(code[1].0 =~= p.push(true));
    reveal_with_fuel(fits, 2);
    reveal_with_fuel(has_leaf, 2);
    reveal_with_fuel(height, 2);
    let w = outputs(code);
    assert forall|i: int, j: int|
        0 <= i < w.len() && 0 <= j < w.len() && i != j implies !starts_with(
        #[trigger] w[i],
        #[trigger] w[j],
    ) by {
        if starts_with(w[i], w[j]) {
            assert(w[i].take(1)[0] == w[j][0]);
        }
    }
}

proof fn lemma_tree_bin(j: int)
    requires
        1 <= j <= 8,
    ensures
        well_formed(j),
{
    if j == 1 {
        lemma_bin_1();
    } else if j == 2 {
        lemma_bin_2();
    } else if j == 3 {
        lemma_bin_3();
    } else if j == 4 {
        lemma_bin_4();
    } else if j == 5 {
        lemma_bin_5();
    } else if j == 6 {
        lemma_bin_6();
    } else if j == 7 {
        lemma_bin_7();
    } else {
        lemma_bin_8();
    }
}

// ---------------------------------------------------------------------------
// Golomb codes
// ---------------------------------------------------------------------------

proof fn lemma_golomb_sound(m: int, l: nat)
    requires
        1 <= m,
        l <= 15,
        is_ceil_log2(m, l),
    ensures
        sound(golomb_code(m, l)),
{
    let code = golomb_code(m, l);
    golomb_codes_are_prefix_free(m, l);
    let i0 = pow2(l) - m;
    assert forall|i: int| 0 <= i < code.len() implies (#[trigger] code[i]).1.len() <= MAX_WORD by {
        if i < m {
            lemma_binary_len(i, l);
            lemma_binary_len(i + i0, l + 1);
        }
    }
    assert forall|i: int, k: int, b: bool|
        0 <= i < code.len() && 0 <= k < code[i].0.len() implies #[trigger] in_tree(
        code,
        code[i].0.take(k).push(b),
    ) by {
        let word = code[i].0.take(k).push(b);
        assert(k < m);
        assert(code[i].0.take(k) =~= zeros(k as nat));
        if b {
            assert(code[k].0 =~= word);
            assert(code[k].0.take(k + 1) =~= word);
            assert(starts_with(code[k].0, word));
        } else {
            assert(code[m].0.take(k + 1) =~= word);
            assert(starts_with(code[m].0, word));
        }
    }
}

/// A string of bits starts with the input codeword of its leading zeros.
proof fn lemma_golomb_reads(m: int, l: nat, bits: Seq<bool>, k: int)
    requires
        0 <= k <= m,
        1 <= m <= bits.len(),
        bits.take(k) == zeros(k as nat),
    ensures
        lookup(inputs(golomb_code(m, l)), bits) is Some,
    decreases m - k,
{
    let words = inputs(golomb_code(m, l));
    lemma_lookup(words, bits);
    if k == m {
        assert(starts_with(bits, words[m]));
    } else if bits[k] {
        assert(bits.take(k + 1) =~= bits.take(k).push(true));
        assert(words[k] == zeros(k as nat).push(true));
        assert(starts_with(bits, words[k]));
    } else {
        assert(bits.take(k + 1) =~= bits.take(k).push(false));
        assert(zeros((k + 1) as nat) =~= zeros(k as nat).push(false));
        lemma_golomb_reads(m, l, bits, k + 1);
    }
}

// ---------------------------------------------------------------------------
// All bins
// ---------------------------------------------------------------------------

/// **The code of every bin can be used.**
pub proof fn bin_codes_are_sound(j: int)
    requires
        1 <= j <= 17,
    ensures
        sound(bin_code(j)),
{
    if j >= 9 {
        lemma_digits(j);
        lemma_golomb_sound(
            GOLOMB_PARAMETERS@[j - 9] as int,
            GOLOMB_DIGITS@[j - 9] as nat,
        );
    } else {
        lemma_tree_bin(j);
        lemma_tree_reads(input_tree(j), bin_code(j));
    }
}

/// As many bits as the longest input codeword of bin `j` has, or more.
pub open spec fn longest_input(j: int) -> int {
    if j <= 8 {
        5
    } else {
        GOLOMB_PARAMETERS@[j - 9] as int
    }
}

/// **The code of every bin is prefix-free on both sides, and its input
/// codewords are exhaustive**: a string of bits that is long enough starts with
/// one of them.
pub proof fn bin_codes_are_complete(j: int, bits: Seq<bool>)
    requires
        1 <= j <= 17,
    ensures
        prefix_free(inputs(bin_code(j))),
        prefix_free(outputs(bin_code(j))),
        bits.len() >= longest_input(j) ==> lookup(inputs(bin_code(j)), bits) is Some,
{
    if j >= 9 {
        lemma_digits(j);
        let (m, l) = (GOLOMB_PARAMETERS@[j - 9] as int, GOLOMB_DIGITS@[j - 9] as nat);
        golomb_codes_are_prefix_free(m, l);
        if bits.len() >= m {
            assert(bits.take(0) =~= zeros(0));
            lemma_golomb_reads(m, l, bits, 0);
        }
    } else {
        lemma_tree_bin(j);
        lemma_tree_reads(input_tree(j), bin_code(j));
    }
}

/// **Decoding undoes encoding in every bin**: where bits start with an input
/// codeword, the output codeword that it maps to leads back to it, whatever
/// bits follow.
pub proof fn bins_undo_themselves(j: int, bits: Seq<bool>, rest: Seq<bool>)
    requires
        1 <= j <= 17,
        lookup(inputs(bin_code(j)), bits) is Some,
    ensures
        ({
            let code = bin_code(j);
            let i = lookup(inputs(code), bits)->0;
            &&& 0 <= i < code.len()
            &&& starts_with(bits, code[i].0)
            &&& lookup(outputs(code), code[i].1 + rest) == Some(i)
        }),
{
    let code = bin_code(j);
    bin_codes_are_complete(j, bits);
    lemma_lookup(inputs(code), bits);
    codewords_are_found_again(code, lookup(inputs(code), bits)->0, rest);
}

} // verus!
