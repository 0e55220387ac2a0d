//! Mathematical model of positional numeral representations.
//!
//! An alphabet is an ordered sequence of symbols; the symbol at position `i`
//! stands for the digit value `i`, and the alphabet's length is the base.
//! A sequence of symbols denotes a value big-endian: the most significant
//! symbol comes first.

use vstd::prelude::*;

verus! {

/// The canonical 36-symbol alphabet: the decimal digits followed by the
/// upper-case letters.
pub open spec fn canonical_seq() -> Seq<char> {
    seq![
        '0', '1', '2', '3', '4', '5', '6', '7', '8', '9',
        'A', 'B', 'C', 'D', 'E', 'F', 'G', 'H', 'I', 'J',
        'K', 'L', 'M', 'N', 'O', 'P', 'Q', 'R', 'S', 'T',
        'U', 'V', 'W', 'X', 'Y', 'Z',
    ]
}

/// No symbol occurs twice in the alphabet.
pub open spec fn distinct_symbols(alpha: Seq<char>) -> bool {
    forall|i: int, j: int| 0 <= i < j < alpha.len() ==> alpha[i] != alpha[j]
}

/// Every symbol of the sequence equals its first symbol.
pub open spec fn uniform(s: Seq<char>) -> bool {
    forall|i: int| 0 <= i < s.len() ==> #[trigger] s[i] == s[0]
}

/// The symbol occurs somewhere in the alphabet.
pub open spec fn in_alphabet(alpha: Seq<char>, c: char) -> bool {
    exists|i: int| 0 <= i < alpha.len() && alpha[i] == c
}

/// Every symbol of the sequence occurs in the alphabet.
pub open spec fn all_in_alphabet(s: Seq<char>, alpha: Seq<char>) -> bool {
    forall|i: int| 0 <= i < s.len() ==> in_alphabet(alpha, s[i])
}

/// Position `j` of the alphabet repeats a symbol that already occurred
/// earlier.
pub open spec fn repeats_earlier(alpha: Seq<char>, j: int) -> bool {
    exists|i: int| 0 <= i < j && alpha[i] == alpha[j]
}

/// `j` is the first position of the alphabet that repeats an earlier symbol.
pub open spec fn is_first_duplicate(alpha: Seq<char>, j: int) -> bool {
    &&& 0 <= j < alpha.len()
    &&& repeats_earlier(alpha, j)
    &&& forall|k: int| 0 <= k < j ==> !repeats_earlier(alpha, k)
}

/// `j` is the last position of the sequence whose symbol is missing from the
/// alphabet.
pub open spec fn is_last_missing(s: Seq<char>, alpha: Seq<char>, j: int) -> bool {
    &&& 0 <= j < s.len()
    &&& !in_alphabet(alpha, s[j])
    &&& forall|k: int| j < k < s.len() ==> in_alphabet(alpha, s[k])
}

/// An alphabet where no position repeats an earlier symbol is distinct.
pub proof fn lemma_no_repeats_distinct(alpha: Seq<char>)
    requires
        forall|j: int| 0 <= j < alpha.len() ==> !repeats_earlier(alpha, j),
    ensures
        distinct_symbols(alpha),
{
    assert forall|i: int, j: int| 0 <= i < j < alpha.len() implies alpha[i] != alpha[j] by {
        if alpha[i] == alpha[j] {
            assert(repeats_earlier(alpha, j));
        }
    }
}

/// The digit value of a symbol: a position of the symbol in the alphabet.
/// For a distinct alphabet that contains the symbol this position is unique.
pub open spec fn digit_of(alpha: Seq<char>, c: char) -> int {
    choose|i: int| 0 <= i < alpha.len() && alpha[i] == c
}

/// The value denoted by a big-endian symbol sequence over the given alphabet.
pub open spec fn seq_value(s: Seq<char>, alpha: Seq<char>) -> int
    decreases s.len(),
{
    if s.len() == 0 {
        0
    } else {
        seq_value(s.drop_last(), alpha) * (alpha.len() as int) + digit_of(alpha, s.last())
    }
}

/// The big-endian digit values of `d` in base `base`: empty for zero, and
/// otherwise the digits of `d / base` followed by `d % base`.
pub open spec fn repr(d: nat, base: nat) -> Seq<nat>
    decreases d,
    via repr_decreases
{
    if d == 0 || base < 2 {
        Seq::empty()
    } else {
        repr(d / base, base).push(d % base)
    }
}

#[via_fn]
proof fn repr_decreases(d: nat, base: nat) {
    if !(d == 0 || base < 2) {
        assert(d / base < d) by (nonlinear_arith)
            requires
                d > 0,
                base >= 2,
        ;
    }
}

/// The symbol sequence for `d` over the alphabet: the digits of `d` in base
/// `alpha.len()`, each replaced by the symbol at its position.
pub open spec fn repr_chars(d: nat, alpha: Seq<char>) -> Seq<char> {
    repr(d, alpha.len()).map_values(|v: nat| alpha[v as int])
}

/// In a distinct alphabet, the digit value of the symbol at position `v`
/// is `v` itself.
pub proof fn lemma_digit_of_position(alpha: Seq<char>, v: int)
    requires
        distinct_symbols(alpha),
        0 <= v < alpha.len(),
    ensures
        in_alphabet(alpha, alpha[v]),
        digit_of(alpha, alpha[v]) == v,
{
    assert(0 <= v < alpha.len() && alpha[v] == alpha[v]);
    let i = digit_of(alpha, alpha[v]);
    assert(0 <= i < alpha.len() && alpha[i] == alpha[v]);
}

/// Every digit produced by `repr` is below the base.
pub proof fn lemma_repr_digits_below_base(d: nat, base: nat)
    requires
        base >= 2,
    ensures
        forall|i: int| 0 <= i < repr(d, base).len() ==> repr(d, base)[i] < base,
    decreases d,
{
    if d != 0 {
        assert(d / base < d) by (nonlinear_arith)
            requires
                d > 0,
                base >= 2,
        ;
        lemma_repr_digits_below_base(d / base, base);
        assert forall|i: int| 0 <= i < repr(d, base).len() implies repr(d, base)[i]
            < base by {
            if i < repr(d, base).len() - 1 {
                assert(repr(d, base)[i] == repr(d / base, base)[i]);
            }
        }
    }
}

/// Peeling the least significant symbol off a nonzero representation.
pub proof fn lemma_repr_chars_unfold(d: nat, alpha: Seq<char>)
    requires
        alpha.len() >= 2,
        d > 0,
    ensures
        repr_chars(d, alpha) == repr_chars(d / alpha.len(), alpha).push(
            alpha[(d % alpha.len()) as int],
        ),
{
    let base = alpha.len();
    assert(repr(d, base) == repr(d / base, base).push(d % base));
    assert(repr_chars(d, alpha) =~= repr_chars(d / base, alpha).push(
        alpha[(d % base) as int],
    ));
}

/// The representation of zero is the empty sequence of symbols.
pub proof fn lemma_repr_chars_zero(alpha: Seq<char>)
    ensures
        repr_chars(0, alpha) =~= Seq::<char>::empty(),
{
}

/// Decoding the representation of `d` over a distinct alphabet of at least
/// two symbols gives `d` back, and every produced symbol comes from the
/// alphabet.
pub proof fn lemma_repr_chars_value(d: nat, alpha: Seq<char>)
    requires
        alpha.len() >= 2,
        distinct_symbols(alpha),
    ensures
        seq_value(repr_chars(d, alpha), alpha) == d,
        all_in_alphabet(repr_chars(d, alpha), alpha),
    decreases d,
{
    let base = alpha.len();
    if d == 0 {
        lemma_repr_chars_zero(alpha);
    } else {
        assert(d / base < d) by (nonlinear_arith)
            requires
                d > 0,
                base >= 2,
        ;
        lemma_repr_chars_value(d / base, alpha);
        lemma_repr_chars_unfold(d, alpha);
        let s = repr_chars(d, alpha);
        let prefix = repr_chars(d / base, alpha);
        let last = alpha[(d % base) as int];
        assert(s.drop_last() =~= prefix);
        assert(s.last() == last);
        lemma_digit_of_position(alpha, (d % base) as int);
        assert(seq_value(s, alpha) == (d / base) * base + d % base);
        vstd::arithmetic::div_mod::lemma_fundamental_div_mod(d as int, base as int);
        assert(all_in_alphabet(s, alpha)) by {
            assert forall|i: int| 0 <= i < s.len() implies in_alphabet(alpha, s[i]) by {
                if i < s.len() - 1 {
                    assert(s[i] == prefix[i]);
                }
            }
        }
    }
}

/// A nonzero value never gets a representation with a leading zero digit.
pub proof fn lemma_repr_no_leading_zero(d: nat, base: nat)
    requires
        base >= 2,
        d > 0,
    ensures
        repr(d, base).len() > 0,
        repr(d, base)[0] != 0,
    decreases d,
{
    if d / base == 0 {
        assert(repr(d, base) == repr(0, base).push(d % base));
        assert(repr(d, base)[0] == d % base);
        vstd::arithmetic::div_mod::lemma_fundamental_div_mod(d as int, base as int);
        assert(d % base == d);
    } else {
        assert(d / base < d) by (nonlinear_arith)
            requires
                d > 0,
                base >= 2,
        ;
        lemma_repr_no_leading_zero(d / base, base);
        assert(repr(d, base)[0] == repr(d / base, base)[0]);
    }
}

/// A value is never below zero, provided every symbol comes from the
/// alphabet.
pub proof fn lemma_seq_value_nonneg(s: Seq<char>, alpha: Seq<char>)
    requires
        all_in_alphabet(s, alpha),
    ensures
        seq_value(s, alpha) >= 0,
    decreases s.len(),
{
    if s.len() > 0 {
        assert(all_in_alphabet(s.drop_last(), alpha)) by {
            assert forall|i: int| 0 <= i < s.drop_last().len() implies in_alphabet(
                alpha,
                s.drop_last()[i],
            ) by {
                assert(s.drop_last()[i] == s[i]);
            }
        }
        lemma_seq_value_nonneg(s.drop_last(), alpha);
        let c = s.last();
        assert(in_alphabet(alpha, c));
        let v = digit_of(alpha, c);
        assert(0 <= v < alpha.len() && alpha[v] == c);
        assert(seq_value(s.drop_last(), alpha) * (alpha.len() as int) >= 0) by (nonlinear_arith)
            requires
                seq_value(s.drop_last(), alpha) >= 0,
                alpha.len() >= 0,
        ;
    }
}

/// Extending a sequence by one symbol from the alphabet never shrinks its
/// value.
pub proof fn lemma_seq_value_extend(s: Seq<char>, alpha: Seq<char>)
    requires
        s.len() > 0,
        all_in_alphabet(s, alpha),
    ensures
        seq_value(s, alpha) >= seq_value(s.drop_last(), alpha),
{
    assert(all_in_alphabet(s.drop_last(), alpha)) by {
        assert forall|i: int| 0 <= i < s.drop_last().len() implies in_alphabet(
            alpha,
            s.drop_last()[i],
        ) by {
            assert(s.drop_last()[i] == s[i]);
        }
    }
    lemma_seq_value_nonneg(s.drop_last(), alpha);
    let c = s.last();
    assert(in_alphabet(alpha, c));
    let v = digit_of(alpha, c);
    assert(0 <= v < alpha.len() && alpha[v] == c);
    let p = seq_value(s.drop_last(), alpha);
    assert(p * (alpha.len() as int) >= p) by (nonlinear_arith)
        requires
            p >= 0,
            alpha.len() >= 1,
    ;
}

/// The value of a prefix never exceeds the value of the whole sequence.
pub proof fn lemma_seq_value_prefix_le(s: Seq<char>, alpha: Seq<char>, i: int)
    requires
        0 <= i <= s.len(),
        all_in_alphabet(s, alpha),
    ensures
        seq_value(s.take(i), alpha) <= seq_value(s, alpha),
    decreases s.len() - i,
{
    if i == s.len() {
        assert(s.take(i) =~= s);
    } else {
        lemma_seq_value_prefix_le(s, alpha, i + 1);
        assert(s.take(i + 1).drop_last() =~= s.take(i));
        assert(all_in_alphabet(s.take(i + 1), alpha)) by {
            assert forall|k: int| 0 <= k < s.take(i + 1).len() implies in_alphabet(
                alpha,
                #[trigger] s.take(i + 1)[k],
            ) by {
                assert(s.take(i + 1)[k] == s[k]);
            }
        }
        lemma_seq_value_extend(s.take(i + 1), alpha);
    }
}

/// One decoding step: the value of a prefix one symbol longer.
pub proof fn lemma_seq_value_take_step(s: Seq<char>, alpha: Seq<char>, i: int)
    requires
        0 <= i < s.len(),
    ensures
        seq_value(s.take(i + 1), alpha) == seq_value(s.take(i), alpha) * (alpha.len() as int)
            + digit_of(alpha, s[i]),
{
    assert(s.take(i + 1).drop_last() =~= s.take(i));
    assert(s.take(i + 1).last() == s[i]);
}

/// The canonical alphabet has no repeated symbol.
pub proof fn lemma_canonical_distinct()
    ensures
        distinct_symbols(canonical_seq()),
{
}

/// Law: decoding an encoding returns the original value. For any distinct
/// alphabet with at least one symbol and any value `d`, the symbol sequence
/// that rendering produces for `d` — unary repetition for a one-symbol
/// alphabet, the positional representation otherwise — is read back as `d`:
/// a nonempty unary sequence is uniform with `d` symbols, and a positional
/// sequence draws every symbol from the alphabet and has value `d`.
pub proof fn lemma_round_trip(d: usize, alpha: Seq<char>)
    requires
        alpha.len() >= 1,
        distinct_symbols(alpha),
    ensures
        alpha.len() == 1 && d > 0 ==> {
            let s = Seq::new(d as nat, |k: int| alpha[0]);
            s.len() == d && uniform(s)
        },
        alpha.len() == 1 && d == 0 ==> {
            let s = Seq::new(d as nat, |k: int| alpha[0]);
            s.len() == 0 && all_in_alphabet(s, alpha) && seq_value(s, alpha) == d
        },
        alpha.len() >= 2 ==> {
            let s = repr_chars(d as nat, alpha);
            all_in_alphabet(s, alpha) && seq_value(s, alpha) == d
        },
{
    if alpha.len() >= 2 {
        lemma_repr_chars_value(d as nat, alpha);
    }
}

/// Law: a nonzero value rendered over a distinct alphabet of at least two
/// symbols never starts with the alphabet's zero symbol.
pub proof fn lemma_no_leading_zero_symbol(d: usize, alpha: Seq<char>)
    requires
        alpha.len() >= 2,
        distinct_symbols(alpha),
        d > 0,
    ensures
        repr_chars(d as nat, alpha).len() > 0,
        repr_chars(d as nat, alpha)[0] != alpha[0],
{
    lemma_repr_no_leading_zero(d as nat, alpha.len());
    lemma_repr_digits_below_base(d as nat, alpha.len());
    let v = repr(d as nat, alpha.len())[0];
    assert(repr_chars(d as nat, alpha)[0] == alpha[v as int]);
}

/// Law: in every base from 2 to 36, a nonzero value rendered over the
/// canonical alphabet never starts with the symbol `'0'`.
pub proof fn lemma_canonical_no_leading_zero(d: usize, base: usize)
    requires
        2 <= base <= canonical_seq().len(),
        d > 0,
    ensures
        repr_chars(d as nat, canonical_seq().take(base as int)).len() > 0,
        repr_chars(d as nat, canonical_seq().take(base as int))[0] != '0',
{
    lemma_canonical_distinct();
    lemma_distinct_prefix(canonical_seq(), base as int);
    lemma_no_leading_zero_symbol(d, canonical_seq().take(base as int));
    assert(canonical_seq().take(base as int)[0] == '0');
}

/// Every prefix of a distinct alphabet is itself distinct.
pub proof fn lemma_distinct_prefix(alpha: Seq<char>, n: int)
    requires
        distinct_symbols(alpha),
        0 <= n <= alpha.len(),
    ensures
        distinct_symbols(alpha.take(n)),
{
    assert forall|i: int, j: int| 0 <= i < j < alpha.take(n).len() implies alpha.take(n)[i]
        != alpha.take(n)[j] by {
        assert(alpha.take(n)[i] == alpha[i]);
        assert(alpha.take(n)[j] == alpha[j]);
    }
}

} // verus!
