//! Conversion of non-negative integers between positional numeral systems.
//!
//! The alphabet of symbols for a base is supplied by the caller: the symbol
//! at position `i` stands for the digit value `i`, and the alphabet's length
//! is the base. `dec2seq` renders a value over such an alphabet, `seq2dec`
//! reads one back, and `switch_dec_base` renders over the canonical alphabet
//! of digits and upper-case letters (bases 2 to 36).

pub mod model;

use vstd::prelude::*;

use crate::model::all_in_alphabet;
use crate::model::canonical_seq;
use crate::model::digit_of;
use crate::model::distinct_symbols;
use crate::model::in_alphabet;
use crate::model::is_first_duplicate;
use crate::model::is_last_missing;
use crate::model::lemma_no_repeats_distinct;
use crate::model::lemma_repr_chars_unfold;
use crate::model::lemma_repr_chars_zero;
use crate::model::lemma_seq_value_prefix_le;
use crate::model::lemma_seq_value_take_step;
use crate::model::repeats_earlier;
use crate::model::repr_chars;
use crate::model::seq_value;
use crate::model::uniform;

verus! {

/// Relies on `String::push` from the standard library: it appends the given
/// character to the end of the string.
pub assume_specification[ String::push ](s: &mut String, ch: char)
    ensures
        final(s)@ == old(s)@.push(ch),
;

/// The failures the conversions can report.
#[derive(Debug, PartialEq, Eq)]
pub enum NewError {
    /// The requested base is below the smallest supported one.
    BaseTooSmall { min: usize, given: usize },
    /// The requested base is above the canonical alphabet's length.
    BaseTooBig { max: usize, given: usize },
    /// The supplied alphabet is empty.
    DictEmpty,
    /// A symbol occurs twice in the supplied alphabet.
    MultipleChar { dup: char, alphabet: Vec<char> },
    /// A symbol of the sequence does not occur in the alphabet.
    MissingChar { missing: char, alphabet: Vec<char> },
    /// The decoded value does not fit the native unsigned width.
    Overflow,
}

/// The canonical alphabet: `'0'` to `'9'` followed by `'A'` to `'Z'`.
fn canonical_alphabet() -> (v: Vec<char>)
    ensures
        v@ == canonical_seq(),
{
    let v: Vec<char> = vec![
        '0', '1', '2', '3', '4', '5', '6', '7', '8', '9',
        'A', 'B', 'C', 'D', 'E', 'F', 'G', 'H', 'I', 'J',
        'K', 'L', 'M', 'N', 'O', 'P', 'Q', 'R', 'S', 'T',
        'U', 'V', 'W', 'X', 'Y', 'Z',
    ];
    proof {
        assert(v@ =~= canonical_seq());
    }
    v
}

/// Renders `decimal` over the caller's alphabet, most significant symbol
/// first.
///
/// An empty alphabet is rejected with `DictEmpty`. A one-symbol alphabet
/// yields the unary representation: the symbol repeated `decimal` times.
/// Otherwise the result is the positional representation of `decimal` in
/// base `char2val.len()`, empty for zero and without leading zero symbols.
pub fn dec2seq(decimal: usize, char2val: &[char]) -> (r: Result<String, NewError>)
    ensures
        char2val@.len() == 0 ==> r == Err::<String, NewError>(NewError::DictEmpty),
        char2val@.len() == 1 ==> (r matches Ok(out) && out@ == Seq::new(
            decimal as nat,
            |k: int| char2val@[0],
        )),
        char2val@.len() >= 2 ==> (r matches Ok(out) && out@ == repr_chars(
            decimal as nat,
            char2val@,
        )),
{
    let base = char2val.len();
    if base == 0 {
        return Err(NewError::DictEmpty);
    }
    if base == 1 {
        let c = char2val[0];
        let mut out = String::new();
        let mut i: usize = 0;
        while i < decimal
            invariant
                i <= decimal,
                char2val@.len() == 1,
                c == char2val@[0],
                out@ == Seq::new(i as nat, |k: int| c),
            decreases decimal - i,
        {
            out.push(c);
            i = i + 1;
            proof {
                assert(out@ =~= Seq::new(i as nat, |k: int| c));
            }
        }
        return Ok(out);
    }
    let mut rev: Vec<char> = Vec::new();
    let mut d = decimal;
    while d != 0
        invariant
            2 <= base,
            base == char2val@.len(),
            repr_chars(decimal as nat, char2val@) == repr_chars(d as nat, char2val@)
                + rev@.reverse(),
        decreases d,
    {
        let ghost d0 = d as nat;
        let ghost rev0 = rev@;
        let digit = d % base;
        rev.push(char2val[digit]);
        d = d / base;
        proof {
            let alpha = char2val@;
            let x = alpha[(d0 % alpha.len()) as int];
            lemma_repr_chars_unfold(d0, alpha);
            assert(rev@.reverse() =~= seq![x] + rev0.reverse());
            assert(repr_chars((d0 / alpha.len()) as nat, alpha) + (seq![x] + rev0.reverse())
                =~= repr_chars((d0 / alpha.len()) as nat, alpha).push(x) + rev0.reverse());
        }
    }
    proof {
        lemma_repr_chars_zero(char2val@);
        assert(repr_chars(decimal as nat, char2val@) =~= rev@.reverse());
    }
    let mut out = String::new();
    let n = rev.len();
    let mut i: usize = n;
    while i > 0
        invariant
            i <= n,
            n == rev@.len(),
            out@ == rev@.subrange(i as int, n as int).reverse(),
        decreases i,
    {
        i = i - 1;
        out.push(rev[i]);
        proof {
            assert(out@ =~= rev@.subrange(i as int, n as int).reverse());
        }
    }
    proof {
        assert(rev@.subrange(0, n as int) =~= rev@);
    }
    Ok(out)
}

/// A copy of the alphabet slice, carried inside an error report.
fn copy_symbols(char2val: &[char]) -> (v: Vec<char>)
    ensures
        v@ == char2val@,
{
    let mut v: Vec<char> = Vec::new();
    let mut i: usize = 0;
    while i < char2val.len()
        invariant
            i <= char2val@.len(),
            v@ == char2val@.take(i as int),
        decreases char2val@.len() - i,
    {
        v.push(char2val[i]);
        i = i + 1;
        proof {
            assert(v@ =~= char2val@.take(i as int));
        }
    }
    proof {
        assert(char2val@.take(char2val@.len() as int) =~= char2val@);
    }
    v
}

/// Searches the alphabet for a symbol, left to right.
fn find_symbol(char2val: &[char], c: char) -> (r: Option<usize>)
    ensures
        r matches Some(i) ==> 0 <= i < char2val@.len() && char2val@[i as int] == c,
        r is None ==> !in_alphabet(char2val@, c),
{
    let mut i: usize = 0;
    while i < char2val.len()
        invariant
            i <= char2val@.len(),
            forall|m: int| 0 <= m < i ==> char2val@[m] != c,
        decreases char2val@.len() - i,
    {
        if char2val[i] == c {
            return Some(i);
        }
        i = i + 1;
    }
    None
}

/// Reads a big-endian symbol sequence back into a value over the caller's
/// alphabet.
///
/// An empty alphabet is rejected with `DictEmpty`. A one-symbol alphabet
/// paired with a nonempty sequence made of a single repeated symbol (any
/// symbol: only the sequence's own uniformity is inspected) decodes as the
/// unary count of its symbols. Otherwise a repeated alphabet symbol is
/// rejected with `MultipleChar` naming the first repeat, then a sequence
/// symbol outside the alphabet with `MissingChar` naming the rightmost such
/// symbol, and a value beyond the native unsigned width with `Overflow`;
/// any remaining input decodes to its positional value.
pub fn seq2dec(sequence: &str, char2val: &[char]) -> (r: Result<usize, NewError>)
    ensures
        char2val@.len() == 0 ==> r == Err::<usize, NewError>(NewError::DictEmpty),
        char2val@.len() == 1 && sequence@.len() > 0 && uniform(sequence@) ==> r == Ok::<
            usize,
            NewError,
        >(sequence@.len() as usize),
        char2val@.len() >= 1 && !(char2val@.len() == 1 && sequence@.len() > 0 && uniform(
            sequence@,
        )) ==> {
            if !distinct_symbols(char2val@) {
                r matches Err(NewError::MultipleChar { dup, alphabet }) && alphabet@ == char2val@
                    && exists|j: int|
                    #[trigger] is_first_duplicate(char2val@, j) && dup == char2val@[j]
            } else if !all_in_alphabet(sequence@, char2val@) {
                r matches Err(NewError::MissingChar { missing, alphabet }) && alphabet@
                    == char2val@ && exists|j: int|
                    #[trigger] is_last_missing(sequence@, char2val@, j) && missing == sequence@[j]
            } else if seq_value(sequence@, char2val@) <= usize::MAX {
                r == Ok::<usize, NewError>(seq_value(sequence@, char2val@) as usize)
            } else {
                r == Err::<usize, NewError>(NewError::Overflow)
            }
        },
{
    let from_base = char2val.len();
    if from_base == 0 {
        return Err(NewError::DictEmpty);
    }
    let n = sequence.unicode_len();
    if from_base == 1 && n > 0 {
        let c0 = sequence.get_char(0);
        let mut all_same = true;
        let mut i: usize = 1;
        while i < n
            invariant
                1 <= i <= n,
                n == sequence@.len(),
                c0 == sequence@[0],
                all_same <==> (forall|k: int| 0 <= k < i ==> #[trigger] sequence@[k]
                    == sequence@[0]),
            decreases n - i,
        {
            if sequence.get_char(i) != c0 {
                all_same = false;
            }
            i = i + 1;
        }
        if all_same {
            return Ok(n);
        }
        proof {
            assert(!uniform(sequence@));
        }
    }
    let mut j: usize = 1;
    while j < from_base
        invariant
            1 <= j <= from_base,
            from_base == char2val@.len(),
            forall|k: int| 0 <= k < j ==> !repeats_earlier(char2val@, k),
        decreases from_base - j,
    {
        let cj = char2val[j];
        let mut i: usize = 0;
        while i < j
            invariant
                i <= j,
                j < from_base,
                from_base == char2val@.len(),
                cj == char2val@[j as int],
                forall|k: int| 0 <= k < j ==> !repeats_earlier(char2val@, k),
                forall|m: int| 0 <= m < i ==> char2val@[m] != char2val@[j as int],
            decreases j - i,
        {
            if char2val[i] == cj {
                proof {
                    assert(repeats_earlier(char2val@, j as int));
                    assert(is_first_duplicate(char2val@, j as int));
                    assert(char2val@[i as int] == char2val@[j as int]);
                }
                return Err(NewError::MultipleChar { dup: cj, alphabet: copy_symbols(char2val) });
            }
            i = i + 1;
        }
        proof {
            assert(!repeats_earlier(char2val@, j as int));
        }
        j = j + 1;
    }
    proof {
        lemma_no_repeats_distinct(char2val@);
    }
    let mut k: usize = n;
    while k > 0
        invariant
            k <= n,
            n == sequence@.len(),
            from_base == char2val@.len(),
            from_base >= 1,
            distinct_symbols(char2val@),
            !(char2val@.len() == 1 && sequence@.len() > 0 && uniform(sequence@)),
            forall|m: int| k <= m < n ==> in_alphabet(char2val@, #[trigger] sequence@[m]),
        decreases k,
    {
        k = k - 1;
        let c = sequence.get_char(k);
        if find_symbol(char2val, c).is_none() {
            proof {
                assert(is_last_missing(sequence@, char2val@, k as int));
            }
            return Err(NewError::MissingChar { missing: c, alphabet: copy_symbols(char2val) });
        }
    }
    proof {
        assert(all_in_alphabet(sequence@, char2val@));
    }
    let mut dec: usize = 0;
    let mut t: usize = 0;
    while t < n
        invariant
            t <= n,
            n == sequence@.len(),
            from_base == char2val@.len(),
            from_base >= 1,
            distinct_symbols(char2val@),
            all_in_alphabet(sequence@, char2val@),
            !(char2val@.len() == 1 && sequence@.len() > 0 && uniform(sequence@)),
            dec as int == seq_value(sequence@.take(t as int), char2val@),
        decreases n - t,
    {
        let c = sequence.get_char(t);
        let digit = match find_symbol(char2val, c) {
            Some(v) => v,
            None => {
                // cannot happen: every symbol was located by the scan above
                proof {
                    assert(false);
                }
                return Err(NewError::DictEmpty);
            },
        };
        proof {
            let alpha = char2val@;
            let dd = digit_of(alpha, c);
            assert(0 <= dd < alpha.len() && alpha[dd] == c);
            assert(dd == digit as int);
            lemma_seq_value_take_step(sequence@, alpha, t as int);
        }
        let m = match dec.checked_mul(from_base) {
            Some(m) => m,
            None => {
                proof {
                    lemma_overflow_beyond(sequence@, char2val@, t as int, dec as int, digit as int);
                }
                return Err(NewError::Overflow);
            },
        };
        let next = match m.checked_add(digit) {
            Some(x) => x,
            None => {
                proof {
                    lemma_overflow_beyond(sequence@, char2val@, t as int, dec as int, digit as int);
                }
                return Err(NewError::Overflow);
            },
        };
        dec = next;
        t = t + 1;
    }
    proof {
        assert(sequence@.take(n as int) =~= sequence@);
    }
    Ok(dec)
}

/// Renders `decimal` over the canonical alphabet of digits and upper-case
/// letters, for bases 2 to 36.
///
/// A base below 2 is rejected with `BaseTooSmall` and one above the
/// canonical alphabet's length with `BaseTooBig`, each naming the bound and
/// the offending value. Zero renders as the single symbol `'0'` in every
/// base; any other value renders positionally over the first `base`
/// canonical symbols, without leading zero symbols.
pub fn switch_dec_base(decimal: usize, base: usize) -> (r: Result<String, NewError>)
    ensures
        base < 2 ==> r == Err::<String, NewError>(NewError::BaseTooSmall { min: 2, given: base }),
        base > canonical_seq().len() ==> r == Err::<String, NewError>(
            NewError::BaseTooBig { max: canonical_seq().len() as usize, given: base },
        ),
        2 <= base <= canonical_seq().len() && decimal == 0 ==> (r matches Ok(out) && out@
            == seq!['0']),
        2 <= base <= canonical_seq().len() && decimal > 0 ==> (r matches Ok(out) && out@
            == repr_chars(decimal as nat, canonical_seq().take(base as int))),
{
    if base < 2 {
        return Err(NewError::BaseTooSmall { min: 2, given: base });
    }
    let alphabet = canonical_alphabet();
    if base > alphabet.len() {
        return Err(NewError::BaseTooBig { max: alphabet.len(), given: base });
    }
    if decimal == 0 {
        let mut out = String::new();
        out.push('0');
        proof {
            assert(out@ =~= seq!['0']);
        }
        return Ok(out);
    }
    let mut prefix: Vec<char> = Vec::new();
    let mut i: usize = 0;
    while i < base
        invariant
            i <= base <= alphabet@.len(),
            alphabet@ == canonical_seq(),
            prefix@ == canonical_seq().take(i as int),
        decreases base - i,
    {
        prefix.push(alphabet[i]);
        i = i + 1;
        proof {
            assert(prefix@ =~= canonical_seq().take(i as int));
        }
    }
    match dec2seq(decimal, prefix.as_slice()) {
        Ok(s) => Ok(s),
        Err(e) => {
            // cannot happen: dec2seq succeeds for every base of at least two
            proof {
                assert(false);
            }
            Err(e)
        },
    }
}

/// When one decoding step leaves the native width, the whole sequence's
/// value does so too.
proof fn lemma_overflow_beyond(s: Seq<char>, alpha: Seq<char>, t: int, dec: int, digit: int)
    requires
        0 <= t < s.len(),
        all_in_alphabet(s, alpha),
        dec == seq_value(s.take(t), alpha),
        digit == digit_of(alpha, s[t]),
        0 <= digit,
        dec * (alpha.len() as int) + digit > usize::MAX,
    ensures
        seq_value(s, alpha) > usize::MAX,
{
    lemma_seq_value_take_step(s, alpha, t);
    assert(seq_value(s.take(t + 1), alpha) > usize::MAX);
    lemma_seq_value_prefix_le(s, alpha, t + 1);
}

} // verus!
