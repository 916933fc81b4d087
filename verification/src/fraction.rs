//! Decimal fractions held as digit strings: the digits `f` stand for
//! `0.f`, that is `digits_value(f) / 10^len(f)`. Doubling them is exact,
//! which is how a decimal is scaled by a power of two without big numbers.
use vstd::prelude::*;
use vstd::arithmetic::power2::{lemma_pow2_unfold, pow2};
use crate::decimal::{
    all_digits,
    char_of_digit,
    digit_value,
    digits_value,
    is_ascii_digit,
    lemma_digits_value_concat,
    pow10,
};

verus! {

/// The value of a digit followed by more digits.
proof fn lemma_digits_value_cons(c: char, s: Seq<char>)
    ensures
        digits_value(seq![c] + s) == digit_value(c) * pow10(s.len()) + digits_value(s),
{
    lemma_digits_value_concat(seq![c], s);
    assert(seq![c].drop_last() =~= Seq::<char>::empty());
    assert(seq![c].last() == c);
    assert(digits_value(Seq::<char>::empty()) == 0);
    assert(digits_value(seq![c]) == digit_value(c));
}

/// Doubles the fraction: the digits become those of the fractional part of
/// twice the fraction, and the integer part (0 or 1) is returned.
pub fn double_digits(f: &mut Vec<char>) -> (c: u8)
    requires
        all_digits(old(f)@),
    ensures
        final(f)@.len() == old(f)@.len(),
        all_digits(final(f)@),
        c <= 1,
        2 * digits_value(old(f)@) == c * pow10(old(f)@.len()) + digits_value(final(f)@),
{
    let ghost f0 = f@;
    let n = f.len();
    let mut i: usize = n;
    let mut carry: u8 = 0;
    assert(f0.skip(n as int) =~= Seq::<char>::empty());
    assert(f@.skip(n as int) =~= Seq::<char>::empty());
    while i > 0
        invariant
            i <= n == f@.len() == f0.len(),
            carry <= 1,
            all_digits(f@),
            forall|k: int| 0 <= k < i ==> #[trigger] f@[k] == f0[k],
            2 * digits_value(f0.skip(i as int)) == carry * pow10((n - i) as nat) + digits_value(
                f@.skip(i as int),
            ),
        decreases i,
    {
        let ghost before = f@;
        assert(is_ascii_digit(f@[i - 1]));
        let d = (f[i - 1] as u32 - '0' as u32) as u8;
        let v = 2 * d + carry;
        let nd = char_of_digit((v % 10) as u32);
        f.set(i - 1, nd);
        let ghost p = pow10((n - i) as nat);
        proof {
            assert(f0[i - 1] == before[i - 1]);
            assert(f0.skip(i - 1) =~= seq![f0[i - 1]] + f0.skip(i as int));
            lemma_digits_value_cons(f0[i - 1], f0.skip(i as int));
            assert(f@.skip(i as int) =~= before.skip(i as int));
            assert(f@.skip(i - 1) =~= seq![nd] + f@.skip(i as int));
            lemma_digits_value_cons(nd, f@.skip(i as int));
            assert(f0.skip(i as int).len() == n - i);
            assert(pow10((n - i + 1) as nat) == 10 * p);
            assert(digit_value(f0[i - 1]) == d);
            assert(digit_value(nd) == v % 10);
            assert(2 * (d * p + digits_value(f0.skip(i as int))) == (v / 10) * (10 * p) + (v % 10) * p
                + digits_value(f@.skip(i as int))) by (nonlinear_arith)
                requires
                    2 * digits_value(f0.skip(i as int)) == carry * p + digits_value(f@.skip(i as int)),
                    v == 2 * d + carry,
            ;
            assert forall|k: int| 0 <= k < f@.len() implies is_ascii_digit(#[trigger] f@[k]) by {
                if k != i - 1 {
                    assert(f@[k] == before[k]);
                }
            }
        }
        carry = v / 10;
        i -= 1;
    }
    assert(f0.skip(0) =~= f0);
    assert(f@.skip(0) =~= f@);
    carry
}

/// Doubles the fraction `k` times: the digits become those of the
/// fractional part of `2^k` times the fraction, and the integer part is
/// returned.
pub fn double_times(f: &mut Vec<char>, k: u32) -> (c: u128)
    requires
        all_digits(old(f)@),
        k <= 100,
    ensures
        final(f)@.len() == old(f)@.len(),
        all_digits(final(f)@),
        c * pow10(old(f)@.len()) + digits_value(final(f)@) == digits_value(old(f)@) * pow2(k as nat),
        c < pow2(k as nat),
{
    let ghost f0 = f@;
    let ghost n = f@.len();
    let mut c: u128 = 0;
    let mut i: u32 = 0;
    proof {
        vstd::arithmetic::power2::lemma2_to64();
        vstd::arithmetic::power2::lemma2_to64_rest();
        vstd::arithmetic::power2::lemma_pow2_adds(50, 50);
        vstd::arithmetic::power2::lemma_pow2_strictly_increases(0, 100);
    }
    while i < k
        invariant
            i <= k <= 100,
            f@.len() == n,
            all_digits(f@),
            c * pow10(n) + digits_value(f@) == digits_value(f0) * pow2(i as nat),
            c < pow2(i as nat),
            pow2(i as nat) <= pow2(100),
            pow2(100) < 0x1_0000_0000_0000_0000_0000_0000_0000_0000,
        decreases k - i,
    {
        let ghost v = digits_value(f@);
        let b = double_digits(f);
        proof {
            lemma_pow2_unfold((i + 1) as nat);
            assert((2 * c + b) * pow10(n) + digits_value(f@) == digits_value(f0) * pow2((i + 1) as nat))
                by (nonlinear_arith)
                requires
                    c * pow10(n) + v == digits_value(f0) * pow2(i as nat),
                    2 * v == b * pow10(n) + digits_value(f@),
                    pow2((i + 1) as nat) == 2 * pow2(i as nat),
            ;
            if i + 1 < 100 {
                vstd::arithmetic::power2::lemma_pow2_strictly_increases((i + 1) as nat, 100);
            }
        }
        c = 2 * c + b as u128;
        i += 1;
    }
    c
}

/// Whether the fraction is above zero (some digit is not `0`).
pub fn is_positive(f: &Vec<char>) -> (r: bool)
    requires
        all_digits(f@),
    ensures
        r == (digits_value(f@) > 0),
{
    let mut r = false;
    let mut i: usize = 0;
    assert(f@.take(0) =~= Seq::<char>::empty());
    while i < f.len()
        invariant
            i <= f.len(),
            all_digits(f@),
            r == (digits_value(f@.take(i as int)) > 0),
        decreases f.len() - i,
    {
        assert(f@.take(i + 1).drop_last() =~= f@.take(i as int));
        assert(f@.take(i + 1).last() == f@[i as int]);
        assert(is_ascii_digit(f@[i as int]));
        if f[i] != '0' {
            r = true;
        }
        i += 1;
    }
    assert(f@.take(f.len() as int) =~= f@);
    r
}

} // verus!
