//! Sizes as `vmmap`, `top` and `sysctl` print them ("8.12G", "900M",
//! "17K", "512B"): reading them into byte counts, and writing byte counts
//! in that form with one decimal.
//!
//! A size is a decimal number in the syntax that `f64::from_str` accepts,
//! followed by an optional unit letter. The number is read as the nearest
//! double, multiplied by the unit (1024-based), rounded toward zero and
//! saturated to the range of `u64`. A byte count is written as a double
//! divided by the unit and printed to one decimal.
use vstd::prelude::*;
use crate::decimal::{
    char_of_digit,
    decimal_chars,
    decimal_of,
    digit_char,
    all_digits,
    digit_run_len,
    digits_value,
    is_ascii_digit,
    lemma_digit_run_len_bound,
    lemma_digits_value_bound,
    lemma_digits_value_concat,
    lemma_digits_value_lower,
    lemma_digits_value_zeros,
    lemma_div_add_multiple,
    lemma_div_div,
    lemma_pow10_add,
    lemma_pow10_monotone,
    lemma_pow10_positive,
    pow10,
};
use crate::float::{
    double_floor,
    double_floor_exec,
    lemma_log2_floor_in_binade,
    lemma_pow2_le,
    lemma_pow2_values,
    lemma_round53_coarse,
    lemma_round53_fine,
    lemma_round53_large,
    lemma_round53_small,
    log2_floor_exec,
    pow2_exec,
    round53,
    round53_exec,
    rounds_up,
};
use crate::fraction::{double_times, is_positive};
use crate::text::{chars_eq, copy_range, string_from_chars, to_chars, trim, trim_chars};
use vstd::arithmetic::power2::{lemma2_to64, lemma_pow2_pos, pow2};

verus! {

/// A byte count saturated to `u64`.
pub open spec fn clamp_u64(x: nat) -> u64 {
    if x > u64::MAX {
        u64::MAX
    } else {
        x as u64
    }
}

/// What a float literal denotes.
pub enum FloatText {
    Invalid,
    NotANumber,
    Infinite { negative: bool },
    /// `(-1)^negative * mantissa * 10^scale`.
    Finite { negative: bool, mantissa: int, scale: int },
}

/// ASCII lowercase of one character.
pub open spec fn ascii_lower(c: char) -> char {
    if 'A' <= c <= 'Z' {
        ((c as u32) + 32) as char
    } else {
        c
    }
}

/// `s` equals the lowercase word `lit` ignoring ASCII case.
pub open spec fn lower_equals(s: Seq<char>, lit: Seq<char>) -> bool {
    s.map_values(|c: char| ascii_lower(c)) == lit
}

/// Length of a leading `+` or `-`.
pub open spec fn sign_len(s: Seq<char>) -> nat {
    if s.len() > 0 && (s[0] == '+' || s[0] == '-') {
        1
    } else {
        0
    }
}

/// The exponent written after `e`/`E`: a sign and at least one digit, and
/// nothing else.
pub open spec fn exponent_text(ex: Seq<char>) -> Option<int> {
    let ed = ex.skip(sign_len(ex) as int);
    if ed.len() > 0 && digit_run_len(ed) == ed.len() {
        if ex.len() > 0 && ex[0] == '-' {
            Some(-digits_value(ed))
        } else {
            Some(digits_value(ed) as int)
        }
    } else {
        None
    }
}

/// The meaning of `s` under the float literal grammar of `f64::from_str`:
/// an optional sign, then `inf`, `infinity` or `nan` in any case, or digits
/// with an optional point (at least one digit in all) and an optional
/// exponent.
pub open spec fn float_text(s: Seq<char>) -> FloatText {
    let negative = s.len() > 0 && s[0] == '-';
    let body = s.skip(sign_len(s) as int);
    if lower_equals(body, "inf"@) || lower_equals(body, "infinity"@) {
        FloatText::Infinite { negative }
    } else if lower_equals(body, "nan"@) {
        FloatText::NotANumber
    } else {
        number_text(body, negative)
    }
}

/// Digits of the fraction: those after a point that follows the integer
/// digits.
pub open spec fn fraction_digits(body: Seq<char>) -> Seq<char> {
    let after_int = body.skip(digit_run_len(body) as int);
    if after_int.len() > 0 && after_int[0] == '.' {
        after_int.skip(1).take(digit_run_len(after_int.skip(1)) as int)
    } else {
        Seq::empty()
    }
}

/// What follows the integer digits, the point and the fraction digits.
pub open spec fn number_rest(body: Seq<char>) -> Seq<char> {
    let after_int = body.skip(digit_run_len(body) as int);
    if after_int.len() > 0 && after_int[0] == '.' {
        after_int.skip(1 + fraction_digits(body).len() as int)
    } else {
        after_int
    }
}

/// The numeric part of the float grammar, after the sign.
pub open spec fn number_text(body: Seq<char>, negative: bool) -> FloatText {
    let a = digit_run_len(body);
    let frac = fraction_digits(body);
    let rest = number_rest(body);
    let mantissa = digits_value(body.take(a as int) + frac) as int;
    if a + frac.len() == 0 {
        FloatText::Invalid
    } else if rest.len() == 0 {
        FloatText::Finite { negative, mantissa, scale: -frac.len() }
    } else if rest[0] == 'e' || rest[0] == 'E' {
        match exponent_text(rest.skip(1)) {
            Some(e) => FloatText::Finite { negative, mantissa, scale: e - frac.len() },
            None => FloatText::Invalid,
        }
    } else {
        FloatText::Invalid
    }
}

/// `mantissa * 10^scale * mult`, rounded toward zero.
pub open spec fn scaled_floor(mantissa: nat, scale: int, mult: nat) -> nat {
    if scale >= 0 {
        mantissa * pow10(scale as nat) * mult
    } else {
        (mantissa * mult) / pow10((-scale) as nat)
    }
}

/// The numerator of `mantissa * 10^scale * mult` as a fraction.
pub open spec fn scaled_num(mantissa: nat, scale: int, mult: nat) -> nat {
    if scale >= 0 {
        mantissa * pow10(scale as nat) * mult
    } else {
        mantissa * mult
    }
}

/// The denominator of `mantissa * 10^scale * mult` as a fraction.
pub open spec fn scaled_den(scale: int) -> nat {
    if scale >= 0 {
        1
    } else {
        pow10((-scale) as nat)
    }
}

/// `mantissa * 10^scale` read as a double (the nearest one, ties to even,
/// as `f64::from_str` reads it), times the unit `mult`, rounded toward
/// zero. The unit is a power of two, by which a double scales exactly, so
/// this is the double nearest to the product, rounded down.
pub open spec fn double_scaled_floor(mantissa: nat, scale: int, mult: nat) -> nat {
    if mantissa == 0 {
        0
    } else {
        double_floor(round53(scaled_num(mantissa, scale, mult), scaled_den(scale)))
    }
}

/// The byte count for a float literal times a unit: unparsable text and
/// NaN give 0, negative values give 0, infinity and values past `u64::MAX`
/// give `u64::MAX`; finite values are read as doubles (see
/// [`double_scaled_floor`]).
pub open spec fn float_times(f: FloatText, mult: nat) -> u64 {
    match f {
        FloatText::Invalid => 0,
        FloatText::NotANumber => 0,
        FloatText::Infinite { negative } => if negative {
            0
        } else {
            u64::MAX
        },
        FloatText::Finite { negative, mantissa, scale } => if negative {
            0
        } else {
            clamp_u64(double_scaled_floor(mantissa as nat, scale, mult))
        },
    }
}

/// `s` without all the copies of `c` at its end.
pub open spec fn strip_trailing(s: Seq<char>, c: char) -> Seq<char>
    decreases s.len(),
{
    if s.len() > 0 && s.last() == c {
        strip_trailing(s.drop_last(), c)
    } else {
        s
    }
}

pub open spec fn ends_with_char(s: Seq<char>, c: char) -> bool {
    s.len() > 0 && s.last() == c
}

/// The byte count for an uppercase size text: a trailing `G`, `M` or `K`
/// (all copies of it) selects the unit 1024^3, 1024^2 or 1024; otherwise
/// trailing `B`s are dropped and the unit is one byte.
pub open spec fn size_of_upper(u: Seq<char>) -> u64 {
    if ends_with_char(u, 'G') {
        float_times(float_text(strip_trailing(u, 'G')), 1073741824)
    } else if ends_with_char(u, 'M') {
        float_times(float_text(strip_trailing(u, 'M')), 1048576)
    } else if ends_with_char(u, 'K') {
        float_times(float_text(strip_trailing(u, 'K')), 1024)
    } else {
        float_times(float_text(strip_trailing(u, 'B')), 1)
    }
}

/// What `str::to_uppercase` returns for the characters `s`: each
/// character's Unicode uppercase mapping.
pub uninterp spec fn str_to_uppercase(s: Seq<char>) -> Seq<char>;

/// The byte count that a size text denotes: trimmed, uppercased, then read
/// by [`size_of_upper`].
pub open spec fn size_of_text(s: Seq<char>) -> u64 {
    size_of_upper(str_to_uppercase(trim(s)))
}

/// ASCII uppercase of one character.
pub open spec fn ascii_upper(c: char) -> char {
    if 'a' <= c <= 'z' {
        ((c as u32) - 32) as char
    } else {
        c
    }
}

/// Every character of `s` is ASCII.
pub open spec fn all_ascii(s: Seq<char>) -> bool {
    forall|i: int| 0 <= i < s.len() ==> (#[trigger] s[i] as u32) < 128
}

/// The byte count that an ASCII size text denotes: trimmed, its letters
/// made uppercase, then read by [`size_of_upper`].
pub open spec fn size_of_ascii_text(s: Seq<char>) -> u64 {
    size_of_upper(trim(s).map_values(|c: char| ascii_upper(c)))
}

/// Calls `str::to_uppercase` on the characters of `s`. The contract names
/// its result [`str_to_uppercase`]; of ASCII text it states what the
/// Unicode case mapping gives there: `a` to `z` become `A` to `Z`, every
/// other character stays. Of other text it states nothing more.
#[verifier::external_body]
fn chars_to_uppercase(s: &Vec<char>) -> (r: Vec<char>)
    ensures
        r@ == str_to_uppercase(s@),
        all_ascii(s@) ==> r@ == s@.map_values(|c: char| ascii_upper(c)),
{
    let text: String = s.iter().collect();
    text.to_uppercase().chars().collect()
}

/// The scanned form of a float literal.
pub enum NumberScan {
    Invalid,
    NotANumber,
    Infinite { negative: bool },
    Finite {
        negative: bool,
        digits: Vec<char>,
        frac_len: usize,
        exp_negative: bool,
        exp_digits: Vec<char>,
    },
}

impl NumberScan {
    /// The literal's meaning.
    pub open spec fn meaning(&self) -> FloatText {
        match self {
            NumberScan::Invalid => FloatText::Invalid,
            NumberScan::NotANumber => FloatText::NotANumber,
            NumberScan::Infinite { negative } => FloatText::Infinite { negative: *negative },
            NumberScan::Finite { negative, digits, frac_len, exp_negative, exp_digits } => {
                let e = if *exp_negative {
                    -digits_value(exp_digits@)
                } else {
                    digits_value(exp_digits@) as int
                };
                FloatText::Finite {
                    negative: *negative,
                    mantissa: digits_value(digits@) as int,
                    scale: e - *frac_len,
                }
            },
        }
    }

    /// The digit vectors hold digits only.
    pub open spec fn well_formed(&self) -> bool {
        match self {
            NumberScan::Finite { digits, exp_digits, .. } => all_digits(digits@) && all_digits(
                exp_digits@,
            ),
            _ => true,
        }
    }
}

/// Index just past the run of ASCII digits that starts at `start`.
fn digit_run_end(s: &Vec<char>, start: usize) -> (end: usize)
    requires
        start <= s.len(),
    ensures
        start <= end <= s.len(),
        end - start == digit_run_len(s@.skip(start as int)),
{
    let mut e = start;
    while e < s.len() && '0' <= s[e] && s[e] <= '9'
        invariant
            start <= e <= s.len(),
            digit_run_len(s@.skip(start as int)) == (e - start) + digit_run_len(s@.skip(e as int)),
        decreases s.len() - e,
    {
        assert(s@.skip(e as int).drop_first() =~= s@.skip(e + 1));
        e += 1;
    }
    assert(digit_run_len(s@.skip(e as int)) == 0) by {
        if e < s.len() {
            assert(s@.skip(e as int)[0] == s@[e as int]);
        }
    }
    e
}

/// ASCII lowercase of each character.
fn ascii_lower_chars(s: &Vec<char>) -> (r: Vec<char>)
    ensures
        r@ == s@.map_values(|c: char| ascii_lower(c)),
{
    let mut r: Vec<char> = Vec::new();
    let mut i: usize = 0;
    while i < s.len()
        invariant
            i <= s.len(),
            r@ =~= s@.take(i as int).map_values(|c: char| ascii_lower(c)),
        decreases s.len() - i,
    {
        let c = s[i];
        let l = if 'A' <= c && c <= 'Z' {
            ((c as u32) + 32) as u8 as char
        } else {
            c
        };
        assert(l == ascii_lower(c)) by {
            if 'A' <= c && c <= 'Z' {
                assert(((c as u32) + 32) as u8 as char == ((c as u32) + 32) as char);
            }
        }
        r.push(l);
        assert(s@.take(i + 1).map_values(|c: char| ascii_lower(c)) =~= s@.take(i as int).map_values(
            |c: char| ascii_lower(c),
        ).push(ascii_lower(c)));
        i += 1;
    }
    assert(s@.take(s.len() as int) =~= s@);
    r
}

/// Concatenation of two character vectors.
fn concat_chars(a: &Vec<char>, b: &Vec<char>) -> (r: Vec<char>)
    ensures
        r@ == a@ + b@,
{
    let mut r = copy_range(a, 0, a.len());
    let mut i: usize = 0;
    assert(a@.subrange(0, a.len() as int) =~= a@);
    while i < b.len()
        invariant
            i <= b.len(),
            r@ =~= a@ + b@.take(i as int),
        decreases b.len() - i,
    {
        r.push(b[i]);
        assert(a@ + b@.take(i + 1) =~= (a@ + b@.take(i as int)).push(b@[i as int]));
        i += 1;
    }
    assert(b@.take(b.len() as int) =~= b@);
    r
}

/// Scans the exponent after `e`/`E` (see [`exponent_text`]).
fn scan_exponent(ex: &Vec<char>) -> (r: Option<(bool, Vec<char>)>)
    ensures
        match r {
            Some((neg, d)) => all_digits(d@) && exponent_text(ex@) == Some(
                if neg {
                    -digits_value(d@)
                } else {
                    digits_value(d@) as int
                },
            ),
            None => exponent_text(ex@) is None,
        },
{
    let el = ex.len();
    let exp_negative = el > 0 && ex[0] == '-';
    let esl: usize = if el > 0 && (ex[0] == '+' || ex[0] == '-') {
        1
    } else {
        0
    };
    let ed_end = digit_run_end(ex, esl);
    if esl == el || ed_end != el {
        return None;
    }
    let exp_digits = copy_range(ex, esl, el);
    assert(exp_digits@ =~= ex@.skip(sign_len(ex@) as int));
    proof {
        lemma_digit_run_len_bound(exp_digits@);
        assert(exp_digits@.take(digit_run_len(exp_digits@) as int) =~= exp_digits@);
    }
    Some((exp_negative, exp_digits))
}

/// The fraction digits and the index where the rest begins.
fn scan_fraction(body: &Vec<char>, a: usize) -> (r: (Vec<char>, usize))
    requires
        a == digit_run_len(body@),
    ensures
        r.0@ == fraction_digits(body@),
        all_digits(r.0@),
        a <= r.1 <= body.len(),
        body@.skip(r.1 as int) == number_rest(body@),
{
    let bl = body.len();
    proof {
        lemma_digit_run_len_bound(body@);
    }
    let has_point = a < bl && body[a] == '.';
    if has_point {
        let fe = digit_run_end(body, a + 1);
        assert(body@.skip(a as int).skip(1) =~= body@.skip(a + 1));
        proof {
            lemma_digit_run_len_bound(body@.skip(a + 1));
        }
        let frac = copy_range(body, a + 1, fe);
        assert(frac@ =~= body@.skip(a + 1).take(digit_run_len(body@.skip(a + 1)) as int));
        assert(body@.skip(a as int).skip(1 + frac@.len() as int) =~= body@.skip(fe as int));
        (frac, fe)
    } else {
        let frac: Vec<char> = Vec::new();
        assert(frac@ =~= Seq::<char>::empty());
        (frac, a)
    }
}

/// Scans the numeric part of a float literal (see [`number_text`]).
fn scan_number(body: &Vec<char>, negative: bool) -> (r: NumberScan)
    ensures
        r.meaning() == number_text(body@, negative),
        r.well_formed(),
{
    let bl = body.len();
    let a = digit_run_end(body, 0);
    assert(body@.skip(0) =~= body@);
    proof {
        lemma_digit_run_len_bound(body@);
    }
    let int_digits = copy_range(body, 0, a);
    let (frac, p) = scan_fraction(body, a);
    assert(all_digits(int_digits@)) by {
        assert(int_digits@ =~= body@.take(digit_run_len(body@) as int));
    }
    let digits = concat_chars(&int_digits, &frac);
    assert(all_digits(digits@)) by {
        assert forall|i: int| 0 <= i < digits@.len() implies is_ascii_digit(#[trigger] digits@[i]) by {
            if i < int_digits@.len() {
                assert(digits@[i] == int_digits@[i]);
            } else {
                assert(digits@[i] == frac@[i - int_digits@.len()]);
            }
        }
    }
    let frac_len = frac.len();
    if a == 0 && frac_len == 0 {
        return NumberScan::Invalid;
    }
    if p == bl {
        assert(body@.skip(p as int) =~= Seq::<char>::empty());
        return NumberScan::Finite {
            negative,
            digits,
            frac_len,
            exp_negative: false,
            exp_digits: Vec::new(),
        };
    }
    if body[p] != 'e' && body[p] != 'E' {
        return NumberScan::Invalid;
    }
    let ex = copy_range(body, p + 1, bl);
    assert(ex@ =~= body@.skip(p as int).skip(1));
    match scan_exponent(&ex) {
        Some((exp_negative, exp_digits)) => NumberScan::Finite {
            negative,
            digits,
            frac_len,
            exp_negative,
            exp_digits,
        },
        None => NumberScan::Invalid,
    }
}

/// Scans `s` as a float literal (see [`float_text`]).
pub fn scan_float(s: &Vec<char>) -> (r: NumberScan)
    ensures
        r.meaning() == float_text(s@),
        r.well_formed(),
{
    let n = s.len();
    let negative = n > 0 && s[0] == '-';
    let sl: usize = if n > 0 && (s[0] == '+' || s[0] == '-') {
        1
    } else {
        0
    };
    let body = copy_range(s, sl, n);
    assert(body@ =~= s@.skip(sign_len(s@) as int));
    let low = ascii_lower_chars(&body);
    if chars_eq(&low, &to_chars("inf")) || chars_eq(&low, &to_chars("infinity")) {
        return NumberScan::Infinite { negative };
    }
    if chars_eq(&low, &to_chars("nan")) {
        return NumberScan::NotANumber;
    }
    scan_number(&body, negative)
}

/// The digit string without its leading zeros.
fn strip_leading_zeros(d: &Vec<char>) -> (r: Vec<char>)
    requires
        all_digits(d@),
    ensures
        all_digits(r@),
        digits_value(r@) == digits_value(d@),
        r@.len() > 0 ==> r@[0] != '0',
{
    let mut z: usize = 0;
    while z < d.len() && d[z] == '0'
        invariant
            z <= d.len(),
            forall|i: int| 0 <= i < z ==> d@[i] == '0',
        decreases d.len() - z,
    {
        z += 1;
    }
    let r = copy_range(d, z, d.len());
    proof {
        assert(d@ =~= d@.take(z as int) + r@);
        lemma_digits_value_concat(d@.take(z as int), r@);
        lemma_digits_value_zeros(d@.take(z as int));
        assert forall|i: int| 0 <= i < r@.len() implies is_ascii_digit(#[trigger] r@[i]) by {
            assert(r@[i] == d@[z + i]);
        }
    }
    r
}

/// `min(value of the digits, cap)`.
fn clamped_digits_value(d: &Vec<char>, cap: u128) -> (r: u128)
    requires
        all_digits(d@),
        1 <= cap <= 0x1_0000_0000_0000_0000_0000_0000,
    ensures
        r == (if digits_value(d@) < cap {
            digits_value(d@)
        } else {
            cap as nat
        }),
{
    let mut v: u128 = 0;
    let mut i: usize = 0;
    assert(d@.take(0) =~= Seq::<char>::empty());
    while i < d.len()
        invariant
            i <= d.len(),
            all_digits(d@),
            1 <= cap <= 0x1_0000_0000_0000_0000_0000_0000,
            v == (if digits_value(d@.take(i as int)) < cap {
                digits_value(d@.take(i as int))
            } else {
                cap as nat
            }),
        decreases d.len() - i,
    {
        assert(is_ascii_digit(d@[i as int]));
        let dig = (d[i] as u32 - '0' as u32) as u128;
        assert(d@.take(i + 1).drop_last() =~= d@.take(i as int));
        assert(d@.take(i + 1).last() == d@[i as int]);
        let ghost x = digits_value(d@.take(i as int));
        assert(digits_value(d@.take(i + 1)) == x * 10 + dig);
        if v >= cap {
            assert(x >= cap);
            assert(x * 10 + dig >= cap) by (nonlinear_arith)
                requires
                    x >= cap,
            ;
            v = cap;
        } else {
            let w = v * 10 + dig;
            if w >= cap {
                v = cap;
            } else {
                v = w;
            }
        }
        i += 1;
    }
    assert(d@.take(d.len() as int) =~= d@);
    v
}

proof fn lemma_pow10_38()
    ensures
        pow10(38) == 100000000000000000000000000000000000000,
{
    reveal_with_fuel(pow10, 39);
}

/// `10^n` for small `n`.
fn pow10_exec(n: u32) -> (r: u128)
    requires
        n <= 38,
    ensures
        r == pow10(n as nat),
{
    let mut r: u128 = 1;
    let mut i: u32 = 0;
    while i < n
        invariant
            i <= n <= 38,
            r == pow10(i as nat),
        decreases n - i,
    {
        proof {
            lemma_pow10_monotone((i + 1) as nat, 38);
            lemma_pow10_38();
            assert(pow10((i + 1) as nat) == 10 * pow10(i as nat));
        }
        r = r * 10;
        i += 1;
    }
    r
}

/// Values with more than twenty integer digits exceed `u64::MAX`.
proof fn lemma_scaled_large(d: nat, len: nat, scale: int, m: nat)
    requires
        len >= 1,
        d >= pow10((len - 1) as nat),
        len + scale > 20,
        m >= 1,
    ensures
        scaled_floor(d, scale, m) > u64::MAX,
{
    reveal_with_fuel(pow10, 21);
    assert(pow10(20) == 100000000000000000000);
    let top = (len - 1 + scale) as nat;
    lemma_pow10_monotone(20, top);
    if scale >= 0 {
        let q = pow10(scale as nat);
        lemma_pow10_positive(scale as nat);
        lemma_pow10_add((len - 1) as nat, scale as nat);
        let p = pow10((len - 1) as nat);
        assert(d * q * m >= p * q) by (nonlinear_arith)
            requires
                d >= p,
                q >= 1,
                m >= 1,
        ;
    } else {
        let k = (-scale) as nat;
        lemma_pow10_add(top, k);
        assert(top + k == (len - 1) as nat);
        let pk = pow10(k);
        lemma_pow10_positive(k);
        let pt = pow10(top);
        assert(d * m >= pt * pk) by (nonlinear_arith)
            requires
                d >= pt * pk,
                m >= 1,
        ;
        lemma_div_add_multiple(pt, pk, 0);
        assert((pt * pk) / pk == pt);
        vstd::arithmetic::div_mod::lemma_div_is_ordered((pt * pk) as int, (d * m) as int, pk as int);
    }
}

/// Values below `10^-10` times the unit are below one half.
proof fn lemma_scaled_small(d: nat, len: nat, scale: int, m: nat)
    requires
        d < pow10(len),
        len + scale <= -10,
        1 <= m <= 1073741824,
    ensures
        2 * (d * m) < pow10((-scale) as nat),
{
    let k = (-scale) as nat;
    reveal_with_fuel(pow10, 11);
    assert(pow10(10) == 10000000000);
    lemma_pow10_add(len, 10);
    lemma_pow10_monotone(len + 10, k);
    let p = pow10(len);
    assert(2 * (d * m) < p * pow10(10)) by (nonlinear_arith)
        requires
            d < p,
            m <= 1073741824,
            pow10(10) == 10000000000,
    ;
}

/// The byte count for the decimal `digits * 10^scale` times the unit
/// `2^shift`, where `scale` is the exponent minus the number of fraction
/// digits (see [`double_scaled_floor`]), saturated to `u64`.
pub fn finite_magnitude(
    digits: &Vec<char>,
    frac_len: usize,
    exp_negative: bool,
    exp_digits: &Vec<char>,
    shift: u32,
) -> (r: u64)
    requires
        all_digits(digits@),
        all_digits(exp_digits@),
        shift <= 30,
    ensures
        r == clamp_u64(
            double_scaled_floor(
                digits_value(digits@),
                (if exp_negative {
                    -digits_value(exp_digits@)
                } else {
                    digits_value(exp_digits@) as int
                }) - frac_len,
                pow2(shift as nat),
            ),
        ),
{
    let ghost e_true: int = if exp_negative {
        -digits_value(exp_digits@)
    } else {
        digits_value(exp_digits@) as int
    };
    let ghost scale: int = e_true - frac_len;
    let ghost m: nat = pow2(shift as nat);
    proof {
        lemma2_to64();
        lemma_pow2_le(shift as nat, 30);
        lemma_pow2_pos(shift as nat);
    }
    let g = strip_leading_zeros(digits);
    let ghost dv = digits_value(g@);
    let len = g.len();
    if len == 0 {
        assert(g@ =~= Seq::<char>::empty());
        assert(dv == 0);
        return 0;
    }
    proof {
        lemma_digits_value_bound(g@);
        lemma_digits_value_lower(g@);
        lemma_pow10_positive((len - 1) as nat);
    }
    let cap: u128 = 0x1_0000_0000_0000_0000_0000;
    let e_c = clamped_digits_value(exp_digits, cap);
    let e_signed: i128 = if exp_negative {
        -(e_c as i128)
    } else {
        e_c as i128
    };
    let int_len: i128 = len as i128 + e_signed - frac_len as i128;
    let ghost num = scaled_num(dv, scale, m);
    let ghost den = scaled_den(scale);
    proof {
        if scale < 0 {
            lemma_pow10_positive((-scale) as nat);
        }
        assert(den > 0);
    }
    if int_len > 20 {
        proof {
            lemma_scaled_large(dv, len as nat, scale, m);
            lemma_scaled_floor_fraction(dv, scale, m);
            vstd::arithmetic::div_mod::lemma_fundamental_div_mod(num as int, den as int);
            lemma_pow2_values();
            assert(num >= den * pow2(64)) by (nonlinear_arith)
                requires
                    num == den * (num / den) + num % den,
                    num % den >= 0,
                    num / den >= pow2(64),
                    den > 0,
            ;
            lemma_round53_large(num, den);
        }
        return u64::MAX;
    }
    if int_len <= -10 {
        proof {
            lemma_scaled_small(dv, len as nat, scale, m);
            assert(dv * m > 0) by (nonlinear_arith)
                requires
                    dv > 0,
                    m > 0,
            ;
            lemma_round53_small(num, den);
        }
        return 0;
    }
    assert(e_c < cap);
    assert(int_len == len + scale);
    if int_len >= len as i128 {
        let sc = (int_len - len as i128) as u32;
        return scale_up(&g, sc, shift);
    }
    let split: usize = if int_len > 0 {
        int_len as usize
    } else {
        0
    };
    let pad: u32 = if int_len < 0 {
        (-int_len) as u32
    } else {
        0
    };
    fraction_floor(&g, split, pad, shift)
}

/// `scaled_floor` is the quotient of the fraction's numerator and
/// denominator.
proof fn lemma_scaled_floor_fraction(d: nat, scale: int, m: nat)
    ensures
        scaled_floor(d, scale, m) == scaled_num(d, scale, m) / scaled_den(scale),
{
    if scale >= 0 {
        vstd::arithmetic::div_mod::lemma_div_basics(scaled_num(d, scale, m) as int);
    }
}

/// `digits * 10^sc * 2^shift` read as a double, when that has at most
/// twenty integer digits.
fn scale_up(g: &Vec<char>, sc: u32, shift: u32) -> (r: u64)
    requires
        all_digits(g@),
        g.len() >= 1,
        g@[0] != '0',
        g.len() + sc <= 20,
        shift <= 30,
    ensures
        r == clamp_u64(double_scaled_floor(digits_value(g@), sc as int, pow2(shift as nat))),
{
    let len = g.len();
    proof {
        lemma_digits_value_bound(g@);
        lemma_digits_value_lower(g@);
        lemma_pow10_positive((len - 1) as nat);
        reveal_with_fuel(pow10, 21);
        assert(pow10(20) == 100000000000000000000);
        lemma_pow10_monotone(len as nat, 20);
        lemma_pow10_add(len as nat, sc as nat);
        lemma_pow10_monotone((len + sc) as nat, 20);
        lemma_pow10_positive(sc as nat);
        lemma2_to64();
        lemma_pow2_le(shift as nat, 30);
        lemma_pow2_pos(shift as nat);
    }
    let v = clamped_digits_value(g, 100000000000000000000);
    let p = pow10_exec(sc);
    assert(v * p < 100000000000000000000) by (nonlinear_arith)
        requires
            v < pow10(len as nat),
            p == pow10(sc as nat),
            pow10(len as nat) * pow10(sc as nat) == pow10((len + sc) as nat),
            pow10((len + sc) as nat) <= 100000000000000000000,
    ;
    let vp = v * p;
    let unit = pow2_exec(shift);
    assert(vp * unit < 100000000000000000000 * 1073741824) by (nonlinear_arith)
        requires
            vp < 100000000000000000000,
            unit <= 1073741824,
    ;
    assert(vp * unit > 0) by (nonlinear_arith)
        requires
            v >= 1,
            p >= 1,
            vp == v * p,
            unit >= 1,
    ;
    let w = vp * unit;
    let (mm, ee) = round53_exec(w, 1);
    double_floor_exec(mm, ee)
}

/// `c * q + v >= q * t` exactly when `c >= t`, for a remainder `v < q`.
proof fn lemma_quotient_at_least(c: nat, v: nat, q: nat, t: nat)
    requires
        q > 0,
        v < q,
    ensures
        c * q + v >= q * t <==> c >= t,
{
    if c >= t {
        assert(c * q >= t * q) by (nonlinear_arith)
            requires
                c >= t,
        ;
    } else {
        assert(c * q + v < q * t) by (nonlinear_arith)
            requires
                c + 1 <= t,
                v < q,
                q > 0,
        ;
    }
}

/// The integer digits and the fraction digits of `digits / 10^(len -
/// split + pad)`: the value of the first `split` digits (at most twenty),
/// and `pad` zeros followed by the remaining digits.
fn split_fraction(g: &Vec<char>, split: usize, pad: u32) -> (r: (u128, Vec<char>))
    requires
        all_digits(g@),
        split < g.len(),
        split <= 20,
        pad > 0 ==> split == 0,
    ensures
        all_digits(r.1@),
        r.1@.len() == g.len() - split + pad,
        digits_value(g@) == r.0 * pow10(r.1@.len()) + digits_value(r.1@),
        r.0 < 100000000000000000000,
{
    let len = g.len();
    let hi = copy_range(g, 0, split);
    let lo = copy_range(g, split, len);
    let mut f: Vec<char> = Vec::new();
    let mut z: u32 = 0;
    while z < pad
        invariant
            z <= pad,
            f@ =~= Seq::new(z as nat, |i: int| '0'),
        decreases pad - z,
    {
        f.push('0');
        z += 1;
    }
    let ghost zeros = f@;
    append_chars_to(&mut f, &lo);
    proof {
        assert(hi@ =~= g@.take(split as int));
        assert(lo@ =~= g@.skip(split as int));
        assert(g@ =~= hi@ + lo@);
        assert forall|i: int| 0 <= i < hi@.len() implies is_ascii_digit(#[trigger] hi@[i]) by {
            assert(hi@[i] == g@[i]);
        }
        assert forall|i: int| 0 <= i < lo@.len() implies is_ascii_digit(#[trigger] lo@[i]) by {
            assert(lo@[i] == g@[split + i]);
        }
        assert(f@ =~= zeros + lo@);
        assert forall|i: int| 0 <= i < f@.len() implies is_ascii_digit(#[trigger] f@[i]) by {
            if i >= zeros.len() {
                assert(f@[i] == lo@[i - zeros.len()]);
            }
        }
        lemma_digits_value_concat(hi@, lo@);
        lemma_digits_value_concat(zeros, lo@);
        crate::decimal::lemma_digits_value_zeros(zeros);
        assert(digits_value(f@) == digits_value(lo@));
        if pad > 0 {
            assert(hi@ =~= Seq::<char>::empty());
            assert(digits_value(hi@) == 0);
        }
        lemma_digits_value_bound(hi@);
        reveal_with_fuel(pow10, 21);
        assert(pow10(20) == 100000000000000000000);
        lemma_pow10_monotone(split as nat, 20);
    }
    let h = clamped_digits_value(&hi, 100000000000000000000);
    proof {
        assert(h == digits_value(hi@));
        if pad > 0 {
            assert(h == 0);
            assert(h * pow10(f@.len()) == 0);
            assert(digits_value(g@) == digits_value(lo@));
        } else {
            assert(zeros.len() == 0);
            assert(f@.len() == lo@.len());
        }
    }
    (h, f)
}

/// Whether the fraction `0.f` brings the double nearest to `y + 0.f` up to
/// `y + 1` (see [`rounds_up`]), for `y` below `2^53`.
fn fraction_rounds_up(f: Vec<char>, y: u128) -> (r: bool)
    requires
        all_digits(f@),
        y < 0x20_0000_0000_0000,
    ensures
        r == rounds_up(digits_value(f@), pow10(f@.len()), y as nat),
{
    let mut f = f;
    let ghost r0 = digits_value(f@);
    let ghost den = pow10(f@.len());
    proof {
        lemma_pow10_positive(f@.len());
        lemma_pow2_values();
        lemma2_to64();
    }
    if y == 0 {
        let c2 = double_times(&mut f, 54);
        proof {
            lemma_digits_value_bound(f@);
            vstd::arithmetic::power2::lemma2_to64_rest();
            lemma_quotient_at_least(c2 as nat, digits_value(f@), den, (pow2(54) - 1) as nat);
        }
        return c2 >= 0x3f_ffff_ffff_ffff;
    }
    let el = log2_floor_exec(y, 1);
    proof {
        lemma_log2_floor_in_binade(y as nat, 1);
        if el > 52 {
            lemma_pow2_le(53, el as nat);
        }
    }
    if el < 52 {
        let k = (53 - el) as u32;
        let c2 = double_times(&mut f, k);
        let top = pow2_exec(k);
        proof {
            lemma_digits_value_bound(f@);
            lemma_pow2_pos(k as nat);
            lemma_quotient_at_least(c2 as nat, digits_value(f@), den, (pow2(k as nat) - 1) as nat);
        }
        c2 >= top - 1
    } else {
        let c2 = double_times(&mut f, 1);
        let rest = is_positive(&f);
        proof {
            lemma_digits_value_bound(f@);
            assert(2 * r0 == c2 * den + digits_value(f@));
            if c2 == 0 {
                assert(2 * r0 < den);
            } else {
                assert(c2 == 1);
                assert(2 * r0 == den + digits_value(f@));
            }
        }
        c2 == 1 && (rest || y % 2 == 1)
    }
}

/// `digits * 2^shift / 10^(len - split + pad)` read as a double and
/// rounded down: `split` integer digits (at most twenty), then `pad`
/// zeros, then the rest of the digits after the point. The integer part
/// is carried exactly; the fraction is kept as digits, doubled, and only
/// decides rounding at the last place.
fn fraction_floor(g: &Vec<char>, split: usize, pad: u32, shift: u32) -> (r: u64)
    requires
        all_digits(g@),
        g@[0] != '0',
        split < g.len(),
        split <= 20,
        pad < 10,
        pad > 0 ==> split == 0,
        shift <= 30,
    ensures
        r == clamp_u64(
            double_scaled_floor(
                digits_value(g@),
                -((g.len() - split + pad) as int),
                pow2(shift as nat),
            ),
        ),
{
    let (h, mut f) = split_fraction(g, split, pad);
    let ghost f0 = f@;
    let ghost n = f0.len();
    let ghost dv = digits_value(g@);
    let ghost unit = pow2(shift as nat);
    proof {
        lemma_pow10_positive(n);
        lemma2_to64();
        lemma_pow2_le(shift as nat, 30);
        lemma_pow2_pos(shift as nat);
        lemma_pow2_values();
        crate::decimal::lemma_digits_value_lower(g@);
        lemma_pow10_positive((g.len() - 1) as nat);
    }
    let c = double_times(&mut f, shift);
    let two_shift = pow2_exec(shift);
    assert(h * two_shift + c < 100000000000000000000 * 1073741824 + 1073741824) by (nonlinear_arith)
        requires
            h < 100000000000000000000,
            two_shift <= 1073741824,
            c < two_shift,
    ;
    let y: u128 = h * two_shift + c;
    let ghost num = dv * unit;
    let ghost den = pow10(n);
    let ghost r0 = digits_value(f@);
    proof {
        assert(num == y * den + r0) by (nonlinear_arith)
            requires
                num == dv * unit,
                dv == h * den + digits_value(f0),
                c * den + r0 == digits_value(f0) * unit,
                y == h * unit + c,
        ;
        lemma_digits_value_bound(f@);
        assert(den * y <= num < den * (y + 1)) by (nonlinear_arith)
            requires
                num == y * den + r0,
                r0 < den,
        ;
        assert(num > 0) by (nonlinear_arith)
            requires
                dv >= 1,
                unit >= 1,
                num == dv * unit,
        ;
        assert(scaled_num(dv, -(n as int), unit) == num);
        assert(scaled_den(-(n as int)) == den);
        assert(r0 == num - den * y);
    }
    if y >= 0x20_0000_0000_0000 {
        let sticky = is_positive(&f);
        let y2: u128 = 2 * y + if sticky {
            1
        } else {
            0
        };
        proof {
            assert(num > den * y <==> r0 > 0);
            lemma_round53_coarse(num, den, y as nat);
        }
        let (mm, ee) = round53_exec(y2, 2);
        return double_floor_exec(mm, ee);
    }
    let up = fraction_rounds_up(f, y);
    proof {
        lemma_round53_fine(num, den, y as nat);
    }
    if up {
        (y + 1) as u64
    } else {
        y as u64
    }
}

/// Appends the characters of `b` to `a`.
fn append_chars_to(a: &mut Vec<char>, b: &Vec<char>)
    ensures
        final(a)@ == old(a)@ + b@,
{
    crate::text::append_chars(a, b);
}

/// Index where the run of `c` at the end of `u` begins.
fn strip_trailing_end(u: &Vec<char>, c: char) -> (end: usize)
    ensures
        end <= u.len(),
        u@.take(end as int) == strip_trailing(u@, c),
{
    let mut end = u.len();
    assert(u@.take(end as int) =~= u@);
    while end > 0 && u[end - 1] == c
        invariant
            end <= u.len(),
            strip_trailing(u@, c) == strip_trailing(u@.take(end as int), c),
        decreases end,
    {
        assert(u@.take(end as int).drop_last() =~= u@.take(end - 1));
        end -= 1;
    }
    end
}

/// The byte count for an uppercase size text (see [`size_of_upper`]).
pub fn size_from_upper(u: &Vec<char>) -> (r: u64)
    ensures
        r == size_of_upper(u@),
{
    let n = u.len();
    let (unit, shift): (char, u32) = if n > 0 && u[n - 1] == 'G' {
        ('G', 30)
    } else if n > 0 && u[n - 1] == 'M' {
        ('M', 20)
    } else if n > 0 && u[n - 1] == 'K' {
        ('K', 10)
    } else {
        ('B', 0)
    };
    proof {
        lemma2_to64();
    }
    let end = strip_trailing_end(u, unit);
    let body = copy_range(u, 0, end);
    let scan = scan_float(&body);
    match scan {
        NumberScan::Invalid => 0,
        NumberScan::NotANumber => 0,
        NumberScan::Infinite { negative } => if negative {
            0
        } else {
            u64::MAX
        },
        NumberScan::Finite { negative, digits, frac_len, exp_negative, exp_digits } => {
            if negative {
                0
            } else {
                finite_magnitude(&digits, frac_len, exp_negative, &exp_digits, shift)
            }
        },
    }
}

/// Reads a size such as `"8.12G"`, `"900M"`, `"17K"` or `"512B"` into a
/// byte count (see [`size_of_text`]): surrounding whitespace is ignored,
/// letters are read in uppercase, text that is no number gives 0. Of
/// ASCII text this is [`size_of_ascii_text`].
pub fn parse_size(size_str: &str) -> (r: u64)
    ensures
        r == size_of_text(size_str@),
        all_ascii(trim(size_str@)) ==> r == size_of_ascii_text(size_str@),
{
    let chars = to_chars(size_str);
    let trimmed = trim_chars(&chars);
    let upper = chars_to_uppercase(&trimmed);
    size_from_upper(&upper)
}

/// Spacing of the `f64` values near `b`: 1 below `2^53`, doubling with
/// each binade above.
pub open spec fn f64_quantum(b: nat) -> nat
    decreases b,
{
    if b < 0x20_0000_0000_0000 {
        1
    } else {
        2 * f64_quantum(b / 2)
    }
}

/// `x / q` rounded to the nearest integer, ties to even.
pub open spec fn round_half_even(x: nat, q: nat) -> nat {
    let n = x / q;
    let r = x % q;
    if 2 * r > q || (2 * r == q && n % 2 == 1) {
        n + 1
    } else {
        n
    }
}

/// The value of `b as f64`: `b` rounded to the nearest double, ties to even.
pub open spec fn as_f64(b: nat) -> nat {
    round_half_even(b, f64_quantum(b)) * f64_quantum(b)
}

/// `b / unit` as a float printed with one decimal, counted in tenths: the
/// exact quotient of the double rounded to tenths, ties to even.
pub open spec fn tenths(b: nat, unit: nat) -> nat {
    round_half_even(10 * as_f64(b), unit)
}

/// A count of tenths written with one decimal.
pub open spec fn one_decimal(t: nat) -> Seq<char> {
    decimal_chars(t / 10) + seq!['.', digit_char(t % 10)]
}

/// How [`format_size`] writes a byte count: with one decimal and the unit
/// `G`, `M` or `K` from 1024^3, 1024^2 and 1024 bytes on, else the exact
/// count followed by `B`.
pub open spec fn format_size_text(bytes: u64) -> Seq<char> {
    if bytes >= 1073741824 {
        one_decimal(tenths(bytes as nat, 1073741824)).push('G')
    } else if bytes >= 1048576 {
        one_decimal(tenths(bytes as nat, 1048576)).push('M')
    } else if bytes >= 1024 {
        one_decimal(tenths(bytes as nat, 1024)).push('K')
    } else {
        decimal_chars(bytes as nat).push('B')
    }
}

proof fn lemma_digit_run_all(s: Seq<char>)
    requires
        all_digits(s),
    ensures
        digit_run_len(s) == s.len(),
    decreases s.len(),
{
    if s.len() > 0 {
        assert(is_ascii_digit(s[0]));
        assert(all_digits(s.drop_first())) by {
            assert forall|i: int| 0 <= i < s.drop_first().len() implies is_ascii_digit(
                #[trigger] s.drop_first()[i],
            ) by {
                assert(s.drop_first()[i] == s[i + 1]);
            }
        }
        lemma_digit_run_all(s.drop_first());
    }
}

/// A byte count below 1 KiB, written by [`format_size`], reads back as
/// itself: the text (digits and `B`) has no surrounding whitespace, and
/// read in uppercase it denotes the same count.
pub proof fn law_small_sizes_read_back(bytes: u64)
    requires
        bytes < 1024,
    ensures
        trim(format_size_text(bytes)) == format_size_text(bytes),
        size_of_upper(format_size_text(bytes)) == bytes,
{
    let d = decimal_chars(bytes as nat);
    let t = format_size_text(bytes);
    crate::decimal::lemma_decimal_chars(bytes as nat);
    assert(t == d.push('B'));
    assert(is_ascii_digit(d[0]));
    assert(is_ascii_digit(d.last()));
    assert(!crate::text::is_white_space(t[0]));
    assert(!crate::text::is_white_space(t.last()));
    assert(t.drop_last() =~= d);
    assert(crate::text::ws_prefix_len(t) == 0);
    assert(crate::text::ws_suffix_len(t) == 0);
    assert(trim(t) =~= t);
    assert(strip_trailing(t, 'B') == strip_trailing(d, 'B'));
    assert(strip_trailing(d, 'B') == d);
    lemma_digit_run_all(d);
    assert(sign_len(d) == 0);
    assert(d.skip(0) =~= d);
    reveal_strlit("inf");
    reveal_strlit("infinity");
    reveal_strlit("nan");
    assert(!lower_equals(d, "inf"@)) by {
        assert(d.map_values(|c: char| ascii_lower(c))[0] == d[0]);
    }
    assert(!lower_equals(d, "infinity"@)) by {
        assert(d.map_values(|c: char| ascii_lower(c))[0] == d[0]);
    }
    assert(!lower_equals(d, "nan"@)) by {
        assert(d.map_values(|c: char| ascii_lower(c))[0] == d[0]);
    }
    assert(d.skip(d.len() as int) =~= Seq::<char>::empty());
    assert(fraction_digits(d) =~= Seq::<char>::empty());
    assert(number_rest(d) =~= Seq::<char>::empty());
    assert(d.take(d.len() as int) + fraction_digits(d) =~= d);
    assert(float_text(d) == FloatText::Finite { negative: false, mantissa: bytes as int, scale: 0 });
    assert(pow10(0) == 1);
    if bytes > 0 {
        lemma_pow2_values();
        lemma_round53_fine(bytes as nat, 1, bytes as nat);
        lemma_log2_floor_in_binade(bytes as nat, 1);
        let e = crate::float::log2_floor(bytes as nat, 1);
        if 0 <= e < 52 {
            lemma_pow2_le(1, (53 - e) as nat);
            lemma2_to64();
        }
        assert(!crate::float::rounds_up(0, 1, bytes as nat));
    }
    assert(double_scaled_floor(bytes as nat, 0, 1) == bytes);
    assert(!ends_with_char(t, 'G') && !ends_with_char(t, 'M') && !ends_with_char(t, 'K'));
}

/// The digit run of `a + b` is `a` when `a` is all digits and `b` starts
/// with something else.
proof fn lemma_digit_run_concat(a: Seq<char>, b: Seq<char>)
    requires
        all_digits(a),
        b.len() > 0,
        !is_ascii_digit(b[0]),
    ensures
        digit_run_len(a + b) == a.len(),
    decreases a.len(),
{
    if a.len() == 0 {
        assert(a + b =~= b);
    } else {
        assert((a + b)[0] == a[0]);
        assert((a + b).drop_first() =~= a.drop_first() + b);
        assert(all_digits(a.drop_first())) by {
            assert forall|i: int| 0 <= i < a.drop_first().len() implies is_ascii_digit(
                #[trigger] a.drop_first()[i],
            ) by {
                assert(a.drop_first()[i] == a[i + 1]);
            }
        }
        lemma_digit_run_concat(a.drop_first(), b);
    }
}

/// A count of tenths written with one decimal: digits, a point and one
/// digit, read as the float literal `t * 10^-1`.
proof fn lemma_one_decimal_text(t: nat)
    ensures
        forall|i: int|
            0 <= i < one_decimal(t).len() ==> is_ascii_digit(#[trigger] one_decimal(t)[i])
                || one_decimal(t)[i] == '.',
        one_decimal(t).len() >= 3,
        is_ascii_digit(one_decimal(t)[0]),
        is_ascii_digit(one_decimal(t).last()),
        float_text(one_decimal(t)) == (FloatText::Finite {
            negative: false,
            mantissa: t as int,
            scale: -1,
        }),
{
    let dc = decimal_chars(t / 10);
    let c = digit_char(t % 10);
    let d = one_decimal(t);
    crate::decimal::lemma_decimal_chars(t / 10);
    crate::decimal::lemma_digit_char(t % 10);
    assert(d == dc + seq!['.', c]);
    assert forall|i: int| 0 <= i < d.len() implies is_ascii_digit(#[trigger] d[i]) || d[i]
        == '.' by {
        if i < dc.len() {
            assert(d[i] == dc[i]);
        }
    }
    assert(d[0] == dc[0]);
    assert(is_ascii_digit(d[0]));
    assert(sign_len(d) == 0);
    assert(d.skip(0) =~= d);
    reveal_strlit("inf");
    reveal_strlit("infinity");
    reveal_strlit("nan");
    assert(!lower_equals(d, "inf"@)) by {
        assert(d.map_values(|c: char| ascii_lower(c))[0] == d[0]);
    }
    assert(!lower_equals(d, "infinity"@)) by {
        assert(d.map_values(|c: char| ascii_lower(c))[0] == d[0]);
    }
    assert(!lower_equals(d, "nan"@)) by {
        assert(d.map_values(|c: char| ascii_lower(c))[0] == d[0]);
    }
    lemma_digit_run_concat(dc, seq!['.', c]);
    let a = dc.len();
    let after_int = d.skip(a as int);
    assert(after_int =~= seq!['.', c]);
    assert(after_int.skip(1) =~= seq![c]);
    assert(seq![c].drop_first() =~= Seq::<char>::empty());
    assert(seq![c][0] == c);
    assert(digit_run_len(Seq::<char>::empty()) == 0);
    assert(digit_run_len(seq![c]) == 1);
    assert(seq![c].take(1) =~= seq![c]);
    assert(fraction_digits(d) =~= seq![c]);
    assert(number_rest(d) =~= Seq::<char>::empty());
    assert(d.take(a as int) =~= dc);
    let m = dc + seq![c];
    assert(m.drop_last() =~= dc);
    assert(digits_value(m) == digits_value(dc) * 10 + crate::decimal::digit_value(c));
    vstd::arithmetic::div_mod::lemma_fundamental_div_mod(t as int, 10);
    assert(digits_value(m) == t);
}

/// Characters that are digits, points or uppercase ASCII letters are
/// ASCII and kept by the ASCII uppercase mapping.
proof fn lemma_upper_fixed(s: Seq<char>)
    requires
        forall|i: int|
            0 <= i < s.len() ==> is_ascii_digit(#[trigger] s[i]) || s[i] == '.' || ('A' <= s[i]
                <= 'Z'),
    ensures
        all_ascii(s),
        s.map_values(|c: char| ascii_upper(c)) == s,
{
    assert forall|i: int| 0 <= i < s.len() implies (#[trigger] s[i] as u32) < 128 by {
        assert(is_ascii_digit(s[i]) || s[i] == '.' || ('A' <= s[i] <= 'Z'));
    }
    assert(s.map_values(|c: char| ascii_upper(c)) =~= s);
}

/// `b` written in tenths of `unit` and read back: the count read is within
/// `unit / 20` and a rounding step or two of `b`.
proof fn lemma_tenths_read_back(b: nat, unit: nat)
    requires
        unit == 1024 || unit == 1048576 || unit == 1073741824,
        unit <= b < 0x20_0000_0000_0000,
    ensures
        tenths(b, unit) > 0,
        ({
            let r = clamp_u64(double_scaled_floor(tenths(b, unit), -1, unit)) as int;
            &&& 20 * (r - b) <= unit + 20
            &&& 20 * (b - r) < unit + 40
        }),
{
    assert(f64_quantum(b) == 1);
    vstd::arithmetic::div_mod::lemma_fundamental_div_mod(b as int, 1);
    assert(as_f64(b) == b);
    let t = tenths(b, unit);
    assert(t == round_half_even(10 * b, unit));
    crate::float::lemma_round_half_even_near(10 * b, unit);
    let p = t * unit;
    assert(2 * p <= 20 * b + unit && 20 * b <= 2 * p + unit) by (nonlinear_arith)
        requires
            2 * t * unit <= 2 * (10 * b) + unit,
            2 * (10 * b) <= 2 * t * unit + unit,
            p == t * unit,
    ;
    assert(t > 0) by (nonlinear_arith)
        requires
            20 * b <= 2 * p + unit,
            p == t * unit,
            b >= unit,
            unit > 0,
    ;
    assert(pow10(1) == 10) by {
        assert(pow10(0) == 1);
    }
    assert(scaled_num(t, -1, unit) == p);
    assert(scaled_den(-1) == 10);
    let d = double_floor(crate::float::round53(p, 10));
    assert(double_scaled_floor(t, -1, unit) == d);
    let y = p / 10;
    vstd::arithmetic::div_mod::lemma_fundamental_div_mod(p as int, 10);
    lemma_pow2_values();
    vstd::arithmetic::power2::lemma2_to64_rest();
    if y < 0x20_0000_0000_0000 {
        assert(p > 0) by (nonlinear_arith)
            requires
                t > 0,
                unit > 0,
                p == t * unit,
        ;
        lemma_round53_fine(p, 10, y);
        assert(d == y || d == y + 1);
    } else {
        crate::float::lemma_round53_binade53(p, 10);
        assert(d + 1 >= y && d <= y + 1);
    }
    assert(d <= u64::MAX);
}

/// A byte count below `2^53`, written by [`format_size`] and read back by
/// [`parse_size`], comes back to within a twentieth of the unit it was
/// written in and two bytes: the text is ASCII (so the uppercase reading
/// is [`size_of_ascii_text`]); below 1 KiB it comes back exactly.
pub proof fn law_sizes_read_back(bytes: u64)
    requires
        bytes < 0x20_0000_0000_0000,
    ensures
        all_ascii(trim(format_size_text(bytes))),
        ({
            let unit: int = if bytes >= 1073741824 {
                1073741824
            } else if bytes >= 1048576 {
                1048576
            } else if bytes >= 1024 {
                1024
            } else {
                1
            };
            let r = size_of_ascii_text(format_size_text(bytes)) as int;
            &&& r - bytes <= unit / 20 + 2
            &&& bytes - r <= unit / 20 + 2
        }),
        bytes < 1024 ==> size_of_ascii_text(format_size_text(bytes)) == bytes,
{
    let s = format_size_text(bytes);
    if bytes < 1024 {
        law_small_sizes_read_back(bytes);
        let d = decimal_chars(bytes as nat);
        crate::decimal::lemma_decimal_chars(bytes as nat);
        assert(s == d.push('B'));
        assert forall|i: int| 0 <= i < s.len() implies is_ascii_digit(#[trigger] s[i]) || s[i]
            == '.' || ('A' <= s[i] <= 'Z') by {
            if i < d.len() {
                assert(s[i] == d[i]);
            }
        }
        lemma_upper_fixed(s);
    } else {
        let (unit, letter): (nat, char) = if bytes >= 1073741824 {
            (1073741824, 'G')
        } else if bytes >= 1048576 {
            (1048576, 'M')
        } else {
            (1024, 'K')
        };
        let t = tenths(bytes as nat, unit);
        let o = one_decimal(t);
        assert(s == o.push(letter));
        lemma_one_decimal_text(t);
        assert forall|i: int| 0 <= i < s.len() implies is_ascii_digit(#[trigger] s[i]) || s[i]
            == '.' || ('A' <= s[i] <= 'Z') by {
            if i < o.len() {
                assert(s[i] == o[i]);
            }
        }
        lemma_upper_fixed(s);
        assert(s[0] == o[0]);
        assert(!crate::text::is_white_space(s[0]));
        assert(!crate::text::is_white_space(s.last()));
        assert(crate::text::ws_prefix_len(s) == 0);
        assert(crate::text::ws_suffix_len(s) == 0);
        assert(trim(s) =~= s);
        assert(s.drop_last() =~= o);
        assert(strip_trailing(s, letter) == strip_trailing(o, letter));
        assert(strip_trailing(o, letter) == o);
        lemma_tenths_read_back(bytes as nat, unit);
    }
}

/// `x / q` rounded to nearest, ties to even.
pub(crate) fn round_half_even_exec(x: u128, q: u128) -> (r: u128)
    requires
        q > 1 || x < 0xffff_ffff_ffff_ffff_ffff_ffff_ffff_ffff,
        q > 0,
    ensures
        r == round_half_even(x as nat, q as nat),
{
    let n = x / q;
    let rem = x % q;
    proof {
        if q > 1 && x > 0 {
            vstd::arithmetic::div_mod::lemma_div_decreases(x as int, q as int);
        }
    }
    if rem > q - rem || (rem == q - rem && n % 2 == 1) {
        n + 1
    } else {
        n
    }
}

/// The value of `b as f64`.
fn f64_value(b: u64) -> (r: u128)
    ensures
        r == as_f64(b as nat),
        r <= 0x20_0000_0000_0000 * 0x1_0000_0000_0000_0000,
{
    let mut q: u128 = 1;
    let mut x: u128 = b as u128;
    while x >= 0x20_0000_0000_0000
        invariant
            q >= 1,
            q <= 0x1_0000_0000_0000_0000,
            x == (b as nat) / (q as nat),
            x * q <= b,
            f64_quantum(b as nat) == q * f64_quantum(x as nat),
        decreases x,
    {
        proof {
            lemma_div_div(b as nat, q as nat, 2);
            let f = f64_quantum((x / 2) as nat);
            assert(f64_quantum(x as nat) == 2 * f);
            assert(q * (2 * f) == (q * 2) * f) by (nonlinear_arith);
        }
        assert(q * 2 <= 0x1_0000_0000_0000_0000) by (nonlinear_arith)
            requires
                x * q <= b,
                x >= 0x20_0000_0000_0000,
                b <= 0xffff_ffff_ffff_ffff,
        ;
        assert((x / 2) * (q * 2) <= x * q) by (nonlinear_arith)
            requires
                x >= 0,
                q >= 1,
        ;
        x = x / 2;
        q = q * 2;
    }
    assert(f64_quantum(x as nat) == 1);
    let n = round_half_even_exec(b as u128, q);
    assert(n <= x + 1);
    assert(f64_quantum(b as nat) == q) by {
        let f = f64_quantum(x as nat);
        assert(f == 1);
        assert(q * f == q) by (nonlinear_arith)
            requires
                f == 1,
        ;
    }
    assert(n * q <= 0x20_0000_0000_0000 * 0x1_0000_0000_0000_0000) by (nonlinear_arith)
        requires
            n <= x + 1,
            x < 0x20_0000_0000_0000,
            q <= 0x1_0000_0000_0000_0000,
    ;
    n * q
}

/// The characters of a count of tenths written with one decimal.
fn one_decimal_chars(t: u128) -> (r: Vec<char>)
    ensures
        r@ == one_decimal(t as nat),
{
    let mut r = decimal_of(t / 10);
    r.push('.');
    r.push(char_of_digit((t % 10) as u32));
    r
}

/// Writes a byte count for display, as [`format_size_text`] states:
/// `1536` is `"1.5K"`, `512` is `"512B"`.
pub fn format_size(bytes: u64) -> (r: String)
    ensures
        r@ == format_size_text(bytes),
{
    let mut v: Vec<char>;
    if bytes >= 1024 {
        let (unit, letter): (u128, char) = if bytes >= 1073741824 {
            (1073741824, 'G')
        } else if bytes >= 1048576 {
            (1048576, 'M')
        } else {
            (1024, 'K')
        };
        let bf = f64_value(bytes);
        let t = round_half_even_exec(10 * bf, unit);
        v = one_decimal_chars(t);
        v.push(letter);
    } else {
        v = decimal_of(bytes as u128);
        v.push('B');
    }
    string_from_chars(&v)
}

} // verus!
