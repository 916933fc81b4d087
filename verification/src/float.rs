//! Double-precision arithmetic on nonnegative values, as `f64` computes
//! it: a value is a significand `m` and exponent `e` standing for
//! `m * 2^e`, with `2^52 <= m <= 2^53` (zero is `(0, 0)`); every operation
//! rounds its exact result to the nearest such value, ties to even. The
//! exponent is unbounded: overflow to infinity and subnormal results are
//! not modelled. Where the library reads such values they end as byte
//! counts, past `u64::MAX` or below one half, which saturate or round to
//! zero in the same way.
use vstd::prelude::*;
use vstd::arithmetic::power2::{
    lemma2_to64,
    lemma2_to64_rest,
    lemma_pow2_adds,
    lemma_pow2_pos,
    lemma_pow2_strictly_increases,
    lemma_pow2_unfold,
    pow2,
};
use crate::size::{clamp_u64, round_half_even, round_half_even_exec};

verus! {

/// The number of doublings of `q` that stay at most `p`: the `k` with
/// `q * 2^k <= p < q * 2^(k+1)` when `0 < q <= p`.
pub open spec fn up_steps(p: nat, q: nat) -> nat
    decreases p - q,
{
    if q > 0 && p >= 2 * q {
        1 + up_steps(p, 2 * q)
    } else {
        0
    }
}

/// The number of doublings of `p` that reach `q`: the `k >= 1` with
/// `p * 2^(k-1) < q <= p * 2^k` when `0 < p < q`.
pub open spec fn down_steps(p: nat, q: nat) -> nat
    decreases q - p,
{
    if p > 0 && 2 * p < q {
        1 + down_steps(2 * p, q)
    } else {
        1
    }
}

/// `floor(log2(p / q))` for positive `p` and `q`.
pub open spec fn log2_floor(p: nat, q: nat) -> int {
    if p >= q {
        up_steps(p, q) as int
    } else {
        -(down_steps(p, q) as int)
    }
}

/// The double nearest to `p / q` (positive), ties to even, as significand
/// and exponent.
pub open spec fn round53(p: nat, q: nat) -> (nat, int) {
    let l = log2_floor(p, q);
    if l <= 52 {
        (round_half_even(p * pow2((52 - l) as nat), q), l - 52)
    } else {
        (round_half_even(p, q * pow2((l - 52) as nat)), l - 52)
    }
}

/// `n as f64`.
pub open spec fn double_of(n: nat) -> (nat, int) {
    if n == 0 {
        (0, 0)
    } else {
        round53(n, 1)
    }
}

/// `a / b` in doubles, for `b` nonzero.
pub open spec fn double_div(a: (nat, int), b: (nat, int)) -> (nat, int) {
    if a.0 == 0 || b.0 == 0 {
        (0, 0)
    } else {
        let r = round53(a.0, b.0);
        (r.0, r.1 + a.1 - b.1)
    }
}

/// `a * b` in doubles.
pub open spec fn double_mul(a: (nat, int), b: (nat, int)) -> (nat, int) {
    if a.0 == 0 || b.0 == 0 {
        (0, 0)
    } else {
        let r = round53(a.0 * b.0, 1);
        (r.0, r.1 + a.1 + b.1)
    }
}

/// `a.round()`: the nearest integer, halves away from zero.
pub open spec fn double_round(a: (nat, int)) -> nat {
    if a.1 >= 0 {
        a.0 * pow2(a.1 as nat)
    } else {
        (2 * a.0 + pow2((-a.1) as nat)) / (2 * pow2((-a.1) as nat))
    }
}

/// `((est as f64) * (remaining as f64 / total as f64)).round() as u64`: a
/// share of `remaining` in proportion `est / total`, computed in doubles,
/// rounded half away from zero, saturated to `u64`.
pub open spec fn f64_share(est: u64, remaining: u64, total: u64) -> u64 {
    clamp_u64(
        double_round(
            double_mul(
                double_of(est as nat),
                double_div(double_of(remaining as nat), double_of(total as nat)),
            ),
        ),
    )
}

proof fn lemma_up_steps(p: nat, q: nat)
    requires
        0 < q <= p,
    ensures
        q * pow2(up_steps(p, q)) <= p < q * pow2(up_steps(p, q) + 1),
    decreases p - q,
{
    let k = up_steps(p, q);
    lemma_pow2_unfold(k + 1);
    if p >= 2 * q {
        let j = up_steps(p, 2 * q);
        assert(k == j + 1);
        lemma_up_steps(p, 2 * q);
        assert((2 * q) * pow2(j) <= p < (2 * q) * pow2(j + 1));
        lemma_pow2_unfold(k);
        assert((2 * q) * pow2(j) == q * pow2(k)) by (nonlinear_arith)
            requires
                pow2(k) == 2 * pow2(j),
        ;
        assert((2 * q) * pow2(j + 1) == q * pow2(k + 1)) by (nonlinear_arith)
            requires
                pow2(k + 1) == 2 * pow2(k),
                k == j + 1,
        ;
    } else {
        assert(k == 0);
        lemma2_to64();
        assert(q * pow2(0) == q);
        assert(q * pow2(1) == 2 * q);
    }
}

proof fn lemma_down_steps(p: nat, q: nat)
    requires
        0 < p < q,
    ensures
        down_steps(p, q) >= 1,
        p * pow2(down_steps(p, q)) >= q,
        p * pow2((down_steps(p, q) - 1) as nat) < q,
    decreases q - p,
{
    let k = down_steps(p, q);
    if 2 * p < q {
        let j = down_steps(2 * p, q);
        assert(k == j + 1);
        lemma_down_steps(2 * p, q);
        assert(j >= 1);
        assert((2 * p) * pow2(j) >= q);
        assert((2 * p) * pow2((j - 1) as nat) < q);
        lemma_pow2_unfold(k);
        lemma_pow2_unfold(j);
        assert(p * pow2(k) == (2 * p) * pow2(j)) by (nonlinear_arith)
            requires
                pow2(k) == 2 * pow2(j),
        ;
        assert(p * pow2((k - 1) as nat) == (2 * p) * pow2((j - 1) as nat)) by (nonlinear_arith)
            requires
                pow2(j) == 2 * pow2((j - 1) as nat),
                (k - 1) as nat == j,
        ;
    } else {
        assert(k == 1);
        lemma2_to64();
        assert(p * pow2(1) == 2 * p);
        assert(p * pow2(0) == p);
    }
}

proof fn lemma_round_half_even_between(x: nat, q: nat, a: nat, b: nat)
    requires
        q > 0,
        q * a <= x < q * b,
    ensures
        a <= round_half_even(x, q) <= b,
{
    let n = x / q;
    vstd::arithmetic::div_mod::lemma_fundamental_div_mod(x as int, q as int);
    assert(a <= n) by (nonlinear_arith)
        requires
            q * a <= x,
            x == q * n + x % q,
            x % q < q,
            q > 0,
    ;
    assert(n < b) by (nonlinear_arith)
        requires
            x < q * b,
            x == q * n + x % q,
            x % q >= 0,
            q > 0,
    ;
}

/// `round_half_even(x, q) * q` is within `q / 2` of `x`.
pub(crate) proof fn lemma_round_half_even_near(x: nat, q: nat)
    requires
        q > 0,
    ensures
        2 * round_half_even(x, q) * q <= 2 * x + q,
        2 * x <= 2 * round_half_even(x, q) * q + q,
{
    let n = x / q;
    let r = x % q;
    vstd::arithmetic::div_mod::lemma_fundamental_div_mod(x as int, q as int);
    let v = round_half_even(x, q);
    if v == n + 1 {
        assert(2 * r >= q);
        assert(2 * v * q <= 2 * x + q && 2 * x <= 2 * v * q + q) by (nonlinear_arith)
            requires
                x == q * n + r,
                v == n + 1,
                2 * r >= q,
                r < q,
        ;
    } else {
        assert(2 * r <= q);
        assert(2 * v * q <= 2 * x + q && 2 * x <= 2 * v * q + q) by (nonlinear_arith)
            requires
                x == q * n + r,
                v == n,
                2 * r <= q,
                r >= 0,
        ;
    }
}

/// In the binade of `2^53` the doubles are the even integers, so the one
/// nearest to `p / q` is within 1 of it.
pub(crate) proof fn lemma_round53_binade53(p: nat, q: nat)
    requires
        q > 0,
        q * pow2(53) <= p < q * pow2(54),
    ensures
        q * double_floor(round53(p, q)) <= p + q,
        p <= q * double_floor(round53(p, q)) + q,
{
    lemma_pow2_pos(53);
    assert(p > 0) by (nonlinear_arith)
        requires
            q * pow2(53) <= p,
            q > 0,
            pow2(53) > 0,
    ;
    lemma_log2_floor_unique(p, q, 53);
    lemma2_to64();
    let m = round_half_even(p, q * 2);
    assert(round53(p, q) == (m, 1int));
    assert(double_floor(round53(p, q)) == m * 2);
    lemma_round_half_even_near(p, q * 2);
    assert(q * (m * 2) <= p + q && p <= q * (m * 2) + q) by (nonlinear_arith)
        requires
            2 * m * (q * 2) <= 2 * p + q * 2,
            2 * p <= 2 * m * (q * 2) + q * 2,
    ;
}

pub(crate) proof fn lemma_pow2_le(a: nat, b: nat)
    requires
        a <= b,
    ensures
        pow2(a) <= pow2(b),
{
    if a < b {
        lemma_pow2_strictly_increases(a, b);
    }
}

/// `p / q` lies in `[2^l, 2^(l+1))`.
pub open spec fn in_binade(p: nat, q: nat, l: int) -> bool {
    if l >= 0 {
        q * pow2(l as nat) <= p < q * pow2((l + 1) as nat)
    } else {
        q <= p * pow2((-l) as nat) && p * pow2((-l - 1) as nat) < q
    }
}

pub(crate) proof fn lemma_log2_floor_in_binade(p: nat, q: nat)
    requires
        p > 0,
        q > 0,
    ensures
        in_binade(p, q, log2_floor(p, q)),
{
    if p >= q {
        lemma_up_steps(p, q);
    } else {
        lemma_down_steps(p, q);
        let k = down_steps(p, q);
        assert((-log2_floor(p, q)) as nat == k);
        assert((-log2_floor(p, q) - 1) as nat == (k - 1) as nat);
    }
}

/// `log2_floor` is the binade that `p / q` lies in.
proof fn lemma_log2_floor_unique(p: nat, q: nat, l: int)
    requires
        p > 0,
        q > 0,
        in_binade(p, q, l),
    ensures
        log2_floor(p, q) == l,
{
    let a = log2_floor(p, q);
    lemma_log2_floor_in_binade(p, q);
    if a != l {
        if a >= 0 && l >= 0 {
            if a < l {
                lemma_pow2_le((a + 1) as nat, l as nat);
                assert(q * pow2((a + 1) as nat) <= q * pow2(l as nat)) by (nonlinear_arith)
                    requires
                        pow2((a + 1) as nat) <= pow2(l as nat),
                ;
            } else {
                lemma_pow2_le((l + 1) as nat, a as nat);
                assert(q * pow2((l + 1) as nat) <= q * pow2(a as nat)) by (nonlinear_arith)
                    requires
                        pow2((l + 1) as nat) <= pow2(a as nat),
                ;
            }
        } else if a < 0 && l < 0 {
            let ka = (-a) as nat;
            let kl = (-l) as nat;
            if ka < kl {
                lemma_pow2_le(ka, (kl - 1) as nat);
                assert(p * pow2(ka) <= p * pow2((kl - 1) as nat)) by (nonlinear_arith)
                    requires
                        pow2(ka) <= pow2((kl - 1) as nat),
                ;
            } else {
                lemma_pow2_le(kl, (ka - 1) as nat);
                assert(p * pow2(kl) <= p * pow2((ka - 1) as nat)) by (nonlinear_arith)
                    requires
                        pow2(kl) <= pow2((ka - 1) as nat),
                ;
            }
        } else {
            // One bracket says p >= q, the other p < q.
            let (nonneg, neg) = if a >= 0 {
                (a, l)
            } else {
                (l, a)
            };
            lemma_pow2_pos(nonneg as nat);
            lemma_pow2_le(0, nonneg as nat);
            lemma2_to64();
            assert(q * pow2(nonneg as nat) >= q) by (nonlinear_arith)
                requires
                    pow2(nonneg as nat) >= 1,
            ;
            lemma_pow2_le(0, (-neg - 1) as nat);
            assert(p * pow2((-neg - 1) as nat) >= p) by (nonlinear_arith)
                requires
                    pow2((-neg - 1) as nat) >= 1,
            ;
        }
    }
}

/// The significand that [`round53`] gives lies between `2^52` and `2^53`.
proof fn lemma_round53(p: nat, q: nat)
    requires
        p > 0,
        q > 0,
    ensures
        pow2(52) <= round53(p, q).0 <= pow2(53),
        round53(p, q).1 == log2_floor(p, q) - 52,
        log2_floor(p, q) >= 0 ==> q * pow2(log2_floor(p, q) as nat) <= p,
        log2_floor(p, q) <= 52 ==> p * pow2((52 - log2_floor(p, q)) as nat) < q * pow2(53),
        log2_floor(p, q) > 52 ==> q * pow2((log2_floor(p, q) - 52) as nat) * pow2(52) <= p,
{
    let l = log2_floor(p, q);
    if p >= q {
        lemma_up_steps(p, q);
        let k = up_steps(p, q);
        if l <= 52 {
            let s = (52 - l) as nat;
            lemma_pow2_pos(s);
            lemma_pow2_adds(k, s);
            lemma_pow2_adds(k + 1, s);
            assert(k + s == 52);
            assert(q * pow2(52) <= p * pow2(s) < q * pow2(53)) by (nonlinear_arith)
                requires
                    q * pow2(k) <= p < q * pow2(k + 1),
                    pow2(52) == pow2(k) * pow2(s),
                    pow2(53) == pow2(k + 1) * pow2(s),
                    pow2(s) > 0,
            ;
            lemma_round_half_even_between(p * pow2(s), q, pow2(52), pow2(53));
        } else {
            let s = (l - 52) as nat;
            lemma_pow2_adds(s, 52);
            lemma_pow2_adds(s, 53);
            assert(s + 52 == k);
            assert((q * pow2(s)) * pow2(52) <= p < (q * pow2(s)) * pow2(53)) by (nonlinear_arith)
                requires
                    q * pow2(k) <= p < q * pow2(k + 1),
                    pow2(k) == pow2(s) * pow2(52),
                    pow2(k + 1) == pow2(s) * pow2(53),
            ;
            lemma_pow2_pos(s);
            assert(q * pow2(s) > 0) by (nonlinear_arith)
                requires
                    q > 0,
                    pow2(s) > 0,
            ;
            lemma_round_half_even_between(p, q * pow2(s), pow2(52), pow2(53));
        }
    } else {
        lemma_down_steps(p, q);
        let k = down_steps(p, q);
        let s = (52 - l) as nat;
        assert(s == 52 + k);
        lemma_pow2_pos(52);
        lemma_pow2_pos(53);
        lemma_pow2_adds(k, 52);
        lemma_pow2_adds((k - 1) as nat, 53);
        assert((k - 1) as nat + 53 == s);
        assert(q * pow2(52) <= p * pow2(s) < q * pow2(53)) by (nonlinear_arith)
            requires
                p * pow2(k) >= q,
                p * pow2((k - 1) as nat) < q,
                pow2(s) == pow2(k) * pow2(52),
                pow2(s) == pow2((k - 1) as nat) * pow2(53),
                pow2(52) > 0,
                pow2(53) > 0,
        ;
        lemma_pow2_pos(52);
        lemma_pow2_pos(53);
        lemma_round_half_even_between(p * pow2(s), q, pow2(52), pow2(53));
    }
}

/// A double's value rounded down to an integer.
pub open spec fn double_floor(a: (nat, int)) -> nat {
    if a.1 >= 0 {
        a.0 * pow2(a.1 as nat)
    } else {
        a.0 / pow2((-a.1) as nat)
    }
}

/// With `p / q = y + r / q` and `0 <= r < q`: the fraction `r / q` brings
/// the double nearest to `p / q` up to `y + 1`. Below `2^53` the doubles
/// near `y + 1` are spaced `2^(e-52)` apart, `e` being the binade of `y`
/// (the binade just below 1 when `y` is 0); the fraction must reach the
/// midpoint below `y + 1`, which rounds up (ties to even) except for
/// `y` in the binade of `2^52`, where ties go to the even one of `y` and
/// `y + 1`.
pub open spec fn rounds_up(r: nat, q: nat, y: nat) -> bool {
    if y == 0 {
        r * pow2(54) >= q * (pow2(54) - 1)
    } else {
        let e = log2_floor(y, 1);
        if e < 52 {
            r * pow2((53 - e) as nat) >= q * (pow2((53 - e) as nat) - 1)
        } else {
            2 * r > q || (2 * r == q && y % 2 == 1)
        }
    }
}

/// Past `2^64` the double is past `2^64` too.
pub(crate) proof fn lemma_round53_large(p: nat, q: nat)
    requires
        q > 0,
        p >= q * pow2(64),
    ensures
        double_floor(round53(p, q)) >= pow2(64),
{
    lemma_pow2_pos(64);
    assert(p > 0) by (nonlinear_arith)
        requires
            p >= q * pow2(64),
            q > 0,
            pow2(64) > 0,
    ;
    lemma_round53(p, q);
    lemma_log2_floor_in_binade(p, q);
    let l = log2_floor(p, q);
    if l < 64 {
        if l >= 0 {
            lemma_pow2_le((l + 1) as nat, 64);
            assert(q * pow2((l + 1) as nat) <= q * pow2(64)) by (nonlinear_arith)
                requires
                    pow2((l + 1) as nat) <= pow2(64),
            ;
        } else {
            lemma_pow2_le(0, 64);
            lemma2_to64();
            assert(q <= q * pow2(64)) by (nonlinear_arith)
                requires
                    pow2(64) >= 1,
            ;
            lemma_pow2_le(0, (-l - 1) as nat);
            assert(p <= p * pow2((-l - 1) as nat)) by (nonlinear_arith)
                requires
                    pow2((-l - 1) as nat) >= 1,
            ;
        }
    }
    let e = (l - 52) as nat;
    lemma_pow2_adds(52, e);
    lemma_pow2_le(64, 52 + e);
    let m = round53(p, q).0;
    assert(m * pow2(e) >= pow2(52) * pow2(e)) by (nonlinear_arith)
        requires
            m >= pow2(52),
    ;
}

/// Below one half the double is below 1.
pub(crate) proof fn lemma_round53_small(p: nat, q: nat)
    requires
        p > 0,
        2 * p < q,
    ensures
        double_floor(round53(p, q)) == 0,
{
    lemma_round53(p, q);
    lemma_log2_floor_in_binade(p, q);
    let l = log2_floor(p, q);
    lemma2_to64();
    if l >= 0 {
        lemma_pow2_le(0, l as nat);
        assert(q * pow2(l as nat) >= q) by (nonlinear_arith)
            requires
                pow2(l as nat) >= 1,
        ;
    }
    if l == -1 {
        assert(p * pow2(1) == 2 * p);
    }
    assert(l <= -2);
    let k = (52 - l) as nat;
    lemma_pow2_le(54, k);
    lemma2_to64_rest();
    let m = round53(p, q).0;
    vstd::arithmetic::div_mod::lemma_basic_div(m as int, pow2(k) as int);
}

/// `r * 2^s / q`, for `r < q`, rounds (ties to even) up to `2^s` exactly
/// when it is at least `2^s - 1/2`.
proof fn lemma_rhe_top(r: nat, q: nat, s: nat)
    requires
        q > 0,
        r < q,
        s >= 1,
    ensures
        round_half_even(r * pow2(s), q) <= pow2(s),
        round_half_even(r * pow2(s), q) == pow2(s) <==> 2 * r * pow2(s) >= q * (2 * pow2(s) - 1),
{
    let t = pow2(s);
    lemma_pow2_unfold(s);
    let h = pow2((s - 1) as nat);
    lemma_pow2_pos((s - 1) as nat);
    assert(t == 2 * h);
    let x = r * t;
    let n = x / q;
    let rem = x % q;
    vstd::arithmetic::div_mod::lemma_fundamental_div_mod(x as int, q as int);
    assert(x == q * n + rem);
    assert(x < q * t) by (nonlinear_arith)
        requires
            x == r * t,
            r < q,
            t > 0,
    ;
    assert(n < t) by (nonlinear_arith)
        requires
            x == q * n + rem,
            x < q * t,
            rem >= 0,
            q > 0,
    ;
    assert((t - 1) % 2 == 1) by {
        assert(t - 1 == 2 * (h - 1) + 1);
    }
    if 2 * x >= q * (2 * t - 1) {
        assert(n >= t - 1) by (nonlinear_arith)
            requires
                2 * x >= q * (2 * t - 1),
                x == q * n + rem,
                rem < q,
                q > 0,
        ;
        assert(n == t - 1);
        assert(2 * rem >= q) by (nonlinear_arith)
            requires
                2 * x >= q * (2 * t - 1),
                x == q * n + rem,
                n == t - 1,
        ;
        assert(round_half_even(x, q) == t);
    }
    assert(2 * r * pow2(s) == 2 * x) by (nonlinear_arith)
        requires
            x == r * t,
            t == pow2(s),
    ;
    if round_half_even(x, q) == t {
        assert(n == t - 1);
        assert(2 * rem >= q);
        assert(2 * x >= q * (2 * t - 1)) by (nonlinear_arith)
            requires
                x == q * n + rem,
                n == t - 1,
                2 * rem >= q,
        ;
    }
}

/// Past `2^53` the fraction below `y` only decides ties and nothing else:
/// `p / q` in `[y, y + 1)` rounds as `y` plus a half when it is above `y`,
/// or as `y` itself.
pub(crate) proof fn lemma_round53_coarse(p: nat, q: nat, y: nat)
    requires
        q > 0,
        q * y <= p < q * (y + 1),
        y >= pow2(53),
    ensures
        round53(p, q) == round53((2 * y + (if p > q * y { 1nat } else { 0nat })) as nat, 2),
{
    let sigma: nat = if p > q * y { 1 } else { 0 };
    let y2 = 2 * y + sigma;
    lemma_pow2_pos(53);
    lemma_log2_floor_in_binade(y, 1);
    let e = log2_floor(y, 1);
    assert(e >= 0) by {
        if e < 0 {
            lemma2_to64();
            lemma_pow2_le(0, (-e - 1) as nat);
            assert(y * pow2((-e - 1) as nat) >= y) by (nonlinear_arith)
                requires
                    pow2((-e - 1) as nat) >= 1,
            ;
        }
    }
    let en = e as nat;
    assert(pow2(en) <= y < pow2(en + 1));
    assert(e >= 53) by {
        if e < 53 {
            lemma_pow2_le(en + 1, 53);
        }
    }
    // Both p / q and y2 / 2 lie in the binade of y.
    assert(q * pow2(en) <= p < q * pow2(en + 1)) by (nonlinear_arith)
        requires
            pow2(en) <= y,
            y + 1 <= pow2(en + 1),
            q * y <= p < q * (y + 1),
            q > 0,
    ;
    lemma_pow2_pos(en);
    assert(p > 0) by (nonlinear_arith)
        requires
            q * pow2(en) <= p,
            q > 0,
            pow2(en) > 0,
    ;
    lemma_log2_floor_unique(p, q, e);
    assert(2 * pow2(en) <= y2 < 2 * pow2(en + 1));
    lemma_log2_floor_unique(y2, 2, e);
    let sh = (e - 52) as nat;
    let t = pow2(sh);
    lemma_pow2_unfold(sh);
    let h = pow2((sh - 1) as nat);
    lemma_pow2_pos((sh - 1) as nat);
    assert(t == 2 * h);
    // y = n0 * t + r
    let n0 = y / t;
    let r = y % t;
    vstd::arithmetic::div_mod::lemma_fundamental_div_mod(y as int, t as int);
    let r0 = (p - q * y) as nat;
    assert(r0 < q) by (nonlinear_arith)
        requires
            p < q * (y + 1),
            r0 == p - q * y,
    ;
    let big = (q * r + r0) as nat;
    assert(p == n0 * (q * t) + big) by (nonlinear_arith)
        requires
            y == t * n0 + r,
            r0 == p - q * y,
            big == q * r + r0,
    ;
    assert(big < q * t) by (nonlinear_arith)
        requires
            r < t,
            r0 < q,
            big == q * r + r0,
            q > 0,
    ;
    assert(q * t > 0) by (nonlinear_arith)
        requires
            q > 0,
            t > 0,
    ;
    vstd::arithmetic::div_mod::lemma_fundamental_div_mod_converse(
        p as int,
        (q * t) as int,
        n0 as int,
        big as int,
    );
    let small = (2 * r + sigma) as nat;
    assert(y2 == n0 * (2 * t) + small) by (nonlinear_arith)
        requires
            y == t * n0 + r,
            y2 == 2 * y + sigma,
            small == 2 * r + sigma,
    ;
    assert(small < 2 * t);
    vstd::arithmetic::div_mod::lemma_fundamental_div_mod_converse(
        y2 as int,
        (2 * t) as int,
        n0 as int,
        small as int,
    );
    assert(2 * t == 2 * pow2(sh));
    // The comparisons with the midpoint agree.
    assert(2 * big > q * t <==> 2 * small > 2 * t) by (nonlinear_arith)
        requires
            big == q * r + r0,
            small == 2 * r + sigma,
            t == 2 * h,
            sigma == 1 <==> r0 > 0,
            sigma <= 1,
            r0 < q,
            q > 0,
    ;
    assert(2 * big == q * t <==> 2 * small == 2 * t) by (nonlinear_arith)
        requires
            big == q * r + r0,
            small == 2 * r + sigma,
            t == 2 * h,
            sigma == 1 <==> r0 > 0,
            sigma <= 1,
            r0 < q,
            q > 0,
    ;
}

/// Below `2^53`, `p / q = y + r0 / q` gives a double whose integer part is
/// `y`, or `y + 1` when [`rounds_up`].
pub(crate) proof fn lemma_round53_fine(p: nat, q: nat, y: nat)
    requires
        q > 0,
        p > 0,
        q * y <= p < q * (y + 1),
        y < pow2(53),
    ensures
        double_floor(round53(p, q)) == y + (if rounds_up((p - q * y) as nat, q, y) { 1nat } else { 0nat }),
{
    let r0 = (p - q * y) as nat;
    assert(r0 < q) by (nonlinear_arith)
        requires
            p < q * (y + 1),
            r0 == p - q * y,
    ;
    lemma_round53(p, q);
    lemma_pow2_values();
    lemma2_to64();
    if y == 0 {
        assert(p == r0);
        lemma_log2_floor_in_binade(p, q);
        let l = log2_floor(p, q);
        assert(l < 0) by {
            if l >= 0 {
                lemma_pow2_le(0, l as nat);
                assert(q * pow2(l as nat) >= q) by (nonlinear_arith)
                    requires
                        pow2(l as nat) >= 1,
                ;
            }
        }
        let s = (52 - l) as nat;
        let m = round53(p, q).0;
        if l <= -2 {
            lemma_pow2_le(1, (-l - 1) as nat);
            assert(2 * p < q) by (nonlinear_arith)
                requires
                    p * pow2((-l - 1) as nat) < q,
                    pow2((-l - 1) as nat) >= 2,
            ;
            lemma_round53_small(p, q);
            lemma2_to64_rest();
            assert(p * pow2(54) < q * (pow2(54) - 1)) by (nonlinear_arith)
                requires
                    2 * p < q,
                    pow2(54) == 2 * pow2(53),
                    pow2(53) >= 1,
            ;
        } else {
            assert(l == -1);
            assert(s == 53);
            lemma_rhe_top(p, q, 53);
            lemma2_to64_rest();
            assert(pow2(54) == 2 * pow2(53));
            vstd::arithmetic::div_mod::lemma_fundamental_div_mod(m as int, pow2(53) as int);
            if m == pow2(53) {
                vstd::arithmetic::div_mod::lemma_div_by_self(pow2(53) as int);
            } else {
                vstd::arithmetic::div_mod::lemma_basic_div(m as int, pow2(53) as int);
            }
        }
    } else {
        lemma_log2_floor_in_binade(y, 1);
        let e = log2_floor(y, 1);
        assert(e >= 0) by {
            if e < 0 {
                lemma_pow2_le(0, (-e - 1) as nat);
                assert(y * pow2((-e - 1) as nat) >= y) by (nonlinear_arith)
                    requires
                        pow2((-e - 1) as nat) >= 1,
                ;
            }
        }
        let en = e as nat;
        assert(e <= 52) by {
            if e > 52 {
                lemma_pow2_le(53, en);
            }
        }
        assert(q * pow2(en) <= p < q * pow2(en + 1)) by (nonlinear_arith)
            requires
                pow2(en) <= y,
                y + 1 <= pow2(en + 1),
                q * y <= p < q * (y + 1),
                q > 0,
        ;
        lemma_log2_floor_unique(p, q, e);
        let s = (52 - e) as nat;
        let t = pow2(s);
        lemma_pow2_pos(s);
        let x = p * t;
        let a = y * t;
        let xr = r0 * t;
        assert(x == q * a + xr) by (nonlinear_arith)
            requires
                x == p * t,
                a == y * t,
                xr == r0 * t,
                r0 == p - q * y,
        ;
        let n1 = xr / q;
        let rem = xr % q;
        vstd::arithmetic::div_mod::lemma_fundamental_div_mod(xr as int, q as int);
        assert(x == q * (a + n1) + rem) by (nonlinear_arith)
            requires
                x == q * a + xr,
                xr == q * n1 + rem,
        ;
        vstd::arithmetic::div_mod::lemma_fundamental_div_mod_converse(
            x as int,
            q as int,
            (a + n1) as int,
            rem as int,
        );
        let m = round53(p, q).0;
        if s == 0 {
            assert(t == 1);
            assert(a == y) by (nonlinear_arith)
                requires
                    a == y * t,
                    t == 1,
            ;
            assert(xr == r0) by (nonlinear_arith)
                requires
                    xr == r0 * t,
                    t == 1,
            ;
            assert(round53(p, q).1 == 0);
            assert(m * pow2(0) == m);
            assert(n1 == 0) by {
                vstd::arithmetic::div_mod::lemma_basic_div(r0 as int, q as int);
            }
        } else {
            lemma_rhe_top(r0, q, s);
            lemma_pow2_unfold(s);
            // a is even, so the tie parity of a + n1 is that of n1.
            assert(a == 2 * (y * pow2((s - 1) as nat))) by (nonlinear_arith)
                requires
                    a == y * t,
                    t == 2 * pow2((s - 1) as nat),
            ;
            assert(m == a + round_half_even(xr, q));
            assert(53 - e == s + 1);
            assert(pow2(s + 1) == 2 * t) by {
                lemma_pow2_unfold(s + 1);
            }
            assert(r0 * pow2(s + 1) >= q * (pow2(s + 1) - 1) <==> 2 * r0 * t >= q * (2 * t - 1)) by (nonlinear_arith)
                requires
                    pow2(s + 1) == 2 * t,
            ;
            assert(round53(p, q).1 == -(s as int));
            let c = round_half_even(xr, q);
            lemma_div_add_multiple_local(y, t, c);
            if c == t {
                vstd::arithmetic::div_mod::lemma_div_by_self(t as int);
            } else {
                vstd::arithmetic::div_mod::lemma_basic_div(c as int, t as int);
            }
        }
    }
}

/// `(y * t + c) / t == y + c / t`.
proof fn lemma_div_add_multiple_local(y: nat, t: nat, c: nat)
    requires
        t > 0,
    ensures
        (y * t + c) / t == y + c / t,
{
    vstd::arithmetic::div_mod::lemma_fundamental_div_mod(c as int, t as int);
    assert(y * t + c == t * (y + c / t) + c % t) by (nonlinear_arith)
        requires
            c == t * (c / t) + c % t,
    ;
    vstd::arithmetic::div_mod::lemma_fundamental_div_mod_converse(
        (y * t + c) as int,
        t as int,
        (y + c / t) as int,
        (c % t) as int,
    );
}

pub(crate) proof fn lemma_pow2_values()
    ensures
        pow2(52) == 0x10_0000_0000_0000,
        pow2(53) == 0x20_0000_0000_0000,
        pow2(64) == 0x1_0000_0000_0000_0000,
        pow2(112) == 0x1_0000_0000_0000_0000_0000_0000_0000,
        pow2(128) == 0x1_0000_0000_0000_0000_0000_0000_0000_0000 as nat,
{
    lemma2_to64();
    lemma2_to64_rest();
    lemma_pow2_adds(56, 56);
    lemma_pow2_adds(64, 64);
}

/// `a < b` when `2^a < 2^b`.
proof fn lemma_pow2_order(a: nat, b: nat)
    requires
        pow2(a) < pow2(b),
    ensures
        a < b,
{
    if a > b {
        lemma_pow2_strictly_increases(b, a);
    }
}

/// `2^k`.
pub(crate) fn pow2_exec(k: u32) -> (r: u128)
    requires
        k < 128,
    ensures
        r == pow2(k as nat),
{
    let mut r: u128 = 1;
    let mut i: u32 = 0;
    proof {
        lemma2_to64();
    }
    while i < k
        invariant
            i <= k < 128,
            r == pow2(i as nat),
        decreases k - i,
    {
        proof {
            lemma_pow2_unfold((i + 1) as nat);
            lemma_pow2_values();
            if i + 1 < 128 {
                lemma_pow2_strictly_increases((i + 1) as nat, 128);
            }
        }
        r = r * 2;
        i += 1;
    }
    r
}

/// `floor(log2(p / q))` (see [`log2_floor`]).
pub(crate) fn log2_floor_exec(p: u128, q: u128) -> (r: i32)
    requires
        0 < p < 0x1_0000_0000_0000_0000_0000_0000_0000,
        0 < q < 0x1_0000_0000_0000_0000,
    ensures
        r as int == log2_floor(p as nat, q as nat),
        -64 <= r < 112,
{
    proof {
        lemma_pow2_values();
    }
    if p >= q {
        let mut k: i32 = 0;
        let mut d: u128 = q;
        proof {
            lemma2_to64();
            assert(q * pow2(0) == q);
        }
        while d <= p / 2
            invariant
                0 < q <= d <= p < 0x1_0000_0000_0000_0000_0000_0000_0000,
                0 <= k < 112,
                d == q * pow2(k as nat),
                up_steps(p as nat, q as nat) == k + up_steps(p as nat, d as nat),
                pow2(112) == 0x1_0000_0000_0000_0000_0000_0000_0000,
            decreases p - d,
        {
            proof {
                lemma_pow2_unfold((k + 1) as nat);
                assert(2 * d == q * pow2((k + 1) as nat)) by (nonlinear_arith)
                    requires
                        d == q * pow2(k as nat),
                        pow2((k + 1) as nat) == 2 * pow2(k as nat),
                ;
                assert(pow2((k + 1) as nat) <= 2 * d) by (nonlinear_arith)
                    requires
                        2 * d == q * pow2((k + 1) as nat),
                        q >= 1,
                ;
                lemma_pow2_order((k + 1) as nat, 112);
            }
            d = d * 2;
            k += 1;
        }
        k
    } else {
        let mut k: i32 = 1;
        let mut d: u128 = p;
        proof {
            lemma2_to64();
            assert(p * pow2(0) == p);
        }
        while d * 2 < q
            invariant
                0 < p <= d < q < 0x1_0000_0000_0000_0000,
                1 <= k <= 64,
                d == p * pow2((k - 1) as nat),
                down_steps(p as nat, q as nat) == (k - 1) + down_steps(d as nat, q as nat),
                pow2(64) == 0x1_0000_0000_0000_0000,
            decreases q - d,
        {
            proof {
                lemma_pow2_unfold(k as nat);
                assert(2 * d == p * pow2(k as nat)) by (nonlinear_arith)
                    requires
                        d == p * pow2((k - 1) as nat),
                        pow2(k as nat) == 2 * pow2((k - 1) as nat),
                ;
                assert(pow2(k as nat) <= 2 * d) by (nonlinear_arith)
                    requires
                        2 * d == p * pow2(k as nat),
                        p >= 1,
                ;
                lemma_pow2_order(k as nat, 64);
            }
            d = d * 2;
            k += 1;
        }
        -k
    }
}

/// The double nearest to `p / q` (see [`round53`]).
pub(crate) fn round53_exec(p: u128, q: u128) -> (r: (u128, i32))
    requires
        0 < p < 0x1_0000_0000_0000_0000_0000_0000_0000,
        0 < q < 0x1_0000_0000_0000_0000,
    ensures
        (r.0 as nat, r.1 as int) == round53(p as nat, q as nat),
        0x10_0000_0000_0000 <= r.0 <= 0x20_0000_0000_0000,
        -116 <= r.1 < 60,
{
    let l = log2_floor_exec(p, q);
    proof {
        lemma_round53(p as nat, q as nat);
        lemma_pow2_values();
    }
    if l <= 52 {
        let s = (52 - l) as u32;
        let f = pow2_exec(s);
        assert(p * f < 0x1_0000_0000_0000_0000 * 0x20_0000_0000_0000) by (nonlinear_arith)
            requires
                p * f < q * 0x20_0000_0000_0000,
                q < 0x1_0000_0000_0000_0000,
        ;
        let x = p * f;
        (round_half_even_exec(x, q), l - 52)
    } else {
        let s = (l - 52) as u32;
        let f = pow2_exec(s);
        proof {
            lemma_pow2_pos(s as nat);
        }
        assert(0 < q * f <= p) by (nonlinear_arith)
            requires
                q * f * 0x10_0000_0000_0000 <= p,
                q > 0,
                f > 0,
        ;
        let d = q * f;
        (round_half_even_exec(p, d), l - 52)
    }
}

/// `n as f64` (see [`double_of`]).
fn double_of_exec(n: u64) -> (r: (u128, i32))
    ensures
        (r.0 as nat, r.1 as int) == double_of(n as nat),
        r.0 <= 0x20_0000_0000_0000,
        r.0 == 0 <==> n == 0,
        r.0 > 0 ==> r.0 >= 0x10_0000_0000_0000,
        -52 <= r.1 <= 11,
{
    if n == 0 {
        (0, 0)
    } else {
        let r = round53_exec(n as u128, 1);
        proof {
            lemma_round53(n as nat, 1);
            lemma_pow2_values();
            let l = log2_floor(n as nat, 1);
            assert(l >= 0);
            assert(pow2(l as nat) <= n);
            if l >= 64 {
                if l > 64 {
                    lemma_pow2_strictly_increases(64, l as nat);
                }
            }
        }
        r
    }
}

/// `a * b` in doubles (see [`double_mul`]).
fn double_mul_exec(a: (u128, i32), b: (u128, i32)) -> (r: (u128, i32))
    requires
        a.0 <= 0x20_0000_0000_0000,
        b.0 <= 0x20_0000_0000_0000,
        -200 <= a.1 <= 200,
        -200 <= b.1 <= 200,
    ensures
        (r.0 as nat, r.1 as int) == double_mul((a.0 as nat, a.1 as int), (b.0 as nat, b.1 as int)),
        r.0 <= 0x20_0000_0000_0000,
        -516 <= r.1 <= 460,
{
    if a.0 == 0 || b.0 == 0 {
        (0, 0)
    } else {
        assert(a.0 * b.0 <= 0x20_0000_0000_0000 * 0x20_0000_0000_0000) by (nonlinear_arith)
            requires
                a.0 <= 0x20_0000_0000_0000,
                b.0 <= 0x20_0000_0000_0000,
        ;
        assert(a.0 * b.0 > 0) by (nonlinear_arith)
            requires
                a.0 > 0,
                b.0 > 0,
        ;
        let r = round53_exec(a.0 * b.0, 1);
        (r.0, r.1 + a.1 + b.1)
    }
}

/// `remaining as f64 / total as f64`: the factor by which the estimates
/// are scaled.
pub(crate) fn share_factor(remaining: u64, total: u64) -> (r: (u128, i32))
    requires
        total > 0,
    ensures
        (r.0 as nat, r.1 as int) == double_div(double_of(remaining as nat), double_of(total as nat)),
        r.0 <= 0x20_0000_0000_0000,
        -200 <= r.1 <= 200,
{
    let a = double_of_exec(remaining);
    let b = double_of_exec(total);
    if a.0 == 0 {
        (0, 0)
    } else {
        let r = round53_exec(a.0, b.0);
        (r.0, r.1 + a.1 - b.1)
    }
}

/// `a.round() as u64` (see [`double_round`]), saturated to `u64`.
fn double_round_exec(m: u128, e: i32) -> (r: u64)
    requires
        m <= 0x20_0000_0000_0000,
        -600 <= e <= 600,
    ensures
        r == clamp_u64(double_round((m as nat, e as int))),
{
    proof {
        lemma_pow2_values();
    }
    if e >= 0 {
        if m == 0 {
            assert(0 * pow2(e as nat) == 0);
            return 0;
        }
        if e >= 64 {
            proof {
                if e > 64 {
                    lemma_pow2_strictly_increases(64, e as nat);
                }
                assert(m * pow2(e as nat) >= pow2(e as nat)) by (nonlinear_arith)
                    requires
                        m >= 1,
                        pow2(e as nat) > 0,
                ;
            }
            return u64::MAX;
        }
        let f = pow2_exec(e as u32);
        proof {
            if e < 64 {
                lemma_pow2_strictly_increases(e as nat, 64);
            }
        }
        assert(m * f <= 0x20_0000_0000_0000 * 0x1_0000_0000_0000_0000) by (nonlinear_arith)
            requires
                m <= 0x20_0000_0000_0000,
                f <= 0x1_0000_0000_0000_0000,
        ;
        let v = m * f;
        if v > 0xffff_ffff_ffff_ffff {
            u64::MAX
        } else {
            v as u64
        }
    } else {
        let k = (-e) as u32;
        if k >= 100 {
            proof {
                lemma_pow2_strictly_increases(55, k as nat);
                lemma2_to64_rest();
                lemma_pow2_pos(k as nat);
                vstd::arithmetic::div_mod::lemma_basic_div(
                    (2 * m + pow2(k as nat)) as int,
                    (2 * pow2(k as nat)) as int,
                );
            }
            return 0;
        }
        let t = pow2_exec(k);
        proof {
            lemma_pow2_strictly_increases(k as nat, 100);
            lemma2_to64();
            lemma_pow2_adds(50, 50);
            lemma2_to64_rest();
            lemma_pow2_pos(k as nat);
        }
        let num = 2 * m + t;
        let den = 2 * t;
        let v = num / den;
        proof {
            vstd::arithmetic::div_mod::lemma_fundamental_div_mod(num as int, den as int);
            assert(v <= m) by (nonlinear_arith)
                requires
                    num == den * v + num % den,
                    num % den >= 0,
                    num == 2 * m + t,
                    den == 2 * t,
                    t >= 1,
                    v >= 0,
            ;
        }
        v as u64
    }
}

/// `((est as f64) * factor).round() as u64`, for a factor given by
/// [`share_factor`].
pub(crate) fn scale_share(est: u64, factor: (u128, i32)) -> (r: u64)
    requires
        factor.0 <= 0x20_0000_0000_0000,
        -200 <= factor.1 <= 200,
    ensures
        r == clamp_u64(double_round(double_mul(double_of(est as nat), (factor.0 as nat, factor.1 as int)))),
{
    let a = double_of_exec(est);
    let p = double_mul_exec(a, factor);
    double_round_exec(p.0, p.1)
}

/// A double's value rounded down and saturated to `u64` (see
/// [`double_floor`]).
pub(crate) fn double_floor_exec(m: u128, e: i32) -> (r: u64)
    requires
        m <= 0x20_0000_0000_0000,
        -600 <= e <= 600,
    ensures
        r == clamp_u64(double_floor((m as nat, e as int))),
{
    proof {
        lemma_pow2_values();
    }
    if e >= 0 {
        if m == 0 {
            assert(0 * pow2(e as nat) == 0);
            return 0;
        }
        if e >= 64 {
            proof {
                lemma_pow2_le(64, e as nat);
                assert(m * pow2(e as nat) >= pow2(e as nat)) by (nonlinear_arith)
                    requires
                        m >= 1,
                        pow2(e as nat) > 0,
                ;
            }
            return u64::MAX;
        }
        let f = pow2_exec(e as u32);
        proof {
            lemma_pow2_le(e as nat, 64);
        }
        assert(m * f <= 0x20_0000_0000_0000 * 0x1_0000_0000_0000_0000) by (nonlinear_arith)
            requires
                m <= 0x20_0000_0000_0000,
                f <= 0x1_0000_0000_0000_0000,
        ;
        let v = m * f;
        if v > 0xffff_ffff_ffff_ffff {
            u64::MAX
        } else {
            v as u64
        }
    } else {
        let k = (-e) as u32;
        if k >= 60 {
            proof {
                lemma_pow2_le(60, k as nat);
                lemma2_to64_rest();
                vstd::arithmetic::div_mod::lemma_basic_div(m as int, pow2(k as nat) as int);
            }
            return 0;
        }
        let t = pow2_exec(k);
        proof {
            lemma_pow2_pos(k as nat);
            vstd::arithmetic::div_mod::lemma_div_is_ordered_by_denominator(m as int, 1, t as int);
        }
        let v = m / t;
        v as u64
    }
}

/// `((a as f64) / (b as f64) * 100.0)`, rounded toward zero and saturated
/// to `u64` (see [`double_div`], [`double_mul`], [`double_floor`]).
pub(crate) fn percent_floor(a: u64, b: u64) -> (r: u64)
    requires
        b > 0,
    ensures
        r == clamp_u64(
            double_floor(
                double_mul(
                    double_div(double_of(a as nat), double_of(b as nat)),
                    double_of(100),
                ),
            ),
        ),
{
    let q = share_factor(a, b);
    let h = double_of_exec(100);
    let p = double_mul_exec(q, h);
    double_floor_exec(p.0, p.1)
}

} // verus!
