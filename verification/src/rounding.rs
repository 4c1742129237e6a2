//! Rounding of exact quantities to single precision.
//!
//! Every finite single-precision number is a whole number of *units*, the unit being the smallest
//! positive subnormal (two to the power of minus 149).  An exact result is therefore a fraction of
//! units, and rounding is a function from fractions to magnitude bits.
use vstd::arithmetic::div_mod::*;
use vstd::arithmetic::mul::*;
use vstd::arithmetic::power2::*;
use vstd::prelude::*;

verus! {

/// Magnitude bits of infinity: the first pattern above the finite numbers.
pub const INFINITY_BITS: u32 = 0x7f80_0000;

/// `num / den` rounded to the nearest whole number, ties to even.
pub open spec fn half_even(num: nat, den: nat) -> nat {
    let q = num / den;
    let r = num % den;
    if r > den - r || (r == den - r && q % 2 == 1) {
        q + 1
    } else {
        q
    }
}

/// The magnitude bits of the single-precision number nearest to `num / den` units, ties to even,
/// as if the exponent range had no upper end.
///
/// Below two to the power of 24 units the bits count units directly; above, each halving of the
/// quantity adds one to the exponent field.
pub open spec fn round_bits(num: nat, den: nat) -> nat
    decreases num / den,
{
    if den == 0 || num < den * 0x100_0000 {
        half_even(num, den)
    } else {
        proof {
            lemma_halving_descends(num, den);
        }
        0x80_0000 + round_bits(num, 2 * den)
    }
}

/// `round_bits` of `n` times two to the power of `s`.
pub open spec fn round_power(n: nat, s: int) -> nat {
    if s >= 0 {
        round_bits(n * pow2(s as nat), 1)
    } else {
        round_bits(n, pow2((-s) as nat))
    }
}

/// Halving a quantity of at least one whole lowers its integral part.
pub proof fn lemma_halving_descends(num: nat, den: nat)
    requires
        den > 0,
        num >= den * 0x100_0000,
    ensures
        num / (2 * den) < num / den,
{
    assert(2 * den == den * 2);
    lemma_div_denominator(num as int, den as int, 2);
    assert(num / den >= 0x100_0000) by (nonlinear_arith)
        requires
            num >= den * 0x100_0000,
            den > 0,
    ;
}

/// Both terms of a fraction can be scaled alike.
pub proof fn lemma_half_even_scale(num: nat, den: nat, k: nat)
    requires
        den > 0,
        k > 0,
    ensures
        half_even(k * num, k * den) == half_even(num, den),
{
    let q = num / den;
    let r = num % den;
    lemma_fundamental_div_mod(num as int, den as int);
    assert(k * num == q * (k * den) + k * r) by (nonlinear_arith)
        requires
            num == den * q + r,
    ;
    assert(0 <= k * r < k * den) by (nonlinear_arith)
        requires
            0 <= r < den,
            k > 0,
    ;
    lemma_fundamental_div_mod_converse(
        (k * num) as int,
        (k * den) as int,
        q as int,
        (k * r) as int,
    );
    assert(2 * (k * r) > k * den <==> 2 * r > den) by (nonlinear_arith)
        requires
            k > 0,
    ;
    assert(2 * (k * r) == k * den <==> 2 * r == den) by (nonlinear_arith)
        requires
            k > 0,
    ;
}

/// Whole quantities are kept.
pub proof fn lemma_half_even_whole(n: nat, den: nat)
    requires
        den > 0,
    ensures
        half_even(n * den, den) == n,
{
    lemma_fundamental_div_mod_converse((n * den) as int, den as int, n as int, 0);
}

/// Where the exponent of a quantity is known, its bits follow from one rounding.
pub proof fn lemma_round_at(num: nat, den: nat, e: nat)
    requires
        den > 0,
        num < den * pow2(24 + e),
        e == 0 || num >= den * pow2((23 + e) as nat),
    ensures
        round_bits(num, den) == e * 0x80_0000 + half_even(num, den * pow2(e)),
    decreases e,
{
    lemma2_to64();
    if e == 0 {
        assert(den * pow2(0) == den);
    } else {
        lemma_pow2_adds(24, (e - 1) as nat);
        lemma_pow2_pos((e - 1) as nat);
        assert(num >= den * 0x100_0000) by (nonlinear_arith)
            requires
                num >= den * pow2((23 + e) as nat),
                pow2((23 + e) as nat) == 0x100_0000 * pow2((e - 1) as nat),
                pow2((e - 1) as nat) >= 1,
        ;
        lemma_pow2_unfold(24 + e);
        lemma_pow2_unfold(23 + e);
        lemma_pow2_unfold(e);
        assert((2 * den) * pow2((24 + e - 1) as nat) == den * pow2(24 + e)) by (nonlinear_arith)
            requires
                pow2(24 + e) == 2 * pow2((24 + e - 1) as nat),
        ;
        assert((2 * den) * pow2((e - 1) as nat) == den * pow2(e)) by (nonlinear_arith)
            requires
                pow2(e) == 2 * pow2((e - 1) as nat),
        ;
        assert((2 * den) * pow2((23 + e - 1) as nat) == den * pow2((23 + e) as nat))
            by (nonlinear_arith)
            requires
                pow2((23 + e) as nat) == 2 * pow2((23 + e - 1) as nat),
        ;
        lemma_round_at(num, 2 * den, (e - 1) as nat);
    }
}

/// `x * k >= y * k` for ordered `x`, `y`: the form in which products of powers are compared.
proof fn lemma_scale_order(x: nat, y: nat, k: nat)
    requires
        x <= y,
    ensures
        x * k <= y * k,
        k * x <= k * y,
{
    assert(x * k <= y * k && k * x <= k * y) by (nonlinear_arith)
        requires
            x <= y,
    ;
}

/// Rounding keeps order.
pub proof fn lemma_round_monotone(a: nat, b: nat, den: nat)
    requires
        den > 0,
        a <= b,
    ensures
        round_bits(a, den) <= round_bits(b, den),
    decreases b / den,
{
    if b < den * 0x100_0000 {
        lemma_half_even_monotone(a, b, den);
    } else {
        lemma_halving_descends(b, den);
        if a < den * 0x100_0000 {
            lemma_half_even_monotone(a, den * 0x100_0000, den);
            lemma_mul_is_commutative(den as int, 0x100_0000);
            lemma_half_even_whole(0x100_0000, den);
            lemma_round_monotone(den * 0x100_0000, b, 2 * den);
            lemma_round_exact_power(den);
        } else {
            lemma_round_monotone(a, b, 2 * den);
        }
    }
}

proof fn lemma_round_exact_power(den: nat)
    requires
        den > 0,
    ensures
        round_bits(den * 0x100_0000, 2 * den) == 0x80_0000,
{
    assert(den * 0x100_0000 == 0x80_0000 * (2 * den));
    lemma_half_even_whole(0x80_0000, 2 * den);
}

pub proof fn lemma_half_even_monotone(a: nat, b: nat, den: nat)
    requires
        den > 0,
        a <= b,
    ensures
        half_even(a, den) <= half_even(b, den),
{
    lemma_div_is_ordered(a as int, b as int, den as int);
    if a / den == b / den {
        lemma_fundamental_div_mod(a as int, den as int);
        lemma_fundamental_div_mod(b as int, den as int);
    }
}

/// Two to the power of `k`.
fn power(k: u32) -> (p: u64)
    requires
        k < 64,
    ensures
        p == pow2(k as nat),
{
    let mut p: u64 = 1;
    let mut i: u32 = 0;
    proof {
        lemma2_to64();
    }
    while i < k
        invariant
            i <= k,
            k < 64,
            p == pow2(i as nat),
        decreases k - i,
    {
        proof {
            lemma_pow2_unfold((i + 1) as nat);
            lemma_pow2_strictly_increases((i + 1) as nat, 64);
            lemma2_to64();
            lemma2_to64_rest();
        }
        p = p * 2;
        i = i + 1;
    }
    p
}

/// The number of binary digits of `n`.
pub(crate) fn bit_len(n: u64) -> (len: u32)
    ensures
        len <= 64,
        n < pow2(len as nat),
        n > 0 ==> len > 0,
        len > 0 ==> pow2((len - 1) as nat) <= n,
{
    let mut p: u64 = 1;
    let mut len: u32 = 0;
    proof {
        lemma2_to64();
        lemma2_to64_rest();
    }
    if n >= 0x8000_0000_0000_0000 {
        return 64;
    }
    while p <= n
        invariant
            n < 0x8000_0000_0000_0000,
            p == pow2(len as nat),
            len <= 63,
            len > 0 ==> pow2((len - 1) as nat) <= n,
        decreases 64 - len,
    {
        proof {
            if len == 63 {
                lemma2_to64_rest();
            }
            lemma_pow2_pos(len as nat);
            lemma_pow2_unfold((len + 1) as nat);
        }
        p = p * 2;
        len = len + 1;
    }
    len
}

fn half_even_at(n: u64, den: u64) -> (q: u64)
    requires
        0 < den,
    ensures
        q == half_even(n as nat, den as nat),
{
    let q: u64 = n / den;
    let r: u64 = n % den;
    proof {
        lemma_fundamental_div_mod(n as int, den as int);
        if den >= 2 {
            assert(2 * q <= n) by (nonlinear_arith)
                requires
                    n == den * q + r,
                    den >= 2,
                    r >= 0,
            ;
        }
    }
    if r > den - r || (r == den - r && q % 2 == 1) {
        q + 1
    } else {
        q
    }
}

/// Rounds `n` times two to the power of `s`, stopping at infinity.
pub(crate) fn round_to_bits(n: u64, s: i32) -> (bits: u32)
    requires
        -600 <= s <= 600,
    ensures
        bits <= INFINITY_BITS,
        bits == (if round_power(n as nat, s as int) < INFINITY_BITS {
            round_power(n as nat, s as int)
        } else {
            INFINITY_BITS as nat
        }),
{
    if n == 0 {
        proof {
            lemma_pow2_pos((-s) as nat);
            assert(0 * pow2(s as nat) == 0);
            if s < 0 {
                lemma_half_even_whole(0, pow2((-s) as nat));
            }
        }
        return 0;
    }
    let len: u32 = bit_len(n);
    let top: i32 = len as i32 + s;
    let e: i32 = if top > 24 {
        top - 24
    } else {
        0
    };
    let drop: i32 = e - s;
    proof {
        lemma_round_power_at(n as nat, s as int, len as nat, e as nat);
        lemma2_to64();
        lemma2_to64_rest();
    }
    let m: u64;
    if drop <= 0 {
        proof {
            lemma_pow2_adds(len as nat, (-drop) as nat);
            assert(n * pow2((-drop) as nat) < pow2(len as nat) * pow2((-drop) as nat))
                by (nonlinear_arith)
                requires
                    n < pow2(len as nat),
                    pow2((-drop) as nat) > 0,
            {
                lemma_pow2_pos((-drop) as nat);
            }
            assert(len - drop <= 24);
            if len - drop < 24 {
                lemma_pow2_strictly_increases((len - drop) as nat, 24);
            }
        }
        m = n * power((-drop) as u32);
    } else if drop >= 64 {
        proof {
            lemma_pow2_unfold(65);
            if drop > 65 {
                lemma_pow2_strictly_increases(65, drop as nat);
            }
            lemma_fundamental_div_mod_converse(n as int, pow2(drop as nat) as int, 0, n as int);
        }
        m = if drop == 64 && n > 0x8000_0000_0000_0000 {
            1
        } else {
            0
        };
    } else {
        proof {
            lemma_pow2_pos(drop as nat);
        }
        m = half_even_at(n, power(drop as u32));
    }
    proof {
        lemma_half_even_bound(n as nat, s as int, len as nat, e as nat);
    }
    if e > 300 {
        return INFINITY_BITS;
    }
    let b: u64 = (e as u64) * 0x80_0000 + m;
    if b < INFINITY_BITS as u64 {
        b as u32
    } else {
        INFINITY_BITS
    }
}

/// What is left to round once the exponent `e` of `n` times two to the power of `s` is known.
pub open spec fn significand(n: nat, s: int, e: int) -> nat {
    if e <= s {
        n * pow2((s - e) as nat)
    } else {
        half_even(n, pow2((e - s) as nat))
    }
}

pub proof fn lemma_round_power_at(n: nat, s: int, len: nat, e: nat)
    requires
        n > 0,
        len > 0,
        n < pow2(len),
        pow2((len - 1) as nat) <= n,
        e == if len + s > 24 {
            len + s - 24
        } else {
            0
        },
    ensures
        round_power(n, s) == e * 0x80_0000 + significand(n, s, e as int),
{
    if s >= 0 {
        let s = s as nat;
        let num = n * pow2(s);
        lemma_pow2_pos(s);
        lemma_pow2_adds(len, s);
        lemma_pow2_adds((len - 1) as nat, s);
        assert(num < pow2(len) * pow2(s)) by (nonlinear_arith)
            requires
                n < pow2(len),
                pow2(s) > 0,
                num == n * pow2(s),
        ;
        if len + s < 24 + e {
            lemma_pow2_strictly_increases(len + s, 24 + e);
        }
        lemma_scale_order(pow2((len - 1) as nat), n, pow2(s));
        assert(1 * pow2(24 + e) == pow2(24 + e));
        lemma_round_at(num, 1, e);
        assert(1 * pow2(e) == pow2(e));
        lemma_pow2_pos(e);
        if e <= s {
            lemma_pow2_adds((s - e) as nat, e);
            assert(num == (n * pow2((s - e) as nat)) * pow2(e)) by (nonlinear_arith)
                requires
                    num == n * pow2(s),
                    pow2(s) == pow2((s - e) as nat) * pow2(e),
            ;
            lemma_half_even_whole(n * pow2((s - e) as nat), pow2(e));
        } else {
            lemma_pow2_adds((e - s) as nat, s);
            lemma_pow2_pos((e - s) as nat);
            lemma_half_even_scale(n, pow2((e - s) as nat), pow2(s));
            lemma_mul_is_commutative(n as int, pow2(s) as int);
            lemma_mul_is_commutative(pow2((e - s) as nat) as int, pow2(s) as int);
        }
    } else {
        let d = (-s) as nat;
        let den = pow2(d);
        lemma_pow2_pos(d);
        lemma_pow2_adds(d, 24 + e);
        if len < d + 24 + e {
            lemma_pow2_strictly_increases(len, d + 24 + e);
        }
        if e > 0 {
            lemma_pow2_adds(d, (23 + e) as nat);
            assert(d + 23 + e == len - 1);
        }
        lemma_round_at(n, den, e);
        lemma_pow2_adds(d, e);
    }
}

/// The significand needs at most 24 binary digits, or is the next power of two.
proof fn lemma_half_even_bound(n: nat, s: int, len: nat, e: nat)
    requires
        n > 0,
        len > 0,
        n < pow2(len),
        pow2((len - 1) as nat) <= n,
        e == if len + s > 24 {
            len + s - 24
        } else {
            0
        },
    ensures
        significand(n, s, e as int) <= 0x100_0000,
        e > 0 ==> significand(n, s, e as int) >= 0x80_0000,
{
    lemma2_to64();
    if e <= s {
        let k = (s - e) as nat;
        lemma_pow2_adds(len, k);
        lemma_pow2_adds((len - 1) as nat, k);
        lemma_pow2_pos(k);
        assert(n * pow2(k) <= pow2(len) * pow2(k)) by (nonlinear_arith)
            requires
                n < pow2(len),
                pow2(k) > 0,
        ;
        if len + k < 24 {
            lemma_pow2_strictly_increases(len + k, 24);
        }
        lemma_scale_order(pow2((len - 1) as nat), n, pow2(k));
    } else {
        let d = (e - s) as nat;
        lemma_pow2_pos(d);
        lemma_pow2_adds(24, d);
        if len < 24 + d {
            lemma_pow2_strictly_increases(len, 24 + d);
        }
        lemma_half_even_monotone(n, 0x100_0000 * pow2(d), pow2(d));
        lemma_half_even_whole(0x100_0000, pow2(d));
        if e > 0 {
            lemma_pow2_adds(23, d);
            lemma_half_even_monotone(0x80_0000 * pow2(d), n, pow2(d));
            lemma_half_even_whole(0x80_0000, pow2(d));
        }
    }
}

/// Both terms of a rounded fraction can be scaled alike.
pub proof fn lemma_round_scale(num: nat, den: nat, k: nat)
    requires
        den > 0,
        k > 0,
    ensures
        round_bits(k * num, k * den) == round_bits(num, den),
    decreases num / den,
{
    assert(k * num < (k * den) * 0x100_0000 <==> num < den * 0x100_0000) by (nonlinear_arith)
        requires
            k > 0,
    ;
    assert(k * den > 0) by (nonlinear_arith)
        requires
            k > 0,
            den > 0,
    ;
    if num < den * 0x100_0000 {
        lemma_half_even_scale(num, den, k);
    } else {
        lemma_halving_descends(num, den);
        lemma_round_scale(num, 2 * den, k);
        assert(k * (2 * den) == 2 * (k * den)) by (nonlinear_arith);
    }
}

/// Equal fractions round alike.
pub proof fn lemma_round_same(num1: nat, den1: nat, num2: nat, den2: nat)
    requires
        den1 > 0,
        den2 > 0,
        num1 * den2 == num2 * den1,
    ensures
        round_bits(num1, den1) == round_bits(num2, den2),
{
    lemma_round_scale(num1, den1, den2);
    lemma_round_scale(num2, den2, den1);
    lemma_mul_is_commutative(num1 as int, den2 as int);
    lemma_mul_is_commutative(num2 as int, den1 as int);
    lemma_mul_is_commutative(den1 as int, den2 as int);
}

/// The fraction `num / den` times two to the power of `s`, rounded.
pub open spec fn round_fraction(num: nat, den: nat, s: int) -> nat {
    if s >= 0 {
        round_bits(num * pow2(s as nat), den)
    } else {
        round_bits(num, den * pow2((-s) as nat))
    }
}

/// The integral part of twice a fraction, its last digit set where anything was cut off.
pub open spec fn with_sticky(num: nat, den: nat) -> nat {
    2 * (num / den) + if num % den == 0 {
        0nat
    } else {
        1nat
    }
}

/// Rounding away at least two digits, the sticky digit stands for everything that was cut off.
proof fn lemma_half_even_sticky(num: nat, den: nat, k: nat)
    requires
        den > 0,
        k > 0,
    ensures
        half_even(2 * num, den * (4 * k)) == half_even(with_sticky(num, den), 4 * k),
{
    let q = num / den;
    let f = num % den;
    let n = with_sticky(num, den);
    let d = 4 * k;
    let h = 2 * k;
    lemma_fundamental_div_mod(num as int, den as int);
    lemma_fundamental_div_mod(q as int, h as int);
    let w = q / h;
    let r = q % h;
    let st: nat = if f == 0 {
        0
    } else {
        1
    };
    // n == d * w + (2 * r + st)
    assert(n == w * d + (2 * r + st)) by (nonlinear_arith)
        requires
            n == 2 * q + st,
            q == h * w + r,
            d == 2 * h,
    ;
    lemma_fundamental_div_mod_converse(n as int, d as int, w as int, (2 * r + st) as int);
    // 2 * num == den * d * w + (2 * r * den + 2 * f)
    assert(den * d > 0) by (nonlinear_arith)
        requires
            den > 0,
            d > 0,
    ;
    assert(2 * num == w * (den * d) + (2 * (r * den) + 2 * f)) by (nonlinear_arith)
        requires
            num == den * q + f,
            q == h * w + r,
            d == 2 * h,
    ;
    assert(r * den + den <= h * den) by (nonlinear_arith)
        requires
            r + 1 <= h,
            den > 0,
    ;
    assert(den * d == 2 * (h * den)) by (nonlinear_arith)
        requires
            d == 2 * h,
    ;
    lemma_fundamental_div_mod_converse(
        (2 * num) as int,
        (den * d) as int,
        w as int,
        (2 * (r * den) + 2 * f) as int,
    );
    // Compare the remainders with one half.
    if r < k {
        assert(r * den + den <= k * den) by (nonlinear_arith)
            requires
                r + 1 <= k,
        ;
        assert(h * den == 2 * (k * den)) by (nonlinear_arith)
            requires
                h == 2 * k,
        ;
    } else if r > k {
        assert(r * den >= k * den + den) by (nonlinear_arith)
            requires
                r >= k + 1,
        ;
        assert(h * den == 2 * (k * den)) by (nonlinear_arith)
            requires
                h == 2 * k,
        ;
    } else {
        assert(h * den == 2 * (k * den)) by (nonlinear_arith)
            requires
                h == 2 * k,
        ;
    }
}

/// A fraction with enough integral digits rounds like its integral part with a sticky digit.
pub proof fn lemma_round_sticky(num: nat, den: nat, s: int)
    requires
        den > 0,
        num / den >= 0x400_0000,
    ensures
        round_fraction(2 * num, den, s) == round_power(with_sticky(num, den), s),
{
    let n = with_sticky(num, den);
    let len = choose_len(n);
    lemma_choose_len(n);
    let e: nat = if len + s > 24 {
        (len + s - 24) as nat
    } else {
        0
    };
    lemma_round_power_at(n, s, len, e);
    lemma2_to64();
    assert(len > 27) by {
        if len < 27 {
            lemma_pow2_strictly_increases(len, 27);
        }
    }
    lemma_pow2_unfold(len);
    lemma_pow2_unfold((len - 1) as nat);
    let half = pow2((len - 1) as nat);
    let quarter = pow2((len - 2) as nat);
    lemma_fundamental_div_mod(num as int, den as int);
    let q = num / den;
    // half <= 2 * q and 2 * q + 2 <= 2 * half, both sides being even.
    assert(2 * quarter <= 2 * q);
    assert(2 * q + 2 <= 2 * half);
    assert(2 * num < den * (2 * half)) by (nonlinear_arith)
        requires
            num == den * q + num % den,
            num % den < den,
            2 * q + 2 <= 2 * half,
            den > 0,
    ;
    assert(2 * num >= den * half) by (nonlinear_arith)
        requires
            num == den * q + num % den,
            num % den >= 0,
            half == 2 * quarter,
            2 * quarter <= 2 * q,
            den > 0,
    ;
    let drop = (e - s) as nat;
    assert(drop >= 2);
    lemma_pow2_adds(2, (drop - 2) as nat);
    let k = pow2((drop - 2) as nat);
    lemma_pow2_pos((drop - 2) as nat);
    lemma_half_even_sticky(num, den, k);
    assert(pow2(drop) == 4 * k);
    if s >= 0 {
        let p = pow2(s as nat);
        lemma_pow2_pos(s as nat);
        lemma_pow2_adds(len, s as nat);
        lemma_pow2_adds((len - 1) as nat, s as nat);
        assert(2 * num * p < den * (pow2(len) * p)) by (nonlinear_arith)
            requires
                2 * num < den * pow2(len),
                p > 0,
        ;
        assert(2 * num * p >= den * (half * p)) by (nonlinear_arith)
            requires
                2 * num >= den * half,
                p > 0,
        ;
        lemma_round_at(2 * num * p, den, e);
        lemma_pow2_adds(drop, s as nat);
        lemma_pow2_pos(drop);
        assert(den * (4 * k) > 0) by (nonlinear_arith)
            requires
                den > 0,
                k > 0,
        ;
        lemma_half_even_scale(2 * num, den * (4 * k), p);
        assert(p * (den * (4 * k)) == den * pow2(e)) by (nonlinear_arith)
            requires
                pow2(e) == (4 * k) * p,
        ;
        assert(p * (2 * num) == 2 * num * p) by (nonlinear_arith);
    } else {
        let d = (-s) as nat;
        let p = pow2(d);
        lemma_pow2_pos(d);
        assert(den * p > 0) by (nonlinear_arith)
            requires
                den > 0,
                p > 0,
        ;
        lemma_pow2_adds(d, 24 + e);
        if len < d + 24 + e {
            lemma_pow2_strictly_increases(len, d + 24 + e);
        }
        assert(2 * num < (den * p) * pow2(24 + e)) by (nonlinear_arith)
            requires
                2 * num < den * pow2(len),
                pow2(len) <= p * pow2(24 + e),
                den > 0,
        ;
        if e > 0 {
            lemma_pow2_adds(d, (23 + e) as nat);
            assert(2 * num >= (den * p) * pow2((23 + e) as nat)) by (nonlinear_arith)
                requires
                    2 * num >= den * half,
                    half == p * pow2((23 + e) as nat),
            ;
        }
        lemma_round_at(2 * num, den * p, e);
        lemma_pow2_adds(d, e);
        assert((den * p) * pow2(e) == den * (4 * k)) by (nonlinear_arith)
            requires
                4 * k == p * pow2(e),
        ;
    }
}

/// The number of binary digits of a positive number.
pub open spec fn choose_len(n: nat) -> nat {
    choose|len: nat| len > 0 && n < #[trigger] pow2(len) && pow2((len - 1) as nat) <= n
}

proof fn lemma_choose_len(n: nat)
    requires
        n > 0,
    ensures
        choose_len(n) > 0,
        n < pow2(choose_len(n)),
        pow2((choose_len(n) - 1) as nat) <= n,
{
    lemma_len_exists(n);
}

proof fn lemma_len_exists(n: nat)
    requires
        n > 0,
    ensures
        exists|len: nat| len > 0 && n < #[trigger] pow2(len) && pow2((len - 1) as nat) <= n,
    decreases n,
{
    lemma2_to64();
    if n == 1 {
        assert(n < pow2(1) && pow2(0) <= n);
    } else {
        lemma_len_exists(n / 2);
        let l = choose|len: nat|
            len > 0 && n / 2 < #[trigger] pow2(len) && pow2((len - 1) as nat) <= n / 2;
        lemma_pow2_unfold(l + 1);
        lemma_pow2_unfold(l);
        assert(n < pow2(l + 1) && pow2((l + 1 - 1) as nat) <= n);
    }
}

} // verus!
