//! Reading JavaScript numbers as integers, as Rust's saturating `as` casts do.
//!
//! A number given by its IEEE-754 bit pattern is decoded with integer arithmetic:
//! NaN reads as 0, infinities and out-of-range values saturate, and everything else
//! is truncated toward zero. A number described as an integer (`Int`, `Uint`) is read
//! back as that integer.
//!
//! An integer becomes a JavaScript number as `x as f64` makes it: the nearest double,
//! ties to even (`nearest_double`). Below 2^53 that is the integer itself; above, low
//! bits are lost. `int_number` describes the result by the integer it holds.
use vstd::prelude::*;
use vstd::arithmetic::power2::pow2;
use crate::js::JsNumber;

verus! {

/// The biased exponent field of a double.
pub open spec fn exp_field(bits: u64) -> int {
    ((bits as int) / (pow2(52) as int)) % 2048
}

/// The fraction field of a double.
pub open spec fn frac_field(bits: u64) -> int {
    (bits as int) % (pow2(52) as int)
}

/// Whether the sign bit of a double is set.
pub open spec fn sign_set(bits: u64) -> bool {
    bits as int >= pow2(63) as int
}

/// Whether the double is NaN.
pub open spec fn is_nan(bits: u64) -> bool {
    exp_field(bits) == 2047 && frac_field(bits) != 0
}

/// Whether the double is infinite.
pub open spec fn is_infinite(bits: u64) -> bool {
    exp_field(bits) == 2047 && frac_field(bits) == 0
}

/// The magnitude of a finite double, truncated toward zero.
pub open spec fn trunc_magnitude(bits: u64) -> int {
    let exp = exp_field(bits);
    let m = if exp == 0 { frac_field(bits) } else { frac_field(bits) + pow2(52) };
    let e = if exp == 0 { 1 - 1075 } else { exp - 1075 };
    if e >= 0 {
        m * (pow2(e as nat) as int)
    } else {
        m / (pow2((-e) as nat) as int)
    }
}

/// The truncated value of a finite double.
pub open spec fn trunc_value(bits: u64) -> int {
    if sign_set(bits) {
        -trunc_magnitude(bits)
    } else {
        trunc_magnitude(bits)
    }
}

/// `x` clamped to `[lo, hi]`.
pub open spec fn clamp(x: int, lo: int, hi: int) -> int {
    if x < lo {
        lo
    } else if x > hi {
        hi
    } else {
        x
    }
}

/// `f as i64` for the double `f` with bit pattern `bits`.
pub open spec fn double_to_i64(bits: u64) -> int {
    if is_nan(bits) {
        0
    } else if is_infinite(bits) {
        if sign_set(bits) {
            i64::MIN as int
        } else {
            i64::MAX as int
        }
    } else {
        clamp(trunc_value(bits), i64::MIN as int, i64::MAX as int)
    }
}

/// `f as usize` for the double `f` with bit pattern `bits`.
pub open spec fn double_to_usize(bits: u64) -> int {
    if is_nan(bits) {
        0
    } else if is_infinite(bits) {
        if sign_set(bits) {
            0
        } else {
            usize::MAX as int
        }
    } else {
        clamp(trunc_value(bits), 0, usize::MAX as int)
    }
}

/// A number read as an `i64`, as `n as i64` reads the double.
pub open spec fn number_to_i64(n: JsNumber) -> int {
    match n {
        JsNumber::Int(i) => i as int,
        JsNumber::Uint(u) => clamp(u as int, 0, i64::MAX as int),
        JsNumber::Float(b) => double_to_i64(b),
    }
}

/// A number read as a `usize`, as `n as usize` reads the double.
pub open spec fn number_to_usize(n: JsNumber) -> int {
    match n {
        JsNumber::Int(i) => clamp(i as int, 0, usize::MAX as int),
        JsNumber::Uint(u) => clamp(u as int, 0, usize::MAX as int),
        JsNumber::Float(b) => double_to_usize(b),
    }
}

/// How many low bits an integer of magnitude `m` loses when held as a double: none
/// below 2^53, one more for each further doubling.
pub open spec fn dropped_bits(m: nat) -> nat
    decreases m,
{
    if m < pow2(53) {
        0
    } else {
        proof {
            vstd::arithmetic::power2::lemma_pow2_pos(53);
        }
        1 + dropped_bits(m / 2)
    }
}

/// The magnitude `m` rounded to the nearest double, ties to even: a multiple of
/// `2^dropped_bits(m)`.
pub open spec fn round_magnitude(m: nat) -> nat {
    let q = pow2(dropped_bits(m));
    let hi = m / q;
    let r = m % q;
    if 2 * r > q || (2 * r == q && hi % 2 == 1) {
        (hi + 1) * q
    } else {
        hi * q
    }
}

/// The integer `x` rounded to the nearest double, ties to even, as `x as f64` rounds.
pub open spec fn nearest_double(x: int) -> int {
    if x < 0 {
        -(round_magnitude((-x) as nat) as int)
    } else {
        round_magnitude(x as nat) as int
    }
}

/// The bit pattern of the double 2^64.
pub open spec fn two_to_64_bits() -> u64 {
    0x43F0_0000_0000_0000
}

/// A magnitude up to 2^53 is held exactly.
pub proof fn lemma_round_small(m: nat)
    requires
        m <= pow2(53),
    ensures
        round_magnitude(m) == m,
{
    vstd::arithmetic::power2::lemma2_to64();
    vstd::arithmetic::power2::lemma2_to64_rest();
    assert(pow2(53) == 9007199254740992);
    if m < pow2(53) {
        assert(dropped_bits(m) == 0);
    } else {
        assert(m == 9007199254740992);
        assert(m / 2 == 4503599627370496 && m % 2 == 0);
        assert(dropped_bits(m / 2) == 0);
        assert(dropped_bits(m) == 1);
        assert(pow2(1) == 2);
    }
}

/// Every integer from -2^53 to 2^53 becomes the number that is exactly that integer.
pub proof fn law_small_integers_exact(x: int)
    requires
        -pow2(53) <= x <= pow2(53),
    ensures
        nearest_double(x) == x,
        int_number(x) == JsNumber::Int(x as i64),
        x >= 0 ==> uint_number(x) == JsNumber::Uint(x as u64),
{
    vstd::arithmetic::power2::lemma2_to64();
    vstd::arithmetic::power2::lemma2_to64_rest();
    if x < 0 {
        lemma_round_small((-x) as nat);
    } else {
        lemma_round_small(x as nat);
    }
}

/// The bit pattern `two_to_64_bits` is the finite double 2^64.
pub proof fn lemma_two_to_64_bits()
    ensures
        !is_nan(two_to_64_bits()),
        !is_infinite(two_to_64_bits()),
        !sign_set(two_to_64_bits()),
        trunc_value(two_to_64_bits()) == pow2(64),
{
    vstd::arithmetic::power2::lemma2_to64();
    vstd::arithmetic::power2::lemma2_to64_rest();
    let b = two_to_64_bits();
    assert(exp_field(b) == 1087);
    assert(frac_field(b) == 0);
    vstd::arithmetic::power2::lemma_pow2_adds(52, 12);
}

/// The JavaScript number that the signed integer `x` (an `i64`) becomes: the nearest
/// double, given by the integer it holds, as `Int` where that fits an `i64`; the one
/// value beyond, 2^63, as `Uint`.
pub open spec fn int_number(x: int) -> JsNumber {
    let n = nearest_double(x);
    if i64::MIN <= n <= i64::MAX {
        JsNumber::Int(n as i64)
    } else {
        JsNumber::Uint(n as u64)
    }
}

/// The JavaScript number that the unsigned integer `x` (a `u64`) becomes: the nearest
/// double, given by the integer it holds, as `Uint` where that fits a `u64`; the one
/// value beyond, 2^64, by its bit pattern.
pub open spec fn uint_number(x: int) -> JsNumber {
    let n = nearest_double(x);
    if 0 <= n <= u64::MAX {
        JsNumber::Uint(n as u64)
    } else {
        JsNumber::Float(two_to_64_bits())
    }
}

/// `ToUint8` of a number: the number truncated toward zero, modulo 2^8; NaN and the
/// infinities give 0.
pub open spec fn number_to_uint8(n: JsNumber) -> int {
    match n {
        JsNumber::Int(i) => (i as int) % 256,
        JsNumber::Uint(u) => (u as int) % 256,
        JsNumber::Float(b) => if is_nan(b) || is_infinite(b) {
            0
        } else {
            trunc_value(b) % 256
        },
    }
}

/// `2^a <= 2^b` when `a <= b`.
proof fn lemma_pow2_le(a: nat, b: nat)
    requires
        a <= b,
    ensures
        pow2(a) <= pow2(b),
{
    if a < b {
        vstd::arithmetic::power2::lemma_pow2_strictly_increases(a, b);
    }
}

/// `2^e` for `e < 128`.
fn pow2_u128(e: u32) -> (r: u128)
    requires
        e < 128,
    ensures
        r as int == pow2(e as nat) as int,
{
    let mut r: u128 = 1;
    let mut k: u32 = 0;
    proof { vstd::arithmetic::power2::lemma2_to64(); }
    while k < e
        invariant
            k <= e,
            e < 128,
            r as int == pow2(k as nat) as int,
        decreases e - k,
    {
        proof {
            vstd::arithmetic::power2::lemma_pow2_unfold((k + 1) as nat);
            vstd::arithmetic::power2::lemma_pow2_strictly_increases((k + 1) as nat, 128);
            vstd::arithmetic::power2::lemma2_to64_rest();
        }
        assert(pow2(128) == 0x1_0000_0000_0000_0000_0000_0000_0000_0000) by {
            vstd::arithmetic::power2::lemma_pow2_adds(64, 64);
            vstd::arithmetic::power2::lemma2_to64_rest();
        }
        r = r * 2;
        k = k + 1;
    }
    r
}

/// The truncated magnitude of a finite double, capped at `2^127`: anything at or
/// above `2^127` comes back as `2^127`.
fn magnitude(bits: u64) -> (r: u128)
    requires
        !is_nan(bits) && !is_infinite(bits),
    ensures
        trunc_magnitude(bits) >= pow2(127) as int ==> r as int == pow2(127) as int,
        trunc_magnitude(bits) < pow2(127) as int ==> r as int == trunc_magnitude(bits),
{
    proof {
        vstd::arithmetic::power2::lemma2_to64();
        vstd::arithmetic::power2::lemma2_to64_rest();
    }
    let exp: u64 = (bits / 4503599627370496) % 2048;
    let frac: u64 = bits % 4503599627370496;
    let m: u64 = if exp == 0 { frac } else { frac + 4503599627370496 };
    assert(exp as int == exp_field(bits));
    assert(frac as int == frac_field(bits));
    if exp >= 1075 {
        let e: u64 = exp - 1075;
        let m128 = m as u128;
        assert(m128 < pow2(53) as int) by {
            vstd::arithmetic::power2::lemma_pow2_adds(52, 1);
        }
        if e >= 75 {
            proof {
                assert(m >= pow2(52));
                vstd::arithmetic::power2::lemma_pow2_adds(52, e as nat);
                lemma_pow2_le(127, (52 + e) as nat);
                vstd::arithmetic::mul::lemma_mul_inequality(pow2(52) as int, m as int, pow2(e as nat) as int);
                assert(trunc_magnitude(bits) == m * pow2(e as nat));
            }
            pow2_u128(127)
        } else {
            let p = pow2_u128(e as u32);
            proof {
                vstd::arithmetic::power2::lemma_pow2_adds(53, e as nat);
                vstd::arithmetic::power2::lemma_pow2_strictly_increases((53 + e) as nat, 128);
                vstd::arithmetic::power2::lemma_pow2_pos(e as nat);
                vstd::arithmetic::mul::lemma_mul_strict_inequality(m as int, pow2(53) as int, pow2(e as nat) as int);
                assert(trunc_magnitude(bits) == m * pow2(e as nat));
                vstd::arithmetic::power2::lemma_pow2_adds(64, 64);
            }
            let x = m128 * p;
            if x >= pow2_u128(127) {
                pow2_u128(127)
            } else {
                x
            }
        }
    } else {
        let d: u64 = if exp == 0 { 1074 } else { 1075 - exp };
        if d >= 64 {
            proof {
                assert(m < pow2(53)) by { vstd::arithmetic::power2::lemma_pow2_adds(52, 1); }
                vstd::arithmetic::power2::lemma_pow2_strictly_increases(53, d as nat);
                vstd::arithmetic::div_mod::lemma_basic_div(m as int, pow2(d as nat) as int);
                assert(trunc_magnitude(bits) == (m as int) / (pow2(d as nat) as int));
                vstd::arithmetic::power2::lemma_pow2_pos(127);
            }
            0
        } else {
            let p = pow2_u128(d as u32);
            proof {
                vstd::arithmetic::power2::lemma_pow2_pos(d as nat);
                assert(trunc_magnitude(bits) == (m as int) / (pow2(d as nat) as int));
                let q = pow2(d as nat) as int;
                assert((m as int) / q <= m as int) by (nonlinear_arith)
                    requires q >= 1, m >= 0;
                assert(m < pow2(53)) by { vstd::arithmetic::power2::lemma_pow2_adds(52, 1); }
                lemma_pow2_le(53, 127);
            }
            (m as u128) / p
        }
    }
}

/// `f as i64` for the double with bit pattern `bits`.
pub fn double_as_i64(bits: u64) -> (r: i64)
    ensures
        r as int == double_to_i64(bits),
{
    proof {
        vstd::arithmetic::power2::lemma2_to64();
        vstd::arithmetic::power2::lemma2_to64_rest();
    }
    let exp: u64 = (bits / 4503599627370496) % 2048;
    let frac: u64 = bits % 4503599627370496;
    let negative = bits >= 9223372036854775808;
    if exp == 2047 {
        if frac != 0 {
            0
        } else if negative {
            i64::MIN
        } else {
            i64::MAX
        }
    } else {
        let mag = magnitude(bits);
        proof {
            vstd::arithmetic::power2::lemma_pow2_strictly_increases(63, 127);
            vstd::arithmetic::power2::lemma_pow2_strictly_increases(64, 127);
        }
        if negative {
            if mag >= 9223372036854775808 {
                i64::MIN
            } else {
                -(mag as i64)
            }
        } else {
            if mag >= 9223372036854775807 {
                i64::MAX
            } else {
                mag as i64
            }
        }
    }
}

/// `f as usize` for the double with bit pattern `bits`.
pub fn double_as_usize(bits: u64) -> (r: usize)
    ensures
        r as int == double_to_usize(bits),
{
    proof {
        vstd::arithmetic::power2::lemma2_to64();
        vstd::arithmetic::power2::lemma2_to64_rest();
    }
    let exp: u64 = (bits / 4503599627370496) % 2048;
    let frac: u64 = bits % 4503599627370496;
    let negative = bits >= 9223372036854775808;
    if exp == 2047 {
        if frac != 0 {
            0
        } else if negative {
            0
        } else {
            usize::MAX
        }
    } else {
        let mag = magnitude(bits);
        proof {
            vstd::arithmetic::power2::lemma_pow2_strictly_increases(64, 127);
        }
        if negative {
            0
        } else if mag >= usize::MAX as u128 {
            usize::MAX
        } else {
            mag as usize
        }
    }
}

/// `n as i64` for a JavaScript number.
pub fn number_as_i64(n: JsNumber) -> (r: i64)
    ensures
        r as int == number_to_i64(n),
{
    match n {
        JsNumber::Int(i) => i,
        JsNumber::Uint(u) => if u > i64::MAX as u64 {
            i64::MAX
        } else {
            u as i64
        },
        JsNumber::Float(b) => double_as_i64(b),
    }
}

/// `n as usize` for a JavaScript number.
pub fn number_as_usize(n: JsNumber) -> (r: usize)
    ensures
        r as int == number_to_usize(n),
{
    match n {
        JsNumber::Int(i) => if i < 0 {
            0
        } else if i as u64 as u128 > usize::MAX as u128 {
            usize::MAX
        } else {
            i as usize
        },
        JsNumber::Uint(u) => if u as u128 > usize::MAX as u128 {
            usize::MAX
        } else {
            u as usize
        },
        JsNumber::Float(b) => double_as_usize(b),
    }
}

/// `x` rounded to the nearest double, ties to even, as `x as f64` rounds it.
fn nearest(x: i128) -> (r: i128)
    requires
        i64::MIN <= x <= u64::MAX,
    ensures
        r as int == nearest_double(x as int),
        x >= 0 ==> 0 <= r <= 0x1_0000_0000_0000_0000,
        x < 0 ==> -0x8000_0000_0000_0000 <= r <= 0,
{
    proof {
        vstd::arithmetic::power2::lemma2_to64();
        vstd::arithmetic::power2::lemma2_to64_rest();
    }
    let neg = x < 0;
    let m: u128 = if neg { (-x) as u128 } else { x as u128 };
    assert(m as int <= pow2(64)) by {
        vstd::arithmetic::power2::lemma2_to64_rest();
    }
    let mut t: u128 = m;
    let mut k: u32 = 0;
    proof {
        vstd::arithmetic::power2::lemma_pow2_unfold(65);
    }
    while t >= 9007199254740992
        invariant
            dropped_bits(m as nat) == k + dropped_bits(t as nat),
            k <= 12,
            (t as int) < pow2((65 - k) as nat) as int,
            pow2(53) == 9007199254740992,
        decreases t,
    {
        proof {
            if k >= 12 {
                assert(false);
            }
            vstd::arithmetic::power2::lemma_pow2_unfold((65 - k) as nat);
        }
        t = t / 2;
        k = k + 1;
    }
    let q = pow2_u128(k);
    proof {
        vstd::arithmetic::power2::lemma_pow2_pos(k as nat);
        lemma_pow2_le(k as nat, 12);
    }
    let hi = m / q;
    let r = m % q;
    assert(hi <= m) by {
        vstd::arithmetic::div_mod::lemma_div_is_ordered_by_denominator(m as int, 1, q as int);
    }
    assert(hi * q <= (m + 1) * 4096 && (hi + 1) * q <= (m + 1) * 4096) by (nonlinear_arith)
        requires
            hi <= m,
            1 <= q <= 4096;
    assert((m + 1) * 4096 < 0x1_0000_0000_0000_0000_0000_0000);
    let mag: u128 = if 2 * r > q || (2 * r == q && hi % 2 == 1) {
        (hi + 1) * q
    } else {
        hi * q
    };
    proof {
        assert(dropped_bits(t as nat) == 0);
        assert(mag as int == round_magnitude(m as nat));
    }
    proof {
        let kk = k as nat;
        let bnd: int = if neg { pow2(63) as int } else { pow2(64) as int };
        let c: int = if neg { pow2((63 - kk) as nat) as int } else { pow2((64 - kk) as nat) as int };
        if neg {
            vstd::arithmetic::power2::lemma_pow2_adds(kk, (63 - kk) as nat);
        } else {
            vstd::arithmetic::power2::lemma_pow2_adds(kk, (64 - kk) as nat);
        }
        assert(q * c == bnd);
        assert(m as int <= bnd);
        vstd::arithmetic::div_mod::lemma_fundamental_div_mod(m as int, q as int);
        if 2 * r > q || (2 * r == q && hi % 2 == 1) {
            assert(hi * q < q * c);
            vstd::arithmetic::mul::lemma_mul_is_commutative(c, q as int);
            assert((hi as int) * (q as int) < c * (q as int));
            vstd::arithmetic::mul::lemma_mul_strict_inequality_converse(hi as int, c, q as int);
            vstd::arithmetic::mul::lemma_mul_inequality((hi + 1) as int, c, q as int);
            vstd::arithmetic::mul::lemma_mul_is_commutative(c, q as int);
            assert(mag as int <= bnd);
        } else {
            assert(mag as int <= m as int);
        }
    }
    let n: i128 = if neg { -(mag as i128) } else { mag as i128 };
    assert(n as int == nearest_double(x as int));
    n
}

/// The JavaScript number that `x` becomes, as `x as f64` rounds it (see `int_number`).
pub fn int_to_number(x: i64) -> (r: JsNumber)
    ensures
        r == int_number(x as int),
{
    let n = nearest(x as i128);
    if n <= i64::MAX as i128 {
        JsNumber::Int(n as i64)
    } else {
        JsNumber::Uint(n as u64)
    }
}

/// The JavaScript number that `x` becomes, as `x as f64` rounds it (see `uint_number`).
pub fn uint_to_number(x: u64) -> (r: JsNumber)
    ensures
        r == uint_number(x as int),
{
    let n = nearest(x as i128);
    if n <= u64::MAX as i128 {
        JsNumber::Uint(n as u64)
    } else {
        JsNumber::Float(0x43F0_0000_0000_0000)
    }
}

/// `x mod 2^8` for a magnitude `a = |x|` whose low byte is `low`, where `x` is
/// negative when `neg` is set.
fn signed_low_byte(neg: bool, low: u8, Ghost(a): Ghost<int>) -> (r: u8)
    requires
        a >= 0,
        a % 256 == low as int,
    ensures
        r as int == (if neg { -a } else { a }) % 256,
{
    if !neg {
        low
    } else if low == 0 {
        assert((-a) % 256 == 0) by (nonlinear_arith)
            requires a % 256 == 0;
        low
    } else {
        let r = (256 - low as u16) as u8;
        assert((-a) % 256 == 256 - low) by (nonlinear_arith)
            requires a >= 0, a % 256 == low, 0 < low < 256;
        r
    }
}

/// The low byte of the truncated magnitude of a finite double.
fn magnitude_low_byte(bits: u64) -> (r: u8)
    requires
        !is_nan(bits) && !is_infinite(bits),
    ensures
        r as int == trunc_magnitude(bits) % 256,
{
    proof {
        vstd::arithmetic::power2::lemma2_to64();
        vstd::arithmetic::power2::lemma2_to64_rest();
    }
    let exp: u64 = (bits / 4503599627370496) % 2048;
    if exp >= 1083 {
        proof {
            let frac = frac_field(bits);
            let m = frac + pow2(52);
            let e = (exp - 1075) as nat;
            assert(trunc_magnitude(bits) == m * (pow2(e) as int));
            vstd::arithmetic::power2::lemma_pow2_adds(8, (e - 8) as nat);
            assert(pow2(8) == 256);
            let p = pow2((e - 8) as nat) as int;
            assert(m * (pow2(e) as int) == (m * p) * 256) by (nonlinear_arith)
                requires pow2(e) as int == 256 * p;
            vstd::arithmetic::div_mod::lemma_mod_multiples_basic(m * p, 256);
        }
        0
    } else {
        let mag = magnitude(bits);
        proof {
            if trunc_magnitude(bits) >= pow2(127) as int {
                let frac = frac_field(bits);
                let m = if exp_field(bits) == 0 { frac } else { frac + pow2(52) };
                assert(m < pow2(53)) by { vstd::arithmetic::power2::lemma_pow2_adds(52, 1); }
                if exp_field(bits) >= 1075 {
                    let e = (exp_field(bits) - 1075) as nat;
                    assert(e < 8);
                    lemma_pow2_le(e, 8);
                    vstd::arithmetic::power2::lemma_pow2_adds(53, 8);
                    lemma_pow2_le(61, 127);
                    vstd::arithmetic::power2::lemma_pow2_pos(8);
                    vstd::arithmetic::mul::lemma_mul_inequality(pow2(e) as int, pow2(8) as int, m);
                    vstd::arithmetic::mul::lemma_mul_strict_inequality(m, pow2(53) as int, pow2(8) as int);
                    vstd::arithmetic::mul::lemma_mul_is_commutative(m, pow2(e) as int);
                    vstd::arithmetic::mul::lemma_mul_is_commutative(m, pow2(8) as int);
                    assert(m * (pow2(e) as int) < pow2(61) as int);
                } else {
                    let d = if exp_field(bits) == 0 { 1074nat } else { (1075 - exp_field(bits)) as nat };
                    vstd::arithmetic::power2::lemma_pow2_pos(d);
                    assert((m as int) / (pow2(d) as int) <= m as int) by (nonlinear_arith)
                        requires pow2(d) >= 1, m >= 0;
                    lemma_pow2_le(53, 127);
                }
                assert(false);
            }
        }
        (mag % 256) as u8
    }
}

/// `ToUint8` of a number (see `number_to_uint8`): what writing it into a `Uint8Array`
/// stores.
pub fn number_as_uint8(n: JsNumber) -> (r: u8)
    ensures
        r as int == number_to_uint8(n),
{
    match n {
        JsNumber::Int(i) => {
            let a: u128 = if i < 0 { (-(i as i128)) as u128 } else { i as u128 };
            signed_low_byte(i < 0, (a % 256) as u8, Ghost(a as int))
        },
        JsNumber::Uint(u) => (u % 256) as u8,
        JsNumber::Float(b) => {
            let exp: u64 = (b / 4503599627370496) % 2048;
            proof {
                vstd::arithmetic::power2::lemma2_to64();
                vstd::arithmetic::power2::lemma2_to64_rest();
            }
            if exp == 2047 {
                0
            } else {
                let low = magnitude_low_byte(b);
                proof {
                    assert(trunc_magnitude(b) >= 0) by {
                        let frac = frac_field(b);
                        let m = if exp_field(b) == 0 { frac } else { frac + pow2(52) };
                        let ex = exp_field(b);
                        if (if ex == 0 { 1 - 1075 } else { ex - 1075 }) >= 0 {
                            let e = (ex - 1075) as nat;
                            vstd::arithmetic::power2::lemma_pow2_pos(e);
                            assert(m * (pow2(e) as int) >= 0) by (nonlinear_arith)
                                requires m >= 0, pow2(e) >= 1;
                        } else {
                            let d = if ex == 0 { 1074nat } else { (1075 - ex) as nat };
                            vstd::arithmetic::power2::lemma_pow2_pos(d);
                            assert((m as int) / (pow2(d) as int) >= 0) by (nonlinear_arith)
                                requires pow2(d) >= 1, m >= 0;
                        }
                    }
                }
                signed_low_byte(b >= 9223372036854775808, low, Ghost(trunc_magnitude(b)))
            }
        },
    }
}

} // verus!
