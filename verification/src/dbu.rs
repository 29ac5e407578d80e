//! From microns to database units.
//!
//! A length in microns arrives as a binary64 number and is held as its 64 bits. The product with
//! the scale is the nearest binary64 number, ties to even, as a machine computes it: a spacing that
//! came out one unit larger than a machine gives would be a different rule.

use vstd::prelude::*;

use vstd::arithmetic::power2::{lemma_pow2_pos, lemma_pow2_unfold, pow2};

verus! {

/// The exponent field of a binary64 number.
pub open spec fn exponent_field(bits: u64) -> int {
    (bits as int / 0x10_0000_0000_0000) % 2048
}

/// The fraction field of a binary64 number.
pub open spec fn fraction_field(bits: u64) -> int {
    bits as int % 0x10_0000_0000_0000
}

/// Whether the sign bit is set.
pub open spec fn is_negative(bits: u64) -> bool {
    bits >= 0x8000_0000_0000_0000
}

/// The integer significand: the number's size is the significand times two to [`scale_of`].
pub open spec fn significand(bits: u64) -> int {
    if exponent_field(bits) == 0 {
        fraction_field(bits)
    } else {
        fraction_field(bits) + 0x10_0000_0000_0000
    }
}

/// The power of two that scales the significand.
pub open spec fn scale_of(bits: u64) -> int {
    if exponent_field(bits) == 0 {
        -1074
    } else {
        exponent_field(bits) - 1075
    }
}

/// How many binary digits `n` has beyond 53.
pub open spec fn excess(n: nat) -> nat
    decreases n,
{
    if n < 0x20_0000_0000_0000 {
        0
    } else {
        1 + excess(n / 2)
    }
}

/// The multiple of `unit` nearest to `n`; of two equally near, the even multiple.
pub open spec fn nearest_multiple(n: nat, unit: nat) -> nat {
    let q = n / unit;
    let r = n % unit;
    if 2 * r > unit || (2 * r == unit && q % 2 == 1) {
        (q + 1) * unit
    } else {
        q * unit
    }
}

/// `n` rounded to 53 binary digits.
pub open spec fn rounded(n: nat) -> nat {
    nearest_multiple(n, pow2(excess(n)))
}

/// The size of the product of the number and `dbu`, before the scale: the exact product of the
/// significands, rounded to 53 binary digits.
pub open spec fn product(bits: u64, dbu: i32) -> nat {
    rounded((significand(bits) * if dbu < 0 {
        -dbu as int
    } else {
        dbu as int
    }) as nat)
}

/// `size` with a sign, at the ends of the range where it does not fit.
pub open spec fn saturated(size: int, negative: bool) -> i32 {
    if negative {
        if size > 0x8000_0000 {
            i32::MIN
        } else {
            (-size) as i32
        }
    } else if size > 0x7fff_ffff {
        i32::MAX
    } else {
        size as i32
    }
}

/// The whole part of `size` times two to `scale`.
pub open spec fn whole_part(size: nat, scale: int) -> int {
    if scale >= 0 {
        (size * pow2(scale as nat)) as int
    } else {
        (size / pow2((-scale) as nat)) as int
    }
}

/// `size` times two to `scale`, to the nearest integer, a half going up.
pub open spec fn half_up(size: nat, scale: int) -> int {
    if scale >= 0 {
        (size * pow2(scale as nat)) as int
    } else {
        ((2 * size + pow2((-scale) as nat)) / pow2((1 - scale) as nat)) as int
    }
}

/// Whether the number is not a number, or its product with `dbu` is none: infinity times zero.
pub open spec fn is_nan_product(bits: u64, dbu: i32) -> bool {
    exponent_field(bits) == 2047 && (fraction_field(bits) != 0 || dbu == 0)
}

/// The database units of a length in microns: the product, cut toward zero.
pub open spec fn dbu_of(bits: u64, dbu: i32) -> i32 {
    let negative = is_negative(bits) != (dbu < 0);
    if is_nan_product(bits, dbu) {
        0
    } else if exponent_field(bits) == 2047 {
        saturated(0x1_0000_0000, negative)
    } else {
        saturated(whole_part(product(bits, dbu), scale_of(bits)), negative)
    }
}

/// The database units nearest to a length in microns, a half going away from zero.
pub open spec fn nearest_dbu(bits: u64, dbu: i32) -> i32 {
    let negative = is_negative(bits) != (dbu < 0);
    if is_nan_product(bits, dbu) {
        0
    } else if exponent_field(bits) == 2047 {
        saturated(0x1_0000_0000, negative)
    } else {
        saturated(half_up(product(bits, dbu), scale_of(bits)), negative)
    }
}

/// `n` rounded to 53 binary digits.
fn round_product(n: u128) -> (r: u128)
    requires
        n <= 0x10_0000_0000_0000_0000_0000,
    ensures
        r == rounded(n as nat),
        r <= 0x40_0000_0000_0000_0000_0000,
{
    let mut t: u128 = n;
    let mut unit: u128 = 1;
    let ghost mut s: nat = 0;
    proof {
        lemma_pow2_zero();
    }
    while t >= 0x20_0000_0000_0000
        invariant
            n <= 0x10_0000_0000_0000_0000_0000,
            t <= n,
            unit == pow2(s),
            unit >= 1,
            t * unit <= n,
            unit == 1 || t >= 1,
            excess(n as nat) == s + excess(t as nat),
        decreases t,
    {
        proof {
            lemma_pow2_unfold(s + 1);
            assert(pow2(s + 1) == 2 * unit);
            assert((t / 2) * (2 * unit) <= t * unit) by (nonlinear_arith)
                requires
                    unit >= 1,
            ;
            assert(2 * unit <= n) by (nonlinear_arith)
                requires
                    t * unit <= n,
                    t >= 2,
                    unit >= 1,
            ;
            s = s + 1;
        }
        t = t / 2;
        unit = unit * 2;
    }
    let q = n / unit;
    let rem = n % unit;
    proof {
        assert(excess(n as nat) == s);
        assert(q * unit + rem == n) by (nonlinear_arith)
            requires
                unit >= 1,
                q == n / unit,
                rem == n % unit,
        ;
        assert(rem < unit) by (nonlinear_arith)
            requires
                unit >= 1,
                rem == n % unit,
        ;
        assert(q * unit <= n);
        assert((q + 1) * unit == q * unit + unit) by (nonlinear_arith);
        assert(unit <= n || unit == 1) by (nonlinear_arith)
            requires
                t * unit <= n,
                t >= 1 || unit == 1,
                unit >= 1,
        ;
    }
    if 2 * rem > unit || (2 * rem == unit && q % 2 == 1) {
        (q + 1) * unit
    } else {
        q * unit
    }
}

/// `n` halved `k` times, whole parts only.
fn halved(n: u128, k: u32) -> (r: u128)
    ensures
        r == n as nat / pow2(k as nat),
        r <= n,
{
    let mut r: u128 = n;
    let mut i: u32 = 0;
    proof {
        lemma_pow2_zero();
        assert(n as nat / 1 == n);
    }
    while i < k
        invariant
            i <= k,
            r <= n,
            r == n as nat / pow2(i as nat),
        decreases k - i,
    {
        proof {
            lemma_pow2_pos(i as nat);
            lemma_pow2_unfold((i + 1) as nat);
            vstd::arithmetic::div_mod::lemma_div_denominator(n as int, pow2(i as nat) as int, 2);
            assert(pow2(i as nat) * 2 == pow2((i + 1) as nat));
        }
        r = r / 2;
        i = i + 1;
    }
    r
}

/// The size of the product, and how many times it has to be halved; none where the result is a
/// whole number too large to hold.
fn scaled_product(bits: u64, dbu: i32) -> (r: Option<(u128, u32)>)
    requires
        exponent_field(bits) != 2047,
    ensures
        match r {
            Some((size, k)) => size == product(bits, dbu) && k == -scale_of(bits) && 0 < k <= 1074
                && size <= 0x40_0000_0000_0000_0000_0000,
            None => scale_of(bits) >= 0,
        },
{
    let field = (bits / 0x10_0000_0000_0000) % 2048;
    let fraction = bits % 0x10_0000_0000_0000;
    if field >= 1075 {
        return None;
    }
    let m = if field == 0 { fraction } else { fraction + 0x10_0000_0000_0000 };
    let k = if field == 0 { 1074 } else { 1075 - field as u32 };
    let d: u128 = if dbu < 0 { (-(dbu as i64)) as u128 } else { dbu as u128 };
    proof {
        assert(0 <= m * d <= 0x10_0000_0000_0000_0000_0000) by (nonlinear_arith)
            requires
                0 <= m <= 0x20_0000_0000_0000,
                0 <= d <= 0x8000_0000,
        ;
    }
    Some((round_product(m as u128 * d), k))
}

fn saturate(size: u128, negative: bool) -> (r: i32)
    ensures
        r == saturated(size as int, negative),
{
    if negative {
        if size > 0x8000_0000 {
            i32::MIN
        } else {
            (-(size as i64)) as i32
        }
    } else if size > 0x7fff_ffff {
        i32::MAX
    } else {
        size as i32
    }
}

/// A large number times anything but zero leaves the range.
pub proof fn lemma_large(bits: u64, dbu: i32)
    requires
        exponent_field(bits) != 2047,
        scale_of(bits) >= 0,
    ensures
        dbu == 0 ==> product(bits, dbu) == 0,
        dbu != 0 ==> product(bits, dbu) > 0x8000_0000,
        product(bits, dbu) * pow2(scale_of(bits) as nat) >= product(bits, dbu),
        dbu == 0 ==> product(bits, dbu) * pow2(scale_of(bits) as nat) == 0,
{
    let m = significand(bits);
    let d = if dbu < 0 { -dbu as int } else { dbu as int };
    let n = (m * d) as nat;
    let e = scale_of(bits) as nat;
    lemma_pow2_pos(e);
    assert(m * d >= 0) by (nonlinear_arith)
        requires
            m >= 0,
            d >= 0,
    ;
    if dbu == 0 {
        assert(n == 0) by (nonlinear_arith)
            requires
                n == m * d,
                d == 0,
        ;
        lemma_pow2_zero();
        assert(excess(0) == 0);
        assert(rounded(0) == 0);
    } else {
        assert(n >= 0x10_0000_0000_0000) by (nonlinear_arith)
            requires
                n == m * d,
                m >= 0x10_0000_0000_0000,
                d >= 1,
        ;
        lemma_rounded_large(n);
    }
    let size = product(bits, dbu);
    assert(size * pow2(e) >= size) by (nonlinear_arith)
        requires
            pow2(e) >= 1,
            size >= 0,
    ;
    assert(size == 0 ==> size * pow2(e) == 0) by (nonlinear_arith);
}

/// Rounding leaves a number with 53 digits or more at least half its size.
proof fn lemma_rounded_large(n: nat)
    requires
        n >= 0x10_0000_0000_0000,
    ensures
        rounded(n) > 0x8000_0000,
{
    let s = excess(n);
    let u = pow2(s);
    lemma_pow2_pos(s);
    lemma_excess_fits(n);
    let q = n / u;
    assert(q * u >= u && q >= 1 && 2 * (q * u) >= n) by (nonlinear_arith)
        requires
            u >= 1,
            n >= u,
            q == n / u,
    ;
    assert((q + 1) * u >= q * u) by (nonlinear_arith)
        requires
            u >= 1,
    ;
}

proof fn lemma_excess_fits(n: nat)
    requires
        n >= 1,
    ensures
        pow2(excess(n)) <= n,
    decreases n,
{
    lemma_pow2_zero();
    if n >= 0x20_0000_0000_0000 {
        lemma_excess_fits(n / 2);
        lemma_pow2_unfold(excess(n));
    }
}

/// The database units of a length in microns, cut toward zero.
///
/// `microns` holds the bits of a binary64 number.
pub fn to_dbu(microns: u64, dbu: i32) -> (r: i32)
    ensures
        r == dbu_of(microns, dbu),
{
    let negative = (microns >= 0x8000_0000_0000_0000) != (dbu < 0);
    let field = (microns / 0x10_0000_0000_0000) % 2048;
    if field == 2047 {
        if microns % 0x10_0000_0000_0000 != 0 || dbu == 0 {
            return 0;
        }
        return saturate(0x1_0000_0000, negative);
    }
    match scaled_product(microns, dbu) {
        Some((size, k)) => saturate(halved(size, k), negative),
        None => {
            proof {
                lemma_large(microns, dbu);
            }
            if dbu == 0 {
                0
            } else {
                saturate(0x1_0000_0000, negative)
            }
        },
    }
}

/// The database units nearest to a length in microns, a half going away from zero.
///
/// `microns` holds the bits of a binary64 number.
pub fn round_dbu(microns: u64, dbu: i32) -> (r: i32)
    ensures
        r == nearest_dbu(microns, dbu),
{
    let negative = (microns >= 0x8000_0000_0000_0000) != (dbu < 0);
    let field = (microns / 0x10_0000_0000_0000) % 2048;
    if field == 2047 {
        if microns % 0x10_0000_0000_0000 != 0 || dbu == 0 {
            return 0;
        }
        return saturate(0x1_0000_0000, negative);
    }
    match scaled_product(microns, dbu) {
        Some((size, k)) => {
            // Half up: the whole part, and one more where the next digit is set.
            let twice = halved(size, k - 1);
            proof {
                lemma_half_up(size as nat, k as nat);
            }
            saturate((twice + 1) / 2, negative)
        },
        None => {
            proof {
                lemma_large(microns, dbu);
            }
            if dbu == 0 {
                0
            } else {
                saturate(0x1_0000_0000, negative)
            }
        },
    }
}

/// Adding a half and cutting is the same as cutting one digit later, adding one and halving.
proof fn lemma_half_up(size: nat, k: nat)
    requires
        k >= 1,
    ensures
        (size / pow2((k - 1) as nat) + 1) / 2 == (2 * size + pow2(k)) / pow2(k + 1),
{
    let u = pow2((k - 1) as nat);
    lemma_pow2_pos((k - 1) as nat);
    lemma_pow2_unfold(k);
    lemma_pow2_unfold(k + 1);
    assert(pow2(k) == 2 * u);
    assert(pow2(k + 1) == 4 * u);
    let t = size / u;
    let r = size % u;
    let q = (t + 1) / 2;
    let b = (t + 1) % 2;
    assert(size == t * u + r && 0 <= r < u) by (nonlinear_arith)
        requires
            u >= 1,
            t == size / u,
            r == size % u,
    ;
    assert(t + 1 == 2 * q + b);
    assert(2 * size + 2 * u == q * (4 * u) + (2 * b * u + 2 * r)) by (nonlinear_arith)
        requires
            size == t * u + r,
            t + 1 == 2 * q + b,
    ;
    assert(0 <= 2 * b * u + 2 * r < 4 * u) by (nonlinear_arith)
        requires
            0 <= b <= 1,
            0 <= r < u,
            u >= 1,
    ;
    vstd::arithmetic::div_mod::lemma_fundamental_div_mod_converse(
        (2 * size + 2 * u) as int,
        (4 * u) as int,
        q as int,
        (2 * b * u + 2 * r) as int,
    );
}

proof fn lemma_pow2_zero()
    ensures
        pow2(0) == 1,
{
    vstd::arithmetic::power2::lemma2_to64();
}

} // verus!
