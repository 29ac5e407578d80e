//! What a length is in database units, told from the number that its 64 bits stand for.

use vstd::prelude::*;

use vstd::arithmetic::power2::{
    lemma_pow2_adds, lemma_pow2_pos, lemma_pow2_strictly_increases, lemma_pow2_unfold, pow2,
};

use crate::area::area_of;
use crate::dbu::{
    dbu_of, excess, exponent_field, fraction_field, half_up, is_negative, lemma_large, nearest_dbu,
    nearest_multiple, product, rounded, scale_of, significand, whole_part,
};
use crate::geometry::Rect;

verus! {

/// Whether the binary64 number of these bits is `n` divided by two to `k`, with this sign: the sign
/// bit, the exponent field with its bias of 1023, and the digits of `n` after the first.
pub open spec fn encodes(bits: u64, negative: bool, n: nat, k: nat) -> bool {
    exists|e: nat| #[trigger] encodes_from(bits, negative, n, k, e)
}

/// The same, where the first digit of `n` stands for two to `e`.
pub open spec fn encodes_from(bits: u64, negative: bool, n: nat, k: nat, e: nat) -> bool {
    &&& e <= 52
    &&& pow2(e) <= n < pow2(e + 1)
    &&& 1 <= 1023 + e - k
    &&& bits == (if negative {
        0x8000_0000_0000_0000int
    } else {
        0
    }) + (1023 + e - k) * 0x10_0000_0000_0000 + (n - pow2(e)) * pow2((52 - e) as nat)
}

/// The size of a scale.
pub open spec fn size_of(dbu: i32) -> nat {
    (if dbu < 0 {
        -dbu
    } else {
        dbu as int
    }) as nat
}

/// A whole number with its sign, or the end of the range on its side.
pub open spec fn clamped(size: int, negative: bool) -> int {
    let v = if negative {
        -size
    } else {
        size
    };
    if v < i32::MIN {
        i32::MIN as int
    } else if v > i32::MAX {
        i32::MAX as int
    } else {
        v
    }
}

/// The parts of the number.
proof fn lemma_encodes(bits: u64, negative: bool, n: nat, k: nat, e: nat)
    requires
        encodes_from(bits, negative, n, k, e),
    ensures
        exponent_field(bits) == 1023 + e - k,
        significand(bits) == n * pow2((52 - e) as nat),
        scale_of(bits) == e - k - 52,
        is_negative(bits) == negative,
{
    let t = (52 - e) as nat;
    let p = pow2(t);
    let f = (n - pow2(e)) * p;
    lemma_pow2_pos(t);
    lemma_pow2_adds(e, t);
    lemma_pow2_adds(e + 1, t);
    vstd::arithmetic::power2::lemma2_to64();
    lemma_pow2_adds(32, 20);
    assert(pow2(52) == 0x10_0000_0000_0000);
    assert(pow2(53) == 0x20_0000_0000_0000) by {
        lemma_pow2_unfold(53);
    }
    assert(f == n * p - pow2(e) * p) by (nonlinear_arith)
        requires
            f == (n - pow2(e)) * p,
    ;
    assert(n * p < pow2(e + 1) * p) by (nonlinear_arith)
        requires
            n < pow2(e + 1),
            p >= 1,
    ;
    assert(f >= 0) by (nonlinear_arith)
        requires
            f == (n - pow2(e)) * p,
            n >= pow2(e),
            p >= 1,
    ;
    assert(0 <= f < 0x10_0000_0000_0000);
    let x = 1023 + e - k;
    assert(1 <= x <= 1075);
    let b = bits as int;
    let unit = 0x10_0000_0000_0000int;
    let hi = if negative {
        2048 + x
    } else {
        x as int
    };
    assert(b == hi * unit + f);
    assert(b / unit == hi && b % unit == f);
}

/// Rounding twice a number is twice rounding it.
proof fn lemma_rounded_twice(n: nat)
    ensures
        rounded(2 * n) == 2 * rounded(n),
{
    vstd::arithmetic::power2::lemma2_to64();
    if n >= 0x20_0000_0000_0000 {
        let s = excess(n);
        assert(excess(2 * n) == 1 + s);
        let u = pow2(s);
        lemma_pow2_pos(s);
        lemma_pow2_unfold(s + 1);
        let q = n / u;
        let r = n % u;
        assert(n == q * u + r && 0 <= r < u) by (nonlinear_arith)
            requires
                u >= 1,
                q == n / u,
                r == n % u,
        ;
        assert(2 * n == q * (2 * u) + 2 * r) by (nonlinear_arith)
            requires
                n == q * u + r,
        ;
        vstd::arithmetic::div_mod::lemma_fundamental_div_mod_converse(
            2 * n as int,
            2 * u as int,
            q as int,
            2 * r as int,
        );
        assert(2 * ((q + 1) * u) == (q + 1) * (2 * u)) by (nonlinear_arith);
        assert(2 * (q * u) == q * (2 * u)) by (nonlinear_arith);
    } else {
        assert(excess(n) == 0);
        lemma_exact(n);
        if 2 * n >= 0x20_0000_0000_0000 {
            assert(excess(2 * n) == 1 + excess(n)) by {
                assert(2 * n / 2 == n);
            }
            assert(pow2(1) == 2);
            assert((2 * n) % 2 == 0 && (2 * n) / 2 == n);
            assert(nearest_multiple(2 * n, 2) == n * 2);
        } else {
            lemma_exact(2 * n);
        }
    }
}

/// A number of 53 digits stays as it is.
proof fn lemma_exact(n: nat)
    requires
        n < 0x20_0000_0000_0000,
    ensures
        rounded(n) == n,
{
    vstd::arithmetic::power2::lemma2_to64();
    assert(excess(n) == 0);
    assert(n / 1 == n && n % 1 == 0);
    assert(n * 1 == n);
}

/// Rounding a number times a power of two.
proof fn lemma_rounded_scaled(n: nat, t: nat)
    ensures
        rounded(n * pow2(t)) == rounded(n) * pow2(t),
    decreases t,
{
    vstd::arithmetic::power2::lemma2_to64();
    if t > 0 {
        let u = pow2((t - 1) as nat);
        lemma_rounded_scaled(n, (t - 1) as nat);
        lemma_pow2_unfold(t);
        lemma_rounded_twice(n * u);
        assert(n * (2 * u) == 2 * (n * u)) by (nonlinear_arith);
        assert(rounded(n) * (2 * u) == 2 * (rounded(n) * u)) by (nonlinear_arith);
    } else {
        assert(n * 1 == n && rounded(n) * 1 == rounded(n));
    }
}

/// The product of the number and the scale is the product of `n` and the scale, rounded.
proof fn lemma_product(bits: u64, negative: bool, n: nat, k: nat, e: nat, dbu: i32)
    requires
        encodes_from(bits, negative, n, k, e),
    ensures
        product(bits, dbu) == rounded(n * size_of(dbu)) * pow2((52 - e) as nat),
{
    let t = (52 - e) as nat;
    let p = pow2(t);
    let d = size_of(dbu);
    lemma_encodes(bits, negative, n, k, e);
    assert((n * p) * d == (n * d) * p) by (nonlinear_arith);
    assert((n * d) * p >= 0) by (nonlinear_arith)
        requires
            n >= 0,
            d >= 0,
            p >= 0,
    ;
    lemma_rounded_scaled(n * d, t);
}

/// The database units of a length are its product with the scale, rounded to 53 digits as a machine
/// does, and cut toward zero; at the end of the range where they do not fit.
pub proof fn law_cut_toward_zero(bits: u64, negative: bool, n: nat, k: nat, dbu: i32, units: nat)
    requires
        encodes(bits, negative, n, k),
        units * pow2(k) <= rounded(n * size_of(dbu)) < (units + 1) * pow2(k),
    ensures
        dbu_of(bits, dbu) == clamped(units as int, negative != (dbu < 0)),
{
    let e = choose|e: nat| #[trigger] encodes_from(bits, negative, n, k, e);
    lemma_encodes(bits, negative, n, k, e);
    lemma_product(bits, negative, n, k, e, dbu);
    vstd::arithmetic::power2::lemma2_to64();
    let t = (52 - e) as nat;
    let (p, u) = (pow2(t), pow2(k));
    let r = rounded(n * size_of(dbu));
    lemma_pow2_pos(t);
    lemma_pow2_pos(k);
    lemma_pow2_adds(k, t);
    let scale = scale_of(bits);
    assert(scale == -(k + t));
    if scale == 0 {
        assert(t == 0 && k == 0);
        assert(units == r && r * p == r) by (nonlinear_arith)
            requires
                u == 1,
                p == 1,
                units * u <= r < (units + 1) * u,
        ;
        assert(pow2(0) == 1 && r * 1 == r);
    } else {
        assert(pow2((-scale) as nat) == u * p);
        let left = r - units * u;
        assert((units + 1) * u == units * u + u) by (nonlinear_arith);
        assert(r * p == units * (u * p) + left * p) by (nonlinear_arith)
            requires
                left == r - units * u,
        ;
        assert(0 <= left * p < u * p) by (nonlinear_arith)
            requires
                0 <= left < u,
                p >= 1,
        ;
        vstd::arithmetic::div_mod::lemma_fundamental_div_mod_converse(
            (r * p) as int,
            (u * p) as int,
            units as int,
            left * p,
        );
    }
    assert(whole_part(product(bits, dbu), scale) == units);
}

/// The database units nearest to a length are its product with the scale, rounded to 53 digits as a
/// machine does, and then to the nearest whole number, a half going away from zero.
pub proof fn law_nearest_unit(bits: u64, negative: bool, n: nat, k: nat, dbu: i32, units: nat)
    requires
        encodes(bits, negative, n, k),
        (2 * units - 1) * pow2(k) <= 2 * rounded(n * size_of(dbu)) < (2 * units + 1) * pow2(k),
    ensures
        nearest_dbu(bits, dbu) == clamped(units as int, negative != (dbu < 0)),
{
    let e = choose|e: nat| #[trigger] encodes_from(bits, negative, n, k, e);
    lemma_encodes(bits, negative, n, k, e);
    lemma_product(bits, negative, n, k, e, dbu);
    vstd::arithmetic::power2::lemma2_to64();
    let t = (52 - e) as nat;
    let (p, u) = (pow2(t), pow2(k));
    let r = rounded(n * size_of(dbu));
    lemma_pow2_pos(t);
    lemma_pow2_pos(k);
    lemma_pow2_adds(k, t);
    let scale = scale_of(bits);
    assert(scale == -(k + t));
    if scale == 0 {
        assert(t == 0 && k == 0);
        assert(units == r && r * p == r) by (nonlinear_arith)
            requires
                u == 1,
                p == 1,
                (2 * units - 1) * u <= 2 * r < (2 * units + 1) * u,
        ;
        assert(pow2(0) == 1 && r * 1 == r);
    } else {
        assert(pow2((-scale) as nat) == u * p);
        lemma_pow2_unfold((1 - scale) as nat);
        assert(pow2((1 - scale) as nat) == 2 * (u * p));
        let left = 2 * r + u - 2 * units * u;
        assert((2 * units - 1) * u == 2 * units * u - u) by (nonlinear_arith);
        assert((2 * units + 1) * u == 2 * units * u + u) by (nonlinear_arith);
        assert(2 * (r * p) + u * p == units * (2 * (u * p)) + left * p) by (nonlinear_arith)
            requires
                left == 2 * r + u - 2 * units * u,
        ;
        assert(0 <= left * p < 2 * (u * p)) by (nonlinear_arith)
            requires
                0 <= left < 2 * u,
                p >= 1,
        ;
        vstd::arithmetic::div_mod::lemma_fundamental_div_mod_converse(
            (2 * (r * p) + u * p) as int,
            (2 * (u * p)) as int,
            units as int,
            left * p,
        );
    }
    assert(half_up(product(bits, dbu), scale) == units);
}

/// Whole microns are exact: a whole number of microns is that number times the scale in database
/// units, in both conversions, wherever the product fits.
pub proof fn law_whole_microns(bits: u64, negative: bool, n: nat, dbu: i32)
    requires
        encodes(bits, negative, n, 0),
        ({
            let v = if negative {
                -(n * dbu)
            } else {
                n * dbu
            };
            i32::MIN <= v <= i32::MAX
        }),
    ensures
        dbu_of(bits, dbu) == if negative {
            -(n * dbu)
        } else {
            n * dbu
        },
        nearest_dbu(bits, dbu) == dbu_of(bits, dbu),
{
    let d = size_of(dbu);
    let units = n * d;
    assert(n * dbu == if dbu < 0 {
        -(n * d)
    } else {
        (n * d) as int
    }) by (nonlinear_arith)
        requires
            d == if dbu < 0 {
                -dbu as int
            } else {
                dbu as int
            },
    ;
    assert(units >= 0) by (nonlinear_arith)
        requires
            units == n * d,
            n >= 0,
            d >= 0,
    ;
    lemma_exact(units);
    vstd::arithmetic::power2::lemma2_to64();
    assert(units * 1 == units && (units + 1) * 1 == units + 1);
    assert((2 * units - 1) * 1 == 2 * units - 1 && (2 * units + 1) * 1 == 2 * units + 1);
    law_cut_toward_zero(bits, negative, n, 0, dbu, units);
    law_nearest_unit(bits, negative, n, 0, dbu, units);
}

/// How far apart two numbers are.
pub open spec fn distance(a: int, b: int) -> int {
    if a < b {
        b - a
    } else {
        a - b
    }
}

/// How many digits are cut.
proof fn lemma_excess(n: nat)
    ensures
        n < 0x20_0000_0000_0000 * pow2(excess(n)),
        excess(n) > 0 ==> n >= 0x10_0000_0000_0000 * pow2(excess(n)),
    decreases n,
{
    vstd::arithmetic::power2::lemma2_to64();
    if n >= 0x20_0000_0000_0000 {
        lemma_excess(n / 2);
        lemma_pow2_unfold(excess(n));
        if n / 2 < 0x20_0000_0000_0000 {
            assert(excess(n / 2) == 0);
        }
    }
}

/// A multiple of `u` is no nearer to `n` than the nearest one, and another one as near is odd.
proof fn lemma_multiples(n: nat, u: nat, c: nat)
    requires
        u > 0,
    ensures
        ({
            let m = nearest_multiple(n, u);
            let q = n / u;
            &&& distance(m as int, n as int) <= distance((c * u) as int, n as int)
            &&& distance(m as int, n as int) <= n - q * u
            &&& q * u <= n
            &&& m == q * u || m == (q + 1) * u
            &&& c * u != m && distance(m as int, n as int) == distance((c * u) as int, n as int) ==> {
                ||| m == q * u && q % 2 == 0 && c == q + 1
                ||| m == (q + 1) * u && q % 2 == 1 && c == q
            }
        }),
{
    let q = n / u;
    let r = n % u;
    assert(n == q * u + r && 0 <= r < u) by (nonlinear_arith)
        requires
            u > 0,
            q == n / u,
            r == n % u,
    ;
    assert((q + 1) * u == q * u + u) by (nonlinear_arith);
    if c < q {
        assert(c * u + u <= q * u) by (nonlinear_arith)
            requires
                c + 1 <= q,
        ;
    } else if c > q + 1 {
        assert(c * u >= (q + 1) * u + u) by (nonlinear_arith)
            requires
                c >= q + 2,
        ;
    }
}

/// The product is rounded as a machine does: no number of 53 digits, scaled by a power of two, is
/// nearer, and of two equally near ones it is the one whose last digit is even.
pub proof fn law_rounded_is_nearest(n: nat, a: nat, j: nat)
    requires
        a < 0x20_0000_0000_0000,
    ensures
        ({
            let m = rounded(n);
            let other = a * pow2(j);
            &&& distance(m as int, n as int) <= distance(other as int, n as int)
            &&& exists|b: nat, i: nat|
                b < 0x20_0000_0000_0000 && m == #[trigger] (b * pow2(i))
            &&& other != m && distance(m as int, n as int) == distance(other as int, n as int) ==> exists|
                b: nat,
                i: nat,
            |
                m == 2 * #[trigger] (b * pow2(i)) && (other == m + pow2(i) || other == m - pow2(i))
        }),
{
    let s = excess(n);
    let u = pow2(s);
    let m = rounded(n);
    let other = a * pow2(j);
    let q = n / u;
    vstd::arithmetic::power2::lemma2_to64();
    lemma_pow2_pos(s);
    lemma_pow2_pos(j);
    lemma_pow2_unfold(s + 1);
    lemma_excess(n);
    lemma_multiples(n, u, 0);
    assert(q < 0x20_0000_0000_0000) by (nonlinear_arith)
        requires
            q * u <= n,
            n < 0x20_0000_0000_0000 * u,
            u > 0,
    ;
    // It has 53 digits.
    if m == q * u {
        assert(m == q * pow2(s));
    } else if q + 1 < 0x20_0000_0000_0000 {
        assert(m == (q + 1) as nat * pow2(s));
    } else {
        assert((q + 1) * u == ((q + 1) / 2) * (2 * u)) by (nonlinear_arith)
            requires
                q + 1 == 0x20_0000_0000_0000,
        ;
        assert(m == ((q + 1) / 2) as nat * pow2(s + 1));
    }
    if s == 0 {
        assert(u == 1);
        lemma_exact(n);
    } else if j >= s {
        let c = a * pow2((j - s) as nat);
        lemma_pow2_adds(s, (j - s) as nat);
        assert(c * u == other) by (nonlinear_arith)
            requires
                c == a * pow2((j - s) as nat),
                pow2(j) == u * pow2((j - s) as nat),
                other == a * pow2(j),
        ;
        lemma_multiples(n, u, c);
        if other != m && distance(m as int, n as int) == distance(other as int, n as int) {
            assert((q + 1) * u == q * u + u) by (nonlinear_arith);
            if m == q * u {
                let b = (q / 2) as nat;
                assert(q * u == 2 * (b * u)) by (nonlinear_arith)
                    requires
                        q == 2 * b,
                ;
                assert(m == 2 * (b * pow2(s)));
            } else {
                let b = ((q + 1) / 2) as nat;
                assert((q + 1) * u == 2 * (b * u)) by (nonlinear_arith)
                    requires
                        q + 1 == 2 * b,
                ;
                assert(m == 2 * (b * pow2(s)));
            }
        }
    } else {
        let w = pow2(j);
        lemma_pow2_adds(j + 1, (s - j - 1) as nat);
        lemma_pow2_pos((s - j - 1) as nat);
        lemma_pow2_unfold(j + 1);
        assert(u >= 2 * w) by (nonlinear_arith)
            requires
                u == (2 * w) * pow2((s - j - 1) as nat),
                pow2((s - j - 1) as nat) >= 1,
                w >= 1,
        ;
        assert(other < 0x10_0000_0000_0000 * u) by (nonlinear_arith)
            requires
                other == a * w,
                a < 0x20_0000_0000_0000,
                u >= 2 * w,
                w >= 1,
        ;
        assert(q >= 0x10_0000_0000_0000) by (nonlinear_arith)
            requires
                n >= 0x10_0000_0000_0000 * u,
                q == n / u,
                u > 0,
        ;
        assert(q * u >= 0x10_0000_0000_0000 * u) by (nonlinear_arith)
            requires
                q >= 0x10_0000_0000_0000,
                u > 0,
        ;
    }
}

/// No microns are no database units.
pub proof fn law_no_microns(bits: u64, dbu: i32)
    requires
        bits == 0 || bits == 0x8000_0000_0000_0000,
    ensures
        dbu_of(bits, dbu) == 0,
        nearest_dbu(bits, dbu) == 0,
{
    assert(exponent_field(bits) == 0 && fraction_field(bits) == 0);
    assert(0 * size_of(dbu) == 0);
    lemma_exact(0);
    assert(product(bits, dbu) == 0);
    let k = 1074nat;
    lemma_pow2_pos(k);
    lemma_pow2_unfold(k + 1);
    let u = pow2(k);
    assert(0nat / u == 0) by (nonlinear_arith)
        requires
            u > 0,
    ;
    assert((2 * 0 + u) / (2 * u) == 0) by (nonlinear_arith)
        requires
            u > 0,
    ;
}

/// Whether the number of these bits is the whole number `n`.
pub open spec fn is_whole_number(bits: u64, n: int) -> bool {
    if n == 0 {
        bits == 0 || bits == 0x8000_0000_0000_0000
    } else if n < 0 {
        encodes(bits, true, (-n) as nat, 0)
    } else {
        encodes(bits, false, n as nat, 0)
    }
}

/// Whether a rectangle has these sides.
pub open spec fn has_sides(r: Rect, x0: int, y0: int, x1: int, y1: int) -> bool {
    r.x0 == x0 && r.y0 == y0 && r.x1 == x1 && r.y1 == y1
}

/// One side of the area.
proof fn lemma_whole_side(bits: u64, n: int, dbu: i32)
    requires
        is_whole_number(bits, n),
        i32::MIN <= n * dbu <= i32::MAX,
    ensures
        nearest_dbu(bits, dbu) == n * dbu,
        dbu_of(bits, dbu) == n * dbu,
{
    if n == 0 {
        law_no_microns(bits, dbu);
    } else if n < 0 {
        assert(-((-n) * dbu) == n * dbu) by (nonlinear_arith);
        law_whole_microns(bits, true, (-n) as nat, dbu);
    } else {
        law_whole_microns(bits, false, n as nat, dbu);
    }
}

/// An area in whole microns is exact at every scale: each side is its number of microns times the
/// scale. A scale twice as large gives sides twice as large.
pub proof fn law_area_scales(numbers: Seq<u64>, x0: int, y0: int, x1: int, y1: int, dbu: i32, twice: i32)
    requires
        numbers.len() == 4,
        is_whole_number(numbers[0], x0),
        is_whole_number(numbers[1], y0),
        is_whole_number(numbers[2], x1),
        is_whole_number(numbers[3], y1),
        i32::MIN <= x0 * dbu <= i32::MAX,
        i32::MIN <= y0 * dbu <= i32::MAX,
        i32::MIN <= x1 * dbu <= i32::MAX,
        i32::MIN <= y1 * dbu <= i32::MAX,
    ensures
        area_of(numbers, dbu) matches Some(r) && has_sides(
            r,
            x0 * dbu,
            y0 * dbu,
            x1 * dbu,
            y1 * dbu,
        ),
        twice == 2 * dbu && i32::MIN <= x0 * twice <= i32::MAX && i32::MIN <= y0 * twice <= i32::MAX
            && i32::MIN <= x1 * twice <= i32::MAX && i32::MIN <= y1 * twice <= i32::MAX ==> {
            let r = area_of(numbers, dbu)->0;
            area_of(numbers, twice) matches Some(t) && has_sides(
                t,
                2 * r.x0,
                2 * r.y0,
                2 * r.x1,
                2 * r.y1,
            )
        },
{
    lemma_whole_side(numbers[0], x0, dbu);
    lemma_whole_side(numbers[1], y0, dbu);
    lemma_whole_side(numbers[2], x1, dbu);
    lemma_whole_side(numbers[3], y1, dbu);
    if twice == 2 * dbu && i32::MIN <= x0 * twice <= i32::MAX && i32::MIN <= y0 * twice <= i32::MAX
        && i32::MIN <= x1 * twice <= i32::MAX && i32::MIN <= y1 * twice <= i32::MAX {
        lemma_whole_side(numbers[0], x0, twice);
        lemma_whole_side(numbers[1], y0, twice);
        lemma_whole_side(numbers[2], x1, twice);
        lemma_whole_side(numbers[3], y1, twice);
        assert(x0 * twice == 2 * (x0 * dbu)) by (nonlinear_arith)
            requires
                twice == 2 * dbu,
        ;
        assert(y0 * twice == 2 * (y0 * dbu)) by (nonlinear_arith)
            requires
                twice == 2 * dbu,
        ;
        assert(x1 * twice == 2 * (x1 * dbu)) by (nonlinear_arith)
            requires
                twice == 2 * dbu,
        ;
        assert(y1 * twice == 2 * (y1 * dbu)) by (nonlinear_arith)
            requires
                twice == 2 * dbu,
        ;
    }
}

/// Each side of an area is the database units nearest to its own number: left, bottom, right and top
/// in that order; and only four numbers make an area.
pub proof fn law_area_sides(numbers: Seq<u64>, dbu: i32)
    ensures
        area_of(numbers, dbu) is Some <==> numbers.len() == 4,
        area_of(numbers, dbu) matches Some(r) ==> has_sides(
            r,
            nearest_dbu(numbers[0], dbu) as int,
            nearest_dbu(numbers[1], dbu) as int,
            nearest_dbu(numbers[2], dbu) as int,
            nearest_dbu(numbers[3], dbu) as int,
        ),
{
}

/// The ends of the numbers: infinity and every number of two to the 52nd or more are beyond the range
/// on the side of their sign, at any scale but zero; what is no number, and everything at the scale
/// zero, is no database units; and so are the numbers below the smallest normal one.
pub proof fn law_ends_of_numbers(bits: u64, dbu: i32)
    ensures
        ({
            let size = bits % 0x8000_0000_0000_0000;
            let negative = (bits >= 0x8000_0000_0000_0000) != (dbu < 0);
            &&& size > 0x7ff0_0000_0000_0000 ==> dbu_of(bits, dbu) == 0 && nearest_dbu(bits, dbu) == 0
            &&& dbu == 0 ==> dbu_of(bits, dbu) == 0 && nearest_dbu(bits, dbu) == 0
            &&& 0x4330_0000_0000_0000 <= size <= 0x7ff0_0000_0000_0000 && dbu != 0 ==> {
                let end = if negative {
                    i32::MIN
                } else {
                    i32::MAX
                };
                dbu_of(bits, dbu) == end && nearest_dbu(bits, dbu) == end
            }
            &&& size < 0x10_0000_0000_0000 ==> dbu_of(bits, dbu) == 0 && nearest_dbu(bits, dbu) == 0
        }),
{
    let size = bits % 0x8000_0000_0000_0000;
    let d = size_of(dbu);
    vstd::arithmetic::power2::lemma2_to64();
    assert(exponent_field(bits) == size as int / 0x10_0000_0000_0000);
    assert(fraction_field(bits) == size as int % 0x10_0000_0000_0000);
    if exponent_field(bits) < 2047 {
        let scale = scale_of(bits);
        if scale >= 0 {
            lemma_large(bits, dbu);
        } else {
            let j = (-scale) as nat;
            let u = pow2(j);
            lemma_pow2_pos(j);
            lemma_pow2_unfold(j + 1);
            let m = significand(bits);
            if dbu == 0 {
                assert(m * 0 == 0);
                lemma_exact(0);
                assert(0nat / u == 0 && (2 * 0 + u) / (2 * u) == 0) by (nonlinear_arith)
                    requires
                        u > 0,
                ;
            } else if size < 0x10_0000_0000_0000 {
                let n = (m * d) as nat;
                assert(0 <= m * d <= 0x10_0000_0000_0000 * 0x8000_0000) by (nonlinear_arith)
                    requires
                        0 <= m < 0x10_0000_0000_0000,
                        0 <= d <= 0x8000_0000,
                ;
                // Zero is a number of 53 digits, and no nearer.
                law_rounded_is_nearest(n, 0, 0);
                let r = rounded(n);
                assert(0 * pow2(0) == 0);
                assert(r <= 2 * n);
                lemma_pow2_adds(64, 32);
                lemma_pow2_strictly_increases(96, 1074);
                assert(r / u == 0 && (2 * r + u) / (2 * u) == 0) by (nonlinear_arith)
                    requires
                        u > 0,
                        2 * r < u,
                ;
            } else if size >= 0x4330_0000_0000_0000 {
                assert(false);
            }
        }
    }
}

} // verus!
