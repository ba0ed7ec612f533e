//! Which decimal numbers are too large for a double.
//!
//! A decimal number is a significand times a power of ten. Its double is the
//! product of the doubles nearest to the two factors, rounded once more. The
//! product overflows where it reaches the midpoint between the largest finite
//! double and the next power of two. All of this is decided in integers.
use vstd::arithmetic::div_mod::*;
use vstd::arithmetic::mul::*;
use vstd::arithmetic::power::*;
use vstd::arithmetic::power2::*;
use vstd::prelude::*;

verus! {

/// The largest power of ten that is a finite double.
pub const MAX_EXPONENT: i32 = 308;

/// The distance between neighbouring doubles around a natural number, where
/// that is at least one.
pub open spec fn spacing(n: nat) -> nat
    decreases n,
{
    if n < 0x20_0000_0000_0000 {
        1
    } else {
        2 * spacing(n / 2)
    }
}

/// The double nearest to a natural number; of two equally near ones, the one
/// with the even significand.
pub open spec fn nearest_double(n: nat) -> nat {
    let u = spacing(n);
    let q = n / u;
    let r = n % u;
    if 2 * r > u || (2 * r == u && q % 2 == 1) {
        (q + 1) * u
    } else {
        q * u
    }
}

/// The least product that rounds to infinity: half a unit in the last place
/// above the largest finite double.
pub open spec fn overflow_bound() -> int {
    pow2(1024) - pow2(970)
}

/// The power of ten.
pub open spec fn power_of_ten(e: nat) -> nat {
    pow(10, e) as nat
}

/// Whether `significand` times ten to the `exponent` overflows when it is
/// computed in doubles.
pub open spec fn overflows(significand: nat, exponent: int) -> bool {
    &&& significand != 0
    &&& exponent >= 0
    &&& exponent > MAX_EXPONENT || nearest_double(significand) * nearest_double(
        power_of_ten(exponent as nat),
    ) >= overflow_bound()
}

proof fn lemma_spacing(n: nat, k: nat)
    requires
        0x10_0000_0000_0000 * pow2(k) <= n
            < 0x20_0000_0000_0000 * pow2(k),
    ensures
        spacing(n) == pow2(k),
    decreases k,
{
    lemma2_to64();
    if k > 0 {
        lemma_pow2_adds(1, (k - 1) as nat);
        lemma_pow2_pos((k - 1) as nat);
        lemma_spacing(n / 2, (k - 1) as nat);
    }
}

proof fn lemma_spacing_positive(n: nat)
    ensures
        1 <= spacing(n),
        n >= 1 ==> spacing(n) <= n,
    decreases n,
{
    if n >= 0x20_0000_0000_0000 {
        lemma_spacing_positive(n / 2);
    }
}

/// Rounding at most doubles a number.
proof fn lemma_nearest_double_bound(n: nat)
    requires
        n >= 1,
    ensures
        nearest_double(n) <= 2 * n,
{
    lemma_spacing_positive(n);
    let u = spacing(n);
    let q = n / u;
    assert(n == u * q + n % u) by {
        lemma_fundamental_div_mod(n as int, u as int);
    }
    assert(n % u >= 0) by {
        lemma_mod_bound(n as int, u as int);
    }
    assert((q + 1) * u == u * q + u) by (nonlinear_arith);
    assert(q * u == u * q) by (nonlinear_arith);
}

/// The bound as a multiple of two to the 840.
proof fn lemma_overflow_bound()
    ensures
        overflow_bound() == 0xfffffffffffffc00000000000000000000000000000000int * pow2(840),
{
    lemma2_to64();
    lemma2_to64_rest();
    lemma_pow2_adds(64, 64);
    lemma_pow2_adds(128, 56);
    lemma_pow2_adds(184, 840);
    lemma_pow2_adds(128, 2);
    lemma_pow2_adds(130, 840);
    assert(pow2(128) == 0x100000000000000000000000000000000int);
    assert(pow2(184) == 0x10000000000000000000000000000000000000000000000int);
    assert(pow2(130) == 0x400000000000000000000000000000000int);
    let z = pow2(840) as int;
    assert(pow2(1024) == 0x10000000000000000000000000000000000000000000000int * z);
    assert(pow2(970) == 0x400000000000000000000000000000000int * z);
    assert(0x10000000000000000000000000000000000000000000000int * z - 0x400000000000000000000000000000000int * z == 0xfffffffffffffc00000000000000000000000000000000int * z) by (nonlinear_arith);
}

/// How a power of ten known to within `lo` and `hi` units of two to the 840
/// rounds to `m` units of two to the `k`, and from which factor `t` on a
/// product with it overflows.
proof fn lemma_row(e: nat, lo: int, hi: int, m: int, k: nat, s: int, t: int)
    requires
        lo * pow2(840) <= power_of_ten(e) < hi
            * pow2(840),
        k >= 908,
        s == pow2((k - 908) as nat) * 295147905179352825856int,
        0x10_0000_0000_0000 * s <= lo,
        hi <= 0x20_0000_0000_0000 * s,
        (2 * m - 1) * s < 2 * lo,
        2 * hi <= (2 * m + 1) * s,
        m >= 1,
        t >= 1,
        (t - 1) * (m * s) < 0xfffffffffffffc00000000000000000000000000000000int,
        t * (m * s) >= 0xfffffffffffffc00000000000000000000000000000000int,
    ensures
        forall|x: nat| #![trigger x * nearest_double(power_of_ten(e))]
            x >= t <==> x * nearest_double(power_of_ten(e)) >= overflow_bound(),
{
    let z = pow2(840) as int;
    let u = pow2(k) as int;
    let n = power_of_ten(e) as int;
    lemma2_to64();
    lemma_pow2_pos(840);
    // Two to the `k` is `s` times two to the 840.
    lemma_pow2_adds(64, 4);
    lemma_pow2_adds(68, 840);
    lemma_pow2_adds((k - 908) as nat, 908);
    assert(pow2(68) == 295147905179352825856int);
    let j = pow2((k - 908) as nat) as int;
    assert(u == s * z) by (nonlinear_arith)
        requires
            u == j * (295147905179352825856int * z),
            s == j * 295147905179352825856int,
    ;
    lemma_overflow_bound();
    // The spacing there is two to the `k`.
    assert(0x10_0000_0000_0000 * u <= n < 0x20_0000_0000_0000 * u) by (nonlinear_arith)
        requires
            z > 0,
            u == s * z,
            lo * z <= n < hi * z,
            0x10_0000_0000_0000 * s <= lo,
            hi <= 0x20_0000_0000_0000 * s,
    ;
    lemma_spacing(n as nat, k);
    // Between the two midpoints next to `m` units, `m` units are nearest.
    assert((2 * m - 1) * u < 2 * n < (2 * m + 1) * u) by (nonlinear_arith)
        requires
            z > 0,
            u == s * z,
            lo * z <= n < hi * z,
            (2 * m - 1) * s < 2 * lo,
            2 * hi <= (2 * m + 1) * s,
    ;
    lemma_pow2_pos(k);
    let q = if n >= m * u {
        m
    } else {
        m - 1
    };
    assert(n / u == q && n % u == n - q * u) by {
        assert(n == q * u + (n - q * u) && 0 <= n - q * u < u) by (nonlinear_arith)
            requires
                u > 0,
                (2 * m - 1) * u < 2 * n < (2 * m + 1) * u,
                q == (if n >= m * u {
                    m
                } else {
                    m - 1
                }),
        ;
        lemma_fundamental_div_mod_converse(n, u, q, n - q * u);
    }
    assert(nearest_double(n as nat) == m * u) by {
        assert((2 * (n - q * u) < u && q == m) || (2 * (n - q * u) > u && q == m - 1))
            by (nonlinear_arith)
            requires
                (2 * m - 1) * u < 2 * n < (2 * m + 1) * u,
                q == (if n >= m * u {
                    m
                } else {
                    m - 1
                }),
        ;
    }
    assert forall|x: nat| #![trigger x * nearest_double(power_of_ten(e))]
        x >= t <==> x * nearest_double(power_of_ten(e)) >= overflow_bound() by {
        let b: int = 0xfffffffffffffc00000000000000000000000000000000int;
        assert(x >= t <==> x * (m * u) >= b * z) by (nonlinear_arith)
            requires
                z > 0,
                u == s * z,
                s > 0,
                m >= 1,
                x >= 0,
                (t - 1) * (m * s) < b,
                t * (m * s) >= b,
        {
            let w = m * s;
            assert(m * u == w * z);
            assert(x * (w * z) == (x * w) * z);
            if x >= t {
                assert(x * w >= t * w);
                assert((x * w) * z >= b * z);
            } else {
                assert(x * w <= (t - 1) * w);
                assert((x * w) * z < b * z);
            }
        }
    }
}

/// Ten to the 289, and two to the 840 in comparison.
proof fn lemma_ten_to_289()
    ensures
        1363966306503817536229366339855974141int * pow2(840) <= power_of_ten(289) < 1363966306503817536229366339855974142int
            * pow2(840),
        power_of_ten(288) * 10 == power_of_ten(289),
{
    lemma_pow1(10);
    assert(pow(10, 1) == 10);
    lemma_pow_adds(10, 1, 1);
    assert(pow(10, 2) == 100);
    lemma_pow_adds(10, 2, 2);
    assert(pow(10, 4) == 10000);
    lemma_pow_adds(10, 4, 4);
    assert(pow(10, 8) == 100000000);
    lemma_pow_adds(10, 8, 8);
    assert(pow(10, 16) == 10000000000000000);
    lemma_pow_adds(10, 16, 16);
    assert(pow(10, 32) == 100000000000000000000000000000000int);
    lemma_pow_adds(10, 32, 32);
    assert(pow(10, 64) == 10000000000000000000000000000000000000000000000000000000000000000int);
    lemma_pow_adds(10, 64, 64);
    assert(pow(10, 128) == 100000000000000000000000000000000000000000000000000000000000000000000000000000000000000000000000000000000000000000000000000000000int);
    lemma_pow_adds(10, 128, 128);
    assert(pow(10, 256) == 10000000000000000000000000000000000000000000000000000000000000000000000000000000000000000000000000000000000000000000000000000000000000000000000000000000000000000000000000000000000000000000000000000000000000000000000000000000000000000000000000000000000000000int);
    lemma_pow_adds(10, 256, 32);
    assert(pow(10, 288) == 1000000000000000000000000000000000000000000000000000000000000000000000000000000000000000000000000000000000000000000000000000000000000000000000000000000000000000000000000000000000000000000000000000000000000000000000000000000000000000000000000000000000000000000000000000000000000000000000000int);
    lemma_pow_adds(10, 288, 1);
    assert(pow(10, 289) == 10000000000000000000000000000000000000000000000000000000000000000000000000000000000000000000000000000000000000000000000000000000000000000000000000000000000000000000000000000000000000000000000000000000000000000000000000000000000000000000000000000000000000000000000000000000000000000000000000int);
    lemma2_to64();
    lemma_pow2_adds(64, 64);
    assert(pow2(128) == 0x100000000000000000000000000000000int);
    lemma_pow2_adds(128, 128);
    assert(pow2(256) == 0x10000000000000000000000000000000000000000000000000000000000000000int);
    lemma_pow2_adds(256, 256);
    assert(pow2(512) == 0x100000000000000000000000000000000000000000000000000000000000000000000000000000000000000000000000000000000000000000000000000000000int);
    lemma_pow2_adds(512, 256);
    assert(pow2(768) == 0x1000000000000000000000000000000000000000000000000000000000000000000000000000000000000000000000000000000000000000000000000000000000000000000000000000000000000000000000000000000000000000000000000int);
    lemma_pow2_adds(768, 64);
    assert(pow2(832) == 0x10000000000000000000000000000000000000000000000000000000000000000000000000000000000000000000000000000000000000000000000000000000000000000000000000000000000000000000000000000000000000000000000000000000000000000int);
    lemma_pow2_adds(832, 8);
    assert(pow2(840) == 0x1000000000000000000000000000000000000000000000000000000000000000000000000000000000000000000000000000000000000000000000000000000000000000000000000000000000000000000000000000000000000000000000000000000000000000000int);
}

/// The powers of ten from the 289th on, to the same precision.
proof fn lemma_interval(e: nat, lo: int, hi: int)
    requires
        lo * pow2(840) <= power_of_ten(e) < hi
            * pow2(840),
    ensures
        (10 * lo) * pow2(840) <= power_of_ten(e + 1) < (10 * hi)
            * pow2(840),
{
    let z = pow2(840) as int;
    let n = pow(10, e);
    lemma_pow1(10);
    lemma_pow_adds(10, e, 1);
    lemma_pow_positive(10, e);
    assert((10 * lo) * z <= n * 10 < (10 * hi) * z) by (nonlinear_arith)
        requires
            lo * z <= n < hi * z,
    ;
}

/// The table of [`overflow_threshold`].
spec fn threshold(e: nat) -> nat {
    if e == 289 {
        17976931348623156970
    } else if e == 290 {
        1797693134862315697
    } else if e == 291 {
        179769313486231589
    } else if e == 292 {
        17976931348623158
    } else if e == 293 {
        1797693134862316
    } else if e == 294 {
        179769313486232
    } else if e == 295 {
        17976931348624
    } else if e == 296 {
        1797693134863
    } else if e == 297 {
        179769313487
    } else if e == 298 {
        17976931349
    } else if e == 299 {
        1797693135
    } else if e == 300 {
        179769314
    } else if e == 301 {
        17976932
    } else if e == 302 {
        1797694
    } else if e == 303 {
        179770
    } else if e == 304 {
        17977
    } else if e == 305 {
        1798
    } else if e == 306 {
        180
    } else if e == 307 {
        18
    } else {
        2
    }
}

/// The table is right: each entry is the least factor with which the power of
/// ten overflows.
#[verifier::spinoff_prover]
proof fn lemma_thresholds(e: nat)
    requires
        289 <= e <= 308,
    ensures
        forall|x: nat| #![trigger x * nearest_double(power_of_ten(e))]
            x >= threshold(e) <==> x * nearest_double(power_of_ten(e)) >= overflow_bound(),
{
    lemma_ten_to_289();
    lemma2_to64();
    lemma2_to64_rest();
    if e == 289 {
        lemma_row(
            289,
            1363966306503817536229366339855974141int,
            1363966306503817536229366339855974142int,
            4621297602213964,
            908,
            0x100000000000000000int,
            17976931348623156970int,
        );
    }
    lemma_interval(289, 1363966306503817536229366339855974141int, 1363966306503817536229366339855974142int);
    if e == 290 {
        lemma_row(
            290,
            13639663065038175362293663398559741410int,
            13639663065038175362293663398559741420int,
            5776622002767455,
            911,
            0x800000000000000000int,
            1797693134862315697,
        );
    }
    lemma_interval(290, 13639663065038175362293663398559741410int, 13639663065038175362293663398559741420int);
    if e == 291 {
        lemma_row(
            291,
            136396630650381753622936633985597414100int,
            136396630650381753622936633985597414200int,
            7220777503459318,
            914,
            0x4000000000000000000int,
            179769313486231589,
        );
    }
    lemma_interval(291, 136396630650381753622936633985597414100int, 136396630650381753622936633985597414200int);
    if e == 292 {
        lemma_row(
            292,
            1363966306503817536229366339855974141000int,
            1363966306503817536229366339855974142000int,
            4512985939662074,
            918,
            0x40000000000000000000int,
            17976931348623158,
        );
    }
    lemma_interval(292, 1363966306503817536229366339855974141000int, 1363966306503817536229366339855974142000int);
    if e == 293 {
        lemma_row(
            293,
            13639663065038175362293663398559741410000int,
            13639663065038175362293663398559741420000int,
            5641232424577592,
            921,
            0x200000000000000000000int,
            1797693134862316,
        );
    }
    lemma_interval(293, 13639663065038175362293663398559741410000int, 13639663065038175362293663398559741420000int);
    if e == 294 {
        lemma_row(
            294,
            136396630650381753622936633985597414100000int,
            136396630650381753622936633985597414200000int,
            7051540530721991,
            924,
            0x1000000000000000000000int,
            179769313486232,
        );
    }
    lemma_interval(294, 136396630650381753622936633985597414100000int, 136396630650381753622936633985597414200000int);
    if e == 295 {
        lemma_row(
            295,
            1363966306503817536229366339855974141000000int,
            1363966306503817536229366339855974142000000int,
            8814425663402488,
            927,
            0x8000000000000000000000int,
            17976931348624,
        );
    }
    lemma_interval(295, 1363966306503817536229366339855974141000000int, 1363966306503817536229366339855974142000000int);
    if e == 296 {
        lemma_row(
            296,
            13639663065038175362293663398559741410000000int,
            13639663065038175362293663398559741420000000int,
            5509016039626555,
            931,
            0x80000000000000000000000int,
            1797693134863,
        );
    }
    lemma_interval(296, 13639663065038175362293663398559741410000000int, 13639663065038175362293663398559741420000000int);
    if e == 297 {
        lemma_row(
            297,
            136396630650381753622936633985597414100000000int,
            136396630650381753622936633985597414200000000int,
            6886270049533194,
            934,
            0x400000000000000000000000int,
            179769313487,
        );
    }
    lemma_interval(297, 136396630650381753622936633985597414100000000int, 136396630650381753622936633985597414200000000int);
    if e == 298 {
        lemma_row(
            298,
            1363966306503817536229366339855974141000000000int,
            1363966306503817536229366339855974142000000000int,
            8607837561916492,
            937,
            0x2000000000000000000000000int,
            17976931349,
        );
    }
    lemma_interval(298, 1363966306503817536229366339855974141000000000int, 1363966306503817536229366339855974142000000000int);
    if e == 299 {
        lemma_row(
            299,
            13639663065038175362293663398559741410000000000int,
            13639663065038175362293663398559741420000000000int,
            5379898476197808,
            941,
            0x20000000000000000000000000int,
            1797693135,
        );
    }
    lemma_interval(299, 13639663065038175362293663398559741410000000000int, 13639663065038175362293663398559741420000000000int);
    if e == 300 {
        lemma_row(
            300,
            136396630650381753622936633985597414100000000000int,
            136396630650381753622936633985597414200000000000int,
            6724873095247260,
            944,
            0x100000000000000000000000000int,
            179769314,
        );
    }
    lemma_interval(300, 136396630650381753622936633985597414100000000000int, 136396630650381753622936633985597414200000000000int);
    if e == 301 {
        lemma_row(
            301,
            1363966306503817536229366339855974141000000000000int,
            1363966306503817536229366339855974142000000000000int,
            8406091369059075,
            947,
            0x800000000000000000000000000int,
            17976932,
        );
    }
    lemma_interval(301, 1363966306503817536229366339855974141000000000000int, 1363966306503817536229366339855974142000000000000int);
    if e == 302 {
        lemma_row(
            302,
            13639663065038175362293663398559741410000000000000int,
            13639663065038175362293663398559741420000000000000int,
            5253807105661922,
            951,
            0x8000000000000000000000000000int,
            1797694,
        );
    }
    lemma_interval(302, 13639663065038175362293663398559741410000000000000int, 13639663065038175362293663398559741420000000000000int);
    if e == 303 {
        lemma_row(
            303,
            136396630650381753622936633985597414100000000000000int,
            136396630650381753622936633985597414200000000000000int,
            6567258882077402,
            954,
            0x40000000000000000000000000000int,
            179770,
        );
    }
    lemma_interval(303, 136396630650381753622936633985597414100000000000000int, 136396630650381753622936633985597414200000000000000int);
    if e == 304 {
        lemma_row(
            304,
            1363966306503817536229366339855974141000000000000000int,
            1363966306503817536229366339855974142000000000000000int,
            8209073602596752,
            957,
            0x200000000000000000000000000000int,
            17977,
        );
    }
    lemma_interval(304, 1363966306503817536229366339855974141000000000000000int, 1363966306503817536229366339855974142000000000000000int);
    if e == 305 {
        lemma_row(
            305,
            13639663065038175362293663398559741410000000000000000int,
            13639663065038175362293663398559741420000000000000000int,
            5130671001622970,
            961,
            0x2000000000000000000000000000000int,
            1798,
        );
    }
    lemma_interval(305, 13639663065038175362293663398559741410000000000000000int, 13639663065038175362293663398559741420000000000000000int);
    if e == 306 {
        lemma_row(
            306,
            136396630650381753622936633985597414100000000000000000int,
            136396630650381753622936633985597414200000000000000000int,
            6413338752028713,
            964,
            0x10000000000000000000000000000000int,
            180,
        );
    }
    lemma_interval(306, 136396630650381753622936633985597414100000000000000000int, 136396630650381753622936633985597414200000000000000000int);
    if e == 307 {
        lemma_row(
            307,
            1363966306503817536229366339855974141000000000000000000int,
            1363966306503817536229366339855974142000000000000000000int,
            8016673440035891,
            967,
            0x80000000000000000000000000000000int,
            18,
        );
    }
    lemma_interval(307, 1363966306503817536229366339855974141000000000000000000int, 1363966306503817536229366339855974142000000000000000000int);
    if e == 308 {
        lemma_row(
            308,
            13639663065038175362293663398559741410000000000000000000int,
            13639663065038175362293663398559741420000000000000000000int,
            5010420900022432,
            971,
            0x800000000000000000000000000000000int,
            2,
        );
    }
}

/// The least significand, already rounded to a double, that overflows together
/// with a power of ten.
fn overflow_threshold(exponent: i32) -> (t: u64)
    requires
        289 <= exponent <= MAX_EXPONENT,
    ensures
        forall|x: nat| #![trigger x * nearest_double(power_of_ten(exponent as nat))]
            x >= t <==> x * nearest_double(power_of_ten(exponent as nat)) >= overflow_bound(),
{
    proof {
        lemma_thresholds(exponent as nat);
    }
    if exponent == 289 {
        17976931348623156970
    } else if exponent == 290 {
        1797693134862315697
    } else if exponent == 291 {
        179769313486231589
    } else if exponent == 292 {
        17976931348623158
    } else if exponent == 293 {
        1797693134862316
    } else if exponent == 294 {
        179769313486232
    } else if exponent == 295 {
        17976931348624
    } else if exponent == 296 {
        1797693134863
    } else if exponent == 297 {
        179769313487
    } else if exponent == 298 {
        17976931349
    } else if exponent == 299 {
        1797693135
    } else if exponent == 300 {
        179769314
    } else if exponent == 301 {
        17976932
    } else if exponent == 302 {
        1797694
    } else if exponent == 303 {
        179770
    } else if exponent == 304 {
        17977
    } else if exponent == 305 {
        1798
    } else if exponent == 306 {
        180
    } else if exponent == 307 {
        18
    } else {
        2
    }
}

/// Rounds a significand to the nearest double.
fn round_significand(n: u64) -> (r: u128)
    ensures
        r == nearest_double(n as nat),
        r <= 0x1_0000_0000_0000_0000int,
{
    let ghost mut k: nat = 0;
    let mut u: u64 = 1;
    proof {
        lemma2_to64();
    }
    while n / u >= 0x20_0000_0000_0000
        invariant
            1 <= u <= 0x800,
            k <= 11,
            u == pow2(k),
            k == 11 ==> u == 0x800,
            k > 0 ==> n >= 0x10_0000_0000_0000 * u,
        decreases 11 - k,
    {
        proof {
            let q = (n / u) as int;
            assert(n >= q * u) by {
                lemma_fundamental_div_mod(n as int, u as int);
                lemma_mod_bound(n as int, u as int);
                lemma_mul_is_commutative(q, u as int);
            }
            assert(n >= 0x20_0000_0000_0000 * u) by (nonlinear_arith)
                requires
                    n >= q * u,
                    q >= 0x20_0000_0000_0000,
            ;
            assert(k < 11);
            lemma2_to64();
            lemma_pow2_unfold(k + 1);
            if k + 1 < 11 {
                lemma_pow2_strictly_increases(k + 1, 11);
            }
            k = k + 1;
        }
        u = u * 2;
    }
    let q: u64 = n / u;
    let rest: u64 = n % u;
    proof {
        lemma_fundamental_div_mod(n as int, u as int);
        lemma_mod_bound(n as int, u as int);
        assert(n < 0x20_0000_0000_0000 * u) by (nonlinear_arith)
            requires
                n == u * q + rest,
                rest < u,
                q < 0x20_0000_0000_0000,
        ;
        if k > 0 {
            lemma_spacing(n as nat, k);
        } else {
            assert(spacing(n as nat) == 1);
        }
        assert((q + 1) * u <= 0x20_0000_0000_0000 * 0x800) by (nonlinear_arith)
            requires
                q < 0x20_0000_0000_0000,
                1 <= u <= 0x800,
        ;
        assert(q * u <= (q + 1) * u) by (nonlinear_arith)
            requires
                u >= 1,
        ;
    }
    if 2 * rest > u || (2 * rest == u && q % 2 == 1) {
        (q as u128 + 1) * u as u128
    } else {
        q as u128 * u as u128
    }
}

/// Below the table no significand overflows.
proof fn lemma_small_exponents(x: nat, e: nat)
    requires
        x <= 0x1_0000_0000_0000_0000int,
        e < 289,
    ensures
        x * nearest_double(power_of_ten(e)) < overflow_bound(),
{
    let z = pow2(840) as int;
    lemma_ten_to_289();
    lemma_pow_increases(10, e, 288);
    lemma_pow_positive(10, e);
    lemma_nearest_double_bound(power_of_ten(e));
    lemma_overflow_bound();
    lemma_pow2_pos(840);
    let d = nearest_double(power_of_ten(e)) as int;
    assert(x * d <= 0x1_0000_0000_0000_0000int * d) by (nonlinear_arith)
        requires
            x <= 0x1_0000_0000_0000_0000int,
            d >= 0,
    ;
}

/// Whether `significand` times ten to the `exponent` overflows when it is
/// computed in doubles.
pub fn is_overflow(significand: u64, exponent: i32) -> (r: bool)
    ensures
        r == overflows(significand as nat, exponent as int),
{
    if significand == 0 || exponent < 0 {
        return false;
    }
    if exponent > MAX_EXPONENT {
        return true;
    }
    let m: u128 = round_significand(significand);
    if exponent < 289 {
        proof {
            lemma_small_exponents(m as nat, exponent as nat);
        }
        return false;
    }
    let t: u64 = overflow_threshold(exponent);
    assert(m as nat * nearest_double(power_of_ten(exponent as nat)) >= overflow_bound() <==> m >= t);
    m >= t as u128
}

} // verus!
