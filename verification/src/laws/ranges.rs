//! Laws of the numbers that are too large.
use crate::range;
use vstd::arithmetic::div_mod::*;
use vstd::arithmetic::mul::*;
use vstd::arithmetic::power::*;
use vstd::arithmetic::power2::*;
use vstd::prelude::*;

verus! {

/// Whether two to the `k` is the distance between doubles around `n`: a
/// double has fifty-three binary digits, and no unit is less than one.
pub open spec fn unit(n: nat, k: nat) -> bool {
    &&& n < 0x20_0000_0000_0000 * pow2(k)
    &&& k > 0 ==> n >= 0x10_0000_0000_0000 * pow2(k)
}

/// Whether `d` is the multiple of `u` nearest to `n`, and the even one of two
/// that are equally near.
pub open spec fn nearest(n: nat, d: nat, u: nat) -> bool {
    let off = if d < n {
        n - d
    } else {
        d - n
    };
    &&& d % u == 0
    &&& 2 * off <= u
    &&& 2 * off == u ==> (d / u) % 2 == 0
}

proof fn lemma_unit(n: nat) -> (k: nat)
    ensures
        unit(n, k),
        range::spacing(n) == pow2(k),
        pow2(k) > 0,
    decreases n,
{
    lemma2_to64();
    if n < 0x20_0000_0000_0000 {
        0
    } else {
        let k = lemma_unit(n / 2);
        lemma_pow2_unfold(k + 1);
        k + 1
    }
}

/// The double nearest to a natural number is just that.
pub proof fn law_nearest_double(n: nat) -> (k: nat)
    ensures
        unit(n, k),
        nearest(n, range::nearest_double(n), pow2(k)),
{
    let k = lemma_unit(n);
    let u = pow2(k);
    let q = n / u;
    let r = n % u;
    lemma_fundamental_div_mod(n as int, u as int);
    lemma_mul_is_commutative(q as int, u as int);
    lemma_mod_multiples_basic(q as int, u as int);
    lemma_mod_multiples_basic((q + 1) as int, u as int);
    lemma_div_by_multiple(q as int, u as int);
    lemma_div_by_multiple((q + 1) as int, u as int);
    assert((q + 1) * u == q * u + u) by (nonlinear_arith);
    lemma_mod_bound(n as int, u as int);
    k
}

/// A number is too large where its significand and its power of ten, each as
/// the double nearest to it, have a product that is nearer to two to the
/// 1024th than to the largest finite double, or just between them.
pub proof fn law_overflow(significand: nat, exponent: int)
    ensures
        range::overflows(significand, exponent) <==> significand > 0 && exponent >= 0 && (exponent
            > 308 || range::nearest_double(significand) * range::nearest_double(
            pow(10, exponent as nat) as nat,
        ) >= pow2(1024) - pow2(970)),
{
}

/// Doubles are precise to one part in two to the fifty-third.
proof fn lemma_near(n: nat)
    ensures
        range::nearest_double(n) * 0x20_0000_0000_0000 <= n * 0x20_0000_0000_0001,
        range::nearest_double(n) * 0x20_0000_0000_0000 >= n * 0x1f_ffff_ffff_ffff,
{
    let k = law_nearest_double(n);
    let d = range::nearest_double(n);
    if k == 0 {
        lemma2_to64();
        assert(d == n);
    }
}

/// No number is refused whose magnitude is below the bound by more than
/// doubles are imprecise, and none is accepted that is above it by as much.
pub proof fn law_bound(significand: nat, exponent: nat)
    ensures
        ({
            let x = significand * pow(10, exponent);
            let bound = (pow2(1024) - pow2(970)) * (0x20_0000_0000_0000 * 0x20_0000_0000_0000);
            &&& exponent <= 308 && x * (0x20_0000_0000_0001 * 0x20_0000_0000_0001) < bound
                ==> !range::overflows(significand, exponent as int)
            &&& significand > 0 && x * (0x1f_ffff_ffff_ffff * 0x1f_ffff_ffff_ffff) >= bound
                ==> range::overflows(significand, exponent as int)
        }),
{
    lemma_pow_positive(10, exponent);
    let t = pow(10, exponent) as nat;
    let a = range::nearest_double(significand);
    let b = range::nearest_double(t);
    lemma_near(significand);
    lemma_near(t);
    let m: int = 0x20_0000_0000_0000;
    let h: int = 0x20_0000_0000_0001;
    let l: int = 0x1f_ffff_ffff_ffff;
    let s = significand as int;
    let c = pow2(1024) - pow2(970);
    assert((a * m) * (b * m) <= (s * h) * (t * h)) by (nonlinear_arith)
        requires
            0 <= a * m <= s * h,
            0 <= b * m <= t * h,
    ;
    assert((a * m) * (b * m) >= (s * l) * (t * l)) by (nonlinear_arith)
        requires
            0 <= s * l <= a * m,
            0 <= t * l <= b * m,
    ;
    assert((a * m) * (b * m) == (a * b) * (m * m)) by (nonlinear_arith);
    assert((s * h) * (t * h) == (s * t) * (h * h)) by (nonlinear_arith);
    assert((s * l) * (t * l) == (s * t) * (l * l)) by (nonlinear_arith);
    if (s * t) * (h * h) < c * (m * m) {
        assert(a * b < c) by (nonlinear_arith)
            requires
                (a * b) * (m * m) < c * (m * m),
                m > 0,
        ;
    }
    if (s * t) * (l * l) >= c * (m * m) {
        assert(a * b >= c) by (nonlinear_arith)
            requires
                (a * b) * (m * m) >= c * (m * m),
                m > 0,
        ;
    }
}

/// Zero, and what a power of ten divides, is never too large; one with any
/// other significand is if its power of ten is.
pub proof fn law_extremes(significand: nat, exponent: int)
    ensures
        significand == 0 || exponent < 0 ==> !range::overflows(significand, exponent),
        significand > 0 && exponent > 308 ==> range::overflows(significand, exponent),
{
}

} // verus!
