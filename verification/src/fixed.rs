//! Fixed-point arithmetic for the simulation.
//!
//! Every real-valued quantity of the robot model (positions, angles,
//! velocities, rewards) is carried as an `i64` count of micro-units:
//! the value `1_000_000` stands for `1.0`. All operations round toward
//! zero, and each executable operation is pinned to an exact
//! mathematical specification over `int`.

use vstd::prelude::*;

verus! {

/// Number of micro-units in one whole unit (the fixed-point scale).
pub const SCALE: i64 = 1_000_000;

/// A quarter turn (pi / 2) in micro-radians.
pub const HALF_PI_FX: i64 = 1_570_796;

/// Half turn (pi) in micro-radians, kept an exact double of `HALF_PI_FX`
/// so that quadrant folding is exact.
pub const PI_FX: i64 = 2 * HALF_PI_FX;

/// Full turn (2 pi) in micro-radians.
pub const TWO_PI_FX: i64 = 4 * HALF_PI_FX;

/// `exp(-1)` in micro-units.
pub const INV_E_FX: i64 = 367_879;

/// Absolute value.
pub open spec fn abs_s(x: int) -> int {
    if x < 0 {
        -x
    } else {
        x
    }
}

/// Square.
pub open spec fn sq(x: int) -> int {
    x * x
}

/// Division truncated toward zero, for positive divisors; this is what
/// the executable operations below compute.
pub open spec fn tdiv(a: int, b: int) -> int {
    if a >= 0 {
        a / b
    } else {
        -((-a) / b)
    }
}

/// Remainder of the division truncated toward zero, for positive divisors.
pub open spec fn tmod(a: int, b: int) -> int {
    if a >= 0 {
        a % b
    } else {
        -((-a) % b)
    }
}

/// Fixed-point product: `a * b` rescaled back to micro-units.
pub open spec fn fmul(a: int, b: int) -> int {
    tdiv(a * b, SCALE as int)
}

/// Fixed-point quotient: `a / b` in micro-units, for `b > 0`.
pub open spec fn fdiv(a: int, b: int) -> int {
    tdiv(a * (SCALE as int), b)
}

/// Clamp `v` into `[lo, hi]`.
pub open spec fn clamp_s(v: int, lo: int, hi: int) -> int {
    if v < lo {
        lo
    } else if v > hi {
        hi
    } else {
        v
    }
}

/// `r` is the integer square root of `n`.
pub open spec fn is_isqrt(n: int, r: int) -> bool {
    &&& 0 <= r
    &&& sq(r) <= n
    &&& n < sq(r + 1)
}

/// The integer square root (floor of the real square root).
pub open spec fn isqrt_s(n: int) -> int {
    choose|r: int| is_isqrt(n, r)
}

/// Every nonnegative integer has an integer square root.
pub proof fn lemma_isqrt_exists(n: int)
    requires
        n >= 0,
    ensures
        is_isqrt(n, isqrt_s(n)),
    decreases n,
{
    if n == 0 {
        assert(is_isqrt(0, 0)) by (nonlinear_arith);
    } else {
        lemma_isqrt_exists(n - 1);
        let r = isqrt_s(n - 1);
        if sq(r + 1) <= n {
            assert(n < sq(r + 2)) by (nonlinear_arith)
                requires
                    n - 1 < sq(r + 1),
                    0 <= r,
            ;
            assert(is_isqrt(n, r + 1));
        } else {
            assert(is_isqrt(n, r));
        }
    }
    let w = choose|w: int| is_isqrt(n, w);
    assert(is_isqrt(n, w));
}

/// The integer square root is unique.
pub proof fn lemma_isqrt_unique(n: int, r: int)
    requires
        is_isqrt(n, r),
    ensures
        r == isqrt_s(n),
{
    lemma_isqrt_exists(n);
    let s = isqrt_s(n);
    assert(r == s) by (nonlinear_arith)
        requires
            is_isqrt(n, r),
            is_isqrt(n, s),
    ;
}

/// Squaring is monotone on nonnegative integers.
pub proof fn lemma_sq_le(a: int, b: int)
    requires
        0 <= a <= b,
    ensures
        sq(a) <= sq(b),
{
    assert(a * a <= b * b) by (nonlinear_arith)
        requires
            0 <= a <= b,
    ;
}

/// The integer square root never exceeds a nonnegative integer whose
/// square bounds `n` from above.
pub proof fn lemma_isqrt_le(n: int, r: int, m: int)
    requires
        is_isqrt(n, r),
        0 <= m,
        n < sq(m + 1),
    ensures
        r <= m,
{
    if r > m {
        lemma_sq_le(m + 1, r);
    }
}

/// Clamps `v` into the inclusive range `[lo, hi]`.
pub fn clamp_fx(v: i64, lo: i64, hi: i64) -> (r: i64)
    requires
        lo <= hi,
    ensures
        r == clamp_s(v as int, lo as int, hi as int),
        lo <= r <= hi,
{
    if v < lo {
        lo
    } else if v > hi {
        hi
    } else {
        v
    }
}

/// Fixed-point multiplication, rounding toward zero.
pub fn fp_mul(a: i64, b: i64) -> (r: i64)
    requires
        -0x7fff_ffff_ffff_ffff <= fmul(a as int, b as int) <= 0x7fff_ffff_ffff_ffff,
    ensures
        r == fmul(a as int, b as int),
{
    proof {
        assert((a as int) * (b as int) <= 0x4000_0000_0000_0000_0000_0000_0000_0000int
            && -0x4000_0000_0000_0000_0000_0000_0000_0000int <= (a as int) * (b as int))
            by (nonlinear_arith)
            requires
                -0x8000_0000_0000_0000 <= a as int <= 0x7fff_ffff_ffff_ffff,
                -0x8000_0000_0000_0000 <= b as int <= 0x7fff_ffff_ffff_ffff,
        ;
    }
    let p: i128 = (a as i128) * (b as i128);
    if p >= 0 {
        let q: u128 = (p as u128) / (SCALE as u128);
        proof {
            assert(q == tdiv(p as int, SCALE as int));
            assert(q <= 0x7fff_ffff_ffff_ffff);
        }
        q as i64
    } else {
        let m: u128 = ((-p) as u128) / (SCALE as u128);
        proof {
            assert(m == (-(p as int)) / (SCALE as int));
            assert(tdiv(p as int, SCALE as int) == -(m as int));
            assert(m <= 0x7fff_ffff_ffff_ffff);
        }
        -(m as i64)
    }
}

/// Fixed-point division by a positive divisor, rounding toward zero.
pub fn fp_div(a: i64, b: i64) -> (r: i64)
    requires
        b >= 1,
        -0x7fff_ffff_ffff_ffff <= fdiv(a as int, b as int) <= 0x7fff_ffff_ffff_ffff,
    ensures
        r == fdiv(a as int, b as int),
{
    if a >= 0 {
        let p: u128 = (a as u128) * (SCALE as u128);
        let q: u128 = p / (b as u128);
        proof {
            assert(q == ((a as int) * (SCALE as int)) / (b as int));
            assert(q <= 0x7fff_ffff_ffff_ffff);
        }
        q as i64
    } else {
        let p: u128 = ((-(a as i128)) as u128) * (SCALE as u128);
        let q: u128 = p / (b as u128);
        proof {
            assert((-(a as int)) * (SCALE as int) == -((a as int) * (SCALE as int)));
            assert(q == (-((a as int) * (SCALE as int))) / (b as int));
            assert(fdiv(a as int, b as int) == -(q as int));
            assert(q <= 0x7fff_ffff_ffff_ffff);
        }
        -(q as i64)
    }
}

/// Integer square root by bisection.
pub fn isqrt(n: u128) -> (r: u64)
    requires
        n < 0x4000_0000_0000_0000_0000_0000_0000_0000,
    ensures
        is_isqrt(n as int, r as int),
        r as int == isqrt_s(n as int),
{
    let mut lo: u64 = 0;
    let mut hi: u64 = 0x8000_0000_0000_0000;
    proof {
        assert(sq(0x8000_0000_0000_0000int) == 0x4000_0000_0000_0000_0000_0000_0000_0000int)
            by (nonlinear_arith);
    }
    while lo + 1 < hi
        invariant
            lo < hi <= 0x8000_0000_0000_0000,
            sq(lo as int) <= n as int,
            (n as int) < sq(hi as int),
        decreases hi - lo,
    {
        let mid: u64 = lo + (hi - lo) / 2;
        proof {
            assert((mid as int) * (mid as int) <= 0x4000_0000_0000_0000_0000_0000_0000_0000int)
                by (nonlinear_arith)
                requires
                    0 <= mid as int <= 0x8000_0000_0000_0000,
            ;
        }
        let m2: u128 = (mid as u128) * (mid as u128);
        if m2 <= n {
            lo = mid;
        } else {
            hi = mid;
        }
    }
    proof {
        assert(hi == lo + 1);
        lemma_isqrt_unique(n as int, lo as int);
    }
    lo
}

/// Square root of `sq(x) + sq(y)`, the Euclidean length of `(x, y)`,
/// in micro-units.
pub fn fp_hypot(x: i64, y: i64) -> (r: i64)
    requires
        abs_s(x as int) <= 2_000_000_000_000_000_000,
        abs_s(y as int) <= 2_000_000_000_000_000_000,
    ensures
        is_isqrt(sq(x as int) + sq(y as int), r as int),
        r as int == isqrt_s(sq(x as int) + sq(y as int)),
        0 <= r,
{
    let xm: u64 = if x >= 0 {
        x as u64
    } else {
        (-(x as i128)) as u64
    };
    let ym: u64 = if y >= 0 {
        y as u64
    } else {
        (-(y as i128)) as u64
    };
    proof {
        assert(sq(xm as int) == sq(x as int) && sq(xm as int)
            <= 4_000_000_000_000_000_000_000_000_000_000_000_000int) by (nonlinear_arith)
            requires
                xm == abs_s(x as int),
                xm <= 2_000_000_000_000_000_000,
        ;
        assert(sq(ym as int) == sq(y as int) && sq(ym as int)
            <= 4_000_000_000_000_000_000_000_000_000_000_000_000int) by (nonlinear_arith)
            requires
                ym == abs_s(y as int),
                ym <= 2_000_000_000_000_000_000,
        ;
    }
    let n: u128 = (xm as u128) * (xm as u128) + (ym as u128) * (ym as u128);
    let r: u64 = isqrt(n);
    proof {
        assert(sq(3_000_000_000_000_000_000int) == 9_000_000_000_000_000_000_000_000_000_000_000_000int)
            by (nonlinear_arith);
        lemma_isqrt_le(n as int, r as int, 2_999_999_999_999_999_999int);
    }
    r as i64
}

/// The magnitude of a truncated quotient by a positive divisor.
pub proof fn lemma_tdiv_abs(p: int, c: int)
    requires
        c >= 1,
    ensures
        abs_s(tdiv(p, c)) == abs_s(p) / c,
{
    if p >= 0 {
        vstd::arithmetic::div_mod::lemma_div_pos_is_pos(p, c);
    } else {
        vstd::arithmetic::div_mod::lemma_div_pos_is_pos(-p, c);
    }
}

/// Bounds a fixed-point product from bounds on its factors.
pub proof fn lemma_fmul_bound(a: int, b: int, la: int, lb: int)
    requires
        abs_s(a) <= la,
        abs_s(b) <= lb,
    ensures
        abs_s(fmul(a, b)) <= (la * lb) / (SCALE as int),
{
    assert(abs_s(a * b) <= la * lb) by (nonlinear_arith)
        requires
            abs_s(a) <= la,
            abs_s(b) <= lb,
    ;
    lemma_tdiv_abs(a * b, SCALE as int);
    vstd::arithmetic::div_mod::lemma_div_is_ordered(abs_s(a * b), la * lb, SCALE as int);
}

/// Bounds a fixed-point quotient from a bound on the dividend and a
/// lower bound on the divisor.
pub proof fn lemma_fdiv_bound(a: int, b: int, la: int, lb: int)
    requires
        abs_s(a) <= la,
        1 <= lb <= b,
    ensures
        abs_s(fdiv(a, b)) <= (la * (SCALE as int)) / lb,
{
    let p = a * (SCALE as int);
    assert(abs_s(p) == abs_s(a) * (SCALE as int));
    lemma_tdiv_abs(p, b);
    vstd::arithmetic::div_mod::lemma_div_is_ordered_by_denominator(abs_s(p), lb, b);
    vstd::arithmetic::div_mod::lemma_div_is_ordered(abs_s(p), la * (SCALE as int), lb);
}

/// Taylor polynomial for the cosine on the first quadrant, in
/// micro-units; the argument is a micro-radian angle in `[0, pi/2]`.
pub open spec fn cos_quarter_s(t: int) -> int {
    let sc = SCALE as int;
    let t2 = (t * t) / sc;
    let t4 = (t2 * t2) / sc;
    let t6 = (t4 * t2) / sc;
    let t8 = (t6 * t2) / sc;
    let t10 = (t8 * t2) / sc;
    let pos = sc + t4 / 24 + t8 / 40320;
    let neg = t2 / 2 + t6 / 720 + t10 / 3628800;
    clamp_s(pos - neg, 0, sc)
}

/// Taylor polynomial for the sine on the first quadrant, in
/// micro-units; the argument is a micro-radian angle in `[0, pi/2]`.
pub open spec fn sin_quarter_s(t: int) -> int {
    let sc = SCALE as int;
    let t2 = (t * t) / sc;
    let t3 = (t2 * t) / sc;
    let t5 = (t3 * t2) / sc;
    let t7 = (t5 * t2) / sc;
    let t9 = (t7 * t2) / sc;
    let pos = t + t5 / 120 + t9 / 362880;
    let neg = t3 / 6 + t7 / 5040;
    clamp_s(pos - neg, 0, sc)
}

/// Cosine of a micro-radian angle, by quadrant folding of the
/// Euclidean remainder modulo a full turn.
pub open spec fn cos_s(x: int) -> int {
    let m = x % (TWO_PI_FX as int);
    if m <= HALF_PI_FX {
        cos_quarter_s(m)
    } else if m <= PI_FX {
        -cos_quarter_s(PI_FX - m)
    } else if m <= PI_FX + HALF_PI_FX {
        -cos_quarter_s(m - PI_FX)
    } else {
        cos_quarter_s(TWO_PI_FX - m)
    }
}

/// Sine of a micro-radian angle, by quadrant folding of the
/// Euclidean remainder modulo a full turn.
pub open spec fn sin_s(x: int) -> int {
    let m = x % (TWO_PI_FX as int);
    if m <= HALF_PI_FX {
        sin_quarter_s(m)
    } else if m <= PI_FX {
        sin_quarter_s(PI_FX - m)
    } else if m <= PI_FX + HALF_PI_FX {
        -sin_quarter_s(m - PI_FX)
    } else {
        -sin_quarter_s(TWO_PI_FX - m)
    }
}

/// Bounds a rescaled product of nonnegative bounded factors.
pub proof fn lemma_mul_div_bound(a: int, b: int, la: int, lb: int)
    requires
        0 <= a <= la,
        0 <= b <= lb,
    ensures
        0 <= a * b <= la * lb,
        0 <= (a * b) / 1_000_000 <= (la * lb) / 1_000_000,
{
    assert(0 <= a * b <= la * lb) by (nonlinear_arith)
        requires
            0 <= a <= la,
            0 <= b <= lb,
    ;
    vstd::arithmetic::div_mod::lemma_div_is_ordered(a * b, la * lb, 1_000_000);
    vstd::arithmetic::div_mod::lemma_div_pos_is_pos(a * b, 1_000_000);
}

fn cos_quarter(t: u64) -> (r: i64)
    requires
        t <= 1_570_796,
    ensures
        r == cos_quarter_s(t as int),
        0 <= r <= SCALE,
{
    proof {
        lemma_mul_div_bound(t as int, t as int, 1_570_796, 1_570_796);
    }
    let t2: u64 = t * t / 1_000_000;
    proof {
        lemma_mul_div_bound(t2 as int, t2 as int, 2_467_400, 2_467_400);
    }
    let t4: u64 = t2 * t2 / 1_000_000;
    proof {
        lemma_mul_div_bound(t4 as int, t2 as int, 6_088_062, 2_467_400);
    }
    let t6: u64 = t4 * t2 / 1_000_000;
    proof {
        lemma_mul_div_bound(t6 as int, t2 as int, 15_021_684, 2_467_400);
    }
    let t8: u64 = t6 * t2 / 1_000_000;
    proof {
        lemma_mul_div_bound(t8 as int, t2 as int, 37_064_503, 2_467_400);
    }
    let t10: u64 = t8 * t2 / 1_000_000;
    let pos: u64 = 1_000_000 + t4 / 24 + t8 / 40320;
    let neg: u64 = t2 / 2 + t6 / 720 + t10 / 3628800;
    clamp_fx((pos as i64) - (neg as i64), 0, SCALE)
}

fn sin_quarter(t: u64) -> (r: i64)
    requires
        t <= 1_570_796,
    ensures
        r == sin_quarter_s(t as int),
        0 <= r <= SCALE,
{
    proof {
        lemma_mul_div_bound(t as int, t as int, 1_570_796, 1_570_796);
    }
    let t2: u64 = t * t / 1_000_000;
    proof {
        lemma_mul_div_bound(t2 as int, t as int, 2_467_400, 1_570_796);
    }
    let t3: u64 = t2 * t / 1_000_000;
    proof {
        lemma_mul_div_bound(t3 as int, t2 as int, 3_875_782, 2_467_400);
    }
    let t5: u64 = t3 * t2 / 1_000_000;
    proof {
        lemma_mul_div_bound(t5 as int, t2 as int, 9_563_104, 2_467_400);
    }
    let t7: u64 = t5 * t2 / 1_000_000;
    proof {
        lemma_mul_div_bound(t7 as int, t2 as int, 23_596_002, 2_467_400);
    }
    let t9: u64 = t7 * t2 / 1_000_000;
    let pos: u64 = t + t5 / 120 + t9 / 362880;
    let neg: u64 = t3 / 6 + t7 / 5040;
    clamp_fx((pos as i64) - (neg as i64), 0, SCALE)
}

/// Euclidean remainder of a micro-radian angle by a full turn; the
/// result lies in `[0, TWO_PI_FX)`.
fn angle_mod_2pi(x: i64) -> (r: i64)
    ensures
        r == (x as int) % (TWO_PI_FX as int),
        0 <= r < TWO_PI_FX,
{
    if x >= 0 {
        let r: u64 = (x as u64) % (TWO_PI_FX as u64);
        r as i64
    } else {
        let nx: u128 = (-(x as i128)) as u128;
        let m: u64 = (nx % (TWO_PI_FX as u128)) as u64;
        proof {
            let tp = TWO_PI_FX as int;
            let nxi = -(x as int);
            vstd::arithmetic::div_mod::lemma_fundamental_div_mod(nxi, tp);
            let q0 = nxi / tp;
            assert(nxi == tp * q0 + m);
            if m == 0 {
                assert((x as int) == (-q0) * tp + 0) by (nonlinear_arith)
                    requires
                        nxi == tp * q0 + 0,
                        nxi == -(x as int),
                ;
                vstd::arithmetic::div_mod::lemma_fundamental_div_mod_converse(
                    x as int, tp, -q0, 0);
            } else {
                assert((x as int) == (-q0 - 1) * tp + (tp - m)) by (nonlinear_arith)
                    requires
                        nxi == tp * q0 + m,
                        nxi == -(x as int),
                ;
                vstd::arithmetic::div_mod::lemma_fundamental_div_mod_converse(
                    x as int, tp, -q0 - 1, tp - m);
            }
        }
        if m == 0 {
            0
        } else {
            TWO_PI_FX - (m as i64)
        }
    }
}

/// Cosine of a micro-radian angle, in micro-units.
pub fn fp_cos(x: i64) -> (r: i64)
    requires
        x > i64::MIN,
    ensures
        r == cos_s(x as int),
        -SCALE <= r <= SCALE,
{
    let m = angle_mod_2pi(x);
    if m <= HALF_PI_FX {
        cos_quarter(m as u64)
    } else if m <= PI_FX {
        -cos_quarter((PI_FX - m) as u64)
    } else if m <= PI_FX + HALF_PI_FX {
        -cos_quarter((m - PI_FX) as u64)
    } else {
        cos_quarter((TWO_PI_FX - m) as u64)
    }
}

/// Sine of a micro-radian angle, in micro-units.
pub fn fp_sin(x: i64) -> (r: i64)
    requires
        x > i64::MIN,
    ensures
        r == sin_s(x as int),
        -SCALE <= r <= SCALE,
{
    let m = angle_mod_2pi(x);
    if m <= HALF_PI_FX {
        sin_quarter(m as u64)
    } else if m <= PI_FX {
        sin_quarter((PI_FX - m) as u64)
    } else if m <= PI_FX + HALF_PI_FX {
        -sin_quarter((m - PI_FX) as u64)
    } else {
        -sin_quarter((TWO_PI_FX - m) as u64)
    }
}

/// Remainder of a micro-radian angle by a half turn, truncated toward
/// zero as the hardware remainder operator rounds.
pub fn fp_mod_pi(x: i64) -> (r: i64)
    requires
        x > i64::MIN,
    ensures
        r == tmod(x as int, PI_FX as int),
        -PI_FX < r < PI_FX,
{
    if x >= 0 {
        let r: u64 = (x as u64) % (PI_FX as u64);
        r as i64
    } else {
        let m: u64 = (((-(x as i128)) as u64)) % (PI_FX as u64);
        -(m as i64)
    }
}

/// `exp(-1)` raised to the power `n`, accumulated in micro-units.
pub open spec fn pow_inv_e(n: nat) -> int
    decreases n,
{
    if n == 0 {
        SCALE as int
    } else {
        (pow_inv_e((n - 1) as nat) * (INV_E_FX as int)) / (SCALE as int)
    }
}

/// The accumulated powers of `exp(-1)` stay within `[0, SCALE]`.
pub proof fn lemma_pow_inv_e_bounds(n: nat)
    ensures
        0 <= pow_inv_e(n) <= SCALE,
    decreases n,
{
    if n > 0 {
        lemma_pow_inv_e_bounds((n - 1) as nat);
        let p = pow_inv_e((n - 1) as nat);
        assert(0 <= p * (INV_E_FX as int) <= 1_000_000int * 367_879int) by (nonlinear_arith)
            requires
                0 <= p <= 1_000_000,
        ;
    }
}

/// Taylor polynomial for `exp(-f)` with `f` in `[0, SCALE)` micro-units.
pub open spec fn exp_frac_s(f: int) -> int {
    let sc = SCALE as int;
    let f2 = (f * f) / sc;
    let f3 = (f2 * f) / sc;
    let f4 = (f3 * f) / sc;
    let f5 = (f4 * f) / sc;
    let f6 = (f5 * f) / sc;
    let f7 = (f6 * f) / sc;
    let f8 = (f7 * f) / sc;
    let pos = sc + f2 / 2 + f4 / 24 + f6 / 720 + f8 / 40320;
    let neg = f + f3 / 6 + f5 / 120 + f7 / 5040;
    clamp_s(pos - neg, 0, sc)
}

/// `exp(-d)` for a nonnegative micro-unit argument; zero beyond the
/// point where the true value rounds below one micro-unit.
pub open spec fn exp_neg_s(d: int) -> int {
    let sc = SCALE as int;
    if d >= 14 * sc {
        0
    } else {
        (pow_inv_e((d / sc) as nat) * exp_frac_s(d % sc)) / sc
    }
}

fn exp_frac(f: u64) -> (r: i64)
    requires
        f < 1_000_000,
    ensures
        r == exp_frac_s(f as int),
        0 <= r <= SCALE,
{
    proof {
        lemma_mul_div_bound(f as int, f as int, 999_999, 999_999);
    }
    let f2: u64 = f * f / 1_000_000;
    proof {
        lemma_mul_div_bound(f2 as int, f as int, 999_998, 999_999);
    }
    let f3: u64 = f2 * f / 1_000_000;
    proof {
        lemma_mul_div_bound(f3 as int, f as int, 999_997, 999_999);
    }
    let f4: u64 = f3 * f / 1_000_000;
    proof {
        lemma_mul_div_bound(f4 as int, f as int, 999_996, 999_999);
    }
    let f5: u64 = f4 * f / 1_000_000;
    proof {
        lemma_mul_div_bound(f5 as int, f as int, 999_995, 999_999);
    }
    let f6: u64 = f5 * f / 1_000_000;
    proof {
        lemma_mul_div_bound(f6 as int, f as int, 999_994, 999_999);
    }
    let f7: u64 = f6 * f / 1_000_000;
    proof {
        lemma_mul_div_bound(f7 as int, f as int, 999_993, 999_999);
    }
    let f8: u64 = f7 * f / 1_000_000;
    let pos: u64 = 1_000_000 + f2 / 2 + f4 / 24 + f6 / 720 + f8 / 40320;
    let neg: u64 = f + f3 / 6 + f5 / 120 + f7 / 5040;
    clamp_fx((pos as i64) - (neg as i64), 0, SCALE)
}

/// `exp(-d)` in micro-units for a nonnegative micro-unit argument.
pub fn fp_exp_neg(d: i64) -> (r: i64)
    requires
        d >= 0,
    ensures
        r == exp_neg_s(d as int),
        0 <= r <= SCALE,
        d == 0 ==> r == SCALE,
{
    if d >= 14 * SCALE {
        return 0;
    }
    let n: u64 = (d as u64) / 1_000_000;
    let f: u64 = (d as u64) % 1_000_000;
    let mut en: u64 = 1_000_000;
    let mut i: u64 = 0;
    while i < n
        invariant
            i <= n <= 13,
            en == pow_inv_e(i as nat),
            en <= 1_000_000,
        decreases n - i,
    {
        proof {
            lemma_mul_div_bound(en as int, 367_879int, 1_000_000, 367_879);
        }
        en = en * 367_879 / 1_000_000;
        i = i + 1;
    }
    let ef: i64 = exp_frac(f);
    proof {
        lemma_mul_div_bound(en as int, ef as int, 1_000_000, 1_000_000);
        if d == 0 {
            assert(pow_inv_e(0nat) == SCALE as int);
            assert(exp_frac_s(0) == SCALE as int);
            assert(exp_neg_s(0) == (1_000_000int * 1_000_000int) / 1_000_000int);
        }
    }
    let r: u64 = en * (ef as u64) / 1_000_000;
    r as i64
}

/// The fixed-point exponential stays within `[0, SCALE]`, is exactly
/// `SCALE` at zero, and vanishes beyond its cutoff.
pub proof fn lemma_exp_neg_bounds(d: int)
    requires
        d >= 0,
    ensures
        0 <= exp_neg_s(d) <= SCALE as int,
        d == 0 ==> exp_neg_s(d) == SCALE as int,
        d >= 14 * (SCALE as int) ==> exp_neg_s(d) == 0,
{
    let sc = SCALE as int;
    if d < 14 * sc {
        let n = (d / sc) as nat;
        vstd::arithmetic::div_mod::lemma_div_pos_is_pos(d, sc);
        lemma_pow_inv_e_bounds(n);
        let ef = exp_frac_s(d % sc);
        assert(0 <= ef <= sc);
        lemma_mul_div_bound(pow_inv_e(n), ef, sc, sc);
        if d == 0 {
            broadcast use vstd::arithmetic::mul::lemma_mul_by_zero_is_zero;

            assert(pow_inv_e(0nat) == sc);
            assert(exp_frac_s(0) == sc);
        }
    }
}

/// Each component of a vector is bounded by the vector's length.
pub proof fn lemma_component_le_norm(x: int, y: int, r: int)
    requires
        is_isqrt(sq(x) + sq(y), r),
    ensures
        abs_s(x) <= r,
        abs_s(y) <= r,
{
    assert(sq(abs_s(x)) == sq(x) && sq(abs_s(y)) == sq(y) && sq(x) >= 0 && sq(y) >= 0)
        by (nonlinear_arith);
    if abs_s(x) > r {
        lemma_sq_le(r + 1, abs_s(x));
    }
    if abs_s(y) > r {
        lemma_sq_le(r + 1, abs_s(y));
    }
}

/// A component divided by a length that bounds it is a unit-scale
/// quantity.
pub proof fn lemma_unit_component(a: int, b: int)
    requires
        abs_s(a) <= b,
        b >= 1,
    ensures
        abs_s(fdiv(a, b)) <= SCALE as int,
{
    let sc = SCALE as int;
    lemma_tdiv_abs(a * sc, b);
    assert(abs_s(a * sc) == abs_s(a) * sc);
    vstd::arithmetic::div_mod::lemma_div_is_ordered(abs_s(a) * sc, b * sc, b);
    vstd::arithmetic::div_mod::lemma_div_multiples_vanish(sc, b);
}

} // verus!
