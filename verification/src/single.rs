//! Binary32 numbers, held by their encoding, with every operation computed on whole
//! numbers: an operation gives the exact result rounded to nearest, ties to even.
use crate::rounding::{
    exponent, lemma_encoding_parts, lemma_floor_below, lemma_magnitude_monotone,
    lemma_nearest_bounds, lemma_nearest_scale, lemma_nearest_unique, lemma_quantum,
    lemma_quantum_fraction, lemma_quantum_unique, lemma_round_exact, lemma_round_scale, magnitude,
    nearest, quantum, round_bits, significand, INFINITY_BITS,
};
use vstd::arithmetic::power2::{
    lemma2_to64, lemma2_to64_rest, lemma_pow2_adds, lemma_pow2_pos, lemma_pow2_strictly_increases,
    lemma_pow2_unfold, pow2,
};
use vstd::prelude::*;

verus! {

/// A binary32 number: sign, exponent and fraction in one word.
#[derive(Clone, Copy, Debug)]
pub struct Single {
    pub bits: u32,
}

impl Single {
    /// Whether the sign is set.
    pub open spec fn negative(self) -> bool {
        self.bits >= 0x8000_0000
    }

    /// The encoding without the sign.
    pub open spec fn unsigned(self) -> nat {
        if self.bits >= 0x8000_0000 {
            (self.bits - 0x8000_0000) as nat
        } else {
            self.bits as nat
        }
    }

    pub open spec fn is_nan(self) -> bool {
        self.unsigned() > INFINITY_BITS
    }

    pub open spec fn is_infinite(self) -> bool {
        self.unsigned() == INFINITY_BITS
    }

    pub open spec fn is_finite(self) -> bool {
        self.unsigned() < INFINITY_BITS
    }

    pub open spec fn is_zero(self) -> bool {
        self.unsigned() == 0
    }

    /// The value of a finite number, in units of 2^-149.
    pub open spec fn units(self) -> int {
        if self.negative() {
            -(magnitude(self.unsigned()) as int)
        } else {
            magnitude(self.unsigned()) as int
        }
    }

    /// The place of a number in the order of numbers; both zeros have place zero.
    pub open spec fn rank(self) -> int {
        if self.negative() {
            -(self.unsigned() as int)
        } else {
            self.unsigned() as int
        }
    }
}

/// The number with sign `neg` and unsigned encoding `b`.
pub open spec fn signed(neg: bool, b: nat) -> Single {
    Single {
        bits: (if neg {
            0x8000_0000 + b
        } else {
            b
        }) as u32,
    }
}

/// What an operation without a result gives.
pub open spec fn quiet_nan() -> Single {
    Single { bits: 0x7fc0_0000 }
}

/// The size of an integer.
pub open spec fn size(v: int) -> nat {
    if v < 0 {
        (-v) as nat
    } else {
        v as nat
    }
}

pub open spec fn fneg(x: Single) -> Single {
    signed(!x.negative(), x.unsigned())
}

pub open spec fn fabs(x: Single) -> Single {
    signed(false, x.unsigned())
}

/// The sum.
#[verifier::opaque]
pub open spec fn fadd(x: Single, y: Single) -> Single {
    if x.is_nan() || y.is_nan() {
        quiet_nan()
    } else if x.is_infinite() {
        if y.is_infinite() && x.negative() != y.negative() {
            quiet_nan()
        } else {
            x
        }
    } else if y.is_infinite() {
        y
    } else {
        let v: int = x.units() + y.units();
        let neg = if v == 0 {
            x.negative() && y.negative()
        } else {
            v < 0
        };
        signed(neg, round_bits(size(v), 1))
    }
}

/// The difference.
pub open spec fn fsub(x: Single, y: Single) -> Single {
    fadd(x, fneg(y))
}

/// The product. A product of units counts steps of 2^-298.
#[verifier::opaque]
pub open spec fn fmul(x: Single, y: Single) -> Single {
    let neg = x.negative() != y.negative();
    if x.is_nan() || y.is_nan() || (x.is_infinite() && y.is_zero()) || (x.is_zero()
        && y.is_infinite()) {
        quiet_nan()
    } else if x.is_infinite() || y.is_infinite() {
        signed(neg, INFINITY_BITS as nat)
    } else {
        signed(neg, round_bits(magnitude(x.unsigned()) * magnitude(y.unsigned()), pow2(149)))
    }
}

/// The quotient.
#[verifier::opaque]
pub open spec fn fdiv(x: Single, y: Single) -> Single {
    let neg = x.negative() != y.negative();
    if x.is_nan() || y.is_nan() || (x.is_infinite() && y.is_infinite()) || (x.is_zero()
        && y.is_zero()) {
        quiet_nan()
    } else if x.is_infinite() || y.is_zero() {
        signed(neg, INFINITY_BITS as nat)
    } else if y.is_infinite() {
        signed(neg, 0)
    } else {
        signed(neg, round_bits(magnitude(x.unsigned()) * pow2(149), magnitude(y.unsigned())))
    }
}

/// The whole part of the square root of `s`.
pub open spec fn root_floor(s: nat) -> nat
    decreases s,
{
    if s == 0 {
        0
    } else {
        let r: nat = 2 * root_floor(s / 4);
        if (r + 1) * (r + 1) <= s {
            r + 1
        } else {
            r
        }
    }
}

/// The whole number nearest to the square root of `s` over `g`, ties to even.
pub open spec fn nearest_root(s: nat, g: nat) -> nat {
    let f: nat = root_floor(s / (g * g));
    let half: nat = (2 * f + 1) * (2 * f + 1) * (g * g);
    if 4 * s < half || (4 * s == half && f % 2 == 0) {
        f
    } else {
        f + 1
    }
}

/// The square root. The root of `units * 2^149` counts units.
#[verifier::opaque]
pub open spec fn fsqrt(x: Single) -> Single {
    if x.is_nan() || x.is_zero() {
        if x.is_nan() {
            quiet_nan()
        } else {
            x
        }
    } else if x.negative() {
        quiet_nan()
    } else if x.is_infinite() {
        x
    } else {
        let s: nat = magnitude(x.unsigned()) * pow2(149);
        let k: nat = quantum(root_floor(s));
        let b: nat = k * 0x80_0000 + nearest_root(s, pow2(k));
        signed(
            false,
            if b < INFINITY_BITS {
                b
            } else {
                INFINITY_BITS as nat
            },
        )
    }
}

/// The remainder of the division that drops the fraction; it has the sign of `x`.
#[verifier::opaque]
pub open spec fn frem(x: Single, y: Single) -> Single {
    if x.is_nan() || y.is_nan() || x.is_infinite() || y.is_zero() {
        quiet_nan()
    } else if y.is_infinite() {
        x
    } else {
        signed(
            x.negative(),
            round_bits(magnitude(x.unsigned()) % magnitude(y.unsigned()), 1),
        )
    }
}

/// The remainder moved into the range from zero to the size of `y`.
pub open spec fn frem_euclid(x: Single, y: Single) -> Single {
    let r = frem(x, y);
    if flt(r, zero()) {
        fadd(r, fabs(y))
    } else {
        r
    }
}

pub open spec fn zero() -> Single {
    Single { bits: 0 }
}

pub open spec fn flt(x: Single, y: Single) -> bool {
    !x.is_nan() && !y.is_nan() && x.rank() < y.rank()
}

pub open spec fn fle(x: Single, y: Single) -> bool {
    !x.is_nan() && !y.is_nan() && x.rank() <= y.rank()
}

/// The larger number; the other one where one is not a number.
pub open spec fn fmax(x: Single, y: Single) -> Single {
    if x.is_nan() || flt(x, y) {
        y
    } else {
        x
    }
}

/// `x` moved into the range from `lo` to `hi`; what is not a number stays as it is.
pub open spec fn fclamp(x: Single, lo: Single, hi: Single) -> Single {
    let raised = if flt(x, lo) {
        lo
    } else {
        x
    };
    if flt(hi, raised) {
        hi
    } else {
        raised
    }
}

/// The number nearest to a whole number.
#[verifier::opaque]
pub open spec fn from_int(v: int) -> Single {
    signed(v < 0, round_bits(size(v) * pow2(149), 1))
}

/// The whole part of a finite number.
pub open spec fn whole_part(x: Single) -> int {
    let w: int = (magnitude(x.unsigned()) / pow2(149)) as int;
    if x.negative() {
        -w
    } else {
        w
    }
}

/// The whole part, moved into the range from `lo` to `hi`; zero for what is not a
/// number.
#[verifier::opaque]
pub open spec fn to_int(x: Single, lo: int, hi: int) -> int {
    if x.is_nan() {
        0
    } else if x.is_infinite() {
        if x.negative() {
            lo
        } else {
            hi
        }
    } else if whole_part(x) < lo {
        lo
    } else if whole_part(x) > hi {
        hi
    } else {
        whole_part(x)
    }
}

/// `p * 2^t`, as the numerator of a fraction in lowest power-of-two terms.
pub open spec fn scaled_over(p: nat, t: int) -> nat {
    if t >= 0 {
        p * pow2(t as nat)
    } else {
        p
    }
}

/// The denominator that goes with `scaled_over`.
pub open spec fn scaled_under(t: int) -> nat {
    if t >= 0 {
        1
    } else {
        pow2((-t) as nat)
    }
}

/// Takes `s` of the `k` powers of two that are to be multiplied to `r`, with `c` the power
/// `2^s`.
fn power_step(r: u128, k: u32, s: u32, c: u128) -> (out: (u128, u32))
    requires
        c == pow2(s as nat),
        r * pow2(k as nat) <= u128::MAX,
    ensures
        out.0 * pow2(out.1 as nat) == r * pow2(k as nat),
        out.1 == (if k >= s {
            k - s
        } else {
            k as int
        }),
{
    if k >= s {
        proof {
            let rest: nat = (k - s) as nat;
            lemma_pow2_adds(rest, s as nat);
            lemma_pow2_pos(rest);
            assert(r * (pow2(rest) * c) == (r * c) * pow2(rest)) by (nonlinear_arith);
            assert(r * c <= (r * c) * pow2(rest)) by (nonlinear_arith)
                requires
                    pow2(rest) >= 1,
            ;
        }
        (r * c, k - s)
    } else {
        (r, k)
    }
}

/// Two to the power `e`.
fn power_of_two(e: u32) -> (r: u128)
    requires
        e < 128,
    ensures
        r == pow2(e as nat),
{
    proof {
        lemma2_to64();
        lemma2_to64_rest();
        lemma_pow2_adds(64, 63);
        if e < 127 {
            lemma_pow2_strictly_increases(e as nat, 127);
        }
    }
    let (r, k) = power_step(1, e, 64, 0x1_0000_0000_0000_0000);
    let (r, k) = power_step(r, k, 32, 0x1_0000_0000);
    let (r, k) = power_step(r, k, 16, 0x1_0000);
    let (r, k) = power_step(r, k, 8, 0x100);
    let (r, k) = power_step(r, k, 4, 0x10);
    let (r, k) = power_step(r, k, 2, 4);
    let (r, k) = power_step(r, k, 1, 2);
    assert(r * pow2(0) == pow2(e as nat) && k == 0);
    r
}

/// The number `q` holds the leading digits of `p`, without the last `l`.
spec fn leads(p: nat, q: nat, l: nat) -> bool {
    q * pow2(l) <= p < (q + 1) * pow2(l)
}

/// Drops `s` more digits where there are more, with `c` the power `2^s`.
fn digits_step(p: u128, q: u128, l: u32, s: u32, c: u128) -> (out: (u128, u32))
    requires
        c == pow2(s as nat),
        l + s <= 127,
        leads(p as nat, q as nat, l as nat),
        q < c * c,
        c <= 0x1_0000_0000_0000_0000,
    ensures
        leads(p as nat, out.0 as nat, out.1 as nat),
        out.0 < c,
        l <= out.1 <= l + s,
        q > 0 ==> out.0 > 0,
{
    if q >= c {
        let t: u128 = q / c;
        proof {
            lemma_pow2_adds(s as nat, l as nat);
            lemma_pow2_pos(s as nat);
            lemma_pow2_pos(l as nat);
            let u: nat = pow2(l as nat);
            assert(c * t <= q && q < c * (t + 1) && 0 < t < c) by (nonlinear_arith)
                requires
                    t == q / c,
                    c > 0,
                    c <= q,
                    q < c * c,
            ;
            assert(t * (c * u) <= q * u) by (nonlinear_arith)
                requires
                    c * t <= q,
            ;
            assert((q + 1) * u <= (t + 1) * (c * u)) by (nonlinear_arith)
                requires
                    q + 1 <= c * (t + 1),
            ;
        }
        (t, l + s)
    } else {
        (q, l)
    }
}

/// The number of binary digits of `p`.
fn digits(p: u128) -> (l: u32)
    requires
        p < 0x1000_0000_0000_0000_0000_0000_0000_0000,
    ensures
        l <= 124,
        p < pow2(l as nat),
        l > 0 ==> p >= pow2((l - 1) as nat),
{
    proof {
        lemma2_to64();
        lemma2_to64_rest();
        lemma_pow2_adds(62, 62);
    }
    if p == 0 {
        return 0;
    }
    let (q, l) = digits_step(p, p, 0, 64, 0x1_0000_0000_0000_0000);
    let (q, l) = digits_step(p, q, l, 32, 0x1_0000_0000);
    let (q, l) = digits_step(p, q, l, 16, 0x1_0000);
    let (q, l) = digits_step(p, q, l, 8, 0x100);
    let (q, l) = digits_step(p, q, l, 4, 0x10);
    let (q, l) = digits_step(p, q, l, 2, 4);
    let (q, l) = digits_step(p, q, l, 1, 2);
    proof {
        assert(q * pow2(l as nat) == pow2(l as nat) && (q + 1) * pow2(l as nat) == 2 * pow2(
            l as nat,
        )) by (nonlinear_arith)
            requires
                q == 1,
        ;
        lemma_pow2_unfold((l + 1) as nat);
        if l > 124 {
            lemma_pow2_strictly_increases(124, l as nat);
        }
    }
    l + 1
}

/// The whole number nearest to `p / 2^b`.
fn round_shift(p: u128, b: u32) -> (m: u128)
    requires
        p < 0x1000_0000_0000_0000_0000_0000_0000_0000,
    ensures
        m == nearest(p as nat, pow2(b as nat)),
{
    proof {
        lemma2_to64();
        lemma_pow2_adds(62, 62);
        lemma_pow2_unfold(125);
        lemma2_to64_rest();
        lemma_pow2_pos(b as nat);
    }
    if b > 124 {
        proof {
            if b > 125 {
                lemma_pow2_strictly_increases(125, b as nat);
            }
            lemma_nearest_unique(p as nat, pow2(b as nat), 0);
        }
        0
    } else {
        let d: u128 = power_of_two(b);
        proof {
            if b < 124 {
                lemma_pow2_strictly_increases(b as nat, 124);
            }
        }
        let q: u128 = p / d;
        let r: u128 = p % d;
        assert(q <= p) by (nonlinear_arith)
            requires
                q == p / d,
                d > 0,
        ;
        if 2 * r < d || (2 * r == d && q % 2 == 0) {
            q
        } else {
            q + 1
        }
    }
}

/// The exponent of the rounding of `p * 2^t` units, from the number of digits of `p`.
proof fn lemma_scaled_quantum(p: nat, t: int, l: nat, k: nat)
    requires
        p < pow2(l),
        l > 0,
        p >= pow2((l - 1) as nat),
        k == (if l + t > 24 {
            (l + t - 24) as nat
        } else {
            0
        }),
    ensures
        scaled_under(t) > 0,
        quantum(scaled_over(p, t) / scaled_under(t)) == k,
{
    let n: nat = scaled_over(p, t);
    let d: nat = scaled_under(t);
    lemma2_to64();
    if t < 0 {
        lemma_pow2_pos((-t) as nat);
    }
    let q: nat = n / d;
    lemma_floor_below(n, d, 0x100_0000 * pow2(k));
    lemma_floor_below(n, d, 0x80_0000 * pow2(k));
    lemma_pow2_adds(24, k);
    lemma_pow2_adds(23, k);
    assert(n < d * (0x100_0000 * pow2(k))) by {
        if t >= 0 {
            // p * 2^t < 2^(l + t) <= 2^(24 + k)
            lemma_pow2_adds(l, t as nat);
            lemma_pow2_pos(t as nat);
            assert(p * pow2(t as nat) < pow2(l) * pow2(t as nat)) by (nonlinear_arith)
                requires
                    p < pow2(l),
                    pow2(t as nat) > 0,
            ;
            if l + t < 24 + k {
                lemma_pow2_strictly_increases((l + t) as nat, 24 + k);
            }
        } else {
            lemma_pow2_adds((-t) as nat, 24 + k);
            if l < -t + 24 + k {
                lemma_pow2_strictly_increases(l, (-t + 24 + k) as nat);
            }
        }
    }
    if k > 0 {
        assert(n >= d * (0x80_0000 * pow2(k))) by {
            if t >= 0 {
                lemma_pow2_adds((l - 1) as nat, t as nat);
                assert(p * pow2(t as nat) >= pow2((l - 1) as nat) * pow2(t as nat))
                    by (nonlinear_arith)
                    requires
                        p >= pow2((l - 1) as nat),
                ;
            } else {
                lemma_pow2_adds((-t) as nat, 23 + k);
            }
        }
    }
    lemma_quantum_unique(q, k);
}

/// The number with sign `neg` nearest to `p * 2^t` units.
fn encode(neg: bool, p: u128, t: i32) -> (r: Single)
    requires
        p < 0x1000_0000_0000_0000_0000_0000_0000_0000,
        -1000 <= t <= 1000,
    ensures
        r == signed(neg, round_bits(scaled_over(p as nat, t as int), scaled_under(t as int))),
{
    let l: u32 = digits(p);
    let ghost n: nat = scaled_over(p as nat, t as int);
    let ghost d: nat = scaled_under(t as int);
    let k: i32 = if p > 0 && l as i32 + t > 24 {
        l as i32 + t - 24
    } else {
        0
    };
    let b: i32 = k - t;
    proof {
        lemma2_to64();
        if t < 0 {
            lemma_pow2_pos((-t) as nat);
        }
        if p > 0 {
            lemma_scaled_quantum(p as nat, t as int, l as nat, k as nat);
        } else {
            assert(n == 0) by (nonlinear_arith)
                requires
                    n == scaled_over(0, t as int),
            ;
            assert(n / d == 0) by (nonlinear_arith)
                requires
                    n == 0,
                    d > 0,
            ;
        }
    }
    assert(quantum(n / d) == k);
    let m: u128 = if p == 0 {
        proof {
            lemma_pow2_pos(k as nat);
            assert(d * pow2(k as nat) > 0) by (nonlinear_arith)
                requires
                    d > 0,
                    pow2(k as nat) > 0,
            ;
            lemma_nearest_unique(0, d * pow2(k as nat), 0);
        }
        0
    } else if b > 0 {
        proof {
            lemma_pow2_pos(b as nat);
            if t >= 0 {
                lemma_pow2_pos(t as nat);
                lemma_pow2_adds(b as nat, t as nat);
                lemma_nearest_scale(p as nat, pow2(b as nat), pow2(t as nat));
            } else {
                lemma_pow2_adds((-t) as nat, k as nat);
            }
        }
        round_shift(p, b as u32)
    } else {
        // t >= k >= 0, and the digits of p leave room for the shift.
        let c: u128 = power_of_two((-b) as u32);
        proof {
            lemma_pow2_adds((-b) as nat, k as nat);
            lemma_pow2_adds((-b) as nat, l as nat);
            lemma_pow2_pos(k as nat);
            assert(p * c <= pow2(l as nat) * c) by (nonlinear_arith)
                requires
                    p <= pow2(l as nat),
            ;
            assert(pow2(l as nat) * c == c * pow2(l as nat)) by (nonlinear_arith);
            if l - b < 24 {
                lemma_pow2_strictly_increases((l - b) as nat, 24);
            }
            assert(p * c <= 0x100_0000);
            assert(p * (c * pow2(k as nat)) == (p * c) * pow2(k as nat)) by (nonlinear_arith);
            assert(n == (p * c) * pow2(k as nat));
            lemma_nearest_unique(n, d * pow2(k as nat), (p * c) as nat);
        }
        p * c
    };
    assert(m == nearest(n, d * pow2(k as nat)));
    proof {
        lemma_quantum_fraction(n, d);
    }
    let e: u128 = (k as u128) * 0x80_0000 + m;
    let u: u32 = if e < INFINITY_BITS as u128 {
        e as u32
    } else {
        INFINITY_BITS
    };
    Single {
        bits: if neg {
            0x8000_0000 + u
        } else {
            u
        },
    }
}

/// `p * 2^t` and the grid of spacing `2^k`, with the common power of two taken out.
proof fn lemma_common_power(n: nat, d: nat, t: int, k: nat)
    requires
        d > 0,
        t <= k,
    ensures
        ({
            let c: nat = if t >= 0 {
                pow2(t as nat)
            } else {
                1
            };
            &&& c > 0
            &&& scaled_under(t) > 0
            &&& d * scaled_under(t) > 0
            &&& scaled_over(n, t) == n * c
            &&& (d * scaled_under(t)) * pow2(k) == (d * pow2((k - t) as nat)) * c
        }),
{
    let b: nat = (k - t) as nat;
    if t >= 0 {
        lemma_pow2_pos(t as nat);
        lemma_pow2_adds(b, t as nat);
        assert(d * (pow2(b) * pow2(t as nat)) == (d * pow2(b)) * pow2(t as nat))
            by (nonlinear_arith);
    } else {
        lemma_pow2_pos((-t) as nat);
        lemma_pow2_adds((-t) as nat, k);
        assert(d * (pow2((-t) as nat) * pow2(k)) == (d * pow2((-t) as nat)) * pow2(k))
            by (nonlinear_arith);
        assert(d * pow2((-t) as nat) > 0) by (nonlinear_arith)
            requires
                d > 0,
                pow2((-t) as nat) > 0,
        ;
    }
}

/// The rounding of `n / d * 2^t` units where its exponent is known.
proof fn lemma_round_shifted(n: nat, d: nat, t: int, k: nat)
    requires
        d > 0,
        t <= k,
        n < 0x100_0000 * (d * pow2((k - t) as nat)),
        k > 0 ==> n >= 0x80_0000 * (d * pow2((k - t) as nat)),
    ensures
        d * scaled_under(t) > 0,
        quantum(scaled_over(n, t) / (d * scaled_under(t))) == k,
        nearest(scaled_over(n, t), (d * scaled_under(t)) * pow2(k)) == nearest(
            n,
            d * pow2((k - t) as nat),
        ),
{
    lemma_common_power(n, d, t, k);
    let c: nat = if t >= 0 {
        pow2(t as nat)
    } else {
        1
    };
    let e: nat = d * pow2((k - t) as nat);
    let nn: nat = scaled_over(n, t);
    let dd: nat = d * scaled_under(t);
    lemma_pow2_pos(k);
    lemma_pow2_pos((k - t) as nat);
    assert(e > 0) by (nonlinear_arith)
        requires
            e == d * pow2((k - t) as nat),
            d > 0,
            pow2((k - t) as nat) > 0,
    ;
    assert(nn < dd * (0x100_0000 * pow2(k))) by {
        assert(n * c < 0x100_0000 * (e * c)) by (nonlinear_arith)
            requires
                n < 0x100_0000 * e,
                c > 0,
        ;
        assert(dd * (0x100_0000 * pow2(k)) == 0x100_0000 * (dd * pow2(k))) by (nonlinear_arith);
    }
    lemma_floor_below(nn, dd, 0x100_0000 * pow2(k));
    lemma_floor_below(nn, dd, 0x80_0000 * pow2(k));
    if k > 0 {
        assert(n * c >= 0x80_0000 * (e * c)) by (nonlinear_arith)
            requires
                n >= 0x80_0000 * e,
        ;
        assert(dd * (0x80_0000 * pow2(k)) == 0x80_0000 * (dd * pow2(k))) by (nonlinear_arith);
    }
    lemma_quantum_unique(nn / dd, k);
    lemma_nearest_scale(n, e, c);
}

/// A fraction and its floor with one more binary digit, which tells whether the floor
/// is exact, are rounded alike at least two digits above.
proof fn lemma_nearest_sticky(n: nat, d: nat, q: nat, s: nat, b: nat)
    requires
        d > 0,
        b >= 1,
        q == n / d,
        s == (if n % d == 0 {
            0nat
        } else {
            1nat
        }),
    ensures
        nearest(n, d * pow2(b)) == nearest(2 * q + s, pow2(b + 1)),
{
    let g: nat = pow2(b);
    let rem: nat = n % d;
    lemma_pow2_pos(b);
    lemma_pow2_unfold(b + 1);
    lemma_pow2_unfold(b);
    let h: nat = pow2((b - 1) as nat);
    vstd::arithmetic::div_mod::lemma_fundamental_div_mod(n as int, d as int);
    vstd::arithmetic::div_mod::lemma_mod_bound(n as int, d as int);
    let p: nat = 2 * q + s;
    let m: nat = nearest(p, 2 * g);
    lemma_nearest_bounds(p, 2 * g);
    let e: nat = d * g;
    assert(e > 0) by (nonlinear_arith)
        requires
            e == d * g,
            d > 0,
            g > 0,
    ;
    // In halves of a step: p against m, and n / d against m.
    let mg: nat = m * g;
    assert(m * (2 * g) == 2 * mg) by (nonlinear_arith)
        requires
            mg == m * g,
    ;
    assert(m * e == d * mg) by (nonlinear_arith)
        requires
            e == d * g,
            mg == m * g,
    ;
    assert(n == d * q + rem);
    // 2 * (2 * mg) <= 2 * p + 2 * g, and g is even: g == 2 * h.
    if 2 * mg > 2 * q + g {
        // Then 2 * mg >= 2 * q + g + 1; with both even, >= + 2: too far above p.
        assert(2 * mg >= 2 * q + 2 * h + 2);
        assert(false);
    }
    assert(2 * (d * mg) <= 2 * (d * q) + d * g) by (nonlinear_arith)
        requires
            2 * mg <= 2 * q + g,
    ;
    assert(2 * q + s <= 2 * mg + g);
    if s == 0 {
        assert(2 * (d * q) <= 2 * (d * mg) + d * g) by (nonlinear_arith)
            requires
                2 * q <= 2 * mg + g,
        ;
        if 2 * (m * e) == 2 * n + e {
            assert(2 * mg == 2 * q + g) by (nonlinear_arith)
                requires
                    2 * (d * mg) == 2 * (d * q) + d * g,
                    d > 0,
            ;
        }
        if 2 * n == 2 * (m * e) + e {
            assert(2 * q == 2 * mg + g) by (nonlinear_arith)
                requires
                    2 * (d * q) == 2 * (d * mg) + d * g,
                    d > 0,
            ;
        }
    } else {
        // 2 * q + 1 <= 2 * mg + g with an even right side: 2 * q + 2 <= it.
        assert(2 * q + 2 <= 2 * mg + 2 * h);
        assert(2 * (d * q) + 2 * d <= 2 * (d * mg) + d * g) by (nonlinear_arith)
            requires
                2 * q + 2 <= 2 * mg + g,
        ;
    }
    lemma_nearest_unique(n, e, m);
}

/// The rounding of `n / d * 2^t` units from the floor of `n / d` and whether it is
/// exact.
proof fn lemma_round_sticky(n: nat, d: nat, t: int)
    requires
        d > 0,
        t < 0 || n / d >= 0x100_0000,
    ensures
        d * scaled_under(t) > 0,
        ({
            let s: nat = if n % d == 0 {
                0
            } else {
                1
            };
            round_bits(scaled_over(n, t), d * scaled_under(t)) == round_bits(
                scaled_over(2 * (n / d) + s, t - 1),
                scaled_under(t - 1),
            )
        }),
{
    let s: nat = if n % d == 0 {
        0
    } else {
        1
    };
    let q: nat = n / d;
    let p: nat = 2 * q + s;
    if t >= 0 {
        lemma_pow2_pos(t as nat);
    } else {
        lemma_pow2_pos((-t) as nat);
    }
    assert(d * scaled_under(t) > 0) by (nonlinear_arith)
        requires
            d > 0,
            scaled_under(t) > 0,
    ;
    let nn: nat = scaled_over(n, t);
    let dd: nat = d * scaled_under(t);
    let k: nat = quantum(nn / dd);
    lemma_quantum_fraction(nn, dd);
    assert(t < k) by {
        if t >= 0 {
            // nn / dd >= 2^24 * 2^t
            let c: nat = pow2(t as nat);
            lemma_floor_below(n, d, 0x100_0000);
            assert(n * c >= (d * 0x100_0000) * c) by (nonlinear_arith)
                requires
                    n >= d * 0x100_0000,
            ;
            assert((d * 0x100_0000) * c == d * (0x100_0000 * c)) by (nonlinear_arith);
            assert(dd == d) by (nonlinear_arith)
                requires
                    dd == d * scaled_under(t),
                    scaled_under(t) == 1,
            ;
            assert(nn >= dd * (0x100_0000 * c));
            lemma_floor_below(nn, dd, 0x100_0000 * c);
            lemma_quantum(nn / dd);
            if k <= t {
                if k < t {
                    lemma_pow2_strictly_increases(k, t as nat);
                }
                assert(false);
            }
        }
    }
    let b: nat = (k - t) as nat;
    lemma_common_power(n, d, t, k);
    let c: nat = if t >= 0 {
        pow2(t as nat)
    } else {
        1
    };
    let e: nat = d * pow2(b);
    assert(n < 0x100_0000 * e) by (nonlinear_arith)
        requires
            n * c < 0x100_0000 * (e * c),
            c > 0,
    ;
    if k > 0 {
        assert(n >= 0x80_0000 * e) by (nonlinear_arith)
            requires
                n * c >= 0x80_0000 * (e * c),
                c > 0,
        ;
    }
    lemma_round_shifted(n, d, t, k);
    // The same exponent for p.
    let g: nat = pow2(b);
    lemma_pow2_pos(b);
    lemma_pow2_unfold(b + 1);
    assert(d * (0x100_0000 * g) == 0x100_0000 * e) by (nonlinear_arith)
        requires
            e == d * g,
    ;
    assert(d * (0x80_0000 * g) == 0x80_0000 * e) by (nonlinear_arith)
        requires
            e == d * g,
    ;
    lemma_floor_below(n, d, 0x100_0000 * g);
    lemma_floor_below(n, d, 0x80_0000 * g);
    lemma_round_shifted(p, 1, t - 1, k);
    lemma_nearest_sticky(n, d, q, s, b);
    assert(1 * scaled_under(t - 1) == scaled_under(t - 1));
    assert(1 * pow2(b + 1) == pow2(b + 1));
}

/// Adding less than a sixteenth of a step of the grid leaves a number as it is.
proof fn lemma_round_absorbs(b: nat, v: int)
    requires
        b < INFINITY_BITS,
        exponent(b) > 4,
        size(v - magnitude(b)) < pow2((exponent(b) - 4) as nat),
    ensures
        v > 0,
        round_bits(size(v), 1) == b,
{
    let k: nat = exponent(b);
    let m: nat = significand(b);
    lemma_encoding_parts(b);
    let g: nat = pow2(k);
    let h: nat = pow2((k - 1) as nat);
    let x: nat = magnitude(b);
    let e: nat = pow2((k - 4) as nat);
    lemma_pow2_pos((k - 4) as nat);
    lemma_pow2_unfold(k);
    lemma_pow2_unfold((k - 1) as nat);
    lemma_pow2_unfold((k - 2) as nat);
    lemma_pow2_unfold((k - 3) as nat);
    assert(g == 2 * h && h == 8 * e);
    assert(x >= 0x80_0000 * g) by (nonlinear_arith)
        requires
            x == m * g,
            m >= 0x80_0000,
    ;
    assert(x + g <= 0x100_0000 * g) by (nonlinear_arith)
        requires
            x == m * g,
            m < 0x100_0000,
    ;
    assert(v / 1 == v);
    if v >= 0x80_0000 * g {
        lemma_quantum_unique(v as nat, k);
        lemma_nearest_unique(v as nat, g, m);
    } else {
        // Just below a power of two the grid is twice as fine.
        assert(m == 0x80_0000) by (nonlinear_arith)
            requires
                x == m * g,
                x < 0x80_0000 * g + g,
                m >= 0x80_0000,
                g > 0,
        ;
        assert(x == 0x100_0000 * h);
        lemma_quantum_unique(v as nat, (k - 1) as nat);
        lemma_nearest_unique(v as nat, h, 0x100_0000);
    }
}

pub proof fn lemma_root_floor(s: nat)
    ensures
        root_floor(s) * root_floor(s) <= s,
        s < (root_floor(s) + 1) * (root_floor(s) + 1),
    decreases s,
{
    if s > 0 {
        lemma_root_floor(s / 4);
        let f: nat = root_floor(s / 4);
        let r: nat = 2 * f;
        assert(r * r == 4 * (f * f)) by (nonlinear_arith)
            requires
                r == 2 * f,
        ;
        assert((r + 2) * (r + 2) == 4 * ((f + 1) * (f + 1))) by (nonlinear_arith)
            requires
                r == 2 * f,
        ;
        if root_floor(s) == r + 1 {
            assert((root_floor(s) + 1) * (root_floor(s) + 1) == (r + 2) * (r + 2));
        }
    } else {
        assert((root_floor(s) + 1) * (root_floor(s) + 1) == 1) by (nonlinear_arith)
            requires
                root_floor(s) == 0,
        ;
    }
}

pub proof fn lemma_root_floor_unique(s: nat, r: nat)
    requires
        r * r <= s,
        s < (r + 1) * (r + 1),
    ensures
        root_floor(s) == r,
{
    lemma_root_floor(s);
    let f: nat = root_floor(s);
    if f < r {
        assert((f + 1) * (f + 1) <= r * r) by (nonlinear_arith)
            requires
                f + 1 <= r,
        ;
    } else if r < f {
        assert((r + 1) * (r + 1) <= f * f) by (nonlinear_arith)
            requires
                r + 1 <= f,
        ;
    }
}

/// The whole part of the square root of `s`.
fn whole_root(s: u128) -> (r: u128)
    requires
        s < 0x100_0000_0000_0000_0000_0000,
    ensures
        r == root_floor(s as nat),
        r < 0x1000_0000_0000,
{
    let mut lo: u128 = 0;
    let mut hi: u128 = 0x1000_0000_0000;
    while hi - lo > 1
        invariant
            lo < hi <= 0x1000_0000_0000,
            lo * lo <= s,
            s < hi * hi,
        decreases hi - lo,
    {
        let mid: u128 = lo + (hi - lo) / 2;
        assert(mid * mid <= 0x1000_0000_0000 * 0x1000_0000_0000) by (nonlinear_arith)
            requires
                mid <= 0x1000_0000_0000,
        ;
        if mid * mid <= s {
            lo = mid;
        } else {
            hi = mid;
        }
    }
    proof {
        lemma_root_floor_unique(s as nat, lo as nat);
    }
    lo
}

impl Single {
    fn sign(self) -> (r: bool)
        ensures
            r == self.negative(),
    {
        self.bits >= 0x8000_0000
    }

    fn without_sign(self) -> (r: u32)
        ensures
            r == self.unsigned(),
    {
        if self.bits >= 0x8000_0000 {
            self.bits - 0x8000_0000
        } else {
            self.bits
        }
    }

    /// The exponent and the significand.
    fn parts(self) -> (r: (u32, u32))
        requires
            self.is_finite(),
        ensures
            r.0 == exponent(self.unsigned()),
            r.1 == significand(self.unsigned()),
            r.0 <= 253,
            r.1 < 0x100_0000,
            r.0 > 0 ==> r.1 >= 0x80_0000,
            magnitude(self.unsigned()) == r.1 * pow2(r.0 as nat),
    {
        let b: u32 = self.without_sign();
        if b < 0x100_0000 {
            (0, b)
        } else {
            (b / 0x80_0000 - 1, b % 0x80_0000 + 0x80_0000)
        }
    }

    fn infinite(neg: bool) -> (r: Single)
        ensures
            r == signed(neg, INFINITY_BITS as nat),
    {
        Single {
            bits: if neg {
                0xff80_0000
            } else {
                0x7f80_0000
            },
        }
    }

    fn nothing() -> (r: Single)
        ensures
            r == quiet_nan(),
    {
        Single { bits: 0x7fc0_0000 }
    }

    /// The number with the opposite sign.
    pub fn opposite(self) -> (r: Single)
        ensures
            r == fneg(self),
    {
        Single {
            bits: if self.bits >= 0x8000_0000 {
                self.bits - 0x8000_0000
            } else {
                self.bits + 0x8000_0000
            },
        }
    }

    /// The number without its sign.
    pub fn absolute(self) -> (r: Single)
        ensures
            r == fabs(self),
    {
        Single { bits: self.without_sign() }
    }

    pub fn not_a_number(self) -> (r: bool)
        ensures
            r == self.is_nan(),
    {
        self.without_sign() > INFINITY_BITS
    }

    pub fn less(self, other: Single) -> (r: bool)
        ensures
            r == flt(self, other),
    {
        let a: u32 = self.without_sign();
        let b: u32 = other.without_sign();
        if a > INFINITY_BITS || b > INFINITY_BITS {
            false
        } else if self.sign() {
            if other.sign() {
                a > b
            } else {
                a > 0 || b > 0
            }
        } else {
            !other.sign() && a < b
        }
    }

    pub fn at_most(self, other: Single) -> (r: bool)
        ensures
            r == fle(self, other),
    {
        let a: u32 = self.without_sign();
        let b: u32 = other.without_sign();
        !(a > INFINITY_BITS || b > INFINITY_BITS) && !other.less(self)
    }

    pub fn larger(self, other: Single) -> (r: Single)
        ensures
            r == fmax(self, other),
    {
        if self.without_sign() > INFINITY_BITS || self.less(other) {
            other
        } else {
            self
        }
    }

    pub fn clamped(self, lo: Single, hi: Single) -> (r: Single)
        ensures
            r == fclamp(self, lo, hi),
    {
        let raised = if self.less(lo) {
            lo
        } else {
            self
        };
        if hi.less(raised) {
            hi
        } else {
            raised
        }
    }

    /// The sum of two finite numbers, the first with the larger exponent.
    fn sum_ordered(self, other: Single) -> (r: Single)
        requires
            self.is_finite(),
            other.is_finite(),
            exponent(self.unsigned()) >= exponent(other.unsigned()),
        ensures
            r == fadd(self, other),
    {
        reveal(fadd);
        let (kx, mx) = self.parts();
        let (ky, my) = other.parts();
        let gap: u32 = kx - ky;
        let ghost bx: nat = self.unsigned();
        if gap > 38 {
            proof {
                let v: int = self.units() + other.units();
                let w: int = if self.negative() {
                    -v
                } else {
                    v
                };
                lemma2_to64();
                lemma_pow2_adds(24, ky as nat);
                lemma_pow2_pos(ky as nat);
                if 24 + ky < kx - 4 {
                    lemma_pow2_strictly_increases((24 + ky) as nat, (kx - 4) as nat);
                }
                assert(my * pow2(ky as nat) < 0x100_0000 * pow2(ky as nat)) by (nonlinear_arith)
                    requires
                        my < 0x100_0000,
                        pow2(ky as nat) > 0,
                ;
                lemma_round_absorbs(bx, w);
            }
            self
        } else {
            let c: u128 = power_of_two(gap);
            proof {
                lemma2_to64_rest();
                lemma_pow2_pos(gap as nat);
                if gap < 38 {
                    lemma_pow2_strictly_increases(gap as nat, 38);
                }
                assert(mx * c < 0x100_0000 * 0x40_0000_0000) by (nonlinear_arith)
                    requires
                        mx < 0x100_0000,
                        0 < c <= 0x40_0000_0000,
                ;
            }
            let big: u128 = (mx as u128) * c;
            let small: u128 = my as u128;
            let nx = self.sign();
            let ny = other.sign();
            let ghost v: int = self.units() + other.units();
            let ghost u: nat = pow2(ky as nat);
            proof {
                lemma_pow2_adds(gap as nat, ky as nat);
                lemma_pow2_pos(ky as nat);
                assert(mx * (c * u) == (mx * c) * u) by (nonlinear_arith);
                assert(magnitude(bx) == big * u);
                assert((big + small) * u == big * u + small * u) by (nonlinear_arith);
                assert((big - small) * u == big * u - small * u) by (nonlinear_arith);
                assert((small - big) * u == small * u - big * u) by (nonlinear_arith);
            }
            if nx == ny {
                let p: u128 = big + small;
                proof {
                    assert(size(v) == p * u);
                    assert(v == 0 <==> p == 0) by (nonlinear_arith)
                        requires
                            v == p * u || v == -(p * u),
                            u > 0,
                    ;
                    assert(v < 0 ==> nx);
                    assert(nx && p > 0 ==> v < 0) by (nonlinear_arith)
                        requires
                            nx ==> v == -(p * u),
                            u > 0,
                    ;
                }
                encode(nx, p, ky as i32)
            } else if big >= small {
                let p: u128 = big - small;
                let neg = if p == 0 {
                    false
                } else {
                    nx
                };
                proof {
                    assert(size(v) == p * u);
                    assert(v == 0 <==> p == 0) by (nonlinear_arith)
                        requires
                            v == p * u || v == -(p * u),
                            u > 0,
                    ;
                    assert(p > 0 ==> (v < 0 <==> nx)) by (nonlinear_arith)
                        requires
                            nx ==> v == -(p * u),
                            !nx ==> v == p * u,
                            u > 0,
                    ;
                }
                encode(neg, p, ky as i32)
            } else {
                let p: u128 = small - big;
                proof {
                    assert(size(v) == p * u);
                    assert(v != 0 && (v < 0 <==> ny)) by (nonlinear_arith)
                        requires
                            ny ==> v == -(p * u),
                            !ny ==> v == p * u,
                            u > 0,
                            p > 0,
                    ;
                }
                encode(ny, p, ky as i32)
            }
        }
    }

    pub fn plus(self, other: Single) -> (r: Single)
        ensures
            r == fadd(self, other),
    {
        reveal(fadd);
        let a: u32 = self.without_sign();
        let b: u32 = other.without_sign();
        if a > INFINITY_BITS || b > INFINITY_BITS {
            Single::nothing()
        } else if a == INFINITY_BITS {
            if b == INFINITY_BITS && self.sign() != other.sign() {
                Single::nothing()
            } else {
                self
            }
        } else if b == INFINITY_BITS {
            other
        } else {
            let (kx, _mx) = self.parts();
            let (ky, _my) = other.parts();
            if kx >= ky {
                self.sum_ordered(other)
            } else {
                other.sum_ordered(self)
            }
        }
    }

    pub fn minus(self, other: Single) -> (r: Single)
        ensures
            r == fsub(self, other),
    {
        self.plus(other.opposite())
    }

    pub fn times(self, other: Single) -> (r: Single)
        ensures
            r == fmul(self, other),
    {
        reveal(fmul);
        let a: u32 = self.without_sign();
        let b: u32 = other.without_sign();
        let neg = self.sign() != other.sign();
        if a > INFINITY_BITS || b > INFINITY_BITS || (a == INFINITY_BITS && b == 0) || (a == 0
            && b == INFINITY_BITS) {
            Single::nothing()
        } else if a == INFINITY_BITS || b == INFINITY_BITS {
            Single::infinite(neg)
        } else {
            let (kx, mx) = self.parts();
            let (ky, my) = other.parts();
            assert(mx * my <= 0x100_0000 * 0x100_0000) by (nonlinear_arith)
                requires
                    mx <= 0x100_0000,
                    my <= 0x100_0000,
            ;
            let p: u128 = (mx as u128) * (my as u128);
            let t: i32 = kx as i32 + ky as i32 - 149;
            proof {
                let j: nat = (kx + ky) as nat;
                lemma_pow2_adds(kx as nat, ky as nat);
                lemma_pow2_pos(149);
                lemma_pow2_pos(j);
                assert((mx * pow2(kx as nat)) * (my * pow2(ky as nat)) == p * (pow2(kx as nat)
                    * pow2(ky as nat))) by (nonlinear_arith)
                    requires
                        p == mx * my,
                ;
                if t >= 0 {
                    lemma_pow2_adds(t as nat, 149);
                    assert(p * (pow2(t as nat) * pow2(149)) == (p * pow2(t as nat)) * pow2(149))
                        by (nonlinear_arith);
                    lemma_round_scale((p * pow2(t as nat)) as nat, 1, pow2(149));
                } else {
                    lemma_pow2_adds((-t) as nat, j);
                    lemma_pow2_pos((-t) as nat);
                    lemma_round_scale(p as nat, pow2((-t) as nat), pow2(j));
                }
            }
            encode(neg, p, t)
        }
    }

    pub fn over(self, other: Single) -> (r: Single)
        ensures
            r == fdiv(self, other),
    {
        reveal(fdiv);
        let a: u32 = self.without_sign();
        let b: u32 = other.without_sign();
        let neg = self.sign() != other.sign();
        if a > INFINITY_BITS || b > INFINITY_BITS || (a == INFINITY_BITS && b == INFINITY_BITS)
            || (a == 0 && b == 0) {
            Single::nothing()
        } else if a == INFINITY_BITS || b == 0 {
            Single::infinite(neg)
        } else if b == INFINITY_BITS || a == 0 {
            proof {
                lemma2_to64();
                lemma_round_exact(0, 1);
                if a == 0 {
                    let ym: nat = magnitude(other.unsigned());
                    lemma_magnitude_monotone(0, b as nat);
                    lemma_round_exact(0, ym);
                    assert(magnitude(0) == 0);
                    assert(0 * pow2(149) == 0 && 0 * ym == 0) by (nonlinear_arith);
                }
            }
            encode(neg, 0, 0)
        } else {
            let (kx, mx) = self.parts();
            let (ky, my) = other.parts();
            assert(my > 0);
            let n: u128 = (mx as u128) * 0x1_0000_0000_0000;
            let q: u128 = n / (my as u128);
            let s: u128 = if n % (my as u128) == 0 {
                0
            } else {
                1
            };
            let t: i32 = kx as i32 - ky as i32 + 101;
            proof {
                let d: nat = my as nat;
                assert(q <= n) by (nonlinear_arith)
                    requires
                        q == n / (my as u128),
                        my > 0,
                ;
                lemma_pow2_pos(ky as nat);
                lemma_pow2_pos(kx as nat);
                lemma_pow2_pos(149);
                lemma2_to64_rest();
                let xm: nat = magnitude(self.unsigned());
                let ym: nat = magnitude(other.unsigned());
                // xm * 2^149 / ym == (n / my) * 2^t
                lemma_pow2_adds(kx as nat, 149);
                assert((mx * pow2(kx as nat)) * pow2(149) == mx * (pow2(kx as nat) * pow2(149)))
                    by (nonlinear_arith);
                assert(xm * pow2(149) == mx * pow2((kx + 149) as nat));
                lemma_pow2_adds(48, (kx + 101) as nat);
                assert(mx * (0x1_0000_0000_0000 * pow2((kx + 101) as nat)) == n * pow2(
                    (kx + 101) as nat,
                )) by (nonlinear_arith)
                    requires
                        n == mx * 0x1_0000_0000_0000,
                ;
                assert(xm * pow2(149) == n * pow2((kx + 101) as nat));
                if t >= 0 {
                    lemma_pow2_adds(t as nat, ky as nat);
                    lemma_pow2_pos(t as nat);
                    assert(n * (pow2(t as nat) * pow2(ky as nat)) == (n * pow2(t as nat)) * pow2(
                        ky as nat,
                    )) by (nonlinear_arith);
                    lemma_round_scale((n * pow2(t as nat)) as nat, d, pow2(ky as nat));
                } else {
                    lemma_pow2_adds((-t) as nat, (kx + 101) as nat);
                    lemma_pow2_pos((-t) as nat);
                    lemma_pow2_pos((kx + 101) as nat);
                    assert(my * (pow2((-t) as nat) * pow2((kx + 101) as nat)) == (my * pow2(
                        (-t) as nat,
                    )) * pow2((kx + 101) as nat)) by (nonlinear_arith);
                    assert(my * pow2((-t) as nat) > 0) by (nonlinear_arith)
                        requires
                            my > 0,
                            pow2((-t) as nat) > 0,
                    ;
                    lemma_round_scale(
                        n as nat,
                        (my * pow2((-t) as nat)) as nat,
                        pow2((kx + 101) as nat),
                    );
                }
                lemma_floor_below(n as nat, d, 0x100_0000);
                assert(n >= d * 0x100_0000);
                lemma_round_sticky(n as nat, d, t as int);
                assert(d * 1 == d);
                assert(round_bits(xm * pow2(149), ym) == round_bits(
                    scaled_over(n as nat, t as int),
                    d * scaled_under(t as int),
                ));
            }
            encode(neg, 2 * q + s, t - 1)
        }
    }
}

/// The rounding of the root of `a * 4^t` from the whole part of the root of `a` and
/// whether that is exact.
proof fn lemma_round_root_sticky(a: nat, q: nat, st: nat, t: nat)
    requires
        t >= 1,
        q == root_floor(a),
        q >= 0x100_0000,
        st == (if q * q == a {
            0nat
        } else {
            1nat
        }),
    ensures
        ({
            let s: nat = a * (pow2(t) * pow2(t));
            let k: nat = quantum(root_floor(s));
            let b: nat = k * 0x80_0000 + nearest_root(s, pow2(k));
            round_bits(scaled_over(2 * q + st, t - 1), scaled_under(t - 1)) == (if b
                < INFINITY_BITS {
                b
            } else {
                INFINITY_BITS as nat
            })
        }),
{
    let c: nat = pow2(t);
    let s: nat = a * (c * c);
    let f0: nat = root_floor(s);
    let b: nat = quantum(q);
    let g: nat = pow2(b);
    let k: nat = b + t;
    let gg: nat = pow2(k);
    lemma_pow2_pos(t);
    lemma_pow2_pos(b);
    lemma_pow2_adds(b, t);
    lemma_root_floor(a);
    lemma_root_floor(s);
    lemma_quantum(q);
    assert(b >= 1);
    lemma_pow2_unfold(b);
    lemma_pow2_unfold(b + 1);
    let h: nat = pow2((b - 1) as nat);
    assert(g == 2 * h);
    // The exponent of the root of s.
    assert((q * c) * (q * c) == (q * q) * (c * c)) by (nonlinear_arith);
    assert(((q + 1) * c) * ((q + 1) * c) == ((q + 1) * (q + 1)) * (c * c)) by (nonlinear_arith);
    assert((q * q) * (c * c) <= a * (c * c)) by (nonlinear_arith)
        requires
            q * q <= a,
    ;
    assert(a * (c * c) < ((q + 1) * (q + 1)) * (c * c)) by (nonlinear_arith)
        requires
            a < (q + 1) * (q + 1),
            c > 0,
    ;
    if f0 < q * c {
        assert((f0 + 1) * (f0 + 1) <= (q * c) * (q * c)) by (nonlinear_arith)
            requires
                f0 + 1 <= q * c,
        ;
    }
    if f0 >= (q + 1) * c {
        assert(f0 * f0 >= ((q + 1) * c) * ((q + 1) * c)) by (nonlinear_arith)
            requires
                f0 >= (q + 1) * c,
        ;
    }
    assert((q + 1) * c <= 0x100_0000 * (g * c)) by (nonlinear_arith)
        requires
            q + 1 <= 0x100_0000 * g,
    ;
    assert(q * c >= 0x80_0000 * (g * c)) by (nonlinear_arith)
        requires
            q >= 0x80_0000 * g,
    ;
    lemma_quantum_unique(f0, k);
    // The rounding of the floor and its extra digit.
    let p: nat = 2 * q + st;
    lemma_round_shifted(p, 1, t - 1, k);
    assert(1 * scaled_under(t - 1) == scaled_under(t - 1));
    assert(1 * pow2(b + 1) == pow2(b + 1));
    // The rounding of the root.
    let f: nat = q / g;
    let r: nat = q % g;
    vstd::arithmetic::div_mod::lemma_fundamental_div_mod(q as int, g as int);
    vstd::arithmetic::div_mod::lemma_mod_bound(q as int, g as int);
    let fg: nat = f * g;
    assert(q == fg + r) by (nonlinear_arith)
        requires
            q == g * f + r,
            fg == f * g,
    ;
    assert(gg * gg == (g * g) * (c * c)) by (nonlinear_arith)
        requires
            gg == g * c,
    ;
    assert(g * g > 0 && c * c > 0) by (nonlinear_arith)
        requires
            g > 0,
            c > 0,
    ;
    let w: nat = a / (g * g);
    assert(s / (gg * gg) == w) by {
        lemma_floor_below(a, g * g, w + 1);
        lemma_floor_below(a, g * g, w);
        let d: nat = gg * gg;
        assert(d > 0) by (nonlinear_arith)
            requires
                d == (g * g) * (c * c),
                g * g > 0,
                c * c > 0,
        ;
        let x: nat = g * g;
        let y: nat = c * c;
        assert(a * y < (x * y) * (w + 1)) by (nonlinear_arith)
            requires
                a < x * (w + 1),
                y > 0,
        ;
        assert(a * y >= (x * y) * w) by (nonlinear_arith)
            requires
                a >= x * w,
        ;
        lemma_floor_below(s, d, w + 1);
        lemma_floor_below(s, d, w);
    }
    assert(root_floor(w) == f) by {
        assert((g * g) * (f * f) <= a) by {
            assert((g * g) * (f * f) == fg * fg) by (nonlinear_arith)
                requires
                    fg == f * g,
            ;
            assert(fg * fg <= q * q) by (nonlinear_arith)
                requires
                    fg <= q,
            ;
        }
        assert(a < (g * g) * ((f + 1) * (f + 1))) by {
            assert((g * g) * ((f + 1) * (f + 1)) == (fg + g) * (fg + g)) by (nonlinear_arith)
                requires
                    fg == f * g,
            ;
            assert((q + 1) * (q + 1) <= (fg + g) * (fg + g)) by (nonlinear_arith)
                requires
                    q + 1 <= fg + g,
            ;
        }
        lemma_floor_below(a, g * g, f * f);
        lemma_floor_below(a, g * g, (f + 1) * (f + 1));
        lemma_root_floor_unique(w, f);
    }
    let hh: nat = fg + h;
    let half: nat = (2 * f + 1) * (2 * f + 1) * (gg * gg);
    assert(half == 4 * ((hh * hh) * (c * c))) by {
        assert((2 * f + 1) * (2 * f + 1) * ((g * g) * (c * c)) == (((2 * f + 1) * g) * ((2 * f
            + 1) * g)) * (c * c)) by (nonlinear_arith);
        assert((2 * f + 1) * g == 2 * hh) by (nonlinear_arith)
            requires
                fg == f * g,
                g == 2 * h,
                hh == fg + h,
        ;
        assert(((2 * hh) * (2 * hh)) * (c * c) == 4 * ((hh * hh) * (c * c))) by (nonlinear_arith);
    }
    assert(f * (2 * g) == 2 * fg) by (nonlinear_arith)
        requires
            fg == f * g,
    ;
    assert((f + 1) * (2 * g) == 2 * fg + 2 * g) by (nonlinear_arith)
        requires
            fg == f * g,
    ;
    let y: nat = c * c;
    if q < hh {
        assert((q + 1) * (q + 1) <= hh * hh) by (nonlinear_arith)
            requires
                q + 1 <= hh,
        ;
        assert(a * y < (hh * hh) * y) by (nonlinear_arith)
            requires
                a < hh * hh,
                y > 0,
        ;
        lemma_nearest_unique(p, 2 * g, f);
    } else if q == hh && st == 0 {
        assert(s == (hh * hh) * y);
        if f % 2 == 0 {
            lemma_nearest_unique(p, 2 * g, f);
        } else {
            lemma_nearest_unique(p, 2 * g, f + 1);
        }
    } else {
        assert(hh * hh < a) by {
            if q > hh {
                assert(hh * hh < q * q) by (nonlinear_arith)
                    requires
                        hh + 1 <= q,
                ;
            }
        }
        assert(a * y > (hh * hh) * y) by (nonlinear_arith)
            requires
                a > hh * hh,
                y > 0,
        ;
        lemma_nearest_unique(p, 2 * g, f + 1);
    }
}

/// Doubling a remainder `i` times gives the remainder of the number times `2^i`.
proof fn lemma_double_remainder(m: nat, i: nat, d: nat)
    requires
        d > 0,
    ensures
        (2 * ((m * pow2(i)) % d)) % d == (m * pow2(i + 1)) % d,
{
    lemma_pow2_unfold(i + 1);
    let x: nat = m * pow2(i);
    assert(m * pow2(i + 1) == 2 * x) by (nonlinear_arith)
        requires
            x == m * pow2(i),
            pow2(i + 1) == 2 * pow2(i),
    ;
    vstd::arithmetic::div_mod::lemma_mul_mod_noop_right(2, x as int, d as int);
}

impl Single {
    /// The square root.
    pub fn root(self) -> (r: Single)
        ensures
            r == fsqrt(self),
    {
        reveal(fsqrt);
        let a: u32 = self.without_sign();
        if a > INFINITY_BITS {
            Single::nothing()
        } else if a == 0 {
            self
        } else if self.sign() {
            Single::nothing()
        } else if a == INFINITY_BITS {
            self
        } else {
            let (kx, mx) = self.parts();
            // The shift leaves an even power of two.
            let e: u32 = if (kx + 149) % 2 == 0 {
                60
            } else {
                61
            };
            let t: u32 = (kx + 149 - e) / 2;
            let c: u128 = power_of_two(e);
            proof {
                lemma2_to64();
                lemma2_to64_rest();
                assert(c == 0x1000_0000_0000_0000 || c == 0x2000_0000_0000_0000);
                assert(mx * c < 0x100_0000 * 0x2000_0000_0000_0000) by (nonlinear_arith)
                    requires
                        mx < 0x100_0000,
                        0 < c <= 0x2000_0000_0000_0000,
                ;
                assert(mx * c >= c) by (nonlinear_arith)
                    requires
                        mx >= 1,
                ;
            }
            let n: u128 = (mx as u128) * c;
            let q: u128 = whole_root(n);
            proof {
                assert(q * q <= 0x1000_0000_0000 * 0x1000_0000_0000) by (nonlinear_arith)
                    requires
                        q <= 0x1000_0000_0000,
                ;
            }
            let s: u128 = if q * q == n {
                0
            } else {
                1
            };
            proof {
                lemma_root_floor(n as nat);
                assert(q >= 0x100_0000) by (nonlinear_arith)
                    requires
                        n < (q + 1) * (q + 1),
                        n >= 0x1000_0000_0000_0000,
                ;
                lemma_pow2_adds(kx as nat, 149);
                lemma_pow2_adds(t as nat, t as nat);
                lemma_pow2_adds(e as nat, (2 * t) as nat);
                let tt: nat = pow2((2 * t) as nat);
                assert((mx * pow2(kx as nat)) * pow2(149) == mx * (pow2(kx as nat) * pow2(149)))
                    by (nonlinear_arith);
                assert(mx * (c * tt) == (mx * c) * tt) by (nonlinear_arith);
                assert(magnitude(self.unsigned()) * pow2(149) == n * (pow2(t as nat) * pow2(
                    t as nat,
                )));
                lemma_round_root_sticky(n as nat, q as nat, s as nat, t as nat);
            }
            encode(false, 2 * q + s, t as i32 - 1)
        }
    }

    /// The remainder of the division that drops the fraction.
    pub fn modulo(self, other: Single) -> (r: Single)
        ensures
            r == frem(self, other),
    {
        reveal(frem);
        let a: u32 = self.without_sign();
        let b: u32 = other.without_sign();
        if a > INFINITY_BITS || b > INFINITY_BITS || a == INFINITY_BITS || b == 0 {
            Single::nothing()
        } else if b == INFINITY_BITS {
            self
        } else {
            let (kx, mx) = self.parts();
            let (ky, my) = other.parts();
            let neg = self.sign();
            if kx >= ky {
                let gap: u32 = kx - ky;
                let d: u64 = my as u64;
                let mut m: u64 = (mx as u64) % d;
                let mut i: u32 = 0;
                proof {
                    lemma2_to64();
                }
                while i < gap
                    invariant
                        i <= gap,
                        0 < d < 0x100_0000,
                        m < d,
                        m == (mx as nat * pow2(i as nat)) % (d as nat),
                    decreases gap - i,
                {
                    proof {
                        lemma_double_remainder(mx as nat, i as nat, d as nat);
                    }
                    m = (2 * m) % d;
                    i = i + 1;
                }
                proof {
                    let u: nat = pow2(ky as nat);
                    lemma_pow2_pos(ky as nat);
                    lemma_pow2_adds(gap as nat, ky as nat);
                    let x: nat = mx as nat * pow2(gap as nat);
                    assert(mx * (pow2(gap as nat) * u) == u * x) by (nonlinear_arith)
                        requires
                            x == mx * pow2(gap as nat),
                    ;
                    assert(my * u == u * my) by (nonlinear_arith);
                    assert(u * my > 0) by (nonlinear_arith)
                        requires
                            u > 0,
                            my > 0,
                    ;
                    vstd::arithmetic::div_mod::lemma_truncate_middle(
                        x as int,
                        u as int,
                        my as int,
                    );
                    assert(u * m == m * u) by (nonlinear_arith);
                }
                encode(neg, m as u128, ky as i32)
            } else {
                let gap: u32 = ky - kx;
                let ghost u: nat = pow2(kx as nat);
                proof {
                    lemma_pow2_pos(kx as nat);
                    lemma_pow2_pos(gap as nat);
                    lemma_pow2_adds(gap as nat, kx as nat);
                    assert(my * (pow2(gap as nat) * u) == u * (my * pow2(gap as nat)))
                        by (nonlinear_arith);
                    assert(mx * u == u * mx) by (nonlinear_arith);
                    assert(my * pow2(gap as nat) > 0) by (nonlinear_arith)
                        requires
                            my > 0,
                            pow2(gap as nat) > 0,
                    ;
                    let dd: int = my * pow2(gap as nat);
                    assert(u * dd > 0) by (nonlinear_arith)
                        requires
                            u > 0,
                            dd > 0,
                    ;
                    vstd::arithmetic::div_mod::lemma_truncate_middle(mx as int, u as int, dd);
                }
                if gap > 24 {
                    proof {
                        lemma2_to64();
                        lemma_pow2_strictly_increases(24, gap as nat);
                        assert(my * pow2(gap as nat) >= pow2(gap as nat)) by (nonlinear_arith)
                            requires
                                my >= 1,
                        ;
                        vstd::arithmetic::div_mod::lemma_small_mod(
                            mx as nat,
                            (my * pow2(gap as nat)) as nat,
                        );
                        assert(mx * u == u * mx) by (nonlinear_arith);
                    }
                    encode(neg, mx as u128, kx as i32)
                } else {
                    let c: u128 = power_of_two(gap);
                    proof {
                        lemma2_to64();
                        if gap < 24 {
                            lemma_pow2_strictly_increases(gap as nat, 24);
                        }
                        assert(my * c <= 0x100_0000 * 0x100_0000) by (nonlinear_arith)
                            requires
                                my <= 0x100_0000,
                                c <= 0x100_0000,
                        ;
                    }
                    let d: u128 = (my as u128) * c;
                    let m: u128 = (mx as u128) % d;
                    proof {
                        assert(u * m == m * u) by (nonlinear_arith);
                    }
                    encode(neg, m, kx as i32)
                }
            }
        }
    }

    /// The remainder moved into the range from zero to the size of `other`.
    pub fn modulo_positive(self, other: Single) -> (r: Single)
        ensures
            r == frem_euclid(self, other),
    {
        let m = self.modulo(other);
        if m.less(Single { bits: 0 }) {
            m.plus(other.absolute())
        } else {
            m
        }
    }

    /// The number nearest to `v`.
    pub fn from_u64(v: u64) -> (r: Single)
        ensures
            r == from_int(v as int),
    {
        reveal(from_int);
        encode(false, v as u128, 149)
    }

    /// The number nearest to `v`.
    pub fn from_i32(v: i32) -> (r: Single)
        ensures
            r == from_int(v as int),
    {
        reveal(from_int);
        let w: i64 = v as i64;
        if w < 0 {
            encode(true, (-w) as u128, 149)
        } else {
            encode(false, w as u128, 149)
        }
    }

    /// The size of the whole part; 2^62 where it is no less.
    fn whole_size(self) -> (r: u64)
        requires
            self.is_finite(),
        ensures
            magnitude(self.unsigned()) / pow2(149) < 0x4000_0000_0000_0000 ==> r == magnitude(
                self.unsigned(),
            ) / pow2(149),
            magnitude(self.unsigned()) / pow2(149) >= 0x4000_0000_0000_0000 ==> r
                == 0x4000_0000_0000_0000,
    {
        let (k, m) = self.parts();
        let ghost x: nat = magnitude(self.unsigned());
        proof {
            lemma2_to64();
            lemma2_to64_rest();
            lemma_pow2_pos(149);
        }
        if k >= 149 {
            let s: u32 = k - 149;
            let ghost w: nat = (m * pow2(s as nat)) as nat;
            proof {
                lemma_pow2_adds(s as nat, 149);
                assert(m * (pow2(s as nat) * pow2(149)) == w * pow2(149)) by (nonlinear_arith)
                    requires
                        w == m * pow2(s as nat),
                ;
                vstd::arithmetic::div_mod::lemma_div_by_multiple(w as int, pow2(149) as int);
            }
            if s >= 39 {
                proof {
                    if s > 39 {
                        lemma_pow2_strictly_increases(39, s as nat);
                    }
                    assert(w >= 0x80_0000 * 0x80_0000_0000) by (nonlinear_arith)
                        requires
                            w == m * pow2(s as nat),
                            m >= 0x80_0000,
                            pow2(s as nat) >= 0x80_0000_0000,
                    ;
                }
                0x4000_0000_0000_0000
            } else {
                let c: u128 = power_of_two(s);
                proof {
                    if s < 38 {
                        lemma_pow2_strictly_increases(s as nat, 38);
                    }
                    assert(m * c < 0x100_0000 * 0x40_0000_0000) by (nonlinear_arith)
                        requires
                            m < 0x100_0000,
                            0 < c <= 0x40_0000_0000,
                    ;
                }
                (m as u64) * (c as u64)
            }
        } else {
            let s: u32 = 149 - k;
            proof {
                lemma_pow2_adds(s as nat, k as nat);
                lemma_pow2_pos(s as nat);
                lemma_pow2_pos(k as nat);
                let g: nat = pow2(s as nat);
                let u: nat = pow2(k as nat);
                let f: nat = m as nat / g;
                lemma_floor_below(m as nat, g, f);
                lemma_floor_below(m as nat, g, f + 1);
                assert(m * u >= (g * u) * f) by (nonlinear_arith)
                    requires
                        m >= g * f,
                ;
                assert(m * u < (g * u) * (f + 1)) by (nonlinear_arith)
                    requires
                        m < g * (f + 1),
                        u > 0,
                ;
                lemma_floor_below(x, pow2(149), f);
                lemma_floor_below(x, pow2(149), f + 1);
                assert(x / pow2(149) == f);
            }
            if s > 24 {
                proof {
                    lemma_pow2_strictly_increases(24, s as nat);
                    lemma_floor_below(m as nat, pow2(s as nat), 1);
                }
                0
            } else {
                let c: u128 = power_of_two(s);
                proof {
                    if s < 24 {
                        lemma_pow2_strictly_increases(s as nat, 24);
                    }
                    let f: nat = m as nat / (c as nat);
                    assert(f <= m) by (nonlinear_arith)
                        requires
                            f == m as nat / (c as nat),
                            c > 0,
                    ;
                }
                (m as u64) / (c as u64)
            }
        }
    }

    /// The whole part, moved into the range of `i32`.
    pub fn to_i32(self) -> (r: i32)
        ensures
            r == to_int(self, i32::MIN as int, i32::MAX as int),
    {
        reveal(to_int);
        let a: u32 = self.without_sign();
        let neg = self.sign();
        if a > INFINITY_BITS {
            0
        } else if a == INFINITY_BITS {
            if neg {
                i32::MIN
            } else {
                i32::MAX
            }
        } else {
            let w: u64 = self.whole_size();
            if neg {
                if w >= 0x8000_0000 {
                    i32::MIN
                } else {
                    -(w as i32)
                }
            } else if w > 0x7fff_ffff {
                i32::MAX
            } else {
                w as i32
            }
        }
    }

    /// The whole part, moved into the range of `u32`.
    pub fn to_u32(self) -> (r: u32)
        ensures
            r == to_int(self, 0, u32::MAX as int),
    {
        reveal(to_int);
        let a: u32 = self.without_sign();
        proof {
            lemma_pow2_pos(149);
        }
        if a > INFINITY_BITS || self.sign() {
            0
        } else if a == INFINITY_BITS {
            u32::MAX
        } else {
            let w: u64 = self.whole_size();
            if w > 0xffff_ffff {
                u32::MAX
            } else {
                w as u32
            }
        }
    }

    /// The whole part, moved into the range of `u8`.
    pub fn to_u8(self) -> (r: u8)
        ensures
            r == to_int(self, 0, u8::MAX as int),
    {
        reveal(to_int);
        let w: u32 = self.to_u32();
        if w > 255 {
            255
        } else {
            w as u8
        }
    }
}

} // verus!
