//! The cut of an axis into equal slices, counted from one.
use crate::reals::{lemma_group, lemma_over, lemma_real_product, lemma_times};
use crate::rounding::{
    lemma_magnitude_monotone, lemma_round_exact, lemma_round_monotone, magnitude, round_bits,
};
use crate::single::{fdiv, fle, flt, from_int, to_int, zero, Single};
use crate::single_facts::{
    is_whole, lemma_from_int, lemma_magnitude_zero, lemma_round_at_most_power, lemma_whole_size,
};
use crate::single_order::{
    in_unit, lemma_div_order, lemma_div_self, lemma_fine_below_one, lemma_from_int_order, lemma_one,
    lemma_zero_over, one,
};
use crate::values::{
    lemma_from_int_value, lemma_quotient, lemma_to_int_limits, lemma_to_int_value,
    lemma_value_whole, near, value,
};
use vstd::arithmetic::power2::{lemma2_to64, lemma_pow2_adds, lemma_pow2_pos, pow2};
use vstd::prelude::*;

verus! {

/// `v` moved into the range from `lo` to `hi`.
pub open spec fn within(v: int, lo: int, hi: int) -> int {
    if v < lo {
        lo
    } else if v > hi {
        hi
    } else {
        v
    }
}

/// The whole number that a parameter is set to.
pub open spec fn setting(x: Single) -> int {
    to_int(x, i32::MIN as int, i32::MAX as int)
}

/// How many slices there are.
pub open spec fn slice_count(segments: Single) -> int {
    if setting(segments) < 1 {
        1
    } else {
        setting(segments)
    }
}

/// The edge behind slice `k` of `n`, as a fraction of the axis.
pub open spec fn edge(k: int, n: int) -> Single {
    fdiv(from_int(k), from_int(n))
}

/// How many slices there are.
pub fn count_slices(segments: Single) -> (n: i32)
    ensures
        n == slice_count(segments),
        n >= 1,
{
    let n: i32 = segments.to_i32();
    if n < 1 {
        1
    } else {
        n
    }
}

/// The slice that is picked: `k`, moved into the slices there are.
pub fn pick_slice(k: i32, n: i32) -> (r: i32)
    requires
        n >= 1,
    ensures
        r == within(k as int, 1, n as int),
{
    if k < 1 {
        1
    } else if k > n {
        n
    } else {
        k
    }
}

/// The edge behind slice `k` of `n`.
pub fn edge_of(k: i32, n: i32) -> (r: Single)
    ensures
        r == edge(k as int, n as int),
{
    Single::from_i32(k).over(Single::from_i32(n))
}

/// There is at least one slice, and no more than can be counted.
pub proof fn lemma_slice_count(segments: Single)
    ensures
        1 <= slice_count(segments) <= i32::MAX,
{
    reveal(to_int);
}

/// The first edge is zero, the last one is one.
pub proof fn lemma_edge_ends(n: int)
    requires
        1 <= n <= i32::MAX,
    ensures
        edge(0, n) == zero(),
        edge(n, n) == one(),
{
    lemma_counts(0, n);
    lemma_from_int(0);
    lemma_whole_size(from_int(0), 0);
    lemma_zero_over(from_int(n));
    lemma_div_self(from_int(n));
}

/// A count of slices is a number above zero.
proof fn lemma_counts(k: int, n: int)
    requires
        0 <= k <= n,
        1 <= n <= i32::MAX,
    ensures
        from_int(n).is_finite(),
        flt(zero(), from_int(n)),
        !from_int(n).negative(),
        fle(zero(), from_int(k)),
        fle(from_int(k), from_int(n)),
{
    lemma_from_int_order(0, k);
    lemma_from_int_order(k, n);
    lemma_from_int_order(1, n);
    lemma_from_int(0);
    lemma_from_int(1);
    lemma_whole_size(from_int(0), 0);
    lemma_whole_size(from_int(1), 1);
}

/// Edges lie between zero and one, in the order of their slices.
pub proof fn lemma_edges_in_order(j: int, k: int, n: int)
    requires
        0 <= j <= k <= n,
        1 <= n <= i32::MAX,
    ensures
        fle(edge(j, n), edge(k, n)),
        in_unit(edge(j, n)),
        in_unit(edge(k, n)),
{
    lemma_counts(j, n);
    lemma_counts(k, n);
    lemma_from_int_order(j, k);
    lemma_div_order(from_int(j), from_int(k), from_int(n));
    lemma_div_order(from_int(k), from_int(n), from_int(n));
    lemma_div_self(from_int(n));
}

/// `x` lies in slice `k` of `n`.
pub open spec fn in_slice(x: Single, k: int, n: int) -> bool {
    fle(edge(k - 1, n), x) && flt(x, edge(k, n))
}

/// The slice up to `k` in which `x` lies.
pub proof fn lemma_find_slice(x: Single, k: int, n: int) -> (r: int)
    requires
        1 <= k <= n <= i32::MAX,
        fle(zero(), x),
        flt(x, edge(k, n)),
    ensures
        1 <= r <= k,
        in_slice(x, r, n),
    decreases k,
{
    lemma_edges_in_order(k - 1, k, n);
    if fle(edge(k - 1, n), x) {
        k
    } else {
        if k == 1 {
            lemma_edge_ends(n);
        }
        lemma_find_slice(x, k - 1, n)
    }
}

/// Slices cover the axis without a gap and without an overlap: every place from zero to
/// one, one left out, lies in exactly one of them.
pub proof fn lemma_slices_tile(x: Single, n: int)
    requires
        1 <= n <= i32::MAX,
        fle(zero(), x),
        flt(x, one()),
    ensures
        exists|k: int| 1 <= k <= n && #[trigger] in_slice(x, k, n),
        forall|j: int, k: int|
            1 <= j <= n && 1 <= k <= n && #[trigger] in_slice(x, j, n) && #[trigger] in_slice(
                x,
                k,
                n,
            ) ==> j == k,
{
    lemma_edge_ends(n);
    let k: int = lemma_find_slice(x, n, n);
    assert(in_slice(x, k, n));
    assert forall|j: int, k: int|
        1 <= j <= n && 1 <= k <= n && #[trigger] in_slice(x, j, n) && #[trigger] in_slice(
            x,
            k,
            n,
        ) implies j == k by {
        if j < k {
            lemma_edges_in_order(j, k - 1, n);
        } else if k < j {
            lemma_edges_in_order(k, j - 1, n);
        }
    }
}

/// Below 2^24 slices, none is empty.
pub proof fn lemma_slice_not_empty(k: int, n: int)
    requires
        1 <= k <= n < 0x100_0000,
    ensures
        flt(edge(k - 1, n), edge(k, n)),
{
    reveal(fdiv);
    lemma_edges_in_order(k - 1, k, n);
    let u: nat = pow2(149);
    let d: nat = (n as nat) * u;
    lemma_pow2_pos(149);
    lemma_from_int(k - 1);
    lemma_from_int(k);
    lemma_from_int(n);
    lemma_whole_size(from_int(k - 1), k - 1);
    lemma_whole_size(from_int(k), k);
    lemma_whole_size(from_int(n), n);
    assert(d > 0) by (nonlinear_arith)
        requires
            d == n * u,
            n > 0,
            u > 0,
    ;
    let n1: nat = (((k - 1) as nat) * u) * u;
    let n2: nat = ((k as nat) * u) * u;
    let r1: nat = round_bits(n1, d);
    let r2: nat = round_bits(n2, d);
    lemma_one();
    // Both edges round to at most one.
    assert(n2 <= pow2(149) * d) by (nonlinear_arith)
        requires
            n2 == (k * u) * u,
            d == n * u,
            pow2(149) == u,
            k <= n,
    ;
    assert(n1 + u * u == n2) by (nonlinear_arith)
        requires
            n1 == ((k - 1) * u) * u,
            n2 == (k * u) * u,
    ;
    assert(u * u > 0) by (nonlinear_arith)
        requires
            u > 0,
    ;
    lemma_round_at_most_power(n1, d, 149);
    lemma_round_at_most_power(n2, d, 149);
    // Below one the grid has steps of at most 2^125.
    let s: nat = pow2(125);
    lemma_fine_below_one(n1, d);
    assert(d * s < 0x100_0000 * (u * s)) by (nonlinear_arith)
        requires
            d == n * u,
            n < 0x100_0000,
            u > 0,
            s > 0,
    ;
    lemma2_to64();
    lemma_pow2_adds(24, 125);
    assert(0x100_0000 * (u * s) == u * u) by (nonlinear_arith)
        requires
            u == 0x100_0000 * s,
    ;
    let m1: nat = magnitude(r1);
    let m2: nat = magnitude(r2);
    if k < n {
        assert(n2 < pow2(149) * d) by (nonlinear_arith)
            requires
                n2 == (k * u) * u,
                d == n * u,
                pow2(149) == u,
                u > 0,
                k < n,
        ;
        lemma_fine_below_one(n2, d);
    } else {
        assert(n2 == magnitude(one().unsigned()) * d) by (nonlinear_arith)
            requires
                n2 == (k * u) * u,
                d == n * u,
                magnitude(one().unsigned()) == u,
                k == n,
        ;
        lemma_round_exact(one().unsigned(), d);
    }
    assert(m1 * d < m2 * d);
    if r1 >= r2 {
        if r2 < r1 {
            lemma_magnitude_monotone(r2, r1);
        }
        assert(m1 * d >= m2 * d) by (nonlinear_arith)
            requires
                m1 >= m2,
        ;
    }
}

/// The edge behind slice `k` of `n` is the fraction `k / n`, up to rounding, and no place
/// lies between the two: a place at or behind `k / n` is at or behind the edge, and one up
/// to `k / n` is up to the edge.
pub proof fn lemma_edge_is_fraction(k: int, n: int, x: Single)
    requires
        0 <= k <= n,
        1 <= n <= 0x100_0000,
        x.is_finite(),
        fle(zero(), x),
    ensures
        edge(k, n).is_finite(),
        near(value(edge(k, n)), k as real / n as real, 1real / 8388608real),
        value(x) * n as real >= k as real ==> fle(edge(k, n), x),
        value(x) * n as real <= k as real ==> fle(x, edge(k, n)),
{
    let e = edge(k, n);
    lemma_from_int_value(k);
    lemma_from_int_value(n);
    lemma_edges_in_order(k, n, n);
    let q: real = k as real / n as real;
    lemma_over(k as real, n as real);
    lemma_times(0real, q, n as real);
    lemma_times(q, 1real, n as real);
    lemma_quotient(from_int(k), from_int(n), 1real);
    // In units: the edge is k * u / n, rounded.
    let u: nat = pow2(149);
    let d: nat = (n as nat) * u;
    let m: nat = magnitude(x.unsigned());
    lemma_pow2_pos(149);
    lemma_from_int(k);
    lemma_from_int(n);
    lemma_whole_size(from_int(k), k);
    lemma_whole_size(from_int(n), n);
    let a: nat = ((k as nat) * u) * u;
    assert(d > 0) by (nonlinear_arith)
        requires
            d == n * u,
            n > 0,
            u > 0,
    ;
    assert(!e.negative() && e.unsigned() == round_bits(a, d)) by {
        reveal(fdiv);
        assert(a * d <= (d * u) * d) by (nonlinear_arith)
            requires
                a == (k * u) * u,
                d == n * u,
                k <= n,
        ;
        lemma_round_monotone(a, d, d * u, d);
        lemma_one();
        lemma_round_exact(one().unsigned(), d);
        assert(magnitude(one().unsigned()) * d == d * u) by (nonlinear_arith)
            requires
                magnitude(one().unsigned()) == u,
        ;
    }
    lemma_zero_value(x);
    let v: int = m * n;
    lemma_real_product(m as int, n);
    lemma_real_product(k, u as int);
    lemma_value_times(x, n as real);
    lemma_times(value(x) * n as real, k as real, u as real);
    lemma_round_exact(x.unsigned(), d);
    if value(x) * n as real >= k as real {
        assert(k * u <= m * n);
        assert(a * d <= (m * d) * d) by (nonlinear_arith)
            requires
                k * u <= m * n,
                a == (k * u) * u,
                d == n * u,
        ;
        lemma_round_monotone(a, d, m * d, d);
    }
    if value(x) * n as real <= k as real {
        assert(k * u >= m * n);
        assert((m * d) * d <= a * d) by (nonlinear_arith)
            requires
                k * u >= m * n,
                a == (k * u) * u,
                d == n * u,
        ;
        lemma_round_monotone(m * d, d, a, d);
    }
}

/// A place that is not negative, in units.
proof fn lemma_zero_value(x: Single)
    requires
        x.is_finite(),
        fle(zero(), x),
    ensures
        x.units() == magnitude(x.unsigned()),
        x.negative() ==> x.unsigned() == 0,
{
    lemma_magnitude_zero();
}

/// A multiple of a value, in units.
proof fn lemma_value_times(x: Single, c: real)
    ensures
        (value(x) * c) * pow2(149) as real == x.units() as real * c,
{
    lemma_pow2_pos(149);
    lemma_over(x.units() as real, pow2(149) as real);
    lemma_group(value(x), c, pow2(149) as real);
}

/// `x` is the whole number `v`, and perhaps a fraction beyond it, away from zero.
pub open spec fn reads_as(x: Single, v: int) -> bool {
    &&& x.is_finite()
    &&& v > 0 ==> v as real <= value(x) && value(x) < v as real + 1real
    &&& v < 0 ==> v as real >= value(x) && value(x) > v as real - 1real
    &&& v == 0 ==> -1real < value(x) && value(x) < 1real
}

/// A parameter counts as the whole number that it is set to, without a fraction.
pub proof fn lemma_setting_reads(x: Single, v: int)
    requires
        reads_as(x, v),
        i32::MIN <= v <= i32::MAX,
    ensures
        setting(x) == v,
{
    lemma_to_int_limits(x, i32::MIN as int, i32::MAX as int);
    if value(x) >= 0real && v < i32::MAX {
        lemma_to_int_value(x, i32::MIN as int, i32::MAX as int);
    }
}

/// A whole number reads as itself.
pub proof fn lemma_whole_reads(x: Single, v: int)
    requires
        is_whole(x, v),
    ensures
        reads_as(x, v),
{
    lemma_value_whole(x, v);
}

} // verus!
