//! Products and quotients of reals, a step at a time.
use vstd::prelude::*;

verus! {

/// Factors keep the order, and so do equal positive ones that are left out.
pub proof fn lemma_times(a: real, b: real, c: real)
    by (nonlinear_arith)
    requires
        c > 0real,
    ensures
        a <= b <==> a * c <= b * c,
        a < b <==> a * c < b * c,
        a == b <==> a * c == b * c,
{
}

/// A factor that is not negative keeps the order.
pub proof fn lemma_times_same(a: real, b: real, c: real)
    by (nonlinear_arith)
    requires
        c >= 0real,
        a <= b,
    ensures
        a * c <= b * c,
        c * a <= c * b,
{
}

/// A quotient times its divisor.
pub proof fn lemma_over(a: real, c: real)
    by (nonlinear_arith)
    requires
        c != 0real,
    ensures
        (a / c) * c == a,
{
}

/// Factors go into sums, differences and opposites.
pub proof fn lemma_spread(a: real, b: real, c: real)
    by (nonlinear_arith)
    ensures
        (a + b) * c == a * c + b * c,
        (a - b) * c == a * c - b * c,
        (-a) * c == -(a * c),
        a * (-c) == -(a * c),
        a * c == c * a,
{
}

/// Factors may be grouped otherwise.
pub proof fn lemma_group(a: real, b: real, c: real)
    by (nonlinear_arith)
    ensures
        (a * b) * c == a * (b * c),
        (a * b) * c == (a * c) * b,
{
}

/// A product of whole numbers as a product of reals.
pub proof fn lemma_real_product(a: int, b: int)
    by (nonlinear_arith)
    ensures
        (a * b) as real == a as real * b as real,
{
}

/// A part of a product.
pub proof fn lemma_part(a: real, c: real)
    by (nonlinear_arith)
    ensures
        (a / 16777216real) * c == (a * c) / 16777216real,
{
}

/// A product of numbers near others is near the product of those.
pub proof fn lemma_near_product(
    x: real,
    a: real,
    dx: real,
    y: real,
    b: real,
    dy: real,
    most_a: real,
    most_y: real,
)
    requires
        a - dx <= x <= a + dx,
        b - dy <= y <= b + dy,
        dx >= 0real,
        dy >= 0real,
        0real <= a <= most_a,
        0real <= y <= most_y,
    ensures
        a * b - (dx * most_y + dy * most_a) <= x * y <= a * b + (dx * most_y + dy * most_a),
{
    lemma_spread(x, a, y);
    lemma_spread(y, b, a);
    lemma_spread(dx, 0real, y);
    lemma_spread(dy, 0real, a);
    lemma_spread(b, 0real, a);
    lemma_times_same(x - a, dx, y);
    lemma_times_same(-dx, x - a, y);
    lemma_times_same(y, most_y, dx);
    lemma_times_same(y - b, dy, a);
    lemma_times_same(-dy, y - b, a);
    lemma_times_same(a, most_a, dy);
}

/// How far a factor made of a fraction and a strength moves with the fraction.
pub proof fn lemma_fraction_shift(q: real, r: real, j: real, b: real, e: real, most: real)
    requires
        r - e <= q <= r + e,
        0real <= j <= 1real,
        0real <= b <= most,
        e >= 0real,
    ensures
        b * (1real + (r - 1real / 2real) * j) - e * most <= b * (1real + (q - 1real / 2real) * j)
            <= b * (1real + (r - 1real / 2real) * j) + e * most,
{
    let v: real = 1real + (q - 1real / 2real) * j;
    let w: real = 1real + (r - 1real / 2real) * j;
    lemma_spread(q - 1real / 2real, r - 1real / 2real, j);
    lemma_spread(e, 0real, j);
    lemma_times_same(q - r, e, j);
    lemma_times_same(-e, q - r, j);
    lemma_times_same(j, 1real, e);
    lemma_spread(v, w, b);
    lemma_spread(v, 0real, b);
    lemma_spread(w, 0real, b);
    lemma_spread(e, 0real, b);
    lemma_times_same(v - w, e, b);
    lemma_times_same(-e, v - w, b);
    lemma_times_same(b, most, e);
}

/// The square of a number that is a part off another is a larger part off the square.
pub proof fn lemma_near_square(x: real, y: real, z: real)
    requires
        0real <= z,
        4real * z <= y,
        y - z <= x <= y + z,
    ensures
        y * y - 3real * (y * z) <= x * x <= y * y + 3real * (y * z),
{
    let a: real = y - z;
    let b: real = y + z;
    lemma_times_same(a, x, a);
    lemma_times_same(a, x, x);
    lemma_times_same(x, b, x);
    lemma_times_same(x, b, b);
    lemma_spread(a, 0real, x);
    lemma_spread(b, 0real, x);
    lemma_spread(y, z, y + z);
    lemma_spread(y, z, y - z);
    lemma_spread(y, z, y);
    lemma_spread(y, z, z);
    lemma_times_same(4real * z, y, z);
    lemma_times_same(0real, z, z);
    lemma_spread(0real, 0real, z);
    lemma_group(4real, z, z);
    assert(b * b == y * y + 2real * (y * z) + z * z) by (nonlinear_arith)
        requires
            b == y + z,
    ;
    assert(a * a == y * y - 2real * (y * z) + z * z) by (nonlinear_arith)
        requires
            a == y - z,
    ;
}

} // verus!
