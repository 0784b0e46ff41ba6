//! The Euclidean distance transform of a mask.
use crate::distance::{dt_1d, settled, transform};
use crate::distance_facts::{
    clear_above, cost, is_least_cost, lemma_mixed_row, lemma_settled, lemma_transform_at_least,
    lemma_transform_bounded, lemma_transform_exact, mixed_row, row_bounded,
};
use crate::single::{fle, from_int, fsqrt, zero, Single};
use crate::single_facts::{
    bounded, is_whole, lemma_bounded_from_int, lemma_bounded_larger, lemma_from_int,
    lemma_magnitude_zero,
};
use vstd::arithmetic::div_mod::{
    lemma_fundamental_div_mod, lemma_fundamental_div_mod_converse, lemma_mod_bound,
};
use vstd::arithmetic::power2::{lemma2_to64, lemma_pow2_pos, pow2};
use vstd::prelude::*;

verus! {

/// More than any squared distance within the mask.
pub open spec fn far(w: nat, h: nat) -> int {
    (w * w + h * h) as int
}

/// What a pixel starts with: nothing outside, more than any distance inside.
pub open spec fn seed(b: bool, w: nat, h: nat) -> Single {
    if b {
        from_int(far(w, h))
    } else {
        zero()
    }
}

/// What row `y` of the mask starts with.
pub open spec fn seed_row(inside: Seq<bool>, w: nat, h: nat, y: int) -> Seq<Single> {
    Seq::new(w, |x: int| seed(inside[y * w + x], w, h))
}

/// Column `x` of the transformed rows.
pub open spec fn column(inside: Seq<bool>, w: nat, h: nat, x: int) -> Seq<Single> {
    Seq::new(h, |y: int| transform(seed_row(inside, w, h, y))[x])
}

/// The squared distance at column `x` of row `y`.
pub open spec fn squared_at(inside: Seq<bool>, w: nat, h: nat, x: int, y: int) -> Single {
    transform(column(inside, w, h, x))[y]
}

/// The distance at column `x` of row `y`: zero for a pixel that is not inside, also where
/// the mask is too large for squares to be exact.
pub open spec fn distance_at(inside: Seq<bool>, w: nat, h: nat, x: int, y: int) -> Single {
    if inside[y * w + x] {
        fsqrt(squared_at(inside, w, h, x, y))
    } else {
        zero()
    }
}

/// The mask is so small that its squared distances are numbers of the machine.
pub open spec fn measurable(w: nat, h: nat) -> bool {
    w * w + h * h <= usize::MAX
}

proof fn lemma_side(w: nat, h: nat)
    requires
        measurable(w, h),
    ensures
        w < 0x1_0000_0000,
        h < 0x1_0000_0000,
        w <= usize::MAX,
        h <= usize::MAX,
        far(w, h) <= 0x1_0000_0000_0000_0000,
{
    assert(w < 0x1_0000_0000) by (nonlinear_arith)
        requires
            w * w + h * h <= 0xffff_ffff_ffff_ffff,
    ;
    assert(h < 0x1_0000_0000) by (nonlinear_arith)
        requires
            w * w + h * h <= 0xffff_ffff_ffff_ffff,
    ;
    assert(w <= w * w + h * h) by (nonlinear_arith);
    assert(h <= w * w + h * h) by (nonlinear_arith);
}

/// What rows start with is bounded.
proof fn lemma_seeds_bounded(inside: Seq<bool>, w: nat, h: nat, y: int)
    requires
        measurable(w, h),
    ensures
        row_bounded(seed_row(inside, w, h, y), 64),
        row_bounded(seed_row(inside, w, h, y), 66),
{
    let f = seed_row(inside, w, h, y);
    lemma_side(w, h);
    lemma2_to64();
    lemma_bounded_from_int(far(w, h) as nat, 64);
    lemma_magnitude_zero();
    assert forall|i: int| 0 <= i < f.len() implies bounded(#[trigger] f[i], 64)
        && !f[i].negative() by {
        lemma_pow2_pos(213);
    }
    assert forall|i: int| 0 <= i < f.len() implies bounded(#[trigger] f[i], 66) by {
        lemma_bounded_larger(f[i], 64, 66);
    }
}

/// What rows are transformed to is bounded.
proof fn lemma_row_pass(inside: Seq<bool>, w: nat, h: nat, y: int)
    requires
        measurable(w, h),
    ensures
        settled(seed_row(inside, w, h, y)),
        transform(seed_row(inside, w, h, y)).len() == w,
        row_bounded(transform(seed_row(inside, w, h, y)), 65),
{
    let f = seed_row(inside, w, h, y);
    lemma_side(w, h);
    lemma_seeds_bounded(inside, w, h, y);
    lemma_transform_bounded(f, 64);
    lemma_settled(f);
}

/// So are the columns of the transformed rows.
proof fn lemma_column_bounded(inside: Seq<bool>, w: nat, h: nat, x: int)
    requires
        measurable(w, h),
        0 <= x < w,
    ensures
        row_bounded(column(inside, w, h, x), 65),
        row_bounded(column(inside, w, h, x), 66),
{
    let f = column(inside, w, h, x);
    assert forall|y: int| 0 <= y < h implies bounded(#[trigger] f[y], 65)
        && !f[y].negative() by {
        lemma_row_pass(inside, w, h, y);
        let r = transform(seed_row(inside, w, h, y));
        assert(bounded(r[x], 65));
    }
    assert forall|i: int| 0 <= i < f.len() implies bounded(#[trigger] f[i], 66) by {
        lemma_bounded_larger(f[i], 65, 66);
    }
}

proof fn lemma_column_pass(inside: Seq<bool>, w: nat, h: nat, x: int)
    requires
        measurable(w, h),
        0 <= x < w,
    ensures
        settled(column(inside, w, h, x)),
        transform(column(inside, w, h, x)).len() == h,
        row_bounded(transform(column(inside, w, h, x)), 66),
{
    let f = column(inside, w, h, x);
    lemma_side(w, h);
    lemma_column_bounded(inside, w, h, x);
    lemma_transform_bounded(f, 65);
    lemma_settled(f);
}

/// The place of column `x` of row `y`.
pub proof fn lemma_place(w: nat, h: nat, x: int, y: int)
    requires
        0 <= x < w,
        0 <= y < h,
    ensures
        0 <= y * w + x < w * h,
        (y * w + x) / (w as int) == y,
        (y * w + x) % (w as int) == x,
{
    assert(y * w + x < w * h) by (nonlinear_arith)
        requires
            0 <= x < w,
            0 <= y < h,
    ;
    assert(0 <= y * w) by (nonlinear_arith)
        requires
            0 <= y,
    ;
    lemma_fundamental_div_mod_converse(y * w + x, w as int, y, x);
}

/// The column and the row of place `i`.
pub proof fn lemma_unplace(w: nat, h: nat, i: int)
    requires
        0 <= i < w * h,
    ensures
        w > 0,
        0 <= i % (w as int) < w,
        0 <= i / (w as int) < h,
        i == (i / (w as int)) * w + i % (w as int),
{
    assert(w > 0) by (nonlinear_arith)
        requires
            0 <= i < w * h,
    ;
    lemma_fundamental_div_mod(i, w as int);
    lemma_mod_bound(i, w as int);
    let y: int = i / (w as int);
    let x: int = i % (w as int);
    assert(w * y == y * w) by (nonlinear_arith);
    assert(0 <= y < h) by (nonlinear_arith)
        requires
            i == w * y + x,
            0 <= x < w,
            0 <= i < w * h,
    ;
}

/// For each pixel marked inside, the distance to the nearest pixel that is not; zero for
/// the others. Pixel `i` is at column `i % width` of row `i / width`.
pub fn compute_edt(inside: &[bool], width: usize, height: usize) -> (d: Vec<Single>)
    requires
        width * height <= inside.len(),
        measurable(width as nat, height as nat),
    ensures
        d.len() == inside.len(),
        forall|i: int|
            0 <= i < width * height ==> #[trigger] d[i] == distance_at(
                inside@,
                width as nat,
                height as nat,
                i % (width as int),
                i / (width as int),
            ),
        forall|i: int|
            width * height <= i < inside.len() ==> #[trigger] d[i] == fsqrt(
                seed(inside[i], width as nat, height as nat),
            ),
{
    let ghost w: nat = width as nat;
    let ghost h: nat = height as nat;
    let ghost n: int = width * height;
    proof {
        lemma_side(w, h);
        assert(width * width <= w * w + h * h) by (nonlinear_arith)
            requires
                w == width,
        ;
        assert(height * height <= w * w + h * h) by (nonlinear_arith)
            requires
                h == height,
        ;
    }
    let far_off = Single::from_u64((width * width + height * height) as u64);
    let mut grid: Vec<Single> = Vec::new();
    let mut i: usize = 0;
    while i < inside.len()
        invariant
            i <= inside.len(),
            grid.len() == i,
            far_off == from_int(far(w, h)),
            forall|j: int| 0 <= j < i ==> #[trigger] grid[j] == seed(inside[j], w, h),
        decreases inside.len() - i,
    {
        if inside[i] {
            grid.push(far_off);
        } else {
            grid.push(Single { bits: 0 });
        }
        i = i + 1;
    }
    // Rows.
    let mut y: usize = 0;
    while y < height
        invariant
            y <= height,
            w == width,
            h == height,
            n == width * height,
            n <= inside.len(),
            measurable(w, h),
            grid.len() == inside.len(),
            forall|j: int|
                0 <= j < n && j / (w as int) < y ==> #[trigger] grid[j] == transform(
                    seed_row(inside@, w, h, j / (w as int)),
                )[j % (w as int)],
            forall|j: int|
                0 <= j < inside.len() && (j >= n || j / (w as int) >= y)
                    ==> #[trigger] grid[j] == seed(inside[j], w, h),
        decreases height - y,
    {
        let mut row: Vec<Single> = Vec::new();
        let mut x: usize = 0;
        while x < width
            invariant
                x <= width,
                y < height,
                w == width,
                h == height,
                n == width * height,
                n <= inside.len(),
                grid.len() == inside.len(),
                row.len() == x,
                forall|j: int|
                    0 <= j < inside.len() && (j >= n || j / (w as int) >= y)
                        ==> #[trigger] grid[j] == seed(inside[j], w, h),
                forall|c: int|
                    0 <= c < x ==> #[trigger] row[c] == seed(inside[y * w + c], w, h),
            decreases width - x,
        {
            proof {
                lemma_place(w, h, x as int, y as int);
                assert(y * width >= 0) by (nonlinear_arith);
            }
            row.push(grid[y * width + x]);
            x = x + 1;
        }
        proof {
            lemma_row_pass(inside@, w, h, y as int);
        }
        assert(row@ =~= seed_row(inside@, w, h, y as int));
        let result = dt_1d(row.as_slice());
        assert forall|j: int|
            0 <= j < n && (j / (w as int) < y || (j / (w as int) == y && j % (w as int)
                < 0)) implies #[trigger] grid[j] == transform(
            seed_row(inside@, w, h, j / (w as int)),
        )[j % (w as int)] by {
            lemma_unplace(w, h, j);
        }
        let mut x: usize = 0;
        while x < width
            invariant
                x <= width,
                y < height,
                w == width,
                h == height,
                n == width * height,
                n <= inside.len(),
                grid.len() == inside.len(),
                result@ == transform(seed_row(inside@, w, h, y as int)),
                result.len() == w,
                forall|j: int|
                    0 <= j < n && (j / (w as int) < y || (j / (w as int) == y && j % (w as int)
                        < x)) ==> #[trigger] grid[j] == transform(
                        seed_row(inside@, w, h, j / (w as int)),
                    )[j % (w as int)],
                forall|j: int|
                    0 <= j < inside.len() && (j >= n || j / (w as int) > y)
                        ==> #[trigger] grid[j] == seed(inside[j], w, h),
            decreases width - x,
        {
            proof {
                lemma_place(w, h, x as int, y as int);
                assert(y * width >= 0) by (nonlinear_arith);
            }
            let ghost before = grid@;
            let at: usize = y * width + x;
            grid.set(at, result[x]);
            assert forall|j: int|
                0 <= j < n && (j / (w as int) < y || (j / (w as int) == y && j % (w as int) < x
                    + 1)) implies #[trigger] grid[j] == transform(
                seed_row(inside@, w, h, j / (w as int)),
            )[j % (w as int)] by {
                if j != at {
                    lemma_unplace(w, h, j);
                    assert(grid[j] == before[j]);
                }
            }
            x = x + 1;
        }
        assert forall|j: int| 0 <= j < n && j / (w as int) < y + 1 implies #[trigger] grid[j]
            == transform(seed_row(inside@, w, h, j / (w as int)))[j % (w as int)] by {
            lemma_unplace(w, h, j);
        }
        y = y + 1;
    }
    assert forall|j: int| 0 <= j < n implies #[trigger] grid[j] == transform(
        seed_row(inside@, w, h, j / (w as int)),
    )[j % (w as int)] by {
        lemma_unplace(w, h, j);
    }
    // Columns.
    let mut x: usize = 0;
    while x < width
        invariant
            x <= width,
            w == width,
            h == height,
            n == width * height,
            n <= inside.len(),
            measurable(w, h),
            grid.len() == inside.len(),
            forall|j: int|
                0 <= j < n && j % (w as int) >= x ==> #[trigger] grid[j] == transform(
                    seed_row(inside@, w, h, j / (w as int)),
                )[j % (w as int)],
            forall|j: int|
                0 <= j < n && j % (w as int) < x ==> #[trigger] grid[j] == squared_at(
                    inside@,
                    w,
                    h,
                    j % (w as int),
                    j / (w as int),
                ),
            forall|j: int| n <= j < inside.len() ==> #[trigger] grid[j] == seed(inside[j], w, h),
        decreases width - x,
    {
        let mut col: Vec<Single> = Vec::new();
        let mut y: usize = 0;
        while y < height
            invariant
                y <= height,
                x < width,
                w == width,
                h == height,
                n == width * height,
                n <= inside.len(),
                grid.len() == inside.len(),
                col.len() == y,
                forall|j: int|
                    0 <= j < n && j % (w as int) >= x ==> #[trigger] grid[j] == transform(
                        seed_row(inside@, w, h, j / (w as int)),
                    )[j % (w as int)],
                forall|r: int|
                    0 <= r < y ==> #[trigger] col[r] == transform(
                        seed_row(inside@, w, h, r),
                    )[x as int],
            decreases height - y,
        {
            proof {
                lemma_place(w, h, x as int, y as int);
                assert(y * width >= 0) by (nonlinear_arith);
            }
            col.push(grid[y * width + x]);
            y = y + 1;
        }
        proof {
            lemma_column_pass(inside@, w, h, x as int);
        }
        assert(col@ =~= column(inside@, w, h, x as int));
        let result = dt_1d(col.as_slice());
        let mut y: usize = 0;
        while y < height
            invariant
                y <= height,
                x < width,
                w == width,
                h == height,
                n == width * height,
                n <= inside.len(),
                grid.len() == inside.len(),
                result@ == transform(column(inside@, w, h, x as int)),
                result.len() == h,
                forall|j: int|
                    0 <= j < n && j % (w as int) > x ==> #[trigger] grid[j] == transform(
                        seed_row(inside@, w, h, j / (w as int)),
                    )[j % (w as int)],
                forall|j: int|
                    0 <= j < n && (j % (w as int) < x || (j % (w as int) == x && j / (w as int)
                        < y)) ==> #[trigger] grid[j] == squared_at(
                        inside@,
                        w,
                        h,
                        j % (w as int),
                        j / (w as int),
                    ),
                forall|j: int|
                    n <= j < inside.len() ==> #[trigger] grid[j] == seed(inside[j], w, h),
            decreases height - y,
        {
            proof {
                lemma_place(w, h, x as int, y as int);
                assert(y * width >= 0) by (nonlinear_arith);
            }
            let ghost before = grid@;
            let at: usize = y * width + x;
            grid.set(at, result[y]);
            assert forall|j: int|
                0 <= j < n && (j % (w as int) < x || (j % (w as int) == x && j / (w as int) < y
                    + 1)) implies #[trigger] grid[j] == squared_at(
                inside@,
                w,
                h,
                j % (w as int),
                j / (w as int),
            ) by {
                if j != at {
                    lemma_unplace(w, h, j);
                    assert(grid[j] == before[j]);
                }
            }
            y = y + 1;
        }
        assert forall|j: int| 0 <= j < n && j % (w as int) < x + 1 implies #[trigger] grid[j]
            == squared_at(inside@, w, h, j % (w as int), j / (w as int)) by {
            lemma_unplace(w, h, j);
        }
        x = x + 1;
    }
    assert forall|j: int| 0 <= j < n implies #[trigger] grid[j] == squared_at(
        inside@,
        w,
        h,
        j % (w as int),
        j / (w as int),
    ) by {
        lemma_unplace(w, h, j);
    }
    // Roots.
    let mut d: Vec<Single> = Vec::new();
    let mut i: usize = 0;
    while i < grid.len()
        invariant
            i <= grid.len(),
            grid.len() == inside.len(),
            d.len() == i,
            forall|j: int|
                0 <= j < i ==> #[trigger] d[j] == (if inside[j] {
                    fsqrt(grid[j])
                } else {
                    zero()
                }),
        decreases grid.len() - i,
    {
        if inside[i] {
            d.push(grid[i].root());
        } else {
            d.push(Single { bits: 0 });
        }
        i = i + 1;
    }
    proof {
        assert(fsqrt(zero()) == zero()) by {
            reveal(fsqrt);
        }
        assert forall|j: int| 0 <= j < n implies #[trigger] d[j] == distance_at(
            inside@,
            w,
            h,
            j % (w as int),
            j / (w as int),
        ) by {
            lemma_unplace(w, h, j);
            assert(grid[j] == squared_at(inside@, w, h, j % (w as int), j / (w as int)));
        }
    }
    d
}

/// The squared distance between the pixels `i` and `j`.
pub open spec fn apart(w: nat, i: int, j: int) -> int {
    let dx: int = i % (w as int) - j % (w as int);
    let dy: int = i / (w as int) - j / (w as int);
    dx * dx + dy * dy
}

/// Some pixel is not inside.
pub open spec fn has_outside(inside: Seq<bool>, w: nat, h: nat) -> bool {
    exists|j: int| 0 <= j < w * h && !(#[trigger] inside[j])
}

/// `m` is the squared distance from pixel `i` to the nearest pixel that is not inside.
pub open spec fn is_nearest_outside(
    inside: Seq<bool>,
    w: nat,
    h: nat,
    i: int,
    m: int,
) -> bool {
    &&& exists|j: int| 0 <= j < w * h && !inside[j] && m == #[trigger] apart(w, i, j)
    &&& forall|j: int| 0 <= j < w * h && !inside[j] ==> m <= #[trigger] apart(w, i, j)
}

/// Squared distances within a mask of this size are whole numbers of binary32.
pub open spec fn exactly_measurable(w: nat, h: nat) -> bool {
    (w - 1) * (w - 1) + (h - 1) * (h - 1) <= 0x100_0000
}

/// Which pixels of row `y` are not inside.
spec fn outside_in_row(inside: Seq<bool>, w: nat, y: int) -> Seq<bool> {
    Seq::new(w, |x: int| !inside[y * w + x])
}

/// Some pixel of row `y` is not inside.
spec fn row_has_outside(inside: Seq<bool>, w: nat, y: int) -> bool {
    exists|x: int| 0 <= x < w && #[trigger] outside_in_row(inside, w, y)[x]
}

/// What the pixels start with that are not inside.
spec fn no_costs(w: nat) -> Seq<nat> {
    Seq::new(w, |x: int| 0nat)
}

/// The squared distance from the place `x` of row `y` to the nearest pixel of the row
/// that is not inside.
spec fn row_least(inside: Seq<bool>, w: nat, x: int, y: int) -> int {
    choose|m: int| is_least_cost(no_costs(w), outside_in_row(inside, w, y), x, m)
}

/// Which rows have pixels that are not inside.
spec fn near_rows(inside: Seq<bool>, w: nat, h: nat) -> Seq<bool> {
    Seq::new(h, |y: int| row_has_outside(inside, w, y))
}

spec fn column_costs(inside: Seq<bool>, w: nat, h: nat, x: int) -> Seq<nat> {
    Seq::new(h, |y: int| row_least(inside, w, x, y) as nat)
}

proof fn lemma_least_unique(g: Seq<nat>, near: Seq<bool>, x: int, a: int, b: int)
    requires
        is_least_cost(g, near, x, a),
        is_least_cost(g, near, x, b),
    ensures
        a == b,
{
    let p: int = choose|p: int| 0 <= p < g.len() && near[p] && a == #[trigger] cost(g, p, x);
    let q: int = choose|q: int| 0 <= q < g.len() && near[q] && b == #[trigger] cost(g, q, x);
    assert(a <= cost(g, q, x) && b <= cost(g, p, x));
}

/// What a size whose squared distances are exact gives for the proofs.
proof fn lemma_side_exact(w: nat, h: nat)
    requires
        exactly_measurable(w, h),
        w > 0,
        h > 0,
    ensures
        w <= 0x1001,
        h <= 0x1001,
        measurable(w, h),
        0 <= (w - 1) * (w - 1),
        0 <= (h - 1) * (h - 1),
        clear_above(far(w, h), (w - 1) * (w - 1) + (h - 1) * (h - 1)),
{
    let a: int = w - 1;
    let b: int = h - 1;
    assert(0 <= a * a && 0 <= b * b) by (nonlinear_arith);
    assert(a <= 0x1000) by (nonlinear_arith)
        requires
            a * a <= 0x100_0000,
    ;
    assert(b <= 0x1000) by (nonlinear_arith)
        requires
            b * b <= 0x100_0000,
    ;
    assert(w * w == a * a + 2 * a + 1) by (nonlinear_arith)
        requires
            w == a + 1,
    ;
    assert(h * h == b * b + 2 * b + 1) by (nonlinear_arith)
        requires
            h == b + 1,
    ;
    if a + b < 4 {
        assert(a * a <= 16 && b * b <= 16) by (nonlinear_arith)
            requires
                0 <= a < 4,
                0 <= b < 4,
        ;
    }
}

/// The first pass gives the squared distances within each row that has a pixel that is
/// not inside, and something far in the others.
proof fn lemma_row_least(inside: Seq<bool>, w: nat, h: nat, x: int, y: int)
    requires
        exactly_measurable(w, h),
        0 <= x < w,
        0 <= y < h,
    ensures
        row_has_outside(inside, w, y) ==> {
            let m: int = row_least(inside, w, x, y);
            &&& is_least_cost(no_costs(w), outside_in_row(inside, w, y), x, m)
            &&& is_whole(transform(seed_row(inside, w, h, y))[x], m)
            &&& 0 <= m <= (w - 1) * (w - 1)
        },
        !row_has_outside(inside, w, y) ==> fle(
            from_int(far(w, h)),
            transform(seed_row(inside, w, h, y))[x],
        ),
{
    let f = seed_row(inside, w, h, y);
    let g = no_costs(w);
    let near = outside_in_row(inside, w, y);
    let d: int = (w - 1) * (w - 1) + (h - 1) * (h - 1);
    lemma_side_exact(w, h);
    lemma_side(w, h);
    lemma_seeds_bounded(inside, w, h, y);
    lemma2_to64();
    lemma_bounded_from_int(far(w, h) as nat, 64);
    if row_has_outside(inside, w, y) {
        assert forall|i: int| 0 <= i < f.len() && near[i] implies is_whole(
            #[trigger] f[i],
            g[i] as int,
        ) && g[i] + (f.len() - 1) * (f.len() - 1) <= d by {
            lemma_magnitude_zero();
            assert(0 * pow2(149) == 0) by (nonlinear_arith);
        }
        lemma_mixed_row(f, g, near, far(w, h), d);
        let a: int = choose|x: int| 0 <= x < w && #[trigger] outside_in_row(inside, w, y)[x];
        lemma_transform_exact(f, g, near, a, x);
        let m: int = choose|m: int|
            #[trigger] is_least_cost(g, near, x, m) && is_whole(transform(f)[x], m);
        let r: int = row_least(inside, w, x, y);
        lemma_least_unique(g, near, x, m, r);
        let p: int = choose|p: int| 0 <= p < g.len() && near[p] && r == #[trigger] cost(g, p, x);
        assert(0 <= (x - p) * (x - p) <= (w - 1) * (w - 1)) by (nonlinear_arith)
            requires
                -(w - 1) <= x - p <= w - 1,
        ;
    } else {
        assert forall|p: int| 0 <= p < f.len() implies fle(
            from_int(far(w, h)),
            #[trigger] f[p],
        ) by {
            assert(!near[p]);
        }
        lemma_transform_at_least(f, x, from_int(far(w, h)));
    }
}

/// Where squared distances are exact in binary32, the squared distance of each pixel is
/// exactly that to the nearest pixel that is not inside.
pub proof fn lemma_squared_distance_is_exact(inside: Seq<bool>, w: nat, h: nat, i: int)
    requires
        exactly_measurable(w, h),
        0 <= i < w * h,
        has_outside(inside, w, h),
    ensures
        exists|m: int|
            #[trigger] is_nearest_outside(inside, w, h, i, m) && is_whole(
                squared_at(inside, w, h, i % (w as int), i / (w as int)),
                m,
            ),
        !squared_at(inside, w, h, i % (w as int), i / (w as int)).negative(),
{
    lemma_unplace(w, h, i);
    let x: int = i % (w as int);
    let y: int = i / (w as int);
    lemma_side_exact(w, h);
    let f = column(inside, w, h, x);
    let g = column_costs(inside, w, h, x);
    let near = near_rows(inside, w, h);
    let d: int = (w - 1) * (w - 1) + (h - 1) * (h - 1);
    lemma_column_bounded(inside, w, h, x);
    assert forall|r: int| 0 <= r < f.len() && near[r] implies is_whole(
        #[trigger] f[r],
        g[r] as int,
    ) && g[r] + (f.len() - 1) * (f.len() - 1) <= d by {
        lemma_row_least(inside, w, h, x, r);
    }
    assert forall|r: int| 0 <= r < f.len() && !near[r] implies fle(
        from_int(far(w, h)),
        #[trigger] f[r],
    ) by {
        lemma_row_least(inside, w, h, x, r);
    }
    lemma_mixed_row(f, g, near, far(w, h), d);
    let j: int = choose|j: int| 0 <= j < w * h && !(#[trigger] inside[j]);
    lemma_unplace(w, h, j);
    assert(outside_in_row(inside, w, j / (w as int))[j % (w as int)]);
    lemma_transform_exact(f, g, near, j / (w as int), y);
    let s = squared_at(inside, w, h, x, y);
    let m: int = choose|m: int| #[trigger] is_least_cost(g, near, y, m) && is_whole(s, m);
    // Where the least cost is attained.
    let y0: int = choose|r: int| 0 <= r < g.len() && near[r] && m == #[trigger] cost(g, r, y);
    lemma_row_least(inside, w, h, x, y0);
    let near0 = outside_in_row(inside, w, y0);
    let p0: int = choose|p: int|
        0 <= p < w && near0[p] && row_least(inside, w, x, y0) == #[trigger] cost(no_costs(w), p, x);
    let j0: int = y0 * w + p0;
    lemma_place(w, h, p0, y0);
    assert(m == apart(w, i, j0));
    // It is no more than the distance of any other pixel.
    assert forall|k: int| 0 <= k < w * h && !inside[k] implies m <= #[trigger] apart(w, i, k) by {
        lemma_unplace(w, h, k);
        let p: int = k % (w as int);
        let r: int = k / (w as int);
        assert(outside_in_row(inside, w, r)[p]);
        lemma_row_least(inside, w, h, x, r);
        assert(m <= cost(g, r, y));
        assert(row_least(inside, w, x, r) <= cost(no_costs(w), p, x));
    }
    assert(is_nearest_outside(inside, w, h, i, m));
}

/// Where all pixels are inside, all squared distances are at least the sum of the squared
/// sides.
pub proof fn lemma_all_inside_is_far(inside: Seq<bool>, w: nat, h: nat, i: int)
    requires
        measurable(w, h),
        0 <= i < w * h,
        !has_outside(inside, w, h),
    ensures
        fle(from_int(far(w, h)), squared_at(inside, w, h, i % (w as int), i / (w as int))),
{
    lemma_unplace(w, h, i);
    let x: int = i % (w as int);
    let y: int = i / (w as int);
    let v = from_int(far(w, h));
    lemma_side(w, h);
    lemma2_to64();
    lemma_bounded_from_int(far(w, h) as nat, 64);
    let f = column(inside, w, h, x);
    assert forall|r: int| 0 <= r < f.len() implies fle(v, #[trigger] f[r]) by {
        let row = seed_row(inside, w, h, r);
        lemma_seeds_bounded(inside, w, h, r);
        assert forall|p: int| 0 <= p < row.len() implies fle(v, #[trigger] row[p]) by {
            lemma_place(w, h, p, r);
            assert(inside[r * w + p]);
        }
        lemma_transform_at_least(row, x, v);
    }
    lemma_column_bounded(inside, w, h, x);
    lemma_transform_at_least(f, y, v);
}

/// A row of equal whole numbers stays as it is.
proof fn lemma_even_row(f: Seq<Single>, s: int, x: int)
    requires
        1 <= f.len() <= 0x1001,
        row_bounded(f, 66),
        0 <= s,
        s + (f.len() - 1) * (f.len() - 1) <= 0x100_0000,
        forall|i: int| 0 <= i < f.len() ==> is_whole(#[trigger] f[i], s) && !f[i].negative(),
        0 <= x < f.len(),
    ensures
        is_whole(transform(f)[x], s),
        !transform(f)[x].negative(),
{
    let g = Seq::new(f.len(), |i: int| s as nat);
    let near = Seq::new(f.len(), |i: int| true);
    assert(mixed_row(f, g, near));
    lemma_transform_exact(f, g, near, 0, x);
    let m: int = choose|m: int|
        #[trigger] is_least_cost(g, near, x, m) && is_whole(transform(f)[x], m);
    assert((x - x) * (x - x) == 0) by (nonlinear_arith);
    assert(m <= cost(g, x, x));
    let p: int = choose|p: int| 0 <= p < g.len() && near[p] && m == #[trigger] cost(g, p, x);
    assert((x - p) * (x - p) >= 0) by (nonlinear_arith);
    assert(m == s);
}

/// Where all pixels are inside, and the sum of the squared sides is exact in binary32, that
/// is the squared distance of each.
pub proof fn lemma_all_inside_is_even(inside: Seq<bool>, w: nat, h: nat, i: int)
    requires
        0 <= i < w * h,
        forall|j: int| 0 <= j < w * h ==> #[trigger] inside[j],
        far(w, h) + w * w <= 0x100_0000,
        far(w, h) + h * h <= 0x100_0000,
    ensures
        is_whole(squared_at(inside, w, h, i % (w as int), i / (w as int)), far(w, h)),
        !squared_at(inside, w, h, i % (w as int), i / (w as int)).negative(),
        far(w, h) > 0,
{
    let x: int = i % (w as int);
    let y: int = i / (w as int);
    let s: int = far(w, h);
    lemma_unplace(w, h, i);
    lemma_side(w, h);
    assert(h > 0);
    assert(w <= 0x1000) by (nonlinear_arith)
        requires
            w * w <= 0x100_0000,
    ;
    assert(h <= 0x1000) by (nonlinear_arith)
        requires
            h * h <= 0x100_0000,
    ;
    assert((w - 1) * (w - 1) <= w * w) by (nonlinear_arith)
        requires
            w >= 1,
    ;
    assert((h - 1) * (h - 1) <= h * h) by (nonlinear_arith)
        requires
            h >= 1,
    ;
    assert(w * w > 0) by (nonlinear_arith)
        requires
            w >= 1,
    ;
    lemma_from_int(s);
    let f = column(inside, w, h, x);
    lemma_column_bounded(inside, w, h, x);
    assert forall|r: int| 0 <= r < f.len() implies is_whole(#[trigger] f[r], s)
        && !f[r].negative() by {
        let row = seed_row(inside, w, h, r);
        lemma_seeds_bounded(inside, w, h, r);
        assert forall|c: int| 0 <= c < row.len() implies is_whole(#[trigger] row[c], s)
            && !row[c].negative() by {
            lemma_place(w, h, c, r);
            assert(inside[r * w + c]);
        }
        lemma_even_row(row, s, x);
    }
    lemma_even_row(f, s, y);
}

} // verus!
