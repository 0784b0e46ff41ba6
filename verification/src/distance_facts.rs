//! What the row transform gives: the exact least cost where the numbers that matter are
//! whole and below 2^24, and bounds in general.
use crate::distance::{
    advance, crossing, envelope, height_at, lemma_envelope_shape, lemma_piece_at, piece_at, settle,
    settled, transform, well_shaped, Piece, FAR_LEFT, TWO,
};
use crate::rounding::{lemma_round_exact, lemma_round_monotone, magnitude, round_bits};
use crate::single::{fadd, fle, flt, fmul, from_int, fsub, size, zero, Single};
use crate::single_facts::{
    bounded, grid_below, is_whole, lemma_bounded_from_int, lemma_bounded_larger,
    lemma_bounded_product, lemma_bounded_quotient, lemma_bounded_sum, lemma_from_int,
    lemma_magnitude_zero, lemma_opposite, lemma_order, lemma_quotient_at_least,
    lemma_quotient_below, lemma_quotient_negative, lemma_round_at_least, lemma_round_at_least_power,
    lemma_signed, lemma_whole_difference, lemma_whole_product, lemma_whole_size, lemma_whole_sum,
};
use vstd::arithmetic::power2::{
    lemma2_to64, lemma_pow2_adds, lemma_pow2_pos, lemma_pow2_unfold, pow2,
};
use vstd::prelude::*;

verus! {

/// All numbers of `f` are between zero and `2^e`.
pub open spec fn row_bounded(f: Seq<Single>, e: nat) -> bool {
    forall|i: int| 0 <= i < f.len() ==> bounded(#[trigger] f[i], e) && !f[i].negative()
}

/// The number two is a whole number.
proof fn lemma_two()
    ensures
        is_whole(Single { bits: TWO }, 2),
        bounded(Single { bits: TWO }, 1),
        !(Single { bits: TWO }).negative(),
{
    lemma2_to64();
    lemma_pow2_adds(23, 127);
    lemma_pow2_adds(1, 149);
}

/// The distance of a site from the first one, doubled, is at least two.
proof fn lemma_doubled_site(q: nat)
    requires
        1 <= q,
        q <= 0x1_0000_0000,
    ensures
        ({
            let two = Single { bits: TWO };
            let d = fsub(fmul(two, from_int(q as int)), fmul(two, from_int(0)));
            d.is_finite() && magnitude(d.unsigned()) >= pow2(150)
        }),
{
    reveal(from_int);
    reveal(fadd);
    reveal(fmul);
    let two = Single { bits: TWO };
    let fq = from_int(q as int);
    let u: nat = pow2(149);
    lemma2_to64();
    lemma_pow2_pos(149);
    lemma_two();
    lemma_bounded_from_int(q, 32);
    assert(1 * u <= q * u) by (nonlinear_arith)
        requires
            1 <= q,
    ;
    lemma_round_at_least_power(q * u, 1, 149);
    let m: nat = magnitude(fq.unsigned());
    assert(m >= u);
    lemma_bounded_product(two, fq, 1, 32);
    let a = fmul(two, fq);
    lemma_whole_size(two, 2);
    lemma_pow2_unfold(150);
    assert((2 * u) * m >= (2 * u) * u) by (nonlinear_arith)
        requires
            m >= u,
    ;
    lemma_round_at_least_power((2 * u) * m, u, 150);
    lemma_from_int(0);
    lemma_whole_product(two, 2, from_int(0), 0);
    let b = fmul(two, from_int(0));
    assert(0 * u == 0);
    lemma_whole_size(b, 0);
    lemma_magnitude_zero();
    lemma_opposite(b);
    lemma_pow2_pos(149 + 33);
    lemma_bounded_sum(a, b, 33);
    lemma_round_exact(a.unsigned(), 1);
    assert(magnitude(a.unsigned()) * 1 == magnitude(a.unsigned()));
}

/// Rows of bounded numbers keep their first parabola.
pub proof fn lemma_settled(f: Seq<Single>)
    requires
        row_bounded(f, 66),
        f.len() <= 0x1_0000_0000,
    ensures
        settled(f),
{
    assert forall|q: int| 1 <= q < f.len() implies flt(
        Single { bits: FAR_LEFT },
        #[trigger] crossing(f, 0, q),
    ) by {
        reveal(crossing);
        let f0 = from_int(0);
        let fq = from_int(q);
        lemma2_to64();
        lemma_bounded_from_int(q as nat, 32);
        lemma_bounded_from_int(0, 32);
        lemma_bounded_product(fq, fq, 32, 32);
        lemma_bounded_product(f0, f0, 32, 32);
        lemma_bounded_larger(fmul(fq, fq), 64, 66);
        lemma_bounded_larger(fmul(f0, f0), 64, 66);
        lemma_bounded_sum(f[q], fmul(fq, fq), 66);
        lemma_bounded_sum(f[0], fmul(f0, f0), 66);
        let a = fadd(f[q], fmul(fq, fq));
        let b = fadd(f[0], fmul(f0, f0));
        lemma_bounded_sum(a, b, 67);
        lemma_doubled_site(q as nat);
        let d = fsub(fmul(Single { bits: TWO }, fq), fmul(Single { bits: TWO }, f0));
        lemma_bounded_quotient(fsub(a, b), d, 67, 1);
        let c = crossing(f, 0, q);
        lemma_pow2_adds(23, 192);
        lemma_pow2_pos(192);
        assert(magnitude(0x60ad_78ec) == 0xad_78ec * pow2(192));
        lemma_order(Single { bits: FAR_LEFT }, c);
    }
}

/// The transform of bounded numbers is bounded.
pub proof fn lemma_transform_bounded(f: Seq<Single>, e: nat)
    requires
        row_bounded(f, e),
        64 <= e <= 66,
        f.len() <= 0x1_0000_0000,
        f.len() <= usize::MAX,
    ensures
        transform(f).len() == f.len(),
        row_bounded(transform(f), e + 1),
{
    assert forall|i: int| 0 <= i < f.len() implies bounded(#[trigger] f[i], 66) by {
        lemma_bounded_larger(f[i], e, 66);
    }
    lemma_settled(f);
    if f.len() > 1 {
        let st = envelope(f, f.len());
        lemma_envelope_shape(f, f.len());
        assert forall|x: int| 0 <= x < f.len() implies bounded(
            #[trigger] transform(f)[x],
            e + 1,
        ) && !transform(f)[x].negative() by {
            lemma_piece_at(st, x as nat);
            let p: int = st[piece_at(st, x as nat) as int].site as int;
            lemma2_to64();
            lemma_bounded_from_int(x as nat, 32);
            lemma_bounded_from_int(p as nat, 32);
            lemma_bounded_sum(from_int(x), from_int(p), 32);
            let diff = fsub(from_int(x), from_int(p));
            lemma_bounded_product(diff, diff, 32, 32);
            lemma_bounded_larger(fmul(diff, diff), 64, e);
            lemma_bounded_sum(fmul(diff, diff), f[p], e);
        }
    } else {
        assert forall|i: int| 0 <= i < f.len() implies bounded(#[trigger] f[i], e + 1) by {
            lemma_bounded_larger(f[i], e, e + 1);
        }
    }
}

/// What it costs to reach the place `x` from the site `p`.
pub open spec fn cost(g: Seq<nat>, p: int, x: int) -> int {
    (x - p) * (x - p) + g[p]
}

/// `m` is the least cost of the place `x` from the near sites.
pub open spec fn is_least_cost(g: Seq<nat>, near: Seq<bool>, x: int, m: int) -> bool {
    &&& exists|p: int| 0 <= p < g.len() && near[p] && m == #[trigger] cost(g, p, x)
    &&& forall|p: int| 0 <= p < g.len() && near[p] ==> m <= #[trigger] cost(g, p, x)
}

/// The numbers of `f` at the near sites are the whole numbers `g`, and all that is
/// computed from them to place their parabolas stays within 2^24. The parabolas over the
/// other sites are so high that they cross those over near ones outside of the row.
pub open spec fn mixed_row(f: Seq<Single>, g: Seq<nat>, near: Seq<bool>) -> bool {
    let n: int = f.len() - 1;
    &&& f.len() == g.len()
    &&& f.len() == near.len()
    &&& 1 <= f.len() <= 0x1001
    &&& forall|i: int|
        0 <= i < f.len() && near[i] ==> is_whole(#[trigger] f[i], g[i] as int) && !f[i].negative()
            && g[i] + n * n <= 0x100_0000
    &&& forall|p: int, q: int|
        0 <= p < q < f.len() && near[p] && !near[q] ==> fle(
            from_int(n),
            #[trigger] crossing(f, p, q),
        )
    &&& forall|p: int, q: int|
        0 <= p < q < f.len() && !near[p] && near[q] ==> flt(
            #[trigger] crossing(f, p, q),
            zero(),
        )
}

proof fn lemma_square_within(a: int, n: int)
    requires
        -n <= a <= n,
    ensures
        0 <= a * a <= n * n,
{
    assert(a * a <= n * n) by (nonlinear_arith)
        requires
            -n <= a <= n,
    ;
    assert(a * a >= 0) by (nonlinear_arith);
}

/// Places are ordered as numbers.
proof fn lemma_places(x: int, y: int)
    requires
        0 <= x <= y <= 0x1000,
    ensures
        fle(zero(), from_int(x)),
        fle(from_int(x), from_int(y)),
        x < y ==> flt(from_int(x), from_int(y)),
{
    lemma_from_int(x);
    lemma_from_int(y);
    lemma_pow2_pos(149);
    lemma_order(from_int(x), from_int(y));
    if x < y {
        assert(x * pow2(149) < y * pow2(149)) by (nonlinear_arith)
            requires
                x < y,
                pow2(149) > 0,
        ;
    }
}

/// A crossing of near parabolas is left of a place exactly where the right one is lower
/// there.
proof fn lemma_crossing(f: Seq<Single>, g: Seq<nat>, near: Seq<bool>, p: int, q: int, x: int)
    requires
        mixed_row(f, g, near),
        0 <= p < q < f.len(),
        near[p],
        near[q],
        0 <= x < f.len(),
    ensures
        crossing(f, p, q).is_finite(),
        flt(crossing(f, p, q), from_int(x)) <==> cost(g, q, x) < cost(g, p, x),
{
    reveal(crossing);
    let n: int = f.len() - 1;
    let fp = from_int(p);
    let fq = from_int(q);
    let two = Single { bits: TWO };
    lemma_square_within(p, n);
    lemma_square_within(q, n);
    lemma_from_int(p);
    lemma_from_int(q);
    lemma_from_int(x);
    lemma_two();
    assert(is_whole(f[p], g[p] as int) && is_whole(f[q], g[q] as int));
    lemma_whole_product(fp, p, fp, p);
    lemma_whole_product(fq, q, fq, q);
    lemma_whole_sum(f[p], g[p] as int, fmul(fp, fp), p * p);
    lemma_whole_sum(f[q], g[q] as int, fmul(fq, fq), q * q);
    let b: int = g[p] + p * p;
    let a: int = g[q] + q * q;
    lemma_whole_difference(fadd(f[q], fmul(fq, fq)), a, fadd(f[p], fmul(fp, fp)), b);
    lemma_whole_product(two, 2, fq, q);
    lemma_whole_product(two, 2, fp, p);
    lemma_whole_difference(fmul(two, fq), 2 * q, fmul(two, fp), 2 * p);
    let above = fsub(fadd(f[q], fmul(fq, fq)), fadd(f[p], fmul(fp, fp)));
    let below = fsub(fmul(two, fq), fmul(two, fp));
    if 2 * q - 2 * p == 0x2000 {
        assert(p * p == 0 && q * q == 0x100_0000) by (nonlinear_arith)
            requires
                p == 0,
                q == 0x1000,
        ;
    }
    lemma_quotient_below(above, a - b, below, 2 * q - 2 * p, from_int(x), x);
    assert(x * (2 * q - 2 * p) == 2 * (x * q) - 2 * (x * p)) by (nonlinear_arith);
    assert((x - q) * (x - q) == x * x - 2 * (x * q) + q * q) by (nonlinear_arith);
    assert((x - p) * (x - p) == x * x - 2 * (x * p) + p * p) by (nonlinear_arith);
}

/// The piece `j` of `st` stands on a near site.
spec fn on_near(near: Seq<bool>, st: Seq<Piece>, j: int) -> bool {
    near[st[j].site as int]
}

/// Some near piece of `st` is at `x` no more costly than the site `p`.
spec fn covered(g: Seq<nat>, near: Seq<bool>, st: Seq<Piece>, x: int, p: int) -> bool {
    exists|j: int|
        0 <= j < st.len() && on_near(near, st, j) && #[trigger] cost(g, st[j].site as int, x)
            <= cost(g, p, x)
}

/// The pieces lie in order, each from its crossing with the one before it.
spec fn in_order(f: Seq<Single>, st: Seq<Piece>) -> bool {
    &&& forall|i: int, j: int| 0 <= i < j < st.len() ==> st[i].site < st[j].site
    &&& forall|j: int|
        1 <= j < st.len() ==> (#[trigger] st[j]).from == crossing(
            f,
            st[j - 1].site as int,
            st[j].site as int,
        )
    &&& forall|i: int, j: int| 0 <= i < j < st.len() ==> flt(st[i].from, st[j].from)
}

/// Every near site below `q` is covered by the pieces of `st` or by `q` itself.
spec fn covers_with(g: Seq<nat>, near: Seq<bool>, st: Seq<Piece>, q: int) -> bool {
    forall|x: int, p: int|
        0 <= x < g.len() && 0 <= p < q && near[p] ==> #[trigger] covered(g, near, st, x, p) || (
        near[q] && cost(g, q, x) <= cost(g, p, x))
}

/// Every near site below `q` is covered by the pieces of `st`.
spec fn covers(g: Seq<nat>, near: Seq<bool>, st: Seq<Piece>, q: int) -> bool {
    forall|x: int, p: int|
        0 <= x < g.len() && 0 <= p < q && near[p] ==> #[trigger] covered(g, near, st, x, p)
}

/// A piece on a far site above one on a near site starts no earlier than the last place.
proof fn lemma_far_above_near(
    f: Seq<Single>,
    g: Seq<nat>,
    near: Seq<bool>,
    st: Seq<Piece>,
    i: int,
    j: int,
)
    requires
        mixed_row(f, g, near),
        well_shaped(st, f.len()),
        in_order(f, st),
        0 <= i < j < st.len(),
        on_near(near, st, i),
        !on_near(near, st, j),
    ensures
        fle(from_int(f.len() - 1), st[j].from),
    decreases j,
{
    assert(st[j].from == crossing(f, st[j - 1].site as int, st[j].site as int));
    if !on_near(near, st, j - 1) {
        lemma_far_above_near(f, g, near, st, i, j - 1);
        assert(flt(st[j - 1].from, st[j].from));
    }
}

/// Between two near pieces there is no far one.
proof fn lemma_near_together(
    f: Seq<Single>,
    g: Seq<nat>,
    near: Seq<bool>,
    st: Seq<Piece>,
    i: int,
    j: int,
    k: int,
)
    requires
        mixed_row(f, g, near),
        well_shaped(st, f.len()),
        in_order(f, st),
        0 <= i < j < k < st.len(),
        on_near(near, st, i),
        on_near(near, st, k),
    ensures
        on_near(near, st, j),
    decreases k,
{
    if !on_near(near, st, j) {
        if on_near(near, st, k - 1) {
            lemma_near_together(f, g, near, st, i, j, k - 1);
        } else {
            assert(st[k].from == crossing(f, st[k - 1].site as int, st[k].site as int));
            lemma_far_above_near(f, g, near, st, i, j);
            lemma_places(f.len() - 1, f.len() - 1);
            assert(flt(st[j].from, st[k].from));
        }
    }
}

/// A piece that starts no later than where `q` takes over from it is needed nowhere.
proof fn lemma_hidden(
    f: Seq<Single>,
    g: Seq<nat>,
    near: Seq<bool>,
    prev: int,
    top: int,
    q: int,
    x: int,
)
    requires
        mixed_row(f, g, near),
        0 <= prev < top < q < f.len(),
        near[top],
        0 <= x < f.len(),
        !crossing(f, prev, top).is_nan(),
        !flt(crossing(f, prev, top), crossing(f, top, q)),
    ensures
        (near[prev] && cost(g, prev, x) <= cost(g, top, x)) || (near[q] && cost(g, q, x) <= cost(
            g,
            top,
            x,
        )),
{
    let n: int = f.len() - 1;
    lemma_places(x, n);
    if near[prev] {
        lemma_crossing(f, g, near, prev, top, x);
    }
    if near[q] {
        lemma_crossing(f, g, near, top, q, x);
    }
}

/// Adding `q` as a new piece covers all near sites up to `q`.
proof fn lemma_push_covers(g: Seq<nat>, near: Seq<bool>, st: Seq<Piece>, c: Single, q: usize)
    requires
        covers_with(g, near, st, q as int),
    ensures
        covers(g, near, st.push(Piece { site: q, from: c }), q + 1),
{
    let ext = st.push(Piece { site: q, from: c });
    assert forall|x: int, p: int|
        0 <= x < g.len() && 0 <= p < q + 1 && near[p] implies #[trigger] covered(
        g,
        near,
        ext,
        x,
        p,
    ) by {
        if p < q && covered(g, near, st, x, p) {
            let j: int = choose|j: int|
                0 <= j < st.len() && on_near(near, st, j) && #[trigger] cost(
                    g,
                    st[j].site as int,
                    x,
                ) <= cost(g, p, x);
            assert(ext[j] == st[j]);
            assert(on_near(near, ext, j) && cost(g, ext[j].site as int, x) <= cost(g, p, x));
        } else {
            let j: int = ext.len() - 1;
            assert(on_near(near, ext, j) && cost(g, ext[j].site as int, x) <= cost(g, p, x));
        }
    }
}

/// Adding a piece that starts right of the last one keeps the order.
proof fn lemma_push_in_order(f: Seq<Single>, st: Seq<Piece>, q: usize)
    requires
        st.len() >= 1,
        well_shaped(st, q as nat),
        in_order(f, st),
        flt(st.last().from, crossing(f, st.last().site as int, q as int)),
    ensures
        in_order(
            f,
            st.push(Piece { site: q, from: crossing(f, st.last().site as int, q as int) }),
        ),
{
    let c = crossing(f, st.last().site as int, q as int);
    let ext = st.push(Piece { site: q, from: c });
    let l: int = st.len() as int;
    assert forall|i: int, j: int| 0 <= i < j < ext.len() implies flt(ext[i].from, ext[j].from) by {
        if j == l && i < l - 1 {
            assert(flt(st[i].from, st[l - 1].from));
        }
    }
    assert forall|j: int| 1 <= j < ext.len() implies (#[trigger] ext[j]).from == crossing(
        f,
        ext[j - 1].site as int,
        ext[j].site as int,
    ) by {
        if j < l {
            assert(ext[j] == st[j] && ext[j - 1] == st[j - 1]);
        }
    }
}

/// Dropping a piece that is needed nowhere leaves all near sites covered.
proof fn lemma_pop_covers(g: Seq<nat>, near: Seq<bool>, st: Seq<Piece>, q: int)
    requires
        st.len() >= 2,
        covers_with(g, near, st, q),
        on_near(near, st, st.len() - 1) ==> forall|x: int|
            0 <= x < g.len() ==> (on_near(near, st, st.len() - 2) && cost(
                g,
                st[st.len() - 2].site as int,
                x,
            ) <= #[trigger] cost(g, st[st.len() - 1].site as int, x)) || (near[q] && cost(g, q, x)
                <= cost(g, st[st.len() - 1].site as int, x)),
    ensures
        covers_with(g, near, st.drop_last(), q),
{
    let rest = st.drop_last();
    let l: int = st.len() as int;
    assert forall|x: int, p: int|
        0 <= x < g.len() && 0 <= p < q && near[p] implies #[trigger] covered(g, near, rest, x, p)
        || (near[q] && cost(g, q, x) <= cost(g, p, x)) by {
        if covered(g, near, st, x, p) {
            let j: int = choose|j: int|
                0 <= j < st.len() && on_near(near, st, j) && #[trigger] cost(
                    g,
                    st[j].site as int,
                    x,
                ) <= cost(g, p, x);
            if j < l - 1 {
                assert(rest[j] == st[j]);
                assert(on_near(near, rest, j) && cost(g, rest[j].site as int, x) <= cost(g, p, x));
            } else {
                assert(cost(g, st[l - 1].site as int, x) <= cost(g, p, x));
                if on_near(near, st, l - 2) && cost(g, st[l - 2].site as int, x) <= cost(
                    g,
                    st[l - 1].site as int,
                    x,
                ) {
                    assert(rest[l - 2] == st[l - 2]);
                    assert(on_near(near, rest, l - 2) && cost(g, rest[l - 2].site as int, x)
                        <= cost(g, p, x));
                }
            }
        }
    }
}

/// Adding the parabola over `q` keeps the order of the pieces and covers `q` too.
proof fn lemma_settle_exact(
    f: Seq<Single>,
    g: Seq<nat>,
    near: Seq<bool>,
    st: Seq<Piece>,
    q: usize,
)
    requires
        mixed_row(f, g, near),
        settled(f),
        1 <= q < f.len(),
        well_shaped(st, q as nat),
        in_order(f, st),
        covers_with(g, near, st, q as int),
    ensures
        in_order(f, settle(f, st, q)),
        covers(g, near, settle(f, st, q), q + 1),
    decreases st.len(),
{
    let c = crossing(f, st.last().site as int, q as int);
    if flt(st.last().from, c) {
        lemma_push_covers(g, near, st, c, q);
        lemma_push_in_order(f, st, q);
    } else {
        if st.len() == 1 {
            assert(flt(Single { bits: FAR_LEFT }, crossing(f, 0, q as int)));
        }
        let l: int = st.len() as int;
        let top: int = st[l - 1].site as int;
        let prev: int = st[l - 2].site as int;
        assert(st[l - 1].from == crossing(f, prev, top));
        assert(flt(st[l - 2].from, st[l - 1].from));
        if near[top] {
            assert forall|x: int| 0 <= x < g.len() implies (on_near(near, st, l - 2) && cost(
                g,
                prev,
                x,
            ) <= #[trigger] cost(g, top, x)) || (near[q as int] && cost(g, q as int, x) <= cost(
                g,
                top,
                x,
            )) by {
                lemma_hidden(f, g, near, prev, top, q as int, x);
            }
        }
        lemma_pop_covers(g, near, st, q as int);
        let rest = st.drop_last();
        assert(in_order(f, rest)) by {
            assert forall|j: int| 1 <= j < rest.len() implies (#[trigger] rest[j]).from == crossing(
                f,
                rest[j - 1].site as int,
                rest[j].site as int,
            ) by {
                assert(rest[j] == st[j] && rest[j - 1] == st[j - 1]);
            }
        }
        lemma_settle_exact(f, g, near, rest, q);
    }
}

/// The envelope covers every near site at every place.
proof fn lemma_envelope_exact(f: Seq<Single>, g: Seq<nat>, near: Seq<bool>, q: nat)
    requires
        mixed_row(f, g, near),
        settled(f),
        1 <= q <= f.len(),
        f.len() <= usize::MAX,
    ensures
        in_order(f, envelope(f, q)),
        covers(g, near, envelope(f, q), q as int),
    decreases q,
{
    let st = envelope(f, q);
    if q == 1 {
        assert forall|x: int, p: int|
            0 <= x < g.len() && 0 <= p < q && near[p] implies #[trigger] covered(
            g,
            near,
            st,
            x,
            p,
        ) by {
            assert(on_near(near, st, 0) && cost(g, st[0].site as int, x) <= cost(g, p, x));
        }
    } else {
        lemma_envelope_exact(f, g, near, (q - 1) as nat);
        lemma_envelope_shape(f, (q - 1) as nat);
        lemma_settle_exact(f, g, near, envelope(f, (q - 1) as nat), (q - 1) as usize);
    }
}

/// The piece that holds at `x` starts left of `x`, the next one does not.
proof fn lemma_advance_exact(st: Seq<Piece>, k: nat, x: nat)
    requires
        k < st.len(),
        k > 0 ==> flt(st[k as int].from, from_int(x as int)),
    ensures
        ({
            let j: nat = advance(st, k, x);
            &&& k <= j < st.len()
            &&& j > 0 ==> flt(st[j as int].from, from_int(x as int))
            &&& j + 1 < st.len() ==> !flt(st[j as int + 1].from, from_int(x as int))
        }),
    decreases st.len() - k,
{
    if k + 1 < st.len() && flt(st[k as int + 1].from, from_int(x as int)) {
        lemma_advance_exact(st, k + 1, x);
    }
}

proof fn lemma_piece_exact(st: Seq<Piece>, x: nat)
    requires
        st.len() >= 1,
        x <= 0x1000,
    ensures
        ({
            let j: nat = piece_at(st, x);
            &&& j < st.len()
            &&& j > 0 ==> flt(st[j as int].from, from_int(x as int))
            &&& j + 1 < st.len() ==> !flt(st[j as int + 1].from, from_int(x as int))
        }),
    decreases x,
{
    if x == 0 {
        lemma_advance_exact(st, 0, 0);
    } else {
        let y: nat = (x - 1) as nat;
        lemma_piece_exact(st, y);
        lemma_places(y as int, x as int);
        lemma_advance_exact(st, piece_at(st, y), x);
    }
}

/// The piece that holds at a place stands on a near site, where there is one.
proof fn lemma_piece_near(
    f: Seq<Single>,
    g: Seq<nat>,
    near: Seq<bool>,
    st: Seq<Piece>,
    i: int,
    k: int,
    x: int,
)
    requires
        mixed_row(f, g, near),
        well_shaped(st, f.len()),
        in_order(f, st),
        0 <= i < st.len(),
        on_near(near, st, i),
        0 <= x < f.len(),
        0 <= k < st.len(),
        k > 0 ==> flt(st[k].from, from_int(x)),
        k + 1 < st.len() ==> !flt(st[k + 1].from, from_int(x)),
    ensures
        on_near(near, st, k),
    decreases i,
{
    if !on_near(near, st, k) {
        let n: int = f.len() - 1;
        lemma_places(x, n);
        if i < k {
            lemma_far_above_near(f, g, near, st, i, k);
        } else if i > 0 && on_near(near, st, i - 1) {
            lemma_piece_near(f, g, near, st, i - 1, k, x);
        } else {
            assert(st[i].from == crossing(f, st[i - 1].site as int, st[i].site as int));
            if k + 1 < i {
                assert(flt(st[k + 1].from, st[i].from));
            }
        }
    }
}

/// Up to the piece that holds, costs fall from piece to piece.
proof fn lemma_falling(
    f: Seq<Single>,
    g: Seq<nat>,
    near: Seq<bool>,
    st: Seq<Piece>,
    i: int,
    j: int,
    x: int,
)
    requires
        mixed_row(f, g, near),
        well_shaped(st, f.len()),
        in_order(f, st),
        0 <= i <= j < st.len(),
        on_near(near, st, i),
        on_near(near, st, j),
        0 <= x < f.len(),
        j > 0 ==> flt(st[j].from, from_int(x)),
    ensures
        cost(g, st[j].site as int, x) <= cost(g, st[i].site as int, x),
    decreases j - i,
{
    if i < j {
        if i < j - 1 {
            lemma_near_together(f, g, near, st, i, j - 1, j);
        }
        lemma_crossing(f, g, near, st[j - 1].site as int, st[j].site as int, x);
        assert(st[j].from == crossing(f, st[j - 1].site as int, st[j].site as int));
        if j - 1 > 0 {
            assert(flt(st[j - 1].from, st[j].from));
        }
        lemma_falling(f, g, near, st, i, j - 1, x);
    }
}

/// From the piece that holds on, costs rise from piece to piece.
proof fn lemma_rising(
    f: Seq<Single>,
    g: Seq<nat>,
    near: Seq<bool>,
    st: Seq<Piece>,
    i: int,
    j: int,
    x: int,
)
    requires
        mixed_row(f, g, near),
        well_shaped(st, f.len()),
        in_order(f, st),
        0 <= i <= j < st.len(),
        on_near(near, st, i),
        on_near(near, st, j),
        0 <= x < f.len(),
        i + 1 < st.len() ==> !flt(st[i + 1].from, from_int(x)),
    ensures
        cost(g, st[i].site as int, x) <= cost(g, st[j].site as int, x),
    decreases j - i,
{
    if i < j {
        if i < j - 1 {
            lemma_near_together(f, g, near, st, i, j - 1, j);
        }
        lemma_crossing(f, g, near, st[j - 1].site as int, st[j].site as int, x);
        assert(st[j].from == crossing(f, st[j - 1].site as int, st[j].site as int));
        lemma_from_int(x);
        if i + 1 < j {
            assert(flt(st[i + 1].from, st[j].from));
        }
        assert(!flt(st[j].from, from_int(x)));
        lemma_rising(f, g, near, st, i, j - 1, x);
    }
}

/// Where the near sites of a row are whole numbers that stay exact and the others are far
/// above them, the transform has at each place the exact least cost from the near sites.
pub proof fn lemma_transform_exact(f: Seq<Single>, g: Seq<nat>, near: Seq<bool>, a: int, x: int)
    requires
        mixed_row(f, g, near),
        row_bounded(f, 66),
        0 <= a < f.len(),
        near[a],
        0 <= x < f.len(),
    ensures
        transform(f).len() == f.len(),
        exists|m: int| #[trigger] is_least_cost(g, near, x, m) && is_whole(transform(f)[x], m),
        !transform(f)[x].negative(),
{
    let n: int = f.len() - 1;
    lemma_transform_bounded(f, 66);
    assert(!transform(f)[x].negative());
    if f.len() == 1 {
        assert(cost(g, 0, 0) == g[0]) by (nonlinear_arith)
            requires
                cost(g, 0, 0) == (0int - 0) * (0int - 0) + g[0],
        ;
        assert(is_least_cost(g, near, x, g[0] as int));
        assert(is_whole(f[0], g[0] as int));
    } else {
        lemma_settled(f);
        let st = envelope(f, f.len());
        lemma_envelope_shape(f, f.len());
        lemma_envelope_exact(f, g, near, f.len());
        lemma_piece_exact(st, x as nat);
        let k: int = piece_at(st, x as nat) as int;
        let s: int = st[k].site as int;
        let m: int = cost(g, s, x);
        assert(covered(g, near, st, x, a));
        let i: int = choose|j: int|
            0 <= j < st.len() && on_near(near, st, j) && #[trigger] cost(g, st[j].site as int, x)
                <= cost(g, a, x);
        lemma_piece_near(f, g, near, st, i, k, x);
        assert forall|p: int| 0 <= p < g.len() && near[p] implies m <= #[trigger] cost(
            g,
            p,
            x,
        ) by {
            assert(covered(g, near, st, x, p));
            let j: int = choose|j: int|
                0 <= j < st.len() && on_near(near, st, j) && #[trigger] cost(
                    g,
                    st[j].site as int,
                    x,
                ) <= cost(g, p, x);
            if j <= k {
                lemma_falling(f, g, near, st, j, k, x);
            } else {
                lemma_rising(f, g, near, st, k, j, x);
            }
        }
        assert(is_least_cost(g, near, x, m));
        lemma_from_int(x);
        lemma_from_int(s);
        lemma_whole_difference(from_int(x), x, from_int(s), s);
        let diff = fsub(from_int(x), from_int(s));
        lemma_square_within(x - s, n);
        assert(is_whole(f[s], g[s] as int));
        lemma_whole_product(diff, x - s, diff, x - s);
        lemma_whole_sum(fmul(diff, diff), (x - s) * (x - s), f[s], g[s] as int);
    }
}

/// A number that is nowhere less than the parabola over a site.
pub proof fn lemma_height_at_least(f: Seq<Single>, p: int, x: int, v: Single)
    requires
        row_bounded(f, 66),
        0 <= p < f.len() <= 0x1_0000_0000,
        0 <= x < f.len(),
        fle(v, f[p]),
    ensures
        fle(v, height_at(f, p, x)),
{
    reveal(fadd);
    lemma2_to64();
    lemma_bounded_from_int(x as nat, 32);
    lemma_bounded_from_int(p as nat, 32);
    lemma_bounded_sum(from_int(x), from_int(p), 32);
    let diff = fsub(from_int(x), from_int(p));
    lemma_bounded_product(diff, diff, 32, 32);
    let square = fmul(diff, diff);
    let n: nat = magnitude(square.unsigned()) + magnitude(f[p].unsigned());
    lemma_round_exact(f[p].unsigned(), 1);
    lemma_round_monotone(magnitude(f[p].unsigned()), 1, n, 1);
    lemma_signed(false, round_bits(n, 1));
}

/// No number of the transform is less than all numbers of the row.
pub proof fn lemma_transform_at_least(f: Seq<Single>, x: int, v: Single)
    requires
        row_bounded(f, 66),
        f.len() <= 0x1_0000_0000,
        f.len() <= usize::MAX,
        0 <= x < f.len(),
        forall|p: int| 0 <= p < f.len() ==> fle(v, #[trigger] f[p]),
    ensures
        fle(v, transform(f)[x]),
{
    if f.len() > 1 {
        lemma_settled(f);
        let st = envelope(f, f.len());
        lemma_envelope_shape(f, f.len());
        lemma_piece_at(st, x as nat);
        let p: int = st[piece_at(st, x as nat) as int].site as int;
        lemma_height_at_least(f, p, x, v);
    }
}

/// Far sites are `s` high, and near ones cost at most `d` anywhere: so much less that
/// rounding does not matter.
pub open spec fn clear_above(s: int, d: int) -> bool {
    &&& 0 <= d < s
    &&& d <= 0x100_0000
    &&& s <= 0x200_0000
    &&& d + 9 <= s || s + d <= 0x100_0000
}

/// The site of a far parabola, and the height from which it is placed.
proof fn lemma_far_height(f: Seq<Single>, q: int, s: int, d: int)
    requires
        row_bounded(f, 66),
        0 <= q < f.len() <= 0x1001,
        clear_above(s, d),
        q * q <= d,
        fle(from_int(s), f[q]),
    ensures
        ({
            let a = fadd(f[q], fmul(from_int(q), from_int(q)));
            let v: int = grid_below(grid_below(s) + q * q);
            &&& bounded(a, 67)
            &&& !a.negative()
            &&& a.units() >= v * pow2(149)
            &&& s + q * q - 6 <= v <= s + q * q
            &&& s + d <= 0x100_0000 ==> v == s + q * q
        }),
{
    reveal(fadd);
    reveal(from_int);
    let u: nat = pow2(149);
    let fq = from_int(q);
    lemma_from_int(q);
    lemma_square_within(0, q);
    lemma_whole_product(fq, q, fq, q);
    lemma2_to64();
    lemma_bounded_from_int(q as nat, 32);
    lemma_bounded_product(fq, fq, 32, 32);
    lemma_bounded_larger(fmul(fq, fq), 64, 66);
    lemma_bounded_sum(f[q], fmul(fq, fq), 66);
    // The far number itself.
    let t: int = grid_below(s);
    lemma_round_at_least((s * u) as nat, s);
    lemma_bounded_from_int(s as nat, 25);
    lemma_order(from_int(s), f[q]);
    assert(f[q].units() >= t * u);
    // With the square of its site.
    lemma_whole_size(fmul(fq, fq), q * q);
    assert((t + q * q) * u == t * u + (q * q) * u) by (nonlinear_arith);
    let n: nat = magnitude(f[q].unsigned()) + magnitude(fmul(fq, fq).unsigned());
    lemma_round_at_least(n, t + q * q);
    lemma_signed(false, round_bits(n, 1));
}

/// The height from which a near parabola is placed.
proof fn lemma_near_height(f: Seq<Single>, g: Seq<nat>, p: int)
    requires
        row_bounded(f, 66),
        0 <= p < f.len() <= 0x1001,
        f.len() == g.len(),
        is_whole(f[p], g[p] as int),
        g[p] + p * p <= 0x100_0000,
    ensures
        ({
            let b = fadd(f[p], fmul(from_int(p), from_int(p)));
            &&& bounded(b, 67)
            &&& !b.negative()
            &&& is_whole(b, g[p] + p * p)
        }),
{
    let fp = from_int(p);
    lemma_from_int(p);
    lemma_square_within(0, p);
    lemma_whole_product(fp, p, fp, p);
    lemma_whole_sum(f[p], g[p] as int, fmul(fp, fp), p * p);
    lemma2_to64();
    lemma_bounded_from_int(p as nat, 32);
    lemma_bounded_product(fp, fp, 32, 32);
    lemma_bounded_larger(fmul(fp, fp), 64, 66);
    lemma_bounded_sum(f[p], fmul(fp, fp), 66);
}

/// What the difference of two heights is divided by.
proof fn lemma_below(p: int, q: int)
    requires
        0 <= p < q <= 0x1000,
    ensures
        ({
            let two = Single { bits: TWO };
            let y = fsub(fmul(two, from_int(q)), fmul(two, from_int(p)));
            &&& is_whole(y, 2 * q - 2 * p)
            &&& bounded(y, 13)
            &&& y.units() > 0
        }),
{
    let two = Single { bits: TWO };
    let y = fsub(fmul(two, from_int(q)), fmul(two, from_int(p)));
    lemma_two();
    lemma_from_int(p);
    lemma_from_int(q);
    lemma_whole_product(two, 2, from_int(q), q);
    lemma_whole_product(two, 2, from_int(p), p);
    lemma_whole_difference(fmul(two, from_int(q)), 2 * q, fmul(two, from_int(p)), 2 * p);
    lemma_whole_size(y, 2 * q - 2 * p);
    lemma2_to64();
    lemma_pow2_adds(13, 149);
    lemma_pow2_pos(149);
    assert((2 * q - 2 * p) * pow2(149) <= 0x2000 * pow2(149)) by (nonlinear_arith)
        requires
            2 * q - 2 * p <= 0x2000,
    ;
    assert((2 * q - 2 * p) * pow2(149) > 0) by (nonlinear_arith)
        requires
            2 * q - 2 * p > 0,
            pow2(149) > 0,
    ;
}

/// A far parabola right of a near one crosses it right of the row.
proof fn lemma_far_right(f: Seq<Single>, g: Seq<nat>, p: int, q: int, s: int, d: int)
    requires
        row_bounded(f, 66),
        f.len() == g.len(),
        0 <= p < q < f.len() <= 0x1001,
        is_whole(f[p], g[p] as int),
        g[p] + (f.len() - 1) * (f.len() - 1) <= d,
        clear_above(s, d),
        fle(from_int(s), f[q]),
    ensures
        fle(from_int(f.len() - 1), crossing(f, p, q)),
{
    reveal(crossing);
    let n: int = f.len() - 1;
    let u: nat = pow2(149);
    lemma_square_within(p, n);
    lemma_square_within(q, n);
    lemma_square_within(n - p, n);
    lemma_square_within(n - q, n);
    lemma_far_height(f, q, s, d);
    lemma_near_height(f, g, p);
    lemma_below(p, q);
    lemma_from_int(n);
    let a = fadd(f[q], fmul(from_int(q), from_int(q)));
    let b = fadd(f[p], fmul(from_int(p), from_int(p)));
    let v: int = grid_below(grid_below(s) + q * q);
    let w: int = g[p] + p * p;
    let c: int = n * (2 * q - 2 * p);
    assert(s + q * q - w - c == s - (g[p] + (n - p) * (n - p)) + (n - q) * (n - q))
        by (nonlinear_arith)
        requires
            w == g[p] + p * p,
            c == n * (2 * q - 2 * p),
    ;
    assert(c >= 0) by (nonlinear_arith)
        requires
            c == n * (2 * q - 2 * p),
            n >= 0,
            p < q,
    ;
    let t: int = v - w;
    assert(grid_below(t) >= c);
    // The difference of the heights.
    let x = fsub(a, b);
    lemma_bounded_sum(a, b, 67);
    lemma_opposite(b);
    assert(x.units() >= grid_below(t) * u && !x.negative()) by {
        reveal(fadd);
        assert(t * u == v * u - w * u) by (nonlinear_arith)
            requires
                t == v - w,
        ;
        assert(t * u >= 0) by (nonlinear_arith)
            requires
                t >= 0,
        ;
        let e: int = a.units() - b.units();
        lemma_round_at_least(size(e), t);
        lemma_signed(false, round_bits(size(e), 1));
    }
    assert(grid_below(t) * u >= c * u) by (nonlinear_arith)
        requires
            grid_below(t) >= c,
    ;
    let y = fsub(
        fmul(Single { bits: TWO }, from_int(q)),
        fmul(Single { bits: TWO }, from_int(p)),
    );
    lemma_quotient_at_least(x, y, 2 * q - 2 * p, from_int(n), n);
}

/// A far parabola left of a near one crosses it left of the row.
proof fn lemma_far_left(f: Seq<Single>, g: Seq<nat>, p: int, q: int, s: int, d: int)
    requires
        row_bounded(f, 66),
        f.len() == g.len(),
        0 <= p < q < f.len() <= 0x1001,
        is_whole(f[q], g[q] as int),
        g[q] + (f.len() - 1) * (f.len() - 1) <= d,
        clear_above(s, d),
        fle(from_int(s), f[p]),
    ensures
        flt(crossing(f, p, q), zero()),
{
    reveal(crossing);
    let n: int = f.len() - 1;
    let u: nat = pow2(149);
    lemma_square_within(p, n);
    lemma_square_within(q, n);
    lemma_far_height(f, p, s, d);
    lemma_near_height(f, g, q);
    lemma_below(p, q);
    let a = fadd(f[q], fmul(from_int(q), from_int(q)));
    let b = fadd(f[p], fmul(from_int(p), from_int(p)));
    let v: int = grid_below(grid_below(s) + p * p);
    let w: int = g[q] + q * q;
    assert(w + 1 <= v);
    let x = fsub(a, b);
    lemma_bounded_sum(a, b, 67);
    lemma_opposite(b);
    assert(x.units() <= -u) by {
        reveal(fadd);
        assert(w * u + u <= v * u) by (nonlinear_arith)
            requires
                w + 1 <= v,
        ;
        let e: int = a.units() - b.units();
        lemma_pow2_pos(149);
        assert(size(e) >= u * 1);
        lemma_round_at_least_power(size(e), 1, 149);
        lemma_signed(true, round_bits(size(e), 1));
    }
    let y = fsub(
        fmul(Single { bits: TWO }, from_int(q)),
        fmul(Single { bits: TWO }, from_int(p)),
    );
    lemma_quotient_negative(x, y, 13);
}

/// A row of near sites that cost at most `d` anywhere, and of far sites that are at least
/// `s` high.
pub proof fn lemma_mixed_row(f: Seq<Single>, g: Seq<nat>, near: Seq<bool>, s: int, d: int)
    requires
        row_bounded(f, 66),
        f.len() == g.len(),
        f.len() == near.len(),
        1 <= f.len() <= 0x1001,
        clear_above(s, d),
        forall|i: int|
            0 <= i < f.len() && near[i] ==> is_whole(#[trigger] f[i], g[i] as int) && g[i] + (
            f.len() - 1) * (f.len() - 1) <= d,
        forall|i: int| 0 <= i < f.len() && !near[i] ==> fle(from_int(s), #[trigger] f[i]),
    ensures
        mixed_row(f, g, near),
{
    assert forall|p: int, q: int| 0 <= p < q < f.len() && near[p] && !near[q] implies fle(
        from_int(f.len() - 1),
        #[trigger] crossing(f, p, q),
    ) by {
        assert(is_whole(f[p], g[p] as int));
        lemma_far_right(f, g, p, q, s, d);
    }
    assert forall|p: int, q: int| 0 <= p < q < f.len() && !near[p] && near[q] implies flt(
        #[trigger] crossing(f, p, q),
        zero(),
    ) by {
        assert(is_whole(f[q], g[q] as int));
        lemma_far_left(f, g, p, q, s, d);
    }
}

/// `m` is the squared distance from the place `x` to the nearest seed, a site of zero.
pub open spec fn is_nearest_seed(f: Seq<Single>, x: int, m: int) -> bool {
    &&& exists|p: int| 0 <= p < f.len() && #[trigger] f[p] == zero() && m == (x - p) * (x - p)
    &&& forall|p: int| 0 <= p < f.len() && #[trigger] f[p] == zero() ==> m <= (x - p) * (x - p)
}

/// A row of seeds, with everything else above any squared distance in the row, is
/// transformed to the exact squared distances to the nearest seed.
pub proof fn lemma_transform_of_seeds(f: Seq<Single>, s: int, a: int, x: int)
    requires
        row_bounded(f, 66),
        f.len() <= 0x1001,
        clear_above(s, (f.len() - 1) * (f.len() - 1)),
        forall|i: int| 0 <= i < f.len() ==> #[trigger] f[i] == zero() || fle(from_int(s), f[i]),
        0 <= a < f.len(),
        f[a] == zero(),
        0 <= x < f.len(),
    ensures
        exists|m: int| #[trigger] is_nearest_seed(f, x, m) && is_whole(transform(f)[x], m),
{
    let g: Seq<nat> = Seq::new(f.len(), |i: int| 0nat);
    let near = Seq::new(f.len(), |i: int| f[i] == zero());
    assert forall|i: int| 0 <= i < f.len() && near[i] implies is_whole(#[trigger] f[i], g[i] as int)
        && g[i] + (f.len() - 1) * (f.len() - 1) <= (f.len() - 1) * (f.len() - 1) by {
        lemma_magnitude_zero();
        assert(0 * pow2(149) == 0) by (nonlinear_arith);
    }
    lemma_mixed_row(f, g, near, s, (f.len() - 1) * (f.len() - 1));
    assert(near[a]);
    lemma_transform_exact(f, g, near, a, x);
    let m: int = choose|m: int|
        #[trigger] is_least_cost(g, near, x, m) && is_whole(transform(f)[x], m);
    assert(is_nearest_seed(f, x, m)) by {
        let p: int = choose|p: int| 0 <= p < g.len() && near[p] && m == #[trigger] cost(g, p, x);
        assert(f[p] == zero() && m == (x - p) * (x - p));
        assert forall|q: int| 0 <= q < f.len() && #[trigger] f[q] == zero() implies m <= (x - q) * (x
            - q) by {
            assert(near[q]);
            assert(m <= cost(g, q, x));
        }
    }
}

} // verus!
