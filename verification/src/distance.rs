//! The distance transform of a row of numbers.
//!
//! A row `f` is transformed to the lower envelope of the parabolas that stand on its
//! sites: at `x` it has the least of `(x - p)^2 + f[p]`. The envelope is built from left
//! to right as a stack of pieces; where two parabolas cross is computed, and so rounded,
//! in binary32.
use crate::single::{fadd, fdiv, flt, fmul, from_int, fsub, Single};
use vstd::prelude::*;

verus! {

/// The number two.
pub const TWO: u32 = 0x4000_0000;

/// The number -1e20, left of every crossing.
pub const FAR_LEFT: u32 = 0xe0ad_78ec;

/// One piece of the envelope: the parabola over `site`, from `from` on.
#[derive(Clone, Copy)]
pub struct Piece {
    pub site: usize,
    pub from: Single,
}

/// Where the parabolas over `p` and `q` cross.
#[verifier::opaque]
pub open spec fn crossing(f: Seq<Single>, p: int, q: int) -> Single {
    let fp = from_int(p);
    let fq = from_int(q);
    fdiv(
        fsub(fadd(f[q], fmul(fq, fq)), fadd(f[p], fmul(fp, fp))),
        fsub(fmul(Single { bits: TWO }, fq), fmul(Single { bits: TWO }, fp)),
    )
}

/// The envelope `st` with the parabola over `q` added: the pieces that `q` hides are
/// dropped from the right.
pub open spec fn settle(f: Seq<Single>, st: Seq<Piece>, q: usize) -> Seq<Piece>
    decreases st.len(),
{
    if st.len() == 0 {
        st
    } else {
        let c = crossing(f, st.last().site as int, q as int);
        if flt(st.last().from, c) {
            st.push(Piece { site: q, from: c })
        } else {
            settle(f, st.drop_last(), q)
        }
    }
}

/// The envelope of the parabolas over the sites below `q`.
pub open spec fn envelope(f: Seq<Single>, q: nat) -> Seq<Piece>
    decreases q,
{
    if q <= 1 {
        seq![Piece { site: 0, from: Single { bits: FAR_LEFT } }]
    } else {
        settle(f, envelope(f, (q - 1) as nat), (q - 1) as usize)
    }
}

/// The first piece from `k` on that the next one does not displace at `x`.
pub open spec fn advance(st: Seq<Piece>, k: nat, x: nat) -> nat
    decreases st.len() - k,
{
    if k + 1 < st.len() && flt(st[k as int + 1].from, from_int(x as int)) {
        advance(st, k + 1, x)
    } else {
        k
    }
}

/// The piece that holds at `x`.
pub open spec fn piece_at(st: Seq<Piece>, x: nat) -> nat
    decreases x,
{
    if x == 0 {
        advance(st, 0, 0)
    } else {
        advance(st, piece_at(st, (x - 1) as nat), x)
    }
}

/// The height at `x` of the parabola over `p`.
pub open spec fn height_at(f: Seq<Single>, p: int, x: int) -> Single {
    let diff = fsub(from_int(x), from_int(p));
    fadd(fmul(diff, diff), f[p])
}

/// The transform of a row.
pub open spec fn transform(f: Seq<Single>) -> Seq<Single> {
    if f.len() <= 1 {
        f
    } else {
        let st = envelope(f, f.len());
        Seq::new(f.len(), |x: int| height_at(f, st[piece_at(st, x as nat) as int].site as int, x))
    }
}

/// The first parabola stays in the envelope: every other one crosses it right of -1e20.
pub open spec fn settled(f: Seq<Single>) -> bool {
    forall|q: int|
        1 <= q < f.len() ==> flt(Single { bits: FAR_LEFT }, #[trigger] crossing(f, 0, q))
}

/// The shape that `settle` keeps.
pub open spec fn well_shaped(st: Seq<Piece>, q: nat) -> bool {
    &&& st.len() >= 1
    &&& st[0] == (Piece { site: 0, from: Single { bits: FAR_LEFT } })
    &&& forall|i: int| 0 <= i < st.len() ==> (#[trigger] st[i]).site < q
}

pub proof fn lemma_settle_shape(f: Seq<Single>, st: Seq<Piece>, q: usize)
    requires
        settled(f),
        1 <= q < f.len(),
        well_shaped(st, q as nat),
    ensures
        well_shaped(settle(f, st, q), (q + 1) as nat),
    decreases st.len(),
{
    let c = crossing(f, st.last().site as int, q as int);
    if !flt(st.last().from, c) {
        if st.len() == 1 {
            assert(flt(Single { bits: FAR_LEFT }, crossing(f, 0, q as int)));
        }
        lemma_settle_shape(f, st.drop_last(), q);
    }
}

pub proof fn lemma_envelope_shape(f: Seq<Single>, q: nat)
    requires
        settled(f),
        1 <= q <= f.len(),
        f.len() <= usize::MAX,
    ensures
        well_shaped(envelope(f, q), q),
    decreases q,
{
    if q > 1 {
        lemma_envelope_shape(f, (q - 1) as nat);
        lemma_settle_shape(f, envelope(f, (q - 1) as nat), (q - 1) as usize);
    }
}

pub proof fn lemma_advance(st: Seq<Piece>, k: nat, x: nat)
    requires
        k < st.len(),
    ensures
        k <= advance(st, k, x) < st.len(),
    decreases st.len() - k,
{
    if k + 1 < st.len() && flt(st[k as int + 1].from, from_int(x as int)) {
        lemma_advance(st, k + 1, x);
    }
}

pub proof fn lemma_piece_at(st: Seq<Piece>, x: nat)
    requires
        st.len() >= 1,
    ensures
        piece_at(st, x) < st.len(),
    decreases x,
{
    if x == 0 {
        lemma_advance(st, 0, 0);
    } else {
        lemma_piece_at(st, (x - 1) as nat);
        lemma_advance(st, piece_at(st, (x - 1) as nat), x);
    }
}

fn crossing_of(f: &[Single], p: usize, q: usize) -> (c: Single)
    requires
        p < f.len(),
        q < f.len(),
    ensures
        c == crossing(f@, p as int, q as int),
{
    let fp = Single::from_u64(p as u64);
    let fq = Single::from_u64(q as u64);
    let two = Single { bits: TWO };
    let above = f[q].plus(fq.times(fq)).minus(f[p].plus(fp.times(fp)));
    let below = two.times(fq).minus(two.times(fp));
    reveal(crossing);
    above.over(below)
}

/// The squared distance from each place of a row to the nearest seed, where `f` is zero
/// at the seeds and large elsewhere; in general the lower envelope of the parabolas over
/// all places.
pub fn dt_1d(f: &[Single]) -> (d: Vec<Single>)
    requires
        settled(f@),
    ensures
        d@ == transform(f@),
{
    let n: usize = f.len();
    let mut d: Vec<Single> = Vec::new();
    if n == 0 {
        assert(d@ =~= f@);
        return d;
    }
    if n == 1 {
        d.push(f[0]);
        assert(d@ =~= f@);
        return d;
    }
    let mut st: Vec<Piece> = Vec::new();
    st.push(Piece { site: 0, from: Single { bits: FAR_LEFT } });
    let mut q: usize = 1;
    assert(st@ =~= envelope(f@, 1));
    while q < n
        invariant
            n == f.len(),
            1 <= q <= n,
            settled(f@),
            st@ == envelope(f@, q as nat),
            well_shaped(st@, q as nat),
        decreases n - q,
    {
        let mut placed = false;
        assert(envelope(f@, (q + 1) as nat) == settle(f@, st@, q));
        proof {
            lemma_settle_shape(f@, st@, q);
        }
        while !placed
            invariant
                n == f.len(),
                1 <= q < n,
                settled(f@),
                placed ==> st@ == envelope(f@, (q + 1) as nat),
                !placed ==> settle(f@, st@, q) == envelope(f@, (q + 1) as nat),
                !placed ==> well_shaped(st@, q as nat),
                well_shaped(envelope(f@, (q + 1) as nat), (q + 1) as nat),
            decreases
                    (if placed {
                        0int
                    } else {
                        st.len() + 1
                    }),
        {
            let top = st[st.len() - 1];
            assert(top == st@.last());
            let c = crossing_of(f, top.site, q);
            if top.from.less(c) {
                st.push(Piece { site: q, from: c });
                placed = true;
            } else {
                proof {
                    if st.len() == 1 {
                        assert(flt(Single { bits: FAR_LEFT }, crossing(f@, 0, q as int)));
                    }
                }
                let ghost before = st@;
                let _ = st.pop();
                assert(st@ =~= before.drop_last());
            }
        }
        q = q + 1;
    }
    let ghost sts = st@;
    let mut k: usize = 0;
    let mut x: usize = 0;
    while x < n
        invariant
            n == f.len(),
            2 <= n,
            x <= n,
            st@ == sts,
            sts == envelope(f@, n as nat),
            well_shaped(sts, n as nat),
            k < st.len(),
            x == 0 ==> k == 0,
            x > 0 ==> k == piece_at(sts, (x - 1) as nat),
            d.len() == x,
            forall|i: int|
                0 <= i < x ==> #[trigger] d[i] == height_at(
                    f@,
                    sts[piece_at(sts, i as nat) as int].site as int,
                    i,
                ),
        decreases n - x,
    {
        let fx = Single::from_u64(x as u64);
        assert(piece_at(sts, x as nat) == advance(sts, k as nat, x as nat));
        while k + 1 < st.len() && st[k + 1].from.less(fx)
            invariant
                k < st.len(),
                st@ == sts,
                fx == from_int(x as int),
                piece_at(sts, x as nat) == advance(sts, k as nat, x as nat),
            decreases st.len() - k,
        {
            k = k + 1;
        }
        let site: usize = st[k].site;
        let diff = fx.minus(Single::from_u64(site as u64));
        d.push(diff.times(diff).plus(f[site]));
        x = x + 1;
    }
    assert(d@ =~= transform(f@));
    d
}

} // verus!
