//! What holds of the lightning flashes over many calls.
use crate::cloud_flash::{
    base_interval, burst, can_fire, can_spawn, dark, drawn, duration_of_strike, initial_settings,
    is_due, is_set, jittered, oldest, param, parameter, retired, slot, strike, strike_count,
    strike_start, taken, triggered, with_param, Burst, CloudFlash, CloudUniforms, Flash, Settings,
    BRIEFEST, HALF, MAX_FLASHES, MIN_DURATION, NOISE_SPAN, NUM_PARAMS, PARAM_BG_A, PARAM_BG_H,
    PARAM_BG_S, PARAM_BG_V, PARAM_COLOR_A, PARAM_COLOR_H, PARAM_COLOR_S, PARAM_COLOR_V, PARAM_DECAY,
    PARAM_NOISE_SCALE, PARAM_SOFTNESS, PARAM_THRESHOLD, PARAM_TRIGGER, RATE_MIN, RATE_SPAN, STAGGER,
    STRIKE_SPAN,
};
use crate::color::rgb_or_grey;
use crate::host::ParameterTypes;
use crate::random::{
    after_draws, fraction, lemma_fraction_in_unit, lemma_fraction_value, lemma_variation_value,
    variation, xorshift,
};
use crate::reals::{lemma_fraction_shift, lemma_near_product, lemma_spread, lemma_times_same};
use crate::rounding::{magnitude, round_bits};
use crate::single::{fadd, fle, flt, fmax, fmul, from_int, fsub, size, zero, Single};
use crate::single_facts::{
    bounded, lemma_bounded_from_int, lemma_bounded_product, lemma_from_int, lemma_magnitude_zero,
    lemma_order, lemma_round_at_most_power, lemma_signed, lemma_whole_size,
};
use crate::single_order::{
    in_unit, lemma_add_order, lemma_add_zero, lemma_bounded_bits, lemma_from_int_order,
    lemma_mul_one, lemma_mul_order, lemma_mul_zero, lemma_one, lemma_remaining, lemma_span_order,
    lemma_unit_bounded, one,
};
use crate::slices::{lemma_setting_reads, reads_as, within};
use crate::slots::{
    count, first_idle, lemma_count, lemma_count_after_taking, lemma_first_idle, lemma_none_taken,
};
use crate::values::{
    lemma_difference, lemma_from_int_value, lemma_line, lemma_long_line, lemma_product, lemma_sum,
    lemma_unit_value, lemma_value_bits, lemma_value_order, near, tiny, value,
};
use vstd::arithmetic::power2::{lemma2_to64, lemma_pow2_adds, lemma_pow2_pos, pow2};
use vstd::prelude::*;

verus! {

/// A parameter reads as it was set, and setting it leaves the others alone. The trigger
/// holds no value.
pub proof fn lemma_set_get(s: Settings, i: int, value: Single, j: int)
    ensures
        param(with_param(s, i, value), j) == (if i == j && 0 <= i < NUM_PARAMS && i
            != PARAM_TRIGGER {
            value
        } else {
            param(s, j)
        }),
{
}

/// The plugin starts with the defaults that it announces.
pub proof fn lemma_starts_with_defaults(i: int)
    requires
        0 <= i < NUM_PARAMS,
    ensures
        param(initial_settings(), i) == (match parameter(i).default {
            Some(v) => v,
            None => zero(),
        }),
{
}

proof fn lemma_oldest(f: Seq<Flash>, n: nat)
    requires
        1 <= n <= f.len(),
        forall|i: int| 0 <= i < f.len() ==> !(#[trigger] f[i]).start.is_nan(),
    ensures
        0 <= oldest(f, n) < n,
        forall|i: int| 0 <= i < n ==> fle(f[oldest(f, n)].start, (#[trigger] f[i]).start),
        forall|i: int|
            0 <= i < oldest(f, n) ==> flt(f[oldest(f, n)].start, (#[trigger] f[i]).start),
    decreases n,
{
    if n > 1 {
        lemma_oldest(f, (n - 1) as nat);
        assert(!f[n - 1].start.is_nan());
    }
}

/// A new strike takes the first idle slot; only where there is none does it displace
/// another, and then the first of those that started earliest.
pub proof fn lemma_slot(f: Seq<Flash>)
    requires
        f.len() > 0,
        can_spawn(f),
    ensures
        0 <= slot(f) < f.len(),
        f[slot(f)].active ==> forall|i: int|
            0 <= i < f.len() ==> (#[trigger] f[i]).active && fle(f[slot(f)].start, f[i].start),
        f[slot(f)].active ==> forall|i: int|
            0 <= i < slot(f) ==> flt(f[slot(f)].start, (#[trigger] f[i]).start),
        !f[slot(f)].active ==> forall|i: int| 0 <= i < slot(f) ==> (#[trigger] f[i]).active,
{
    lemma_first_idle(taken(f), 0);
    assert(forall|i: int| 0 <= i < f.len() ==> (#[trigger] f[i]).active == taken(f)[i]);
    if first_idle(taken(f), 0) == f.len() {
        lemma_oldest(f, f.len());
    }
}

/// No strike is shorter than the shortest.
pub proof fn lemma_strike_lasts(s: Settings, rng: u32, now: Single, i: int)
    ensures
        fle(Single { bits: MIN_DURATION }, strike(s, rng, now, i).duration),
{
}

/// A strike lasts between 0.05 seconds and one.
pub proof fn lemma_duration_range(s: Settings)
    requires
        in_unit(s.strike_speed),
    ensures
        fle(Single { bits: BRIEFEST }, duration_of_strike(s)),
        fle(duration_of_strike(s), one()),
{
    let span = Single { bits: STRIKE_SPAN };
    let least = Single { bits: BRIEFEST };
    let rest = fsub(one(), s.strike_speed);
    lemma_remaining(s.strike_speed);
    lemma_mul_order(rest, one(), span);
    lemma_mul_one(span);
    lemma_bounded_bits(span, 3);
    lemma_bounded_product(rest, span, 0, 3);
    lemma_add_order(zero(), fmul(rest, span), least);
    lemma_add_zero(least, zero());
    lemma_add_order(fmul(rest, span), span, least);
    assert(fle(fadd(span, least), one())) by {
        reveal(fadd);
        lemma_one();
        lemma2_to64();
        lemma_pow2_adds(4, 121);
        lemma_pow2_adds(28, 121);
        lemma_pow2_pos(121);
        let unit: nat = pow2(121);
        assert(pow2(125) == 16 * unit);
        assert(pow2(149) == 0x1000_0000 * unit);
        assert(magnitude(STRIKE_SPAN as nat) == 0xf3_3333 * pow2(125));
        assert(magnitude(BRIEFEST as nat) == 0xcc_cccd * unit);
        assert(span.units() == magnitude(STRIKE_SPAN as nat));
        assert(0xf3_3333 * pow2(125) == 0xf33_3330 * unit) by (nonlinear_arith)
            requires
                pow2(125) == 16 * unit,
        ;
        assert(least.units() == 0xcc_cccd * unit);
        let v: int = span.units() + least.units();
        assert(size(v) <= 0x1000_0000 * unit);
        lemma_round_at_most_power(size(v), 1, 149);
        lemma_signed(false, round_bits(size(v), 1));
        lemma_order(fadd(span, least), one());
    }
}

/// A higher strike speed makes strikes no longer, and a higher rate pauses no longer.
pub proof fn lemma_faster_is_shorter(s: Settings, t: Settings)
    requires
        in_unit(s.strike_speed),
        in_unit(t.strike_speed),
        in_unit(s.rate),
        in_unit(t.rate),
    ensures
        fle(s.strike_speed, t.strike_speed) ==> fle(duration_of_strike(t), duration_of_strike(s)),
        fle(s.rate, t.rate) ==> fle(base_interval(t), base_interval(s)),
{
    lemma_bounded_bits(Single { bits: STRIKE_SPAN }, 3);
    lemma_bounded_bits(Single { bits: RATE_SPAN }, 3);
    if fle(s.strike_speed, t.strike_speed) {
        lemma_span_order(
            s.strike_speed,
            t.strike_speed,
            Single { bits: STRIKE_SPAN },
            Single { bits: BRIEFEST },
        );
    }
    if fle(s.rate, t.rate) {
        lemma_span_order(s.rate, t.rate, Single { bits: RATE_SPAN }, Single { bits: RATE_MIN });
    }
}

/// Every slot has a start that can be ordered.
pub open spec fn steady(f: Seq<Flash>) -> bool {
    f.len() == MAX_FLASHES && forall|i: int| 0 <= i < f.len() ==> !(#[trigger] f[i]).start.is_nan()
}

/// The gap between the strikes of a trigger, so often, is a number.
proof fn lemma_gaps(s: Settings, i: int)
    requires
        in_unit(s.strike_speed),
        0 <= i <= MAX_FLASHES,
    ensures
        ({
            let gap = fmul(duration_of_strike(s), Single { bits: STAGGER });
            &&& bounded(gap, 1)
            &&& fle(zero(), gap)
            &&& bounded(fmul(from_int(i), gap), 5)
            &&& fle(zero(), fmul(from_int(i), gap))
        }),
{
    let d = duration_of_strike(s);
    let stagger = Single { bits: STAGGER };
    lemma_duration_range(s);
    lemma_unit_bounded(d);
    lemma_bounded_bits(stagger, 1);
    lemma_bounded_product(d, stagger, 0, 1);
    lemma_mul_order(zero(), d, stagger);
    lemma_mul_order(d, one(), stagger);
    let gap = fmul(d, stagger);
    lemma2_to64();
    lemma_bounded_from_int(i as nat, 4);
    lemma_bounded_product(from_int(i), gap, 4, 1);
    lemma_from_int_order(0, i);
    lemma_from_int(0);
    lemma_whole_size(from_int(0), 0);
    lemma_mul_order(from_int(i), from_int(i), gap);
}

/// A time that can be ordered still can after a finite delay.
proof fn lemma_delayed(now: Single, delay: Single)
    requires
        !now.is_nan(),
        delay.is_finite(),
    ensures
        !fadd(now, delay).is_nan(),
{
    reveal(fadd);
}

/// The strikes of a trigger start in order, the first one at once.
pub proof fn lemma_strikes_in_order(s: Settings, now: Single, i: int, j: int)
    requires
        in_unit(s.strike_speed),
        now.is_finite(),
        !now.negative(),
        0 <= i <= j <= MAX_FLASHES,
    ensures
        strike_start(s, now, 0) == now,
        fle(strike_start(s, now, i), strike_start(s, now, j)),
{
    let gap = fmul(duration_of_strike(s), Single { bits: STAGGER });
    lemma_gaps(s, 0);
    lemma_gaps(s, i);
    lemma_gaps(s, j);
    lemma_from_int(0);
    lemma_whole_size(from_int(0), 0);
    lemma_mul_zero(from_int(0), gap);
    lemma_add_zero(now, fmul(from_int(0), gap));
    lemma_from_int_order(0, i);
    lemma_from_int_order(i, j);
    lemma_mul_order(from_int(i), from_int(j), gap);
    lemma_add_order(fmul(from_int(i), gap), fmul(from_int(j), gap), now);
}

/// So many strikes of a trigger all find a slot, and leave starts that can be ordered.
proof fn lemma_burst_steady(s: Settings, b: Burst, now: Single, n: nat)
    requires
        in_unit(s.strike_speed),
        !now.is_nan(),
        steady(b.flashes),
        n <= MAX_FLASHES,
    ensures
        steady(burst(s, b, now, n).flashes),
        can_spawn(burst(s, b, now, n).flashes),
    decreases n,
{
    if n > 0 {
        let before = burst(s, b, now, (n - 1) as nat);
        lemma_burst_steady(s, b, now, (n - 1) as nat);
        lemma_slot(before.flashes);
        lemma_gaps(s, n - 1);
        lemma_delayed(
            now,
            fmul(from_int(n - 1), fmul(duration_of_strike(s), Single { bits: STAGGER })),
        );
    }
}

/// A trigger always finds slots for its strikes, and the starts stay such that the next
/// one does too.
pub proof fn lemma_can_always_fire(c: CloudFlash, now: Single)
    requires
        in_unit(c.settings.strike_speed),
        !now.is_nan(),
        steady(c.flashes@),
    ensures
        can_fire(c, now),
        steady(triggered(c, now).flashes),
{
    let b = Burst { flashes: c.flashes@, rng: c.rng_seed };
    assert forall|i: nat| i < strike_count(c.settings) implies can_spawn(
        (#[trigger] burst(c.settings, b, now, i)).flashes,
    ) by {
        lemma_burst_steady(c.settings, b, now, i);
    }
    lemma_burst_steady(c.settings, b, now, strike_count(c.settings) as nat);
}

/// Putting strikes out leaves the starts as they are; what stays alight is not over.
pub proof fn lemma_retired(f: Flash, now: Single)
    ensures
        retired(f, now).start == f.start,
        retired(f, now).active ==> f.active && !flt(f.duration, fsub(now, f.start)),
        f.active && !retired(f, now).active ==> flt(f.duration, fsub(now, f.start)),
{
}

/// The slots that the plugin starts with are in order, and frames keep them so.
pub proof fn lemma_frame_steady(before: Seq<Flash>, after: Seq<Flash>, now: Single)
    requires
        after.len() == before.len(),
        forall|i: int| 0 <= i < before.len() ==> #[trigger] after[i] == retired(before[i], now),
    ensures
        steady(Seq::new(MAX_FLASHES as nat, |i: int| dark())),
        steady(before) ==> steady(after),
{
    if steady(before) {
        assert forall|i: int| 0 <= i < after.len() implies !(#[trigger] after[i]).start.is_nan() by {
            assert(!before[i].start.is_nan());
        }
    }
}

/// How many strikes are alight.
pub open spec fn alight(f: Seq<Flash>) -> int {
    count(taken(f))
}

proof fn lemma_burst_alight(s: Settings, b: Burst, now: Single, n: nat)
    requires
        b.flashes.len() == MAX_FLASHES,
        forall|i: nat| i < n ==> can_spawn((#[trigger] burst(s, b, now, i)).flashes),
    ensures
        burst(s, b, now, n).flashes.len() == MAX_FLASHES,
        alight(burst(s, b, now, n).flashes) == within(alight(b.flashes) + n, 0, MAX_FLASHES as int),
    decreases n,
{
    lemma_count(taken(b.flashes));
    if n > 0 {
        let m: nat = (n - 1) as nat;
        let before = burst(s, b, now, m);
        lemma_burst_alight(s, b, now, m);
        assert(can_spawn(before.flashes));
        lemma_slot(before.flashes);
        let k: int = slot(before.flashes);
        lemma_first_idle(taken(before.flashes), 0);
        lemma_count(taken(before.flashes));
        lemma_count_after_taking(taken(before.flashes), k);
        assert(taken(burst(s, b, now, n).flashes) =~= taken(before.flashes).update(k, true));
    }
}

/// A trigger lights as many strikes as are set, as long as there are slots.
pub proof fn lemma_trigger_lights(c: CloudFlash, now: Single)
    requires
        can_fire(c, now),
    ensures
        1 <= strike_count(c.settings) <= MAX_FLASHES,
        alight(triggered(c, now).flashes) == within(
            alight(c.flashes@) + strike_count(c.settings),
            0,
            MAX_FLASHES as int,
        ),
{
    lemma_burst_alight(
        c.settings,
        Burst { flashes: c.flashes@, rng: c.rng_seed },
        now,
        strike_count(c.settings) as nat,
    );
}

/// The numbers that strikes and pauses are made of.
proof fn lemma_constants()
    ensures
        near(value(Single { bits: STRIKE_SPAN }), 95real / 100real, 1real / 16000000real),
        near(value(Single { bits: BRIEFEST }), 5real / 100real, 1real / 100000000real),
        near(value(Single { bits: STAGGER }), 13real / 10real, 1real / 16000000real),
        near(value(Single { bits: MIN_DURATION }), 2real / 100real, 1real / 100000000real),
        near(value(Single { bits: RATE_SPAN }), 49real / 10real, 1real / 4000000real),
        near(value(Single { bits: RATE_MIN }), 1real / 10real, 1real / 100000000real),
        value(Single { bits: NOISE_SPAN }) == 29real,
        value(Single { bits: HALF }) == 1real / 2real,
{
    lemma2_to64();
    lemma_value_bits(Single { bits: STRIKE_SPAN }, 24);
    assert(value(Single { bits: STRIKE_SPAN }) * 16777216real == 15938355real);
    lemma_value_bits(Single { bits: BRIEFEST }, 28);
    assert(value(Single { bits: BRIEFEST }) * 268435456real == 13421773real);
    lemma_value_bits(Single { bits: STAGGER }, 23);
    assert(value(Single { bits: STAGGER }) * 8388608real == 10905190real);
    lemma_value_bits(Single { bits: MIN_DURATION }, 29);
    assert(value(Single { bits: MIN_DURATION }) * 536870912real == 10737418real);
    lemma_value_bits(Single { bits: RATE_SPAN }, 21);
    assert(value(Single { bits: RATE_SPAN }) * 2097152real == 10276045real);
    lemma_value_bits(Single { bits: RATE_MIN }, 27);
    assert(value(Single { bits: RATE_MIN }) * 134217728real == 13421773real);
    lemma_value_bits(Single { bits: NOISE_SPAN }, 19);
    assert(value(Single { bits: NOISE_SPAN }) * 524288real == 15204352real);
    lemma_value_bits(Single { bits: HALF }, 24);
    assert(value(Single { bits: HALF }) * 16777216real == 8388608real);
}

/// A strike lasts 0.05 seconds and, of 0.95 seconds more, the part that the strike speed
/// leaves.
pub proof fn lemma_duration_value(s: Settings)
    requires
        in_unit(s.strike_speed),
    ensures
        duration_of_strike(s).is_finite(),
        near(
            value(duration_of_strike(s)),
            (1real - value(s.strike_speed)) * (95real / 100real) + 5real / 100real,
            1real / 500000real,
        ),
        5real / 100real - 1real / 100000000real <= value(duration_of_strike(s)) <= 1real,
{
    lemma_constants();
    lemma_line(
        s.strike_speed,
        Single { bits: STRIKE_SPAN },
        Single { bits: BRIEFEST },
        95real / 100real,
        5real / 100real,
    );
    lemma_duration_range(s);
    lemma_unit_value(one());
    lemma_value_order(Single { bits: BRIEFEST }, duration_of_strike(s));
    lemma_value_order(duration_of_strike(s), one());
}

/// Between two triggers of its own the plugin pauses, before jitter, 0.1 seconds and, of 4.9
/// seconds more, the part that the rate leaves.
pub proof fn lemma_interval_value(s: Settings)
    requires
        in_unit(s.rate),
    ensures
        base_interval(s).is_finite(),
        near(
            value(base_interval(s)),
            (1real - value(s.rate)) * (49real / 10real) + 1real / 10real,
            1real / 500000real,
        ),
{
    lemma_constants();
    lemma_line(
        s.rate,
        Single { bits: RATE_SPAN },
        Single { bits: RATE_MIN },
        49real / 10real,
        1real / 10real,
    );
}

/// A number varied by a fraction and the jitter is that number times one, more or less by as
/// much of the jitter as the fraction is above or below one half.
proof fn lemma_jittered_value(base: Single, r: Single, jitter: Single, b: real)
    requires
        base.is_finite(),
        0real <= value(base) <= 6real,
        near(value(base), b, 1real / 500000real),
        0real <= b <= 6real,
        in_unit(r),
        in_unit(jitter),
    ensures
        jittered(base, r, jitter).is_finite(),
        near(
            value(jittered(base, r, jitter)),
            b * (1real + (value(r) - 1real / 2real) * value(jitter)),
            1real / 100000real,
        ),
{
    let v = variation(r, jitter);
    lemma_unit_value(r);
    lemma_unit_value(jitter);
    lemma_variation_value(r, jitter);
    let x: real = value(base);
    let y: real = value(v);
    let f: real = 1real + (value(r) - 1real / 2real) * value(jitter);
    lemma_near_product(
        x,
        b,
        1real / 500000real,
        y,
        f,
        1real / 4194304real,
        6real,
        3real / 2real,
    );
    lemma_times_same(y, 3real / 2real, x);
    lemma_times_same(0real, y, x);
    lemma_spread(0real, 0real, x);
    lemma_spread(x, 0real, y);
    assert(near(x * y, b * f, 6real / 1000000real));
    lemma_product(base, v, 9real);
}

/// The seconds that a strike of this strike speed lasts before jitter.
pub open spec fn exact_duration(speed: real) -> real {
    (1real - speed) * (95real / 100real) + 5real / 100real
}

/// How far rounding moves the start of a strike, a second time or so after `now`.
pub open spec fn start_error(now: real) -> real {
    (now + 20real) / 16777216real + 1real / 20000real
}

/// Strike `i` of a trigger starts `i` times 1.3 durations after the trigger. It lasts its
/// duration, more or less by as much of the jitter as the first of its two draws is above or
/// below one half, and 0.02 seconds at least. Its pattern is the second draw.
pub proof fn lemma_strike_values(s: Settings, rng: u32, now: Single, i: int)
    requires
        in_unit(s.strike_speed),
        in_unit(s.jitter),
        now.is_finite(),
        0real <= value(now) <= 1000000000real,
        0 <= i < 10,
    ensures
        ({
            let f = strike(s, rng, now, i);
            let d: real = exact_duration(value(s.strike_speed));
            let r: real = after_draws(rng, 1) as real / 4294967295real;
            let varied: real = d * (1real + (r - 1real / 2real) * value(s.jitter));
            &&& f.active
            &&& f.start.is_finite()
            &&& near(
                value(f.start),
                value(now) + i as real * (d * (13real / 10real)),
                start_error(value(now)),
            )
            &&& f.duration.is_finite()
            &&& varied >= 2real / 100real ==> near(value(f.duration), varied, 1real / 50000real)
            &&& varied < 2real / 100real ==> near(
                value(f.duration),
                2real / 100real,
                1real / 50000real,
            )
            &&& near(
                value(f.seed),
                after_draws(rng, 2) as real / 4294967295real,
                1real / 2097152real,
            )
        }),
{
    let f = strike(s, rng, now, i);
    let d: real = exact_duration(value(s.strike_speed));
    let dur = duration_of_strike(s);
    let stagger = Single { bits: STAGGER };
    let gap = fmul(dur, stagger);
    lemma_constants();
    lemma_unit_value(s.strike_speed);
    lemma_unit_value(s.jitter);
    lemma_duration_value(s);
    // The gap.
    let x: real = value(dur);
    let y: real = value(stagger);
    lemma_near_product(
        x,
        d,
        1real / 500000real,
        y,
        13real / 10real,
        1real / 16000000real,
        1real,
        14real / 10real,
    );
    lemma_spread(x, 0real, y);
    lemma_times_same(x, 1real, y);
    lemma_times_same(0real, x, y);
    lemma_spread(0real, 0real, y);
    lemma_product(dur, stagger, 2real);
    let g: real = value(gap);
    let e: real = d * (13real / 10real);
    assert(near(g, e, 1real / 300000real));
    // So many gaps.
    lemma_from_int_value(i);
    let n: real = i as real;
    lemma_spread(g, e, n);
    lemma_times_same(g - e, 1real / 300000real, n);
    lemma_times_same(-1real / 300000real, g - e, n);
    lemma_spread(n, 0real, g);
    lemma_spread(n, 0real, e);
    lemma_times_same(n, 10real, g);
    lemma_times_same(0real, n, g);
    lemma_spread(0real, 0real, g);
    lemma_product(from_int(i), gap, 14real);
    assert(near(value(fmul(from_int(i), gap)), n * e, 1real / 20000real));
    lemma_sum(now, fmul(from_int(i), gap), value(now) + 20real);
    // The two draws.
    let a: u32 = xorshift(rng);
    reveal_with_fuel(after_draws, 3);
    lemma_fraction_in_unit(a);
    lemma_fraction_value(a);
    lemma_fraction_value(xorshift(a));
    lemma_jittered_value(dur, fraction(a), s.jitter, d);
    let r: real = a as real / 4294967295real;
    let q: real = value(fraction(a));
    let j: real = value(s.jitter);
    lemma_fraction_shift(q, r, j, d, 1real / 2097152real, 1real);
    let w = jittered(dur, fraction(a), s.jitter);
    lemma_value_order(w, Single { bits: MIN_DURATION });
}

/// Two strikes of a trigger start at different times, the later one at least 0.06 seconds
/// after the earlier one.
pub proof fn lemma_strikes_apart(s: Settings, r1: u32, r2: u32, now: Single, i: int, j: int)
    requires
        in_unit(s.strike_speed),
        in_unit(s.jitter),
        now.is_finite(),
        0real <= value(now) <= 4096real,
        0 <= i < j < 10,
    ensures
        value(strike(s, r1, now, i).start) + 6real / 100real <= value(
            strike(s, r2, now, j).start,
        ),
        flt(strike(s, r1, now, i).start, strike(s, r2, now, j).start),
{
    lemma_unit_value(s.strike_speed);
    lemma_strike_values(s, r1, now, i);
    lemma_strike_values(s, r2, now, j);
    let e: real = exact_duration(value(s.strike_speed)) * (13real / 10real);
    lemma_spread(j as real, i as real, e);
    lemma_times_same(1real, j as real - i as real, e);
    lemma_value_order(strike(s, r1, now, i).start, strike(s, r2, now, j).start);
}

/// Strikes that find idle slots take them, one each, and leave the others as they are.
proof fn lemma_burst_places(s: Settings, b: Burst, now: Single, n: nat)
    requires
        b.flashes.len() == MAX_FLASHES,
        alight(b.flashes) + n <= MAX_FLASHES,
    ensures
        ({
            let r = burst(s, b, now, n);
            &&& r.flashes.len() == MAX_FLASHES
            &&& alight(r.flashes) == alight(b.flashes) + n
            &&& r.rng == after_draws(b.rng, 2 * n)
            &&& forall|i: int|
                0 <= i < MAX_FLASHES && (b.flashes[i].active || !r.flashes[i].active)
                    ==> #[trigger] r.flashes[i] == b.flashes[i]
            &&& forall|j: int|
                0 <= j < n ==> exists|p: int|
                    0 <= p < MAX_FLASHES && !b.flashes[p].active && #[trigger] r.flashes[p]
                        == #[trigger] strike(s, after_draws(b.rng, (2 * j) as nat), now, j)
        }),
    decreases n,
{
    if n > 0 {
        let m: nat = (n - 1) as nat;
        let before = burst(s, b, now, m);
        let r = burst(s, b, now, n);
        lemma_burst_places(s, b, now, m);
        lemma_first_idle(taken(before.flashes), 0);
        lemma_count(taken(before.flashes));
        lemma_slot(before.flashes);
        let k: int = slot(before.flashes);
        let f = strike(s, before.rng, now, m as int);
        assert(!before.flashes[k].active) by {
            assert(taken(before.flashes)[k] == before.flashes[k].active);
        }
        lemma_count_after_taking(taken(before.flashes), k);
        assert(taken(r.flashes) =~= taken(before.flashes).update(k, true));
        reveal_with_fuel(after_draws, 3);
        assert(r.flashes[k] == f);
        assert forall|j: int| 0 <= j < n implies exists|p: int|
            0 <= p < MAX_FLASHES && !b.flashes[p].active && #[trigger] r.flashes[p]
                == #[trigger] strike(s, after_draws(b.rng, (2 * j) as nat), now, j) by {
            if j < m {
                let p: int = choose|p: int|
                    0 <= p < MAX_FLASHES && !b.flashes[p].active && #[trigger] before.flashes[p]
                        == strike(s, after_draws(b.rng, (2 * j) as nat), now, j);
                assert(before.flashes[p].active);
                assert(r.flashes[p] == before.flashes[p]);
            } else {
                assert(!b.flashes[k].active);
                assert(r.flashes[k] == strike(s, after_draws(b.rng, (2 * j) as nat), now, j));
            }
        }
    }
}

/// A trigger queues as many strikes as are set, ten at most, in slots that were idle, where
/// there are so many. Strike `j` starts `j` times 1.3 durations after the trigger and has a
/// duration and a pattern of its own, drawn in turn. Strikes that were alight stay as they
/// are.
pub proof fn lemma_trigger_queues(c: CloudFlash, now: Single, n: int, j: int)
    requires
        in_unit(c.settings.strike_speed),
        in_unit(c.settings.jitter),
        now.is_finite(),
        0real <= value(now) <= 1000000000real,
        reads_as(c.settings.strikes, n),
        1 <= n <= 10,
        alight(c.flashes@) + n <= 10,
        0 <= j < n,
    ensures
        ({
            let after = triggered(c, now);
            let d: real = exact_duration(value(c.settings.strike_speed));
            let r: real = after_draws(c.rng_seed, (2 * j + 1) as nat) as real / 4294967295real;
            let varied: real = d * (1real + (r - 1real / 2real) * value(c.settings.jitter));
            &&& can_fire(c, now)
            &&& alight(after.flashes) == alight(c.flashes@) + n
            &&& after.rng == after_draws(c.rng_seed, (2 * n) as nat)
            &&& forall|i: int|
                0 <= i < 10 && c.flashes@[i].active ==> #[trigger] after.flashes[i]
                    == c.flashes@[i]
            &&& exists|p: int|
                {
                    let f = #[trigger] after.flashes[p];
                    &&& 0 <= p < 10
                    &&& !c.flashes@[p].active
                    &&& f.active
                    &&& near(
                        value(f.start),
                        value(now) + j as real * (d * (13real / 10real)),
                        start_error(value(now)),
                    )
                    &&& varied >= 2real / 100real ==> near(
                        value(f.duration),
                        varied,
                        1real / 50000real,
                    )
                    &&& varied < 2real / 100real ==> near(
                        value(f.duration),
                        2real / 100real,
                        1real / 50000real,
                    )
                    &&& near(
                        value(f.seed),
                        after_draws(c.rng_seed, (2 * j + 2) as nat) as real / 4294967295real,
                        1real / 2097152real,
                    )
                }
        }),
{
    let s = c.settings;
    let b = Burst { flashes: c.flashes@, rng: c.rng_seed };
    let after = triggered(c, now);
    lemma_setting_reads(s.strikes, n);
    lemma_burst_places(s, b, now, n as nat);
    assert forall|i: nat| i < n implies can_spawn((#[trigger] burst(s, b, now, i)).flashes) by {
        lemma_burst_places(s, b, now, i);
        let x = burst(s, b, now, i).flashes;
        lemma_first_idle(taken(x), 0);
        lemma_count(taken(x));
    }
    let rng: u32 = after_draws(c.rng_seed, (2 * j) as nat);
    reveal_with_fuel(after_draws, 3);
    assert(after_draws(rng, 1) == after_draws(c.rng_seed, (2 * j + 1) as nat));
    assert(after_draws(rng, 2) == after_draws(c.rng_seed, (2 * j + 2) as nat));
    lemma_strike_values(s, rng, now, j);
    let p: int = choose|p: int|
        0 <= p < MAX_FLASHES && !b.flashes[p].active && #[trigger] after.flashes[p] == strike(
            s,
            after_draws(b.rng, (2 * j) as nat),
            now,
            j,
        );
    assert(after.flashes[p].active);
}

/// Fewer than one strike is one strike, and more than ten are ten. A fraction does not
/// count.
pub proof fn lemma_strike_limits(s: Settings, n: int)
    requires
        reads_as(s.strikes, n),
        i32::MIN <= n <= i32::MAX,
    ensures
        n < 1 ==> strike_count(s) == 1,
        1 <= n <= 10 ==> strike_count(s) == n,
        n > 10 ==> strike_count(s) == 10,
{
    lemma_setting_reads(s.strikes, n);
}

/// A frame changes nothing of a strike but whether it is alight: every slot keeps the start,
/// the duration and the pattern that it had before the frame, or that the trigger of this
/// frame gave it. A strike goes out exactly where more time has passed since its start than
/// it lasts. The shader is given what the slots of the strikes that are alight hold, and
/// zero for the others.
pub proof fn lemma_frame_keeps_strikes(
    before: CloudFlash,
    now: Single,
    fired_at: Single,
    after: CloudFlash,
    u: CloudUniforms,
    i: int,
)
    requires
        drawn(before, now, fired_at, after, u),
        0 <= i < 10,
    ensures
        ({
            let f = if is_due(before, now) {
                triggered(before, fired_at).flashes[i]
            } else {
                before.flashes@[i]
            };
            let g = after.flashes@[i];
            &&& g.start == f.start
            &&& g.duration == f.duration
            &&& g.seed == f.seed
            &&& g.active <==> f.active && !flt(f.duration, fsub(now, f.start))
            &&& u.flash_start@[i] == (if g.active {
                f.start
            } else {
                zero()
            })
            &&& u.flash_duration@[i] == (if g.active {
                f.duration
            } else {
                zero()
            })
            &&& u.flash_seed@[i] == (if g.active {
                f.seed
            } else {
                zero()
            })
        }),
        u.time == now,
        after.settings == before.settings,
{
    assert(after.flashes[i] == after.flashes@[i]);
    assert(u.flash_start[i] == u.flash_start@[i]);
    assert(u.flash_duration[i] == u.flash_duration@[i]);
    assert(u.flash_seed[i] == u.flash_seed@[i]);
}

/// A frame counts its own triggers: with one the pause starts at this frame, and the next
/// one is as long as the rate says, more or less by as much of the jitter as a draw after
/// those of the strikes is above or below one half. Without one nothing of this changes, but
/// that a plugin that does not trigger itself forgets its last trigger.
pub proof fn lemma_frame_pauses(
    before: CloudFlash,
    now: Single,
    fired_at: Single,
    after: CloudFlash,
    u: CloudUniforms,
)
    requires
        drawn(before, now, fired_at, after, u),
        in_unit(before.settings.rate),
        in_unit(before.settings.jitter),
        before.settings.auto_fire.is_finite(),
    ensures
        is_due(before, now) ==> {
            let rng: u32 = xorshift(triggered(before, fired_at).rng);
            let r: real = rng as real / 4294967295real;
            let base: real = (1real - value(before.settings.rate)) * (49real / 10real) + 1real
                / 10real;
            &&& after.last_auto == Some(now)
            &&& after.rng_seed == rng
            &&& near(
                value(after.next_auto_interval),
                base * (1real + (r - 1real / 2real) * value(before.settings.jitter)),
                1real / 50000real,
            )
        },
        !is_due(before, now) ==> {
            &&& after.rng_seed == before.rng_seed
            &&& after.next_auto_interval == before.next_auto_interval
            &&& value(before.settings.auto_fire) >= 1real / 2real ==> after.last_auto
                == before.last_auto
            &&& value(before.settings.auto_fire) < 1real / 2real ==> after.last_auto is None
        },
{
    lemma_constants();
    lemma_value_order(Single { bits: HALF }, before.settings.auto_fire);
    if is_due(before, now) {
        let s = before.settings;
        let rng: u32 = xorshift(triggered(before, fired_at).rng);
        let base: real = (1real - value(s.rate)) * (49real / 10real) + 1real / 10real;
        lemma_unit_value(s.rate);
        lemma_unit_value(s.jitter);
        lemma_interval_value(s);
        lemma_fraction_in_unit(rng);
        lemma_fraction_value(rng);
        lemma_jittered_value(base_interval(s), fraction(rng), s.jitter, base);
        let r: real = rng as real / 4294967295real;
        let q: real = value(fraction(rng));
        let j: real = value(s.jitter);
        lemma_fraction_shift(q, r, j, base, 1real / 2097152real, 5real);
    }
}

/// The plugin triggers itself where Auto Fire is one half or more, at once the first time
/// and then once its pause, 0.05 seconds at least, is over.
pub proof fn lemma_due(c: CloudFlash, now: Single)
    requires
        c.settings.auto_fire.is_finite(),
        now.is_finite(),
        0real <= value(now) <= 1000000000real,
        c.next_auto_interval.is_finite(),
        c.last_auto matches Some(t) ==> t.is_finite() && 0real <= value(t) <= value(now),
    ensures
        value(c.settings.auto_fire) < 1real / 2real ==> !is_due(c, now),
        value(c.settings.auto_fire) >= 1real / 2real && c.last_auto is None ==> is_due(c, now),
        value(c.settings.auto_fire) >= 1real / 2real && c.last_auto is Some ==> {
            let passed: real = value(now) - value(c.last_auto->0);
            let pause: real = value(c.next_auto_interval);
            let margin: real = (value(now) + 1real) / 16777216real;
            let counted: real = value(fsub(now, c.last_auto->0));
            &&& counted >= pause && counted > 5real / 100real + 1real / 100000000real ==> is_due(
                c,
                now,
            )
            &&& counted < pause || counted < 5real / 100real - 1real / 100000000real ==> !is_due(
                c,
                now,
            )
            &&& passed > pause + margin && passed > 5real / 100real + margin
                ==> is_due(c, now)
            &&& passed < pause - margin || passed < 5real / 100real - margin
                ==> !is_due(c, now)
        },
{
    lemma_constants();
    lemma_value_order(Single { bits: HALF }, c.settings.auto_fire);
    if let Some(t) = c.last_auto {
        let d = fsub(now, t);
        lemma_difference(now, t, value(now));
        let p = fmax(c.next_auto_interval, Single { bits: BRIEFEST });
        lemma_value_order(c.next_auto_interval, Single { bits: BRIEFEST });
        lemma_value_order(p, d);
    }
}

/// The shader is given the settings of the parameters of these names as they are, and for
/// the noise scale one and 29 times the square of its setting.
pub proof fn lemma_frame_shows_settings(
    before: CloudFlash,
    now: Single,
    fired_at: Single,
    after: CloudFlash,
    u: CloudUniforms,
)
    requires
        drawn(before, now, fired_at, after, u),
        before.settings.noise_scale.is_finite(),
        -100real <= value(before.settings.noise_scale) <= 100real,
    ensures
        u.decay == param(before.settings, PARAM_DECAY as int),
        u.threshold == param(before.settings, PARAM_THRESHOLD as int),
        u.softness == param(before.settings, PARAM_SOFTNESS as int),
        u.color.3 == param(before.settings, PARAM_COLOR_A as int),
        u.bg_color.3 == param(before.settings, PARAM_BG_A as int),
        ({
            let (r, g, b) = rgb_or_grey(
                param(before.settings, PARAM_COLOR_H as int),
                param(before.settings, PARAM_COLOR_S as int),
                param(before.settings, PARAM_COLOR_V as int),
            );
            u.color.0 == r && u.color.1 == g && u.color.2 == b
        }),
        ({
            let (r, g, b) = rgb_or_grey(
                param(before.settings, PARAM_BG_H as int),
                param(before.settings, PARAM_BG_S as int),
                param(before.settings, PARAM_BG_V as int),
            );
            u.bg_color.0 == r && u.bg_color.1 == g && u.bg_color.2 == b
        }),
        ({
            let n: real = value(param(before.settings, PARAM_NOISE_SCALE as int));
            let exact: real = 1real + (n * n) * 29real;
            near(value(u.noise_scale), exact, exact / 4194304real)
        }),
{
    let x = before.settings.noise_scale;
    let n: real = value(x);
    lemma_constants();
    lemma_unit_value(one());
    assert(0real <= n * n <= 10000real) by (nonlinear_arith)
        requires
            -100real <= n <= 100real,
    ;
    lemma_product(x, x, 10000real);
    let span = Single { bits: NOISE_SPAN };
    let sq: real = value(fmul(x, x));
    lemma_product(fmul(x, x), span, 29real * (n * n) + 29real * ((n * n) / 16777216real + tiny()));
    lemma_sum(one(), fmul(fmul(x, x), span), 1001real / 1000real + 30real * (n * n));
}

/// A value above one half of the trigger is a trigger, and any other value of it nothing.
/// Setting another parameter changes that one alone and no strike.
pub proof fn lemma_set_param(
    before: CloudFlash,
    index: int,
    v: Single,
    now: Single,
    after: CloudFlash,
    j: int,
)
    requires
        is_set(before, index, v, now, after),
        v.is_finite(),
    ensures
        index == 0 && value(v) > 1real / 2real ==> {
            &&& after.flashes@ == triggered(before, now).flashes
            &&& after.rng_seed == triggered(before, now).rng
        },
        index != 0 || value(v) <= 1real / 2real ==> {
            &&& after.flashes == before.flashes
            &&& after.rng_seed == before.rng_seed
        },
        param(after.settings, j) == (if j == index && 0 < index < 18 {
            v
        } else {
            param(before.settings, j)
        }),
        index <= 0 || index >= 18 ==> after.settings == before.settings,
        after.last_auto == before.last_auto,
        after.next_auto_interval == before.next_auto_interval,
{
    lemma_constants();
    lemma_value_order(Single { bits: HALF }, v);
    lemma_set_get(before.settings, index, v, j);
}

/// Each parameter, in the order and under the name that it is announced with, is the setting
/// of that name.
pub proof fn lemma_parameters_are_settings(s: Settings)
    ensures
        parameter(1).name == "Auto Fire"@ && param(s, 1) == s.auto_fire,
        parameter(2).name == "Jitter"@ && param(s, 2) == s.jitter,
        parameter(3).name == "Rate"@ && param(s, 3) == s.rate,
        parameter(4).name == "Strikes"@ && param(s, 4) == s.strikes,
        parameter(5).name == "Strike Speed"@ && param(s, 5) == s.strike_speed,
        parameter(6).name == "Decay"@ && param(s, 6) == s.decay,
        parameter(7).name == "Noise Scale"@ && param(s, 7) == s.noise_scale,
        parameter(8).name == "Threshold"@ && param(s, 8) == s.threshold,
        parameter(9).name == "Softness"@ && param(s, 9) == s.softness,
        parameter(10).param_type == ParameterTypes::Hue && param(s, 10) == s.color.hue,
        parameter(11).param_type == ParameterTypes::Saturation && param(s, 11)
            == s.color.saturation,
        parameter(12).param_type == ParameterTypes::Brightness && param(s, 12)
            == s.color.brightness,
        parameter(13).param_type == ParameterTypes::Alpha && param(s, 13) == s.color.alpha,
        parameter(14).param_type == ParameterTypes::Hue && param(s, 14) == s.bg_color.hue,
        parameter(15).param_type == ParameterTypes::Saturation && param(s, 15)
            == s.bg_color.saturation,
        parameter(16).param_type == ParameterTypes::Brightness && param(s, 16)
            == s.bg_color.brightness,
        parameter(17).param_type == ParameterTypes::Alpha && param(s, 17) == s.bg_color.alpha,
{
}

/// Strikes take slots of their own, one each, where what was alight started earlier; the
/// slots that they take were idle, or no slot was and they were the oldest. `q` are the
/// slots, and `mark` says which they are.
proof fn lemma_burst_slots(s: Settings, b: Burst, now: Single, n: nat) -> (r: (Seq<int>, Seq<bool>))
    requires
        b.flashes.len() == MAX_FLASHES,
        n <= MAX_FLASHES,
        in_unit(s.strike_speed),
        now.is_finite(),
        !now.negative(),
        steady(b.flashes),
        forall|i: int|
            0 <= i < MAX_FLASHES && (#[trigger] b.flashes[i]).active ==> flt(
                b.flashes[i].start,
                now,
            ),
    ensures
        ({
            let f = burst(s, b, now, n).flashes;
            let (q, mark) = r;
            &&& f.len() == MAX_FLASHES
            &&& burst(s, b, now, n).rng == after_draws(b.rng, 2 * n)
            &&& q.len() == n
            &&& mark.len() == MAX_FLASHES
            &&& count(mark) == n
            &&& forall|j: int|
                0 <= j < n ==> {
                    &&& 0 <= #[trigger] q[j] < MAX_FLASHES
                    &&& mark[q[j]]
                    &&& f[q[j]] == strike(s, after_draws(b.rng, (2 * j) as nat), now, j)
                }
            &&& forall|p: int|
                0 <= p < MAX_FLASHES && !(#[trigger] mark[p]) ==> f[p] == b.flashes[p]
            &&& forall|p: int|
                0 <= p < MAX_FLASHES && #[trigger] mark[p] ==> f[p].active && fle(
                    now,
                    f[p].start,
                ) && q.contains(p)
            &&& forall|i: int, j: int| 0 <= i < j < n ==> q[i] != q[j]
            &&& forall|j: int, p: int|
                0 <= j < n && 0 <= p < MAX_FLASHES && !(#[trigger] mark[p]) && b.flashes[(
                #[trigger] q[j])].active ==> b.flashes[p].active && fle(
                    b.flashes[q[j]].start,
                    b.flashes[p].start,
                )
        }),
    decreases n,
{
    if n == 0 {
        let mark = Seq::new(MAX_FLASHES as nat, |i: int| false);
        lemma_none_taken(MAX_FLASHES as nat);
        (seq![], mark)
    } else {
        let m: nat = (n - 1) as nat;
        let before = burst(s, b, now, m);
        let f = before.flashes;
        let after = burst(s, b, now, n).flashes;
        let (q0, mark0) = lemma_burst_slots(s, b, now, m);
        lemma_burst_steady(s, b, now, m);
        lemma_slot(f);
        let k: int = slot(f);
        // There is a slot that none of these strikes has taken.
        lemma_count(mark0);
        lemma_first_idle(mark0, 0);
        let free: int = first_idle(mark0, 0) as int;
        assert(!mark0[free]);
        assert(f[free] == b.flashes[free]);
        assert(!mark0[k]) by {
            if mark0[k] {
                assert(f[k].active);
                assert(f[free].active && fle(f[k].start, f[free].start));
                assert(fle(now, f[k].start));
                assert(flt(b.flashes[free].start, now));
            }
        }
        let q = q0.push(k);
        let mark = mark0.update(k, true);
        lemma_count_after_taking(mark0, k);
        lemma_strikes_in_order(s, now, 0, m as int);
        reveal_with_fuel(after_draws, 3);
        assert(after == f.update(k, strike(s, before.rng, now, m as int)));
        assert forall|j: int| 0 <= j < n implies {
            &&& 0 <= #[trigger] q[j] < MAX_FLASHES
            &&& mark[q[j]]
            &&& after[q[j]] == strike(s, after_draws(b.rng, (2 * j) as nat), now, j)
        } by {
            if j < m {
                assert(q[j] == q0[j]);
                assert(mark0[q0[j]]);
            }
        }
        assert forall|p: int| 0 <= p < MAX_FLASHES && #[trigger] mark[p] implies after[p].active
            && fle(now, after[p].start) && q.contains(p) by {
            if p != k {
                assert(mark0[p]);
                let j: int = choose|j: int| 0 <= j < q0.len() && q0[j] == p;
                assert(q[j] == p);
            } else {
                assert(q[m as int] == k);
            }
        }
        assert forall|p: int| 0 <= p < MAX_FLASHES && !(#[trigger] mark[p]) implies after[p]
            == b.flashes[p] by {
            assert(!mark0[p]);
        }
        assert forall|i: int, j: int| 0 <= i < j < n implies q[i] != q[j] by {
            assert(q[i] == q0[i]);
            assert(mark0[q0[i]]);
            if j < m {
                assert(q[j] == q0[j]);
            }
        }
        assert forall|j: int, p: int|
            0 <= j < n && 0 <= p < MAX_FLASHES && !(#[trigger] mark[p]) && b.flashes[(
            #[trigger] q[j])].active implies b.flashes[p].active && fle(
            b.flashes[q[j]].start,
            b.flashes[p].start,
        ) by {
            assert(!mark0[p]);
            assert(f[p] == b.flashes[p]);
            if j < m {
                assert(q[j] == q0[j]);
            } else {
                assert(f[k] == b.flashes[k]);
                assert(f[p].active);
            }
        }
        (q, mark)
    }
}

/// A trigger queues as many strikes as are set, ten at most, each in a slot of its own, also
/// where slots have to be given up for it: `q` are the slots. Strike `j` starts `j` times 1.3
/// durations after the trigger and has a duration and a pattern of its own, drawn in turn.
/// All other slots stay as they are. A slot with a strike is given up only where none is
/// idle, and for none that stays is the start earlier.
pub proof fn lemma_trigger_displaces(c: CloudFlash, now: Single, n: int) -> (q: Seq<int>)
    requires
        in_unit(c.settings.strike_speed),
        in_unit(c.settings.jitter),
        now.is_finite(),
        !now.negative(),
        value(now) <= 1000000000real,
        reads_as(c.settings.strikes, n),
        1 <= n <= 10,
        steady(c.flashes@),
        forall|i: int|
            0 <= i < 10 && (#[trigger] c.flashes@[i]).active ==> flt(c.flashes@[i].start, now),
    ensures
        ({
            let after = triggered(c, now);
            let d: real = exact_duration(value(c.settings.strike_speed));
            &&& can_fire(c, now)
            &&& after.rng == after_draws(c.rng_seed, (2 * n) as nat)
            &&& q.len() == n
            &&& forall|i: int, j: int| 0 <= i < j < n ==> q[i] != q[j]
            &&& forall|j: int|
                0 <= j < n ==> {
                    let f = after.flashes[q[j]];
                    let r: real = after_draws(c.rng_seed, (2 * j + 1) as nat) as real
                        / 4294967295real;
                    let varied: real = d * (1real + (r - 1real / 2real) * value(
                        c.settings.jitter,
                    ));
                    &&& 0 <= #[trigger] q[j] < 10
                    &&& f.active
                    &&& near(
                        value(f.start),
                        value(now) + j as real * (d * (13real / 10real)),
                        start_error(value(now)),
                    )
                    &&& varied >= 2real / 100real ==> near(
                        value(f.duration),
                        varied,
                        1real / 50000real,
                    )
                    &&& varied < 2real / 100real ==> near(
                        value(f.duration),
                        2real / 100real,
                        1real / 50000real,
                    )
                    &&& near(
                        value(f.seed),
                        after_draws(c.rng_seed, (2 * j + 2) as nat) as real / 4294967295real,
                        1real / 2097152real,
                    )
                }
            &&& forall|p: int|
                0 <= p < 10 && !q.contains(p) ==> #[trigger] after.flashes[p] == c.flashes@[p]
            &&& forall|j: int, p: int|
                0 <= j < n && 0 <= p < 10 && !q.contains(p) && c.flashes@[#[trigger] q[j]].active
                    ==> (#[trigger] c.flashes@[p]).active && fle(
                    c.flashes@[q[j]].start,
                    c.flashes@[p].start,
                )
        }),
{
    let s = c.settings;
    let b = Burst { flashes: c.flashes@, rng: c.rng_seed };
    let after = triggered(c, now);
    lemma_setting_reads(s.strikes, n);
    let (q, mark) = lemma_burst_slots(s, b, now, n as nat);
    lemma_can_always_fire(c, now);
    lemma_unit_value(one());
    lemma_value_order(zero(), now);
    lemma_magnitude_zero();
    assert forall|p: int| 0 <= p < 10 && !q.contains(p) implies !(#[trigger] mark[p]) by {}
    assert forall|j: int| 0 <= j < n implies {
        let f = after.flashes[q[j]];
        let d: real = exact_duration(value(s.strike_speed));
        let r: real = after_draws(c.rng_seed, (2 * j + 1) as nat) as real / 4294967295real;
        let varied: real = d * (1real + (r - 1real / 2real) * value(s.jitter));
        &&& 0 <= #[trigger] q[j] < 10
        &&& f.active
        &&& near(
            value(f.start),
            value(now) + j as real * (d * (13real / 10real)),
            start_error(value(now)),
        )
        &&& varied >= 2real / 100real ==> near(value(f.duration), varied, 1real / 50000real)
        &&& varied < 2real / 100real ==> near(
            value(f.duration),
            2real / 100real,
            1real / 50000real,
        )
        &&& near(
            value(f.seed),
            after_draws(c.rng_seed, (2 * j + 2) as nat) as real / 4294967295real,
            1real / 2097152real,
        )
    } by {
        let rng: u32 = after_draws(c.rng_seed, (2 * j) as nat);
        lemma_draws_follow(c.rng_seed, (2 * j) as nat);
        lemma_strike_values(s, rng, now, j);
    }
    assert forall|p: int| 0 <= p < 10 && !q.contains(p) implies #[trigger] after.flashes[p]
        == c.flashes@[p] by {
        assert(!mark[p]);
    }
    assert forall|j: int, p: int|
        0 <= j < n && 0 <= p < 10 && !q.contains(p) && c.flashes@[#[trigger] q[j]].active implies (
    #[trigger] c.flashes@[p]).active && fle(c.flashes@[q[j]].start, c.flashes@[p].start) by {
        assert(!mark[p]);
    }
    q
}

/// The next two draws.
proof fn lemma_draws_follow(rng: u32, n: nat)
    ensures
        after_draws(after_draws(rng, n), 1) == after_draws(rng, n + 1),
        after_draws(after_draws(rng, n), 2) == after_draws(rng, n + 2),
{
    reveal_with_fuel(after_draws, 3);
}

/// Strike speeds and rates beyond zero and one lie on the same lines.
pub proof fn lemma_lines_go_on(s: Settings)
    requires
        s.strike_speed.is_finite(),
        s.rate.is_finite(),
        -100real <= value(s.strike_speed) <= 100real,
        -100real <= value(s.rate) <= 100real,
    ensures
        near(
            value(duration_of_strike(s)),
            (1real - value(s.strike_speed)) * (95real / 100real) + 5real / 100real,
            1real / 4000real,
        ),
        near(
            value(base_interval(s)),
            (1real - value(s.rate)) * (49real / 10real) + 1real / 10real,
            1real / 4000real,
        ),
{
    lemma_constants();
    lemma_long_line(
        s.strike_speed,
        Single { bits: STRIKE_SPAN },
        Single { bits: BRIEFEST },
        95real / 100real,
        5real / 100real,
    );
    lemma_long_line(
        s.rate,
        Single { bits: RATE_SPAN },
        Single { bits: RATE_MIN },
        49real / 10real,
        1real / 10real,
    );
}

} // verus!
