//! What holds of the light pulses over many calls.
use crate::color::rgb;
use crate::host::ParameterTypes;
use crate::pulse_beam_3::{
    auto_fired, base_pause, crossing_time, drawn, initial_settings, is_due, is_over, is_set,
    narrow_slice, new_pulse, oldest, param, parameter, pause_of, progress, sends_by_itself, sent,
    since, slot, taken, wide_range, with_param, BeamUniforms, Pulse, PulseBeam, Settings, FASTEST,
    MAX_PULSES, MIN_PAUSE, NONE_UNDER_WAY, NUM_PARAMS, OVERLAP, PARAM_BG_A, PARAM_BG_CLIP,
    PARAM_BG_H, PARAM_BG_S, PARAM_BG_V, PARAM_COLOR_A, PARAM_COLOR_H, PARAM_COLOR_S, PARAM_COLOR_V,
    PARAM_HEAD_WIDTH, PARAM_TRAIL_LENGTH, PARAM_TRAIL_SOFTNESS, PARAM_TRIGGER, SPEED_SPAN,
};
use crate::random::{
    after_draws, fraction, lemma_fraction_in_unit, lemma_fraction_value, lemma_no_jitter,
    lemma_variation_range, lemma_variation_value, variation, xorshift, HALF, ONE_AND_A_HALF,
};
use crate::reals::{
    lemma_fraction_shift, lemma_near_product, lemma_over, lemma_spread, lemma_times,
    lemma_times_same,
};
use crate::single::{fadd, fdiv, fle, fmul, fneg, from_int, fsub, zero, Single};
use crate::single_facts::{bounded, lemma_bounded_product, lemma_bounded_sum};
use crate::single_order::{
    in_unit, lemma_add_order, lemma_add_zero, lemma_bounded_bits, lemma_div_order, lemma_mul_one,
    lemma_mul_order, lemma_remaining, lemma_span_order, one,
};
use crate::slices::{
    edge, lemma_edge_ends, lemma_edge_is_fraction, lemma_edges_in_order, lemma_setting_reads,
    lemma_slice_count, reads_as, slice_count, within,
};
use crate::slots::{count, first_idle, lemma_count, lemma_count_after_taking, lemma_first_idle};
use crate::values::{
    lemma_from_int_value, lemma_line, lemma_long_line, lemma_product, lemma_quotient, lemma_sum,
    lemma_unit_value, lemma_value_bits, lemma_value_opposite, lemma_value_order, near, slack, tiny,
    value,
};
use vstd::arithmetic::power2::lemma2_to64;
use vstd::prelude::*;

verus! {

/// A parameter reads as it was set, and setting it leaves the others alone. The trigger
/// holds no value.
pub proof fn lemma_set_get(s: Settings, i: int, value: Single, j: int)
    ensures
        param(with_param(s, i, value), j) == (if i == j && 0 <= i < NUM_PARAMS && i
            != PARAM_TRIGGER {
            value
        } else {
            param(s, j)
        }),
{
}

/// The plugin starts with the defaults that it announces.
pub proof fn lemma_starts_with_defaults(i: int)
    requires
        0 <= i < NUM_PARAMS,
    ensures
        param(initial_settings(), i) == (match parameter(i).default {
            Some(v) => v,
            None => zero(),
        }),
{
}

proof fn lemma_oldest(p: Seq<Pulse>, n: nat)
    requires
        1 <= n <= p.len(),
    ensures
        0 <= oldest(p, n) < n,
        forall|i: int| 0 <= i < n ==> p[oldest(p, n)].start_time <= (#[trigger] p[i]).start_time,
        forall|i: int|
            0 <= i < oldest(p, n) ==> p[oldest(p, n)].start_time < (#[trigger] p[i]).start_time,
    decreases n,
{
    if n > 1 {
        lemma_oldest(p, (n - 1) as nat);
    }
}

/// A new pulse takes the first idle slot; only where there is none does it displace
/// another, and then the first of those that started earliest.
pub proof fn lemma_slot(p: Seq<Pulse>)
    requires
        p.len() > 0,
    ensures
        0 <= slot(p) < p.len(),
        p[slot(p)].active ==> forall|i: int|
            0 <= i < p.len() ==> (#[trigger] p[i]).active && p[slot(p)].start_time
                <= p[i].start_time,
        p[slot(p)].active ==> forall|i: int|
            0 <= i < slot(p) ==> p[slot(p)].start_time < (#[trigger] p[i]).start_time,
        !p[slot(p)].active ==> forall|i: int| 0 <= i < slot(p) ==> (#[trigger] p[i]).active,
{
    lemma_first_idle(taken(p), 0);
    assert(forall|i: int| 0 <= i < p.len() ==> (#[trigger] p[i]).active == taken(p)[i]);
    if first_idle(taken(p), 0) == p.len() {
        lemma_oldest(p, p.len());
    }
}

/// How many pulses are under way.
pub open spec fn under_way(p: Seq<Pulse>) -> int {
    count(taken(p))
}

/// A trigger sends one pulse more, as long as there are slots.
pub proof fn lemma_trigger_sends(p: Seq<Pulse>, s: Settings, rng: u32, at: u64)
    requires
        p.len() == MAX_PULSES,
    ensures
        under_way(p.update(slot(p), new_pulse(s, rng, at))) == within(
            under_way(p) + 1,
            0,
            MAX_PULSES as int,
        ),
{
    lemma_slot(p);
    let after = p.update(slot(p), new_pulse(s, rng, at));
    lemma_first_idle(taken(p), 0);
    lemma_count(taken(p));
    lemma_count_after_taking(taken(p), slot(p));
    assert(taken(after) =~= taken(p).update(slot(p), true));
}

/// A new pulse is between half as fast and half again as fast as usual.
pub proof fn lemma_new_pulse_speed(s: Settings, rng: u32, at: u64)
    requires
        !s.jitter.is_nan(),
    ensures
        fle(Single { bits: HALF }, new_pulse(s, rng, at).speed_mul),
        fle(new_pulse(s, rng, at).speed_mul, Single { bits: ONE_AND_A_HALF }),
{
    lemma_fraction_in_unit(xorshift(rng));
    lemma_variation_range(fraction(xorshift(rng)), s.jitter);
}

/// A crossing takes at least 0.1 seconds, and no longer at a higher speed.
pub proof fn lemma_crossing_time(s: Settings, t: Settings)
    requires
        in_unit(s.speed),
        in_unit(t.speed),
    ensures
        fle(Single { bits: FASTEST }, crossing_time(s)),
        bounded(crossing_time(s), 4),
        fle(s.speed, t.speed) ==> fle(crossing_time(t), crossing_time(s)),
{
    let span = Single { bits: SPEED_SPAN };
    let least = Single { bits: FASTEST };
    let rest = fsub(one(), s.speed);
    lemma_bounded_bits(span, 3);
    lemma_bounded_bits(least, 3);
    lemma_remaining(s.speed);
    lemma_bounded_product(rest, span, 0, 3);
    lemma_mul_order(zero(), rest, span);
    lemma_mul_order(rest, rest, span);
    lemma_add_order(zero(), fmul(rest, span), least);
    lemma_add_zero(least, zero());
    lemma_bounded_sum(fmul(rest, span), least, 3);
    if fle(s.speed, t.speed) {
        lemma_span_order(s.speed, t.speed, span, least);
    }
}

/// Without jitter the plugin is periodic: every pulse has the usual speed, and every pause
/// is seven tenths of a crossing.
pub proof fn lemma_periodic_without_jitter(s: Settings, rng: u32, at: u64)
    requires
        s.jitter.is_zero(),
        in_unit(s.speed),
    ensures
        new_pulse(s, rng, at).speed_mul == one(),
        fmul(base_pause(s), variation(fraction(xorshift(rng)), s.jitter)) == fmul(
            crossing_time(s),
            Single { bits: OVERLAP },
        ),
{
    let r = fraction(xorshift(rng));
    lemma_fraction_in_unit(xorshift(rng));
    lemma_no_jitter(r, s.jitter);
    lemma_crossing_time(s, s);
    lemma_bounded_bits(Single { bits: OVERLAP }, 0);
    lemma_bounded_product(crossing_time(s), Single { bits: OVERLAP }, 4, 0);
    lemma_mul_one(base_pause(s));
}

/// A pulse only moves on: with time its progress does not shrink, and once it has left
/// the picture it stays out.
pub proof fn lemma_pulse_moves_on(s: Settings, p: Pulse, before: Single, after: Single)
    requires
        in_unit(s.speed),
        fle(zero(), p.speed_mul),
        p.speed_mul.is_finite(),
        fle(zero(), before),
        fle(before, after),
        after.is_finite(),
    ensures
        fle(zero(), progress(s, p, before)),
        fle(progress(s, p, before), progress(s, p, after)),
        is_over(s, p, before) ==> is_over(s, p, after),
{
    lemma_crossing_time(s, s);
    lemma_mul_order(before, after, p.speed_mul);
    lemma_div_order(fmul(before, p.speed_mul), fmul(after, p.speed_mul), crossing_time(s));
}

/// Between two pulses that the plugin sends by itself the pause is kept: one that was
/// sent at `now` is followed no earlier than `pause` later.
pub proof fn lemma_pause_is_kept(b: PulseBeam, now: u64, later: u64, pause: u128)
    requires
        b.last_auto_fire == Some(now),
        pause > 0,
        is_due(b, later, pause),
    ensures
        later - now >= pause,
{
}

/// The first pulse is sent at once where the plugin sends any by itself.
pub proof fn lemma_first_pulse_at_once(b: PulseBeam, now: u64, pause: u128)
    requires
        b.last_auto_fire is None,
    ensures
        is_due(b, now, pause) <==> sends_by_itself(b.settings),
{
}

/// Both phases fill a part of the width that is in order and within the picture; with
/// one slice it is all of it.
pub proof fn lemma_ranges(s: Settings)
    ensures
        ({
            let n: int = slice_count(s.segments);
            let k: int = narrow_slice(s);
            &&& 1 <= k <= n
            &&& fle(edge(k - 1, n), edge(k, n))
            &&& in_unit(edge(k - 1, n))
            &&& in_unit(edge(k, n))
            &&& n == 1 ==> edge(k - 1, n) == zero() && edge(k, n) == one()
        }),
        fle(wide_range(s).0, wide_range(s).1),
        in_unit(wide_range(s).0),
        in_unit(wide_range(s).1),
        slice_count(s.segments) == 1 ==> wide_range(s) == (zero(), one()),
{
    let n: int = slice_count(s.segments);
    let k: int = narrow_slice(s);
    lemma_slice_count(s.segments);
    lemma_edges_in_order(k - 1, k, n);
    lemma_edge_ends(n);
    let e: int = within(crate::slices::setting(s.expand_segment), 1, n);
    lemma_edges_in_order(e - 1, e, n);
}

/// The numbers that crossings and pauses are made of.
proof fn lemma_constants()
    ensures
        near(value(Single { bits: SPEED_SPAN }), 49real / 10real, 1real / 4000000real),
        near(value(Single { bits: FASTEST }), 1real / 10real, 1real / 100000000real),
        near(value(Single { bits: OVERLAP }), 7real / 10real, 1real / 16000000real),
        near(value(Single { bits: MIN_PAUSE }), 5real / 100real, 1real / 100000000real),
        value(Single { bits: HALF }) == 1real / 2real,
        value(Single { bits: NONE_UNDER_WAY }) == -1real,
{
    lemma2_to64();
    lemma_value_bits(Single { bits: SPEED_SPAN }, 21);
    assert(value(Single { bits: SPEED_SPAN }) * 2097152real == 10276045real);
    lemma_value_bits(Single { bits: FASTEST }, 27);
    assert(value(Single { bits: FASTEST }) * 134217728real == 13421773real);
    lemma_value_bits(Single { bits: OVERLAP }, 24);
    assert(value(Single { bits: OVERLAP }) * 16777216real == 11744051real);
    lemma_value_bits(Single { bits: MIN_PAUSE }, 28);
    assert(value(Single { bits: MIN_PAUSE }) * 268435456real == 13421773real);
    lemma_value_bits(Single { bits: HALF }, 24);
    assert(value(Single { bits: HALF }) * 16777216real == 8388608real);
    lemma_unit_value(one());
    lemma_value_opposite(one());
    assert(fneg(one()) == Single { bits: NONE_UNDER_WAY });
}

/// The seconds of a crossing at this speed.
pub open spec fn exact_crossing(speed: real) -> real {
    (1real - speed) * (49real / 10real) + 1real / 10real
}

/// A crossing takes 0.1 seconds and, of 4.9 seconds more, the part that the speed leaves.
pub proof fn lemma_crossing_value(s: Settings)
    requires
        in_unit(s.speed),
    ensures
        crossing_time(s).is_finite(),
        near(
            value(crossing_time(s)),
            exact_crossing(value(s.speed)),
            1real / 500000real,
        ),
        1real / 10real - 1real / 100000000real <= value(crossing_time(s)),
        1real / 10real <= exact_crossing(value(s.speed)) <= 5real,
{
    lemma_constants();
    lemma_unit_value(s.speed);
    lemma_line(
        s.speed,
        Single { bits: SPEED_SPAN },
        Single { bits: FASTEST },
        49real / 10real,
        1real / 10real,
    );
    lemma_crossing_time(s, s);
    lemma_value_order(Single { bits: FASTEST }, crossing_time(s));
}

/// A new pulse is as much faster or slower than usual as a draw is above or below one half,
/// so far as there is jitter; it starts when it is sent.
pub proof fn lemma_new_pulse_value(s: Settings, rng: u32, at: u64)
    requires
        in_unit(s.jitter),
    ensures
        ({
            let r: real = after_draws(rng, 1) as real / 4294967295real;
            let p = new_pulse(s, rng, at);
            &&& p.active
            &&& p.start_time == at
            &&& p.speed_mul.is_finite()
            &&& near(
                value(p.speed_mul),
                1real + (r - 1real / 2real) * value(s.jitter),
                1real / 1000000real,
            )
        }),
{
    reveal_with_fuel(after_draws, 2);
    let a: u32 = xorshift(rng);
    lemma_fraction_in_unit(a);
    lemma_fraction_value(a);
    lemma_unit_value(s.jitter);
    lemma_variation_value(fraction(a), s.jitter);
    lemma_fraction_shift(
        value(fraction(a)),
        a as real / 4294967295real,
        value(s.jitter),
        1real,
        1real / 2097152real,
        1real,
    );
}

/// Where a pulse is due it is sent, in a slot that was idle where there was one; the other
/// slots stay as they are. The next pause is 0.7 crossings, more or less by as much of the
/// jitter as the draw after that of the pulse is above or below one half. Where none is due
/// nothing changes, but that a plugin that sends none by itself forgets the last one.
pub proof fn lemma_auto_fire(before: PulseBeam, now: u64, pause: u128, at: u64, after: PulseBeam)
    requires
        auto_fired(before, now, pause, at, after),
        in_unit(before.settings.speed),
        in_unit(before.settings.jitter),
        before.settings.auto_fire.is_finite(),
        before.last_auto_fire matches Some(t) ==> t <= now,
    ensures
        ({
            let due = value(before.settings.auto_fire) >= 1real / 2real && (
            before.last_auto_fire matches Some(t) ==> now - t >= pause);
            let r: real = after_draws(before.rng_seed, 2) as real / 4294967295real;
            let q: real = after_draws(before.rng_seed, 1) as real / 4294967295real;
            let j: real = value(before.settings.jitter);
            &&& due ==> {
                &&& after.last_auto_fire == Some(now)
                &&& after.rng_seed == after_draws(before.rng_seed, 2)
                &&& near(
                    value(after.next_auto_interval),
                    (exact_crossing(value(before.settings.speed)) * (7real / 10real)) * (1real + (r
                        - 1real / 2real) * j),
                    1real / 50000real,
                )
                &&& exists|k: int|
                    {
                        &&& 0 <= k < 8
                        &&& (#[trigger] after.pulses@[k]).active
                        &&& after.pulses@[k].start_time == at
                        &&& near(
                            value(after.pulses@[k].speed_mul),
                            1real + (q - 1real / 2real) * j,
                            1real / 1000000real,
                        )
                        &&& forall|i: int|
                            0 <= i < 8 && i != k ==> #[trigger] after.pulses@[i]
                                == before.pulses@[i]
                        &&& before.pulses@[k].active ==> forall|i: int|
                            0 <= i < 8 ==> (#[trigger] before.pulses@[i]).active
                                && before.pulses@[k].start_time <= before.pulses@[i].start_time
                    }
            }
            &&& !due ==> {
                &&& after.pulses == before.pulses
                &&& after.rng_seed == before.rng_seed
                &&& after.next_auto_interval == before.next_auto_interval
                &&& value(before.settings.auto_fire) >= 1real / 2real ==> after.last_auto_fire
                    == before.last_auto_fire
                &&& value(before.settings.auto_fire) < 1real / 2real ==> after.last_auto_fire
                    is None
            }
            &&& after.settings == before.settings
        }),
{
    let s = before.settings;
    let p = before.pulses@;
    lemma_constants();
    lemma_value_order(Single { bits: HALF }, s.auto_fire);
    reveal_with_fuel(after_draws, 3);
    let b: u32 = after_draws(before.rng_seed, 2);
    if is_due(before, now, pause) {
        lemma_slot(p);
        lemma_new_pulse_value(s, before.rng_seed, at);
        let k: int = slot(p);
        assert(after.pulses@[k] == new_pulse(s, before.rng_seed, at));
        // The pause.
        let overlap = Single { bits: OVERLAP };
        let t: real = exact_crossing(value(s.speed));
        lemma_crossing_value(s);
        let x: real = value(crossing_time(s));
        let y: real = value(overlap);
        lemma_near_product(
            x,
            t,
            1real / 500000real,
            y,
            7real / 10real,
            1real / 16000000real,
            5real,
            1real,
        );
        lemma_product(crossing_time(s), overlap, 4real);
        let base: real = t * (7real / 10real);
        let z: real = value(base_pause(s));
        assert(near(z, base, 1real / 300000real));
        lemma_fraction_in_unit(b);
        lemma_fraction_value(b);
        lemma_unit_value(s.jitter);
        let v = variation(fraction(b), s.jitter);
        lemma_variation_value(fraction(b), s.jitter);
        let f: real = 1real + (value(fraction(b)) - 1real / 2real) * value(s.jitter);
        lemma_near_product(
            z,
            base,
            1real / 300000real,
            value(v),
            f,
            1real / 4194304real,
            4real,
            3real / 2real,
        );
        lemma_times_same(value(v), 3real / 2real, z);
        lemma_times_same(0real, value(v), z);
        lemma_spread(0real, 0real, z);
        lemma_spread(z, 0real, value(v));
        lemma_product(base_pause(s), v, 6real);
        lemma_fraction_shift(
            value(fraction(b)),
            b as real / 4294967295real,
            value(s.jitter),
            base,
            1real / 2097152real,
            4real,
        );
    }
}

/// The pause is that which was drawn, but no shorter than 0.05 seconds, where Auto Fire is
/// one half or more.
pub proof fn lemma_pause_value(b: PulseBeam)
    requires
        b.settings.auto_fire.is_finite(),
        b.next_auto_interval.is_finite(),
    ensures
        pause_of(b) is Some <==> value(b.settings.auto_fire) >= 1real / 2real,
        pause_of(b) matches Some(x) ==> {
            &&& value(b.next_auto_interval) >= 51real / 1000real ==> x == b.next_auto_interval
            &&& value(b.next_auto_interval) <= 49real / 1000real ==> near(
                value(x),
                5real / 100real,
                1real / 100000000real,
            )
        },
{
    lemma_constants();
    lemma_value_order(Single { bits: HALF }, b.settings.auto_fire);
    lemma_value_order(b.next_auto_interval, Single { bits: MIN_PAUSE });
}

/// How far a pulse has come: the seconds since its start, times its speed, over those of a
/// crossing.
proof fn lemma_progress_value(s: Settings, p: Pulse, elapsed: Single)
    requires
        in_unit(s.speed),
        p.speed_mul.is_finite(),
        0real <= value(p.speed_mul) <= 2real,
        elapsed.is_finite(),
        0real <= value(elapsed) <= 1000000000real,
    ensures
        ({
            let t: real = exact_crossing(value(s.speed));
            let way: real = (value(elapsed) * value(p.speed_mul)) / t;
            &&& progress(s, p, elapsed).is_finite()
            &&& 0real <= way
            &&& near(
                value(progress(s, p, elapsed)),
                way,
                way / 30000real + 1real / 100000000real,
            )
        }),
{
    let c = crossing_time(s);
    let t: real = exact_crossing(value(s.speed));
    let f: real = value(c);
    let x: real = value(elapsed);
    let m: real = value(p.speed_mul);
    lemma_crossing_value(s);
    lemma_times_same(0real, x, m);
    lemma_spread(0real, 0real, m);
    lemma_times_same(x, 1000000000real, m);
    lemma_product(elapsed, p.speed_mul, 2000000000real);
    let e: real = x * m;
    let moved = fmul(elapsed, p.speed_mul);
    let w: real = value(moved);
    let way: real = e / t;
    let q: real = w / f;
    lemma_over(e, t);
    lemma_over(w, f);
    lemma_times(0real, way, t);
    lemma_spread(0real, 0real, t);
    // (q - way) * f is w - e, and way times what t and f differ by.
    lemma_spread(q, way, f);
    lemma_spread(t, f, way);
    lemma_spread(way, 0real, t);
    lemma_spread(way, 0real, f);
    lemma_times_same(t - f, 1real / 500000real, way);
    lemma_times_same(-(1real / 500000real), t - f, way);
    lemma_spread(1real / 500000real, 0real, way);
    lemma_times_same(t, 5real, way);
    let bound: real = way / 35000real + 1real / 500000000real;
    assert(near(w, e, slack(e) + tiny()));
    assert(near(q * f, way * f, way / 400000real + 1real / 100000000000real));
    lemma_spread(bound, 0real, f);
    lemma_times_same(1real / 11real, f, bound);
    lemma_times(q - way, bound, f);
    lemma_times(-bound, q - way, f);
    assert(near(q, way, bound));
    lemma_times(way, 20000000000real, t);
    lemma_value_order(zero(), c);
    lemma_unit_value(one());
    assert(!c.is_zero());
    lemma_quotient(moved, c, way + bound);
}

/// A frame lets a pulse end exactly where it has come farther than the picture and its trail
/// are long, and changes nothing else of it. Of a pulse that goes on the shader is given how
/// far it has come: the seconds since its start, times its speed, over those of a crossing;
/// of the others it is given minus one.
pub proof fn lemma_frame_moves_pulses(
    before: PulseBeam,
    elapsed: Seq<Single>,
    canvas_height: u32,
    after: PulseBeam,
    u: BeamUniforms,
    i: int,
)
    requires
        drawn(before, elapsed, canvas_height, after, u),
        0 <= i < 8,
        in_unit(before.settings.speed),
        in_unit(before.settings.trail_length),
        before.pulses@[i].speed_mul.is_finite(),
        0real <= value(before.pulses@[i].speed_mul) <= 2real,
        elapsed[i].is_finite(),
        0real <= value(elapsed[i]) <= 1000000000real,
    ensures
        ({
            let p = before.pulses@[i];
            let q = after.pulses@[i];
            let t: real = exact_crossing(value(before.settings.speed));
            let way: real = (value(elapsed[i]) * value(p.speed_mul)) / t;
            let limit: real = 1real + value(before.settings.trail_length);
            &&& q.start_time == p.start_time
            &&& q.speed_mul == p.speed_mul
            &&& q.active ==> p.active
            &&& p.active && way > limit + 1real / 5000real ==> !q.active
            &&& p.active && way < limit - 1real / 5000real ==> q.active
            &&& q.active ==> near(value(u.pulse_progress@[i]), way, 1real / 5000real)
            &&& q.active ==> fle(
                u.pulse_progress@[i],
                fadd(one(), before.settings.trail_length),
            )
            &&& !q.active ==> value(u.pulse_progress@[i]) == -1real
        }),
        after.settings == before.settings,
        after.rng_seed == before.rng_seed,
        after.last_auto_fire == before.last_auto_fire,
        after.next_auto_interval == before.next_auto_interval,
{
    let s = before.settings;
    let p = before.pulses@[i];
    assert(after.pulses[i] == after.pulses@[i]);
    assert(u.pulse_progress[i] == u.pulse_progress@[i]);
    lemma_constants();
    lemma_unit_value(s.trail_length);
    lemma_progress_value(s, p, elapsed[i]);
    lemma_sum(one(), s.trail_length, 2real);
    lemma_value_order(fadd(one(), s.trail_length), progress(s, p, elapsed[i]));
}

/// Of `n` segments the narrow phase fills the one that Segment is set to, from `(k - 1) / n`
/// to `k / n` of the width, and the wide phase likewise the one that Expand Segment is set
/// to, or the whole width where that is zero. A number behind the last segment is the last
/// one, and one before the first is the first. Fractions of the settings do not count.
pub proof fn lemma_frame_fills_segments(
    before: PulseBeam,
    elapsed: Seq<Single>,
    canvas_height: u32,
    after: PulseBeam,
    u: BeamUniforms,
    n: int,
    k: int,
    e: int,
    x: Single,
)
    requires
        drawn(before, elapsed, canvas_height, after, u),
        reads_as(before.settings.segments, n),
        reads_as(before.settings.segment, k),
        reads_as(before.settings.expand_segment, e),
        1 <= n <= 0x100_0000,
        i32::MIN <= k <= i32::MAX,
        i32::MIN <= e <= i32::MAX,
        x.is_finite(),
        fle(zero(), x),
    ensures
        ({
            let a: int = if k < 1 {
                1
            } else if k > n {
                n
            } else {
                k
            };
            &&& u.start_min == fdiv(from_int(a - 1), from_int(n))
            &&& u.start_max == fdiv(from_int(a), from_int(n))
            &&& near(value(u.start_min), (a - 1) as real / n as real, 1real / 8388608real)
            &&& near(value(u.start_max), a as real / n as real, 1real / 8388608real)
            &&& value(x) * n as real >= (a - 1) as real ==> fle(u.start_min, x)
            &&& value(x) * n as real <= (a - 1) as real ==> fle(x, u.start_min)
            &&& value(x) * n as real >= a as real ==> fle(u.start_max, x)
            &&& value(x) * n as real <= a as real ==> fle(x, u.start_max)
        }),
        e <= 0 ==> value(u.expand_min) == 0real && value(u.expand_max) == 1real,
        e > 0 ==> {
            let b: int = if e > n {
                n
            } else {
                e
            };
            &&& u.expand_min == fdiv(from_int(b - 1), from_int(n))
            &&& u.expand_max == fdiv(from_int(b), from_int(n))
            &&& near(value(u.expand_min), (b - 1) as real / n as real, 1real / 8388608real)
            &&& near(value(u.expand_max), b as real / n as real, 1real / 8388608real)
            &&& value(x) * n as real >= (b - 1) as real ==> fle(u.expand_min, x)
            &&& value(x) * n as real <= (b - 1) as real ==> fle(x, u.expand_min)
            &&& value(x) * n as real >= b as real ==> fle(u.expand_max, x)
            &&& value(x) * n as real <= b as real ==> fle(x, u.expand_max)
        },
{
    let s = before.settings;
    lemma_setting_reads(s.segments, n);
    lemma_setting_reads(s.segment, k);
    lemma_setting_reads(s.expand_segment, e);
    let a: int = within(k, 1, n);
    lemma_edge_is_fraction(a - 1, n, x);
    lemma_edge_is_fraction(a, n, x);
    lemma_unit_value(one());
    let b: int = within(e, 1, n);
    lemma_edge_is_fraction(b - 1, n, x);
    lemma_edge_is_fraction(b, n, x);
}

/// The expand line is as many pixels as are set, of those that the canvas is high.
pub proof fn lemma_frame_expand_line(
    before: PulseBeam,
    elapsed: Seq<Single>,
    canvas_height: u32,
    after: PulseBeam,
    u: BeamUniforms,
)
    requires
        drawn(before, elapsed, canvas_height, after, u),
        before.settings.expand_after.is_finite(),
        0real <= value(before.settings.expand_after) <= 4294967296real,
        canvas_height <= 0x100_0000,
    ensures
        canvas_height == 0 ==> value(u.expand_after) == 0real,
        canvas_height > 0 ==> {
            let line: real = value(before.settings.expand_after) / canvas_height as real;
            near(value(u.expand_after), line, line / 16777216real + tiny())
        },
{
    let s = before.settings;
    let h: int = canvas_height as int;
    let y = from_int(h);
    lemma_from_int_value(h);
    lemma_unit_value(one());
    lemma_value_order(zero(), y);
    if h > 0 {
        let e: real = value(s.expand_after);
        let q: real = e / h as real;
        lemma_over(e, h as real);
        lemma_times(0real, q, h as real);
        lemma_spread(0real, 0real, h as real);
        lemma_times(q, 4294967296real, h as real);
        lemma_times_same(1real, h as real, 4294967296real);
        lemma_quotient(s.expand_after, y, 4294967296real);
    }
}

/// The shader is given the settings of the parameters of these names as they are.
pub proof fn lemma_frame_shows_settings(
    before: PulseBeam,
    elapsed: Seq<Single>,
    canvas_height: u32,
    after: PulseBeam,
    u: BeamUniforms,
)
    requires
        drawn(before, elapsed, canvas_height, after, u),
    ensures
        u.head_width == param(before.settings, PARAM_HEAD_WIDTH as int),
        u.trail_length == param(before.settings, PARAM_TRAIL_LENGTH as int),
        u.trail_softness == param(before.settings, PARAM_TRAIL_SOFTNESS as int),
        u.bg_clip == param(before.settings, PARAM_BG_CLIP as int),
        u.color.3 == param(before.settings, PARAM_COLOR_A as int),
        u.bg_color.3 == param(before.settings, PARAM_BG_A as int),
        ({
            let (r, g, b) = rgb(
                param(before.settings, PARAM_COLOR_H as int),
                param(before.settings, PARAM_COLOR_S as int),
                param(before.settings, PARAM_COLOR_V as int),
            );
            u.color.0 == r && u.color.1 == g && u.color.2 == b
        }),
        ({
            let (r, g, b) = rgb(
                param(before.settings, PARAM_BG_H as int),
                param(before.settings, PARAM_BG_S as int),
                param(before.settings, PARAM_BG_V as int),
            );
            u.bg_color.0 == r && u.bg_color.1 == g && u.bg_color.2 == b
        }),
{
}

/// The age of a pulse counts from its start, and is nothing before it.
pub proof fn lemma_since(t: u64, now: u64)
    ensures
        now >= t ==> since(t, now) == now - t,
        now <= t ==> since(t, now) == 0,
{
}

/// A pulse that is sent starts at once, in the first idle slot, or, where there is none, in
/// that of the pulse that started first; the other slots stay as they are. It is as much
/// faster or slower than usual as the next draw is above or below one half, so far as there
/// is jitter.
pub proof fn lemma_sent(before: PulseBeam, at: u64, after: PulseBeam) -> (k: int)
    requires
        sent(before, at, after),
        in_unit(before.settings.jitter),
    ensures
        0 <= k < 8,
        after.pulses@[k].active,
        after.pulses@[k].start_time == at,
        after.rng_seed == after_draws(before.rng_seed, 1),
        near(
            value(after.pulses@[k].speed_mul),
            1real + (after_draws(before.rng_seed, 1) as real / 4294967295real - 1real / 2real)
                * value(before.settings.jitter),
            1real / 1000000real,
        ),
        forall|i: int| 0 <= i < 8 && i != k ==> #[trigger] after.pulses@[i] == before.pulses@[i],
        !before.pulses@[k].active ==> forall|i: int|
            0 <= i < k ==> (#[trigger] before.pulses@[i]).active,
        before.pulses@[k].active ==> forall|i: int|
            0 <= i < 8 ==> (#[trigger] before.pulses@[i]).active && before.pulses@[k].start_time
                <= before.pulses@[i].start_time,
        before.pulses@[k].active ==> forall|i: int|
            0 <= i < k ==> before.pulses@[k].start_time < (#[trigger] before.pulses@[i]).start_time,
        after.settings == before.settings,
        after.last_auto_fire == before.last_auto_fire,
        after.next_auto_interval == before.next_auto_interval,
{
    reveal_with_fuel(after_draws, 2);
    lemma_slot(before.pulses@);
    lemma_new_pulse_value(before.settings, before.rng_seed, at);
    slot(before.pulses@)
}

/// A value above one half of the trigger sends a pulse, and any other value of it does
/// nothing. Setting another parameter changes that one alone and no pulse.
pub proof fn lemma_set_param(
    before: PulseBeam,
    index: int,
    v: Single,
    at: u64,
    after: PulseBeam,
    j: int,
)
    requires
        is_set(before, index, v, at, after),
        v.is_finite(),
    ensures
        index == 0 && value(v) > 1real / 2real ==> sent(before, at, after),
        index != 0 || value(v) <= 1real / 2real ==> {
            &&& after.pulses == before.pulses
            &&& after.rng_seed == before.rng_seed
        },
        param(after.settings, j) == (if j == index && 0 < index < 20 {
            v
        } else {
            param(before.settings, j)
        }),
        index <= 0 || index >= 20 ==> after.settings == before.settings,
        after.last_auto_fire == before.last_auto_fire,
        after.next_auto_interval == before.next_auto_interval,
{
    lemma_constants();
    lemma_value_order(Single { bits: HALF }, v);
    lemma_set_get(before.settings, index, v, j);
}

/// Each parameter, in the order and under the name that it is announced with, is the setting
/// of that name.
pub proof fn lemma_parameters_are_settings(s: Settings)
    ensures
        parameter(1).name == "Auto Fire"@ && param(s, 1) == s.auto_fire,
        parameter(2).name == "Jitter"@ && param(s, 2) == s.jitter,
        parameter(3).name == "Speed"@ && param(s, 3) == s.speed,
        parameter(4).name == "Head Width"@ && param(s, 4) == s.head_width,
        parameter(5).name == "Trail Length"@ && param(s, 5) == s.trail_length,
        parameter(6).name == "Trail Softness"@ && param(s, 6) == s.trail_softness,
        parameter(7).name == "Segments"@ && param(s, 7) == s.segments,
        parameter(8).name == "Segment"@ && param(s, 8) == s.segment,
        parameter(9).name == "Expand After"@ && param(s, 9) == s.expand_after,
        parameter(10).name == "Expand Segment"@ && param(s, 10) == s.expand_segment,
        parameter(11).param_type == ParameterTypes::Hue && param(s, 11) == s.color.hue,
        parameter(12).param_type == ParameterTypes::Saturation && param(s, 12)
            == s.color.saturation,
        parameter(13).param_type == ParameterTypes::Brightness && param(s, 13)
            == s.color.brightness,
        parameter(14).param_type == ParameterTypes::Alpha && param(s, 14) == s.color.alpha,
        parameter(15).param_type == ParameterTypes::Hue && param(s, 15) == s.bg_color.hue,
        parameter(16).param_type == ParameterTypes::Saturation && param(s, 16)
            == s.bg_color.saturation,
        parameter(17).param_type == ParameterTypes::Brightness && param(s, 17)
            == s.bg_color.brightness,
        parameter(18).param_type == ParameterTypes::Alpha && param(s, 18) == s.bg_color.alpha,
        parameter(19).name == "Clip"@ && param(s, 19) == s.bg_clip,
{
}

/// Speeds beyond zero and one lie on the same line.
pub proof fn lemma_line_goes_on(s: Settings)
    requires
        s.speed.is_finite(),
        -100real <= value(s.speed) <= 100real,
    ensures
        near(value(crossing_time(s)), exact_crossing(value(s.speed)), 1real / 4000real),
{
    lemma_constants();
    lemma_long_line(
        s.speed,
        Single { bits: SPEED_SPAN },
        Single { bits: FASTEST },
        49real / 10real,
        1real / 10real,
    );
}

} // verus!
