//! Fixed-point sine and cosine of a phase fraction.
//!
//! The angle is a phase fraction in billionths of a full turn and the result
//! is scaled by `TRIG_ONE`. Over one half turn the sine is the rational
//! approximation `16 v (H - v) / (5 H^2 - 4 v (H - v))` of the sine of
//! `pi * v / H` (exact at 0, at the quarter turn and at the half turn, and
//! within 0.0017 of the true sine in between); the second half turn is its
//! negation and the cosine is the sine shifted by a quarter turn. The
//! renderer only needs a direction vector that traces one exact cycle, so
//! these exact turning points are what the contracts rely on.

use vstd::prelude::*;
use crate::phase::PHASE_ONE;
use vstd::arithmetic::div_mod::lemma_div_by_multiple;
use vstd::arithmetic::div_mod::lemma_div_is_ordered;
use vstd::arithmetic::div_mod::lemma_div_pos_is_pos;
use vstd::arithmetic::div_mod::lemma_mod_self_0;
use vstd::arithmetic::div_mod::lemma_small_mod;

verus! {

/// Scale of the trigonometric results: this value stands for 1.0.
pub const TRIG_ONE: i64 = 1_000_000_000;

/// Half a turn, in phase units.
pub const HALF_TURN: i64 = 500_000_000;

/// A quarter turn, in phase units.
pub const QUARTER_TURN: i64 = 250_000_000;

/// Sine over the first half turn, scaled by `TRIG_ONE`: the rational
/// approximation `16 v (H - v) / (5 H^2 - 4 v (H - v))` of sin(pi v / H),
/// for 0 <= v <= `HALF_TURN`.
pub open spec fn sin_half_turn(v: int) -> int {
    let h = HALF_TURN as int;
    let w = v * (h - v);
    16 * w * (TRIG_ONE as int) / (5 * h * h - 4 * w)
}

/// Sine of a phase fraction (billionths of a turn), scaled by `TRIG_ONE`.
/// Defined for every integer, with period `PHASE_ONE`.
pub open spec fn sin_e9(p: int) -> int {
    let q = p % (PHASE_ONE as int);
    if q < HALF_TURN {
        sin_half_turn(q)
    } else {
        -sin_half_turn(q - HALF_TURN)
    }
}

/// Cosine of a phase fraction, scaled by `TRIG_ONE`: the sine shifted by a
/// quarter turn.
pub open spec fn cos_e9(p: int) -> int {
    sin_e9(p + QUARTER_TURN)
}

/// The half-turn sine lies in [0, TRIG_ONE], and is 0 exactly at the ends
/// and TRIG_ONE exactly at the quarter turn.
pub proof fn lemma_sin_half_turn_bounds(v: int)
    requires
        0 <= v <= HALF_TURN,
    ensures
        0 <= sin_half_turn(v) <= TRIG_ONE,
        v == 0 || v == HALF_TURN ==> sin_half_turn(v) == 0,
        v == QUARTER_TURN ==> sin_half_turn(v) == TRIG_ONE,
{
    let h = HALF_TURN as int;
    let s = TRIG_ONE as int;
    let w = v * (h - v);
    let den = 5 * h * h - 4 * w;
    assert(0 <= w <= 62_500_000_000_000_000) by (nonlinear_arith)
        requires
            0 <= v <= h,
            w == v * (h - v),
            h == 500_000_000,
    ;
    assert(den >= 1_000_000_000_000_000_000);
    lemma_div_pos_is_pos(16 * w * s, den);
    assert(16 * w * s / den <= s) by {
        assert(16 * w * s <= s * den) by (nonlinear_arith)
            requires
                w == v * (h - v),
                den == 5 * h * h - 4 * w,
                s == 1_000_000_000,
                h == 500_000_000,
                0 <= v <= h,
        ;
        lemma_div_is_ordered(16 * w * s, s * den, den);
        lemma_div_by_multiple(s, den);
    }
    if v == 0 || v == h {
        assert(w == 0) by (nonlinear_arith)
            requires
                w == v * (h - v),
                v == 0 || v == h,
        ;
        assert(16 * w * s / den == 0) by {
            vstd::arithmetic::div_mod::lemma_div_of0(den);
        }
    }
    if v == QUARTER_TURN {
        assert(w == 62_500_000_000_000_000) by (nonlinear_arith)
            requires
                w == v * (h - v),
                v == 250_000_000,
                h == 500_000_000,
        ;
        assert(den == 1_000_000_000_000_000_000);
        assert(16 * 62_500_000_000_000_000 * s == 1_000_000_000_000_000_000_000_000_000);
        assert(1_000_000_000_000_000_000_000_000_000int
            == 1_000_000_000int * 1_000_000_000_000_000_000int);
        lemma_div_by_multiple(s, den);
    }
}

/// Sine over the half turn, executable.
fn sin_half_turn_exec(v: i64) -> (r: i64)
    requires
        0 <= v <= HALF_TURN,
    ensures
        r == sin_half_turn(v as int),
        0 <= r <= TRIG_ONE,
{
    proof {
        lemma_sin_half_turn_bounds(v as int);
        assert((v as int) * (HALF_TURN as int - v as int) <= 62_500_000_000_000_000)
            by (nonlinear_arith)
            requires
                0 <= v as int <= HALF_TURN as int,
                HALF_TURN as int == 500_000_000,
        ;
        assert((v as int) * (HALF_TURN as int - v as int) >= 0) by (nonlinear_arith)
            requires
                0 <= v as int <= HALF_TURN as int,
        ;
    }
    let w: u128 = (v as u128) * ((HALF_TURN - v) as u128);
    let num: u128 = 16 * w * (TRIG_ONE as u128);
    let den: u128 = 5 * (HALF_TURN as u128) * (HALF_TURN as u128) - 4 * w;
    let r: i64 = (num / den) as i64;
    proof {
        let h = HALF_TURN as int;
        let s = TRIG_ONE as int;
        let wi = (v as int) * (h - v as int);
        assert(w as int == wi);
        assert(num as int == 16 * wi * s);
        assert(den as int == 5 * h * h - 4 * wi);
        assert(r as int == sin_half_turn(v as int));
    }
    r
}

/// Sine of a phase fraction in [0, PHASE_ONE], scaled by `TRIG_ONE`.
pub fn sin_e9_exec(p: i64) -> (r: i64)
    requires
        0 <= p <= PHASE_ONE,
    ensures
        r == sin_e9(p as int),
        -TRIG_ONE <= r <= TRIG_ONE,
{
    let q: i64 = if p == PHASE_ONE {
        0
    } else {
        p
    };
    proof {
        if p == PHASE_ONE {
            lemma_mod_self_0(PHASE_ONE as int);
        } else {
            lemma_small_mod(p as nat, PHASE_ONE as nat);
        }
        assert(q as int == (p as int) % (PHASE_ONE as int));
    }
    if q < HALF_TURN {
        let r = sin_half_turn_exec(q);
        proof {
            lemma_sin_half_turn_bounds(q as int);
        }
        r
    } else {
        let r = sin_half_turn_exec(q - HALF_TURN);
        proof {
            lemma_sin_half_turn_bounds(q as int - HALF_TURN as int);
        }
        -r
    }
}

/// Cosine of a phase fraction in [0, PHASE_ONE], scaled by `TRIG_ONE`.
pub fn cos_e9_exec(p: i64) -> (r: i64)
    requires
        0 <= p <= PHASE_ONE,
    ensures
        r == cos_e9(p as int),
        -TRIG_ONE <= r <= TRIG_ONE,
{
    let shifted: i64 = if p + QUARTER_TURN >= PHASE_ONE {
        p + QUARTER_TURN - PHASE_ONE
    } else {
        p + QUARTER_TURN
    };
    proof {
        let ph = PHASE_ONE as int;
        let x = p as int + QUARTER_TURN as int;
        if x >= ph {
            vstd::arithmetic::div_mod::lemma_mod_sub_multiples_vanish(x, ph);
            lemma_small_mod((x - ph) as nat, ph as nat);
            assert(shifted as int == x % ph);
        } else {
            lemma_small_mod(x as nat, ph as nat);
            assert(shifted as int == x % ph);
        }
        assert(sin_e9(shifted as int) == sin_e9(x)) by {
            vstd::arithmetic::div_mod::lemma_mod_twice(x, ph);
            assert(shifted as int % ph == x % ph) by {
                lemma_small_mod((x % ph) as nat, ph as nat);
            }
        }
    }
    sin_e9_exec(shifted)
}

/// Exact turning points of the cycle: the sine vanishes at the new and full
/// moon and the cosine is exactly 1 and -1 there; at the quarter turns the
/// sine is exactly 1 and -1 and the cosine vanishes; and a whole turn comes
/// back to its start.
pub proof fn lemma_trig_turning_points()
    ensures
        sin_e9(0) == 0,
        sin_e9(HALF_TURN as int) == 0,
        sin_e9(PHASE_ONE as int) == 0,
        sin_e9(QUARTER_TURN as int) == TRIG_ONE,
        sin_e9(3 * QUARTER_TURN as int) == -TRIG_ONE,
        cos_e9(0) == TRIG_ONE,
        cos_e9(HALF_TURN as int) == -TRIG_ONE,
        cos_e9(QUARTER_TURN as int) == 0,
        cos_e9(3 * QUARTER_TURN as int) == 0,
        cos_e9(PHASE_ONE as int) == TRIG_ONE,
        sin_e9(PHASE_ONE as int) == sin_e9(0),
        cos_e9(PHASE_ONE as int) == cos_e9(0),
{
    let ph = PHASE_ONE as int;
    lemma_mod_self_0(ph);
    lemma_small_mod(0, ph as nat);
    lemma_small_mod(HALF_TURN as nat, ph as nat);
    lemma_small_mod(QUARTER_TURN as nat, ph as nat);
    lemma_small_mod((3 * QUARTER_TURN) as nat, ph as nat);
    assert((ph + QUARTER_TURN as int) % ph == QUARTER_TURN as int) by {
        vstd::arithmetic::div_mod::lemma_mod_add_multiples_vanish(QUARTER_TURN as int, ph);
    }
    lemma_sin_half_turn_bounds(0);
    lemma_sin_half_turn_bounds(QUARTER_TURN as int);
    lemma_sin_half_turn_bounds(HALF_TURN as int);
}


} // verus!
