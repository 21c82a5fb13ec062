//! What a walker is assumed to do, and what a road costs them in time.
//!
//! Speeds are held in thousandths of a mile per hour, times in milliseconds and lengths in
//! centimetres, so that every cost is a whole number.

use crate::geometry::{clamp_u64, line_length, polyline_length, Pt};
use crate::graph::Walker;
use crate::profiles::{CrossingKind, RoadKind};
use vstd::arithmetic::div_mod::{
    lemma_div_denominator, lemma_div_is_ordered_by_denominator, lemma_fundamental_div_mod,
};
use vstd::arithmetic::mul::lemma_mul_is_commutative;
use vstd::prelude::*;

verus! {

/// How a walker behaves.
#[derive(Clone, Copy, Debug, PartialEq, Eq, Structural)]
pub struct Settings {
    /// Whether severances are crossed at crossings only.
    pub obey_crossings: bool,
    /// The walking speed, in thousandths of a mile per hour.
    pub base_speed_mph: u32,
    /// The wait at a crossing with signals, in milliseconds.
    pub delay_signalized: u32,
    /// The wait at a zebra crossing, in milliseconds.
    pub delay_zebra: u32,
    /// The wait at any other crossing, in milliseconds.
    pub delay_other: u32,
}

/// A walking speed in units of ten nanometres per second. One mile per hour is 0.44704 metres
/// per second, so a thousandth of it is 44704 of these units.
pub open spec fn speed(milli_mph: nat) -> nat {
    milli_mph * 44704
}

/// The milliseconds that it takes to walk `length_cm` centimetres at `milli_mph` thousandths
/// of a mile per hour, rounded down.
pub open spec fn active_time(length_cm: nat, milli_mph: nat) -> nat {
    length_cm * 1_000_000_000 / speed(milli_mph)
}

/// The milliseconds that a walker waits before they may take a road of kind `kind`.
pub open spec fn waiting_time(kind: RoadKind, settings: Settings) -> nat {
    match kind {
        RoadKind::Crossing(CrossingKind::Signalized) => settings.delay_signalized as nat,
        RoadKind::Crossing(CrossingKind::Zebra) => settings.delay_zebra as nat,
        RoadKind::Crossing(CrossingKind::Other) => settings.delay_other as nat,
        _ => 0,
    }
}

/// The milliseconds that a road costs: what `cost` returns, added up.
pub open spec fn total_cost(line: Seq<Pt>, kind: RoadKind, settings: Settings) -> u64 {
    clamp_u64(
        (clamp_u64(active_time(clamp_u64(line_length(line)) as nat, settings.base_speed_mph as nat))
            + waiting_time(kind, settings)) as nat,
    )
}

impl Settings {
    /// The settings that fit the United Kingdom: three miles per hour, half a minute at
    /// signals, no wait at a zebra crossing, ten seconds elsewhere.
    pub fn uk() -> (s: Settings)
        ensures
            s == (Settings {
                obey_crossings: true,
                base_speed_mph: 3000,
                delay_signalized: 30000,
                delay_zebra: 0,
                delay_other: 10000,
            }),
    {
        Settings {
            obey_crossings: true,
            base_speed_mph: 3000,
            delay_signalized: 30000,
            delay_zebra: 0,
            delay_other: 10000,
        }
    }

    /// The kind of walker that the settings describe.
    pub open spec fn walker_of(self) -> Walker {
        if self.obey_crossings {
            Walker::Walking
        } else {
            Walker::CrossAnywhere
        }
    }

    /// The kind of walker that the settings describe.
    pub fn walker(&self) -> (w: Walker)
        ensures
            w == self.walker_of(),
    {
        if self.obey_crossings {
            Walker::Walking
        } else {
            Walker::CrossAnywhere
        }
    }
}

/// Converts thousandths of a mile per hour into units of ten nanometres per second.
pub fn mph_to_mps(milli_mph: u32) -> (s: u64)
    ensures
        s == speed(milli_mph as nat),
{
    milli_mph as u64 * 44704
}

/// The time that a road takes: the milliseconds of walking and the milliseconds of waiting.
/// A time that does not fit into 64 bits comes out as `u64::MAX`.
pub fn cost(road_linestring: &Vec<Pt>, kind: RoadKind, settings: &Settings) -> (times: (u64, u64))
    requires
        settings.base_speed_mph > 0,
    ensures
        times.0 == clamp_u64(
            active_time(
                clamp_u64(line_length(road_linestring@)) as nat,
                settings.base_speed_mph as nat,
            ),
        ),
        times.1 == waiting_time(kind, *settings),
{
    let speed = mph_to_mps(settings.base_speed_mph);
    let length = polyline_length(road_linestring);
    let scaled: u128 = length as u128 * 1_000_000_000;
    let walked: u128 = scaled / (speed as u128);
    let active: u64 = if walked > u64::MAX as u128 {
        u64::MAX
    } else {
        walked as u64
    };
    let waiting: u64 = match kind {
        RoadKind::Crossing(CrossingKind::Signalized) => settings.delay_signalized as u64,
        RoadKind::Crossing(CrossingKind::Zebra) => settings.delay_zebra as u64,
        RoadKind::Crossing(CrossingKind::Other) => settings.delay_other as u64,
        _ => 0,
    };
    (active, waiting)
}

/// The milliseconds that a road costs a walker: walking and waiting together.
pub fn road_cost(road_linestring: &Vec<Pt>, kind: RoadKind, settings: &Settings) -> (c: u64)
    requires
        settings.base_speed_mph > 0,
    ensures
        c == total_cost(road_linestring@, kind, *settings),
{
    let (active, waiting) = cost(road_linestring, kind, settings);
    active.saturating_add(waiting)
}

/// Walking time is the length divided by the speed: the time and the speed multiply to the
/// length, but for what rounding down to a millisecond takes away.
pub proof fn lemma_active_time_is_quotient(length_cm: nat, milli_mph: nat)
    requires
        milli_mph > 0,
    ensures
        active_time(length_cm, milli_mph) * speed(milli_mph) <= length_cm * 1_000_000_000,
        length_cm * 1_000_000_000 < (active_time(length_cm, milli_mph) + 1) * speed(milli_mph),
{
    let x = (length_cm * 1_000_000_000) as int;
    let d = speed(milli_mph) as int;
    lemma_fundamental_div_mod(x, d);
    lemma_mul_is_commutative(d, x / d);
    assert((x / d + 1) * d == (x / d) * d + d) by (nonlinear_arith);
}

/// A road is no longer than a walker gets in the time that the road costs them: its length
/// is less than the way that they make at their speed in a millisecond more than the cost.
pub proof fn lemma_length_within_cost(line: Seq<Pt>, kind: RoadKind, settings: Settings)
    requires
        settings.base_speed_mph > 0,
        total_cost(line, kind, settings) < u64::MAX,
    ensures
        clamp_u64(line_length(line)) * 1_000_000_000 < (total_cost(line, kind, settings) + 1) * speed(
            settings.base_speed_mph as nat,
        ),
{
    let len = clamp_u64(line_length(line)) as nat;
    let mph = settings.base_speed_mph as nat;
    let active = active_time(len, mph);
    let total = total_cost(line, kind, settings) as nat;
    lemma_active_time_is_quotient(len, mph);
    assert(active <= total);
    assert((active + 1) * speed(mph) <= (total + 1) * speed(mph)) by (nonlinear_arith)
        requires
            active <= total,
    ;
}

/// A walker who is `factor` times as fast takes a `factor`-th of the time.
pub proof fn lemma_active_time_scales_inversely(length_cm: nat, milli_mph: nat, factor: nat)
    requires
        milli_mph > 0,
        factor > 0,
    ensures
        active_time(length_cm, milli_mph * factor) == active_time(length_cm, milli_mph) / factor,
{
    let x = (length_cm * 1_000_000_000) as int;
    let d = speed(milli_mph) as int;
    lemma_div_denominator(x, d, factor as int);
    assert(speed(milli_mph * factor) == d * factor) by (nonlinear_arith)
        requires
            d == milli_mph * 44704,
            speed(milli_mph * factor) == milli_mph * factor * 44704,
    ;
}

/// A faster walker never takes longer.
pub proof fn lemma_active_time_falls_with_speed(length_cm: nat, slow: nat, fast: nat)
    requires
        0 < slow <= fast,
    ensures
        active_time(length_cm, fast) <= active_time(length_cm, slow),
{
    lemma_div_is_ordered_by_denominator(
        (length_cm * 1_000_000_000) as int,
        speed(slow) as int,
        speed(fast) as int,
    );
}

/// The wait at a road does not depend on how fast the walker is.
pub proof fn lemma_waiting_ignores_speed(kind: RoadKind, a: Settings, b: Settings)
    requires
        a.delay_signalized == b.delay_signalized,
        a.delay_zebra == b.delay_zebra,
        a.delay_other == b.delay_other,
    ensures
        waiting_time(kind, a) == waiting_time(kind, b),
{
}

} // verus!
