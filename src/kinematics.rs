use vstd::prelude::*;

use crate::geometry::Vec2;

verus! {

/// The physical state of one agent.
///
/// `theta` is a heading in micro-radians, set at spawn and otherwise left alone;
/// `radius` is the collision radius in micro-units.
#[derive(Clone, Copy, Debug, PartialEq, Eq, Structural)]
pub struct Kinematics {
    pub p: Vec2,
    pub v: Vec2,
    pub a: Vec2,
    pub theta: i32,
    pub radius: i32,
}

/// `n / d` rounded toward zero, for `d > 0`.
pub open spec fn div_toward_zero(n: int, d: int) -> int {
    if n >= 0 {
        n / d
    } else {
        -((-n) / d)
    }
}

/// `n / d` rounded away from zero, for `d > 0`: a nonzero `n` gives a
/// nonzero result of its sign.
pub open spec fn div_away_from_zero(n: int, d: int) -> int {
    if n >= 0 {
        (n + d - 1) / d
    } else {
        -((-n + d - 1) / d)
    }
}

/// A steering component pulls toward the target: at rest it has the sign of
/// the position error (zero on the target), and on the target it opposes the
/// velocity.
pub open spec fn pulls_toward(a: int, p: int, v: int, target: int) -> bool {
    &&& v == 0 ==> (target > p ==> a > 0) && (target < p ==> a < 0) && (target == p ==> a == 0)
    &&& target == p ==> (v > 0 ==> a < 0) && (v < 0 ==> a > 0)
}

/// `x` clipped to `[-bound, bound]`.
pub open spec fn clip(x: int, bound: int) -> int {
    if x > bound {
        bound
    } else if x < -bound {
        -bound
    } else {
        x
    }
}

/// A value fits in an `i32`.
pub open spec fn fits_i32(x: int) -> bool {
    i32::MIN <= x <= i32::MAX
}

/// A velocity component after `ticks` ticks of drag, each keeping `num / den`
/// of it (rounded toward zero).
pub open spec fn decayed(x: int, num: int, den: int, ticks: nat) -> int
    decreases ticks,
{
    if ticks == 0 {
        x
    } else {
        decayed(div_toward_zero(x * num, den), num, den, (ticks - 1) as nat)
    }
}

/// A position component after `dt` ticks at constant acceleration:
/// `p + dt * (v + dt * a / 2)`.
pub open spec fn advanced_position(p: int, v: int, a: int, dt: int) -> int {
    p + div_toward_zero(dt * (2 * v + dt * a), 2)
}

/// A velocity component after `dt` ticks: `dt * a` plus the decayed velocity.
pub open spec fn advanced_velocity(v: int, a: int, dt: nat, num: int, den: int) -> int {
    dt * a + decayed(v, num, den, dt)
}

/// The state after an integration step of `dt` ticks with drag `num / den`
/// per tick, where its components fit (see `step_fits`).
pub open spec fn stepped(k: Kinematics, dt: nat, num: int, den: int) -> Kinematics {
    Kinematics {
        p: Vec2 {
            x: advanced_position(k.p.x as int, k.v.x as int, k.a.x as int, dt as int) as i32,
            y: advanced_position(k.p.y as int, k.v.y as int, k.a.y as int, dt as int) as i32,
        },
        v: Vec2 {
            x: advanced_velocity(k.v.x as int, k.a.x as int, dt, num, den) as i32,
            y: advanced_velocity(k.v.y as int, k.a.y as int, dt, num, den) as i32,
        },
        ..k
    }
}

/// The new position and velocity of an integration step fit in an `i32`.
pub open spec fn step_fits(k: Kinematics, dt: nat, num: int, den: int) -> bool {
    &&& fits_i32(advanced_position(k.p.x as int, k.v.x as int, k.a.x as int, dt as int))
    &&& fits_i32(advanced_position(k.p.y as int, k.v.y as int, k.a.y as int, dt as int))
    &&& fits_i32(advanced_velocity(k.v.x as int, k.a.x as int, dt, num, den))
    &&& fits_i32(advanced_velocity(k.v.y as int, k.a.y as int, dt, num, den))
}

/// A velocity component after `n` integration steps of `dt` ticks each with
/// no acceleration.
pub open spec fn coasting_velocity(v: int, dt: nat, num: int, den: int, n: nat) -> int
    decreases n,
{
    if n == 0 {
        v
    } else {
        advanced_velocity(coasting_velocity(v, dt, num, den, (n - 1) as nat), 0, dt, num, den)
    }
}

/// One component of the steering command toward a target: a proportional term
/// `2 * error / dt^2` clipped to twice the maximum, plus a damping term
/// `-2 * v / dt` clipped to the maximum, the sum clipped to the maximum. Both
/// terms round away from zero, so that no error or velocity is too small to act on.
pub open spec fn steering_component(p: int, v: int, target: int, dt: int, max_accel: int) -> int {
    let ppart = clip(div_away_from_zero(2 * (target - p), dt * dt), 2 * max_accel);
    let vpart = clip(div_away_from_zero(-2 * v, dt), max_accel);
    clip(ppart + vpart, max_accel)
}

proof fn lemma_div_away_sign(n: int, d: int)
    requires
        d > 0,
    ensures
        n > 0 ==> div_away_from_zero(n, d) >= 1,
        n < 0 ==> div_away_from_zero(n, d) <= -1,
        n == 0 ==> div_away_from_zero(n, d) == 0,
{
    if n > 0 {
        assert((n + d - 1) / d >= 1) by (nonlinear_arith)
            requires
                n > 0,
                d > 0,
        ;
    } else if n < 0 {
        assert((-n + d - 1) / d >= 1) by (nonlinear_arith)
            requires
                -n > 0,
                d > 0,
        ;
    } else {
        assert((d - 1) / d == 0) by (nonlinear_arith)
            requires
                d > 0,
        ;
    }
}

/// With a positive maximum, the steering command pulls toward the target.
pub proof fn lemma_steering_pulls(p: int, v: int, target: int, dt: int, max_accel: int)
    requires
        dt >= 1,
        max_accel >= 1,
    ensures
        pulls_toward(steering_component(p, v, target, dt, max_accel), p, v, target),
{
    assert(dt * dt >= 1) by (nonlinear_arith)
        requires
            dt >= 1,
    ;
    lemma_div_away_sign(2 * (target - p), dt * dt);
    lemma_div_away_sign(-2 * v, dt);
}

proof fn lemma_div_toward_zero_bounds(n: int, d: int)
    requires
        d > 0,
    ensures
        n >= 0 ==> 0 <= div_toward_zero(n, d) <= n,
        n <= 0 ==> n <= div_toward_zero(n, d) <= 0,
{
    if n >= 0 {
        assert(0 <= n / d <= n) by (nonlinear_arith)
            requires
                n >= 0,
                d > 0,
        ;
    } else {
        assert(0 <= (-n) / d <= -n) by (nonlinear_arith)
            requires
                -n >= 0,
                d > 0,
        ;
    }
}

/// One tick of drag keeps the sign and, on a nonzero value, strictly shrinks it.
proof fn lemma_drag_tick(x: int, num: int, den: int)
    requires
        0 < num < den,
    ensures
        x > 0 ==> 0 <= div_toward_zero(x * num, den) < x,
        x < 0 ==> x < div_toward_zero(x * num, den) <= 0,
        x == 0 ==> div_toward_zero(x * num, den) == 0,
{
    if x > 0 {
        assert(0 <= (x * num) / den < x) by (nonlinear_arith)
            requires
                x > 0,
                0 < num < den,
        ;
    } else if x < 0 {
        assert(-x * num == (-x) * num) by (nonlinear_arith);
        assert(0 <= ((-x) * num) / den < -x) by (nonlinear_arith)
            requires
                -x > 0,
                0 < num < den,
        ;
        assert(x * num < 0) by (nonlinear_arith)
            requires
                x < 0,
                num > 0,
        ;
        assert(-(x * num) == (-x) * num) by (nonlinear_arith);
    }
}

/// Drag over any number of ticks keeps the sign and never grows the magnitude;
/// over at least one tick it strictly shrinks a nonzero value.
proof fn lemma_decayed_shrinks(x: int, num: int, den: int, ticks: nat)
    requires
        0 < num < den,
    ensures
        x >= 0 ==> 0 <= decayed(x, num, den, ticks) <= x,
        x <= 0 ==> x <= decayed(x, num, den, ticks) <= 0,
        ticks > 0 && x > 0 ==> decayed(x, num, den, ticks) < x,
        ticks > 0 && x < 0 ==> x < decayed(x, num, den, ticks),
    decreases ticks,
{
    if ticks > 0 {
        lemma_drag_tick(x, num, den);
        lemma_decayed_shrinks(div_toward_zero(x * num, den), num, den, (ticks - 1) as nat);
    }
}

/// With no acceleration, an integration step of at least one tick keeps the
/// sign of each velocity component, never increases its magnitude, and
/// strictly decreases the speed of a moving agent.
pub proof fn lemma_coasting_slows(k: Kinematics, dt: nat, num: int, den: int)
    requires
        k.a.x == 0,
        k.a.y == 0,
        dt >= 1,
        0 < num < den,
    ensures
        ({
            let v = k.v;
            let w = stepped(k, dt, num, den).v;
            &&& v.x >= 0 ==> 0 <= w.x <= v.x
            &&& v.x <= 0 ==> v.x <= w.x <= 0
            &&& v.y >= 0 ==> 0 <= w.y <= v.y
            &&& v.y <= 0 ==> v.y <= w.y <= 0
            &&& (v.x != 0 || v.y != 0) ==> w.x * w.x + w.y * w.y < v.x * v.x + v.y * v.y
        }),
{
    let v = k.v;
    lemma_decayed_shrinks(v.x as int, num, den, dt);
    lemma_decayed_shrinks(v.y as int, num, den, dt);
    let vx = advanced_velocity(v.x as int, 0, dt, num, den);
    let vy = advanced_velocity(v.y as int, 0, dt, num, den);
    assert(vx == decayed(v.x as int, num, den, dt));
    assert(vy == decayed(v.y as int, num, den, dt));
    let w = stepped(k, dt, num, den).v;
    assert(w.x == vx && w.y == vy);
    let ax: int = if v.x >= 0 { v.x as int } else { -v.x };
    let bx: int = if vx >= 0 { vx } else { -vx };
    let ay: int = if v.y >= 0 { v.y as int } else { -v.y };
    let by: int = if vy >= 0 { vy } else { -vy };
    assert(bx * bx <= ax * ax && (v.x != 0 ==> bx * bx < ax * ax)) by (nonlinear_arith)
        requires
            0 <= bx <= ax,
            v.x != 0 ==> bx < ax,
    ;
    assert(by * by <= ay * ay && (v.y != 0 ==> by * by < ay * ay)) by (nonlinear_arith)
        requires
            0 <= by <= ay,
            v.y != 0 ==> by < ay,
    ;
    assert(vx * vx == bx * bx && v.x * v.x == ax * ax) by (nonlinear_arith)
        requires
            bx == vx || bx == -vx,
            ax == v.x || ax == -v.x,
    ;
    assert(vy * vy == by * by && v.y * v.y == ay * ay) by (nonlinear_arith)
        requires
            by == vy || by == -vy,
            ay == v.y || ay == -v.y,
    ;
}

/// With no acceleration, repeated integration steps of at least one tick bring
/// a velocity component to rest: after `n` steps its magnitude is at most
/// `|v| - n` (and never below zero), so it is zero once `n >= |v|`.
pub proof fn lemma_coasting_stops(v: int, dt: nat, num: int, den: int, n: nat)
    requires
        dt >= 1,
        0 < num < den,
    ensures
        v >= 0 ==> 0 <= coasting_velocity(v, dt, num, den, n) <= v,
        v <= 0 ==> v <= coasting_velocity(v, dt, num, den, n) <= 0,
        v >= 0 ==> coasting_velocity(v, dt, num, den, n) <= if v - n >= 0 { v - n } else { 0 },
        v <= 0 ==> coasting_velocity(v, dt, num, den, n) >= if v + n <= 0 { v + n } else { 0 },
        n >= v && n >= -v ==> coasting_velocity(v, dt, num, den, n) == 0,
    decreases n,
{
    if n > 0 {
        lemma_coasting_stops(v, dt, num, den, (n - 1) as nat);
        let w = coasting_velocity(v, dt, num, den, (n - 1) as nat);
        lemma_decayed_shrinks(w, num, den, dt);
        assert(coasting_velocity(v, dt, num, den, n) == decayed(w, num, den, dt));
    }
}

proof fn lemma_mul_bounded(a: int, b: int, abound: int, bbound: int)
    requires
        -abound <= a <= abound,
        -bbound <= b <= bbound,
    ensures
        -(abound * bbound) <= a * b <= abound * bbound,
{
    assert(-(abound * bbound) <= a * b <= abound * bbound) by (nonlinear_arith)
        requires
            -abound <= a <= abound,
            -bbound <= b <= bbound,
    ;
}

/// `n / d` rounded toward zero.
fn div_i128_toward_zero(n: i128, d: i128) -> (r: i128)
    requires
        d > 0,
        n > i128::MIN,
    ensures
        r == div_toward_zero(n as int, d as int),
{
    if n >= 0 {
        n / d
    } else {
        proof {
            lemma_div_toward_zero_bounds(n as int, d as int);
        }
        -((-n) / d)
    }
}

/// `n / d` rounded away from zero.
fn div_i128_away_from_zero(n: i128, d: i128) -> (r: i128)
    requires
        0 < d <= 0x1_0000_0000_0000_0000_0000,
        -0x1_0000_0000_0000_0000_0000 <= n <= 0x1_0000_0000_0000_0000_0000,
    ensures
        r == div_away_from_zero(n as int, d as int),
{
    if n >= 0 {
        (n + d - 1) / d
    } else {
        proof {
            let m: int = -n + d - 1;
            assert(0 <= m / (d as int) <= m) by (nonlinear_arith)
                requires
                    m >= 0,
                    d > 0,
            ;
        }
        -((-n + d - 1) / d)
    }
}

/// `x` clipped to `[-bound, bound]`.
fn clip_i128(x: i128, bound: i128) -> (r: i128)
    requires
        bound >= 0,
    ensures
        r == clip(x as int, bound as int),
{
    if x > bound {
        bound
    } else if x < -bound {
        -bound
    } else {
        x
    }
}

/// One velocity component after `ticks` ticks of drag.
fn decay_component(x: i32, ticks: u32, num: u32, den: u32) -> (r: i32)
    requires
        0 < num < den,
    ensures
        r == decayed(x as int, num as int, den as int, ticks as nat),
{
    let mut y: i64 = x as i64;
    let mut k: u32 = ticks;
    proof {
        lemma_decayed_shrinks(x as int, num as int, den as int, ticks as nat);
    }
    while k > 0
        invariant
            0 < num < den,
            x >= 0 ==> 0 <= y <= x,
            x <= 0 ==> x <= y <= 0,
            decayed(y as int, num as int, den as int, k as nat) == decayed(
                x as int,
                num as int,
                den as int,
                ticks as nat,
            ),
        decreases k,
    {
        proof {
            lemma_drag_tick(y as int, num as int, den as int);
            lemma_mul_bounded(y as int, num as int, 0x8000_0000, 0x1_0000_0000);
        }
        let prod: i128 = y as i128 * num as i128;
        let next = div_i128_toward_zero(prod, den as i128);
        y = next as i64;
        k = k - 1;
    }
    y as i32
}

/// One component of the steering command; see `steering_component`.
fn steer_component(p: i32, v: i32, target: i32, dt: u32, max_accel: i32) -> (r: i32)
    requires
        dt >= 1,
        max_accel >= 0,
    ensures
        r == steering_component(p as int, v as int, target as int, dt as int, max_accel as int),
        -max_accel <= r <= max_accel,
{
    let dt128 = dt as i128;
    assert(dt128 * dt128 >= 1 && dt128 * dt128 <= 0x1_0000_0000 * 0x1_0000_0000) by (nonlinear_arith)
        requires
            1 <= dt128 <= 0x1_0000_0000,
    ;
    let err: i128 = 2 * (target as i128 - p as i128);
    let ppart = clip_i128(div_i128_away_from_zero(err, dt128 * dt128), 2 * max_accel as i128);
    let damp: i128 = -(2 * (v as i128));
    let vpart = clip_i128(div_i128_away_from_zero(damp, dt128), max_accel as i128);
    let a = clip_i128(ppart + vpart, max_accel as i128);
    a as i32
}

impl Kinematics {
    /// Advance the state by `dt` ticks: `p += dt * (v + dt * a / 2)` and
    /// `v = dt * a + v` decayed by `num / den` per tick. Returns `false`, and
    /// leaves the state as it was, where the new position or velocity would
    /// not fit in an `i32`.
    pub fn integrate(&mut self, dt: u32, num: u32, den: u32) -> (ok: bool)
        requires
            0 < num < den,
        ensures
            ok == step_fits(*old(self), dt as nat, num as int, den as int),
            ok ==> *final(self) == stepped(*old(self), dt as nat, num as int, den as int),
            !ok ==> *final(self) == *old(self),
    {
        proof {
            lemma_mul_bounded(dt as int, self.a.x as int, 0x1_0000_0000, 0x8000_0000);
            lemma_mul_bounded(dt as int, self.a.y as int, 0x1_0000_0000, 0x8000_0000);
        }
        let px = Self::advance_position(self.p.x, self.v.x, self.a.x, dt);
        let py = Self::advance_position(self.p.y, self.v.y, self.a.y, dt);
        let vx = dt as i128 * self.a.x as i128 + decay_component(self.v.x, dt, num, den) as i128;
        let vy = dt as i128 * self.a.y as i128 + decay_component(self.v.y, dt, num, den) as i128;
        if px < i32::MIN as i128 || px > i32::MAX as i128 || py < i32::MIN as i128 || py
            > i32::MAX as i128 || vx < i32::MIN as i128 || vx > i32::MAX as i128 || vy
            < i32::MIN as i128 || vy > i32::MAX as i128 {
            return false;
        }
        self.p = Vec2 { x: px as i32, y: py as i32 };
        self.v = Vec2 { x: vx as i32, y: vy as i32 };
        true
    }

    /// One position component after `dt` ticks, exact.
    fn advance_position(p: i32, v: i32, a: i32, dt: u32) -> (r: i128)
        ensures
            r == advanced_position(p as int, v as int, a as int, dt as int),
    {
        let dt128 = dt as i128;
        proof {
            lemma_mul_bounded(dt as int, a as int, 0x1_0000_0000, 0x8000_0000);
        }
        let da: i128 = dt128 * a as i128;
        let s: i128 = 2 * v as i128 + da;
        assert(-0x1_0000_0000 * 0x1_0000_0000_0000_0000 <= dt128 * s <= 0x1_0000_0000
            * 0x1_0000_0000_0000_0000) by (nonlinear_arith)
            requires
                0 <= dt128 <= 0x1_0000_0000,
                -0x1_0000_0000_0000_0000 <= s <= 0x1_0000_0000_0000_0000,
        ;
        p as i128 + div_i128_toward_zero(dt128 * s, 2)
    }

    /// The steering command toward `target`, each component computed by
    /// `steering_component` and so within `[-max_accel, max_accel]`.
    pub fn steering_acceleration(&self, target: Vec2, dt: u32, max_accel: i32) -> (r: Vec2)
        requires
            dt >= 1,
            max_accel >= 0,
        ensures
            r.x == steering_component(self.p.x as int, self.v.x as int, target.x as int, dt as int, max_accel as int),
            r.y == steering_component(self.p.y as int, self.v.y as int, target.y as int, dt as int, max_accel as int),
            -max_accel <= r.x <= max_accel,
            -max_accel <= r.y <= max_accel,
            max_accel >= 1 ==> pulls_toward(r.x as int, self.p.x as int, self.v.x as int, target.x as int),
            max_accel >= 1 ==> pulls_toward(r.y as int, self.p.y as int, self.v.y as int, target.y as int),
    {
        proof {
            if max_accel >= 1 {
                lemma_steering_pulls(self.p.x as int, self.v.x as int, target.x as int, dt as int, max_accel as int);
                lemma_steering_pulls(self.p.y as int, self.v.y as int, target.y as int, dt as int, max_accel as int);
            }
        }
        Vec2 {
            x: steer_component(self.p.x, self.v.x, target.x, dt, max_accel),
            y: steer_component(self.p.y, self.v.y, target.y, dt, max_accel),
        }
    }
}

} // verus!
