//! The integration step: apply a velocity change, steer back toward the
//! visible region, clamp the speed, and move.
use vstd::prelude::*;
use crate::flock::DELTA_LIMIT;
use crate::geometry::{Agent, Delta, Params, Vec2, lemma_axis_within, lemma_sq_bound, norm_sq};

verus! {

/// Half extents of the visible region, centred on the origin.
#[derive(Clone, Copy, Debug, PartialEq, Eq, Structural)]
pub struct Region {
    pub half_width: i32,
    pub half_height: i32,
}

/// A velocity change addressed to one agent of the store.
#[derive(Clone, Copy, Debug, PartialEq, Eq, Structural)]
pub struct DeltaEntry {
    pub agent: usize,
    pub delta: Delta,
}

impl DeltaEntry {
    pub open spec fn wf(self) -> bool {
        -DELTA_LIMIT <= self.delta.x <= DELTA_LIMIT && -DELTA_LIMIT <= self.delta.y <= DELTA_LIMIT
    }
}

/// Half of `(extent - margin)`, rounded toward zero.
pub open spec fn half_extent(extent: int, margin: int) -> int {
    let d = extent - margin;
    if d >= 0 {
        d / 2
    } else {
        -((-d) / 2)
    }
}

/// The region of a display `width` by `height` less `margin`.
pub fn visible_region(width: u32, height: u32, margin: u32) -> (r: Region)
    ensures
        r.half_width == half_extent(width as int, margin as int),
        r.half_height == half_extent(height as int, margin as int),
{
    let dw = width as i64 - margin as i64;
    let dh = height as i64 - margin as i64;
    let hw: i64 = if dw >= 0 { ((dw as u64) / 2) as i64 } else { -(((-dw) as u64 / 2) as i64) };
    let hh: i64 = if dh >= 0 { ((dh as u64) / 2) as i64 } else { -(((-dh) as u64 / 2) as i64) };
    Region { half_width: hw as i32, half_height: hh as i32 }
}

/// The nudge back toward the centre on one axis: `+turn` below `-half` and
/// `-turn` above `half`, each on its own (so both cancel when `half < 0`).
pub open spec fn steer(pos: int, half: int, turn: int) -> int {
    (if pos < -half { turn } else { 0 }) - (if pos > half { turn } else { 0 })
}

/// The velocity after the change and the boundary nudge, before clamping.
pub open spec fn steered_x(a: Agent, dv: Delta, p: Params, region: Region) -> int {
    a.velocity.x + dv.x + steer(a.position.x as int, region.half_width as int, p.turn as int)
}

pub open spec fn steered_y(a: Agent, dv: Delta, p: Params, region: Region) -> int {
    a.velocity.y + dv.y + steer(a.position.y as int, region.half_height as int, p.turn as int)
}

/// `c` is `sqrt(t / q)` rounded up: the least `c >= 0` with `c^2 q >= t`.
pub open spec fn is_root_up(c: int, t: int, q: int) -> bool {
    c >= 0 && c * c * q >= t && (c == 0 || (c - 1) * (c - 1) * q < t)
}

/// `c` is `sqrt(t / q)` rounded down: the greatest `c >= 0` with `c^2 q <= t`.
pub open spec fn is_root_down(c: int, t: int, q: int) -> bool {
    c >= 0 && c * c * q <= t && (c + 1) * (c + 1) * q > t
}

/// `r` has the sign of `a` (zero with zero) and magnitude `m`.
pub open spec fn signed_as(r: int, a: int, m: int) -> bool {
    if a >= 0 {
        r == m
    } else {
        r == -m
    }
}

/// `(rx, ry)` is `(ax, ay)` with its speed clamped to `[min, max]`: a
/// vector at rest or within bounds stays; a slower one is scaled up to `min`,
/// each component rounded away from zero; a faster one is scaled down to
/// `max`, each component rounded toward zero.
pub open spec fn speed_clamped(ax: int, ay: int, rx: int, ry: int, min: int, max: int) -> bool {
    let q = norm_sq(ax, ay);
    if q == 0 || (min * min <= q && q <= max * max) {
        rx == ax && ry == ay
    } else if q < min * min {
        exists|cx: int, cy: int|
            is_root_up(cx, ax * ax * (min * min), q) && signed_as(rx, ax, cx)
            && is_root_up(cy, ay * ay * (min * min), q) && signed_as(ry, ay, cy)
    } else {
        exists|cx: int, cy: int|
            is_root_down(cx, ax * ax * (max * max), q) && signed_as(rx, ax, cx)
            && is_root_down(cy, ay * ay * (max * max), q) && signed_as(ry, ay, cy)
    }
}

/// Adds a position and a velocity component, held within `i32`.
pub open spec fn moved(pos: int, vel: int) -> int {
    let s = pos + vel;
    if s < i32::MIN {
        i32::MIN as int
    } else if s > i32::MAX {
        i32::MAX as int
    } else {
        s
    }
}

/// `r` is agent `a` after one integration step with velocity change `dv`.
pub open spec fn stepped(a: Agent, dv: Delta, p: Params, region: Region, r: Agent) -> bool {
    &&& speed_clamped(steered_x(a, dv, p, region), steered_y(a, dv, p, region),
        r.velocity.x as int, r.velocity.y as int, p.min_speed as int, p.max_speed as int)
    &&& r.position.x == moved(a.position.x as int, r.velocity.x as int)
    &&& r.position.y == moved(a.position.y as int, r.velocity.y as int)
}

/// The least `c` in `[0, hi]` with `c^2 q > t`, given that `hi` is one.
fn least_above(t: u128, q: u128, hi: u128) -> (c: u128)
    requires
        hi <= 0x1_0000,
        0 < q < 0x1_0000_0000_0000_0000_0000,
        hi * hi * q > t,
    ensures
        c <= hi,
        c * c * q > t,
        c == 0 || (c - 1) * (c - 1) * q <= t,
{
    let mut lo: u128 = 0;
    let mut up: u128 = hi;
    assert(lo * lo * q == 0) by (nonlinear_arith) requires lo == 0;
    while up - lo > 1
        invariant
            lo < up <= hi <= 0x1_0000,
            0 < q < 0x1_0000_0000_0000_0000_0000,
            lo * lo * q <= t,
            up * up * q > t,
        decreases up - lo,
    {
        let mid = lo + (up - lo) / 2;
        proof {
            assert(mid * mid <= 0x1_0000u128 * 0x1_0000) by (nonlinear_arith)
                requires mid <= 0x1_0000;
            assert(mid * mid * q <= 0x1_0000u128 * 0x1_0000 * 0x1_0000_0000_0000_0000_0000) by (nonlinear_arith)
                requires mid <= 0x1_0000, q < 0x1_0000_0000_0000_0000_0000;
        }
        if mid * mid * q > t {
            up = mid;
        } else {
            lo = mid;
        }
    }
    up
}

/// Magnitude of one clamped component: `|a| * s / sqrt(q)`, rounded up when
/// `up`, else down. `a^2 <= q` and `s` is the target speed.
fn rescaled(a: i64, q: u128, s: u16, up: bool) -> (r: i64)
    requires
        -0x40_0000_0000 <= a <= 0x40_0000_0000,
        0 < q < 0x1_0000_0000_0000_0000_0000,
        a * a <= q,
    ensures
        up ==> signed_as(r as int, a as int, (if r >= 0 { r as int } else { -r }))
            && is_root_up((if r >= 0 { r as int } else { -r }), a * a * (s * s), q as int),
        !up ==> signed_as(r as int, a as int, (if r >= 0 { r as int } else { -r }))
            && is_root_down((if r >= 0 { r as int } else { -r }), a * a * (s * s), q as int),
        -65535 <= r <= 65535,
{
    let m: u128 = if a >= 0 { a as u128 } else { (-a) as u128 };
    let sq = s as u128;
    proof {
        assert(m * m == a * a) by (nonlinear_arith) requires m == a || m == -a;
        assert(sq * sq <= 65535u128 * 65535) by (nonlinear_arith) requires sq <= 65535;
        assert(m * m * (sq * sq) <= q * (65535u128 * 65535)) by (nonlinear_arith)
            requires m * m <= q, sq <= 65535;
        assert(q * (65535u128 * 65535) < 0x1_0000_0000_0000_0000_0000u128 * 0x1_0000_0000) by (nonlinear_arith)
            requires q < 0x1_0000_0000_0000_0000_0000u128;
    }
    let t = m * m * (sq * sq);
    let c: u128 = if up {
        if t == 0 {
            assert(0 * 0 * q == 0) by (nonlinear_arith);
            0
        } else {
            proof {
                assert(sq * sq * q >= t) by (nonlinear_arith)
                    requires t == m * m * (sq * sq), m * m <= q;
            }
            least_above(t - 1, q, sq)
        }
    } else {
        proof {
            assert((sq + 1) * (sq + 1) * q > t) by (nonlinear_arith)
                requires t == m * m * (sq * sq), m * m <= q, 0 < q;
        }
        let c1 = least_above(t, q, sq + 1);
        proof {
            if c1 == 0 {
                assert(c1 * c1 * q == 0) by (nonlinear_arith) requires c1 == 0;
            }
            assert(c1 - 1 <= sq);
        }
        c1 - 1
    };
    proof {
        if up {
            if c > sq {
                assert((c - 1) * (c - 1) * q >= sq * sq * q) by (nonlinear_arith)
                    requires c - 1 >= sq, q > 0;
                assert(sq * sq * q >= t) by (nonlinear_arith)
                    requires t == m * m * (sq * sq), m * m <= q;
            }
        }
    }
    let ci = c as i64;
    if a >= 0 { ci } else { -ci }
}

/// The velocity `(ax, ay)` with its speed clamped to `[min, max]`. A velocity
/// at rest is left at rest.
pub fn clamp_speed(ax: i64, ay: i64, min: u16, max: u16) -> (r: Vec2)
    requires
        -0x40_0000_0000 <= ax <= 0x40_0000_0000,
        -0x40_0000_0000 <= ay <= 0x40_0000_0000,
        min <= max,
    ensures
        speed_clamped(ax as int, ay as int, r.x as int, r.y as int, min as int, max as int),
{
    proof {
        lemma_sq_bound(ax as int, 0x40_0000_0000);
        lemma_sq_bound(ay as int, 0x40_0000_0000);
        lemma_sq_bound(min as int, 65535);
        lemma_sq_bound(max as int, 65535);
    }
    let q = ((ax as i128) * (ax as i128) + (ay as i128) * (ay as i128)) as u128;
    let lo = (min as u128) * (min as u128);
    let hi = (max as u128) * (max as u128);
    if q == 0 || (lo <= q && q <= hi) {
        proof {
            if q == 0 {
                assert(ax == 0 && ay == 0) by (nonlinear_arith)
                    requires ax * ax + ay * ay == 0;
            } else {
                lemma_axis_within(ax as int, ay as int, max as int);
                lemma_axis_within(ay as int, ax as int, max as int);
            }
        }
        return Vec2 { x: ax as i32, y: ay as i32 };
    }
    proof {
        assert(ax * ax <= q && ay * ay <= q) by (nonlinear_arith)
            requires q == ax * ax + ay * ay;
    }
    let up = q < lo;
    let rx = rescaled(ax, q, if up { min } else { max }, up);
    let ry = rescaled(ay, q, if up { min } else { max }, up);
    proof {
        let cx = if rx >= 0 { rx as int } else { -rx };
        let cy = if ry >= 0 { ry as int } else { -ry };
        if up {
            assert(is_root_up(cx, ax * ax * (min * min), q as int) && signed_as(rx as int, ax as int, cx)
                && is_root_up(cy, ay * ay * (min * min), q as int) && signed_as(ry as int, ay as int, cy));
        } else {
            assert(is_root_down(cx, ax * ax * (max * max), q as int) && signed_as(rx as int, ax as int, cx)
                && is_root_down(cy, ay * ay * (max * max), q as int) && signed_as(ry as int, ay as int, cy));
        }
    }
    Vec2 { x: rx as i32, y: ry as i32 }
}

/// `pos + vel`, held within `i32`.
fn advance(pos: i32, vel: i32) -> (r: i32)
    ensures
        r == moved(pos as int, vel as int),
{
    let s = pos as i64 + vel as i64;
    if s < i32::MIN as i64 {
        i32::MIN
    } else if s > i32::MAX as i64 {
        i32::MAX
    } else {
        s as i32
    }
}

/// The nudge on one axis of an agent at `pos` in a region of half extent `half`.
fn steering(pos: i32, half: i32, turn: u16) -> (r: i64)
    ensures
        r == steer(pos as int, half as int, turn as int),
{
    let up: i64 = if (pos as i64) < -(half as i64) { turn as i64 } else { 0 };
    let down: i64 = if pos as i64 > half as i64 { turn as i64 } else { 0 };
    up - down
}

/// Agent `a` after one integration step: the change `dv` and the boundary
/// nudge are added to its velocity, the speed is clamped, and the position
/// advances by the new velocity (its heading follows the velocity).
pub fn step_agent(a: Agent, dv: Delta, p: &Params, region: Region) -> (r: Agent)
    requires
        p.wf(),
        -DELTA_LIMIT <= dv.x <= DELTA_LIMIT,
        -DELTA_LIMIT <= dv.y <= DELTA_LIMIT,
    ensures
        stepped(a, dv, *p, region, r),
{
    let vx = a.velocity.x as i64 + dv.x + steering(a.position.x, region.half_width, p.turn);
    let vy = a.velocity.y as i64 + dv.y + steering(a.position.y, region.half_height, p.turn);
    let v = clamp_speed(vx, vy, p.min_speed, p.max_speed);
    Agent {
        position: Vec2 { x: advance(a.position.x, v.x), y: advance(a.position.y, v.y) },
        velocity: v,
    }
}

/// No two entries of `deltas` address the same agent.
pub open spec fn distinct_agents(deltas: Seq<DeltaEntry>) -> bool {
    forall|i: int, j: int| 0 <= i < j < deltas.len() ==> deltas[i].agent != deltas[j].agent
}

/// `after` is `before` with each entry of `deltas` applied to its agent; an
/// entry whose agent is not in the store is skipped, and agents that no entry
/// addresses are left as they were.
pub open spec fn integrated(before: Seq<Agent>, deltas: Seq<DeltaEntry>, p: Params, region: Region, after: Seq<Agent>) -> bool {
    &&& after.len() == before.len()
    &&& forall|k: int| 0 <= k < deltas.len() && deltas[k].agent < before.len() ==>
        stepped(before[deltas[k].agent as int], deltas[k].delta, p, region, #[trigger] after[deltas[k].agent as int])
    &&& forall|i: int| 0 <= i < before.len() && (forall|k: int| 0 <= k < deltas.len() ==> deltas[k].agent != i)
        ==> #[trigger] after[i] == before[i]
}

/// Applies one tick's deltas to the store, one agent at a time.
pub fn integrate(store: &mut Vec<Agent>, deltas: &Vec<DeltaEntry>, p: &Params, region: Region)
    requires
        p.wf(),
        distinct_agents(deltas@),
        forall|k: int| 0 <= k < deltas.len() ==> (#[trigger] deltas[k]).wf(),
    ensures
        integrated(old(store)@, deltas@, *p, region, final(store)@),
{
    let ghost before = store@;
    let mut k: usize = 0;
    while k < deltas.len()
        invariant
            p.wf(),
            distinct_agents(deltas@),
            forall|j: int| 0 <= j < deltas.len() ==> (#[trigger] deltas[j]).wf(),
            k <= deltas.len(),
            store.len() == before.len(),
            forall|j: int| 0 <= j < k && deltas[j].agent < before.len() ==>
                stepped(before[deltas[j].agent as int], deltas[j].delta, *p, region, #[trigger] store@[deltas[j].agent as int]),
            forall|i: int| 0 <= i < before.len() && (forall|j: int| 0 <= j < k ==> deltas[j].agent != i)
                ==> #[trigger] store@[i] == before[i],
        decreases deltas.len() - k,
    {
        let e = deltas[k];
        if e.agent < store.len() {
            assert(store@[e.agent as int] == before[e.agent as int]);
            let next = step_agent(store[e.agent], e.delta, p, region);
            store.set(e.agent, next);
        }
        k = k + 1;
    }
}

/// `(ux + uy)^2 <= 2 (ux^2 + uy^2)`.
proof fn lemma_sum_sq(ux: int, uy: int)
    ensures
        (ux + uy) * (ux + uy) <= 2 * (ux * ux + uy * uy),
{
    assert((ux + uy) * (ux + uy) <= 2 * (ux * ux + uy * uy)) by (nonlinear_arith);
}

/// Clamping bounds the speed: a nonzero velocity comes out with a speed in
/// `[min, max]`, provided the bounds are at least two units apart, which is
/// room enough for the rounding of the components.
pub proof fn lemma_clamp_within_bounds(ax: int, ay: int, rx: int, ry: int, min: int, max: int)
    requires
        speed_clamped(ax, ay, rx, ry, min, max),
        norm_sq(ax, ay) != 0,
        0 <= min,
        min + 2 <= max,
    ensures
        min * min <= norm_sq(rx, ry) <= max * max,
{
    let q = norm_sq(ax, ay);
    assert(q > 0) by (nonlinear_arith)
        requires q == ax * ax + ay * ay, q != 0;
    if min * min <= q && q <= max * max {
    } else if q < min * min {
        let (cx, cy) = choose|cx: int, cy: int|
            is_root_up(cx, ax * ax * (min * min), q) && signed_as(rx, ax, cx)
            && is_root_up(cy, ay * ay * (min * min), q) && signed_as(ry, ay, cy);
        assert(rx * rx == cx * cx && ry * ry == cy * cy) by (nonlinear_arith)
            requires rx == cx || rx == -cx, ry == cy || ry == -cy;
        assert((cx * cx + cy * cy) * q >= (min * min) * q) by (nonlinear_arith)
            requires cx * cx * q >= ax * ax * (min * min), cy * cy * q >= ay * ay * (min * min),
                q == ax * ax + ay * ay;
        assert(cx * cx + cy * cy >= min * min) by (nonlinear_arith)
            requires (cx * cx + cy * cy) * q >= (min * min) * q, q > 0;
        let ux = if cx > 0 { cx - 1 } else { 0 };
        let uy = if cy > 0 { cy - 1 } else { 0 };
        assert(ux * ux * q <= ax * ax * (min * min)) by (nonlinear_arith)
            requires ux == 0 || ux * ux * q < ax * ax * (min * min), q > 0;
        assert(uy * uy * q <= ay * ay * (min * min)) by (nonlinear_arith)
            requires uy == 0 || uy * uy * q < ay * ay * (min * min), q > 0;
        assert(ux * ux + uy * uy <= min * min) by (nonlinear_arith)
            requires ux * ux * q <= ax * ax * (min * min), uy * uy * q <= ay * ay * (min * min),
                q == ax * ax + ay * ay, q > 0;
        lemma_sum_sq(ux, uy);
        assert(ux + uy <= 2 * min) by (nonlinear_arith)
            requires (ux + uy) * (ux + uy) <= 2 * (min * min), ux >= 0, uy >= 0, min >= 0;
        assert(cx * cx + cy * cy <= max * max) by (nonlinear_arith)
            requires cx <= ux + 1, cy <= uy + 1, cx >= 0, cy >= 0, ux >= 0, uy >= 0,
                ux * ux + uy * uy <= min * min, ux + uy <= 2 * min, min + 2 <= max, min >= 0;
    } else {
        let (cx, cy) = choose|cx: int, cy: int|
            is_root_down(cx, ax * ax * (max * max), q) && signed_as(rx, ax, cx)
            && is_root_down(cy, ay * ay * (max * max), q) && signed_as(ry, ay, cy);
        assert(rx * rx == cx * cx && ry * ry == cy * cy) by (nonlinear_arith)
            requires rx == cx || rx == -cx, ry == cy || ry == -cy;
        assert(cx * cx + cy * cy <= max * max) by (nonlinear_arith)
            requires cx * cx * q <= ax * ax * (max * max), cy * cy * q <= ay * ay * (max * max),
                q == ax * ax + ay * ay, q > 0;
        assert((cx + 1) * (cx + 1) + (cy + 1) * (cy + 1) > max * max) by (nonlinear_arith)
            requires (cx + 1) * (cx + 1) * q > ax * ax * (max * max),
                (cy + 1) * (cy + 1) * q > ay * ay * (max * max), q == ax * ax + ay * ay, q > 0;
        if cx * cx + cy * cy < min * min {
            lemma_sum_sq(cx, cy);
            assert(cx + cy < 2 * min) by (nonlinear_arith)
                requires (cx + cy) * (cx + cy) <= 2 * (cx * cx + cy * cy),
                    cx * cx + cy * cy < min * min, cx >= 0, cy >= 0, min >= 0;
            assert(false) by (nonlinear_arith)
                requires (cx + 1) * (cx + 1) + (cy + 1) * (cy + 1) > max * max,
                    cx * cx + cy * cy < min * min, cx + cy < 2 * min, min + 2 <= max, min >= 0;
        }
    }
}

/// After an integration step, an agent whose velocity before clamping was not
/// zero moves at a speed in `[min_speed, max_speed]`.
pub proof fn lemma_step_speed(a: Agent, dv: Delta, p: Params, region: Region, r: Agent)
    requires
        p.wf(),
        stepped(a, dv, p, region, r),
        norm_sq(steered_x(a, dv, p, region), steered_y(a, dv, p, region)) != 0,
    ensures
        p.min_speed * p.min_speed <= norm_sq(r.velocity.x as int, r.velocity.y as int)
            <= p.max_speed * p.max_speed,
{
    lemma_clamp_within_bounds(steered_x(a, dv, p, region), steered_y(a, dv, p, region),
        r.velocity.x as int, r.velocity.y as int, p.min_speed as int, p.max_speed as int);
}

/// A slow velocity along an axis is raised to exactly the minimum speed, its
/// direction kept: `(a, 0)` with `0 < |a| < min` comes out as `(±min, 0)`.
pub proof fn lemma_axis_raise_exact(ax: int, rx: int, ry: int, min: int, max: int)
    requires
        speed_clamped(ax, 0, rx, ry, min, max),
        0 < ax * ax < min * min,
        0 <= min,
    ensures
        signed_as(rx, ax, min),
        ry == 0,
{
    let q = norm_sq(ax, 0);
    assert(q == ax * ax);
    let (cx, cy) = choose|cx: int, cy: int|
        is_root_up(cx, ax * ax * (min * min), q) && signed_as(rx, ax, cx)
        && is_root_up(cy, 0int * 0 * (min * min), q) && signed_as(ry, 0, cy);
    assert(cx >= min) by (nonlinear_arith)
        requires cx * cx * q >= ax * ax * (min * min), q == ax * ax, q > 0, cx >= 0, min >= 0;
    assert(cx - 1 < min) by (nonlinear_arith)
        requires cx == 0 || (cx - 1) * (cx - 1) * q < ax * ax * (min * min), q == ax * ax, q > 0,
            cx >= 0, min >= 0;
    assert(0int * 0 * (min * min) == 0);
    assert(cy == 0) by (nonlinear_arith)
        requires cy >= 0, cy == 0 || (cy - 1) * (cy - 1) * q < 0, q > 0;
}

/// Past the left or right edge of the region, the x velocity grows toward the
/// interior by exactly the turn amount; when that nudged velocity is already
/// within the speed bounds it is the new velocity.
pub proof fn lemma_boundary_nudge(a: Agent, dv: Delta, p: Params, region: Region, r: Agent)
    requires
        stepped(a, dv, p, region, r),
        0 <= region.half_width,
        a.position.x < -region.half_width || a.position.x > region.half_width,
        ({
            let q = norm_sq(steered_x(a, dv, p, region), steered_y(a, dv, p, region));
            p.min_speed * p.min_speed <= q <= p.max_speed * p.max_speed
        }),
    ensures
        a.position.x < -region.half_width ==> r.velocity.x == a.velocity.x + dv.x + p.turn,
        a.position.x > region.half_width ==> r.velocity.x == a.velocity.x + dv.x - p.turn,
        r.velocity.y == steered_y(a, dv, p, region),
{
}

/// Past the lower or upper edge of the region, the y velocity grows toward the
/// interior by exactly the turn amount; when that nudged velocity is already
/// within the speed bounds it is the new velocity.
pub proof fn lemma_boundary_nudge_y(a: Agent, dv: Delta, p: Params, region: Region, r: Agent)
    requires
        stepped(a, dv, p, region, r),
        0 <= region.half_height,
        a.position.y < -region.half_height || a.position.y > region.half_height,
        ({
            let q = norm_sq(steered_x(a, dv, p, region), steered_y(a, dv, p, region));
            p.min_speed * p.min_speed <= q <= p.max_speed * p.max_speed
        }),
    ensures
        a.position.y < -region.half_height ==> r.velocity.y == a.velocity.y + dv.y + p.turn,
        a.position.y > region.half_height ==> r.velocity.y == a.velocity.y + dv.y - p.turn,
        r.velocity.x == steered_x(a, dv, p, region),
{
}

} // verus!
