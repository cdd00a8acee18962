//! Integer vectors, agents, and the rule parameters.
use vstd::prelude::*;

verus! {

/// A 2-D vector in fixed-point units (a position or a velocity).
#[derive(Clone, Copy, Debug, PartialEq, Eq, Structural)]
pub struct Vec2 {
    pub x: i32,
    pub y: i32,
}

/// A velocity change computed by the flocking rule.
#[derive(Clone, Copy, Debug, PartialEq, Eq, Structural)]
pub struct Delta {
    pub x: i64,
    pub y: i64,
}

/// One simulated agent. Its orientation is not stored: it is always the
/// direction of its velocity (see `heading`).
#[derive(Clone, Copy, Debug, PartialEq, Eq, Structural)]
pub struct Agent {
    pub position: Vec2,
    pub velocity: Vec2,
}

/// A weight between 0 and 1, written as `num / den`.
#[derive(Clone, Copy, Debug, PartialEq, Eq, Structural)]
pub struct Weight {
    pub num: u16,
    pub den: u16,
}

/// The rule parameters, all in fixed-point units.
///
/// The speed bounds lie at least two units apart: clamping rounds each
/// component to a whole unit, and that gap keeps the rounded speed within
/// both bounds.
///
/// The field of view is given by the cosine of its half-angle,
/// `cos_num / cos_den`: a neighbour is seen when the angle between the
/// heading and the direction to it is at most that half-angle.
#[derive(Clone, Copy, Debug, PartialEq, Eq, Structural)]
pub struct Params {
    pub neighbor_cap: u16,
    pub visual_range: u16,
    pub protected_range: u16,
    pub cos_num: i16,
    pub cos_den: u16,
    pub centering: Weight,
    pub matching: Weight,
    pub avoidance: Weight,
    pub chase: Weight,
    pub turn: u16,
    pub min_speed: u16,
    pub max_speed: u16,
}

impl Weight {
    pub open spec fn wf(self) -> bool {
        0 < self.den && self.num <= self.den
    }
}

impl Params {
    pub open spec fn wf(self) -> bool {
        &&& self.protected_range <= self.visual_range
        &&& 0 < self.cos_den
        &&& -(self.cos_den as int) <= self.cos_num <= self.cos_den
        &&& self.centering.wf()
        &&& self.matching.wf()
        &&& self.avoidance.wf()
        &&& self.chase.wf()
        &&& self.min_speed + 2 <= self.max_speed
    }
}

pub open spec fn dot(ax: int, ay: int, bx: int, by: int) -> int {
    ax * bx + ay * by
}

pub open spec fn norm_sq(x: int, y: int) -> int {
    x * x + y * y
}

/// The forward direction of a velocity: the velocity itself, or the x axis
/// for an agent at rest (the angle of the zero vector is taken as zero).
pub open spec fn heading_of(v: Vec2) -> Vec2 {
    if v.x == 0 && v.y == 0 {
        Vec2 { x: 1, y: 0 }
    } else {
        v
    }
}

/// Whether direction `(dx, dy)` lies in the cone of half-angle `acos(cn / cd)`
/// around forward direction `f`, that is `f . d >= |f| |d| cn / cd`, written
/// without square roots. A zero direction is always in view.
pub open spec fn in_view(f: Vec2, dx: int, dy: int, cn: int, cd: int) -> bool {
    let l = dot(f.x as int, f.y as int, dx, dy) * cd;
    let r2 = norm_sq(f.x as int, f.y as int) * norm_sq(dx, dy) * (cn * cn);
    if dx == 0 && dy == 0 {
        true
    } else if cn >= 0 {
        l >= 0 && l * l >= r2
    } else {
        l >= 0 || l * l <= r2
    }
}

impl Agent {
    /// The agent's forward direction, derived from its velocity.
    pub fn heading(&self) -> (r: Vec2)
        ensures
            r == heading_of(self.velocity),
    {
        if self.velocity.x == 0 && self.velocity.y == 0 {
            Vec2 { x: 1, y: 0 }
        } else {
            self.velocity
        }
    }
}

/// Exec form of `in_view` for a direction no longer than `range` on each axis.
pub fn sees(f: Vec2, dx: i64, dy: i64, cos_num: i16, cos_den: u16) -> (r: bool)
    requires
        -65535 <= dx <= 65535,
        -65535 <= dy <= 65535,
    ensures
        r == in_view(f, dx as int, dy as int, cos_num as int, cos_den as int),
{
    if dx == 0 && dy == 0 {
        return true;
    }
    let fx = f.x as i128;
    let fy = f.y as i128;
    let ex = dx as i128;
    let ey = dy as i128;
    proof {
        lemma_abs_mul_bound(fx as int, ex as int, 0x8000_0000, 65535);
        lemma_abs_mul_bound(fy as int, ey as int, 0x8000_0000, 65535);
    }
    let d = fx * ex + fy * ey;
    proof {
        lemma_abs_mul_bound(d as int, cos_den as int, (0x8000_0000 * 65535 * 2) as int, 65535);
    }
    let l = d * (cos_den as i128);
    let cn = cos_num as i128;
    proof {
        lemma_sq_bound(fx as int, 0x8000_0000);
        lemma_sq_bound(fy as int, 0x8000_0000);
        lemma_sq_bound(ex as int, 65535);
        lemma_sq_bound(ey as int, 65535);
        lemma_sq_bound(cn as int, 0x8000);
    }
    let fn2 = (fx * fx + fy * fy) as u128;
    let dn2 = (ex * ex + ey * ey) as u128;
    let c2 = (cn * cn) as u128;
    proof {
        assert(fn2 <= 0x8000_0000u128 * 0x8000_0000 * 2) by (nonlinear_arith)
            requires fn2 == fx * fx + fy * fy, -0x8000_0000 <= fx <= 0x8000_0000,
                -0x8000_0000 <= fy <= 0x8000_0000;
        assert(dn2 <= 65535u128 * 65535 * 2) by (nonlinear_arith)
            requires dn2 == ex * ex + ey * ey, -65535 <= ex <= 65535, -65535 <= ey <= 65535;
        assert(c2 <= 0x8000u128 * 0x8000) by (nonlinear_arith)
            requires c2 == cn * cn, -0x8000 <= cn <= 0x8000;
        assert(fn2 * dn2 <= (0x8000_0000u128 * 0x8000_0000 * 2) * (65535u128 * 65535 * 2))
            by (nonlinear_arith)
            requires fn2 <= 0x8000_0000u128 * 0x8000_0000 * 2, dn2 <= 65535u128 * 65535 * 2;
        assert(fn2 * dn2 * c2 <= (0x8000_0000u128 * 0x8000_0000 * 2) * (65535u128 * 65535 * 2)
            * (0x8000u128 * 0x8000)) by (nonlinear_arith)
            requires fn2 * dn2 <= (0x8000_0000u128 * 0x8000_0000 * 2) * (65535u128 * 65535 * 2),
                c2 <= 0x8000u128 * 0x8000;
    }
    let r2 = fn2 * dn2 * c2;
    let ll: u128 = if l >= 0 { l as u128 } else { (-l) as u128 };
    proof {
        assert(ll * ll == l * l) by (nonlinear_arith) requires ll == l || ll == -l;
        assert(ll * ll < 0x1_0000_0000_0000_0000u128 * 0x1_0000_0000_0000_0000) by (nonlinear_arith)
            requires ll < 0x1_0000_0000_0000_0000u128;
    }
    let l2 = ll * ll;
    if cos_num >= 0 {
        l >= 0 && l2 >= r2
    } else {
        l >= 0 || l2 <= r2
    }
}

/// `0 <= a * a <= k * k` whenever `|a| <= k`.
pub proof fn lemma_sq_bound(a: int, k: int)
    requires
        -k <= a <= k,
    ensures
        0 <= a * a <= k * k,
{
    assert(0 <= a * a <= k * k) by (nonlinear_arith)
        requires -k <= a <= k;
}

/// A component of a vector no longer than `k` is within `[-k, k]`.
pub proof fn lemma_axis_within(a: int, b: int, k: int)
    requires
        0 <= k,
        a * a + b * b <= k * k,
    ensures
        -k <= a <= k,
{
    assert(-k <= a <= k) by (nonlinear_arith)
        requires 0 <= k, a * a + b * b <= k * k;
}

/// `|a * b| <= ka * kb` whenever `|a| <= ka` and `|b| <= kb`.
pub proof fn lemma_abs_mul_bound(a: int, b: int, ka: int, kb: int)
    requires
        -ka <= a <= ka,
        -kb <= b <= kb,
    ensures
        -(ka * kb) <= a * b <= ka * kb,
{
    assert(-(ka * kb) <= a * b <= ka * kb) by (nonlinear_arith)
        requires -ka <= a <= ka, -kb <= b <= kb;
}

/// A direction straight ahead is always in view; one straight behind is out
/// of view unless the field of view is the full circle (`cos = -1`).
pub proof fn lemma_ahead_and_behind(f: Vec2, k: int, cn: int, cd: int)
    requires
        f.x != 0 || f.y != 0,
        0 < k,
        0 < cd,
        -cd <= cn <= cd,
    ensures
        in_view(f, k * f.x, k * f.y, cn, cd),
        cn > -cd ==> !in_view(f, -k * f.x, -k * f.y, cn, cd),
{
    let fx = f.x as int;
    let fy = f.y as int;
    let n = norm_sq(fx, fy);
    assert(n > 0) by (nonlinear_arith)
        requires n == fx * fx + fy * fy, fx != 0 || fy != 0;
    assert(k * fx != 0 || k * fy != 0) by (nonlinear_arith)
        requires fx != 0 || fy != 0, k > 0;
    assert(-k * fx != 0 || -k * fy != 0) by (nonlinear_arith)
        requires fx != 0 || fy != 0, k > 0;
    assert(cn * cn <= cd * cd) by (nonlinear_arith)
        requires -cd <= cn <= cd;
    assert(dot(fx, fy, k * fx, k * fy) == k * n) by (nonlinear_arith)
        requires n == fx * fx + fy * fy;
    assert(dot(fx, fy, -k * fx, -k * fy) == -(k * n)) by (nonlinear_arith)
        requires n == fx * fx + fy * fy;
    assert(norm_sq(k * fx, k * fy) == k * k * n) by (nonlinear_arith)
        requires n == fx * fx + fy * fy;
    assert(norm_sq(-k * fx, -k * fy) == k * k * n) by (nonlinear_arith)
        requires n == fx * fx + fy * fy;
    let l = k * n * cd;
    assert(l > 0) by (nonlinear_arith)
        requires k > 0, n > 0, cd > 0, l == k * n * cd;
    assert(l * l >= n * (k * k * n) * (cn * cn)) by (nonlinear_arith)
        requires l == k * n * cd, cn * cn <= cd * cd, n > 0, k > 0;
    assert(-(k * n) * cd == -l) by (nonlinear_arith)
        requires l == k * n * cd;
    assert((-l) * (-l) == l * l) by (nonlinear_arith);
    if -cd < cn < 0 {
        assert(cn * cn < cd * cd) by (nonlinear_arith)
            requires -cd < cn < 0;
        assert(l * l > n * (k * k * n) * (cn * cn)) by (nonlinear_arith)
            requires l == k * n * cd, cn * cn < cd * cd, n > 0, k > 0;
    }
}

} // verus!
