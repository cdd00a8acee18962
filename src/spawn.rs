//! Initial placement and velocity of the agents.
use vstd::prelude::*;
use crate::geometry::Vec2;

verus! {

/// Fixed-point units in one world unit.
pub const UNIT: i32 = 1024;

/// An initial velocity.
#[derive(Clone, Copy, Debug, PartialEq, Eq, Structural)]
pub struct Velocity(pub Vec2);

/// Relies on rand's `Rng::random_range` on the thread-local generator
/// (`rand::rng()`): a value drawn from `low..high`; it panics on an empty range.
#[verifier::external_body]
fn draw(low: i32, high: i32) -> (r: i32)
    requires
        low < high,
    ensures
        low <= r < high,
{
    rand::Rng::random_range(&mut rand::rng(), low..high)
}

impl Velocity {
    /// A random velocity whose components each lie in `[-1, 1)` world units.
    pub fn random() -> (r: Velocity)
        ensures
            -UNIT <= r.0.x < UNIT,
            -UNIT <= r.0.y < UNIT,
    {
        let x = draw(-UNIT, UNIT);
        let y = draw(-UNIT, UNIT);
        Velocity(Vec2 { x, y })
    }
}

/// One coordinate of a spawn point: `fraction / 2^16` of `extent`, measured
/// from `-extent / 2`, rounded down.
pub open spec fn spawn_coord(fraction: int, extent: int) -> int {
    (fraction * extent) / 0x1_0000 - extent / 2
}

/// The spawn point for a point `(fx, fy) / 2^16` of the unit square (a term
/// of a low-discrepancy sequence), on a display `width` by `height` centred
/// on the origin.
pub fn spawn_position(fx: u16, fy: u16, width: u32, height: u32) -> (r: Vec2)
    requires
        width <= i32::MAX,
        height <= i32::MAX,
    ensures
        r.x == spawn_coord(fx as int, width as int),
        r.y == spawn_coord(fy as int, height as int),
{
    proof {
        assert(fx * width <= 0xFFFF * 0x7FFF_FFFFu64) by (nonlinear_arith)
            requires fx <= 0xFFFF, width <= 0x7FFF_FFFF;
        assert(fy * height <= 0xFFFF * 0x7FFF_FFFFu64) by (nonlinear_arith)
            requires fy <= 0xFFFF, height <= 0x7FFF_FFFF;
        assert((fx * width) / 0x1_0000 <= width) by (nonlinear_arith)
            requires fx <= 0xFFFF, width >= 0;
        assert((fy * height) / 0x1_0000 <= height) by (nonlinear_arith)
            requires fy <= 0xFFFF, height >= 0;
    }
    let x = ((fx as u64) * (width as u64) / 0x1_0000) as i64 - (width / 2) as i64;
    let y = ((fy as u64) * (height as u64) / 0x1_0000) as i64 - (height / 2) as i64;
    Vec2 { x: x as i32, y: y as i32 }
}

} // verus!
