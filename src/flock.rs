//! The flocking rule: how one agent's velocity change follows from its
//! neighbour candidates and the target point.
use vstd::prelude::*;
use vstd::arithmetic::div_mod::{lemma_div_non_zero, lemma_fundamental_div_mod, lemma_mod_pos_bound, lemma_div_by_multiple, lemma_div_is_ordered, lemma_div_is_ordered_by_denominator, lemma_div_pos_is_pos};
use crate::geometry::{Agent, Delta, Params, Vec2, Weight, dot, heading_of, in_view, lemma_abs_mul_bound, lemma_axis_within, lemma_sq_bound, norm_sq, sees};

verus! {

/// Bound on each component of a delta that `compute_delta` returns.
pub const DELTA_LIMIT: i64 = 0x10_0000_0000;

/// How a neighbour candidate takes part in an agent's rule.
#[derive(Clone, Copy, Debug, PartialEq, Eq, Structural)]
pub enum Class {
    /// The agent itself, a stale identity, out of range, or out of view.
    Ignored,
    /// Inside the protected range: separation.
    Close,
    /// Seen, outside the protected range: cohesion and alignment.
    Near,
}

/// What candidate `c` is to agent `me` in `store`.
pub open spec fn class_of(store: Seq<Agent>, me: int, c: int, p: Params) -> Class {
    if c == me || c < 0 || c >= store.len() {
        Class::Ignored
    } else {
        let a = store[me];
        let b = store[c];
        let dx = b.position.x - a.position.x;
        let dy = b.position.y - a.position.y;
        let d2 = norm_sq(dx, dy);
        if d2 > p.visual_range * p.visual_range {
            Class::Ignored
        } else if !in_view(heading_of(a.velocity), dx, dy, p.cos_num as int, p.cos_den as int) {
            Class::Ignored
        } else if d2 < p.protected_range * p.protected_range {
            Class::Close
        } else {
            Class::Near
        }
    }
}

/// The sums that a scan over candidates accumulates.
pub struct Tally {
    pub sep_x: int,
    pub sep_y: int,
    pub close: int,
    pub coh_x: int,
    pub coh_y: int,
    pub ali_x: int,
    pub ali_y: int,
    pub near: int,
}

pub open spec fn empty_tally() -> Tally {
    Tally { sep_x: 0, sep_y: 0, close: 0, coh_x: 0, coh_y: 0, ali_x: 0, ali_y: 0, near: 0 }
}

/// What candidate `c` adds to `t`: a close one adds the vector away from it,
/// a near one its offset and its velocity, an ignored one nothing.
pub open spec fn add_candidate(t: Tally, store: Seq<Agent>, me: int, c: int, p: Params) -> Tally {
    match class_of(store, me, c, p) {
        Class::Ignored => t,
        Class::Close => Tally {
            sep_x: t.sep_x - (store[c].position.x - store[me].position.x),
            sep_y: t.sep_y - (store[c].position.y - store[me].position.y),
            close: t.close + 1,
            ..t
        },
        Class::Near => Tally {
            coh_x: t.coh_x + (store[c].position.x - store[me].position.x),
            coh_y: t.coh_y + (store[c].position.y - store[me].position.y),
            ali_x: t.ali_x + store[c].velocity.x,
            ali_y: t.ali_y + store[c].velocity.y,
            near: t.near + 1,
            ..t
        },
    }
}

/// The sums over the candidates `s`, in order.
pub open spec fn tally(store: Seq<Agent>, me: int, s: Seq<usize>, p: Params) -> Tally
    decreases s.len(),
{
    if s.len() == 0 {
        empty_tally()
    } else {
        add_candidate(tally(store, me, s.drop_last(), p), store, me, s.last() as int, p)
    }
}

/// The candidates that are looked at: at most `neighbor_cap` of them.
pub open spec fn considered(s: Seq<usize>, p: Params) -> Seq<usize> {
    if s.len() <= p.neighbor_cap {
        s
    } else {
        s.take(p.neighbor_cap as int)
    }
}

/// Integer division rounding toward zero, for `b > 0`.
pub open spec fn div_trunc(a: int, b: int) -> int {
    if a >= 0 {
        a / b
    } else {
        -((-a) / b)
    }
}

/// `sum / count * w`, or nothing when nothing was counted.
pub open spec fn mean_term(sum: int, count: int, w: Weight) -> int {
    if count > 0 {
        div_trunc(sum * w.num, count * w.den)
    } else {
        0
    }
}

/// Integer division rounding away from zero, for `b > 0`: nonzero whenever
/// `a` is.
pub open spec fn div_away(a: int, b: int) -> int {
    if a >= 0 {
        (a + b - 1) / b
    } else {
        -(((-a) + b - 1) / b)
    }
}

/// `sum / count * w` rounded away from zero, or nothing when nothing was
/// counted: the separation term, which never vanishes while a close
/// neighbour pushes (and `w` is not zero).
pub open spec fn push_term(sum: int, count: int, w: Weight) -> int {
    if count > 0 {
        div_away(sum * w.num, count * w.den)
    } else {
        0
    }
}

/// `offset * w`.
pub open spec fn scaled(offset: int, w: Weight) -> int {
    div_trunc(offset * w.num, w.den as int)
}

/// The pull toward the target on one axis, or nothing without a target.
pub open spec fn chase_term(from: int, target: Option<int>, w: Weight) -> int {
    match target {
        Some(t) => scaled(t - from, w),
        None => 0,
    }
}

/// One axis of the velocity change: cohesion, alignment, separation, chase.
pub open spec fn axis_delta(coh: int, ali: int, sep: int, t: Tally, from: int, target: Option<int>, p: Params) -> int {
    mean_term(coh, t.near, p.centering) + mean_term(ali, t.near, p.matching)
        + push_term(sep, t.close, p.avoidance) + chase_term(from, target, p.chase)
}

/// The velocity change of agent `me`, x component.
pub open spec fn delta_x(store: Seq<Agent>, me: int, s: Seq<usize>, target: Option<Vec2>, p: Params) -> int {
    let t = tally(store, me, considered(s, p), p);
    axis_delta(t.coh_x, t.ali_x, t.sep_x, t, store[me].position.x as int,
        match target { Some(v) => Some(v.x as int), None => None }, p)
}

/// The velocity change of agent `me`, y component.
pub open spec fn delta_y(store: Seq<Agent>, me: int, s: Seq<usize>, target: Option<Vec2>, p: Params) -> int {
    let t = tally(store, me, considered(s, p), p);
    axis_delta(t.coh_y, t.ali_y, t.sep_y, t, store[me].position.y as int,
        match target { Some(v) => Some(v.y as int), None => None }, p)
}

/// How candidate `c` takes part in the rule of agent `me`. A stale identity
/// (no agent under it) and the agent itself are ignored.
pub fn classify(store: &Vec<Agent>, me: usize, c: usize, p: &Params) -> (r: Class)
    requires
        me < store.len(),
        p.wf(),
    ensures
        r == class_of(store@, me as int, c as int, *p),
{
    if c == me || c >= store.len() {
        return Class::Ignored;
    }
    let a = store[me];
    let b = store[c];
    let dx = b.position.x as i64 - a.position.x as i64;
    let dy = b.position.y as i64 - a.position.y as i64;
    proof {
        lemma_sq_bound(dx as int, 0x1_0000_0000);
        lemma_sq_bound(dy as int, 0x1_0000_0000);
    }
    let d2 = (dx as i128) * (dx as i128) + (dy as i128) * (dy as i128);
    let vr = p.visual_range as i128;
    let pr = p.protected_range as i128;
    proof {
        lemma_sq_bound(vr as int, 65535);
        lemma_sq_bound(pr as int, 65535);
    }
    if d2 > vr * vr {
        return Class::Ignored;
    }
    proof {
        lemma_axis_within(dx as int, dy as int, vr as int);
        lemma_axis_within(dy as int, dx as int, vr as int);
    }
    if !sees(a.heading(), dx, dy, p.cos_num, p.cos_den) {
        return Class::Ignored;
    }
    if d2 < pr * pr {
        Class::Close
    } else {
        Class::Near
    }
}

/// `|mean_term(sum, count, w)| <= k` when each of the `count` summed values
/// lies within `[-k, k]`: a mean of them, weighted by at most one.
pub proof fn lemma_mean_bound(sum: int, count: int, w: Weight, k: int)
    requires
        w.wf(),
        0 < count,
        0 <= k,
        -(count * k) <= sum <= count * k,
    ensures
        -k <= mean_term(sum, count, w) <= k,
{
    let b = count * w.den;
    let x = if sum >= 0 { sum * w.num } else { (-sum) * w.num };
    assert(0 < b) by (nonlinear_arith)
        requires 0 < count, 0 < w.den, b == count * w.den;
    assert(0 <= x <= k * b) by (nonlinear_arith)
        requires x == (if sum >= 0 { sum * w.num } else { (-sum) * w.num }),
            -(count * k) <= sum <= count * k, 0 <= w.num <= w.den, b == count * w.den, 0 <= k;
    lemma_div_is_ordered(x, k * b, b);
    lemma_div_by_multiple(k, b);
    lemma_div_pos_is_pos(x, b);
    assert(sum * w.num >= 0 <==> (sum >= 0 || sum * w.num == 0)) by (nonlinear_arith)
        requires w.num >= 0;
    if sum < 0 && sum * w.num == 0 {
        assert(x == 0) by (nonlinear_arith)
            requires x == (-sum) * w.num, sum * w.num == 0;
    }
    if sum < 0 {
        assert(-(sum * w.num) == x) by (nonlinear_arith)
            requires x == (-sum) * w.num;
    }
}

/// `|push_term(sum, count, w)| <= k` when each of the `count` summed values
/// lies within `[-k, k]`.
pub proof fn lemma_push_bound(sum: int, count: int, w: Weight, k: int)
    requires
        w.wf(),
        0 < count,
        0 <= k,
        -(count * k) <= sum <= count * k,
    ensures
        -k <= push_term(sum, count, w) <= k,
{
    let b = count * w.den;
    let x = if sum >= 0 { sum * w.num } else { (-sum) * w.num };
    assert(0 < b) by (nonlinear_arith)
        requires 0 < count, 0 < w.den, b == count * w.den;
    assert(0 <= x <= k * b) by (nonlinear_arith)
        requires x == (if sum >= 0 { sum * w.num } else { (-sum) * w.num }),
            -(count * k) <= sum <= count * k, 0 <= w.num <= w.den, b == count * w.den, 0 <= k;
    lemma_ceil_bound(x, b, k);
    if sum < 0 {
        assert(-(sum * w.num) == x) by (nonlinear_arith)
            requires x == (-sum) * w.num;
    } else {
        assert(sum * w.num >= 0) by (nonlinear_arith)
            requires sum >= 0, w.num >= 0;
    }
}

/// `0 <= (x + b - 1) / b <= k` for `0 <= x <= k b`.
proof fn lemma_ceil_bound(x: int, b: int, k: int)
    requires
        0 < b,
        0 <= x <= k * b,
    ensures
        0 <= (x + b - 1) / b <= k,
{
    lemma_fundamental_div_mod(x + b - 1, b);
    lemma_mod_pos_bound(x + b - 1, b);
    lemma_div_pos_is_pos(x + b - 1, b);
    let q = (x + b - 1) / b;
    if q > k {
        assert(b * q >= b * (k + 1)) by (nonlinear_arith)
            requires q >= k + 1, b > 0;
        assert(false) by (nonlinear_arith)
            requires x + b - 1 == b * q + (x + b - 1) % b, (x + b - 1) % b >= 0,
                b * q >= b * (k + 1), x <= k * b;
    }
}

/// `div_away(a, b)`.
fn div_from_zero(a: i128, b: i128) -> (r: i128)
    requires
        0 < b <= 0x1_0000_0000,
        -0x1_0000_0000_0000_0000_0000 <= a <= 0x1_0000_0000_0000_0000_0000,
    ensures
        r == div_away(a as int, b as int),
{
    if a >= 0 {
        proof {
            lemma_div_is_ordered_by_denominator(a + b - 1, 1, b as int);
        }
        ((a as u128 + b as u128 - 1) / (b as u128)) as i128
    } else {
        proof {
            lemma_div_is_ordered_by_denominator(-a + b - 1, 1, b as int);
        }
        -((((-a) as u128 + b as u128 - 1) / (b as u128)) as i128)
    }
}

/// `push_term(sum, count, w)` for a sum of `count` values within `[-2^32, 2^32]`.
fn push(sum: i64, count: u64, w: Weight) -> (r: i64)
    requires
        w.wf(),
        count <= 65535,
        -(count * 0x1_0000_0000) <= sum <= count * 0x1_0000_0000,
    ensures
        r == push_term(sum as int, count as int, w),
{
    if count == 0 {
        return 0;
    }
    proof {
        lemma_push_bound(sum as int, count as int, w, 0x1_0000_0000);
        lemma_abs_mul_bound(sum as int, w.num as int, (0x1_0000_0000 * 65535) as int, 65535);
        assert(0 < count * w.den <= 65535 * 65535) by (nonlinear_arith)
            requires 0 < count <= 65535, 0 < w.den <= 65535;
    }
    let a = (sum as i128) * (w.num as i128);
    let b = (count as i128) * (w.den as i128);
    div_from_zero(a, b) as i64
}

/// `div_trunc(a, b)`.
fn div_toward_zero(a: i128, b: i128) -> (r: i128)
    requires
        0 < b,
        -0x1_0000_0000_0000_0000_0000 <= a <= 0x1_0000_0000_0000_0000_0000,
    ensures
        r == div_trunc(a as int, b as int),
{
    if a >= 0 {
        proof {
            lemma_div_is_ordered_by_denominator(a as int, 1, b as int);
        }
        ((a as u128) / (b as u128)) as i128
    } else {
        proof {
            lemma_div_is_ordered_by_denominator(-a as int, 1, b as int);
        }
        -((((-a) as u128) / (b as u128)) as i128)
    }
}

/// `mean_term(sum, count, w)` for a sum of `count` values within `[-2^32, 2^32]`.
fn mean(sum: i64, count: u64, w: Weight) -> (r: i64)
    requires
        w.wf(),
        count <= 65535,
        -(count * 0x1_0000_0000) <= sum <= count * 0x1_0000_0000,
    ensures
        r == mean_term(sum as int, count as int, w),
{
    if count == 0 {
        return 0;
    }
    proof {
        lemma_mean_bound(sum as int, count as int, w, 0x1_0000_0000);
        lemma_abs_mul_bound(sum as int, w.num as int, (0x1_0000_0000 * 65535) as int, 65535);
        assert(0 < count * w.den <= 65535 * 65535) by (nonlinear_arith)
            requires 0 < count <= 65535, 0 < w.den <= 65535;
    }
    let a = (sum as i128) * (w.num as i128);
    let b = (count as i128) * (w.den as i128);
    div_toward_zero(a, b) as i64
}

/// The velocity change of agent `me`: its rule applied to the first
/// `neighbor_cap` of `candidates` (identities into `store`), plus the pull
/// toward `target` when there is one.
pub fn compute_delta(store: &Vec<Agent>, me: usize, candidates: &Vec<usize>, target: Option<Vec2>, p: &Params) -> (r: Delta)
    requires
        me < store.len(),
        p.wf(),
    ensures
        r.x == delta_x(store@, me as int, candidates@, target, *p),
        r.y == delta_y(store@, me as int, candidates@, target, *p),
        -DELTA_LIMIT <= r.x <= DELTA_LIMIT,
        -DELTA_LIMIT <= r.y <= DELTA_LIMIT,
{
    let n: usize = if candidates.len() <= p.neighbor_cap as usize {
        candidates.len()
    } else {
        p.neighbor_cap as usize
    };
    proof {
        if candidates.len() <= p.neighbor_cap {
            assert(candidates@.take(n as int) =~= candidates@);
        }
    }
    let me_pos = store[me].position;
    let mut sep_x: i64 = 0;
    let mut sep_y: i64 = 0;
    let mut close: u64 = 0;
    let mut coh_x: i64 = 0;
    let mut coh_y: i64 = 0;
    let mut ali_x: i64 = 0;
    let mut ali_y: i64 = 0;
    let mut near: u64 = 0;
    let mut i: usize = 0;
    while i < n
        invariant
            n <= candidates.len(),
            n <= 65535,
            i <= n,
            me < store.len(),
            me_pos == store@[me as int].position,
            p.wf(),
            considered(candidates@, *p) == candidates@.take(n as int),
            tally(store@, me as int, candidates@.take(i as int), *p) == (Tally {
                sep_x: sep_x as int,
                sep_y: sep_y as int,
                close: close as int,
                coh_x: coh_x as int,
                coh_y: coh_y as int,
                ali_x: ali_x as int,
                ali_y: ali_y as int,
                near: near as int,
            }),
            close + near <= i,
            -(close * 65535) <= sep_x <= close * 65535,
            -(close * 65535) <= sep_y <= close * 65535,
            -(near * 65535) <= coh_x <= near * 65535,
            -(near * 65535) <= coh_y <= near * 65535,
            -(near * 0x8000_0000) <= ali_x <= near * 0x8000_0000,
            -(near * 0x8000_0000) <= ali_y <= near * 0x8000_0000,
        decreases n - i,
    {
        let c = candidates[i];
        proof {
            assert(candidates@.take(i + 1).drop_last() =~= candidates@.take(i as int));
            assert(candidates@.take(i + 1).last() == c);
        }
        let class = classify(store, me, c, p);
        match class {
            Class::Ignored => {},
            Class::Close => {
                let other = store[c];
                let dx = other.position.x as i64 - me_pos.x as i64;
                let dy = other.position.y as i64 - me_pos.y as i64;
                proof {
                    lemma_axis_within(dx as int, dy as int, p.visual_range as int);
                    lemma_axis_within(dy as int, dx as int, p.visual_range as int);
                }
                sep_x = sep_x - dx;
                sep_y = sep_y - dy;
                close = close + 1;
            },
            Class::Near => {
                let other = store[c];
                let dx = other.position.x as i64 - me_pos.x as i64;
                let dy = other.position.y as i64 - me_pos.y as i64;
                proof {
                    lemma_axis_within(dx as int, dy as int, p.visual_range as int);
                    lemma_axis_within(dy as int, dx as int, p.visual_range as int);
                }
                coh_x = coh_x + dx;
                coh_y = coh_y + dy;
                ali_x = ali_x + other.velocity.x as i64;
                ali_y = ali_y + other.velocity.y as i64;
                near = near + 1;
            },
        }
        i = i + 1;
    }
    proof {
        assert(near * 65535 <= near * 0x1_0000_0000) by (nonlinear_arith)
            requires near >= 0;
        assert(near * 0x8000_0000 <= near * 0x1_0000_0000) by (nonlinear_arith)
            requires near >= 0;
        assert(close * 65535 <= close * 0x1_0000_0000) by (nonlinear_arith)
            requires close >= 0;
        if near > 0 {
            lemma_mean_bound(coh_x as int, near as int, p.centering, 65535);
            lemma_mean_bound(coh_y as int, near as int, p.centering, 65535);
            lemma_mean_bound(ali_x as int, near as int, p.matching, 0x8000_0000);
            lemma_mean_bound(ali_y as int, near as int, p.matching, 0x8000_0000);
        }
        if close > 0 {
            lemma_push_bound(sep_x as int, close as int, p.avoidance, 65535);
            lemma_push_bound(sep_y as int, close as int, p.avoidance, 65535);
        }
    }
    let (chase_x, chase_y) = match target {
        Some(t) => {
            let ox = t.x as i64 - me_pos.x as i64;
            let oy = t.y as i64 - me_pos.y as i64;
            proof {
                lemma_mean_bound(ox as int, 1, p.chase, 0x1_0000_0000);
                lemma_mean_bound(oy as int, 1, p.chase, 0x1_0000_0000);
            }
            (mean(ox, 1, p.chase), mean(oy, 1, p.chase))
        },
        None => (0i64, 0i64),
    };
    let x = mean(coh_x, near, p.centering) + mean(ali_x, near, p.matching) + push(sep_x, close, p.avoidance) + chase_x;
    let y = mean(coh_y, near, p.centering) + mean(ali_y, near, p.matching) + push(sep_y, close, p.avoidance) + chase_y;
    Delta { x, y }
}

/// With no candidates and no target the velocity change is zero.
pub proof fn lemma_alone_is_still(store: Seq<Agent>, me: int, p: Params)
    ensures
        delta_x(store, me, Seq::empty(), None, p) == 0,
        delta_y(store, me, Seq::empty(), None, p) == 0,
{
    assert(considered(Seq::<usize>::empty(), p) =~= Seq::empty());
}

/// A candidate beyond the visual range adds nothing: appending it to the
/// candidates leaves the velocity change as it was.
pub proof fn lemma_out_of_range_adds_nothing(store: Seq<Agent>, me: int, s: Seq<usize>, c: usize, target: Option<Vec2>, p: Params)
    requires
        0 <= me < store.len(),
        c < store.len(),
        norm_sq(store[c as int].position.x - store[me].position.x,
            store[c as int].position.y - store[me].position.y) > p.visual_range * p.visual_range,
    ensures
        delta_x(store, me, s.push(c), target, p) == delta_x(store, me, s, target, p),
        delta_y(store, me, s.push(c), target, p) == delta_y(store, me, s, target, p),
{
    assert(class_of(store, me, c as int, p) == Class::Ignored);
    if s.len() < p.neighbor_cap {
        assert(considered(s.push(c), p) == s.push(c));
        assert(s.push(c).drop_last() =~= s);
    } else {
        assert(considered(s.push(c), p) =~= considered(s, p));
    }
}

/// A candidate inside the protected range adds `-d` to the separation sum,
/// where `d` is the offset to it: a term pointing away from it.
pub proof fn lemma_close_pushes_away(store: Seq<Agent>, me: int, s: Seq<usize>, c: usize, p: Params)
    requires
        class_of(store, me, c as int, p) == Class::Close,
    ensures
        ({
            let dx = store[c as int].position.x - store[me].position.x;
            let dy = store[c as int].position.y - store[me].position.y;
            let before = tally(store, me, s, p);
            let after = tally(store, me, s.push(c), p);
            &&& after.sep_x == before.sep_x - dx
            &&& after.sep_y == before.sep_y - dy
            &&& after.close == before.close + 1
            &&& (dx != 0 || dy != 0) ==> dot(after.sep_x - before.sep_x, after.sep_y - before.sep_y, dx, dy) < 0
        }),
{
    let dx = store[c as int].position.x - store[me].position.x;
    let dy = store[c as int].position.y - store[me].position.y;
    assert(s.push(c).drop_last() =~= s);
    if dx != 0 || dy != 0 {
        assert(dot(-dx, -dy, dx, dy) < 0) by (nonlinear_arith)
            requires dx != 0 || dy != 0;
    }
}

/// The separation term of one offset `o` opposes it: positive for a
/// negative offset, negative for a positive one, zero only for zero.
pub proof fn lemma_push_opposes(o: int, w: Weight)
    requires
        w.wf(),
        0 < w.num,
    ensures
        o > 0 ==> push_term(-o, 1, w) < 0,
        o < 0 ==> push_term(-o, 1, w) > 0,
        o == 0 ==> push_term(-o, 1, w) == 0,
{
    let b = w.den as int;
    if o > 0 {
        assert(o * w.num >= 1) by (nonlinear_arith)
            requires o > 0, w.num > 0;
        assert((-o) * w.num == -(o * w.num)) by (nonlinear_arith);
        lemma_div_non_zero(o * w.num + b - 1, b);
    } else if o < 0 {
        assert((-o) * w.num >= 1) by (nonlinear_arith)
            requires o < 0, w.num > 0;
        lemma_div_non_zero((-o) * w.num + b - 1, b);
    } else {
        assert((b - 1) / b == 0) by {
            vstd::arithmetic::div_mod::lemma_basic_div(b - 1, b);
        }
    }
}

/// A lone close neighbour pushes the agent straight away from it: with that
/// neighbour as the only candidate and no target, the velocity change is the
/// weighted offset `-d` (rounded away from zero), which is nonzero and points
/// away from the neighbour, whatever the velocities are.
pub proof fn lemma_lone_close_neighbor_pushes_away(store: Seq<Agent>, me: int, c: usize, p: Params)
    requires
        p.wf(),
        0 < p.neighbor_cap,
        0 < p.avoidance.num,
        0 <= me < store.len(),
        class_of(store, me, c as int, p) == Class::Close,
        store[c as int].position != store[me].position,
    ensures
        ({
            let dx = store[c as int].position.x - store[me].position.x;
            let dy = store[c as int].position.y - store[me].position.y;
            let rx = delta_x(store, me, seq![c], None, p);
            let ry = delta_y(store, me, seq![c], None, p);
            &&& rx == push_term(-dx, 1, p.avoidance)
            &&& ry == push_term(-dy, 1, p.avoidance)
            &&& (rx != 0 || ry != 0)
            &&& dot(rx, ry, dx, dy) < 0
        }),
{
    let dx = store[c as int].position.x - store[me].position.x;
    let dy = store[c as int].position.y - store[me].position.y;
    let s = seq![c];
    assert(considered(s, p) == s);
    assert(s.drop_last() =~= Seq::<usize>::empty());
    assert(s.last() == c);
    assert(tally(store, me, s.drop_last(), p) == empty_tally());
    let t = tally(store, me, s, p);
    assert(t.near == 0 && t.close == 1 && t.sep_x == -dx && t.sep_y == -dy);
    lemma_push_opposes(dx, p.avoidance);
    lemma_push_opposes(dy, p.avoidance);
    let rx = push_term(-dx, 1, p.avoidance);
    let ry = push_term(-dy, 1, p.avoidance);
    assert(dx != 0 || dy != 0);
    assert(rx * dx + ry * dy < 0) by (nonlinear_arith)
        requires dx > 0 ==> rx < 0, dx < 0 ==> rx > 0, dx == 0 ==> rx == 0,
            dy > 0 ==> ry < 0, dy < 0 ==> ry > 0, dy == 0 ==> ry == 0, dx != 0 || dy != 0;
}

/// Two agents inside each other's protected range, each in the other's view
/// and with only the other as candidate, are pushed apart: each change is the
/// separation term alone (no cohesion, no alignment), nonzero, and points away
/// from the other agent.
pub proof fn lemma_close_pair_separates(store: Seq<Agent>, a: usize, b: usize, p: Params)
    requires
        p.wf(),
        0 < p.neighbor_cap,
        0 < p.avoidance.num,
        a < store.len(),
        b < store.len(),
        class_of(store, a as int, b as int, p) == Class::Close,
        class_of(store, b as int, a as int, p) == Class::Close,
        store[a as int].position != store[b as int].position,
    ensures
        ({
            let dx = store[b as int].position.x - store[a as int].position.x;
            let dy = store[b as int].position.y - store[a as int].position.y;
            let ax = delta_x(store, a as int, seq![b], None, p);
            let ay = delta_y(store, a as int, seq![b], None, p);
            let bx = delta_x(store, b as int, seq![a], None, p);
            let by = delta_y(store, b as int, seq![a], None, p);
            &&& ax == push_term(-dx, 1, p.avoidance) && ay == push_term(-dy, 1, p.avoidance)
            &&& bx == push_term(dx, 1, p.avoidance) && by == push_term(dy, 1, p.avoidance)
            &&& (ax != 0 || ay != 0) && (bx != 0 || by != 0)
            &&& dot(ax, ay, dx, dy) < 0
            &&& dot(bx, by, -dx, -dy) < 0
        }),
{
    lemma_lone_close_neighbor_pushes_away(store, a as int, b, p);
    lemma_lone_close_neighbor_pushes_away(store, b as int, a, p);
    let dx = store[b as int].position.x - store[a as int].position.x;
    let dy = store[b as int].position.y - store[a as int].position.y;
    assert(-(-dx) == dx && -(-dy) == dy);
}

} // verus!
