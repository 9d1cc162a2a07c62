//! One agent of the flock, and the five steering rules that act on it.

use vstd::prelude::*;

use crate::arith::{
    ceil_sqrt, ceil_sqrt_u128, div_toward_zero, lemma_ceil_sqrt, lemma_trunc_div_bound,
    lemma_trunc_div_mul, trunc_div,
};

verus! {

/// Thousandths of a pixel in one pixel: the unit of every coordinate.
pub const SCALE: i64 = 1000;

/// Largest speed an agent keeps after the speed rule (400 px/s).
pub const SPEED_LIMIT: i64 = 400_000;

/// Radius within which other agents count for cohesion and alignment (32 px).
pub const VISUAL_RANGE: i64 = 32_000;

/// Radius within which other agents push an agent away (16 px).
pub const MIN_DISTANCE: i64 = 16_000;

/// Separation scales the summed offsets by one over this (factor 0.5).
pub const SEPARATION_DIVISOR: i64 = 2;

/// Cohesion moves toward the centre by one over this of the way (factor 0.05).
pub const COHESION_DIVISOR: i64 = 20;

/// Alignment moves toward the mean velocity by one over this (factor 0.1).
pub const ALIGNMENT_DIVISOR: i64 = 10;

/// Distance from a window edge at which containment starts (40 px).
pub const EDGE_BUFFER: i64 = 40_000;

/// Velocity nudge of containment (16 px/s).
pub const TURN_FACTOR: i64 = 16_000;

/// Damping of an axis pushed from one side only: times `DAMPING_NUM / DAMPING_DEN` (0.8).
pub const DAMPING_NUM: i64 = 4;

/// See `DAMPING_NUM`.
pub const DAMPING_DEN: i64 = 5;

/// Agents closer than this to the cursor are pushed away from it (20 px).
pub const CURSOR_AVOID_RADIUS: i64 = 20_000;

/// Number of agents spawned when a session starts.
pub const AGENT_COUNT: usize = 100;

/// Bound on every stored coordinate and velocity component (about 1.1e9 px).
pub const COORD_LIMIT: i64 = 0x100_0000_0000;

/// Bound on a velocity component while the steering rules run.
pub const STEER_LIMIT: i64 = 0x1_0000_0000_0000;

/// Largest number of agents a flock may hold.
pub const MAX_FLOCK: usize = 0xFFFF_FFFF;

/// Most that separation can change one velocity component.
pub const SEPARATION_SWING: i64 = 34_359_738_368_000;

/// Length of a containment nudge on both axes at once (`TURN_FACTOR` times the
/// square root of two, rounded up).
pub const DIAGONAL_TURN: i64 = 22_628;

/// Speed bound after all five rules: `SPEED_LIMIT`, plus a containment nudge
/// on both axes, plus the largest cursor push.
pub const SPEED_BOUND_AFTER_STEERING: i64 = 442_628;

/// The steering rules, in the order in which one tick applies them.
#[derive(Clone, Copy, Debug, PartialEq, Eq)]
pub enum BoidAction {
    /// Move away from agents that are too close.
    AvoidOthers,
    /// Steer toward the centre of nearby agents.
    FlyTowardsCenter,
    /// Steer toward the mean velocity of nearby agents.
    MatchVelocity,
    /// Cap the speed.
    LimitSpeed,
    /// Turn back from the window edges and away from the cursor.
    KeepWithinBounds,
}

/// An RGBA colour, used only for drawing.
#[derive(Clone, Copy, Debug, PartialEq, Eq)]
pub struct Color {
    pub r: u8,
    pub g: u8,
    pub b: u8,
    pub a: u8,
}

/// A point in thousandths of a pixel, such as the cursor position.
#[derive(Clone, Copy, Debug, PartialEq, Eq)]
pub struct Point {
    pub x: i64,
    pub y: i64,
}

/// The window size in thousandths of a pixel.
#[derive(Clone, Copy, Debug, PartialEq, Eq)]
pub struct WorldBounds {
    pub width: i64,
    pub height: i64,
}

/// One agent: position in thousandths of a pixel, velocity in thousandths of a
/// pixel per second, and a colour that only drawing reads.
#[derive(Clone, Copy, Debug, PartialEq, Eq)]
pub struct Boid {
    pub x: i64,
    pub y: i64,
    pub dx: i64,
    pub dy: i64,
    pub color: Color,
}

pub open spec fn bounded(v: int, b: int) -> bool {
    -b <= v <= b
}

pub open spec fn abs(v: int) -> int {
    if v < 0 {
        -v
    } else {
        v
    }
}

impl Point {
    pub open spec fn wf(self) -> bool {
        bounded(self.x as int, COORD_LIMIT as int) && bounded(self.y as int, COORD_LIMIT as int)
    }
}

impl WorldBounds {
    pub open spec fn wf(self) -> bool {
        0 <= self.width <= COORD_LIMIT && 0 <= self.height <= COORD_LIMIT
    }
}

/// Squared Euclidean distance between two points.
pub open spec fn dist_sq(ax: int, ay: int, bx: int, by: int) -> int {
    (ax - bx) * (ax - bx) + (ay - by) * (ay - by)
}

/// The two points lie strictly closer than `r`.
pub open spec fn within(ax: int, ay: int, bx: int, by: int, r: int) -> bool {
    dist_sq(ax, ay, bx, by) < r * r
}

impl Boid {
    /// Position within the coordinate bound.
    pub open spec fn placed(self) -> bool {
        bounded(self.x as int, COORD_LIMIT as int) && bounded(self.y as int, COORD_LIMIT as int)
    }

    /// Position and velocity within the coordinate bound.
    pub open spec fn wf(self) -> bool {
        self.placed() && bounded(self.dx as int, COORD_LIMIT as int) && bounded(
            self.dy as int,
            COORD_LIMIT as int,
        )
    }

    /// Velocity within the bound that the steering rules accept.
    pub open spec fn steerable(self) -> bool {
        self.placed() && bounded(self.dx as int, STEER_LIMIT as int) && bounded(
            self.dy as int,
            STEER_LIMIT as int,
        )
    }

    pub open spec fn with_velocity(self, dx: int, dy: int) -> Boid {
        Boid { x: self.x, y: self.y, dx: dx as i64, dy: dy as i64, color: self.color }
    }

    pub open spec fn speed_sq(self) -> int {
        self.dx * self.dx + self.dy * self.dy
    }

    /// `other` lies strictly closer than `r`.
    pub open spec fn near(self, other: Boid, r: int) -> bool {
        within(self.x as int, self.y as int, other.x as int, other.y as int, r)
    }

    /// `other` lies closer than `MIN_DISTANCE` but not on the same spot.
    pub open spec fn crowded_by(self, other: Boid) -> bool {
        self.near(other, MIN_DISTANCE as int) && dist_sq(
            self.x as int,
            self.y as int,
            other.x as int,
            other.y as int,
        ) > 0
    }
}

/// Every agent is well formed and the flock is not too large.
pub open spec fn flock_wf(s: Seq<Boid>) -> bool {
    s.len() <= MAX_FLOCK && forall|i: int| 0 <= i < s.len() ==> #[trigger] s[i].wf()
}

/// Sum over crowding agents of the offset from them, on the x axis.
pub open spec fn crowding_sum_x(b: Boid, s: Seq<Boid>) -> int
    decreases s.len(),
{
    if s.len() == 0 {
        0
    } else {
        crowding_sum_x(b, s.drop_last()) + if b.crowded_by(s.last()) {
            b.x - s.last().x
        } else {
            0
        }
    }
}

/// Sum over crowding agents of the offset from them, on the y axis.
pub open spec fn crowding_sum_y(b: Boid, s: Seq<Boid>) -> int
    decreases s.len(),
{
    if s.len() == 0 {
        0
    } else {
        crowding_sum_y(b, s.drop_last()) + if b.crowded_by(s.last()) {
            b.y - s.last().y
        } else {
            0
        }
    }
}

/// Number of agents closer than `r`.
pub open spec fn neighbor_count(b: Boid, s: Seq<Boid>, r: int) -> int
    decreases s.len(),
{
    if s.len() == 0 {
        0
    } else {
        neighbor_count(b, s.drop_last(), r) + if b.near(s.last(), r) {
            1int
        } else {
            0
        }
    }
}

/// Sum of the x offsets to agents closer than `r`.
pub open spec fn offset_sum_x(b: Boid, s: Seq<Boid>, r: int) -> int
    decreases s.len(),
{
    if s.len() == 0 {
        0
    } else {
        offset_sum_x(b, s.drop_last(), r) + if b.near(s.last(), r) {
            s.last().x - b.x
        } else {
            0
        }
    }
}

/// Sum of the y offsets to agents closer than `r`.
pub open spec fn offset_sum_y(b: Boid, s: Seq<Boid>, r: int) -> int
    decreases s.len(),
{
    if s.len() == 0 {
        0
    } else {
        offset_sum_y(b, s.drop_last(), r) + if b.near(s.last(), r) {
            s.last().y - b.y
        } else {
            0
        }
    }
}

/// Sum of the x velocities of agents closer than `r`.
pub open spec fn velocity_sum_x(b: Boid, s: Seq<Boid>, r: int) -> int
    decreases s.len(),
{
    if s.len() == 0 {
        0
    } else {
        velocity_sum_x(b, s.drop_last(), r) + if b.near(s.last(), r) {
            s.last().dx as int
        } else {
            0
        }
    }
}

/// Sum of the y velocities of agents closer than `r`.
pub open spec fn velocity_sum_y(b: Boid, s: Seq<Boid>, r: int) -> int
    decreases s.len(),
{
    if s.len() == 0 {
        0
    } else {
        velocity_sum_y(b, s.drop_last(), r) + if b.near(s.last(), r) {
            s.last().dy as int
        } else {
            0
        }
    }
}

/// Separation: add half the summed offsets from every crowding agent.
pub open spec fn separated(b: Boid, s: Seq<Boid>) -> Boid {
    b.with_velocity(
        b.dx + trunc_div(crowding_sum_x(b, s), SEPARATION_DIVISOR as int),
        b.dy + trunc_div(crowding_sum_y(b, s), SEPARATION_DIVISOR as int),
    )
}

/// Cohesion: move a twentieth of the way toward the centre of the agents in
/// visual range; nothing when there are none.
pub open spec fn centered(b: Boid, s: Seq<Boid>) -> Boid {
    let n = neighbor_count(b, s, VISUAL_RANGE as int);
    if n == 0 {
        b
    } else {
        b.with_velocity(
            b.dx + trunc_div(offset_sum_x(b, s, VISUAL_RANGE as int), n * COHESION_DIVISOR),
            b.dy + trunc_div(offset_sum_y(b, s, VISUAL_RANGE as int), n * COHESION_DIVISOR),
        )
    }
}

/// Alignment: move a tenth of the way toward the mean velocity of the agents
/// in visual range; nothing when there are none.
pub open spec fn matched(b: Boid, s: Seq<Boid>) -> Boid {
    let n = neighbor_count(b, s, VISUAL_RANGE as int);
    if n == 0 {
        b
    } else {
        b.with_velocity(
            b.dx + trunc_div(
                velocity_sum_x(b, s, VISUAL_RANGE as int) - n * b.dx,
                n * ALIGNMENT_DIVISOR,
            ),
            b.dy + trunc_div(
                velocity_sum_y(b, s, VISUAL_RANGE as int) - n * b.dy,
                n * ALIGNMENT_DIVISOR,
            ),
        )
    }
}

/// Speed limiting: above `SPEED_LIMIT`, scale the velocity by the limit over
/// the speed (rounded up), each component rounded toward zero.
pub open spec fn speed_limited(b: Boid) -> Boid {
    let n = b.speed_sq();
    if n <= SPEED_LIMIT * SPEED_LIMIT {
        b
    } else {
        let s = ceil_sqrt(n as nat) as int;
        b.with_velocity(trunc_div(b.dx * SPEED_LIMIT, s), trunc_div(b.dy * SPEED_LIMIT, s))
    }
}

/// Containment on one axis: a `TURN_FACTOR` nudge up within `EDGE_BUFFER`
/// of the low edge, a nudge down within `EDGE_BUFFER` of the high edge, each
/// edge tested on its own; when neither edge pushed, damping instead.
pub open spec fn edge_push(p: int, v: int, extent: int) -> int {
    let low = p < EDGE_BUFFER;
    let high = p > extent - EDGE_BUFFER;
    if !low && !high {
        trunc_div(v * DAMPING_NUM, DAMPING_DEN as int)
    } else {
        v + (if low {
            TURN_FACTOR as int
        } else {
            0
        }) - (if high {
            TURN_FACTOR as int
        } else {
            0
        })
    }
}

/// Containment on both axes, then a push away from a cursor within
/// `CURSOR_AVOID_RADIUS`.
pub open spec fn contained(b: Boid, bounds: WorldBounds, cursor: Point) -> Boid {
    let vx = edge_push(b.x as int, b.dx as int, bounds.width as int);
    let vy = edge_push(b.y as int, b.dy as int, bounds.height as int);
    if within(b.x as int, b.y as int, cursor.x as int, cursor.y as int, CURSOR_AVOID_RADIUS as int) {
        b.with_velocity(vx + (b.x - cursor.x), vy + (b.y - cursor.y))
    } else {
        b.with_velocity(vx, vy)
    }
}

/// All five rules, in the order of `BoidAction`.
pub open spec fn steered(b: Boid, s: Seq<Boid>, bounds: WorldBounds, cursor: Point) -> Boid {
    contained(speed_limited(matched(centered(separated(b, s), s), s)), bounds, cursor)
}

/// `|a - b| >= r` keeps the squared distance at `r * r` or more.
proof fn lemma_far_axis(d: int, e: int, r: int)
    requires
        r >= 0,
        d <= -r || d >= r,
    ensures
        d * d + e * e >= r * r,
{
    assert(d * d >= r * r) by (nonlinear_arith)
        requires
            r >= 0,
            d <= -r || d >= r,
    ;
    assert(e * e >= 0) by (nonlinear_arith);
}

/// Closer than `r` means closer than `r` on each axis.
proof fn lemma_near_axes(d: int, e: int, r: int)
    requires
        r >= 0,
        d * d + e * e < r * r,
    ensures
        -r < d < r,
        -r < e < r,
{
    if d <= -r || d >= r {
        lemma_far_axis(d, e, r);
    }
    if e <= -r || e >= r {
        lemma_far_axis(e, d, r);
    }
}

/// Tells whether two points lie strictly closer than `r`.
pub fn within_radius(ax: i64, ay: i64, bx: i64, by: i64, r: i64) -> (res: bool)
    requires
        bounded(ax as int, COORD_LIMIT as int),
        bounded(ay as int, COORD_LIMIT as int),
        bounded(bx as int, COORD_LIMIT as int),
        bounded(by as int, COORD_LIMIT as int),
        0 <= r <= 0x10_0000,
    ensures
        res == within(ax as int, ay as int, bx as int, by as int, r as int),
{
    let ddx = ax - bx;
    let ddy = ay - by;
    if ddx <= -r || ddx >= r {
        proof {
            lemma_far_axis(ddx as int, ddy as int, r as int);
        }
        false
    } else if ddy <= -r || ddy >= r {
        proof {
            lemma_far_axis(ddy as int, ddx as int, r as int);
        }
        false
    } else {
        assert(0 <= ddx * ddx <= 0x100_0000_0000) by (nonlinear_arith)
            requires
                -r < ddx < r,
                r <= 0x10_0000,
        ;
        assert(0 <= ddy * ddy <= 0x100_0000_0000) by (nonlinear_arith)
            requires
                -r < ddy < r,
                r <= 0x10_0000,
        ;
        assert(0 <= r * r <= 0x100_0000_0000) by (nonlinear_arith)
            requires
                0 <= r <= 0x10_0000,
        ;
        ddx * ddx + ddy * ddy < r * r
    }
}

/// A squared distance is zero only when both axis offsets are.
proof fn lemma_dist_sq_positive(d: int, e: int)
    ensures
        (d * d + e * e > 0) <==> (d != 0 || e != 0),
{
    assert(d * d >= 0 && e * e >= 0) by (nonlinear_arith);
    if d != 0 {
        assert(d * d > 0) by (nonlinear_arith)
            requires
                d != 0,
        ;
    }
    if e != 0 {
        assert(e * e > 0) by (nonlinear_arith)
            requires
                e != 0,
        ;
    }
}

/// One step of alignment keeps a component within `max(|v|, c)` when the
/// summed velocities are within `n * c`.
proof fn lemma_align_step(v: int, sum: int, n: int, c: int)
    requires
        n > 0,
        c >= 0,
        -(n * c) <= sum <= n * c,
    ensures
        ({
            let q = trunc_div(sum - n * v, n * ALIGNMENT_DIVISOR);
            let b = if abs(v) > c {
                abs(v)
            } else {
                c
            };
            -b <= v + q <= b
        }),
{
    let d = n * ALIGNMENT_DIVISOR;
    let a = sum - n * v;
    let q = trunc_div(a, d);
    let b = if abs(v) > c {
        abs(v)
    } else {
        c
    };
    assert(d > 0) by (nonlinear_arith)
        requires
            n > 0,
            d == n * ALIGNMENT_DIVISOR,
    ;
    lemma_trunc_div_mul(a, d);
    assert(n * c <= n * b && -(n * b) <= -(n * c)) by (nonlinear_arith)
        requires
            n > 0,
            c <= b,
    ;
    if a >= 0 {
        assert(n * (ALIGNMENT_DIVISOR * q) <= n * (b - v)) by (nonlinear_arith)
            requires
                q * d <= a,
                d == n * ALIGNMENT_DIVISOR,
                a == sum - n * v,
                sum <= n * b,
        ;
        assert(ALIGNMENT_DIVISOR * q <= b - v) by (nonlinear_arith)
            requires
                n * (ALIGNMENT_DIVISOR * q) <= n * (b - v),
                n > 0,
        ;
        assert(q >= 0) by (nonlinear_arith)
            requires
                q * d >= 0,
                d > 0,
        ;
    } else {
        assert(n * (ALIGNMENT_DIVISOR * q) >= n * (-b - v)) by (nonlinear_arith)
            requires
                a <= q * d,
                d == n * ALIGNMENT_DIVISOR,
                a == sum - n * v,
                -(n * b) <= sum,
        ;
        assert(ALIGNMENT_DIVISOR * q >= -b - v) by (nonlinear_arith)
            requires
                n * (ALIGNMENT_DIVISOR * q) >= n * (-b - v),
                n > 0,
        ;
        assert(q <= 0) by (nonlinear_arith)
            requires
                q * d <= 0,
                d > 0,
        ;
    }
}

/// Scaling each component by `limit / s`, rounded toward zero, with
/// `s * s` at least the squared speed, lands within `limit`.
proof fn lemma_limit_step(dx: int, dy: int, s: int, limit: int)
    requires
        s > 0,
        limit >= 0,
        dx * dx + dy * dy <= s * s,
    ensures
        ({
            let qx = trunc_div(dx * limit, s);
            let qy = trunc_div(dy * limit, s);
            qx * qx + qy * qy <= limit * limit
        }),
{
    let qx = trunc_div(dx * limit, s);
    let qy = trunc_div(dy * limit, s);
    lemma_trunc_div_mul(dx * limit, s);
    lemma_trunc_div_mul(dy * limit, s);
    assert((qx * s) * (qx * s) <= (dx * limit) * (dx * limit)) by (nonlinear_arith)
        requires
            (dx * limit >= 0 ==> 0 <= qx * s <= dx * limit),
            (dx * limit <= 0 ==> dx * limit <= qx * s <= 0),
    ;
    assert((qy * s) * (qy * s) <= (dy * limit) * (dy * limit)) by (nonlinear_arith)
        requires
            (dy * limit >= 0 ==> 0 <= qy * s <= dy * limit),
            (dy * limit <= 0 ==> dy * limit <= qy * s <= 0),
    ;
    let ss = s * s;
    let ll = limit * limit;
    assert((qx * s) * (qx * s) == (qx * qx) * ss) by (nonlinear_arith)
        requires
            ss == s * s,
    ;
    assert((qy * s) * (qy * s) == (qy * qy) * ss) by (nonlinear_arith)
        requires
            ss == s * s,
    ;
    assert((dx * limit) * (dx * limit) == (dx * dx) * ll) by (nonlinear_arith)
        requires
            ll == limit * limit,
    ;
    assert((dy * limit) * (dy * limit) == (dy * dy) * ll) by (nonlinear_arith)
        requires
            ll == limit * limit,
    ;
    assert((qx * qx + qy * qy) * ss == (qx * qx) * ss + (qy * qy) * ss) by (nonlinear_arith);
    assert((dx * dx + dy * dy) * ll == (dx * dx) * ll + (dy * dy) * ll) by (nonlinear_arith);
    assert((qx * qx + qy * qy) * (s * s) <= (dx * dx + dy * dy) * (limit * limit));
    assert((dx * dx + dy * dy) * (limit * limit) <= (s * s) * (limit * limit))
        by (nonlinear_arith)
        requires
            dx * dx + dy * dy <= s * s,
    ;
    assert(qx * qx + qy * qy <= limit * limit) by (nonlinear_arith)
        requires
            (qx * qx + qy * qy) * (s * s) <= (s * s) * (limit * limit),
            s > 0,
    ;
}

/// Nudging each component of a velocity of length at most `l` by at most `t`
/// gives a velocity of length at most `l + b`, where `b * b >= 2 * t * t`.
proof fn lemma_nudged_speed(x: int, y: int, wx: int, wy: int, l: int, t: int, b: int)
    requires
        l >= 0,
        t >= 0,
        b >= 0,
        b * b >= 2 * (t * t),
        x * x + y * y <= l * l,
        abs(wx) <= abs(x) + t,
        abs(wy) <= abs(y) + t,
    ensures
        wx * wx + wy * wy <= (l + b) * (l + b),
{
    let ax = abs(x);
    let ay = abs(y);
    assert(ax * ax == x * x && ay * ay == y * y) by (nonlinear_arith)
        requires
            ax == abs(x),
            ay == abs(y),
    ;
    assert(wx * wx <= (ax + t) * (ax + t)) by (nonlinear_arith)
        requires
            abs(wx) <= ax + t,
            ax >= 0,
            t >= 0,
    ;
    assert(wy * wy <= (ay + t) * (ay + t)) by (nonlinear_arith)
        requires
            abs(wy) <= ay + t,
            ay >= 0,
            t >= 0,
    ;
    assert((ax + ay) * (ax + ay) <= 2 * (ax * ax + ay * ay)) by (nonlinear_arith)
        requires
            ax >= 0,
            ay >= 0,
    ;
    let u = t * (ax + ay);
    let v = l * b;
    assert(u * u <= v * v) by (nonlinear_arith)
        requires
            u == t * (ax + ay),
            v == l * b,
            (ax + ay) * (ax + ay) <= 2 * (ax * ax + ay * ay),
            ax * ax + ay * ay <= l * l,
            b * b >= 2 * (t * t),
            t >= 0,
            l >= 0,
    ;
    assert(u <= v) by (nonlinear_arith)
        requires
            u * u <= v * v,
            v >= 0,
    ;
    assert((ax + t) * (ax + t) + (ay + t) * (ay + t) == ax * ax + ay * ay + 2 * u + 2 * (t * t))
        by (nonlinear_arith)
        requires
            u == t * (ax + ay),
    ;
    assert((l + b) * (l + b) == l * l + 2 * v + b * b) by (nonlinear_arith)
        requires
            v == l * b,
    ;
}

/// Adding a vector of length at most `r` to one of length at most `a` gives
/// one of length at most `a + r`.
proof fn lemma_added_speed(wx: int, wy: int, cx: int, cy: int, a: int, r: int)
    requires
        a >= 0,
        r >= 0,
        wx * wx + wy * wy <= a * a,
        cx * cx + cy * cy <= r * r,
    ensures
        (wx + cx) * (wx + cx) + (wy + cy) * (wy + cy) <= (a + r) * (a + r),
{
    let dot = wx * cx + wy * cy;
    let ww = wx * wx + wy * wy;
    let cc = cx * cx + cy * cy;
    let cross = wx * cy - wy * cx;
    let p = wx * cx;
    let q = wy * cy;
    let m = wx * cy;
    let n = wy * cx;
    assert(dot * dot == p * p + 2 * (p * q) + q * q) by (nonlinear_arith)
        requires
            dot == p + q,
    ;
    assert(cross * cross == m * m - 2 * (m * n) + n * n) by (nonlinear_arith)
        requires
            cross == m - n,
    ;
    assert(p * q == m * n) by (nonlinear_arith)
        requires
            p == wx * cx,
            q == wy * cy,
            m == wx * cy,
            n == wy * cx,
    ;
    assert(ww * cc == (wx * wx) * (cx * cx) + (wx * wx) * (cy * cy) + (wy * wy) * (cx * cx) + (
    wy * wy) * (cy * cy)) by (nonlinear_arith)
        requires
            ww == wx * wx + wy * wy,
            cc == cx * cx + cy * cy,
    ;
    assert(p * p == (wx * wx) * (cx * cx)) by (nonlinear_arith)
        requires
            p == wx * cx,
    ;
    assert(q * q == (wy * wy) * (cy * cy)) by (nonlinear_arith)
        requires
            q == wy * cy,
    ;
    assert(m * m == (wx * wx) * (cy * cy)) by (nonlinear_arith)
        requires
            m == wx * cy,
    ;
    assert(n * n == (wy * wy) * (cx * cx)) by (nonlinear_arith)
        requires
            n == wy * cx,
    ;
    assert(ww * cc == dot * dot + cross * cross);
    assert(cross * cross >= 0) by (nonlinear_arith);
    assert(ww >= 0 && cc >= 0) by (nonlinear_arith)
        requires
            ww == wx * wx + wy * wy,
            cc == cx * cx + cy * cy,
    ;
    assert(ww * cc <= (a * a) * (r * r)) by (nonlinear_arith)
        requires
            0 <= ww <= a * a,
            0 <= cc <= r * r,
    ;
    assert(dot * dot <= (a * r) * (a * r)) by (nonlinear_arith)
        requires
            dot * dot <= (a * a) * (r * r),
    ;
    assert(dot <= a * r) by (nonlinear_arith)
        requires
            dot * dot <= (a * r) * (a * r),
            a >= 0,
            r >= 0,
    ;
    assert((wx + cx) * (wx + cx) + (wy + cy) * (wy + cy) == ww + 2 * dot + cc)
        by (nonlinear_arith)
        requires
            dot == wx * cx + wy * cy,
            ww == wx * wx + wy * wy,
            cc == cx * cx + cy * cy,
    ;
    assert((a + r) * (a + r) == a * a + 2 * (a * r) + r * r) by (nonlinear_arith);
}

/// Containment on one axis.
fn push_axis(p: i64, v: i64, extent: i64) -> (r: i64)
    requires
        bounded(p as int, COORD_LIMIT as int),
        bounded(v as int, STEER_LIMIT as int),
        0 <= extent <= COORD_LIMIT,
    ensures
        r == edge_push(p as int, v as int, extent as int),
        abs(r as int) <= abs(v as int) + TURN_FACTOR,
{
    let low = p < EDGE_BUFFER;
    let high = p > extent - EDGE_BUFFER;
    if !low && !high {
        assert(-(STEER_LIMIT * DAMPING_NUM) <= v * DAMPING_NUM <= STEER_LIMIT * DAMPING_NUM)
            by (nonlinear_arith)
            requires
                bounded(v as int, STEER_LIMIT as int),
        ;
        let q = div_toward_zero((v as i128) * (DAMPING_NUM as i128), DAMPING_DEN as i128);
        proof {
            lemma_trunc_div_bound(v * DAMPING_NUM, DAMPING_DEN as int, abs(v as int));
        }
        q as i64
    } else {
        let mut w: i64 = v;
        if low {
            w = w + TURN_FACTOR;
        }
        if high {
            w = w - TURN_FACTOR;
        }
        w
    }
}

impl Boid {
    /// Tells whether `other` lies strictly closer than `r`.
    pub fn is_near(&self, other: &Boid, r: i64) -> (res: bool)
        requires
            self.placed(),
            other.placed(),
            0 <= r <= 0x10_0000,
        ensures
            res == self.near(*other, r as int),
    {
        within_radius(self.x, self.y, other.x, other.y, r)
    }

    /// Squared Euclidean distance to `other`.
    pub fn distance_sq(&self, other: &Boid) -> (r: i128)
        requires
            self.placed(),
            other.placed(),
        ensures
            r == dist_sq(self.x as int, self.y as int, other.x as int, other.y as int),
    {
        let ddx = (self.x as i128) - (other.x as i128);
        let ddy = (self.y as i128) - (other.y as i128);
        assert(0 <= ddx * ddx <= 0x10_0000_0000_0000_0000_0000) by (nonlinear_arith)
            requires
                -0x200_0000_0000 <= ddx <= 0x200_0000_0000,
        ;
        assert(0 <= ddy * ddy <= 0x10_0000_0000_0000_0000_0000) by (nonlinear_arith)
            requires
                -0x200_0000_0000 <= ddy <= 0x200_0000_0000,
        ;
        ddx * ddx + ddy * ddy
    }

    /// Tells whether `other` lies closer than `MIN_DISTANCE` but not on the same spot.
    pub fn is_crowded_by(&self, other: &Boid) -> (res: bool)
        requires
            self.placed(),
            other.placed(),
        ensures
            res == self.crowded_by(*other),
    {
        proof {
            lemma_dist_sq_positive(self.x - other.x, self.y - other.y);
        }
        self.is_near(other, MIN_DISTANCE) && (self.x != other.x || self.y != other.y)
    }

    /// Separation: adds half the summed offsets from every agent closer than
    /// `MIN_DISTANCE` (agents on the same spot are left out).
    pub fn avoid_others(&mut self, others: &Vec<Boid>)
        requires
            old(self).steerable(),
            flock_wf(others@),
        ensures
            *final(self) == separated(*old(self), others@),
            bounded(final(self).dx - old(self).dx, SEPARATION_SWING as int),
            bounded(final(self).dy - old(self).dy, SEPARATION_SWING as int),
    {
        let me = *self;
        let mut sx: i128 = 0;
        let mut sy: i128 = 0;
        let mut i: usize = 0;
        while i < others.len()
            invariant
                me == *old(self),
                *self == me,
                me.steerable(),
                flock_wf(others@),
                i <= others.len(),
                sx == crowding_sum_x(me, others@.take(i as int)),
                sy == crowding_sum_y(me, others@.take(i as int)),
                bounded(sx as int, i * MIN_DISTANCE),
                bounded(sy as int, i * MIN_DISTANCE),
            decreases others.len() - i,
        {
            let o = others[i];
            assert(others@[i as int].wf());
            if me.is_crowded_by(&o) {
                proof {
                    lemma_near_axes(me.x - o.x, me.y - o.y, MIN_DISTANCE as int);
                }
                sx = sx + (me.x - o.x) as i128;
                sy = sy + (me.y - o.y) as i128;
            }
            assert(others@.take(i + 1).drop_last() =~= others@.take(i as int));
            i = i + 1;
        }
        assert(others@.take(others.len() as int) =~= others@);
        let n = others.len() as i128;
        proof {
            lemma_trunc_div_bound(sx as int, SEPARATION_DIVISOR as int, n * 8000);
            lemma_trunc_div_bound(sy as int, SEPARATION_DIVISOR as int, n * 8000);
        }
        let qx = div_toward_zero(sx, SEPARATION_DIVISOR as i128);
        let qy = div_toward_zero(sy, SEPARATION_DIVISOR as i128);
        self.dx = self.dx + qx as i64;
        self.dy = self.dy + qy as i64;
    }

    /// Count, summed offsets and summed velocities of the agents in visual range.
    fn visual_sums(&self, others: &Vec<Boid>) -> (r: (i128, i128, i128, i128, i128))
        requires
            self.placed(),
            flock_wf(others@),
        ensures
            r.0 == neighbor_count(*self, others@, VISUAL_RANGE as int),
            r.1 == offset_sum_x(*self, others@, VISUAL_RANGE as int),
            r.2 == offset_sum_y(*self, others@, VISUAL_RANGE as int),
            r.3 == velocity_sum_x(*self, others@, VISUAL_RANGE as int),
            r.4 == velocity_sum_y(*self, others@, VISUAL_RANGE as int),
            0 <= r.0 <= MAX_FLOCK,
            bounded(r.1 as int, r.0 * VISUAL_RANGE),
            bounded(r.2 as int, r.0 * VISUAL_RANGE),
            bounded(r.3 as int, r.0 * COORD_LIMIT),
            bounded(r.4 as int, r.0 * COORD_LIMIT),
    {
        let mut n: i128 = 0;
        let mut ox: i128 = 0;
        let mut oy: i128 = 0;
        let mut vx: i128 = 0;
        let mut vy: i128 = 0;
        let mut i: usize = 0;
        while i < others.len()
            invariant
                self.placed(),
                flock_wf(others@),
                i <= others.len(),
                0 <= n <= i,
                n == neighbor_count(*self, others@.take(i as int), VISUAL_RANGE as int),
                ox == offset_sum_x(*self, others@.take(i as int), VISUAL_RANGE as int),
                oy == offset_sum_y(*self, others@.take(i as int), VISUAL_RANGE as int),
                vx == velocity_sum_x(*self, others@.take(i as int), VISUAL_RANGE as int),
                vy == velocity_sum_y(*self, others@.take(i as int), VISUAL_RANGE as int),
                bounded(ox as int, n * VISUAL_RANGE),
                bounded(oy as int, n * VISUAL_RANGE),
                bounded(vx as int, n * COORD_LIMIT),
                bounded(vy as int, n * COORD_LIMIT),
            decreases others.len() - i,
        {
            let o = others[i];
            assert(others@[i as int].wf());
            if self.is_near(&o, VISUAL_RANGE) {
                proof {
                    lemma_near_axes(self.x - o.x, self.y - o.y, VISUAL_RANGE as int);
                }
                n = n + 1;
                ox = ox + (o.x - self.x) as i128;
                oy = oy + (o.y - self.y) as i128;
                vx = vx + o.dx as i128;
                vy = vy + o.dy as i128;
            }
            assert(others@.take(i + 1).drop_last() =~= others@.take(i as int));
            i = i + 1;
        }
        assert(others@.take(others.len() as int) =~= others@);
        (n, ox, oy, vx, vy)
    }

    /// Cohesion: moves a twentieth of the way toward the centre of the agents
    /// closer than `VISUAL_RANGE`; no change when there are none.
    pub fn fly_towards_center(&mut self, others: &Vec<Boid>)
        requires
            old(self).steerable(),
            flock_wf(others@),
        ensures
            *final(self) == centered(*old(self), others@),
            bounded(final(self).dx - old(self).dx, VISUAL_RANGE as int),
            bounded(final(self).dy - old(self).dy, VISUAL_RANGE as int),
    {
        let (n, ox, oy, _vx, _vy) = self.visual_sums(others);
        if n > 0 {
            assert(0 < n * COHESION_DIVISOR <= MAX_FLOCK * COHESION_DIVISOR) by (nonlinear_arith)
                requires
                    0 < n <= MAX_FLOCK,
            ;
            let d = n * (COHESION_DIVISOR as i128);
            proof {
                assert(n * VISUAL_RANGE == d * 1600);
                lemma_trunc_div_bound(ox as int, d as int, 1600);
                lemma_trunc_div_bound(oy as int, d as int, 1600);
            }
            let qx = div_toward_zero(ox, d);
            let qy = div_toward_zero(oy, d);
            self.dx = self.dx + qx as i64;
            self.dy = self.dy + qy as i64;
        }
    }

    /// Alignment: moves a tenth of the way toward the mean velocity of the
    /// agents closer than `VISUAL_RANGE`; no change when there are none.
    pub fn match_velocity(&mut self, others: &Vec<Boid>)
        requires
            old(self).steerable(),
            flock_wf(others@),
        ensures
            *final(self) == matched(*old(self), others@),
            abs(final(self).dx as int) <= if abs(old(self).dx as int) > COORD_LIMIT {
                abs(old(self).dx as int)
            } else {
                COORD_LIMIT as int
            },
            abs(final(self).dy as int) <= if abs(old(self).dy as int) > COORD_LIMIT {
                abs(old(self).dy as int)
            } else {
                COORD_LIMIT as int
            },
    {
        let (n, _ox, _oy, vx, vy) = self.visual_sums(others);
        if n > 0 {
            assert(0 < n * ALIGNMENT_DIVISOR <= MAX_FLOCK * ALIGNMENT_DIVISOR) by (nonlinear_arith)
                requires
                    0 < n <= MAX_FLOCK,
            ;
            let d = n * (ALIGNMENT_DIVISOR as i128);
            assert(-(n * STEER_LIMIT) <= n * self.dx <= n * STEER_LIMIT) by (nonlinear_arith)
                requires
                    0 < n <= MAX_FLOCK,
                    bounded(self.dx as int, STEER_LIMIT as int),
            ;
            assert(-(n * STEER_LIMIT) <= n * self.dy <= n * STEER_LIMIT) by (nonlinear_arith)
                requires
                    0 < n <= MAX_FLOCK,
                    bounded(self.dy as int, STEER_LIMIT as int),
            ;
            let ax = vx - n * (self.dx as i128);
            let ay = vy - n * (self.dy as i128);
            proof {
                lemma_align_step(self.dx as int, vx as int, n as int, COORD_LIMIT as int);
                lemma_align_step(self.dy as int, vy as int, n as int, COORD_LIMIT as int);
            }
            let qx = div_toward_zero(ax, d);
            let qy = div_toward_zero(ay, d);
            self.dx = self.dx + qx as i64;
            self.dy = self.dy + qy as i64;
        }
    }

    /// Speed limiting: above `SPEED_LIMIT`, scales the velocity down to it,
    /// keeping its direction.
    pub fn limit_speed(&mut self)
        requires
            old(self).steerable(),
        ensures
            *final(self) == speed_limited(*old(self)),
            final(self).speed_sq() <= SPEED_LIMIT * SPEED_LIMIT,
            bounded(final(self).dx as int, SPEED_LIMIT as int),
            bounded(final(self).dy as int, SPEED_LIMIT as int),
    {
        let dx = self.dx as i128;
        let dy = self.dy as i128;
        assert(0 <= dx * dx <= STEER_LIMIT * STEER_LIMIT) by (nonlinear_arith)
            requires
                bounded(dx as int, STEER_LIMIT as int),
        ;
        assert(0 <= dy * dy <= STEER_LIMIT * STEER_LIMIT) by (nonlinear_arith)
            requires
                bounded(dy as int, STEER_LIMIT as int),
        ;
        let n = dx * dx + dy * dy;
        let limit = SPEED_LIMIT as i128;
        if n > limit * limit {
            let s = ceil_sqrt_u128(n as u128) as i128;
            proof {
                lemma_ceil_sqrt(n as nat);
                assert(s > 0) by (nonlinear_arith)
                    requires
                        n <= s * s,
                        n > 0,
                        s >= 0,
                ;
                lemma_limit_step(dx as int, dy as int, s as int, limit as int);
            }
            assert(-(STEER_LIMIT * SPEED_LIMIT) <= dx * limit <= STEER_LIMIT * SPEED_LIMIT)
                by (nonlinear_arith)
                requires
                    bounded(dx as int, STEER_LIMIT as int),
                    limit == SPEED_LIMIT,
            ;
            assert(-(STEER_LIMIT * SPEED_LIMIT) <= dy * limit <= STEER_LIMIT * SPEED_LIMIT)
                by (nonlinear_arith)
                requires
                    bounded(dy as int, STEER_LIMIT as int),
                    limit == SPEED_LIMIT,
            ;
            let qx = div_toward_zero(dx * limit, s);
            let qy = div_toward_zero(dy * limit, s);
            proof {
                assert(qx * qx <= limit * limit && qy * qy <= limit * limit) by (nonlinear_arith)
                    requires
                        qx * qx + qy * qy <= limit * limit,
                ;
                assert(bounded(qx as int, limit as int) && bounded(qy as int, limit as int))
                    by (nonlinear_arith)
                    requires
                        qx * qx <= limit * limit,
                        qy * qy <= limit * limit,
                        limit > 0,
                ;
            }
            self.dx = qx as i64;
            self.dy = qy as i64;
        } else {
            proof {
                assert(bounded(dx as int, limit as int) && bounded(dy as int, limit as int))
                    by (nonlinear_arith)
                    requires
                        dx * dx + dy * dy <= limit * limit,
                        limit > 0,
                ;
            }
        }
    }

    /// Containment: on each axis a `TURN_FACTOR` nudge up when below
    /// `extent - EDGE_BUFFER` and down when above `EDGE_BUFFER`, with damping
    /// when exactly one of the two applied; then a push away from a cursor
    /// closer than `CURSOR_AVOID_RADIUS`.
    pub fn keep_within_bounds(&mut self, bounds: &WorldBounds, cursor: Point)
        requires
            old(self).steerable(),
            bounds.wf(),
            cursor.wf(),
        ensures
            *final(self) == contained(*old(self), *bounds, cursor),
            abs(final(self).dx as int) <= abs(old(self).dx as int) + TURN_FACTOR
                + CURSOR_AVOID_RADIUS,
            abs(final(self).dy as int) <= abs(old(self).dy as int) + TURN_FACTOR
                + CURSOR_AVOID_RADIUS,
            old(self).speed_sq() <= SPEED_LIMIT * SPEED_LIMIT ==> final(self).speed_sq()
                <= SPEED_BOUND_AFTER_STEERING * SPEED_BOUND_AFTER_STEERING,
    {
        let vx = push_axis(self.x, self.dx, bounds.width);
        let vy = push_axis(self.y, self.dy, bounds.height);
        let ghost pushed = old(self).speed_sq() <= SPEED_LIMIT * SPEED_LIMIT;
        proof {
            if pushed {
                lemma_nudged_speed(
                    self.dx as int,
                    self.dy as int,
                    vx as int,
                    vy as int,
                    SPEED_LIMIT as int,
                    TURN_FACTOR as int,
                    DIAGONAL_TURN as int,
                );
            }
        }
        if within_radius(self.x, self.y, cursor.x, cursor.y, CURSOR_AVOID_RADIUS) {
            proof {
                lemma_near_axes(
                    self.x - cursor.x,
                    self.y - cursor.y,
                    CURSOR_AVOID_RADIUS as int,
                );
                if pushed {
                    lemma_added_speed(
                        vx as int,
                        vy as int,
                        self.x - cursor.x,
                        self.y - cursor.y,
                        SPEED_LIMIT + DIAGONAL_TURN,
                        CURSOR_AVOID_RADIUS as int,
                    );
                }
            }
            self.dx = vx + (self.x - cursor.x);
            self.dy = vy + (self.y - cursor.y);
        } else {
            proof {
                if pushed {
                    assert((SPEED_LIMIT + DIAGONAL_TURN) * (SPEED_LIMIT + DIAGONAL_TURN)
                        <= SPEED_BOUND_AFTER_STEERING * SPEED_BOUND_AFTER_STEERING);
                }
            }
            self.dx = vx;
            self.dy = vy;
        }
    }
}

/// The rule order of one tick.
pub open spec fn pipeline() -> Seq<BoidAction> {
    seq![
        BoidAction::AvoidOthers,
        BoidAction::FlyTowardsCenter,
        BoidAction::MatchVelocity,
        BoidAction::LimitSpeed,
        BoidAction::KeepWithinBounds,
    ]
}

/// The effect of one rule.
pub open spec fn apply_action(
    a: BoidAction,
    b: Boid,
    s: Seq<Boid>,
    bounds: WorldBounds,
    cursor: Point,
) -> Boid {
    match a {
        BoidAction::AvoidOthers => separated(b, s),
        BoidAction::FlyTowardsCenter => centered(b, s),
        BoidAction::MatchVelocity => matched(b, s),
        BoidAction::LimitSpeed => speed_limited(b),
        BoidAction::KeepWithinBounds => contained(b, bounds, cursor),
    }
}

/// The effect of several rules, first to last.
pub open spec fn apply_all(
    acts: Seq<BoidAction>,
    b: Boid,
    s: Seq<Boid>,
    bounds: WorldBounds,
    cursor: Point,
) -> Boid
    decreases acts.len(),
{
    if acts.len() == 0 {
        b
    } else {
        apply_action(acts.last(), apply_all(acts.drop_last(), b, s, bounds, cursor), s, bounds, cursor)
    }
}

/// One tick of steering is the rules of `create_bt` applied in their order,
/// each once, with no rule skipped on the outcome of another.
pub proof fn lemma_steering_is_pipeline(b: Boid, s: Seq<Boid>, bounds: WorldBounds, cursor: Point)
    ensures
        steered(b, s, bounds, cursor) == apply_all(pipeline(), b, s, bounds, cursor),
{
    let p = pipeline();
    assert(p.drop_last() =~= p.take(4));
    assert(p.take(4).drop_last() =~= p.take(3));
    assert(p.take(3).drop_last() =~= p.take(2));
    assert(p.take(2).drop_last() =~= p.take(1));
    assert(p.take(1).drop_last() =~= Seq::<BoidAction>::empty());
    reveal_with_fuel(apply_all, 6);
}

/// Clamps a coordinate to the coordinate bound.
pub open spec fn clamp_coord(v: int) -> int {
    if v > COORD_LIMIT {
        COORD_LIMIT as int
    } else if v < -COORD_LIMIT {
        -COORD_LIMIT
    } else {
        v
    }
}

/// Position after `dt_ms` milliseconds at the current velocity, rounded
/// toward zero and clamped to the coordinate bound.
pub open spec fn advanced(b: Boid, dt_ms: int) -> Boid {
    Boid {
        x: clamp_coord(b.x + trunc_div(b.dx * dt_ms, 1000)) as i64,
        y: clamp_coord(b.y + trunc_div(b.dy * dt_ms, 1000)) as i64,
        dx: b.dx,
        dy: b.dy,
        color: b.color,
    }
}

/// The random numbers that place one new agent.
#[derive(Clone, Copy, Debug, PartialEq, Eq)]
pub struct SpawnDraw {
    pub x: u32,
    pub y: u32,
    pub dx: u32,
    pub dy: u32,
    pub r: u8,
    pub g: u8,
    pub b: u8,
}

/// A coordinate in the central half of `[0, extent]`, chosen by `r`.
pub open spec fn spawn_coord(extent: int, r: int) -> int {
    extent / 4 + (r * (extent / 2)) / 0x1_0000_0000
}

/// A velocity component in `[-SPEED_LIMIT / 2, SPEED_LIMIT / 2)`, chosen by `r`.
pub open spec fn spawn_speed(r: int) -> int {
    (r * SPEED_LIMIT) / 0x1_0000_0000 - SPEED_LIMIT / 2
}

/// A colour channel in the upper half of its range, chosen by `r`.
pub open spec fn spawn_channel(r: int) -> int {
    128 + r / 2
}

/// The agent that the draws `d` place in a spawn area of the given size.
pub open spec fn spawned(width: int, height: int, d: SpawnDraw) -> Boid {
    Boid {
        x: spawn_coord(width, d.x as int) as i64,
        y: spawn_coord(height, d.y as int) as i64,
        dx: spawn_speed(d.dx as int) as i64,
        dy: spawn_speed(d.dy as int) as i64,
        color: Color {
            r: spawn_channel(d.r as int) as u8,
            g: spawn_channel(d.g as int) as u8,
            b: spawn_channel(d.b as int) as u8,
            a: 128,
        },
    }
}

/// Some draws place `b` in a spawn area of the given size.
pub open spec fn spawn_of(b: Boid, width: int, height: int) -> bool {
    exists|d: SpawnDraw| b == spawned(width, height, d)
}

/// A freshly spawned agent: within the central half of the spawn area on
/// each axis, each velocity component within half the speed limit.
pub open spec fn spawn_ok(b: Boid, width: int, height: int) -> bool {
    &&& width / 4 <= b.x <= 3 * width / 4
    &&& height / 4 <= b.y <= 3 * height / 4
    &&& bounded(b.dx as int, SPEED_LIMIT / 2)
    &&& bounded(b.dy as int, SPEED_LIMIT / 2)
    &&& b.wf()
}

proof fn lemma_spawn_coord(extent: int, r: int)
    requires
        0 <= extent <= COORD_LIMIT,
        0 <= r < 0x1_0000_0000,
    ensures
        extent / 4 <= spawn_coord(extent, r) <= 3 * extent / 4,
{
    let h = extent / 2;
    assert(0 <= r * h <= 0x1_0000_0000 * h) by (nonlinear_arith)
        requires
            0 <= r < 0x1_0000_0000,
            h >= 0,
    ;
    vstd::arithmetic::div_mod::lemma_div_is_ordered(r * h, 0x1_0000_0000 * h, 0x1_0000_0000);
    vstd::arithmetic::div_mod::lemma_div_by_multiple(h, 0x1_0000_0000);
    vstd::arithmetic::div_mod::lemma_div_pos_is_pos(r * h, 0x1_0000_0000);
    assert(0x1_0000_0000 * h == h * 0x1_0000_0000);
}

proof fn lemma_spawn_speed(r: int)
    requires
        0 <= r < 0x1_0000_0000,
    ensures
        bounded(spawn_speed(r), SPEED_LIMIT / 2),
{
    let m = 0x1_0000_0000int;
    vstd::arithmetic::div_mod::lemma_div_is_ordered(r * SPEED_LIMIT, m * SPEED_LIMIT, m);
    vstd::arithmetic::div_mod::lemma_div_by_multiple(SPEED_LIMIT as int, m);
    vstd::arithmetic::div_mod::lemma_div_pos_is_pos(r * SPEED_LIMIT, m);
    assert(m * SPEED_LIMIT == SPEED_LIMIT * m);
}

pub assume_specification<T>[ rand::random::<T> ]() -> (r: T)
    where
        rand::distributions::Standard: rand::distributions::Distribution<T>,
;

/// Every agent that draws place is a well-formed fresh spawn.
pub proof fn lemma_spawned_ok(width: int, height: int, d: SpawnDraw)
    requires
        0 <= width <= COORD_LIMIT,
        0 <= height <= COORD_LIMIT,
    ensures
        spawn_ok(spawned(width, height, d), width, height),
{
    lemma_spawn_coord(width, d.x as int);
    lemma_spawn_coord(height, d.y as int);
    lemma_spawn_speed(d.dx as int);
    lemma_spawn_speed(d.dy as int);
}

/// With no agent in visual range, cohesion and alignment leave the agent
/// exactly as it was.
pub proof fn lemma_alone_keeps_velocity(b: Boid, s: Seq<Boid>)
    requires
        neighbor_count(b, s, VISUAL_RANGE as int) == 0,
    ensures
        centered(b, s) == b,
        matched(b, s) == b,
{
}

/// Containment on each axis of a world at least two buffers wide: inside
/// the low edge buffer the velocity gains exactly `TURN_FACTOR`, inside the
/// high one it loses exactly `TURN_FACTOR`, and elsewhere it is damped by
/// `DAMPING_NUM / DAMPING_DEN`.
pub proof fn lemma_edge_turns(p: int, v: int, extent: int)
    requires
        extent >= 2 * EDGE_BUFFER,
    ensures
        p < EDGE_BUFFER ==> edge_push(p, v, extent) == v + TURN_FACTOR,
        p > extent - EDGE_BUFFER ==> edge_push(p, v, extent) == v - TURN_FACTOR,
        EDGE_BUFFER <= p <= extent - EDGE_BUFFER ==> edge_push(p, v, extent) == trunc_div(
            v * DAMPING_NUM,
            DAMPING_DEN as int,
        ),
{
}

/// Spawned agents, one for each draw.
pub open spec fn spawn_seq(width: int, height: int, draws: Seq<SpawnDraw>) -> Seq<Boid> {
    Seq::new(draws.len(), |i: int| spawned(width, height, draws[i]))
}

/// The same draws spawn the same agents, bit for bit.
pub proof fn lemma_spawn_determined(
    width: int,
    height: int,
    draws_a: Seq<SpawnDraw>,
    draws_b: Seq<SpawnDraw>,
)
    requires
        draws_a == draws_b,
    ensures
        spawn_seq(width, height, draws_a) == spawn_seq(width, height, draws_b),
{
}

/// `count` spawn draws from the thread-local generator.
pub fn random_draws(count: usize) -> (r: Vec<SpawnDraw>)
    ensures
        r.len() == count,
{
    let mut r: Vec<SpawnDraw> = Vec::new();
    let mut i: usize = 0;
    while i < count
        invariant
            i <= count,
            r.len() == i,
        decreases count - i,
    {
        r.push(SpawnDraw::random());
        i = i + 1;
    }
    r
}

impl SpawnDraw {
    /// Draws every field from the thread-local generator (`rand::random`).
    pub fn random() -> (d: SpawnDraw) {
        SpawnDraw {
            x: rand::random::<u32>(),
            y: rand::random::<u32>(),
            dx: rand::random::<u32>(),
            dy: rand::random::<u32>(),
            r: rand::random::<u8>(),
            g: rand::random::<u8>(),
            b: rand::random::<u8>(),
        }
    }
}

impl Boid {
    /// The agent that the draws `d` place in a spawn area of the given size.
    pub fn from_draw(spawn_area_width: i64, spawn_area_height: i64, d: SpawnDraw) -> (b: Boid)
        requires
            0 <= spawn_area_width <= COORD_LIMIT,
            0 <= spawn_area_height <= COORD_LIMIT,
        ensures
            b == spawned(spawn_area_width as int, spawn_area_height as int, d),
            spawn_ok(b, spawn_area_width as int, spawn_area_height as int),
    {
        let hw = (spawn_area_width / 2) as i128;
        let hh = (spawn_area_height / 2) as i128;
        assert(0 <= (d.x as i128) * hw <= 0x1_0000_0000 * COORD_LIMIT) by (nonlinear_arith)
            requires
                0 <= hw <= COORD_LIMIT,
                0 <= d.x < 0x1_0000_0000,
        ;
        assert(0 <= (d.y as i128) * hh <= 0x1_0000_0000 * COORD_LIMIT) by (nonlinear_arith)
            requires
                0 <= hh <= COORD_LIMIT,
                0 <= d.y < 0x1_0000_0000,
        ;
        proof {
            lemma_spawn_coord(spawn_area_width as int, d.x as int);
            lemma_spawn_coord(spawn_area_height as int, d.y as int);
            lemma_spawn_speed(d.dx as int);
            lemma_spawn_speed(d.dy as int);
        }
        let x = spawn_area_width / 4 + (((d.x as i128) * hw) / 0x1_0000_0000i128) as i64;
        let y = spawn_area_height / 4 + (((d.y as i128) * hh) / 0x1_0000_0000i128) as i64;
        let dx = (((d.dx as i128) * (SPEED_LIMIT as i128)) / 0x1_0000_0000i128) as i64
            - SPEED_LIMIT / 2;
        let dy = (((d.dy as i128) * (SPEED_LIMIT as i128)) / 0x1_0000_0000i128) as i64
            - SPEED_LIMIT / 2;
        Boid {
            x,
            y,
            dx,
            dy,
            color: Color { r: 128 + d.r / 2, g: 128 + d.g / 2, b: 128 + d.b / 2, a: 128 },
        }
    }

    /// A new agent at a random place in the central half of the spawn area,
    /// with a random velocity and a random light colour.
    pub fn new(spawn_area_width: i64, spawn_area_height: i64) -> (b: Boid)
        requires
            0 <= spawn_area_width <= COORD_LIMIT,
            0 <= spawn_area_height <= COORD_LIMIT,
        ensures
            spawn_of(b, spawn_area_width as int, spawn_area_height as int),
            spawn_ok(b, spawn_area_width as int, spawn_area_height as int),
    {
        let d = SpawnDraw::random();
        let b = Boid::from_draw(spawn_area_width, spawn_area_height, d);
        assert(b == spawned(spawn_area_width as int, spawn_area_height as int, d));
        b
    }

    /// One agent for each draw, placed as `from_draw` places it.
    pub fn create_boids_from(draws: &Vec<SpawnDraw>, world_width: i64, world_height: i64) -> (r:
        Vec<Boid>)
        requires
            0 <= world_width <= COORD_LIMIT,
            0 <= world_height <= COORD_LIMIT,
        ensures
            r@ == spawn_seq(world_width as int, world_height as int, draws@),
            forall|i: int|
                0 <= i < r@.len() ==> spawn_ok(
                    #[trigger] r@[i],
                    world_width as int,
                    world_height as int,
                ),
    {
        let mut r: Vec<Boid> = Vec::new();
        let mut i: usize = 0;
        while i < draws.len()
            invariant
                0 <= world_width <= COORD_LIMIT,
                0 <= world_height <= COORD_LIMIT,
                i <= draws.len(),
                r.len() == i,
                forall|k: int|
                    0 <= k < i ==> #[trigger] r@[k] == spawned(
                        world_width as int,
                        world_height as int,
                        draws@[k],
                    ),
                forall|k: int|
                    0 <= k < i ==> spawn_ok(#[trigger] r@[k], world_width as int, world_height as int),
            decreases draws.len() - i,
        {
            r.push(Boid::from_draw(world_width, world_height, draws[i]));
            i = i + 1;
        }
        assert(r@ =~= spawn_seq(world_width as int, world_height as int, draws@));
        r
    }

    /// `count` new agents from `count` random draws: the result is the one
    /// that `create_boids_from` gives on those draws.
    pub fn create_boids(count: usize, world_width: i64, world_height: i64) -> (r: Vec<Boid>)
        requires
            0 <= world_width <= COORD_LIMIT,
            0 <= world_height <= COORD_LIMIT,
        ensures
            r.len() == count,
            forall|i: int|
                0 <= i < count ==> spawn_ok(#[trigger] r@[i], world_width as int, world_height as int),
            exists|draws: Seq<SpawnDraw>|
                draws.len() == count && r@ == #[trigger] spawn_seq(
                    world_width as int,
                    world_height as int,
                    draws,
                ),
    {
        let draws = random_draws(count);
        let r = Boid::create_boids_from(&draws, world_width, world_height);
        assert(r@ == spawn_seq(world_width as int, world_height as int, draws@));
        r
    }

    /// The rules that one tick applies, in order.
    pub fn create_bt() -> (r: Vec<BoidAction>)
        ensures
            r@ == pipeline(),
    {
        let r = vec![
            BoidAction::AvoidOthers,
            BoidAction::FlyTowardsCenter,
            BoidAction::MatchVelocity,
            BoidAction::LimitSpeed,
            BoidAction::KeepWithinBounds,
        ];
        assert(r@ =~= pipeline());
        r
    }

    /// Applies one rule.
    pub fn act(&mut self, action: BoidAction, others: &Vec<Boid>, bounds: &WorldBounds, cursor: Point)
        requires
            old(self).steerable(),
            flock_wf(others@),
            bounds.wf(),
            cursor.wf(),
        ensures
            *final(self) == apply_action(action, *old(self), others@, *bounds, cursor),
    {
        match action {
            BoidAction::AvoidOthers => self.avoid_others(others),
            BoidAction::FlyTowardsCenter => self.fly_towards_center(others),
            BoidAction::MatchVelocity => self.match_velocity(others),
            BoidAction::LimitSpeed => self.limit_speed(),
            BoidAction::KeepWithinBounds => self.keep_within_bounds(bounds, cursor),
        }
    }

    /// Runs the five rules on `boid`, in the order of `create_bt`, against
    /// the other agents as given. The position is left as it was.
    pub fn game_tick(cursor: Point, bounds: &WorldBounds, boid: &mut Boid, other_boids: &Vec<Boid>)
        requires
            old(boid).wf(),
            flock_wf(other_boids@),
            bounds.wf(),
            cursor.wf(),
        ensures
            *final(boid) == steered(*old(boid), other_boids@, *bounds, cursor),
            final(boid).wf(),
            bounded(final(boid).dx as int, SPEED_LIMIT + TURN_FACTOR + CURSOR_AVOID_RADIUS),
            bounded(final(boid).dy as int, SPEED_LIMIT + TURN_FACTOR + CURSOR_AVOID_RADIUS),
            final(boid).speed_sq() <= SPEED_BOUND_AFTER_STEERING * SPEED_BOUND_AFTER_STEERING,
    {
        boid.avoid_others(other_boids);
        boid.fly_towards_center(other_boids);
        boid.match_velocity(other_boids);
        boid.limit_speed();
        boid.keep_within_bounds(bounds, cursor);
    }

    /// Moves the agent by its velocity over `dt_ms` milliseconds.
    pub fn advance(&mut self, dt_ms: u32)
        requires
            old(self).wf(),
        ensures
            *final(self) == advanced(*old(self), dt_ms as int),
            final(self).wf(),
    {
        proof {
            assert(-(COORD_LIMIT * 0x1_0000_0000) <= self.dx * dt_ms <= COORD_LIMIT * 0x1_0000_0000)
                by (nonlinear_arith)
                requires
                    bounded(self.dx as int, COORD_LIMIT as int),
                    0 <= dt_ms < 0x1_0000_0000,
            ;
            assert(-(COORD_LIMIT * 0x1_0000_0000) <= self.dy * dt_ms <= COORD_LIMIT * 0x1_0000_0000)
                by (nonlinear_arith)
                requires
                    bounded(self.dy as int, COORD_LIMIT as int),
                    0 <= dt_ms < 0x1_0000_0000,
            ;
            lemma_trunc_div_bound(self.dx * dt_ms, 1000, COORD_LIMIT * 0x1_0000_0000);
            lemma_trunc_div_bound(self.dy * dt_ms, 1000, COORD_LIMIT * 0x1_0000_0000);
        }
        let mx = div_toward_zero((self.dx as i128) * (dt_ms as i128), 1000);
        let my = div_toward_zero((self.dy as i128) * (dt_ms as i128), 1000);
        let nx = (self.x as i128) + mx;
        let ny = (self.y as i128) + my;
        self.x = clamp_i128(nx);
        self.y = clamp_i128(ny);
    }
}

fn clamp_i128(v: i128) -> (r: i64)
    ensures
        r == clamp_coord(v as int),
{
    if v > COORD_LIMIT as i128 {
        COORD_LIMIT
    } else if v < -(COORD_LIMIT as i128) {
        -COORD_LIMIT
    } else {
        v as i64
    }
}

} // verus!
