use vstd::prelude::*;
use crate::geometry::{
    COORD_LIMIT, Pos2, sq_dist, floor_sqrt, isqrt, lemma_floor_sqrt_bounds, lemma_floor_sqrt_unique,
};

verus! {

/// `a / b` rounded toward zero, for `b > 0`.
pub open spec fn div_toward_zero(a: int, b: int) -> int {
    if a >= 0 {
        a / b
    } else {
        -((-a) / b)
    }
}

/// Every point of the segment from `(px, py)` to `(qx, qy)` lies at squared
/// distance at least `m2` from `(ox, oy)`. With `v` the offset of `o` from
/// the start and `s` the segment's offset, the nearest point is the start
/// when `v·s <= 0`, the end when `v·s >= |s|²`, and otherwise the foot of the
/// perpendicular, at squared distance `(v × s)² / |s|²`.
pub open spec fn segment_keeps(px: int, py: int, qx: int, qy: int, ox: int, oy: int, m2: int) -> bool {
    let vx = ox - px;
    let vy = oy - py;
    let sx = qx - px;
    let sy = qy - py;
    let d = vx * sx + vy * sy;
    let ss = sx * sx + sy * sy;
    let cross = vx * sy - vy * sx;
    &&& sq_dist(px, py, ox, oy) >= m2
    &&& sq_dist(qx, qy, ox, oy) >= m2
    &&& (d <= 0 || d >= ss || cross * cross >= m2 * ss)
}

/// How far a player whose centre is `a` (squared) away from the opponent's
/// can still approach before the circles touch (centre distance `min_dist`),
/// rounded down; zero when they already touch or overlap.
pub open spec fn approach_room(a: int, min_dist: int) -> int {
    let r = floor_sqrt(a as nat) as int;
    if r > min_dist {
        r - min_dist
    } else {
        0
    }
}

/// Offset that replaces a blocked horizontal move `(dx, 0)` next to an
/// opponent at offset `v = (vx, vy)`. The move splits into its part along
/// `v`, of length `dx * vx / |v|`, and its sideways part
/// `dx * (vy * vy, -vx * vy) / |v|²`. When the part along `v` fits in the
/// room left before contact the move is kept whole; otherwise the sideways
/// part is kept and the part along `v` is cut to the room, `room * v / |v|`.
/// `|v|` is taken rounded down, and each term is rounded toward zero.
pub open spec fn slide_offset(vx: int, vy: int, dx: int, min_dist: int) -> (int, int) {
    let a = vx * vx + vy * vy;
    let r = floor_sqrt(a as nat) as int;
    let room = approach_room(a, min_dist);
    if dx * vx * r <= room * a {
        (dx, 0)
    } else {
        (
            div_toward_zero(dx * (vy * vy), a) + div_toward_zero(vx * room, r),
            div_toward_zero(-dx * (vx * vy), a) + div_toward_zero(vy * room, r),
        )
    }
}

/// `|x|`.
pub open spec fn abs(x: int) -> int {
    if x >= 0 {
        x
    } else {
        -x
    }
}

/// The sign of `x`: 1, -1 or 0.
pub open spec fn sign(x: int) -> int {
    if x > 0 {
        1
    } else if x < 0 {
        -1
    } else {
        0
    }
}

/// `√a`, rounded up.
pub open spec fn ceil_sqrt(a: int) -> int {
    let r = floor_sqrt(a as nat) as int;
    if r * r == a {
        r
    } else {
        r + 1
    }
}

/// Largest projection `v·s` that a slide `s` away from a start whose offset
/// to the opponent is `v`, with `|v|² = a`, may have so that no point of its
/// path comes closer than the contact distance (or than the start, when the
/// start already overlaps). It is `|v|` times the room left, with `|v|`
/// rounded up in the product with `min_dist`.
pub open spec fn slide_limit(a: int, min_dist: int) -> int {
    if a >= min_dist * min_dist {
        a - min_dist * ceil_sqrt(a)
    } else {
        0
    }
}

/// How many unit steps back along `(sign(vx), sign(vy))` bring the rounded
/// slide `s` within `slide_limit` `k`; each such step lowers `v·s` by
/// `|vx| + |vy|`.
pub open spec fn backoff(vx: int, vy: int, s: (int, int), k: int) -> int {
    let d = vx * s.0 + vy * s.1;
    let b = abs(vx) + abs(vy);
    if d <= k {
        0
    } else {
        (d - k + b - 1) / b
    }
}

/// The slide that a blocked move makes: the rounded `slide_offset`, backed
/// off by the fewest whole steps that keep its path clear.
pub open spec fn settled_offset(vx: int, vy: int, dx: int, min_dist: int) -> (int, int) {
    let s = slide_offset(vx, vy, dx, min_dist);
    let c = backoff(vx, vy, s, slide_limit(vx * vx + vy * vy, min_dist));
    (s.0 - c * sign(vx), s.1 - c * sign(vy))
}

/// Where a player at `p` ends up after asking to move by `(dx, 0)` next to an
/// opponent at `o`, when the centres must stay `min_dist` apart. A move whose
/// whole path keeps clear is made as asked. Otherwise the player slides by
/// `settled_offset`: it keeps the sideways part of the move and approaches
/// only as far as the room left allows. Coinciding centres give no
/// direction to slide in, and the player stays put.
pub open spec fn resolved_position(p: Pos2, o: Pos2, min_dist: int, dx: int) -> (int, int) {
    let m2 = min_dist * min_dist;
    if segment_keeps(p.x as int, p.y as int, p.x + dx, p.y as int, o.x as int, o.y as int, m2) {
        (p.x + dx, p.y as int)
    } else if p == o {
        (p.x as int, p.y as int)
    } else {
        let s = settled_offset(o.x - p.x, o.y - p.y, dx, min_dist);
        (p.x + s.0, p.y + s.1)
    }
}

proof fn lemma_mul_abs(x: int, y: int, bx: int, by: int)
    requires
        -bx <= x <= bx,
        -by <= y <= by,
    ensures
        -(bx * by) <= x * y <= bx * by,
{
    assert(-(bx * by) <= x * y <= bx * by) by (nonlinear_arith)
        requires
            -bx <= x <= bx,
            -by <= y <= by,
    ;
}

/// `|x * y / z|`, rounded toward zero, is at most `|x|` when `|y| <= z`.
proof fn lemma_share_bound(x: int, y: int, z: int)
    requires
        z > 0,
        -z <= y <= z,
    ensures
        -(if x >= 0 { x } else { -x }) <= div_toward_zero(x * y, z) <= (if x >= 0 { x } else { -x }),
{
    let ax = if x >= 0 { x } else { -x };
    let n = x * y;
    let an = if n >= 0 { n } else { -n };
    assert(an <= ax * z) by (nonlinear_arith)
        requires
            -z <= y <= z,
            n == x * y,
            an == n || an == -n,
            ax == x || ax == -x,
            ax >= 0,
    ;
    assert(an / z <= ax && an / z >= 0) by (nonlinear_arith)
        requires
            0 <= an <= ax * z,
            z > 0,
    ;
}

fn div_tz(a: i128, b: i128) -> (r: i128)
    requires
        b > 0,
        -0x1000_0000_0000_0000_0000_0000_0000 <= a <= 0x1000_0000_0000_0000_0000_0000_0000,
    ensures
        r == div_toward_zero(a as int, b as int),
{
    if a >= 0 {
        assert((a as u128) / (b as u128) <= a) by (nonlinear_arith)
            requires
                a >= 0,
                b > 0,
        ;
        ((a as u128) / (b as u128)) as i128
    } else {
        assert(((-a) as u128) / (b as u128) <= -a) by (nonlinear_arith)
            requires
                a < 0,
                b > 0,
        ;
        -((((-a) as u128) / (b as u128)) as i128)
    }
}

/// Decides `segment_keeps` for points within range.
fn segment_stays_clear(px: i128, py: i128, qx: i128, qy: i128, ox: i128, oy: i128, m2: i128) -> (r:
    bool)
    requires
        -COORD_LIMIT <= px <= COORD_LIMIT,
        -COORD_LIMIT <= py <= COORD_LIMIT,
        -COORD_LIMIT <= ox <= COORD_LIMIT,
        -COORD_LIMIT <= oy <= COORD_LIMIT,
        -0x8000_0000 <= qx - px <= 0x8000_0000,
        -0x8000_0000 <= qy - py <= 0x8000_0000,
        0 <= m2 <= 0x2000_0000_0000_0000,
    ensures
        r == segment_keeps(px as int, py as int, qx as int, qy as int, ox as int, oy as int, m2 as int),
{
    let vx = ox - px;
    let vy = oy - py;
    let sx = qx - px;
    let sy = qy - py;
    let ex = qx - ox;
    let ey = qy - oy;
    proof {
        lemma_mul_abs(vx as int, vx as int, 0x4000_0000, 0x4000_0000);
        lemma_mul_abs(vy as int, vy as int, 0x4000_0000, 0x4000_0000);
        lemma_mul_abs(ex as int, ex as int, 0x1_0000_0000, 0x1_0000_0000);
        lemma_mul_abs(ey as int, ey as int, 0x1_0000_0000, 0x1_0000_0000);
        lemma_mul_abs(vx as int, sx as int, 0x4000_0000, 0x8000_0000);
        lemma_mul_abs(vy as int, sy as int, 0x4000_0000, 0x8000_0000);
        lemma_mul_abs(vx as int, sy as int, 0x4000_0000, 0x8000_0000);
        lemma_mul_abs(vy as int, sx as int, 0x4000_0000, 0x8000_0000);
        lemma_mul_abs(sx as int, sx as int, 0x8000_0000, 0x8000_0000);
        lemma_mul_abs(sy as int, sy as int, 0x8000_0000, 0x8000_0000);
    }
    let start = vx * vx + vy * vy;
    let end = ex * ex + ey * ey;
    let d = vx * sx + vy * sy;
    let ss = sx * sx + sy * sy;
    let cross = vx * sy - vy * sx;
    proof {
        lemma_mul_abs(cross as int, cross as int, 0x8000_0000_0000_0000, 0x8000_0000_0000_0000);
        lemma_mul_abs(m2 as int, ss as int, 0x2000_0000_0000_0000, 0x8000_0000_0000_0000);
        assert(sq_dist(px as int, py as int, ox as int, oy as int) == start) by (nonlinear_arith)
            requires
                vx == ox - px,
                vy == oy - py,
                start == vx * vx + vy * vy,
        ;
    }
    start >= m2 && end >= m2 && (d <= 0 || d >= ss || cross * cross >= m2 * ss)
}

/// Moves the player at `p` by `(dx, 0)` unless its path would bring its
/// circle into the opponent's at `o` (centres closer than `min_dist`); then
/// it keeps the sideways part of the move and approaches only as far as the
/// room before contact allows.
/// Computes `slide_offset` for offsets within range.
fn rounded_slide(vx: i128, vy: i128, d: i128, md: i128) -> (r: (i128, i128))
    requires
        vx != 0 || vy != 0,
        -0x4000_0000 <= vx <= 0x4000_0000,
        -0x4000_0000 <= vy <= 0x4000_0000,
        -COORD_LIMIT <= d <= COORD_LIMIT,
        0 <= md <= 2 * COORD_LIMIT,
    ensures
        (r.0 as int, r.1 as int) == slide_offset(vx as int, vy as int, d as int, md as int),
        -0x8000_0000 <= r.0 <= 0x8000_0000,
        -0x8000_0000 <= r.1 <= 0x8000_0000,
{
    proof {
        lemma_mul_abs(md as int, md as int, 0x4000_0000, 0x4000_0000);
    }
    let m2 = md * md;
    proof {
        lemma_mul_abs(vx as int, vx as int, 0x4000_0000, 0x4000_0000);
        lemma_mul_abs(vy as int, vy as int, 0x4000_0000, 0x4000_0000);
        lemma_mul_abs(vx as int, vy as int, 0x4000_0000, 0x4000_0000);
    }
    let a = vx * vx + vy * vy;
    proof {
        assert(a > 0) by (nonlinear_arith)
            requires
                vx != 0 || vy != 0,
                a == vx * vx + vy * vy,
        ;
    }
    let r = isqrt(a as u128) as i128;
    proof {
        lemma_floor_sqrt_bounds(a as nat);
        assert(1 <= r <= 0x8000_0000) by (nonlinear_arith)
            requires
                r * r <= a,
                a < (r + 1) * (r + 1),
                a >= 1,
                a <= 0x4000_0000_0000_0000,
                r >= 0,
        ;
    }
    let room: i128 = if r > md {
        r - md
    } else {
        0
    };
    proof {
        lemma_mul_abs(d as int, vx as int, 0x2000_0000, 0x4000_0000);
        lemma_mul_abs(d * vx, r as int, 0x1000_0000_0000_0000, 0x8000_0000);
        lemma_mul_abs(room as int, a as int, 0x8000_0000, 0x8000_0000_0000_0000);
    }
    let (sx, sy) = if d * vx * r <= room * a {
        (d, 0i128)
    } else {
        let vyy = vy * vy;
        let vxy = vx * vy;
        proof {
            lemma_mul_abs(d as int, vyy as int, 0x2000_0000, 0x1000_0000_0000_0000);
            lemma_mul_abs(-d, vxy as int, 0x2000_0000, 0x1000_0000_0000_0000);
            lemma_mul_abs(vx as int, room as int, 0x4000_0000, 0x8000_0000);
            lemma_mul_abs(vy as int, room as int, 0x4000_0000, 0x8000_0000);
            assert(-a <= vxy <= a) by (nonlinear_arith)
                requires
                    vxy == vx * vy,
                    a == vx * vx + vy * vy,
            ;
            assert(0 <= vyy <= a) by (nonlinear_arith)
                requires
                    vyy == vy * vy,
                    a == vx * vx + vy * vy,
            ;
            lemma_share_bound(d as int, vyy as int, a as int);
            lemma_share_bound(-d, vxy as int, a as int);
            lemma_share_bound(vx as int, room as int, r as int);
            lemma_share_bound(vy as int, room as int, r as int);
        }
        (div_tz(d * vyy, a) + div_tz(vx * room, r), div_tz(-d * vxy, a) + div_tz(vy * room, r))
    };
    (sx, sy)
}

/// Computes `settled_offset` for offsets within range.
fn settle(vx: i128, vy: i128, d: i128, md: i128) -> (r: (i128, i128))
    requires
        vx != 0 || vy != 0,
        -0x4000_0000 <= vx <= 0x4000_0000,
        -0x4000_0000 <= vy <= 0x4000_0000,
        -COORD_LIMIT <= d <= COORD_LIMIT,
        0 <= md <= 2 * COORD_LIMIT,
    ensures
        (r.0 as int, r.1 as int) == settled_offset(vx as int, vy as int, d as int, md as int),
        -0x8000_0002 <= r.0 <= 0x8000_0002,
        -0x8000_0002 <= r.1 <= 0x8000_0002,
{
    let (sx, sy) = rounded_slide(vx, vy, d, md);
    proof {
        lemma_mul_abs(md as int, md as int, 0x4000_0000, 0x4000_0000);
        lemma_mul_abs(vx as int, vx as int, 0x4000_0000, 0x4000_0000);
        lemma_mul_abs(vy as int, vy as int, 0x4000_0000, 0x4000_0000);
    }
    let m2 = md * md;
    let a = vx * vx + vy * vy;
    proof {
        assert(a > 0) by (nonlinear_arith)
            requires
                vx != 0 || vy != 0,
                a == vx * vx + vy * vy,
        ;
    }
    let r = isqrt(a as u128) as i128;
    proof {
        lemma_sqrt_facts(a as int);
        assert(r <= 0x8000_0000) by (nonlinear_arith)
            requires
                r * r <= a,
                a <= 0x4000_0000_0000_0000,
                r >= 0,
        ;
    }
    proof {
        lemma_mul_abs(vx as int, sx as int, 0x4000_0000, 0x8000_0000);
        lemma_mul_abs(vy as int, sy as int, 0x4000_0000, 0x8000_0000);
        lemma_backoff_small(vx as int, vy as int, d as int, md as int);
    }
    let big: i128 = if r * r == a {
        r
    } else {
        r + 1
    };
    proof {
        lemma_mul_abs(md as int, big as int, 0x4000_0000, 0x8000_0001);
    }
    let k: i128 = if a >= m2 {
        a - md * big
    } else {
        0
    };
    let dot = vx * sx + vy * sy;
    let avx: i128 = if vx >= 0 {
        vx
    } else {
        -vx
    };
    let avy: i128 = if vy >= 0 {
        vy
    } else {
        -vy
    };
    let b = avx + avy;
    let c: i128 = if dot <= k {
        0
    } else {
        ((dot - k + b - 1) as u128 / b as u128) as i128
    };
    let gx: i128 = if vx > 0 {
        1
    } else if vx < 0 {
        -1
    } else {
        0
    };
    let gy: i128 = if vy > 0 {
        1
    } else if vy < 0 {
        -1
    } else {
        0
    };
    assert(-2 <= c * gx <= 2 && -2 <= c * gy <= 2) by (nonlinear_arith)
        requires
            0 <= c <= 2,
            -1 <= gx <= 1,
            -1 <= gy <= 1,
    ;
    (sx - c * gx, sy - c * gy)
}

pub fn resolve_move(p: Pos2, o: Pos2, min_dist: i64, dx: i64) -> (r: Pos2)
    requires
        p.in_range(),
        o.in_range(),
        0 <= min_dist <= 2 * COORD_LIMIT,
        -COORD_LIMIT <= dx <= COORD_LIMIT,
    ensures
        (r.x as int, r.y as int) == resolved_position(p, o, min_dist as int, dx as int),
{
    let px = p.x as i128;
    let py = p.y as i128;
    let ox = o.x as i128;
    let oy = o.y as i128;
    let d = dx as i128;
    let md = min_dist as i128;
    proof {
        lemma_mul_abs(md as int, md as int, 0x4000_0000, 0x4000_0000);
    }
    let m2 = md * md;
    if segment_stays_clear(px, py, px + d, py, ox, oy, m2) {
        return Pos2 { x: (px + d) as i64, y: p.y };
    }
    if p.x == o.x && p.y == o.y {
        return p;
    }
    let vx = ox - px;
    let vy = oy - py;
    let (sx, sy) = settle(vx, vy, d, md);
    Pos2 { x: (px + sx) as i64, y: (py + sy) as i64 }
}

/// No tunnelling: from a start clear of the opponent, no point of the path
/// from the start to where the step ends comes closer to the opponent than
/// the contact distance, whatever the move; in particular the player ends
/// clear of it.
pub proof fn lemma_no_tunneling(p: Pos2, o: Pos2, min_dist: int, dx: int)
    requires
        min_dist >= 0,
        sq_dist(p.x as int, p.y as int, o.x as int, o.y as int) >= min_dist * min_dist,
    ensures
        ({
            let r = resolved_position(p, o, min_dist, dx);
            segment_keeps(p.x as int, p.y as int, r.0, r.1, o.x as int, o.y as int, min_dist * min_dist)
        }),
{
    let px = p.x as int;
    let py = p.y as int;
    let m2 = min_dist * min_dist;
    assert(px - px == 0 && py - py == 0);
    assert((o.x - px) * 0 + (o.y - py) * 0 == 0);
    if !segment_keeps(px, py, p.x + dx, py, o.x as int, o.y as int, m2) && p != o {
        let vx = o.x - p.x;
        let vy = o.y - p.y;
        let a = vx * vx + vy * vy;
        assert(a > 0) by (nonlinear_arith)
            requires
                vx != 0 || vy != 0,
                a == vx * vx + vy * vy,
        ;
        assert(a == sq_dist(px, py, o.x as int, o.y as int)) by (nonlinear_arith)
            requires
                vx == o.x - px,
                vy == o.y - py,
                a == vx * vx + vy * vy,
        ;
        lemma_sqrt_facts(a);
        lemma_backoff_small(vx, vy, dx, min_dist);
        let big = ceil_sqrt(a);
        let k = slide_limit(a, min_dist);
        assert(k == a - min_dist * big);
        assert(min_dist * big >= 0) by (nonlinear_arith)
            requires
                min_dist >= 0,
                big >= 1,
        ;
        assert((min_dist * big) * (min_dist * big) >= m2 * a) by (nonlinear_arith)
            requires
                big * big >= a,
                m2 == min_dist * min_dist,
                a > 0,
        ;
        assert(m2 >= 0) by (nonlinear_arith)
            requires
                m2 == min_dist * min_dist,
        ;
        let t = settled_offset(vx, vy, dx, min_dist);
        lemma_clear_by_projection(p, o, t.0, t.1, k, m2);
    }
}

/// A step from within range ends within five times the coordinate limit.
pub proof fn lemma_resolved_in_bounds(p: Pos2, o: Pos2, min_dist: int, dx: int)
    requires
        p.in_range(),
        o.in_range(),
        0 <= min_dist,
        -COORD_LIMIT <= dx <= COORD_LIMIT,
    ensures
        ({
            let r = resolved_position(p, o, min_dist, dx);
            -5 * COORD_LIMIT <= r.0 <= 5 * COORD_LIMIT && -5 * COORD_LIMIT <= r.1 <= 5
                * COORD_LIMIT
        }),
{
    let vx = o.x - p.x;
    let vy = o.y - p.y;
    let a = vx * vx + vy * vy;
    if p != o {
        assert(a > 0) by (nonlinear_arith)
            requires
                vx != 0 || vy != 0,
                a == vx * vx + vy * vy,
        ;
        let r = floor_sqrt(a as nat) as int;
        lemma_floor_sqrt_bounds(a as nat);
        assert(r >= 1) by (nonlinear_arith)
            requires
                a < (r + 1) * (r + 1),
                a >= 1,
                r >= 0,
        ;
        let room = approach_room(a, min_dist);
        assert(-a <= vx * vy <= a) by (nonlinear_arith)
            requires
                a == vx * vx + vy * vy,
        ;
        assert(0 <= vy * vy <= a) by (nonlinear_arith)
            requires
                a == vx * vx + vy * vy,
        ;
        lemma_share_bound(dx, vy * vy, a);
        lemma_share_bound(-dx, vx * vy, a);
        lemma_share_bound(vx, room, r);
        lemma_share_bound(vy, room, r);
        lemma_backoff_small(vx, vy, dx, min_dist);
        let s = slide_offset(vx, vy, dx, min_dist);
        let c = backoff(vx, vy, s, slide_limit(a, min_dist));
        assert(-2 <= c * sign(vx) <= 2 && -2 <= c * sign(vy) <= 2) by (nonlinear_arith)
            requires
                0 <= c <= 2,
                -1 <= sign(vx) <= 1,
                -1 <= sign(vy) <= 1,
        ;
    }
}

/// Standing still: with no requested move the player does not move, whatever
/// the opponent's position.
pub proof fn lemma_idle_stays(p: Pos2, o: Pos2, min_dist: int)
    requires
        min_dist >= 0,
    ensures
        resolved_position(p, o, min_dist, 0) == (p.x as int, p.y as int),
{
    let vx = o.x - p.x;
    let vy = o.y - p.y;
    let a = vx * vx + vy * vy;
    if p != o {
        assert(a > 0) by (nonlinear_arith)
            requires
                vx != 0 || vy != 0,
                a == vx * vx + vy * vy,
        ;
        let room = approach_room(a, min_dist);
        assert(room * a >= 0) by (nonlinear_arith)
            requires
                room >= 0,
                a > 0,
        ;
        let r = floor_sqrt(a as nat) as int;
        assert(0 * vx * r == 0) by (nonlinear_arith);
        let m2 = min_dist * min_dist;
        assert(0 * vx + 0 * vy == 0);
        if !segment_keeps(p.x as int, p.y as int, p.x + 0, p.y as int, o.x as int, o.y as int, m2) {
            assert(a == sq_dist(p.x as int, p.y as int, o.x as int, o.y as int)) by (nonlinear_arith)
                requires
                    vx == o.x - p.x,
                    vy == o.y - p.y,
                    a == vx * vx + vy * vy,
            ;
            assert(a < m2);
            assert(slide_limit(a, min_dist) == 0);
            assert(vx * 0 + vy * 0 == 0);
            assert(0 * sign(vx) == 0 && 0 * sign(vy) == 0);
        }
    }
}

/// What rounding toward zero leaves over is smaller than the divisor.
proof fn lemma_rest_below(n: int, z: int)
    requires
        z > 0,
    ensures
        -z < n - z * div_toward_zero(n, z) < z,
{
    if n >= 0 {
        assert(0 <= n - z * (n / z) < z) by (nonlinear_arith)
            requires
                n >= 0,
                z > 0,
        ;
    } else {
        assert(0 <= (-n) - z * ((-n) / z) < z) by (nonlinear_arith)
            requires
                n < 0,
                z > 0,
        ;
        assert(z * (-((-n) / z)) == -(z * ((-n) / z))) by (nonlinear_arith);
    }
}

/// `vx * (x2 - y2) - vy * (x1 - y1)`, with both rests below `z`, is below
/// `(|vx| + |vy|) * z`.
proof fn lemma_mixed_rest(vx: int, vy: int, e1: int, e2: int, z: int)
    requires
        z > 0,
        -z < e1 < z,
        -z < e2 < z,
        vx != 0 || vy != 0,
    ensures
        ({
            let b = (if vx >= 0 { vx } else { -vx }) + (if vy >= 0 { vy } else { -vy });
            -(b * z) < vy * e1 - vx * e2 < b * z
        }),
{
    let ax = if vx >= 0 { vx } else { -vx };
    let ay = if vy >= 0 { vy } else { -vy };
    assert(-(ay * z) <= vy * e1 <= ay * z) by (nonlinear_arith)
        requires
            -z < e1 < z,
            ay == vy || ay == -vy,
            ay >= 0,
    ;
    assert(-(ax * z) <= vx * e2 <= ax * z) by (nonlinear_arith)
        requires
            -z < e2 < z,
            ax == vx || ax == -vx,
            ax >= 0,
    ;
    assert(-((ax + ay) * z) < vy * e1 - vx * e2 < (ax + ay) * z) by (nonlinear_arith)
        requires
            -(ay * z) <= vy * e1 <= ay * z,
            -(ax * z) <= vx * e2 <= ax * z,
            -z < e1 < z,
            -z < e2 < z,
            ax > 0 || ay > 0,
            z > 0,
            ax == vx || ax == -vx,
            ay == vy || ay == -vy,
    {
        if ax > 0 {
            assert(-(ax * z) < vx * e2 < ax * z) by (nonlinear_arith)
                requires
                    -z < e2 < z,
                    ax == vx || ax == -vx,
                    ax > 0,
            ;
        } else {
            assert(-(ay * z) < vy * e1 < ay * z) by (nonlinear_arith)
                requires
                    -z < e1 < z,
                    ay == vy || ay == -vy,
                    ay > 0,
            ;
        }
    }
}

/// The rounded slide keeps the sideways part of the move: measured across
/// the line of centres (the cross product with `v`), it and `(dx, 0)` differ
/// by less than `2 * (|vx| + |vy|)`.
proof fn lemma_rounded_slide_sideways(vx: int, vy: int, dx: int, min_dist: int)
    requires
        vx != 0 || vy != 0,
        min_dist >= 0,
    ensures
        ({
            let s = slide_offset(vx, vy, dx, min_dist);
            let b = (if vx >= 0 { vx } else { -vx }) + (if vy >= 0 { vy } else { -vy });
            -2 * b < (vx * s.1 - vy * s.0) - (vx * 0 - vy * dx) < 2 * b
        }),
{
    let a = vx * vx + vy * vy;
    assert(a > 0) by (nonlinear_arith)
        requires
            vx != 0 || vy != 0,
            a == vx * vx + vy * vy,
    ;
    let r = floor_sqrt(a as nat) as int;
    lemma_floor_sqrt_bounds(a as nat);
    assert(r >= 1) by (nonlinear_arith)
        requires
            a < (r + 1) * (r + 1),
            a >= 1,
            r >= 0,
    ;
    let room = approach_room(a, min_dist);
    let b = (if vx >= 0 { vx } else { -vx }) + (if vy >= 0 { vy } else { -vy });
    assert(b > 0);
    if dx * vx * r <= room * a {
        assert(vx * 0 - vy * dx == -(vy * dx)) by (nonlinear_arith);
    } else {
        let n1 = dx * (vy * vy);
        let n2 = -dx * (vx * vy);
        let m1 = vx * room;
        let m2 = vy * room;
        let a1 = div_toward_zero(n1, a);
        let a2 = div_toward_zero(n2, a);
        let b1 = div_toward_zero(m1, r);
        let b2 = div_toward_zero(m2, r);
        lemma_rest_below(n1, a);
        lemma_rest_below(n2, a);
        lemma_rest_below(m1, r);
        lemma_rest_below(m2, r);
        let e1 = n1 - a * a1;
        let e2 = n2 - a * a2;
        let f1 = m1 - r * b1;
        let f2 = m2 - r * b2;
        lemma_mixed_rest(vx, vy, e1, e2, a);
        lemma_mixed_rest(vx, vy, f1, f2, r);
        assert(a * (vx * a2 - vy * a1 + vy * dx) == vy * e1 - vx * e2) by (nonlinear_arith)
            requires
                e1 == n1 - a * a1,
                e2 == n2 - a * a2,
                n1 == dx * (vy * vy),
                n2 == -dx * (vx * vy),
                a == vx * vx + vy * vy,
        ;
        assert(r * (vx * b2 - vy * b1) == vy * f1 - vx * f2) by (nonlinear_arith)
            requires
                f1 == m1 - r * b1,
                f2 == m2 - r * b2,
                m1 == vx * room,
                m2 == vy * room,
        ;
        assert(-b < vx * a2 - vy * a1 + vy * dx < b) by (nonlinear_arith)
            requires
                a * (vx * a2 - vy * a1 + vy * dx) == vy * e1 - vx * e2,
                -(b * a) < vy * e1 - vx * e2 < b * a,
                a > 0,
        ;
        assert(-b < vx * b2 - vy * b1 < b) by (nonlinear_arith)
            requires
                r * (vx * b2 - vy * b1) == vy * f1 - vx * f2,
                -(b * r) < vy * f1 - vx * f2 < b * r,
                r > 0,
        ;
        assert(vx * (a2 + b2) - vy * (a1 + b1) == (vx * a2 - vy * a1) + (vx * b2 - vy * b1))
            by (nonlinear_arith);
        assert(vx * 0 - vy * dx == -(vy * dx)) by (nonlinear_arith);
    }
}

/// Coming to rest in contact: a player level with the opponent and clear of
/// it, pushing toward it by more than the room left, stops exactly at the
/// contact distance; pushing again from there leaves it there.
pub proof fn lemma_head_on_rests_in_contact(p: Pos2, o: Pos2, min_dist: int, dx: int)
    requires
        min_dist > 0,
        p.y == o.y,
        o.x - p.x >= min_dist,
        dx > o.x - p.x - min_dist,
    ensures
        resolved_position(p, o, min_dist, dx) == (o.x - min_dist, o.y as int),
{
    let vx = o.x - p.x;
    let m2 = min_dist * min_dist;
    let room = vx - min_dist;
    // The straight move is blocked.
    let qx = p.x + dx;
    let ss0 = dx * dx;
    let d0 = vx * dx;
    if qx - o.x < min_dist {
        assert(-min_dist < qx - o.x);
        assert((qx - o.x) * (qx - o.x) < m2) by (nonlinear_arith)
            requires
                -min_dist < qx - o.x < min_dist,
                m2 == min_dist * min_dist,
        ;
    } else {
        assert(d0 < ss0) by (nonlinear_arith)
            requires
                d0 == vx * dx,
                ss0 == dx * dx,
                vx < dx,
                vx > 0,
        ;
        assert(d0 > 0) by (nonlinear_arith)
            requires
                d0 == vx * dx,
                vx > 0,
                dx > 0,
        ;
        assert(vx * 0 - 0 * dx == 0);
        assert(m2 * ss0 > 0) by (nonlinear_arith)
            requires
                m2 == min_dist * min_dist,
                ss0 == dx * dx,
                min_dist > 0,
                dx > 0,
        ;
    }
    assert(!segment_keeps(p.x as int, p.y as int, p.x + dx, p.y as int, o.x as int, o.y as int, m2));
    // The slide goes straight to contact.
    let a = vx * vx + 0 * 0;
    assert(a == vx * vx);
    assert(vx * vx < (vx + 1) * (vx + 1)) by (nonlinear_arith)
        requires
            vx > 0,
    ;
    lemma_floor_sqrt_unique(a as nat, vx as nat);
    assert(approach_room(a, min_dist) == room);
    assert(dx * vx * vx > room * a) by (nonlinear_arith)
        requires
            dx > room,
            room >= 0,
            a == vx * vx,
            vx > 0,
    ;
    assert(dx * (0 * 0) == 0 && -dx * (vx * 0) == 0 && 0 * room == 0) by (nonlinear_arith);
    assert(0int / a == 0) by (nonlinear_arith)
        requires
            a > 0,
    ;
    assert((vx * room) / vx == room) by (nonlinear_arith)
        requires
            vx > 0,
            room >= 0,
    ;
    assert(vx * room >= 0) by (nonlinear_arith)
        requires
            vx > 0,
            room >= 0,
    ;
    let s = slide_offset(vx, 0, dx, min_dist);
    assert(s == (room, 0int));
    assert(sq_dist(p.x as int, p.y as int, o.x as int, o.y as int) == a) by (nonlinear_arith)
        requires
            vx == o.x - p.x,
            p.y == o.y,
            a == vx * vx,
    ;
    assert(a >= m2) by (nonlinear_arith)
        requires
            a == vx * vx,
            vx >= min_dist,
            min_dist > 0,
            m2 == min_dist * min_dist,
    ;
    assert(vx * room >= room * room) by (nonlinear_arith)
        requires
            vx >= room,
            room >= 0,
    ;
    assert(vx * room + 0 * 0 == vx * room && room * room + 0 * 0 == room * room);
    assert(sq_dist(p.x + room, p.y as int, o.x as int, o.y as int) == m2) by (nonlinear_arith)
        requires
            room == vx - min_dist,
            vx == o.x - p.x,
            p.y == o.y,
            m2 == min_dist * min_dist,
    ;
    assert(ceil_sqrt(a) == vx);
    assert(slide_limit(a, min_dist) == a - min_dist * vx);
    assert(vx * room + 0 * 0 == a - min_dist * vx) by (nonlinear_arith)
        requires
            room == vx - min_dist,
            a == vx * vx,
    ;
    assert(backoff(vx, 0, s, slide_limit(a, min_dist)) == 0);
    assert(settled_offset(vx, 0, dx, min_dist) == (room, 0int));
}

proof fn lemma_sqrt_facts(a: int)
    requires
        a >= 1,
    ensures
        ({
            let r = floor_sqrt(a as nat) as int;
            let big = ceil_sqrt(a);
            &&& 1 <= r
            &&& r * r <= a < (r + 1) * (r + 1)
            &&& r <= big <= r + 1
            &&& a <= big * big
        }),
{
    let r = floor_sqrt(a as nat) as int;
    lemma_floor_sqrt_bounds(a as nat);
    assert(r >= 1) by (nonlinear_arith)
        requires
            a < (r + 1) * (r + 1),
            a >= 1,
            r >= 0,
    ;
}

/// `z * (x * (x * y / z rounded toward zero)) <= x * x * y` for `y >= 0`.
proof fn lemma_rounded_share_dot(x: int, y: int, z: int)
    requires
        y >= 0,
        z > 0,
    ensures
        z * (x * div_toward_zero(x * y, z)) <= x * x * y,
{
    let t = div_toward_zero(x * y, z);
    if x >= 0 {
        assert(x * y >= 0) by (nonlinear_arith)
            requires
                x >= 0,
                y >= 0,
        ;
        assert(z * ((x * y) / z) <= x * y) by (nonlinear_arith)
            requires
                x * y >= 0,
                z > 0,
        ;
        assert(z * (x * t) <= x * x * y) by (nonlinear_arith)
            requires
                t == (x * y) / z,
                z * ((x * y) / z) <= x * y,
                x >= 0,
        ;
    } else {
        let n = x * y;
        assert(n <= 0) by (nonlinear_arith)
            requires
                x < 0,
                y >= 0,
                n == x * y,
        ;
        if n == 0 {
            assert(0int / z == 0) by (nonlinear_arith)
                requires
                    z > 0,
            ;
            assert(x * x * y >= 0) by (nonlinear_arith)
                requires
                    y >= 0,
            ;
            assert(z * (x * t) == 0) by (nonlinear_arith)
                requires
                    t == 0,
            ;
        } else {
            assert(z * ((-n) / z) <= -n) by (nonlinear_arith)
                requires
                    -n > 0,
                    z > 0,
            ;
            assert(t == -((-n) / z));
            assert(z * (x * t) <= x * x * y) by (nonlinear_arith)
                requires
                    t == -((-n) / z),
                    z * ((-n) / z) <= -n,
                    x < 0,
                    n == x * y,
            ;
        }
    }
}

/// The rounded slide's projection on `v` exceeds the room by less than one
/// step per unit of `|vx| + |vy|`: `r * v·s < r * (|vx| + |vy|) + room * |v|²`.
proof fn lemma_slide_projection(vx: int, vy: int, dx: int, min_dist: int)
    requires
        vx != 0 || vy != 0,
        min_dist >= 0,
    ensures
        ({
            let a = vx * vx + vy * vy;
            let r = floor_sqrt(a as nat) as int;
            let s = slide_offset(vx, vy, dx, min_dist);
            r * (vx * s.0 + vy * s.1) < r * (abs(vx) + abs(vy)) + approach_room(a, min_dist) * a
        }),
{
    let a = vx * vx + vy * vy;
    assert(a > 0) by (nonlinear_arith)
        requires
            vx != 0 || vy != 0,
            a == vx * vx + vy * vy,
    ;
    lemma_sqrt_facts(a);
    let r = floor_sqrt(a as nat) as int;
    let room = approach_room(a, min_dist);
    let b = abs(vx) + abs(vy);
    assert(b > 0);
    assert(r * b > 0) by (nonlinear_arith)
        requires
            r >= 1,
            b > 0,
    ;
    if dx * vx * r <= room * a {
        assert(r * (vx * dx + vy * 0) == dx * vx * r) by (nonlinear_arith);
    } else {
        let n1 = dx * (vy * vy);
        let n2 = -dx * (vx * vy);
        let a1 = div_toward_zero(n1, a);
        let a2 = div_toward_zero(n2, a);
        let b1 = div_toward_zero(vx * room, r);
        let b2 = div_toward_zero(vy * room, r);
        lemma_rest_below(n1, a);
        lemma_rest_below(n2, a);
        let e1 = n1 - a * a1;
        let e2 = n2 - a * a2;
        lemma_mixed_rest(-vy, vx, e1, e2, a);
        assert(a * (vx * a1 + vy * a2) == vx * (a * a1) + vy * (a * a2)) by (nonlinear_arith);
        assert(vx * n1 + vy * n2 == 0) by (nonlinear_arith)
            requires
                n1 == dx * (vy * vy),
                n2 == -dx * (vx * vy),
        ;
        assert(vx * (a * a1) + vy * (a * a2) == vx * n1 + vy * n2 - (vx * e1 + vy * e2))
            by (nonlinear_arith)
            requires
                e1 == n1 - a * a1,
                e2 == n2 - a * a2,
        ;
        assert(abs(-vy) + abs(vx) == b);
        assert(vx * a1 + vy * a2 < b) by (nonlinear_arith)
            requires
                a * (vx * a1 + vy * a2) == -(vx * e1 + vy * e2),
                -(b * a) < vx * e1 - (-vy) * e2 < b * a,
                a > 0,
        ;
        lemma_rounded_share_dot(vx, room, r);
        lemma_rounded_share_dot(vy, room, r);
        assert(r * (vx * b1 + vy * b2) <= room * a) by (nonlinear_arith)
            requires
                r * (vx * b1) <= vx * vx * room,
                r * (vy * b2) <= vy * vy * room,
                a == vx * vx + vy * vy,
        ;
        assert(r * (vx * a1 + vy * a2) < r * b) by (nonlinear_arith)
            requires
                vx * a1 + vy * a2 < b,
                r >= 1,
        ;
        assert(r * (vx * (a1 + b1) + vy * (a2 + b2)) == r * (vx * a1 + vy * a2) + r * (vx * b1
            + vy * b2)) by (nonlinear_arith);
    }
}

/// The backoff is at most two steps, and it brings the projection within
/// the limit.
proof fn lemma_backoff_small(vx: int, vy: int, dx: int, min_dist: int)
    requires
        vx != 0 || vy != 0,
        min_dist >= 0,
    ensures
        ({
            let a = vx * vx + vy * vy;
            let s = slide_offset(vx, vy, dx, min_dist);
            let k = slide_limit(a, min_dist);
            let c = backoff(vx, vy, s, k);
            let t = settled_offset(vx, vy, dx, min_dist);
            &&& 0 <= c <= 2
            &&& vx * t.0 + vy * t.1 <= k
            &&& vx * t.0 + vy * t.1 == vx * s.0 + vy * s.1 - c * (abs(vx) + abs(vy))
        }),
{
    let a = vx * vx + vy * vy;
    assert(a > 0) by (nonlinear_arith)
        requires
            vx != 0 || vy != 0,
            a == vx * vx + vy * vy,
    ;
    lemma_sqrt_facts(a);
    lemma_slide_projection(vx, vy, dx, min_dist);
    let r = floor_sqrt(a as nat) as int;
    let big = ceil_sqrt(a);
    let room = approach_room(a, min_dist);
    let m2 = min_dist * min_dist;
    let b = abs(vx) + abs(vy);
    let s = slide_offset(vx, vy, dx, min_dist);
    let d = vx * s.0 + vy * s.1;
    let k = slide_limit(a, min_dist);
    assert(r <= b) by (nonlinear_arith)
        requires
            r * r <= a,
            a == vx * vx + vy * vy,
            b == abs(vx) + abs(vy),
            abs(vx) == vx || abs(vx) == -vx,
            abs(vy) == vy || abs(vy) == -vy,
            abs(vx) >= 0,
            abs(vy) >= 0,
            r >= 1,
    ;
    // r * (d - k) < 2 * r * b
    if a >= m2 {
        assert(min_dist <= r) by (nonlinear_arith)
            requires
                m2 == min_dist * min_dist,
                a >= m2,
                a < (r + 1) * (r + 1),
                min_dist >= 0,
                r >= 0,
        ;
        assert(big * r <= a + r) by (nonlinear_arith)
            requires
                big <= r + 1,
                r * r <= a,
                r >= 0,
        ;
        if r > min_dist {
            assert(room == r - min_dist);
            let x = big * r;
            assert(r * (d - k) == r * d - r * a + min_dist * x) by (nonlinear_arith)
                requires
                    k == a - min_dist * big,
                    x == big * r,
            ;
            assert(room * a == r * a - min_dist * a) by (nonlinear_arith)
                requires
                    room == r - min_dist,
            ;
            assert(min_dist * x <= min_dist * a + min_dist * r) by (nonlinear_arith)
                requires
                    x <= a + r,
                    min_dist >= 0,
            ;
            assert(min_dist * r <= b * r) by (nonlinear_arith)
                requires
                    min_dist <= b,
                    r >= 0,
            ;
            assert(r * b == b * r) by (nonlinear_arith);
            assert(2 * r * b == r * b + r * b) by (nonlinear_arith);
            assert(r * (d - k) < 2 * r * b);
        } else {
            assert(room == 0);
            assert(r == min_dist);
            let x = big * r;
            assert(r * (d - k) == r * d - r * a + r * x) by (nonlinear_arith)
                requires
                    k == a - min_dist * big,
                    x == big * r,
                    r == min_dist,
            ;
            assert(r * x <= r * a + r * r) by (nonlinear_arith)
                requires
                    x <= a + r,
                    r >= 0,
            ;
            assert(r * r <= r * b) by (nonlinear_arith)
                requires
                    r <= b,
                    r >= 0,
            ;
            assert(room * a == 0);
            assert(2 * r * b == r * b + r * b) by (nonlinear_arith);
            assert(r * (d - k) < 2 * r * b);
        }
    } else {
        assert(r < min_dist) by (nonlinear_arith)
            requires
                m2 == min_dist * min_dist,
                a < m2,
                r * r <= a,
                min_dist >= 0,
                r >= 0,
        ;
        assert(room == 0);
        assert(k == 0);
        assert(r * (d - k) < 2 * r * b) by (nonlinear_arith)
            requires
                r * d < r * b + room * a,
                room == 0,
                k == 0,
                r >= 1,
                b > 0,
        ;
    }
    assert(d - k < 2 * b) by (nonlinear_arith)
        requires
            r * (d - k) < 2 * r * b,
            r >= 1,
    ;
    let c = backoff(vx, vy, s, k);
    if d > k {
        assert(c * b >= d - k && c <= 2 && c >= 0) by (nonlinear_arith)
            requires
                c == (d - k + b - 1) / b,
                0 < d - k < 2 * b,
                b > 0,
        ;
    }
    let t = settled_offset(vx, vy, dx, min_dist);
    assert(vx * sign(vx) == abs(vx) && vy * sign(vy) == abs(vy)) by (nonlinear_arith)
        requires
            vx > 0 ==> sign(vx) == 1 && abs(vx) == vx,
            vx < 0 ==> sign(vx) == -1 && abs(vx) == -vx,
            vx == 0 ==> sign(vx) == 0 && abs(vx) == 0,
            vy > 0 ==> sign(vy) == 1 && abs(vy) == vy,
            vy < 0 ==> sign(vy) == -1 && abs(vy) == -vy,
            vy == 0 ==> sign(vy) == 0 && abs(vy) == 0,
    ;
    assert(vx * t.0 + vy * t.1 == d - c * b) by (nonlinear_arith)
        requires
            t.0 == s.0 - c * sign(vx),
            t.1 == s.1 - c * sign(vy),
            d == vx * s.0 + vy * s.1,
            vx * sign(vx) == abs(vx),
            vy * sign(vy) == abs(vy),
            b == abs(vx) + abs(vy),
    ;
}

proof fn lemma_expand(x1: int, x2: int, y1: int, y2: int)
    ensures
        (x1 + x2) * (y1 + y2) == x1 * y1 + x1 * y2 + x2 * y1 + x2 * y2,
{
    assert((x1 + x2) * (y1 + y2) == x1 * y1 + x1 * y2 + x2 * y1 + x2 * y2) by (nonlinear_arith);
}

proof fn lemma_sq_prod(x: int, y: int)
    ensures
        (x * y) * (x * y) == (x * x) * (y * y),
{
    assert((x * y) * (x * y) == (x * x) * (y * y)) by (nonlinear_arith);
}

/// `|v|² |s|² = (v·s)² + (v × s)²`.
proof fn lemma_lagrange(vx: int, vy: int, sx: int, sy: int)
    ensures
        (vx * vx + vy * vy) * (sx * sx + sy * sy) == (vx * sx + vy * sy) * (vx * sx + vy * sy) + (
        vx * sy - vy * sx) * (vx * sy - vy * sx),
{
    let pp = vx * sx;
    let qq = vy * sy;
    let rr = vx * sy;
    let ss = vy * sx;
    lemma_expand(vx * vx, vy * vy, sx * sx, sy * sy);
    lemma_sq_prod(vx, sx);
    lemma_sq_prod(vx, sy);
    lemma_sq_prod(vy, sx);
    lemma_sq_prod(vy, sy);
    lemma_expand(pp, qq, pp, qq);
    lemma_expand(rr, -ss, rr, -ss);
    assert(pp * qq == rr * ss) by (nonlinear_arith)
        requires
            pp == vx * sx,
            qq == vy * sy,
            rr == vx * sy,
            ss == vy * sx,
    ;
    assert(qq * pp == pp * qq && rr * (-ss) == -(rr * ss) && (-ss) * rr == -(rr * ss) && (-ss) * (
    -ss) == ss * ss) by (nonlinear_arith);
}

/// A slide whose projection on `v` stays within `k`, where `(|v|² - k)² >= lim |v|²`,
/// keeps its whole path at squared distance at least `lim` from the opponent.
proof fn lemma_clear_by_projection(p: Pos2, o: Pos2, sx: int, sy: int, k: int, lim: int)
    requires
        ({
            let vx = o.x - p.x;
            let vy = o.y - p.y;
            let a = vx * vx + vy * vy;
            &&& a > 0
            &&& 0 <= lim <= a
            &&& vx * sx + vy * sy <= k
            &&& a - k >= 0
            &&& (a - k) * (a - k) >= lim * a
        }),
    ensures
        segment_keeps(p.x as int, p.y as int, p.x + sx, p.y + sy, o.x as int, o.y as int, lim),
{
    let vx = o.x - p.x;
    let vy = o.y - p.y;
    let a = vx * vx + vy * vy;
    let d = vx * sx + vy * sy;
    let ss = sx * sx + sy * sy;
    let cross = vx * sy - vy * sx;
    assert(sq_dist(p.x as int, p.y as int, o.x as int, o.y as int) == a) by (nonlinear_arith)
        requires
            vx == o.x - p.x,
            vy == o.y - p.y,
            a == vx * vx + vy * vy,
    ;
    assert(a - k >= lim) by (nonlinear_arith)
        requires
            (a - k) * (a - k) >= lim * a,
            a - k >= 0,
            a > 0,
            lim <= a,
    ;
    // The end point.
    let wx = vx - sx;
    let wy = vy - sy;
    let e = wx * wx + wy * wy;
    lemma_lagrange(vx, vy, wx, wy);
    assert(vx * wx + vy * wy == a - d) by (nonlinear_arith)
        requires
            wx == vx - sx,
            wy == vy - sy,
            a == vx * vx + vy * vy,
            d == vx * sx + vy * sy,
    ;
    let cw = vx * wy - vy * wx;
    assert(cw * cw >= 0) by (nonlinear_arith);
    assert(a * e >= (a - d) * (a - d));
    assert((a - d) * (a - d) >= (a - k) * (a - k)) by (nonlinear_arith)
        requires
            a - d >= a - k,
            a - k >= 0,
    ;
    assert(e >= lim) by (nonlinear_arith)
        requires
            a * e >= lim * a,
            a > 0,
    ;
    assert(sq_dist(p.x + sx, p.y + sy, o.x as int, o.y as int) == e) by (nonlinear_arith)
        requires
            wx == vx - sx,
            wy == vy - sy,
            vx == o.x - p.x,
            vy == o.y - p.y,
            e == wx * wx + wy * wy,
    ;
    // The foot of the perpendicular.
    if 0 < d && d < ss {
        lemma_lagrange(vx, vy, sx, sy);
        assert(d * d <= d * ss) by (nonlinear_arith)
            requires
                0 < d < ss,
        ;
        assert((a - k) * ss >= lim * ss) by (nonlinear_arith)
            requires
                a - k >= lim,
                ss >= 0,
        ;
        assert(a * ss - d * ss >= (a - k) * ss) by (nonlinear_arith)
            requires
                d <= k,
                ss >= 0,
        ;
        assert(cross * cross >= lim * ss);
    }
    assert((p.x + sx) - p.x == sx && (p.y + sy) - p.y == sy);
}

/// Lateral freedom: a blocked move still slides. Where the straight path
/// would bring the player into the opponent, the step it makes keeps the
/// sideways part of the move: measured across the line of centres (the
/// cross product with `v`, which is `|v|` times the sideways distance), the
/// step and the asked-for move `(dx, 0)` differ by less than
/// `4 * (|vx| + |vy|)`, under six position steps of sideways distance. Only
/// the part along the line of centres is cut: the step's projection on `v`
/// is at most `slide_limit`, `|v|` times the room left before contact.
pub proof fn lemma_blocked_move_slides(p: Pos2, o: Pos2, min_dist: int, dx: int)
    requires
        min_dist >= 0,
        p != o,
        !segment_keeps(
            p.x as int,
            p.y as int,
            p.x + dx,
            p.y as int,
            o.x as int,
            o.y as int,
            min_dist * min_dist,
        ),
    ensures
        ({
            let r = resolved_position(p, o, min_dist, dx);
            let vx = o.x - p.x;
            let vy = o.y - p.y;
            let tx = r.0 - p.x;
            let ty = r.1 - p.y;
            let b = abs(vx) + abs(vy);
            &&& -4 * b < (vx * ty - vy * tx) - (vx * 0 - vy * dx) < 4 * b
            &&& vx * tx + vy * ty <= slide_limit(vx * vx + vy * vy, min_dist)
        }),
{
    let vx = o.x - p.x;
    let vy = o.y - p.y;
    let b = abs(vx) + abs(vy);
    lemma_backoff_small(vx, vy, dx, min_dist);
    lemma_rounded_slide_sideways(vx, vy, dx, min_dist);
    let s = slide_offset(vx, vy, dx, min_dist);
    let c = backoff(vx, vy, s, slide_limit(vx * vx + vy * vy, min_dist));
    let t = settled_offset(vx, vy, dx, min_dist);
    let g = vx * sign(vy) - vy * sign(vx);
    assert(-b <= g <= b) by (nonlinear_arith)
        requires
            g == vx * sign(vy) - vy * sign(vx),
            b == abs(vx) + abs(vy),
            vx > 0 ==> sign(vx) == 1 && abs(vx) == vx,
            vx < 0 ==> sign(vx) == -1 && abs(vx) == -vx,
            vx == 0 ==> sign(vx) == 0 && abs(vx) == 0,
            vy > 0 ==> sign(vy) == 1 && abs(vy) == vy,
            vy < 0 ==> sign(vy) == -1 && abs(vy) == -vy,
            vy == 0 ==> sign(vy) == 0 && abs(vy) == 0,
    ;
    assert(vx * t.1 - vy * t.0 == (vx * s.1 - vy * s.0) - c * g) by (nonlinear_arith)
        requires
            t.0 == s.0 - c * sign(vx),
            t.1 == s.1 - c * sign(vy),
            g == vx * sign(vy) - vy * sign(vx),
    ;
    assert(-2 * b <= c * g <= 2 * b) by (nonlinear_arith)
        requires
            0 <= c <= 2,
            -b <= g <= b,
    ;
    assert((p.x + t.0) - p.x == t.0 && (p.y + t.1) - p.y == t.1);
}

/// Never nearer: whatever the start, even one that already overlaps the
/// opponent, no point of the path a step takes comes closer to the opponent
/// than the nearer of the start and the contact distance.
pub proof fn lemma_never_nearer(p: Pos2, o: Pos2, min_dist: int, dx: int)
    requires
        min_dist >= 0,
    ensures
        ({
            let r = resolved_position(p, o, min_dist, dx);
            let a = sq_dist(p.x as int, p.y as int, o.x as int, o.y as int);
            let m2 = min_dist * min_dist;
            segment_keeps(
                p.x as int,
                p.y as int,
                r.0,
                r.1,
                o.x as int,
                o.y as int,
                if a < m2 {
                    a
                } else {
                    m2
                },
            )
        }),
{
    let px = p.x as int;
    let py = p.y as int;
    let m2 = min_dist * min_dist;
    let vx = o.x - p.x;
    let vy = o.y - p.y;
    let a = vx * vx + vy * vy;
    assert(a == sq_dist(px, py, o.x as int, o.y as int)) by (nonlinear_arith)
        requires
            vx == o.x - px,
            vy == o.y - py,
            a == vx * vx + vy * vy,
    ;
    assert(a >= 0 && m2 >= 0) by (nonlinear_arith)
        requires
            a == vx * vx + vy * vy,
            m2 == min_dist * min_dist,
    ;
    let lim = if a < m2 {
        a
    } else {
        m2
    };
    assert(px - px == 0 && py - py == 0);
    assert(vx * 0 + vy * 0 == 0);
    if segment_keeps(px, py, p.x + dx, py, o.x as int, o.y as int, m2) {
        let ss = dx * dx + 0 * 0;
        assert(ss >= 0) by (nonlinear_arith)
            requires
                ss == dx * dx + 0 * 0,
        ;
        assert(m2 * ss >= lim * ss) by (nonlinear_arith)
            requires
                m2 >= lim,
                ss >= 0,
        ;
        assert((p.x + dx) - px == dx && py - py == 0);
    } else if p != o {
        assert(a > 0) by (nonlinear_arith)
            requires
                vx != 0 || vy != 0,
                a == vx * vx + vy * vy,
        ;
        lemma_sqrt_facts(a);
        lemma_backoff_small(vx, vy, dx, min_dist);
        let big = ceil_sqrt(a);
        let k = slide_limit(a, min_dist);
        if a >= m2 {
            assert(min_dist * big >= 0) by (nonlinear_arith)
                requires
                    min_dist >= 0,
                    big >= 1,
            ;
            assert((min_dist * big) * (min_dist * big) >= m2 * a) by (nonlinear_arith)
                requires
                    big * big >= a,
                    m2 == min_dist * min_dist,
                    a > 0,
            ;
        } else {
            assert(k == 0);
            assert((a - 0) * (a - 0) >= a * a);
        }
        let t = settled_offset(vx, vy, dx, min_dist);
        lemma_clear_by_projection(p, o, t.0, t.1, k, lim);
    }
}

} // verus!
