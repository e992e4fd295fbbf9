use vstd::prelude::*;
use crate::geometry::Pos2;

verus! {

/// Height of the camera target above the player, in position steps (150 world units).
pub const CAMERA_OFFSET: i64 = 150_000;

/// Rate of the camera's smoothing, per second.
pub const CAM_LERP_RATE: i64 = 2;

/// Largest magnitude of a camera coordinate or target coordinate.
pub const CAM_LIMIT: i64 = 1_152_921_504_606_846_976;

/// The camera's position; its depth `z` is never changed by tracking.
#[derive(Clone, Copy, PartialEq, Eq, Structural, Debug)]
pub struct Camera {
    pub x: i64,
    pub y: i64,
    pub z: i64,
}

impl Camera {
    pub fn new(x: i64, y: i64, z: i64) -> (r: Camera)
        ensures
            r.x == x,
            r.y == y,
            r.z == z,
    {
        Camera { x, y, z }
    }

    pub open spec fn wf(self) -> bool {
        -CAM_LIMIT <= self.x <= CAM_LIMIT && -CAM_LIMIT <= self.y <= CAM_LIMIT
    }
}

/// Fraction of the remaining gap covered in `dt_ms` milliseconds, in
/// thousandths: the rate times the elapsed time, clamped to `[0, 1]`.
pub open spec fn blend_permille(dt_ms: int) -> int {
    if CAM_LERP_RATE * dt_ms >= 1000 {
        1000
    } else {
        CAM_LERP_RATE * dt_ms
    }
}

/// Coordinate `c` moved toward `t` by `f` thousandths of the gap, the step's
/// length rounded up so that the camera settles exactly on its target.
pub open spec fn approach(c: int, t: int, f: int) -> int {
    if t >= c {
        c + ((t - c) * f + 999) / 1000
    } else {
        c - ((c - t) * f + 999) / 1000
    }
}

/// Point the camera tracks for a player at `p`.
pub open spec fn target_of(p: Pos2) -> (int, int) {
    (p.x as int, p.y + CAMERA_OFFSET)
}

/// The camera after one tick of tracking a player at `p`.
pub open spec fn followed(cam: Camera, p: Pos2, dt_ms: int) -> Camera {
    let t = target_of(p);
    let f = blend_permille(dt_ms);
    Camera { x: approach(cam.x as int, t.0, f) as i64, y: approach(cam.y as int, t.1, f) as i64, z: cam.z }
}

/// Blend fraction for a tick of `dt_ms` milliseconds, in thousandths.
pub fn blend_factor(dt_ms: u32) -> (f: i64)
    ensures
        f == blend_permille(dt_ms as int),
        0 <= f <= 1000,
{
    let scaled: i64 = CAM_LERP_RATE * dt_ms as i64;
    if scaled >= 1000 {
        1000
    } else {
        scaled
    }
}

proof fn lemma_step_bounds(g: int, f: int)
    requires
        g >= 0,
        0 <= f <= 1000,
    ensures
        0 <= (g * f + 999) / 1000 <= g,
        f > 0 && g > 0 ==> (g * f + 999) / 1000 >= 1,
        f == 0 ==> (g * f + 999) / 1000 == 0,
{
    assert(0 <= g * f <= g * 1000) by (nonlinear_arith)
        requires
            g >= 0,
            0 <= f <= 1000,
    ;
    assert(f > 0 && g > 0 ==> g * f >= 1) by (nonlinear_arith)
        requires
            g >= 0,
            f >= 0,
    ;
    assert(f == 0 ==> g * f == 0);
}

/// One camera coordinate moved toward its target by `f` thousandths of the gap.
pub fn approach_coord(c: i64, t: i64, f: i64) -> (r: i64)
    requires
        -CAM_LIMIT <= c <= CAM_LIMIT,
        -CAM_LIMIT <= t <= CAM_LIMIT,
        0 <= f <= 1000,
    ensures
        r == approach(c as int, t as int, f as int),
{
    let ci = c as i128;
    let ti = t as i128;
    let fi = f as i128;
    if ti >= ci {
        let g = ti - ci;
        proof {
            lemma_step_bounds(g as int, f as int);
        }
        assert(g * fi <= 0x4000_0000_0000_0000 * 1000) by (nonlinear_arith)
            requires
                0 <= g <= 0x4000_0000_0000_0000,
                0 <= fi <= 1000,
        ;
        (ci + (g * fi + 999) / 1000) as i64
    } else {
        let g = ci - ti;
        proof {
            lemma_step_bounds(g as int, f as int);
        }
        assert(g * fi <= 0x4000_0000_0000_0000 * 1000) by (nonlinear_arith)
            requires
                0 <= g <= 0x4000_0000_0000_0000,
                0 <= fi <= 1000,
        ;
        (ci - (g * fi + 999) / 1000) as i64
    }
}

/// Moves the camera toward the point above the player at `p`, by the blend
/// fraction that `dt_ms` gives. The camera's depth is kept.
pub fn follow_player(cam: &mut Camera, p: Pos2, dt_ms: u32)
    requires
        old(cam).wf(),
        -CAM_LIMIT <= p.x <= CAM_LIMIT,
        -CAM_LIMIT <= p.y + CAMERA_OFFSET <= CAM_LIMIT,
    ensures
        *final(cam) == followed(*old(cam), p, dt_ms as int),
        final(cam).wf(),
        dt_ms == 0 ==> *final(cam) == *old(cam),
{
    let f = blend_factor(dt_ms);
    let ty = p.y + CAMERA_OFFSET;
    proof {
        lemma_approach_stays_between(cam.x as int, p.x as int, f as int);
        lemma_approach_stays_between(cam.y as int, ty as int, f as int);
    }
    let nx = approach_coord(cam.x, p.x, f);
    let ny = approach_coord(cam.y, ty, f);
    cam.x = nx;
    cam.y = ny;
}

/// No overshoot: one tracking step ends between the camera and its target,
/// no farther from the target than it started, strictly nearer when the
/// blend fraction is positive and the target not yet reached; a zero
/// fraction leaves the coordinate where it was.
pub proof fn lemma_approach_stays_between(c: int, t: int, f: int)
    requires
        0 <= f <= 1000,
    ensures
        c <= t ==> c <= approach(c, t, f) <= t,
        t <= c ==> t <= approach(c, t, f) <= c,
        f > 0 && c != t ==> (if c < t {
            t - approach(c, t, f) < t - c
        } else {
            approach(c, t, f) - t < c - t
        }),
        f == 0 ==> approach(c, t, f) == c,
{
    if t >= c {
        lemma_step_bounds(t - c, f);
    } else {
        lemma_step_bounds(c - t, f);
    }
}

/// Coordinate `c` after `n` tracking steps toward a fixed `t`.
pub open spec fn approach_iter(c: int, t: int, f: int, n: nat) -> int
    decreases n,
{
    if n == 0 {
        c
    } else {
        approach_iter(approach(c, t, f), t, f, (n - 1) as nat)
    }
}

/// Convergence: with a fixed positive blend fraction and a player that stays
/// put, every step keeps the camera on its side of the target, and after as
/// many steps as the gap is long the camera sits exactly on the target.
pub proof fn lemma_camera_converges(c: int, t: int, f: int, n: nat)
    requires
        0 < f <= 1000,
    ensures
        c <= t ==> c <= approach_iter(c, t, f, n) <= t,
        t <= c ==> t <= approach_iter(c, t, f, n) <= c,
        c <= t && n >= t - c ==> approach_iter(c, t, f, n) == t,
        t <= c && n >= c - t ==> approach_iter(c, t, f, n) == t,
        c <= t ==> t - approach_iter(c, t, f, n) <= (if t - c >= n { t - c - n } else { 0 }),
        t <= c ==> approach_iter(c, t, f, n) - t <= (if c - t >= n { c - t - n } else { 0 }),
    decreases n,
{
    if n > 0 {
        let c1 = approach(c, t, f);
        lemma_approach_stays_between(c, t, f);
        lemma_camera_converges(c1, t, f, (n - 1) as nat);
    }
}

/// The camera after `n` ticks of `dt_ms` tracking a player that stays at `p`.
pub open spec fn followed_iter(cam: Camera, p: Pos2, dt_ms: int, n: nat) -> Camera
    decreases n,
{
    if n == 0 {
        cam
    } else {
        followed_iter(followed(cam, p, dt_ms), p, dt_ms, (n - 1) as nat)
    }
}

/// Convergence of the tracked camera: over repeated ticks of one positive
/// length with the player standing still, each coordinate follows the
/// one-coordinate steps above, so it never overshoots, and once the number of
/// ticks reaches the larger gap the camera sits exactly on the target.
pub proof fn lemma_camera_settles(cam: Camera, p: Pos2, dt_ms: int, n: nat)
    requires
        cam.wf(),
        -CAM_LIMIT <= p.x <= CAM_LIMIT,
        -CAM_LIMIT <= p.y + CAMERA_OFFSET <= CAM_LIMIT,
        blend_permille(dt_ms) > 0,
    ensures
        followed_iter(cam, p, dt_ms, n).x == approach_iter(
            cam.x as int,
            p.x as int,
            blend_permille(dt_ms),
            n,
        ),
        followed_iter(cam, p, dt_ms, n).y == approach_iter(
            cam.y as int,
            p.y + CAMERA_OFFSET,
            blend_permille(dt_ms),
            n,
        ),
        followed_iter(cam, p, dt_ms, n).z == cam.z,
        n >= (if cam.x <= p.x { p.x - cam.x } else { cam.x - p.x }) && n >= (if cam.y <= p.y
            + CAMERA_OFFSET {
            p.y + CAMERA_OFFSET - cam.y
        } else {
            cam.y - (p.y + CAMERA_OFFSET)
        }) ==> followed_iter(cam, p, dt_ms, n).x == p.x && followed_iter(cam, p, dt_ms, n).y
            == p.y + CAMERA_OFFSET,
    decreases n,
{
    let f = blend_permille(dt_ms);
    lemma_camera_converges(cam.x as int, p.x as int, f, n);
    lemma_camera_converges(cam.y as int, p.y + CAMERA_OFFSET, f, n);
    if n > 0 {
        lemma_approach_stays_between(cam.x as int, p.x as int, f);
        lemma_approach_stays_between(cam.y as int, p.y + CAMERA_OFFSET, f);
        let c1 = followed(cam, p, dt_ms);
        lemma_camera_settles(c1, p, dt_ms, (n - 1) as nat);
    }
}

} // verus!
