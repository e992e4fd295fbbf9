use vstd::prelude::*;
use crate::geometry::{COORD_LIMIT, Pos2, sq_dist};
use crate::input::direction_of;
use crate::collision::{segment_keeps, lemma_idle_stays, lemma_no_tunneling, lemma_resolved_in_bounds};
use crate::camera::lemma_approach_stays_between;
use crate::motion::{Body, COLLISION_RADIUS, MAX_TICK_MS, moved_player, move_player, move_delta_spec};
use crate::camera::{Camera, followed, follow_player};

verus! {

/// Where the opponent stands at the start, in position steps (150 world units right).
pub const OPPONENT_START_X: i64 = 150_000;

/// Depth of the camera at the start (999.9 world units toward the viewer).
pub const CAMERA_START_Z: i64 = 999_900;

/// The whole simulated state: the player, the opponent and the camera. An
/// absent entity makes the stages that need it skip the tick.
#[derive(Clone, Copy, PartialEq, Eq, Structural, Debug)]
pub struct Scene {
    pub player: Option<Body>,
    pub opponent: Option<Body>,
    pub camera: Option<Camera>,
}

/// The scene after one tick: the player moves when both it and the opponent
/// are present, then the camera tracks the player's new position when both
/// the camera and the player are present.
pub open spec fn ticked(s: Scene, left: bool, right: bool, dt_ms: int) -> Scene {
    let player = match (s.player, s.opponent) {
        (Some(p), Some(o)) => Some(moved_player(p, o, left, right, dt_ms)),
        _ => s.player,
    };
    let camera = match (s.camera, player) {
        (Some(c), Some(p)) => Some(followed(c, p.pos, dt_ms)),
        _ => s.camera,
    };
    Scene { player, camera, ..s }
}

impl Scene {
    pub fn new(player: Option<Body>, opponent: Option<Body>, camera: Option<Camera>) -> (r: Scene)
        ensures
            r.player == player,
            r.opponent == opponent,
            r.camera == camera,
    {
        Scene { player, opponent, camera }
    }

    /// The starting scene: the player at the origin, the opponent to its
    /// right, both with the collision radius, and the camera at the origin.
    pub fn initial() -> (r: Scene)
        ensures
            r.wf(),
            r.player == Some(Body { pos: Pos2 { x: 0, y: 0 }, radius: COLLISION_RADIUS }),
            r.opponent == Some(
                Body { pos: Pos2 { x: OPPONENT_START_X, y: 0 }, radius: COLLISION_RADIUS },
            ),
            r.camera == Some(Camera { x: 0, y: 0, z: CAMERA_START_Z }),
    {
        Scene {
            player: Some(Body::new(Pos2::new(0, 0), COLLISION_RADIUS)),
            opponent: Some(Body::new(Pos2::new(OPPONENT_START_X, 0), COLLISION_RADIUS)),
            camera: Some(Camera::new(0, 0, CAMERA_START_Z)),
        }
    }

    /// Every present entity is within range.
    pub open spec fn wf(self) -> bool {
        &&& (self.player matches Some(p) ==> p.wf())
        &&& (self.opponent matches Some(o) ==> o.wf())
        &&& (self.camera matches Some(c) ==> c.wf())
    }

    /// Runs one tick: movement and collision first, then camera tracking of
    /// the position just committed, so that the camera never lags a tick.
    pub fn tick(&mut self, left: bool, right: bool, dt_ms: u32)
        requires
            old(self).wf(),
            dt_ms <= MAX_TICK_MS,
        ensures
            *final(self) == ticked(*old(self), left, right, dt_ms as int),
    {
        let opponent = self.opponent;
        let mut player = self.player;
        match (&mut player, opponent) {
            (Some(p), Some(o)) => {
                move_player(p, &o, left, right, dt_ms);
            },
            _ => {},
        }
        self.player = player;
        match (&mut self.camera, player) {
            (Some(c), Some(p)) => {
                follow_player(c, p.pos, dt_ms);
            },
            _ => {},
        }
    }
}

/// The player and the opponent are both present and their circles do not overlap.
pub open spec fn clear_of_opponent(s: Scene) -> bool {
    match (s.player, s.opponent) {
        (Some(p), Some(o)) => sq_dist(p.pos.x as int, p.pos.y as int, o.pos.x as int, o.pos.y as int)
            >= (p.radius + o.radius) * (p.radius + o.radius),
        _ => false,
    }
}

/// No tunnelling over any run of ticks: a tick from a scene in which the
/// player is clear of the opponent leaves it clear, whatever keys are held
/// and for every tick length the step accepts; no point of the path it moved
/// along came closer than the contact distance, and the opponent stays where
/// it was.
pub proof fn lemma_tick_keeps_clear(s: Scene, left: bool, right: bool, dt_ms: u32)
    requires
        s.wf(),
        clear_of_opponent(s),
        dt_ms <= MAX_TICK_MS,
    ensures
        clear_of_opponent(ticked(s, left, right, dt_ms as int)),
        ticked(s, left, right, dt_ms as int).opponent == s.opponent,
        ({
            let p = s.player.unwrap();
            let q = ticked(s, left, right, dt_ms as int).player.unwrap();
            let o = s.opponent.unwrap();
            segment_keeps(
                p.pos.x as int,
                p.pos.y as int,
                q.pos.x as int,
                q.pos.y as int,
                o.pos.x as int,
                o.pos.y as int,
                (p.radius + o.radius) * (p.radius + o.radius),
            )
        }),
{
    let p = s.player.unwrap();
    let o = s.opponent.unwrap();
    let dx = move_delta_spec(direction_of(left, right), dt_ms as int);
    assert(-COORD_LIMIT <= dx <= COORD_LIMIT) by (nonlinear_arith)
        requires
            dx == move_delta_spec(direction_of(left, right), dt_ms as int),
            -1 <= direction_of(left, right) <= 1,
            0 <= dt_ms <= MAX_TICK_MS,
    ;
    lemma_no_tunneling(p.pos, o.pos, p.radius + o.radius, dx);
    lemma_resolved_in_bounds(p.pos, o.pos, p.radius + o.radius, dx);
}

/// Idle ticks: with no direction asked for (no key, or both), the player's
/// position is exactly what it was, whatever the elapsed time.
pub proof fn lemma_idle_tick_keeps_player(s: Scene, left: bool, right: bool, dt_ms: u32)
    requires
        s.wf(),
        direction_of(left, right) == 0,
    ensures
        ticked(s, left, right, dt_ms as int).player == s.player,
{
    if let (Some(p), Some(o)) = (s.player, s.opponent) {
        assert(move_delta_spec(0, dt_ms as int) == 0);
        lemma_idle_stays(p.pos, o.pos, p.radius + o.radius);
    }
}

/// A tick in which no time passes changes nothing: the player does not move
/// and the camera does not jump, however far it is from its target.
pub proof fn lemma_zero_dt_tick_is_identity(s: Scene, left: bool, right: bool)
    requires
        s.wf(),
    ensures
        ticked(s, left, right, 0) == s,
{
    if let (Some(p), Some(o)) = (s.player, s.opponent) {
        assert(move_delta_spec(direction_of(left, right), 0) == 0);
        lemma_idle_stays(p.pos, o.pos, p.radius + o.radius);
    }
    let t = ticked(s, left, right, 0);
    assert(t.player == s.player);
    if let (Some(c), Some(p)) = (s.camera, s.player) {
        lemma_approach_stays_between(c.x as int, p.pos.x as int, 0);
        lemma_approach_stays_between(c.y as int, p.pos.y + crate::camera::CAMERA_OFFSET, 0);
    }
}

} // verus!
