use vstd::prelude::*;
use crate::geometry::{COORD_LIMIT, Pos2};
use crate::input::{direction_of, input_direction};
use crate::collision::{resolved_position, resolve_move, lemma_resolved_in_bounds};

verus! {

/// Player speed in position steps per millisecond (200 world units a second).
pub const PLAYER_SPEED: i64 = 200;

/// Longest tick that the movement step accepts, in milliseconds (about 44
/// minutes): a longer one could carry the player out of the coordinate range.
pub const MAX_TICK_MS: u32 = 2_684_354;

/// Collision radius given to both the player and the opponent (25 world units).
pub const COLLISION_RADIUS: i64 = 25_000;

/// A circle that takes part in collisions: its centre and its fixed radius.
#[derive(Clone, Copy, PartialEq, Eq, Structural, Debug)]
pub struct Body {
    pub pos: Pos2,
    pub radius: i64,
}

impl Body {
    pub fn new(pos: Pos2, radius: i64) -> (r: Body)
        ensures
            r.pos == pos,
            r.radius == radius,
    {
        Body { pos, radius }
    }

    /// Centre within range and a radius that is positive and within range.
    pub open spec fn wf(self) -> bool {
        self.pos.in_range() && 0 < self.radius <= COORD_LIMIT
    }
}

/// Horizontal displacement of one tick: direction times speed times elapsed time.
pub open spec fn move_delta_spec(dir: int, dt_ms: int) -> int {
    dir * PLAYER_SPEED * dt_ms
}

/// Displacement asked for by direction `dir` over `dt_ms` milliseconds.
pub fn move_delta(dir: i8, dt_ms: u32) -> (d: i64)
    requires
        -1 <= dir <= 1,
        dt_ms <= MAX_TICK_MS,
    ensures
        d == move_delta_spec(dir as int, dt_ms as int),
        -COORD_LIMIT <= d <= COORD_LIMIT,
{
    let step: i64 = PLAYER_SPEED * dt_ms as i64;
    assert(move_delta_spec(dir as int, dt_ms as int) == (if dir > 0 {
        step as int
    } else if dir < 0 {
        -step
    } else {
        0
    })) by (nonlinear_arith)
        requires
            step == PLAYER_SPEED * dt_ms,
            -1 <= dir <= 1,
    ;
    if dir > 0 {
        step
    } else if dir < 0 {
        -step
    } else {
        0
    }
}

/// Where the player ends up after one tick with the given keys held.
pub open spec fn moved_player(player: Body, opponent: Body, left: bool, right: bool, dt_ms: int) -> Body {
    let r = resolved_position(
        player.pos,
        opponent.pos,
        player.radius + opponent.radius,
        move_delta_spec(direction_of(left, right), dt_ms),
    );
    Body { pos: Pos2 { x: r.0 as i64, y: r.1 as i64 }, ..player }
}

/// Moves the player for one tick: samples the keys, integrates the move and
/// resolves it against the opponent.
pub fn move_player(player: &mut Body, opponent: &Body, left: bool, right: bool, dt_ms: u32)
    requires
        old(player).wf(),
        opponent.wf(),
        dt_ms <= MAX_TICK_MS,
    ensures
        *final(player) == moved_player(*old(player), *opponent, left, right, dt_ms as int),
        (final(player).pos.x as int, final(player).pos.y as int) == resolved_position(
            old(player).pos,
            opponent.pos,
            old(player).radius + opponent.radius,
            move_delta_spec(direction_of(left, right), dt_ms as int),
        ),
        -5 * COORD_LIMIT <= final(player).pos.x <= 5 * COORD_LIMIT,
        -5 * COORD_LIMIT <= final(player).pos.y <= 5 * COORD_LIMIT,
{
    let dir = input_direction(left, right);
    let dx = move_delta(dir, dt_ms);
    proof {
        lemma_resolved_in_bounds(player.pos, opponent.pos, player.radius + opponent.radius, dx as int);
    }
    let pos = resolve_move(player.pos, opponent.pos, player.radius + opponent.radius, dx);
    player.pos = pos;
}

} // verus!
