use circle_chase::camera::Camera;
use circle_chase::collision::resolve_move;
use circle_chase::geometry::{isqrt, Pos2};
use circle_chase::input::input_direction;
use circle_chase::motion::{move_delta, move_player, Body, COLLISION_RADIUS, MAX_TICK_MS};
use circle_chase::scene::Scene;

fn opponent_at(x: i64, y: i64) -> Body {
    Body::new(Pos2::new(x, y), COLLISION_RADIUS)
}

fn player_at(x: i64, y: i64) -> Body {
    Body::new(Pos2::new(x, y), COLLISION_RADIUS)
}

#[test]
fn direction_from_keys() {
    assert_eq!(input_direction(false, false), 0);
    assert_eq!(input_direction(true, false), -1);
    assert_eq!(input_direction(false, true), 1);
    assert_eq!(input_direction(true, true), 0);
}

#[test]
fn delta_is_direction_speed_time() {
    assert_eq!(move_delta(1, 1000), 200_000);
    assert_eq!(move_delta(-1, 1000), -200_000);
    assert_eq!(move_delta(0, 1000), 0);
    assert_eq!(move_delta(1, 16), 3_200);
    assert_eq!(move_delta(-1, MAX_TICK_MS), -536_870_800);
}

#[test]
fn integer_square_roots() {
    assert_eq!(isqrt(0), 0);
    assert_eq!(isqrt(1), 1);
    assert_eq!(isqrt(15), 3);
    assert_eq!(isqrt(16), 4);
    assert_eq!(isqrt(10_000_000_000), 100_000);
    assert_eq!(isqrt(10_000_000_001), 100_000);
    assert_eq!(isqrt(9_999_999_999), 99_999);
}

// One second to the right from the origin towards an opponent at 150: the
// raw move would pass through the opponent, so the player stops in contact.
#[test]
fn move_right_towards_opponent_one_second() {
    let mut player = player_at(0, 0);
    let opponent = opponent_at(150_000, 0);
    move_player(&mut player, &opponent, false, true, 1000);
    assert_eq!(player.pos, Pos2::new(100_000, 0));
    assert_eq!(player.radius, COLLISION_RADIUS);
}

#[test]
fn move_left_away_from_opponent_commits_full_move() {
    let mut player = player_at(0, 0);
    let opponent = opponent_at(150_000, 0);
    move_player(&mut player, &opponent, true, false, 1000);
    assert_eq!(player.pos, Pos2::new(-200_000, 0));
}

#[test]
fn head_on_block_stops_in_contact() {
    let mut player = player_at(0, 0);
    let opponent = opponent_at(150_000, 0);
    move_player(&mut player, &opponent, false, true, 900);
    assert_eq!(player.pos, Pos2::new(100_000, 0));
}

#[test]
fn short_ticks_come_to_rest_in_contact() {
    let mut player = player_at(0, 0);
    let opponent = opponent_at(150_000, 0);
    move_player(&mut player, &opponent, false, true, 300);
    assert_eq!(player.pos, Pos2::new(60_000, 0));
    move_player(&mut player, &opponent, false, true, 300);
    assert_eq!(player.pos, Pos2::new(100_000, 0));
    move_player(&mut player, &opponent, false, true, 300);
    assert_eq!(player.pos, Pos2::new(100_000, 0));
}

#[test]
fn idle_player_stays_put() {
    let opponent = opponent_at(150_000, 0);
    for &(left, right) in &[(false, false), (true, true)] {
        for &dt in &[0u32, 16, 1000, MAX_TICK_MS] {
            let mut player = player_at(1_234, -5_678);
            move_player(&mut player, &opponent, left, right, dt);
            assert_eq!(player.pos, Pos2::new(1_234, -5_678));
        }
    }
}

#[test]
fn idle_player_overlapping_stays_put() {
    let mut player = player_at(0, 0);
    let opponent = opponent_at(10_000, 0);
    move_player(&mut player, &opponent, false, false, 500);
    assert_eq!(player.pos, Pos2::new(0, 0));
}

#[test]
fn oblique_block_slides_sideways() {
    // Opponent at (96, 28): 100 away, so 50 of room before contact. A move of
    // 96 to the right would pass through it; the slide keeps the part of the
    // move perpendicular to the line of centres and cuts the part along it
    // to the room.
    let mut player = player_at(0, 0);
    let opponent = opponent_at(96_000, 28_000);
    move_player(&mut player, &opponent, false, true, 480);
    assert_eq!(player.pos, Pos2::new(55_526, -11_804));
    let radial = 96_000i128 * player.pos.x as i128 + 28_000i128 * player.pos.y as i128;
    // 50 of approach, times the distance 100.
    assert!((radial - 50_000i128 * 100_000).abs() < 2 * (96_000 + 28_000));
    let sideways = 96_000i128 * player.pos.y as i128 - 28_000i128 * player.pos.x as i128;
    let asked = -28_000i128 * 96_000;
    assert!((sideways - asked).abs() < 2 * (96_000 + 28_000));
    let dx = (player.pos.x - 96_000) as i128;
    let dy = (player.pos.y - 28_000) as i128;
    assert!(dx * dx + dy * dy >= 50_000i128 * 50_000);
}

#[test]
fn oblique_block_leftwards_mirrors() {
    let r = resolve_move(Pos2::new(0, 0), Pos2::new(-96_000, 28_000), 50_000, -96_000);
    assert_eq!(r, Pos2::new(-55_526, -11_804));
}

#[test]
fn touching_player_slides_sideways() {
    let mut player = player_at(0, 0);
    let opponent = opponent_at(30_000, 40_000);
    move_player(&mut player, &opponent, false, true, 100);
    assert_eq!(player.pos, Pos2::new(12_800, -9_600));
}

#[test]
fn touching_player_slides_one_frame_at_an_angle() {
    // Opponent at (14, 48): exactly 50 away, so the circles touch. One frame
    // to the right still slides sideways along the opponent.
    let mut player = player_at(0, 0);
    let opponent = opponent_at(14_000, 48_000);
    move_player(&mut player, &opponent, false, true, 16);
    assert_eq!(player.pos, Pos2::new(2_948, -861));
    let (vx, vy) = (14_000i128, 48_000i128);
    let (tx, ty) = (player.pos.x as i128, player.pos.y as i128);
    let sideways = vx * ty - vy * tx;
    let asked = -vy * 3_200;
    assert!((sideways - asked).abs() < 4 * (vx + vy));
    assert!(vx * tx + vy * ty <= 0);
    let ex = (player.pos.x - 14_000) as i128;
    let ey = (player.pos.y - 48_000) as i128;
    assert!(ex * ex + ey * ey >= 50_000i128 * 50_000);
}

#[test]
fn coincident_centres_do_not_move() {
    let mut player = player_at(5_000, 5_000);
    let opponent = opponent_at(5_000, 5_000);
    move_player(&mut player, &opponent, false, true, 100);
    assert_eq!(player.pos, Pos2::new(5_000, 5_000));
}

#[test]
fn pressing_into_opponent_never_tunnels() {
    let mut player = player_at(0, 0);
    let opponent = opponent_at(150_000, 10_000);
    for _ in 0..200 {
        move_player(&mut player, &opponent, false, true, 16);
        let dx = (player.pos.x - 150_000) as i128;
        let dy = (player.pos.y - 10_000) as i128;
        assert!(dx * dx + dy * dy >= 50_000i128 * 50_000);
    }
}

#[test]
fn far_from_origin_still_resolves() {
    let limit = circle_chase::geometry::COORD_LIMIT;
    let r = resolve_move(Pos2::new(limit, -limit), Pos2::new(-limit, limit), 50_000, -limit);
    assert_eq!(r, Pos2::new(0, -limit));
}

#[test]
fn tick_without_opponent_moves_only_camera() {
    let mut scene = Scene::new(Some(player_at(0, 0)), None, Some(Camera::new(0, 0, 7)));
    scene.tick(false, true, 250);
    assert_eq!(scene.player, Some(player_at(0, 0)));
    assert_eq!(scene.camera, Some(Camera::new(0, 75_000, 7)));
}

#[test]
fn tick_without_player_changes_nothing() {
    let mut scene = Scene::new(None, Some(opponent_at(1, 2)), Some(Camera::new(3, 4, 5)));
    let before = scene;
    scene.tick(true, false, 1000);
    assert_eq!(scene, before);
}

#[test]
fn tick_camera_reads_moved_player() {
    let mut scene = Scene::initial();
    scene.tick(true, false, 1000);
    assert_eq!(scene.player.unwrap().pos, Pos2::new(-200_000, 0));
    assert_eq!(scene.camera.unwrap().x, -200_000);
    assert_eq!(scene.camera.unwrap().y, 150_000);
    assert_eq!(scene.camera.unwrap().z, circle_chase::scene::CAMERA_START_Z);
}

#[test]
fn initial_scene_layout() {
    let scene = Scene::initial();
    assert_eq!(scene.player, Some(player_at(0, 0)));
    assert_eq!(scene.opponent, Some(opponent_at(150_000, 0)));
    assert_eq!(scene.camera, Some(Camera::new(0, 0, 999_900)));
    assert_eq!(COLLISION_RADIUS, 25_000);
}

#[test]
fn repeated_ticks_right_from_start() {
    let mut scene = Scene::initial();
    for _ in 0..100 {
        scene.tick(false, true, 16);
        let p = scene.player.unwrap().pos;
        let dx = (p.x - 150_000) as i128;
        let dy = p.y as i128;
        assert!(dx * dx + dy * dy >= 50_000i128 * 50_000);
    }
    assert_eq!(scene.player.unwrap().pos, Pos2::new(100_000, 0));
}
