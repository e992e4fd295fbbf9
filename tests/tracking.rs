use circle_chase::camera::{approach_coord, blend_factor, follow_player, Camera};
use circle_chase::geometry::Pos2;
use circle_chase::scene::Scene;

#[test]
fn blend_factor_is_clamped() {
    assert_eq!(blend_factor(0), 0);
    assert_eq!(blend_factor(123), 246);
    assert_eq!(blend_factor(500), 1000);
    assert_eq!(blend_factor(600), 1000);
    assert_eq!(blend_factor(u32::MAX), 1000);
}

#[test]
fn approach_rounds_step_up() {
    assert_eq!(approach_coord(0, 7, 100), 1);
    assert_eq!(approach_coord(0, -7, 100), -1);
    assert_eq!(approach_coord(0, 1_000, 250), 250);
    assert_eq!(approach_coord(10, 10, 500), 10);
    assert_eq!(approach_coord(0, 1_000, 0), 0);
    assert_eq!(approach_coord(0, 1_000, 1000), 1_000);
}

#[test]
fn zero_dt_keeps_camera() {
    let mut cam = Camera::new(12, -34, 999_900);
    follow_player(&mut cam, Pos2::new(500_000, 500_000), 0);
    assert_eq!(cam, Camera::new(12, -34, 999_900));
}

#[test]
fn camera_moves_toward_offset_target() {
    let mut cam = Camera::new(0, 0, 999_900);
    follow_player(&mut cam, Pos2::new(0, 0), 100);
    assert_eq!(cam, Camera::new(0, 30_000, 999_900));
}

#[test]
fn camera_converges_without_overshoot() {
    let mut cam = Camera::new(-40_000, 900_000, 1);
    let target_x = 10_000;
    let target_y = 150_000;
    let mut gap = ((target_x - cam.x).abs(), (target_y - cam.y).abs());
    for _ in 0..1000 {
        follow_player(&mut cam, Pos2::new(10_000, 0), 16);
        assert!(cam.x <= target_x && cam.x >= -40_000);
        assert!(cam.y >= target_y && cam.y <= 900_000);
        let next = ((target_x - cam.x).abs(), (target_y - cam.y).abs());
        assert!(next.0 <= gap.0 && next.1 <= gap.1);
        gap = next;
    }
    assert_eq!(cam, Camera::new(target_x, target_y, 1));
}

#[test]
fn zero_dt_tick_changes_nothing() {
    let mut scene = Scene::initial();
    let before = scene;
    scene.tick(false, true, 0);
    assert_eq!(scene, before);
}
