use endless_runner::fixed::Vec3;
use endless_runner::floor::{setup_floor, shift_floors, FloorManager};
use endless_runner::food::{place_food, reaches, spawn_food, update_food, Food, SpawnFoodEvent};

fn track() -> FloorManager {
    let mut manager = FloorManager::default();
    setup_floor(&mut manager);
    manager
}

#[test]
fn food_markers_compare_equal() {
    assert_eq!(Food {}, Food::default());
    assert_eq!(SpawnFoodEvent, SpawnFoodEvent);
}

#[test]
fn food_floats_above_the_highest_segment() {
    let manager = track();
    assert_eq!(place_food(&manager, 1234, -77), Vec3 { x: 1234, y: 660 + 500, z: -77 });
    let mut tall = track();
    tall.highest_height = 10_000;
    assert_eq!(place_food(&tall, 0, 0), Vec3 { x: 0, y: 3500, z: 0 });
}

#[test]
fn spawned_food_lies_within_the_level() {
    let mut manager = track();
    shift_floors(&mut manager, 3100);
    let (near, far) = manager.current_level_size();
    let places = spawn_food(&manager, 300);
    assert_eq!(places.len(), 300);
    let mut xs = Vec::new();
    let mut zs = Vec::new();
    for at in places.iter() {
        assert!(near.x <= at.x && at.x < far.x);
        assert!(near.y <= at.z && at.z < far.y);
        assert_eq!(at.y, 1160);
        assert!(at.x >= 3300 && at.x < 33_300);
        xs.push(at.x);
        zs.push(at.z);
    }
    xs.sort();
    xs.dedup();
    zs.sort();
    zs.dedup();
    assert!(xs.len() > 1);
    assert!(zs.len() > 1);
}

#[test]
fn no_event_spawns_no_food() {
    let manager = track();
    assert_eq!(spawn_food(&manager, 0), vec![]);
}

#[test]
fn food_is_reached_within_one_unit() {
    let player = Vec3 { x: 5000, y: 500, z: 0 };
    assert!(reaches(player, Vec3 { x: 5000, y: 500, z: 0 }));
    assert!(reaches(player, Vec3 { x: 5999, y: 500, z: 0 }));
    assert!(!reaches(player, Vec3 { x: 6000, y: 500, z: 0 }));
    assert!(reaches(player, Vec3 { x: 5577, y: 1077, z: -577 }));
    assert!(!reaches(player, Vec3 { x: 5578, y: 1078, z: -578 }));
    let low = Vec3 { x: i64::MIN, y: i64::MIN, z: i64::MIN };
    let high = Vec3 { x: i64::MAX, y: i64::MAX, z: i64::MAX };
    assert!(!reaches(low, high));
}

#[test]
fn collected_food_scores_ten_points_each() {
    let mut manager = track();
    let player = Vec3 { x: 5000, y: 500, z: 0 };
    let foods = vec![
        Vec3 { x: 5100, y: 600, z: 100 },
        Vec3 { x: 9000, y: 500, z: 0 },
        Vec3 { x: 4500, y: 500, z: -500 },
    ];
    let collected = update_food(&mut manager, player, &foods);
    assert_eq!(collected, vec![true, false, true]);
    assert_eq!(manager.score, 20);
    let none = update_food(&mut manager, player, &vec![]);
    assert_eq!(none, vec![]);
    assert_eq!(manager.score, 20);
    assert_eq!(manager.spawn_frontier, 100);
    assert!(manager.is_wf());
}

#[test]
fn score_stops_at_the_greatest_number() {
    let mut manager = track();
    manager.score = usize::MAX - 15;
    let player = Vec3 { x: 0, y: 0, z: 0 };
    let foods = vec![player, player, player];
    update_food(&mut manager, player, &foods);
    assert_eq!(manager.score, usize::MAX);
}
