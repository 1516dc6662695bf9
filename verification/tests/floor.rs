use endless_runner::color::{floor_color, Color};
use endless_runner::fixed::{Vec2, Vec3};
use endless_runner::floor::{
    floor_translation, grow_by_lap, setup_floor, shift_floors, spawn_floors, update_floor,
    update_floors, Floor, FloorManager, BASE_HEIGHT, FLOOR_CUBE_SIZE, HEIGHT_LIMIT,
    NUMBER_OF_COLUMNS, NUMBER_OF_LIVE_ROWS, NUMBER_OF_ROWS,
};

fn fresh() -> FloorManager {
    let mut manager = FloorManager::default();
    setup_floor(&mut manager);
    manager
}

fn first_live_index(manager: &FloorManager) -> i32 {
    manager.spawn_frontier - manager.live_rows.len() as i32
}

#[test]
fn default_track_is_empty_and_not_well_formed() {
    let manager = FloorManager::default();
    assert_eq!(manager.spawn_frontier, 0);
    assert_eq!(manager.score, 0);
    assert_eq!(manager.floor_rows.len(), 0);
    assert_eq!(manager.live_rows.len(), 0);
    assert!(!manager.is_wf());
}

#[test]
fn setup_builds_the_ring_and_spawns_the_live_window() {
    let mut manager = FloorManager::default();
    manager.score = 40;
    let outcome = setup_floor(&mut manager);
    assert_eq!(outcome.rows, NUMBER_OF_LIVE_ROWS);
    assert_eq!(outcome.food_events, 1);
    assert_eq!(manager.score, 0);
    assert_eq!(manager.spawn_frontier, 100);
    assert_eq!(manager.live_rows.len(), 100);
    assert_eq!(manager.floor_rows.len(), 100);
    assert!(manager.is_wf());
}

#[test]
fn first_row_spawned_has_row_id_zero() {
    let manager = fresh();
    assert_eq!(manager.live_rows[0].blocks[0].row_id, 0);
    assert_eq!(manager.live_rows[99].blocks[0].row_id, 99);
    assert_eq!(manager.floor_rows[0].blocks[0].row_id, 100);
    assert_eq!(manager.floor_rows[99].blocks[0].row_id, 199);
}

#[test]
fn rows_hold_one_segment_per_slot_in_order() {
    let manager = fresh();
    for row in manager.live_rows.iter().chain(manager.floor_rows.iter()) {
        assert_eq!(row.blocks.len(), NUMBER_OF_COLUMNS);
        for (j, block) in row.blocks.iter().enumerate() {
            assert_eq!(block.lateral_slot, j as i32 - 15);
            assert_eq!(block.row_id, row.blocks[0].row_id);
        }
    }
}

#[test]
fn spawned_rows_are_a_tenth_taller_than_dormant_ones() {
    let manager = fresh();
    for row in manager.live_rows.iter() {
        for block in row.blocks.iter() {
            assert_eq!(block.height, 2200);
        }
    }
    for row in manager.floor_rows.iter() {
        for block in row.blocks.iter() {
            assert_eq!(block.height, BASE_HEIGHT);
        }
    }
}

#[test]
fn bounds_after_setup_enclose_every_live_height() {
    let manager = fresh();
    assert_eq!(manager.lowest_height, 2200);
    assert_eq!(manager.highest_height, 2200);
    assert!(manager.lowest_height <= manager.highest_height);
    for row in manager.live_rows.iter() {
        for block in row.blocks.iter() {
            assert!(manager.lowest_height <= block.height);
            assert!(block.height <= manager.highest_height);
        }
    }
}

#[test]
fn lap_growth_values() {
    assert_eq!(grow_by_lap(2000), 2200);
    assert_eq!(grow_by_lap(2200), 2420);
    assert_eq!(grow_by_lap(2420), 2662);
    assert_eq!(grow_by_lap(2662), 2928);
    assert_eq!(grow_by_lap(2005), 2205);
    assert_eq!(grow_by_lap(1_000_000_000_000), 1_100_000_000_000);
    assert_eq!(grow_by_lap(8_000_000_000_000_000_000), 8_800_000_000_000_000_000);
    assert_eq!(grow_by_lap(8_400_000_000_000_000_000), HEIGHT_LIMIT);
    assert_eq!(grow_by_lap(HEIGHT_LIMIT), HEIGHT_LIMIT);
    assert_eq!(grow_by_lap(HEIGHT_LIMIT - 1), HEIGHT_LIMIT);
    assert_eq!(HEIGHT_LIMIT, i64::MAX);
}

#[test]
fn spawn_moves_rows_from_the_dormant_head_to_the_live_tail() {
    let mut manager = fresh();
    let outcome = spawn_floors(&mut manager, 3);
    assert_eq!(outcome.rows, 3);
    assert_eq!(outcome.food_events, 0);
    assert_eq!(manager.spawn_frontier, 103);
    assert_eq!(manager.live_rows.len(), 103);
    assert_eq!(manager.floor_rows.len(), 97);
    assert_eq!(manager.live_rows[102].blocks[0].row_id, 102);
    assert_eq!(manager.floor_rows[0].blocks[0].row_id, 103);
    assert!(manager.is_wf());
}

#[test]
fn spawn_with_empty_dormant_queue_does_nothing() {
    let mut manager = fresh();
    let all = spawn_floors(&mut manager, 150);
    assert_eq!(all.rows, 100);
    assert_eq!(manager.floor_rows.len(), 0);
    assert_eq!(manager.live_rows.len(), 200);
    assert_eq!(manager.spawn_frontier, 200);
    let none = spawn_floors(&mut manager, 5);
    assert_eq!(none.rows, 0);
    assert_eq!(none.food_events, 0);
    assert_eq!(manager.spawn_frontier, 200);
    assert_eq!(manager.live_rows.len(), 200);
    assert!(manager.is_wf());
}

#[test]
fn spawn_of_zero_rows_changes_nothing() {
    let mut manager = fresh();
    let outcome = spawn_floors(&mut manager, 0);
    assert_eq!(outcome.rows, 0);
    assert_eq!(manager.spawn_frontier, 100);
    assert_eq!(manager.live_rows.len(), 100);
}

#[test]
fn shift_recycles_rows_behind_the_camera() {
    let mut manager = fresh();
    // Rows 0, 1 and 2 stand at 0, 0.3 and 0.6; the camera at 0.7 has passed them.
    let outcome = shift_floors(&mut manager, 700);
    assert_eq!(outcome.rows, 3);
    assert_eq!(outcome.food_events, 0);
    assert_eq!(manager.spawn_frontier, 103);
    assert_eq!(manager.live_rows.len(), 100);
    assert_eq!(manager.floor_rows.len(), 100);
    assert_eq!(first_live_index(&manager), 3);
    assert_eq!(manager.live_rows[0].blocks[0].row_id, 3);
    assert_eq!(manager.live_rows[99].blocks[0].row_id, 102);
    assert_eq!(manager.floor_rows[99].blocks[0].row_id, 2);
    assert_eq!(manager.floor_rows[97].blocks[0].row_id, 0);
    assert!(manager.is_wf());
}

#[test]
fn recycled_rows_keep_heights_and_colours() {
    let mut manager = fresh();
    update_floors(&mut manager, Vec3 { x: 700, y: 0, z: 0 });
    let old_live: Vec<Vec<Floor>> =
        manager.live_rows.iter().map(|row| row.blocks.iter().copied().collect()).collect();
    let old_dormant: Vec<Vec<Floor>> =
        manager.floor_rows.iter().map(|row| row.blocks.iter().copied().collect()).collect();
    let outcome = shift_floors(&mut manager, 700);
    assert_eq!(outcome.rows, 3);
    // The three rows behind the camera stand at the tail of the queue as they were.
    for k in 0..3 {
        let queued: Vec<Floor> = manager.floor_rows[97 + k].blocks.iter().copied().collect();
        assert_eq!(queued, old_live[k]);
    }
    assert_eq!(manager.floor_rows[98].blocks[15].height, 2800);
    // The rows that stayed live and the rows that stayed dormant are untouched.
    for i in 0..97 {
        let live: Vec<Floor> = manager.live_rows[i].blocks.iter().copied().collect();
        assert_eq!(live, old_live[i + 3]);
        let dormant: Vec<Floor> = manager.floor_rows[i].blocks.iter().copied().collect();
        assert_eq!(dormant, old_dormant[i + 3]);
    }
    // The spawned rows derive from the head of the old queue.
    for k in 0..3 {
        for j in 0..NUMBER_OF_COLUMNS {
            let before = old_dormant[k][j];
            let after = manager.live_rows[97 + k].blocks[j];
            assert_eq!(after.height, 2200);
            assert_eq!(after.row_id, before.row_id);
            assert_eq!(after.lateral_slot, before.lateral_slot);
            let shift = before.color.r - after.color.r;
            assert!((-100..=100).contains(&shift));
            assert_eq!(after.color, before.color.jittered(shift));
        }
    }
}

#[test]
fn shift_with_no_row_behind_the_camera_changes_nothing() {
    let mut manager = fresh();
    let old_live: Vec<Vec<Floor>> =
        manager.live_rows.iter().map(|row| row.blocks.iter().copied().collect()).collect();
    let old_dormant: Vec<Vec<Floor>> =
        manager.floor_rows.iter().map(|row| row.blocks.iter().copied().collect()).collect();
    let outcome = shift_floors(&mut manager, 0);
    assert_eq!(outcome.rows, 0);
    assert_eq!(outcome.food_events, 0);
    let live: Vec<Vec<Floor>> =
        manager.live_rows.iter().map(|row| row.blocks.iter().copied().collect()).collect();
    let dormant: Vec<Vec<Floor>> =
        manager.floor_rows.iter().map(|row| row.blocks.iter().copied().collect()).collect();
    assert_eq!(live, old_live);
    assert_eq!(dormant, old_dormant);
    assert_eq!(manager.spawn_frontier, 100);
    assert_eq!((manager.lowest_height, manager.highest_height), (2200, 2200));
}

#[test]
fn shift_with_camera_on_a_row_keeps_that_row() {
    let mut manager = fresh();
    let outcome = shift_floors(&mut manager, 600);
    assert_eq!(outcome.rows, 2);
    let nothing = shift_floors(&mut manager, 600);
    assert_eq!(nothing.rows, 0);
    let behind = shift_floors(&mut manager, -5000);
    assert_eq!(behind.rows, 0);
}

#[test]
fn queue_conservation_over_many_ticks() {
    let mut manager = fresh();
    let mut camera = 0i64;
    for tick in 0..500 {
        camera += 100 + (tick % 7) * 90;
        shift_floors(&mut manager, camera);
        assert_eq!(manager.live_rows.len() + manager.floor_rows.len(), NUMBER_OF_ROWS);
        assert_eq!(manager.live_rows.len(), NUMBER_OF_LIVE_ROWS);
    }
    assert!(manager.is_wf());
}

#[test]
fn collectible_trigger_fires_once_per_cycle() {
    let mut manager = fresh();
    let mut events = 0;
    let mut spawned = 0;
    let mut camera = 0i64;
    while spawned < 2 * NUMBER_OF_ROWS {
        camera += FLOOR_CUBE_SIZE;
        let outcome = shift_floors(&mut manager, camera);
        spawned += outcome.rows;
        events += outcome.food_events;
        if outcome.food_events > 0 {
            let last = manager.live_rows.len() - 1;
            assert_eq!(manager.live_rows[last].blocks[0].row_id, 0);
            assert_eq!(manager.spawn_frontier as usize % NUMBER_OF_ROWS, 1);
        }
    }
    assert_eq!(spawned, 400);
    assert_eq!(events, 2);
}

#[test]
fn heights_after_laps_follow_the_growth_rule() {
    let mut manager = fresh();
    let mut camera = 0i64;
    // Row 0 is spawned for the second time as the 201st row.
    while manager.spawn_frontier < 201 {
        camera += FLOOR_CUBE_SIZE;
        shift_floors(&mut manager, camera);
    }
    let last = manager.live_rows.len() - 1;
    assert_eq!(manager.live_rows[last].blocks[0].row_id, 0);
    assert_eq!(manager.live_rows[last].blocks[0].height, 2420);
    while manager.spawn_frontier < 401 {
        camera += FLOOR_CUBE_SIZE;
        shift_floors(&mut manager, camera);
    }
    assert_eq!(manager.live_rows[last].blocks[7].height, 2662);
    while manager.spawn_frontier < 601 {
        camera += FLOOR_CUBE_SIZE;
        shift_floors(&mut manager, camera);
    }
    assert_eq!(manager.live_rows[last].blocks[29].height, 2928);
}

#[test]
fn bounds_are_reset_when_a_lap_begins() {
    let mut manager = fresh();
    // Raise one live segment by hand so that the old bounds are wider.
    manager.highest_height = 9000;
    let mut camera = 0i64;
    while manager.spawn_frontier < 201 {
        camera += FLOOR_CUBE_SIZE;
        shift_floors(&mut manager, camera);
    }
    assert_eq!(manager.lowest_height, 2420);
    assert_eq!(manager.highest_height, 2420);
    assert!(manager.lowest_height <= manager.highest_height);
}

#[test]
fn collider_is_active_ahead_of_the_player_within_range() {
    let mut floor = Floor { height: 2200, row_id: 37, lateral_slot: 0, color: floor_color() };
    // The segment stands at x = 11.1; the player at x = 10.1 is one unit behind it.
    let update = update_floor(&mut floor, 37, Vec3 { x: 10_100, y: 500, z: 0 });
    assert_eq!(update.collider, Some(Vec3 { x: 150, y: 330, z: 150 }));
    assert!(!update.grown);
    assert_eq!(floor.height, 2200);
}

#[test]
fn collider_is_inactive_behind_the_player() {
    let mut floor = Floor { height: 2200, row_id: 27, lateral_slot: 0, color: floor_color() };
    // The segment stands at x = 8.1, behind the player at x = 10.
    let update = update_floor(&mut floor, 27, Vec3 { x: 10_000, y: 0, z: 0 });
    assert_eq!(update.collider, None);
    let mut level = Floor { height: 2200, row_id: 30, lateral_slot: 0, color: floor_color() };
    let at_player = update_floor(&mut level, 30, Vec3 { x: 9000, y: 0, z: 0 });
    assert_eq!(at_player.collider, None);
}

#[test]
fn collider_range_is_inclusive_at_two_units() {
    let mut floor = Floor { height: 2000, row_id: 40, lateral_slot: 0, color: floor_color() };
    let on_edge = update_floor(&mut floor, 40, Vec3 { x: 10_000, y: 0, z: 0 });
    assert_eq!(on_edge.collider, Some(Vec3 { x: 150, y: 300, z: 150 }));
    let beyond = update_floor(&mut floor, 40, Vec3 { x: 9999, y: 0, z: 0 });
    assert_eq!(beyond.collider, None);
    let aside = update_floor(&mut floor, 40, Vec3 { x: 10_000, y: 0, z: 1 });
    assert_eq!(aside.collider, None);
}

#[test]
fn segment_close_behind_the_player_grows() {
    let mut floor = Floor { height: 2200, row_id: 32, lateral_slot: 0, color: floor_color() };
    // The segment stands at x = 9.6, 0.4 behind the player.
    let update = update_floor(&mut floor, 32, Vec3 { x: 10_000, y: 0, z: 0 });
    assert!(update.grown);
    assert_eq!(update.collider, None);
    assert_eq!(floor.height, 2800);
    let again = update_floor(&mut floor, 32, Vec3 { x: 10_000, y: 0, z: 0 });
    assert!(again.grown);
    assert_eq!(floor.height, 3400);
}

#[test]
fn segment_less_than_half_a_cell_behind_does_not_grow() {
    let mut floor = Floor { height: 2200, row_id: 33, lateral_slot: 0, color: floor_color() };
    // The segment stands at x = 9.9; half a cell is 0.15.
    assert!(!update_floor(&mut floor, 33, Vec3 { x: 10_000, y: 0, z: 0 }).grown);
    assert!(!update_floor(&mut floor, 33, Vec3 { x: 10_050, y: 0, z: 0 }).grown);
    assert!(update_floor(&mut floor, 33, Vec3 { x: 10_051, y: 0, z: 0 }).grown);
    assert_eq!(floor.height, 2800);
}

#[test]
fn growth_range_is_exclusive_at_half_a_unit() {
    let mut floor = Floor { height: 2200, row_id: 30, lateral_slot: 0, color: floor_color() };
    assert!(!update_floor(&mut floor, 30, Vec3 { x: 9500, y: 0, z: 0 }).grown);
    assert!(update_floor(&mut floor, 30, Vec3 { x: 9499, y: 0, z: 0 }).grown);
}

#[test]
fn growth_stops_at_the_height_limit() {
    let mut floor =
        Floor { height: HEIGHT_LIMIT - 1, row_id: 32, lateral_slot: 0, color: floor_color() };
    let update = update_floor(&mut floor, 32, Vec3 { x: 10_000, y: 0, z: 0 });
    assert!(update.grown);
    assert_eq!(floor.height, HEIGHT_LIMIT);
}

#[test]
fn update_decides_for_every_live_segment() {
    let mut manager = fresh();
    let player = Vec3 { x: 10_000, y: 0, z: 0 };
    let updates = update_floors(&mut manager, player);
    assert_eq!(updates.len(), 100);
    let mut active = 0;
    let mut grown = 0;
    for (i, row) in updates.iter().enumerate() {
        assert_eq!(row.len(), NUMBER_OF_COLUMNS);
        for (j, update) in row.iter().enumerate() {
            let x = i as i64 * 300;
            let z = (j as i64 - 15) * 300;
            let d2 = (x - 10_000) * (x - 10_000) + z * z;
            let expect_active = x > 10_000 && d2 <= 4_000_000;
            let expect_grown = x < 10_000 - 150 && d2 < 250_000;
            assert_eq!(update.collider.is_some(), expect_active);
            assert_eq!(update.grown, expect_grown);
            let height = manager.live_rows[i].blocks[j].height;
            assert_eq!(height, if expect_grown { 2800 } else { 2200 });
            if expect_active {
                assert_eq!(update.collider, Some(Vec3 { x: 150, y: 330, z: 150 }));
                active += 1;
            }
            if expect_grown {
                grown += 1;
            }
        }
    }
    assert!(active > 0);
    assert!(grown > 0);
    assert_eq!(manager.live_rows.len(), 100);
    assert_eq!(manager.floor_rows.len(), 100);
    assert_eq!(manager.live_rows[0].blocks[0].row_id, 0);
    assert_eq!(manager.live_rows[99].blocks[0].row_id, 99);
    assert!(manager.is_wf());
}

#[test]
fn update_keeps_bounds_and_dormant_rows() {
    let mut manager = fresh();
    update_floors(&mut manager, Vec3 { x: 10_000, y: 0, z: 0 });
    assert_eq!(manager.lowest_height, 2200);
    assert_eq!(manager.highest_height, 2200);
    assert_eq!(manager.spawn_frontier, 100);
    for row in manager.floor_rows.iter() {
        for block in row.blocks.iter() {
            assert_eq!(block.height, 2000);
        }
    }
}

#[test]
fn growth_near_the_player_and_lap_growth_compound() {
    let mut manager = fresh();
    update_floors(&mut manager, Vec3 { x: 700, y: 0, z: 0 });
    // The segment of row 1 in the middle lane stands at (0.3, 0) and has grown.
    assert_eq!(manager.live_rows[1].blocks[15].height, 2800);
    let mut camera = 0i64;
    while manager.spawn_frontier < 202 {
        camera += FLOOR_CUBE_SIZE;
        shift_floors(&mut manager, camera);
    }
    let last = manager.live_rows.len() - 1;
    assert_eq!(manager.live_rows[last].blocks[15].row_id, 1);
    assert_eq!(manager.live_rows[last].blocks[15].height, 3080);
    assert_eq!(manager.live_rows[last].blocks[0].height, 2420);
    assert_eq!(manager.highest_height, 3080);
    assert_eq!(manager.lowest_height, 2420);
}

#[test]
fn level_size_follows_the_spawn_frontier() {
    let manager = fresh();
    let (near, far) = manager.current_level_size();
    assert_eq!(near, Vec2 { x: 0, y: -4500 });
    assert_eq!(far, Vec2 { x: 30_000, y: 4500 });
    let mut shifted = fresh();
    shift_floors(&mut shifted, 700);
    let (near, far) = shifted.current_level_size();
    assert_eq!(near, Vec2 { x: 900, y: -4500 });
    assert_eq!(far, Vec2 { x: 30_900, y: 4500 });
}

#[test]
fn level_heights_are_in_world_units() {
    let manager = fresh();
    assert_eq!(manager.current_level_heights(), (660, 660));
    let mut other = fresh();
    other.lowest_height = 2005;
    other.highest_height = 2999;
    assert_eq!(other.current_level_heights(), (601, 899));
}

#[test]
fn floor_translation_scales_indices_by_the_cube_size() {
    assert_eq!(floor_translation(37, -15), Vec3 { x: 11_100, y: 0, z: -4500 });
    assert_eq!(floor_translation(0, 14), Vec3 { x: 0, y: 0, z: 4200 });
}

#[test]
fn spawned_colours_stay_near_the_floor_colour() {
    let manager = fresh();
    let base = floor_color();
    let mut moved = 0;
    for row in manager.live_rows.iter() {
        for block in row.blocks.iter() {
            let shift = base.r - block.color.r;
            assert!((-100..=100).contains(&shift));
            assert_eq!(base.g - block.color.g, shift);
            assert_eq!(base.b - block.color.b, shift);
            if shift != 0 {
                moved += 1;
            }
        }
    }
    assert!(moved > 0);
    for row in manager.floor_rows.iter() {
        for block in row.blocks.iter() {
            assert_eq!(block.color, base);
        }
    }
}

#[test]
fn broken_tracks_are_not_well_formed() {
    let mut short = fresh();
    short.live_rows.pop_front();
    assert!(!short.is_wf());

    let mut unordered = fresh();
    unordered.live_rows[3].blocks.swap(0, 1);
    assert!(!unordered.is_wf());

    let mut low = fresh();
    low.floor_rows[5].blocks[2].height = 1999;
    assert!(!low.is_wf());

    let mut bounds = fresh();
    bounds.lowest_height = 3000;
    assert!(!bounds.is_wf());

    let mut frontier = fresh();
    frontier.spawn_frontier = 101;
    assert!(!frontier.is_wf());

    let mut tall = fresh();
    tall.live_rows[0].blocks[0].height = HEIGHT_LIMIT;
    assert!(tall.is_wf());

}

#[test]
fn colours_do_not_matter_to_the_track() {
    let mut manager = fresh();
    manager.floor_rows[0].blocks[0].color = Color { r: 1000, g: 500, b: -40 };
    manager.live_rows[0].blocks[0].color = Color { r: 5000, g: -5000, b: 0 };
    assert!(manager.is_wf());
    let outcome = spawn_floors(&mut manager, 1);
    assert_eq!(outcome.rows, 1);
    let spawned = manager.live_rows[100].blocks[0].color;
    let shift = 1000 - spawned.r;
    assert!((-100..=100).contains(&shift));
    assert_eq!(spawned, Color { r: 1000 - shift, g: 500 - shift, b: -40 - shift });
    let outcome = shift_floors(&mut manager, 100);
    assert_eq!(outcome.rows, 1);
    let queued = manager.floor_rows[manager.floor_rows.len() - 1].blocks[0].color;
    assert_eq!(queued, Color { r: 5000, g: -5000, b: 0 });
    assert!(manager.is_wf());
}

#[test]
fn colours_drift_past_full_over_laps() {
    let mut manager = fresh();
    let mut camera = 0i64;
    let mut beyond = false;
    while manager.spawn_frontier < 4000 {
        camera += FLOOR_CUBE_SIZE;
        shift_floors(&mut manager, camera);
        for row in manager.live_rows.iter() {
            for block in row.blocks.iter() {
                assert_eq!(block.color.g - block.color.r, 749 - 847);
                assert_eq!(block.color.b, block.color.r);
                beyond |= block.color.r > 1000 || block.color.g < 0;
            }
        }
    }
    assert!(beyond);
}
