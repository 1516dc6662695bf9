//! Collectibles: where a new one goes, and when the runner picks one up.

use vstd::prelude::*;
use crate::fixed::{norm_sq, norm_sq_at_most, Vec3, Vector};
use crate::floor::{level_size, world_height, FloorManager};
use crate::random::random_in_f32_range;

verus! {

/// Marks a collectible.
#[derive(Clone, Copy, Debug, Default, PartialEq, Eq, Structural)]
pub struct Food {}

/// Asks for one collectible to be placed.
#[derive(Clone, Copy, Debug, PartialEq, Eq, Structural)]
pub struct SpawnFoodEvent;

/// The runner picks up what is nearer than this.
pub const FOOD_REACH: i64 = 1000;

/// Points for one collectible.
pub const FOOD_SCORE: usize = 10;

/// How far above the highest segment a collectible floats.
pub const FOOD_CLEARANCE: i64 = 500;

/// The runner at `player` picks up the collectible at `food`.
pub open spec fn collects(player: Vector, food: Vector) -> bool {
    norm_sq(player.x - food.x, player.y - food.y, player.z - food.z) < FOOD_REACH * FOOD_REACH
}

/// How many of `foods` the runner at `player` picks up.
pub open spec fn collected_count(player: Vector, foods: Seq<Vec3>) -> nat
    decreases foods.len(),
{
    if foods.len() == 0 {
        0
    } else {
        collected_count(player, foods.drop_last()) + if collects(player, foods.last()@) {
            1nat
        } else {
            0nat
        }
    }
}

/// A score after `gain` more points; it stops at the greatest number there is.
pub open spec fn score_after(score: usize, gain: int) -> int {
    if score + gain > usize::MAX {
        usize::MAX as int
    } else {
        score + gain
    }
}

/// The place of a collectible at `(x, z)` in the ground plane: it floats
/// `FOOD_CLEARANCE` above the highest segment of the level.
pub open spec fn food_place(highest_height: int, x: int, z: int) -> Vector {
    Vector { x, y: world_height(highest_height) + FOOD_CLEARANCE, z }
}

/// The place of a collectible at `(x, z)` in the ground plane of the current level.
pub fn place_food(floor_manager: &FloorManager, x: i64, z: i64) -> (at: Vec3)
    ensures
        at@ == food_place(floor_manager.highest_height as int, x as int, z as int),
{
    proof {
        crate::fixed::lemma_scaled_shrinks(floor_manager.highest_height as int, 300, 1000);
    }
    let heights = floor_manager.current_level_heights();
    Vec3 { x, y: heights.1 + FOOD_CLEARANCE, z }
}

/// Places one collectible for each of `events` requests, each at a random
/// spot of the current level in the ground plane.
pub fn spawn_food(floor_manager: &FloorManager, events: usize) -> (places: Vec<Vec3>)
    ensures
        places@.len() == events,
        forall|i: int|
            0 <= i < places@.len() ==> {
                let corners = level_size(floor_manager.spawn_frontier as int);
                let at = #[trigger] places@[i];
                &&& corners.0.x <= at.x < corners.1.x
                &&& corners.0.y <= at.z < corners.1.y
                &&& at@ == food_place(
                    floor_manager.highest_height as int,
                    at.x as int,
                    at.z as int,
                )
            },
{
    let mut places: Vec<Vec3> = Vec::new();
    let mut done: usize = 0;
    while done < events
        invariant
            done <= events,
            places@.len() == done,
            forall|i: int|
                0 <= i < places@.len() ==> {
                    let corners = level_size(floor_manager.spawn_frontier as int);
                    let at = #[trigger] places@[i];
                    &&& corners.0.x <= at.x < corners.1.x
                    &&& corners.0.y <= at.z < corners.1.y
                    &&& at@ == food_place(
                        floor_manager.highest_height as int,
                        at.x as int,
                        at.z as int,
                    )
                },
        decreases events - done,
    {
        let (closest_left, farthest_right) = floor_manager.current_level_size();
        let x = random_in_f32_range(closest_left.x, farthest_right.x);
        let z = random_in_f32_range(closest_left.y, farthest_right.y);
        places.push(place_food(floor_manager, x, z));
        done = done + 1;
    }
    places
}

/// Whether the runner at `player` picks up the collectible at `food`.
pub fn reaches(player: Vec3, food: Vec3) -> (b: bool)
    ensures
        b == collects(player@, food@),
{
    norm_sq_at_most(
        (player.x as i128) - (food.x as i128),
        (player.y as i128) - (food.y as i128),
        (player.z as i128) - (food.z as i128),
        (FOOD_REACH * FOOD_REACH - 1) as u64,
    )
}

/// One tick of the collectibles at `foods` with the runner at `player`: says
/// for each whether the runner picks it up, and scores `FOOD_SCORE` for each
/// that it does.
pub fn update_food(floor_manager: &mut FloorManager, player: Vec3, foods: &Vec<Vec3>) -> (collected:
    Vec<bool>)
    ensures
        collected@.len() == foods@.len(),
        forall|i: int|
            0 <= i < foods@.len() ==> #[trigger] collected@[i] == collects(player@, foods@[i]@),
        final(floor_manager).score == score_after(
            old(floor_manager).score,
            FOOD_SCORE * collected_count(player@, foods@),
        ),
        final(floor_manager).spawn_frontier == old(floor_manager).spawn_frontier,
        final(floor_manager).floor_rows == old(floor_manager).floor_rows,
        final(floor_manager).live_rows == old(floor_manager).live_rows,
        final(floor_manager).lowest_height == old(floor_manager).lowest_height,
        final(floor_manager).highest_height == old(floor_manager).highest_height,
{
    let mut collected: Vec<bool> = Vec::new();
    let mut i: usize = 0;
    assert(foods@.take(0) =~= Seq::<Vec3>::empty());
    while i < foods.len()
        invariant
            i <= foods.len(),
            collected@.len() == i,
            forall|k: int|
                0 <= k < i ==> #[trigger] collected@[k] == collects(player@, foods@[k]@),
            floor_manager.score == score_after(
                old(floor_manager).score,
                FOOD_SCORE * collected_count(player@, foods@.take(i as int)),
            ),
            floor_manager.spawn_frontier == old(floor_manager).spawn_frontier,
            floor_manager.floor_rows == old(floor_manager).floor_rows,
            floor_manager.live_rows == old(floor_manager).live_rows,
            floor_manager.lowest_height == old(floor_manager).lowest_height,
            floor_manager.highest_height == old(floor_manager).highest_height,
        decreases foods.len() - i,
    {
        let taken = reaches(player, foods[i]);
        proof {
            assert(foods@.take(i + 1).drop_last() =~= foods@.take(i as int));
            assert(foods@.take(i + 1).last() == foods@[i as int]);
        }
        if taken {
            floor_manager.score = if floor_manager.score > usize::MAX - FOOD_SCORE {
                usize::MAX
            } else {
                floor_manager.score + FOOD_SCORE
            };
        }
        collected.push(taken);
        i = i + 1;
    }
    assert(foods@.take(i as int) =~= foods@);
    collected
}

} // verus!
