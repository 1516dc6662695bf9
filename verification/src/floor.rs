//! The track: a ring of rows of segments, of which a window is live.
//!
//! The ring holds `NUMBER_OF_ROWS` rows. The rows at the head of the dormant
//! queue are spawned in front of the runner, stay live while they are in view
//! and go back to the tail of the queue once the camera has passed them. A row
//! spawned as the `t`-th row of the run stands at track index `t`, so the
//! `i`-th live row stands at index `spawn_frontier - live_rows.len() + i`.

use vstd::prelude::*;
use vstd::arithmetic::power::pow;
use std::collections::VecDeque;
use crate::color::{floor_color, Color};
use crate::fixed::{mul_div, norm_sq, norm_sq_at_most, scaled, Vec2, Vec3, MILLI};

verus! {

/// Edge of one track cell, and the factor from segment heights to world heights.
pub const FLOOR_CUBE_SIZE: i64 = 300;

/// Half the edge of one track cell.
pub const HALF_CUBE_SIZE: i64 = 150;

/// Rows that are live once the track has been set up.
pub const NUMBER_OF_LIVE_ROWS: usize = 100;

/// Rows in the whole ring.
pub const NUMBER_OF_ROWS: usize = 200;

/// Segments in a row.
pub const NUMBER_OF_COLUMNS: usize = 30;

/// Share by which a segment grows each time it is spawned.
pub const DISTANCE_INCREASE: i64 = 100;

/// Height of every segment of a fresh track.
pub const BASE_HEIGHT: i64 = 2000;

/// The greatest height that a segment can have: the greatest number that the
/// arithmetic holds. A height that would grow past it stays at it.
pub const HEIGHT_LIMIT: i64 = 9_223_372_036_854_775_807;

/// Growth of a segment that the runner has just left behind.
pub const NEAR_GROWTH: i64 = 600;

/// Planar distance within which a segment ahead of the runner has its collider.
pub const COLLIDER_RANGE: i64 = 2000;

/// Planar distance within which a segment behind the runner grows.
pub const GROWTH_RANGE: i64 = 500;

/// Largest spawn frontier from which a whole ring can still be spawned.
pub const FRONTIER_LIMIT: i32 = 2_147_483_447;

/// One cell of the track.
#[derive(Clone, Copy, Debug, PartialEq, Eq, Structural)]
pub struct Floor {
    pub height: i64,
    pub row_id: usize,
    pub lateral_slot: i32,
    pub color: Color,
}

/// The segments that share one longitudinal position, one per lateral slot.
#[derive(Debug)]
pub struct FloorRow {
    pub blocks: VecDeque<Floor>,
}

/// The track and its scan state.
#[derive(Debug)]
pub struct FloorManager {
    /// Number of rows spawned since the track was set up.
    pub spawn_frontier: i32,
    pub score: usize,
    /// The dormant rows, next to spawn first.
    pub floor_rows: VecDeque<FloorRow>,
    /// The live rows, oldest first.
    pub live_rows: VecDeque<FloorRow>,
    /// Least height spawned since the current lap began.
    pub lowest_height: i64,
    /// Greatest height spawned since the current lap began.
    pub highest_height: i64,
}

/// What a call that spawns rows did.
#[derive(Clone, Copy, Debug, PartialEq, Eq, Structural)]
pub struct Spawned {
    /// Rows moved from the dormant queue to the live window.
    pub rows: usize,
    /// Laps begun, each of which asks for one collectible.
    pub food_events: usize,
}

/// What matters of a segment for the course of the game.
pub struct Segment {
    pub height: int,
    pub row_id: int,
    pub lateral_slot: int,
}

/// The track as a mathematical value.
pub struct Track {
    pub spawn_frontier: int,
    pub live: Seq<Seq<Segment>>,
    pub dormant: Seq<Seq<Segment>>,
    pub lowest: int,
    pub highest: int,
}

impl View for Floor {
    type V = Segment;

    open spec fn view(&self) -> Segment {
        Segment {
            height: self.height as int,
            row_id: self.row_id as int,
            lateral_slot: self.lateral_slot as int,
        }
    }
}

impl View for FloorRow {
    type V = Seq<Segment>;

    open spec fn view(&self) -> Seq<Segment> {
        Seq::new(self.blocks@.len(), |j: int| self.blocks@[j]@)
    }
}

/// The rows of a queue as mathematical values.
pub open spec fn rows_view(rows: Seq<FloorRow>) -> Seq<Seq<Segment>> {
    Seq::new(rows.len(), |i: int| rows[i]@)
}

impl View for FloorManager {
    type V = Track;

    open spec fn view(&self) -> Track {
        Track {
            spawn_frontier: self.spawn_frontier as int,
            live: rows_view(self.live_rows@),
            dormant: rows_view(self.floor_rows@),
            lowest: self.lowest_height as int,
            highest: self.highest_height as int,
        }
    }
}

/// The lateral slot of the `j`-th segment of a row.
pub open spec fn slot_of(j: int) -> int {
    j - NUMBER_OF_COLUMNS / 2
}

/// The identity of the row that stands at `track_index`.
pub open spec fn row_id_at(track_index: int) -> int {
    track_index % (NUMBER_OF_ROWS as int)
}

/// A height that a segment can have.
pub open spec fn height_ok(h: int) -> bool {
    BASE_HEIGHT <= h <= HEIGHT_LIMIT
}

/// A full row with identity `row_id`: one segment per slot, in slot order.
pub open spec fn row_wf(row: Seq<Segment>, row_id: int) -> bool {
    &&& row.len() == NUMBER_OF_COLUMNS
    &&& forall|j: int|
        0 <= j < row.len() ==> {
            &&& (#[trigger] row[j]).row_id == row_id
            &&& row[j].lateral_slot == slot_of(j)
            &&& height_ok(row[j].height)
        }
}

impl Track {
    /// Track index of the oldest live row.
    pub open spec fn first_live_index(self) -> int {
        self.spawn_frontier - self.live.len()
    }

    /// The ring is complete, every row is full and stands where its identity
    /// says, and the height bounds are in order.
    pub open spec fn wf(self) -> bool {
        &&& self.live.len() + self.dormant.len() == NUMBER_OF_ROWS
        &&& self.live.len() <= self.spawn_frontier
        &&& self.spawn_frontier + self.dormant.len() <= i32::MAX
        &&& forall|i: int|
            0 <= i < self.live.len() ==> row_wf(
                #[trigger] self.live[i],
                row_id_at(self.first_live_index() + i),
            )
        &&& forall|i: int|
            0 <= i < self.dormant.len() ==> row_wf(
                #[trigger] self.dormant[i],
                row_id_at(self.spawn_frontier + i),
            )
        &&& BASE_HEIGHT <= self.lowest <= self.highest <= HEIGHT_LIMIT
    }
}

impl FloorManager {
    /// The track is well formed. Nothing is asked of the colours.
    pub open spec fn wf(&self) -> bool {
        self@.wf()
    }
}

/// The height of a segment after one more trip through the queue: a tenth
/// more, rounded down to a thousandth, or `HEIGHT_LIMIT` where that would
/// be more than the arithmetic holds.
pub open spec fn lap_grown(h: int) -> int {
    let g = scaled(h, MILLI + DISTANCE_INCREASE, MILLI as int);
    if g > HEIGHT_LIMIT {
        HEIGHT_LIMIT as int
    } else {
        g
    }
}

/// A segment as it is spawned.
pub open spec fn grown_segment(s: Segment) -> Segment {
    Segment { height: lap_grown(s.height), row_id: s.row_id, lateral_slot: s.lateral_slot }
}

/// A row as it is spawned.
pub open spec fn grown_row(row: Seq<Segment>) -> Seq<Segment> {
    Seq::new(row.len(), |j: int| grown_segment(row[j]))
}

/// Spawning this row begins a lap.
pub open spec fn starts_lap(row: Seq<Segment>) -> bool {
    row.len() > 0 && row[0].row_id == 0
}

/// The bounds `(lowest, highest)` widened by the heights of `row`.
pub open spec fn observed(bounds: (int, int), row: Seq<Segment>) -> (int, int)
    decreases row.len(),
{
    if row.len() == 0 {
        bounds
    } else {
        let before = observed(bounds, row.drop_last());
        let h = row.last().height;
        (
            if h < before.0 {
                h
            } else {
                before.0
            },
            if h > before.1 {
                h
            } else {
                before.1
            },
        )
    }
}

/// The bounds after spawning the dormant row `row`: forgotten first if the row
/// begins a lap, then widened by the row's heights as spawned.
pub open spec fn bounds_after_row(bounds: (int, int), row: Seq<Segment>) -> (int, int) {
    observed(
        if starts_lap(row) {
            (i64::MAX as int, i64::MIN as int)
        } else {
            bounds
        },
        grown_row(row),
    )
}

/// The bounds after spawning the dormant rows `rows` in order.
pub open spec fn bounds_after(bounds: (int, int), rows: Seq<Seq<Segment>>) -> (int, int)
    decreases rows.len(),
{
    if rows.len() == 0 {
        bounds
    } else {
        bounds_after_row(bounds_after(bounds, rows.drop_last()), rows.last())
    }
}

/// How many of `rows` begin a lap.
pub open spec fn laps_started(rows: Seq<Seq<Segment>>) -> nat
    decreases rows.len(),
{
    if rows.len() == 0 {
        0
    } else {
        laps_started(rows.drop_last()) + if starts_lap(rows.last()) {
            1nat
        } else {
            0nat
        }
    }
}

/// How many rows a request for `n` rows spawns.
pub open spec fn spawn_count(t: Track, n: int) -> int {
    if n <= t.dormant.len() {
        n
    } else {
        t.dormant.len() as int
    }
}

/// The track after a request to spawn `n` rows: the first rows of the dormant
/// queue, as many as there are up to `n`, join the live window grown by one
/// lap, and the frontier advances by their number.
pub open spec fn spawned(t: Track, n: nat) -> Track {
    let k = spawn_count(t, n as int);
    let rows = t.dormant.take(k);
    let bounds = bounds_after((t.lowest, t.highest), rows);
    Track {
        spawn_frontier: t.spawn_frontier + k,
        live: t.live + Seq::new(k as nat, |i: int| grown_row(rows[i])),
        dormant: t.dormant.skip(k),
        lowest: bounds.0,
        highest: bounds.1,
    }
}

/// Growth by a lap keeps a height valid and never lowers it.
pub proof fn lemma_lap_grown_bounds(h: int)
    requires
        height_ok(h),
    ensures
        height_ok(lap_grown(h)),
        h <= lap_grown(h),
        h < HEIGHT_LIMIT ==> h < lap_grown(h),
{
    crate::fixed::lemma_trunc_div_magnitude(h * 1100, 1000);
}

/// Grows one height by a lap.
pub fn grow_by_lap(height: i64) -> (grown: i64)
    requires
        height_ok(height as int),
    ensures
        grown == lap_grown(height as int),
{
    let factor: i128 = (MILLI + DISTANCE_INCREASE) as i128;
    assert(factor == 1100);
    let g: i128 = (height as i128) * factor / (MILLI as i128);
    if g > HEIGHT_LIMIT as i128 {
        HEIGHT_LIMIT
    } else {
        g as i64
    }
}


/// Widening valid bounds, or forgotten ones, by the valid heights of a row gives
/// valid bounds that enclose every height of the row.
pub proof fn lemma_observed(bounds: (int, int), row: Seq<Segment>)
    requires
        forall|j: int| 0 <= j < row.len() ==> height_ok((#[trigger] row[j]).height),
        (BASE_HEIGHT <= bounds.0 <= bounds.1 <= HEIGHT_LIMIT) || (bounds == (
            i64::MAX as int,
            i64::MIN as int,
        )),
    ensures
        forall|j: int|
            0 <= j < row.len() ==> observed(bounds, row).0 <= (#[trigger] row[j]).height
                <= observed(bounds, row).1,
        observed(bounds, row).0 <= bounds.0,
        bounds.1 <= observed(bounds, row).1,
        row.len() == 0 ==> observed(bounds, row) == bounds,
        row.len() > 0 || bounds.0 <= bounds.1 ==> BASE_HEIGHT <= observed(bounds, row).0
            <= observed(bounds, row).1 <= HEIGHT_LIMIT,
    decreases row.len(),
{
    if row.len() > 0 {
        let front = row.drop_last();
        lemma_observed(bounds, front);
        assert(height_ok(row[row.len() - 1].height));
        assert forall|j: int| 0 <= j < row.len() implies observed(bounds, row).0 <= (
        #[trigger] row[j]).height <= observed(bounds, row).1 by {
            if j < row.len() - 1 {
                assert(front[j] == row[j]);
            }
        }
    }
}

/// A row spawned from a full row is a full row with the same identity.
pub proof fn lemma_grown_row_wf(row: Seq<Segment>, row_id: int)
    requires
        row_wf(row, row_id),
    ensures
        row_wf(grown_row(row), row_id),
{
    assert forall|j: int| 0 <= j < row.len() implies height_ok(
        (#[trigger] grown_row(row)[j]).height,
    ) by {
        assert(height_ok(row[j].height));
        lemma_lap_grown_bounds(row[j].height);
    }
}

/// Spawning full rows from valid bounds leaves valid bounds.
pub proof fn lemma_bounds_after(bounds: (int, int), rows: Seq<Seq<Segment>>)
    requires
        BASE_HEIGHT <= bounds.0 <= bounds.1 <= HEIGHT_LIMIT,
        forall|i: int|
            0 <= i < rows.len() ==> (#[trigger] rows[i]).len() == NUMBER_OF_COLUMNS && forall|
                j: int,
            | 0 <= j < rows[i].len() ==> height_ok((#[trigger] rows[i][j]).height),
    ensures
        BASE_HEIGHT <= bounds_after(bounds, rows).0 <= bounds_after(bounds, rows).1
            <= HEIGHT_LIMIT,
    decreases rows.len(),
{
    if rows.len() > 0 {
        let front = rows.drop_last();
        assert forall|i: int| 0 <= i < front.len() implies (#[trigger] front[i]).len()
            == NUMBER_OF_COLUMNS && forall|j: int|
            0 <= j < front[i].len() ==> height_ok((#[trigger] front[i][j]).height) by {
            assert(front[i] == rows[i]);
        }
        lemma_bounds_after(bounds, front);
        let row = rows[rows.len() - 1];
        let grown = grown_row(row);
        assert forall|j: int| 0 <= j < grown.len() implies height_ok(
            (#[trigger] grown[j]).height,
        ) by {
            assert(height_ok(row[j].height));
            lemma_lap_grown_bounds(row[j].height);
        }
        let start = if starts_lap(row) {
            (i64::MAX as int, i64::MIN as int)
        } else {
            bounds_after(bounds, front)
        };
        lemma_observed(start, grown);
    }
}

/// Spawning keeps the track well formed; in particular the live and the
/// dormant rows together remain the whole ring.
pub proof fn lemma_spawned_wf(t: Track, n: nat)
    requires
        t.wf(),
    ensures
        spawned(t, n).wf(),
        spawned(t, n).live.len() + spawned(t, n).dormant.len() == NUMBER_OF_ROWS,
{
    let k = spawn_count(t, n as int);
    let rows = t.dormant.take(k);
    let after = spawned(t, n);
    assert forall|i: int| 0 <= i < after.live.len() implies row_wf(
        #[trigger] after.live[i],
        row_id_at(after.first_live_index() + i),
    ) by {
        if i < t.live.len() {
            assert(after.live[i] == t.live[i]);
        } else {
            let d = i - t.live.len();
            assert(after.live[i] == grown_row(t.dormant[d]));
            assert(row_wf(t.dormant[d], row_id_at(t.spawn_frontier + d)));
            lemma_grown_row_wf(t.dormant[d], row_id_at(t.spawn_frontier + d));
        }
    }
    assert forall|i: int| 0 <= i < after.dormant.len() implies row_wf(
        #[trigger] after.dormant[i],
        row_id_at(after.spawn_frontier + i),
    ) by {
        assert(after.dormant[i] == t.dormant[i + k]);
    }
    assert forall|i: int| 0 <= i < rows.len() implies (#[trigger] rows[i]).len()
        == NUMBER_OF_COLUMNS && forall|j: int|
        0 <= j < rows[i].len() ==> height_ok((#[trigger] rows[i][j]).height) by {
        assert(rows[i] == t.dormant[i]);
        assert(row_wf(t.dormant[i], row_id_at(t.spawn_frontier + i)));
    }
    lemma_bounds_after((t.lowest, t.highest), rows);
}

/// Spawns one row: every segment grows by a lap and takes a fresh tint, and
/// the bounds are widened by the new heights.
fn spawn_row(row: FloorRow, lowest: i64, highest: i64) -> (out: (FloorRow, i64, i64))
    requires
        forall|j: int|
            0 <= j < row.blocks@.len() ==> height_ok((#[trigger] row.blocks@[j]).height as int),
    ensures
        out.0@ == grown_row(row@),
        out.0.blocks@.len() == row.blocks@.len(),
        forall|j: int|
            0 <= j < row.blocks@.len() ==> (#[trigger] row.blocks@[j]).color.may_become(
                out.0.blocks@[j].color,
            ),
        (out.1 as int, out.2 as int) == observed(
            (lowest as int, highest as int),
            grown_row(row@),
        ),
{
    let ghost source = row.blocks@;
    let ghost target = grown_row(row@);
    let mut blocks = row.blocks;
    let mut grown: VecDeque<Floor> = VecDeque::new();
    let mut lo = lowest;
    let mut hi = highest;
    assert(target.take(0) =~= Seq::<Segment>::empty());
    while blocks.len() > 0
        invariant
            source.len() == target.len(),
            grown@.len() + blocks@.len() == source.len(),
            blocks@ == source.skip(grown@.len() as int),
            forall|j: int|
                0 <= j < source.len() ==> height_ok((#[trigger] source[j]).height as int),
            forall|j: int| 0 <= j < source.len() ==> #[trigger] target[j] == grown_segment(source[j]@),
            forall|j: int| 0 <= j < grown@.len() ==> (#[trigger] grown@[j])@ == target[j],
            forall|j: int|
                0 <= j < grown@.len() ==> (#[trigger] source[j]).color.may_become(grown@[j].color),
            (lo as int, hi as int) == observed(
                (lowest as int, highest as int),
                target.take(grown@.len() as int),
            ),
        decreases blocks@.len(),
    {
        let ghost done = grown@.len() as int;
        let popped = blocks.pop_front();
        match popped {
            Some(block) => {
                assert(block == source[done]);
                let height = grow_by_lap(block.height);
                if height < lo {
                    lo = height;
                }
                if height > hi {
                    hi = height;
                }
                let color = block.color.randomly_jittered();
                grown.push_back(
                    Floor {
                        height,
                        row_id: block.row_id,
                        lateral_slot: block.lateral_slot,
                        color,
                    },
                );
                proof {
                    assert(target.take(done + 1).drop_last() =~= target.take(done));
                    assert(target.take(done + 1).last() == target[done]);
                    assert(blocks@ =~= source.skip(done + 1));
                }
            },
            None => {},
        }
    }
    proof {
        assert(target.take(grown@.len() as int) =~= target);
    }
    let out = FloorRow { blocks: grown };
    assert(out@ =~= target);
    (out, lo, hi)
}

/// The colours of the last `count` live rows of `live` derive from those of the
/// first `count` rows of `dormant`, segment by segment.
pub open spec fn recolored(dormant: Seq<FloorRow>, live: Seq<FloorRow>, count: int) -> bool {
    forall|i: int, j: int|
        0 <= i < count && 0 <= j < dormant[i].blocks@.len() ==> (
        #[trigger] dormant[i].blocks@[j]).color.may_become(
            live[live.len() - count + i].blocks@[j].color,
        )
}

/// Spawns up to `number_of_rows_to_spawn` rows from the head of the dormant
/// queue. With an empty queue nothing happens.
pub fn spawn_floors(floor_manager: &mut FloorManager, number_of_rows_to_spawn: usize) -> (outcome:
    Spawned)
    requires
        old(floor_manager).wf(),
    ensures
        final(floor_manager).wf(),
        final(floor_manager)@ == spawned(old(floor_manager)@, number_of_rows_to_spawn as nat),
        final(floor_manager).score == old(floor_manager).score,
        outcome.rows == spawn_count(old(floor_manager)@, number_of_rows_to_spawn as int),
        outcome.food_events == laps_started(
            old(floor_manager)@.dormant.take(outcome.rows as int),
        ),
        final(floor_manager).floor_rows@ == old(floor_manager).floor_rows@.skip(
            outcome.rows as int,
        ),
        final(floor_manager).live_rows@.len() == old(floor_manager).live_rows@.len()
            + outcome.rows,
        final(floor_manager).live_rows@.take(old(floor_manager).live_rows@.len() as int) == old(
            floor_manager
        ).live_rows@,
        recolored(
            old(floor_manager).floor_rows@,
            final(floor_manager).live_rows@,
            outcome.rows as int,
        ),
{
    let ghost track = floor_manager@;
    let ghost dormant = floor_manager.floor_rows@;
    let ghost live = floor_manager.live_rows@;
    let mut rows: usize = 0;
    let mut food_events: usize = 0;
    proof {
        assert(track.dormant.take(0) =~= Seq::<Seq<Segment>>::empty());
        assert(dormant.skip(0) =~= dormant);
        assert(floor_manager.live_rows@.take(live.len() as int) =~= live);
    }
    while rows < number_of_rows_to_spawn && floor_manager.floor_rows.len() > 0
        invariant
            track.wf(),
            track.dormant == rows_view(dormant),
            track.live == rows_view(live),
            rows <= number_of_rows_to_spawn,
            rows <= dormant.len(),
            food_events <= rows,
            floor_manager.floor_rows@ == dormant.skip(rows as int),
            floor_manager.live_rows@.len() == live.len() + rows,
            floor_manager.live_rows@.take(live.len() as int) == live,
            forall|i: int|
                0 <= i < rows ==> (#[trigger] floor_manager.live_rows@[live.len() + i])@
                    == grown_row(track.dormant[i]),
            forall|i: int, j: int|
                0 <= i < rows && 0 <= j < dormant[i].blocks@.len() ==> (
                #[trigger] dormant[i].blocks@[j]).color.may_become(
                    floor_manager.live_rows@[live.len() + i].blocks@[j].color,
                ),
            forall|i: int|
                0 <= i < rows ==> (#[trigger] floor_manager.live_rows@[live.len() + i]).blocks@.len()
                    == dormant[i].blocks@.len(),
            floor_manager.spawn_frontier == track.spawn_frontier + rows,
            (floor_manager.lowest_height as int, floor_manager.highest_height as int)
                == bounds_after((track.lowest, track.highest), track.dormant.take(rows as int)),
            food_events == laps_started(track.dormant.take(rows as int)),
            floor_manager.score == old(floor_manager).score,
        decreases dormant.len() - rows,
    {
        let ghost done = rows as int;
        let popped = floor_manager.floor_rows.pop_front();
        match popped {
            Some(floor_row) => {
                proof {
                    assert(floor_row == dormant[done]);
                    assert(track.dormant[done] == floor_row@);
                    assert(row_wf(track.dormant[done], row_id_at(track.spawn_frontier + done)));
                    assert forall|j: int| 0 <= j < floor_row.blocks@.len() implies height_ok(
                        (#[trigger] floor_row.blocks@[j]).height as int,
                    ) by {
                        assert(height_ok(floor_row@[j].height));
                    }
                    assert(track.dormant.take(done + 1).drop_last() =~= track.dormant.take(done));
                    assert(track.dormant.take(done + 1).last() == track.dormant[done]);
                }
                let mut lowest = floor_manager.lowest_height;
                let mut highest = floor_manager.highest_height;
                if floor_row.blocks.len() > 0 && floor_row.blocks[0].row_id == 0 {
                    food_events = food_events + 1;
                    lowest = i64::MAX;
                    highest = i64::MIN;
                }
                let ghost before = floor_manager.live_rows@;
                let (grown, lowest, highest) = spawn_row(floor_row, lowest, highest);
                let ghost tinted = grown.blocks@;
                floor_manager.lowest_height = lowest;
                floor_manager.highest_height = highest;
                floor_manager.live_rows.push_back(grown);
                floor_manager.spawn_frontier = floor_manager.spawn_frontier + 1;
                rows = rows + 1;
                proof {
                    assert(floor_manager.floor_rows@ =~= dormant.skip(done + 1));
                    assert(floor_manager.live_rows@.take(live.len() as int) =~= live);
                    assert forall|i: int, j: int|
                        0 <= i < rows && 0 <= j < dormant[i].blocks@.len() implies (
                    #[trigger] dormant[i].blocks@[j]).color.may_become(
                        floor_manager.live_rows@[live.len() + i].blocks@[j].color,
                    ) by {
                        if i < done {
                            assert(floor_manager.live_rows@[live.len() + i] == before[live.len()
                                + i]);
                        } else {
                            assert(floor_manager.live_rows@[live.len() + i].blocks@ == tinted);
                            assert(floor_row.blocks@[j].color.may_become(tinted[j].color));
                        }
                    }
                }
            },
            None => {},
        }
    }
    proof {
        lemma_spawned_wf(track, number_of_rows_to_spawn as nat);
        let after = spawned(track, number_of_rows_to_spawn as nat);
        assert(rows == spawn_count(track, number_of_rows_to_spawn as int));
        assert(floor_manager@.live =~= after.live) by {
            assert forall|i: int| 0 <= i < after.live.len() implies floor_manager@.live[i]
                == after.live[i] by {
                if i < live.len() {
                    assert(floor_manager.live_rows@[i] == floor_manager.live_rows@.take(
                        live.len() as int,
                    )[i]);
                } else {
                    assert(floor_manager.live_rows@[live.len() + (i - live.len())]@ == grown_row(
                        track.dormant[i - live.len()],
                    ));
                }
            }
        }
        assert(floor_manager@.dormant =~= after.dormant);
        assert(floor_manager@ == after);
    }
    Spawned { rows, food_events }
}


/// What one tick decided for one live segment.
#[derive(Clone, Copy, Debug, PartialEq, Eq)]
pub struct SegmentUpdate {
    /// Half extents of the box collider that the segment must have, or `None`
    /// if it must have none.
    pub collider: Option<Vec3>,
    /// The segment has just grown; its new height is in the track.
    pub grown: bool,
}

/// Longitudinal position of the row at `track_index`.
pub open spec fn row_x(track_index: int) -> int {
    track_index * FLOOR_CUBE_SIZE
}

/// Lateral position of the segments in `lateral_slot`.
pub open spec fn slot_z(lateral_slot: int) -> int {
    lateral_slot * FLOOR_CUBE_SIZE
}

/// Square of the distance in the ground plane between `(x, z)` and `(px, pz)`.
pub open spec fn planar_dist_sq(x: int, z: int, px: int, pz: int) -> int {
    norm_sq(x - px, 0, z - pz)
}

/// A segment at `(x, z)` has its collider while the runner is at `(px, pz)`:
/// it is ahead of the runner and no farther than `COLLIDER_RANGE`.
pub open spec fn collider_active(x: int, z: int, px: int, pz: int) -> bool {
    x > px && planar_dist_sq(x, z, px, pz) <= COLLIDER_RANGE * COLLIDER_RANGE
}

/// A segment at `(x, z)` grows while the runner is at `(px, pz)`: it is at
/// least half a cell behind the runner and nearer than `GROWTH_RANGE`.
pub open spec fn grows_near(x: int, z: int, px: int, pz: int) -> bool {
    x < px - HALF_CUBE_SIZE && planar_dist_sq(x, z, px, pz) < GROWTH_RANGE * GROWTH_RANGE
}

/// The height of a segment after it grew behind the runner: `NEAR_GROWTH`
/// more, or `HEIGHT_LIMIT` where that would be more than the arithmetic holds.
pub open spec fn near_grown(h: int) -> int {
    if h + NEAR_GROWTH > HEIGHT_LIMIT {
        HEIGHT_LIMIT as int
    } else {
        h + NEAR_GROWTH
    }
}

/// Half extents of the collider of a segment of height `h`.
pub open spec fn collider_half_extents(h: int) -> Vec3 {
    Vec3 {
        x: HALF_CUBE_SIZE,
        y: scaled(HALF_CUBE_SIZE as int, h, MILLI as int) as i64,
        z: HALF_CUBE_SIZE,
    }
}

/// The segment `s` of the row at `track_index` after a tick with the runner at
/// `(px, pz)`.
pub open spec fn updated_segment(s: Segment, track_index: int, px: int, pz: int) -> Segment {
    if grows_near(row_x(track_index), slot_z(s.lateral_slot), px, pz) {
        Segment { height: near_grown(s.height), row_id: s.row_id, lateral_slot: s.lateral_slot }
    } else {
        s
    }
}

/// What a tick with the runner at `(px, pz)` decides for the segment `s` of
/// the row at `track_index`.
pub open spec fn segment_update(s: Segment, track_index: int, px: int, pz: int) -> SegmentUpdate {
    SegmentUpdate {
        collider: if collider_active(row_x(track_index), slot_z(s.lateral_slot), px, pz) {
            Some(collider_half_extents(s.height))
        } else {
            None
        },
        grown: grows_near(row_x(track_index), slot_z(s.lateral_slot), px, pz),
    }
}

/// A row of the track at `track_index` after a tick with the runner at `(px, pz)`.
pub open spec fn updated_row(row: Seq<Segment>, track_index: int, px: int, pz: int) -> Seq<
    Segment,
> {
    Seq::new(row.len(), |j: int| updated_segment(row[j], track_index, px, pz))
}

/// The track after a tick with the runner at `(px, pz)`.
pub open spec fn updated(t: Track, px: int, pz: int) -> Track {
    Track {
        spawn_frontier: t.spawn_frontier,
        live: Seq::new(
            t.live.len(),
            |i: int| updated_row(t.live[i], t.first_live_index() + i, px, pz),
        ),
        dormant: t.dormant,
        lowest: t.lowest,
        highest: t.highest,
    }
}

/// The decisions of a tick with the runner at `(px, pz)`, row by row.
pub open spec fn segment_updates(t: Track, px: int, pz: int) -> Seq<Seq<SegmentUpdate>> {
    Seq::new(
        t.live.len(),
        |i: int|
            Seq::new(
                t.live[i].len(),
                |j: int| segment_update(t.live[i][j], t.first_live_index() + i, px, pz),
            ),
    )
}

/// The decisions of a tick as a mathematical value.
pub open spec fn updates_view(updates: Seq<Vec<SegmentUpdate>>) -> Seq<Seq<SegmentUpdate>> {
    Seq::new(updates.len(), |i: int| updates[i]@)
}

/// A tick keeps the track well formed.
pub proof fn lemma_updated_wf(t: Track, px: int, pz: int)
    requires
        t.wf(),
    ensures
        updated(t, px, pz).wf(),
{
    let after = updated(t, px, pz);
    assert forall|i: int| 0 <= i < after.live.len() implies row_wf(
        #[trigger] after.live[i],
        row_id_at(after.first_live_index() + i),
    ) by {
        let id = row_id_at(t.first_live_index() + i);
        assert(row_wf(t.live[i], id));
        assert forall|j: int| 0 <= j < after.live[i].len() implies {
            &&& (#[trigger] after.live[i][j]).row_id == id
            &&& after.live[i][j].lateral_slot == slot_of(j)
            &&& height_ok(after.live[i][j].height)
        } by {
            assert(height_ok(t.live[i][j].height));
        }
    }
}

/// Where the segment in `lateral_slot` of the row at `track_index` stands.
pub fn floor_translation(track_index: i32, lateral_slot: i32) -> (at: Vec3)
    ensures
        at.x == row_x(track_index as int),
        at.y == 0,
        at.z == slot_z(lateral_slot as int),
{
    Vec3 {
        x: (track_index as i64) * FLOOR_CUBE_SIZE,
        y: 0,
        z: (lateral_slot as i64) * FLOOR_CUBE_SIZE,
    }
}

/// Decides collider and growth for one live segment of the row at
/// `track_index`, with the runner at `player`, and applies the growth.
pub fn update_floor(floor: &mut Floor, track_index: i32, player: Vec3) -> (update: SegmentUpdate)
    ensures
        final(floor)@ == updated_segment(
            old(floor)@,
            track_index as int,
            player.x as int,
            player.z as int,
        ),
        final(floor).color == old(floor).color,
        update == segment_update(old(floor)@, track_index as int, player.x as int, player.z as int),
{
    let at = floor_translation(track_index, floor.lateral_slot);
    let dx: i128 = (at.x as i128) - (player.x as i128);
    let dz: i128 = (at.z as i128) - (player.z as i128);
    let ahead = at.x > player.x;
    let behind = (at.x as i128) < (player.x as i128) - (HALF_CUBE_SIZE as i128);
    let in_collider_range = norm_sq_at_most(dx, 0, dz, (COLLIDER_RANGE * COLLIDER_RANGE) as u64);
    let in_growth_range = norm_sq_at_most(dx, 0, dz, (GROWTH_RANGE * GROWTH_RANGE - 1) as u64);
    let collider = if ahead && in_collider_range {
        proof {
            crate::fixed::lemma_scaled_bound(
                HALF_CUBE_SIZE as int,
                floor.height as int,
                MILLI as int,
                HALF_CUBE_SIZE as int,
                0x8000_0000_0000_0000,
            );
        }
        Some(
            Vec3 {
                x: HALF_CUBE_SIZE,
                y: mul_div(HALF_CUBE_SIZE, floor.height, MILLI),
                z: HALF_CUBE_SIZE,
            },
        )
    } else {
        None
    };
    let grown = behind && in_growth_range;
    if grown {
        floor.height = if floor.height > HEIGHT_LIMIT - NEAR_GROWTH {
            HEIGHT_LIMIT
        } else {
            floor.height + NEAR_GROWTH
        };
    }
    SegmentUpdate { collider, grown }
}

/// Applies a tick to every segment of one live row.
fn update_row(row: FloorRow, track_index: i32, player: Vec3) -> (out: (
    FloorRow,
    Vec<SegmentUpdate>,
))
    ensures
        out.0@ == updated_row(row@, track_index as int, player.x as int, player.z as int),
        out.0.blocks@.len() == row.blocks@.len(),
        forall|j: int|
            0 <= j < row.blocks@.len() ==> (#[trigger] out.0.blocks@[j]).color
                == row.blocks@[j].color,
        out.1@ == Seq::new(
            row@.len(),
            |j: int| segment_update(row@[j], track_index as int, player.x as int, player.z as int),
        ),
{
    let ghost source = row.blocks@;
    let mut blocks = row.blocks;
    let mut kept: VecDeque<Floor> = VecDeque::new();
    let mut updates: Vec<SegmentUpdate> = Vec::new();
    while blocks.len() > 0
        invariant
            kept@.len() + blocks@.len() == source.len(),
            updates@.len() == kept@.len(),
            blocks@ == source.skip(kept@.len() as int),
            forall|j: int|
                0 <= j < kept@.len() ==> (#[trigger] kept@[j])@ == updated_segment(
                    source[j]@,
                    track_index as int,
                    player.x as int,
                    player.z as int,
                ) && kept@[j].color == source[j].color,
            forall|j: int|
                0 <= j < kept@.len() ==> #[trigger] updates@[j] == segment_update(
                    source[j]@,
                    track_index as int,
                    player.x as int,
                    player.z as int,
                ),
        decreases blocks@.len(),
    {
        let ghost done = kept@.len() as int;
        let popped = blocks.pop_front();
        match popped {
            Some(block) => {
                assert(block == source[done]);
                let mut block = block;
                let update = update_floor(&mut block, track_index, player);
                kept.push_back(block);
                updates.push(update);
                proof {
                    assert(blocks@ =~= source.skip(done + 1));
                }
            },
            None => {},
        }
    }
    let out = FloorRow { blocks: kept };
    proof {
        assert(out@ =~= updated_row(row@, track_index as int, player.x as int, player.z as int));
        assert(updates@ =~= Seq::new(
            row@.len(),
            |j: int| segment_update(row@[j], track_index as int, player.x as int, player.z as int),
        ));
    }
    (out, updates)
}

/// One tick of the live window with the runner at `player`: decides for every
/// live segment whether it has its collider, and raises the segments that the
/// runner has just left behind. The result has one entry per live segment, row
/// by row.
pub fn update_floors(floor_manager: &mut FloorManager, player: Vec3) -> (updates: Vec<
    Vec<SegmentUpdate>,
>)
    requires
        old(floor_manager).wf(),
    ensures
        final(floor_manager).wf(),
        final(floor_manager)@ == updated(old(floor_manager)@, player.x as int, player.z as int),
        final(floor_manager).score == old(floor_manager).score,
        final(floor_manager).floor_rows@ == old(floor_manager).floor_rows@,
        final(floor_manager).live_rows@.len() == old(floor_manager).live_rows@.len(),
        forall|i: int, j: int|
            0 <= i < old(floor_manager).live_rows@.len() && 0 <= j < old(
                floor_manager
            ).live_rows@[i].blocks@.len() ==> (#[trigger] final(
                floor_manager
            ).live_rows@[i].blocks@[j]).color == old(floor_manager).live_rows@[i].blocks@[j].color,
        updates_view(updates@) == segment_updates(
            old(floor_manager)@,
            player.x as int,
            player.z as int,
        ),
{
    let ghost track = floor_manager@;
    let ghost live = floor_manager.live_rows@;
    let count = floor_manager.live_rows.len();
    let first = floor_manager.spawn_frontier - count as i32;
    let mut updates: Vec<Vec<SegmentUpdate>> = Vec::new();
    let mut done: usize = 0;
    while done < count
        invariant
            track.wf(),
            track.live == rows_view(live),
            count == live.len(),
            first == track.first_live_index(),
            done <= count,
            updates@.len() == done,
            floor_manager.live_rows@.len() == count,
            floor_manager.live_rows@.take(count - done) == live.skip(done as int),
            forall|i: int|
                0 <= i < done ==> (#[trigger] floor_manager.live_rows@[count - done + i])@
                    == updated_row(
                    track.live[i],
                    first + i,
                    player.x as int,
                    player.z as int,
                ),
            forall|i: int|
                0 <= i < done ==> (#[trigger] floor_manager.live_rows@[count - done
                    + i]).blocks@.len() == live[i].blocks@.len(),
            forall|i: int, j: int|
                0 <= i < done && 0 <= j < live[i].blocks@.len() ==> (
                #[trigger] floor_manager.live_rows@[count - done + i].blocks@[j]).color
                    == live[i].blocks@[j].color,
            forall|i: int|
                0 <= i < done ==> (#[trigger] updates@[i])@ == Seq::new(
                    track.live[i].len(),
                    |j: int|
                        segment_update(
                            track.live[i][j],
                            first + i,
                            player.x as int,
                            player.z as int,
                        ),
                ),
            floor_manager.spawn_frontier == old(floor_manager).spawn_frontier,
            floor_manager.score == old(floor_manager).score,
            floor_manager.floor_rows@ == old(floor_manager).floor_rows@,
            floor_manager.lowest_height == old(floor_manager).lowest_height,
            floor_manager.highest_height == old(floor_manager).highest_height,
        decreases count - done,
    {
        let ghost before = floor_manager.live_rows@;
        let popped = floor_manager.live_rows.pop_front();
        match popped {
            Some(row) => {
                proof {
                    assert(row == before.take(count - done)[0]);
                    assert(row == live[done as int]);
                    assert(track.live[done as int] == row@);
                }
                let (kept, decided) = update_row(row, first + done as i32, player);
                let ghost kept_blocks = kept.blocks@;
                floor_manager.live_rows.push_back(kept);
                updates.push(decided);
                proof {
                    let now = floor_manager.live_rows@;
                    assert(now =~= before.skip(1).push(kept));
                    assert(now.take(count - done - 1) =~= live.skip(done + 1)) by {
                        assert forall|i: int| 0 <= i < count - done - 1 implies #[trigger] now[i]
                            == live[done + 1 + i] by {
                            assert(now[i] == before[i + 1]);
                            assert(before[i + 1] == before.take(count - done)[i + 1]);
                        }
                    }
                    assert forall|i: int| 0 <= i < done + 1 implies (#[trigger] now[count - (done
                        + 1) + i])@ == updated_row(
                        track.live[i],
                        first + i,
                        player.x as int,
                        player.z as int,
                    ) && now[count - (done + 1) + i].blocks@.len() == live[i].blocks@.len() by {
                        if i < done {
                            assert(now[count - (done + 1) + i] == before[count - done + i]);
                        }
                    }
                    assert forall|i: int, j: int|
                        0 <= i < done + 1 && 0 <= j < live[i].blocks@.len() implies (
                    #[trigger] now[count - (done + 1) + i].blocks@[j]).color
                        == live[i].blocks@[j].color by {
                        if i < done {
                            assert(now[count - (done + 1) + i] == before[count - done + i]);
                        } else {
                            assert(now[count - (done + 1) + i].blocks@ == kept_blocks);
                        }
                    }
                }
                done = done + 1;
            },
            None => {},
        }
    }
    proof {
        lemma_updated_wf(track, player.x as int, player.z as int);
        let after = updated(track, player.x as int, player.z as int);
        let now = floor_manager.live_rows@;
        assert forall|i: int| 0 <= i < count implies (#[trigger] now[i])@ == after.live[i]
            && now[i].blocks@.len() == live[i].blocks@.len() by {
            assert(now[count - done + i]@ == updated_row(
                track.live[i],
                first + i,
                player.x as int,
                player.z as int,
            ));
            assert(now[count - done + i].blocks@.len() == live[i].blocks@.len());
        }
        assert forall|i: int, j: int|
            0 <= i < count && 0 <= j < live[i].blocks@.len() implies (
        #[trigger] now[i].blocks@[j]).color == live[i].blocks@[j].color by {
            assert(now[count - done + i].blocks@[j].color == live[i].blocks@[j].color);
        }
        assert(floor_manager@.live =~= after.live);
        assert(floor_manager@.dormant =~= after.dormant);
        assert(updates_view(updates@) =~= segment_updates(
            track,
            player.x as int,
            player.z as int,
        ));
    }
    updates
}


/// How many of the `count` rows that stand from `first_index` on lie behind
/// `camera_x`, counted from the oldest.
pub open spec fn rows_behind(first_index: int, count: nat, camera_x: int) -> nat
    decreases count,
{
    if count > 0 && row_x(first_index) < camera_x {
        1 + rows_behind(first_index + 1, (count - 1) as nat, camera_x)
    } else {
        0
    }
}

/// The track after its `k` oldest live rows went back to the tail of the
/// dormant queue.
pub open spec fn recycled(t: Track, k: int) -> Track {
    Track {
        spawn_frontier: t.spawn_frontier,
        live: t.live.skip(k),
        dormant: t.dormant + t.live.take(k),
        lowest: t.lowest,
        highest: t.highest,
    }
}

/// The track after the camera moved to `camera_x`: the live rows behind it
/// are recycled and as many rows are spawned.
pub open spec fn shifted(t: Track, camera_x: int) -> Track {
    let k = rows_behind(t.first_live_index(), t.live.len(), camera_x);
    spawned(recycled(t, k as int), k)
}

/// The rows counted by `rows_behind` are exactly the rows behind the camera.
pub proof fn lemma_rows_behind(first_index: int, count: nat, camera_x: int)
    ensures
        rows_behind(first_index, count, camera_x) <= count,
        forall|i: int|
            0 <= i < count ==> (#[trigger] row_x(first_index + i) < camera_x <==> i
                < rows_behind(first_index, count, camera_x)),
    decreases count,
{
    if count > 0 {
        lemma_rows_behind(first_index + 1, (count - 1) as nat, camera_x);
        let k = rows_behind(first_index, count, camera_x);
        assert forall|i: int| 0 <= i < count implies (#[trigger] row_x(first_index + i)
            < camera_x <==> i < k) by {
            if i > 0 {
                assert(row_x(first_index + 1 + (i - 1)) == row_x(first_index + i));
                assert(row_x(first_index) <= row_x(first_index + i));
            }
        }
    }
}

/// Recycling keeps the track well formed while the frontier leaves room for a
/// whole ring.
pub proof fn lemma_recycled_wf(t: Track, k: int)
    requires
        t.wf(),
        0 <= k <= t.live.len(),
        t.spawn_frontier + NUMBER_OF_ROWS <= i32::MAX,
    ensures
        recycled(t, k).wf(),
{
    let after = recycled(t, k);
    assert forall|i: int| 0 <= i < after.live.len() implies row_wf(
        #[trigger] after.live[i],
        row_id_at(after.first_live_index() + i),
    ) by {
        assert(after.live[i] == t.live[i + k]);
    }
    assert forall|i: int| 0 <= i < after.dormant.len() implies row_wf(
        #[trigger] after.dormant[i],
        row_id_at(after.spawn_frontier + i),
    ) by {
        if i < t.dormant.len() {
            assert(after.dormant[i] == t.dormant[i]);
        } else {
            let l = i - t.dormant.len();
            assert(after.dormant[i] == t.live[l]);
            assert(row_wf(t.live[l], row_id_at(t.first_live_index() + l)));
            assert(t.spawn_frontier + i == t.first_live_index() + l + NUMBER_OF_ROWS);
        }
    }
}

/// Shifting keeps the track well formed; in particular the live and the
/// dormant rows together remain the whole ring.
pub proof fn lemma_shifted_wf(t: Track, camera_x: int)
    requires
        t.wf(),
        t.spawn_frontier + NUMBER_OF_ROWS <= i32::MAX,
    ensures
        shifted(t, camera_x).wf(),
        shifted(t, camera_x).live.len() + shifted(t, camera_x).dormant.len() == NUMBER_OF_ROWS,
        shifted(t, camera_x).live.len() == t.live.len(),
{
    let k = rows_behind(t.first_live_index(), t.live.len(), camera_x);
    lemma_rows_behind(t.first_live_index(), t.live.len(), camera_x);
    lemma_recycled_wf(t, k as int);
    lemma_spawned_wf(recycled(t, k as int), k);
}

/// Recycles the live rows that lie behind `camera_x` and spawns as many rows
/// from the head of the dormant queue.
pub fn shift_floors(floor_manager: &mut FloorManager, camera_x: i64) -> (outcome: Spawned)
    requires
        old(floor_manager).wf(),
        old(floor_manager).spawn_frontier <= FRONTIER_LIMIT,
    ensures
        final(floor_manager).wf(),
        final(floor_manager)@ == shifted(old(floor_manager)@, camera_x as int),
        final(floor_manager).score == old(floor_manager).score,
        outcome.rows == rows_behind(
            old(floor_manager)@.first_live_index(),
            old(floor_manager)@.live.len(),
            camera_x as int,
        ),
        outcome.food_events == laps_started(
            recycled(old(floor_manager)@, outcome.rows as int).dormant.take(outcome.rows as int),
        ),
        outcome.rows <= old(floor_manager).live_rows@.len(),
        final(floor_manager).live_rows@.len() == old(floor_manager).live_rows@.len(),
        final(floor_manager).floor_rows@ == (old(floor_manager).floor_rows@ + old(
            floor_manager
        ).live_rows@.take(outcome.rows as int)).skip(outcome.rows as int),
        final(floor_manager).live_rows@.take(
            old(floor_manager).live_rows@.len() - outcome.rows,
        ) == old(floor_manager).live_rows@.skip(outcome.rows as int),
        recolored(
            old(floor_manager).floor_rows@ + old(floor_manager).live_rows@.take(
                outcome.rows as int,
            ),
            final(floor_manager).live_rows@,
            outcome.rows as int,
        ),
{
    let ghost track = floor_manager@;
    let ghost live = floor_manager.live_rows@;
    let ghost dormant = floor_manager.floor_rows@;
    let count = floor_manager.live_rows.len();
    let first: i32 = floor_manager.spawn_frontier - count as i32;
    let mut rows: usize = 0;
    proof {
        assert(live.skip(0) =~= live);
        assert(dormant + live.take(0) =~= dormant);
    }
    while rows < count && ((first + rows as i32) as i64) * FLOOR_CUBE_SIZE < camera_x
        invariant
            count == live.len(),
            count <= NUMBER_OF_ROWS,
            0 <= first,
            first + count <= i32::MAX,
            first == track.first_live_index(),
            rows <= count,
            floor_manager.live_rows@ == live.skip(rows as int),
            floor_manager.floor_rows@ == dormant + live.take(rows as int),
            rows_behind(first as int, count as nat, camera_x as int) == rows + rows_behind(
                first + rows,
                (count - rows) as nat,
                camera_x as int,
            ),
            floor_manager.spawn_frontier == old(floor_manager).spawn_frontier,
            floor_manager.score == old(floor_manager).score,
            floor_manager.lowest_height == old(floor_manager).lowest_height,
            floor_manager.highest_height == old(floor_manager).highest_height,
        decreases count - rows,
    {
        let popped = floor_manager.live_rows.pop_front();
        match popped {
            Some(row) => {
                assert(row == live[rows as int]);
                floor_manager.floor_rows.push_back(row);
                proof {
                    assert(floor_manager.live_rows@ =~= live.skip(rows + 1));
                    assert(floor_manager.floor_rows@ =~= dormant + live.take(rows + 1));
                }
                rows = rows + 1;
            },
            None => {},
        }
    }
    proof {
        assert(rows == rows_behind(first as int, count as nat, camera_x as int));
        lemma_recycled_wf(track, rows as int);
        let between = recycled(track, rows as int);
        assert(floor_manager@.live =~= between.live);
        assert(floor_manager@.dormant =~= between.dormant);
    }
    let outcome = spawn_floors(floor_manager, rows);
    proof {
        assert(live.skip(rows as int).len() == count - rows);
    }
    outcome
}


/// A row of a fresh track.
pub open spec fn fresh_row(row_id: int) -> Seq<Segment> {
    Seq::new(
        NUMBER_OF_COLUMNS as nat,
        |j: int| Segment { height: BASE_HEIGHT as int, row_id, lateral_slot: slot_of(j) },
    )
}

/// The track before its first row is spawned: every row is dormant, in the
/// order of the row identities, so that row 0 is the first to spawn.
pub open spec fn fresh_track() -> Track {
    Track {
        spawn_frontier: 0,
        live: Seq::empty(),
        dormant: Seq::new(NUMBER_OF_ROWS as nat, |i: int| fresh_row(i)),
        lowest: BASE_HEIGHT as int,
        highest: BASE_HEIGHT as int,
    }
}

/// How many of the track indices from `from` up to, not including, `to` hold
/// the row that begins a lap.
pub open spec fn lap_starts_between(from: int, to: int) -> nat
    decreases to - from,
{
    if to <= from {
        0
    } else {
        lap_starts_between(from, to - 1) + if row_id_at(to - 1) == 0 {
            1nat
        } else {
            0nat
        }
    }
}

/// A fresh track is well formed.
pub proof fn lemma_fresh_track_wf()
    ensures
        fresh_track().wf(),
{
    let t = fresh_track();
    assert forall|i: int| 0 <= i < t.dormant.len() implies row_wf(
        #[trigger] t.dormant[i],
        row_id_at(t.spawn_frontier + i),
    ) by {
        assert(t.dormant[i] == fresh_row(i));
    }
}

/// The row that stands at the head of the dormant queue begins a lap exactly
/// when the number of rows spawned so far is a multiple of the ring's length.
pub proof fn lemma_lap_start_detection(t: Track)
    requires
        t.wf(),
        t.dormant.len() > 0,
    ensures
        starts_lap(t.dormant[0]) <==> t.spawn_frontier % (NUMBER_OF_ROWS as int) == 0,
        starts_lap(t.dormant[0]) <==> t.dormant[0][0].row_id == 0,
{
    assert(row_wf(t.dormant[0], row_id_at(t.spawn_frontier + 0)));
}

/// Spawning `k` rows begins as many laps as there are multiples of the ring's
/// length among the track indices that the rows take.
pub proof fn lemma_laps_started(t: Track, k: int)
    requires
        t.wf(),
        0 <= k <= t.dormant.len(),
    ensures
        laps_started(t.dormant.take(k)) == lap_starts_between(
            t.spawn_frontier,
            t.spawn_frontier + k,
        ),
    decreases k,
{
    if k > 0 {
        lemma_laps_started(t, k - 1);
        assert(t.dormant.take(k).drop_last() =~= t.dormant.take(k - 1));
        assert(t.dormant.take(k).last() == t.dormant[k - 1]);
        assert(row_wf(t.dormant[k - 1], row_id_at(t.spawn_frontier + (k - 1))));
    }
}

/// No lap begins where no track index is a multiple of the ring's length.
pub proof fn lemma_no_lap_start(from: int, to: int)
    requires
        forall|index: int| from <= index < to ==> #[trigger] row_id_at(index) != 0,
    ensures
        lap_starts_between(from, to) == 0,
    decreases to - from,
{
    if from < to {
        lemma_no_lap_start(from, to - 1);
        assert(row_id_at(to - 1) != 0);
    }
}

/// Lap starts add up over adjoining stretches of the track.
pub proof fn lemma_lap_starts_split(from: int, mid: int, to: int)
    requires
        from <= mid <= to,
    ensures
        lap_starts_between(from, to) == lap_starts_between(from, mid) + lap_starts_between(
            mid,
            to,
        ),
    decreases to - mid,
{
    if mid < to {
        lemma_lap_starts_split(from, mid, to - 1);
    }
}

/// Among any `NUMBER_OF_ROWS` rows spawned one after the other, exactly one
/// begins a lap: the collectible trigger fires once per cycle of the queue.
pub proof fn lemma_one_lap_per_cycle(from: int)
    requires
        from >= 0,
    ensures
        lap_starts_between(from, from + NUMBER_OF_ROWS) == 1,
{
    let rest = from % 200;
    let start = if rest == 0 {
        from
    } else {
        from + 200 - rest
    };
    assert(start % 200 == 0);
    assert forall|index: int| from <= index < start implies #[trigger] row_id_at(index) != 0 by {}
    assert forall|index: int| start + 1 <= index < from + 200 implies #[trigger] row_id_at(index)
        != 0 by {}
    lemma_no_lap_start(from, start);
    lemma_no_lap_start(start + 1, from + 200);
    lemma_lap_starts_split(from, start, from + 200);
    lemma_lap_starts_split(start, start + 1, from + 200);
    assert(lap_starts_between(start, start + 1) == 1) by {
        assert(lap_starts_between(start, start) == 0);
        assert(row_id_at(start) == 0);
    }
}

/// After rows have been spawned, the bounds enclose the heights, as spawned,
/// of every row that was spawned since the last lap began.
pub proof fn lemma_bounds_enclose(bounds: (int, int), rows: Seq<Seq<Segment>>, i: int)
    requires
        BASE_HEIGHT <= bounds.0 <= bounds.1 <= HEIGHT_LIMIT,
        forall|r: int|
            0 <= r < rows.len() ==> (#[trigger] rows[r]).len() == NUMBER_OF_COLUMNS && forall|
                j: int,
            | 0 <= j < rows[r].len() ==> height_ok((#[trigger] rows[r][j]).height),
        0 <= i < rows.len(),
        forall|r: int| i < r < rows.len() ==> !starts_lap(#[trigger] rows[r]),
    ensures
        forall|j: int|
            0 <= j < rows[i].len() ==> bounds_after(bounds, rows).0 <= (#[trigger] grown_row(
                rows[i],
            )[j]).height <= bounds_after(bounds, rows).1,
    decreases rows.len(),
{
    let front = rows.drop_last();
    let last = rows[rows.len() - 1];
    let grown = grown_row(last);
    assert forall|r: int| 0 <= r < front.len() implies (#[trigger] front[r]).len()
        == NUMBER_OF_COLUMNS && forall|j: int|
        0 <= j < front[r].len() ==> height_ok((#[trigger] front[r][j]).height) by {
        assert(front[r] == rows[r]);
    }
    lemma_bounds_after(bounds, front);
    assert forall|j: int| 0 <= j < grown.len() implies height_ok((#[trigger] grown[j]).height) by {
        assert(height_ok(last[j].height));
        lemma_lap_grown_bounds(last[j].height);
    }
    let start = if starts_lap(last) {
        (i64::MAX as int, i64::MIN as int)
    } else {
        bounds_after(bounds, front)
    };
    lemma_observed(start, grown);
    if i < rows.len() - 1 {
        assert(front[i] == rows[i]);
        assert forall|r: int| i < r < front.len() implies !starts_lap(#[trigger] front[r]) by {
            assert(front[r] == rows[r]);
        }
        lemma_bounds_enclose(bounds, front, i);
    }
}

/// Every segment of a row that a request for `n` rows spawns has the height
/// that it had in the queue grown by a lap, which is more than before unless
/// the height was at the limit already, and keeps its row and its slot.
pub proof fn lemma_spawned_heights(t: Track, n: nat, i: int, j: int)
    requires
        t.wf(),
        0 <= i < spawn_count(t, n as int),
        0 <= j < NUMBER_OF_COLUMNS,
    ensures
        spawned(t, n).live[t.live.len() + i].len() == NUMBER_OF_COLUMNS,
        spawned(t, n).live[t.live.len() + i][j] == grown_segment(t.dormant[i][j]),
        spawned(t, n).live[t.live.len() + i][j].height == lap_grown(t.dormant[i][j].height),
        t.dormant[i][j].height < HEIGHT_LIMIT ==> spawned(t, n).live[t.live.len() + i][j].height
            > t.dormant[i][j].height,
        spawned(t, n).live[t.live.len() + i][j].height * 10 <= t.dormant[i][j].height * 11,
{
    assert(row_wf(t.dormant[i], row_id_at(t.spawn_frontier + i)));
    assert(height_ok(t.dormant[i][j].height));
    lemma_lap_grown_bounds(t.dormant[i][j].height);
    lemma_lap_grown_factor(t.dormant[i][j].height);
}

/// Right after a row has begun a lap the bounds are in order and enclose the
/// heights of that row as spawned, whatever the bounds were before.
pub proof fn lemma_lap_start_bounds(bounds: (int, int), row: Seq<Segment>)
    requires
        starts_lap(row),
        forall|j: int| 0 <= j < row.len() ==> height_ok((#[trigger] row[j]).height),
    ensures
        bounds_after_row(bounds, row).0 <= bounds_after_row(bounds, row).1,
        forall|j: int|
            0 <= j < row.len() ==> bounds_after_row(bounds, row).0 <= (#[trigger] grown_row(
                row,
            )[j]).height <= bounds_after_row(bounds, row).1,
        forall|other: (int, int)| bounds_after_row(other, row) == bounds_after_row(bounds, row),
{
    let grown = grown_row(row);
    assert forall|j: int| 0 <= j < grown.len() implies height_ok((#[trigger] grown[j]).height) by {
        assert(height_ok(row[j].height));
        lemma_lap_grown_bounds(row[j].height);
    }
    lemma_observed((i64::MAX as int, i64::MIN as int), grown);
}

/// A live segment has its collider exactly when it is ahead of the runner and
/// no farther from it in the ground plane than `COLLIDER_RANGE`; the collider is
/// as high as the segment. It grows exactly when it is at least half a cell
/// behind the runner and nearer than `GROWTH_RANGE`, and never when it has its
/// collider.
pub proof fn lemma_collider_window(s: Segment, track_index: int, px: int, pz: int)
    ensures
        segment_update(s, track_index, px, pz).collider.is_some() <==> row_x(track_index) > px
            && planar_dist_sq(row_x(track_index), slot_z(s.lateral_slot), px, pz) <= COLLIDER_RANGE
            * COLLIDER_RANGE,
        segment_update(s, track_index, px, pz).collider.is_some() ==> segment_update(
            s,
            track_index,
            px,
            pz,
        ).collider == Some(collider_half_extents(s.height)),
        segment_update(s, track_index, px, pz).grown <==> row_x(track_index) < px - HALF_CUBE_SIZE
            && planar_dist_sq(row_x(track_index), slot_z(s.lateral_slot), px, pz) < GROWTH_RANGE
            * GROWTH_RANGE,
        !(segment_update(s, track_index, px, pz).grown && segment_update(
            s,
            track_index,
            px,
            pz,
        ).collider.is_some()),
        updated_segment(s, track_index, px, pz).height == if segment_update(
            s,
            track_index,
            px,
            pz,
        ).grown {
            near_grown(s.height)
        } else {
            s.height
        },
{
}

/// The height of a segment of height `base` after `laps` trips through the
/// queue, left alone in between.
pub open spec fn height_after_laps(base: int, laps: nat) -> int
    decreases laps,
{
    if laps == 0 {
        base
    } else {
        lap_grown(height_after_laps(base, (laps - 1) as nat))
    }
}

/// Below the limit every further trip through the queue leaves a segment
/// higher than the trip before.
pub proof fn lemma_height_after_laps_increases(base: int, laps: nat)
    requires
        height_ok(base),
        height_after_laps(base, laps) < HEIGHT_LIMIT,
    ensures
        height_after_laps(base, laps) < height_after_laps(base, laps + 1),
{
    lemma_height_after_laps(base, laps);
    lemma_lap_grown_bounds(height_after_laps(base, laps));
}

/// One trip through the queue multiplies a height by eleven tenths: exactly
/// where the height is a multiple of ten and the product is within the limit,
/// and rounded down otherwise.
pub proof fn lemma_lap_grown_factor(h: int)
    requires
        height_ok(h),
    ensures
        lap_grown(h) * 10 <= h * 11,
        h % 10 == 0 && h * 11 <= HEIGHT_LIMIT * 10 ==> lap_grown(h) * 10 == h * 11,
        h * 11 < HEIGHT_LIMIT * 10 ==> lap_grown(h) * 10 > h * 11 - 10,
{
    crate::fixed::lemma_trunc_div_magnitude(h * 1100, 1000);
}

/// After `laps` trips a height never exceeds `base` times eleven tenths to
/// the power of `laps`.
pub proof fn lemma_height_after_laps(base: int, laps: nat)
    requires
        height_ok(base),
    ensures
        height_ok(height_after_laps(base, laps)),
        base <= height_after_laps(base, laps),
        height_after_laps(base, laps) * pow(10, laps) <= base * pow(11, laps),
    decreases laps,
{
    reveal(pow);
    if laps > 0 {
        let before = height_after_laps(base, (laps - 1) as nat);
        let after = height_after_laps(base, laps);
        let tens = pow(10, (laps - 1) as nat);
        let elevens = pow(11, (laps - 1) as nat);
        lemma_height_after_laps(base, (laps - 1) as nat);
        lemma_lap_grown_bounds(before);
        lemma_lap_grown_factor(before);
        vstd::arithmetic::power::lemma_pow_positive(10, (laps - 1) as nat);
        assert(after * (10 * tens) <= base * (11 * elevens)) by (nonlinear_arith)
            requires
                after * 10 <= before * 11,
                before * tens <= base * elevens,
                tens > 0,
        ;
    }
}

/// Where `base` is `c` times ten to the power of `spare + laps` and the limit
/// is not reached, the height after `laps` trips is exactly `base` times
/// eleven tenths to the power of `laps`.
pub proof fn lemma_height_after_laps_exact(c: int, spare: nat, laps: nat)
    requires
        c > 0,
        height_ok(c * pow(10, spare + laps)),
        c * pow(10, spare) * pow(11, laps) <= HEIGHT_LIMIT,
    ensures
        height_after_laps(c * pow(10, spare + laps), laps) == c * pow(10, spare) * pow(11, laps),
        height_after_laps(c * pow(10, spare + laps), laps) * pow(10, laps) == c * pow(
            10,
            spare + laps,
        ) * pow(11, laps),
    decreases laps,
{
    reveal(pow);
    let base = c * pow(10, spare + laps);
    vstd::arithmetic::power::lemma_pow_positive(10, spare);
    vstd::arithmetic::power::lemma_pow_positive(10, laps);
    vstd::arithmetic::power::lemma_pow_adds(10, spare, laps);
    if laps == 0 {
        assert(c * pow(10, spare) * 1 == c * pow(10, spare)) by (nonlinear_arith);
        assert(c * pow(10, spare) * pow(11, 0) == c * pow(10, spare));
        assert(height_after_laps(base, 0) * 1 == base * 1);
    } else {
        let fewer = (laps - 1) as nat;
        let tens = pow(10, spare);
        let elevens = pow(11, fewer);
        vstd::arithmetic::power::lemma_pow_positive(11, fewer);
        assert(pow(10, spare + 1) == 10 * tens);
        assert(spare + 1 + fewer == spare + laps);
        assert(c * (10 * tens) * elevens <= c * tens * (11 * elevens)) by (nonlinear_arith)
            requires
                c > 0,
                tens > 0,
                elevens > 0,
        ;
        lemma_height_after_laps_exact(c, spare + 1, fewer);
        let before = height_after_laps(base, fewer);
        assert(before == c * (10 * tens) * elevens);
        lemma_height_after_laps(base, fewer);
        let tenth = c * tens * elevens;
        assert(before == 10 * tenth) by (nonlinear_arith)
            requires
                before == c * (10 * tens) * elevens,
                tenth == c * tens * elevens,
        ;
        assert(before % 10 == 0);
        assert(before * 11 == c * tens * (11 * elevens) * 10) by (nonlinear_arith)
            requires
                before == c * (10 * tens) * elevens,
        ;
        assert(before * 11 <= HEIGHT_LIMIT * 10);
        lemma_lap_grown_factor(before);
        let after = height_after_laps(base, laps);
        assert(after == c * tens * (11 * elevens));
        vstd::arithmetic::power::lemma_pow_adds(10, spare, laps);
        assert(c * tens * pow(11, laps) * pow(10, laps) == c * (tens * pow(10, laps)) * pow(
            11,
            laps,
        )) by (nonlinear_arith);
    }
}

impl Default for FloorManager {
    fn default() -> (manager: Self)
        ensures
            manager.spawn_frontier == 0,
            manager.score == 0,
            manager.floor_rows@.len() == 0,
            manager.live_rows@.len() == 0,
            manager.lowest_height == 0,
            manager.highest_height == 0,
    {
        FloorManager {
            spawn_frontier: 0,
            score: 0,
            floor_rows: VecDeque::new(),
            live_rows: VecDeque::new(),
            lowest_height: 0,
            highest_height: 0,
        }
    }
}

/// The corners `(near, far)` of the level in the ground plane when
/// `spawn_frontier` rows have been spawned: the box of the live window, which
/// ends at the frontier and is `NUMBER_OF_LIVE_ROWS` rows long. `x` runs
/// along the track, `y` across it over the width of a row.
pub open spec fn level_size(spawn_frontier: int) -> (Vec2, Vec2) {
    let half_width = NUMBER_OF_COLUMNS * FLOOR_CUBE_SIZE / 2;
    (
        Vec2 {
            x: ((spawn_frontier - NUMBER_OF_LIVE_ROWS) * FLOOR_CUBE_SIZE) as i64,
            y: (-half_width) as i64,
        },
        Vec2 { x: (spawn_frontier * FLOOR_CUBE_SIZE) as i64, y: half_width as i64 },
    )
}

/// A segment height in world units.
pub open spec fn world_height(h: int) -> int {
    scaled(h, FLOOR_CUBE_SIZE as int, MILLI as int)
}

impl FloorManager {
    /// The corners `(near, far)` of the current level in the ground plane.
    pub fn current_level_size(&self) -> (corners: (Vec2, Vec2))
        ensures
            corners == level_size(self.spawn_frontier as int),
            corners.0.x == (self.spawn_frontier - NUMBER_OF_LIVE_ROWS) * FLOOR_CUBE_SIZE,
            corners.1.x == self.spawn_frontier * FLOOR_CUBE_SIZE,
            corners.1.x - corners.0.x == NUMBER_OF_LIVE_ROWS * FLOOR_CUBE_SIZE,
            corners.0.y == -(NUMBER_OF_COLUMNS * FLOOR_CUBE_SIZE / 2),
            corners.1.y == NUMBER_OF_COLUMNS * FLOOR_CUBE_SIZE / 2,
    {
        let farthest_visible_x = (self.spawn_frontier as i64) * FLOOR_CUBE_SIZE;
        let start_x = farthest_visible_x - (NUMBER_OF_LIVE_ROWS as i64) * FLOOR_CUBE_SIZE;
        let half_width = (NUMBER_OF_COLUMNS as i64) * FLOOR_CUBE_SIZE / 2;
        (Vec2 { x: start_x, y: -half_width }, Vec2 { x: farthest_visible_x, y: half_width })
    }

    /// The height bounds `(lowest, highest)` of the current level in world
    /// units.
    pub fn current_level_heights(&self) -> (heights: (i64, i64))
        ensures
            heights.0 == world_height(self.lowest_height as int),
            heights.1 == world_height(self.highest_height as int),
    {
        proof {
            crate::fixed::lemma_scaled_shrinks(self.lowest_height as int, 300, 1000);
            crate::fixed::lemma_scaled_shrinks(self.highest_height as int, 300, 1000);
        }
        (
            mul_div(self.lowest_height, FLOOR_CUBE_SIZE, MILLI),
            mul_div(self.highest_height, FLOOR_CUBE_SIZE, MILLI),
        )
    }
}

/// Builds one row of a fresh track.
fn build_row(row_id: usize) -> (row: FloorRow)
    ensures
        row@ == fresh_row(row_id as int),
        forall|j: int|
            0 <= j < row.blocks@.len() ==> (#[trigger] row.blocks@[j]).color == floor_color(),
{
    let mut blocks: VecDeque<Floor> = VecDeque::new();
    let mut j: usize = 0;
    while j < NUMBER_OF_COLUMNS
        invariant
            j <= NUMBER_OF_COLUMNS,
            blocks@.len() == j,
            forall|c: int|
                0 <= c < j ==> (#[trigger] blocks@[c])@ == (Segment {
                    height: BASE_HEIGHT as int,
                    row_id: row_id as int,
                    lateral_slot: slot_of(c),
                }) && blocks@[c].color == floor_color(),
        decreases NUMBER_OF_COLUMNS - j,
    {
        blocks.push_back(
            Floor {
                height: BASE_HEIGHT,
                row_id,
                lateral_slot: j as i32 - (NUMBER_OF_COLUMNS / 2) as i32,
                color: floor_color(),
            },
        );
        j = j + 1;
    }
    let row = FloorRow { blocks };
    assert(row@ =~= fresh_row(row_id as int));
    row
}

/// Every segment of every row has the colour `color`.
pub open spec fn colored(rows: Seq<FloorRow>, color: Color) -> bool {
    forall|i: int, j: int|
        0 <= i < rows.len() && 0 <= j < rows[i].blocks@.len() ==> (
        #[trigger] rows[i].blocks@[j]).color == color
}

/// The colour of every segment of every row is `color` after one jitter.
pub open spec fn tinted_from(rows: Seq<FloorRow>, color: Color) -> bool {
    forall|i: int, j: int|
        0 <= i < rows.len() && 0 <= j < rows[i].blocks@.len() ==> color.may_become(
            (#[trigger] rows[i].blocks@[j]).color,
        )
}

/// Forgets whatever the track held, builds a fresh ring and spawns the first
/// `NUMBER_OF_LIVE_ROWS` rows. The first row spawned begins the first lap.
/// Fresh segments have the floor colour; the spawned ones have it after the
/// jitter of their spawning.
pub fn setup_floor(floor_manager: &mut FloorManager) -> (outcome: Spawned)
    ensures
        final(floor_manager).wf(),
        final(floor_manager)@ == spawned(fresh_track(), NUMBER_OF_LIVE_ROWS as nat),
        final(floor_manager).score == 0,
        final(floor_manager).spawn_frontier == NUMBER_OF_LIVE_ROWS,
        final(floor_manager).live_rows@.len() == NUMBER_OF_LIVE_ROWS,
        final(floor_manager).floor_rows@.len() == NUMBER_OF_ROWS - NUMBER_OF_LIVE_ROWS,
        outcome.rows == NUMBER_OF_LIVE_ROWS,
        outcome.food_events == 1,
        forall|i: int, j: int|
            0 <= i < final(floor_manager)@.live.len() && 0 <= j < final(
                floor_manager
            )@.live[i].len() ==> final(floor_manager).lowest_height <= (#[trigger] final(
                floor_manager
            )@.live[i][j]).height <= final(floor_manager).highest_height,
        colored(final(floor_manager).floor_rows@, floor_color()),
        tinted_from(final(floor_manager).live_rows@, floor_color()),
{
    *floor_manager = FloorManager::default();
    floor_manager.lowest_height = BASE_HEIGHT;
    floor_manager.highest_height = BASE_HEIGHT;
    let mut row_id: usize = 0;
    while row_id < NUMBER_OF_ROWS
        invariant
            row_id <= NUMBER_OF_ROWS,
            floor_manager.spawn_frontier == 0,
            floor_manager.score == 0,
            floor_manager.live_rows@.len() == 0,
            floor_manager.lowest_height == BASE_HEIGHT,
            floor_manager.highest_height == BASE_HEIGHT,
            floor_manager.floor_rows@.len() == row_id,
            forall|i: int|
                0 <= i < row_id ==> (#[trigger] floor_manager.floor_rows@[i])@ == fresh_row(i),
            colored(floor_manager.floor_rows@, floor_color()),
        decreases NUMBER_OF_ROWS - row_id,
    {
        let ghost before = floor_manager.floor_rows@;
        let row = build_row(row_id);
        let ghost blocks = row.blocks@;
        floor_manager.floor_rows.push_back(row);
        proof {
            assert forall|i: int, j: int|
                0 <= i < floor_manager.floor_rows@.len() && 0 <= j
                    < floor_manager.floor_rows@[i].blocks@.len() implies (
            #[trigger] floor_manager.floor_rows@[i].blocks@[j]).color == floor_color() by {
                if i < row_id {
                    assert(floor_manager.floor_rows@[i] == before[i]);
                    assert(before[i].blocks@[j].color == floor_color());
                } else {
                    assert(floor_manager.floor_rows@[i].blocks@ == blocks);
                }
            }
        }
        row_id = row_id + 1;
    }
    proof {
        lemma_fresh_track_wf();
        assert(floor_manager@.dormant =~= fresh_track().dormant);
        assert(floor_manager@.live =~= fresh_track().live);
        assert(floor_manager@ == fresh_track());
        lemma_laps_started(fresh_track(), NUMBER_OF_LIVE_ROWS as int);
        assert forall|index: int| 1 <= index < 100 implies #[trigger] row_id_at(index) != 0 by {}
        lemma_no_lap_start(1, 100);
        lemma_lap_starts_split(0, 1, 100);
        assert(lap_starts_between(0, 1) == 1) by {
            assert(lap_starts_between(0, 0) == 0);
            assert(row_id_at(0) == 0);
        }
    }
    let ghost fresh = floor_manager.floor_rows@;
    let outcome = spawn_floors(floor_manager, NUMBER_OF_LIVE_ROWS);
    proof {
        assert forall|i: int, j: int|
            0 <= i < floor_manager.floor_rows@.len() && 0 <= j
                < floor_manager.floor_rows@[i].blocks@.len() implies (
        #[trigger] floor_manager.floor_rows@[i].blocks@[j]).color == floor_color() by {
            assert(floor_manager.floor_rows@[i] == fresh[i + NUMBER_OF_LIVE_ROWS]);
            assert(fresh[i + NUMBER_OF_LIVE_ROWS].blocks@[j].color == floor_color());
        }
        assert forall|i: int, j: int|
            0 <= i < floor_manager.live_rows@.len() && 0 <= j
                < floor_manager.live_rows@[i].blocks@.len() implies floor_color().may_become(
            (#[trigger] floor_manager.live_rows@[i].blocks@[j]).color,
        ) by {
            assert(floor_manager@.live[i] == floor_manager.live_rows@[i]@);
            assert(fresh_track().dormant[i] == fresh[i]@);
            assert(floor_manager@.live[i].len() == fresh_track().dormant[i].len());
            assert(fresh[i].blocks@[j].color == floor_color());
            assert(fresh[i].blocks@[j].color.may_become(
                floor_manager.live_rows@[floor_manager.live_rows@.len() - NUMBER_OF_LIVE_ROWS
                    + i].blocks@[j].color,
            ));
        }
        let t = fresh_track();
        let rows = t.dormant.take(NUMBER_OF_LIVE_ROWS as int);
        assert forall|r: int| 0 <= r < rows.len() implies (#[trigger] rows[r]).len()
            == NUMBER_OF_COLUMNS && forall|j: int|
            0 <= j < rows[r].len() ==> height_ok((#[trigger] rows[r][j]).height) by {
            assert(rows[r] == fresh_row(r));
        }
        assert forall|i: int, j: int|
            0 <= i < floor_manager@.live.len() && 0 <= j
                < floor_manager@.live[i].len() implies floor_manager.lowest_height <= (
        #[trigger] floor_manager@.live[i][j]).height <= floor_manager.highest_height by {
            assert forall|r: int| i < r < rows.len() implies !starts_lap(#[trigger] rows[r]) by {
                assert(rows[r] == fresh_row(r));
                assert(fresh_row(r)[0].row_id == r);
            }
            lemma_bounds_enclose((t.lowest, t.highest), rows, i);
            assert(floor_manager@.live[i] == grown_row(rows[i]));
            assert(grown_row(rows[i])[j].height == floor_manager@.live[i][j].height);
        }
    }
    outcome
}


/// Whether `row` is a full row with identity `row_id`.
fn row_is_wf(row: &FloorRow, row_id: usize) -> (b: bool)
    ensures
        b == row_wf(row@, row_id as int),
{
    if row.blocks.len() != NUMBER_OF_COLUMNS {
        return false;
    }
    let mut j: usize = 0;
    while j < NUMBER_OF_COLUMNS
        invariant
            j <= NUMBER_OF_COLUMNS,
            row.blocks@.len() == NUMBER_OF_COLUMNS,
            forall|c: int|
                0 <= c < j ==> {
                    &&& (#[trigger] row@[c]).row_id == row_id
                    &&& row@[c].lateral_slot == slot_of(c)
                    &&& height_ok(row@[c].height)
                },
        decreases NUMBER_OF_COLUMNS - j,
    {
        let block = row.blocks[j];
        let slot = j as i32 - (NUMBER_OF_COLUMNS / 2) as i32;
        assert(row@[j as int] == block@);
        if block.row_id != row_id || block.lateral_slot != slot || block.height < BASE_HEIGHT
            || block.height > HEIGHT_LIMIT {
            return false;
        }
        j = j + 1;
    }
    true
}

impl FloorManager {
    /// Whether the track is well formed.
    pub fn is_wf(&self) -> (b: bool)
        ensures
            b == self.wf(),
    {
        let live = self.live_rows.len();
        let dormant = self.floor_rows.len();
        if live > NUMBER_OF_ROWS || dormant > NUMBER_OF_ROWS || live + dormant != NUMBER_OF_ROWS {
            return false;
        }
        if self.spawn_frontier < live as i32 || self.spawn_frontier > i32::MAX - dormant as i32 {
            return false;
        }
        if self.lowest_height < BASE_HEIGHT || self.lowest_height > self.highest_height
            || self.highest_height > HEIGHT_LIMIT {
            return false;
        }
        let first: i32 = self.spawn_frontier - live as i32;
        let mut i: usize = 0;
        while i < live
            invariant
                i <= live,
                live == self.live_rows@.len(),
                live <= NUMBER_OF_ROWS,
                0 <= first,
                first == self@.first_live_index(),
                first + live <= i32::MAX,
                forall|r: int|
                    0 <= r < i ==> row_wf(#[trigger] self@.live[r], row_id_at(first + r)),
            decreases live - i,
        {
            let row_id = ((first + i as i32) % (NUMBER_OF_ROWS as i32)) as usize;
            assert(self@.live[i as int] == self.live_rows@[i as int]@);
            if !row_is_wf(&self.live_rows[i], row_id) {
                return false;
            }
            i = i + 1;
        }
        let mut i: usize = 0;
        while i < dormant
            invariant
                i <= dormant,
                dormant == self.floor_rows@.len(),
                dormant <= NUMBER_OF_ROWS,
                0 <= self.spawn_frontier,
                self.spawn_frontier + dormant <= i32::MAX,
                forall|r: int|
                    0 <= r < i ==> row_wf(
                        #[trigger] self@.dormant[r],
                        row_id_at(self.spawn_frontier + r),
                    ),
            decreases dormant - i,
        {
            let row_id = ((self.spawn_frontier + i as i32) % (NUMBER_OF_ROWS as i32)) as usize;
            assert(self@.dormant[i as int] == self.floor_rows@[i as int]@);
            if !row_is_wf(&self.floor_rows[i], row_id) {
                return false;
            }
            i = i + 1;
        }
        true
    }
}

} // verus!
