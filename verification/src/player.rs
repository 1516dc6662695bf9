//! The runner: what the player asks for, how the runner moves, and when the
//! run ends.
//!
//! Velocities are thousandths of a unit per second and time steps are whole
//! milliseconds. The exponential drag of a tick is handed in as a factor in
//! millionths; everything else is computed here.

use vstd::prelude::*;
use vstd::std_specs::hash::group_hash_axioms;
use std::collections::HashMap;
use crate::direction::Direction;
use crate::fixed::{
    clamped, lemma_component_bound, lemma_scaled_bound, lemma_scaled_shrinks, mul_div, scaled,
    signum_or_zero, trunc_div, Vec3, Vector, ZeroSignum, MILLI,
};
use crate::floor::FloorManager;
use crate::random::random_in_f32_range;

verus! {

/// The greatest top speed that the arithmetic holds. A tick may last as long
/// as `u32` milliseconds say; at this speed the constant push and the steering
/// of such a tick change a velocity component by `IMPULSE_LIMIT` each, and both
/// together, on top of a component within `VELOCITY_LIMIT`, still fit `i64`.
pub const SPEED_LIMIT: i64 = 1_000_000_000_000;

/// Top speed of a new runner.
pub const DEFAULT_SPEED: i64 = 20_000;

/// Turning rate of a new runner.
pub const DEFAULT_ROTATION_SPEED: i64 = 1000;

/// Share of its velocity that a new runner keeps over one second.
pub const DEFAULT_FRICTION: i64 = 100;

/// Milliseconds that a runner may stall before the run ends.
pub const STALL_GRACE: i64 = 3000;

/// Depth below the lowest segment at which a runner has fallen off the world.
pub const FALL_DEPTH: i64 = 3000;

/// Timers and cooldowns never hold more than this many milliseconds either way.
pub const TIMER_LIMIT: i64 = 3000;

/// Milliseconds after leaving the ground during which a jump still succeeds.
pub const COYOTE_TIME: i64 = 200;

/// Downward pull on a runner that is not jumping.
pub const GRAVITY: i64 = 3000;

/// Upward acceleration of a jump.
pub const JUMP_IMPULSE: i64 = 300_000;

/// The drag factor that leaves a velocity as it is, in millionths.
pub const DECAY_ONE: u32 = 1_000_000;

/// A runner slower than this keeps its facing.
pub const TURN_THRESHOLD: i64 = 1000;

/// No single impulse changes a velocity component by more than this: the
/// greatest speed over the longest tick.
pub const IMPULSE_LIMIT: i64 = 4_294_967_296_000_000_000;

/// A velocity component within this bound leaves room in `i64` for the
/// impulses of a tick.
pub const VELOCITY_LIMIT: i64 = 600_000_000_000_000_000;

/// Whether the run of this runner is still on.
#[derive(Clone, Copy, Debug, PartialEq, Eq, Structural)]
pub enum PlayerState {
    Normal,
    /// The run has ended; nothing moves the runner any more.
    Terminated,
}

impl Default for PlayerState {
    fn default() -> (state: PlayerState)
        ensures
            state == PlayerState::Normal,
    {
        PlayerState::Normal
    }
}

/// The runner.
#[derive(Clone, Copy, Debug, PartialEq, Eq)]
pub struct Player {
    pub speed: i64,
    pub rotation_speed: i64,
    /// Share of the velocity that is left after one second, in thousandths.
    pub friction: i64,
    pub velocity: Vec3,
    pub random: i64,
    pub state: PlayerState,
    /// Milliseconds left before a stalled runner is out; `None` while it runs.
    pub death_timer: Option<i64>,
    pub donut_count: usize,
    /// Milliseconds during which a jump still succeeds.
    pub jump_cooldown: i64,
}

/// What the player asks of the runner in one tick.
#[derive(Clone, Copy, Debug, PartialEq, Eq, Structural)]
pub enum Movement {
    Normal(Direction),
    Jump,
}

/// The buttons of the game.
#[derive(Clone, Copy, Debug, PartialEq, Eq, Hash, Structural)]
pub enum PlayerAction {
    Up,
    Down,
    Left,
    Right,
    Action,
}

/// A request to move the runner `entity`.
#[derive(Clone, Copy, Debug, PartialEq, Eq, Structural)]
pub struct PlayerMoveEvent {
    pub entity: u64,
    pub movement: Movement,
}

/// What the physics reports of a runner for one tick.
#[derive(Clone, Copy, Debug, PartialEq, Eq, Structural)]
pub struct Kinematics {
    /// Length of the tick in milliseconds.
    pub dt: u32,
    /// The friction raised to the length of the tick in seconds, in millionths.
    pub decay: u32,
    /// Measured velocity along the track.
    pub forward_velocity: i64,
    /// Height at which the runner stands.
    pub height: i64,
    pub grounded: bool,
}

/// A facing in the ground plane: the angle whose tangent is `y / x`, in the
/// quadrant that the signs of `y` and `x` give.
#[derive(Clone, Copy, Debug, PartialEq, Eq, Structural)]
pub struct Heading {
    pub y: i64,
    pub x: i64,
}

/// What a tick decided for a runner.
#[derive(Clone, Copy, Debug, PartialEq, Eq)]
pub struct Motion {
    /// The displacement to ask of the character controller.
    pub translation: Vec3,
    /// The new facing, or `None` to keep the old one.
    pub heading: Option<Heading>,
    /// A jump began in this tick.
    pub jumped: bool,
    /// The run ended in this tick.
    pub game_over: bool,
}

/// A stall timer that a tick can have left: none, or one that has not run out.
pub open spec fn timer_ok(death_timer: Option<i64>) -> bool {
    match death_timer {
        Some(t) => 0 <= t <= STALL_GRACE,
        None => true,
    }
}

impl Player {
    /// The speed is within the limit, the velocity is no longer than the
    /// speed, and friction and timers are within their ranges.
    pub open spec fn wf(&self) -> bool {
        &&& 0 <= self.speed <= SPEED_LIMIT
        &&& 0 < self.friction < MILLI
        &&& self.velocity@.norm_sq() <= self.speed * self.speed
        &&& -TIMER_LIMIT <= self.jump_cooldown <= TIMER_LIMIT
        &&& timer_ok(self.death_timer)
    }

    /// What the arithmetic of a tick needs: a speed within `SPEED_LIMIT` and
    /// velocity components within `VELOCITY_LIMIT`. The velocity may be longer
    /// than the speed; a tick shortens it.
    pub open spec fn movable(&self) -> bool {
        &&& 0 <= self.speed <= SPEED_LIMIT
        &&& -VELOCITY_LIMIT <= self.velocity.x <= VELOCITY_LIMIT
        &&& -VELOCITY_LIMIT <= self.velocity.y <= VELOCITY_LIMIT
        &&& -VELOCITY_LIMIT <= self.velocity.z <= VELOCITY_LIMIT
    }

    /// A well-formed runner can take a tick.
    pub proof fn lemma_wf_movable(&self)
        requires
            self.wf(),
        ensures
            self.movable(),
    {
        lemma_component_bound(self.velocity@, self.speed as int);
    }

    /// Whether the runner can take a tick.
    pub fn is_movable(&self) -> (b: bool)
        ensures
            b == self.movable(),
    {
        0 <= self.speed && self.speed <= SPEED_LIMIT && -VELOCITY_LIMIT <= self.velocity.x
            && self.velocity.x <= VELOCITY_LIMIT && -VELOCITY_LIMIT <= self.velocity.y
            && self.velocity.y <= VELOCITY_LIMIT && -VELOCITY_LIMIT <= self.velocity.z
            && self.velocity.z <= VELOCITY_LIMIT
    }

    /// A runner at rest with the default speed and friction. Its `random`
    /// share is drawn from the upper half of a unit.
    pub fn new() -> (player: Player)
        ensures
            player.wf(),
            player.speed == DEFAULT_SPEED,
            player.rotation_speed == DEFAULT_ROTATION_SPEED,
            player.friction == DEFAULT_FRICTION,
            player.velocity == (Vec3 { x: 0, y: 0, z: 0 }),
            500 <= player.random < 1000,
            player.state == PlayerState::Normal,
            player.death_timer.is_none(),
            player.donut_count == 0,
            player.jump_cooldown == 0,
    {
        Player {
            speed: DEFAULT_SPEED,
            rotation_speed: DEFAULT_ROTATION_SPEED,
            friction: DEFAULT_FRICTION,
            velocity: Vec3::zero(),
            random: random_in_f32_range(500, 1000),
            state: PlayerState::Normal,
            death_timer: None,
            donut_count: 0,
            jump_cooldown: 0,
        }
    }

    /// Whether the runner is well formed.
    pub fn is_wf(&self) -> (b: bool)
        ensures
            b == self.wf(),
    {
        if !(0 <= self.speed && self.speed <= SPEED_LIMIT) {
            return false;
        }
        let timer_ok = match self.death_timer {
            Some(t) => 0 <= t && t <= STALL_GRACE,
            None => true,
        };
        0 < self.friction && self.friction < MILLI && self.velocity.length_at_most(self.speed)
            && -TIMER_LIMIT <= self.jump_cooldown && self.jump_cooldown <= TIMER_LIMIT
            && timer_ok
    }
}

impl PlayerAction {
    /// The way that a button leans; the action button leans no way.
    pub fn direction(self) -> (d: Direction)
        ensures
            d == action_direction(self),
    {
        match self {
            PlayerAction::Up => Direction::up(),
            PlayerAction::Down => Direction::down(),
            PlayerAction::Left => Direction::left(),
            PlayerAction::Right => Direction::right(),
            _ => Direction::neutral(),
        }
    }
}

/// The way that a button leans.
pub open spec fn action_direction(action: PlayerAction) -> Direction {
    Direction {
        up: action == PlayerAction::Up,
        down: action == PlayerAction::Down,
        left: action == PlayerAction::Left,
        right: action == PlayerAction::Right,
    }
}

/// The ways of all the buttons that are held.
pub open spec fn held_direction(pressed: Seq<PlayerAction>) -> Direction {
    Direction {
        up: pressed.contains(PlayerAction::Up),
        down: pressed.contains(PlayerAction::Down),
        left: pressed.contains(PlayerAction::Left),
        right: pressed.contains(PlayerAction::Right),
    }
}

/// The requests that the buttons make of the runner `entity`: a jump if the
/// action button has just gone down, then a move if the held buttons lean any way.
pub open spec fn input_events(
    entity: u64,
    pressed: Seq<PlayerAction>,
    just_pressed: Seq<PlayerAction>,
) -> Seq<PlayerMoveEvent> {
    let jump = if just_pressed.contains(PlayerAction::Action) {
        seq![PlayerMoveEvent { entity, movement: Movement::Jump }]
    } else {
        Seq::<PlayerMoveEvent>::empty()
    };
    let direction = held_direction(pressed);
    let lean = if direction != (Direction { up: false, down: false, left: false, right: false }) {
        seq![PlayerMoveEvent { entity, movement: Movement::Normal(direction) }]
    } else {
        Seq::<PlayerMoveEvent>::empty()
    };
    jump + lean
}

/// Whether `action` is among `actions`.
fn holds(actions: &Vec<PlayerAction>, action: PlayerAction) -> (b: bool)
    ensures
        b == actions@.contains(action),
{
    let mut i: usize = 0;
    while i < actions.len()
        invariant
            i <= actions.len(),
            forall|k: int| 0 <= k < i ==> actions@[k] != action,
        decreases actions.len() - i,
    {
        if actions[i] == action {
            return true;
        }
        i = i + 1;
    }
    false
}

/// Turns the state of the buttons into requests to move the runner `entity`.
/// `pressed` lists the buttons that are held, `just_pressed` those that went
/// down in this tick.
pub fn handle_input(
    entity: u64,
    pressed: &Vec<PlayerAction>,
    just_pressed: &Vec<PlayerAction>,
) -> (events: Vec<PlayerMoveEvent>)
    ensures
        events@ == input_events(entity, pressed@, just_pressed@),
{
    let mut events: Vec<PlayerMoveEvent> = Vec::new();
    let mut direction = Direction::neutral();
    if holds(just_pressed, PlayerAction::Action) {
        events.push(PlayerMoveEvent { entity, movement: Movement::Jump });
    }
    if holds(pressed, PlayerAction::Up) {
        direction = direction.union(PlayerAction::Up.direction());
    }
    if holds(pressed, PlayerAction::Down) {
        direction = direction.union(PlayerAction::Down.direction());
    }
    if holds(pressed, PlayerAction::Left) {
        direction = direction.union(PlayerAction::Left.direction());
    }
    if holds(pressed, PlayerAction::Right) {
        direction = direction.union(PlayerAction::Right.direction());
    }
    assert(direction == held_direction(pressed@));
    if !direction.is_neutral() {
        events.push(PlayerMoveEvent { entity, movement: Movement::Normal(direction) });
    }
    assert(events@ =~= input_events(entity, pressed@, just_pressed@));
    events
}

/// The request that counts for `entity` in a tick: the first one made of it.
pub open spec fn first_intent_spec(events: Seq<PlayerMoveEvent>, entity: u64) -> Option<Movement>
    decreases events.len(),
{
    if events.len() == 0 {
        None
    } else if events[0].entity == entity {
        Some(events[0].movement)
    } else {
        first_intent_spec(events.skip(1), entity)
    }
}

/// The first request is that of the first event made of the entity, and there
/// is none exactly if no event is made of it.
pub proof fn lemma_first_intent(events: Seq<PlayerMoveEvent>, entity: u64)
    ensures
        match first_intent_spec(events, entity) {
            Some(movement) => exists|i: int|
                0 <= i < events.len() && (#[trigger] events[i]).entity == entity && events[i].movement
                    == movement && forall|j: int| 0 <= j < i ==> (#[trigger] events[j]).entity != entity,
            None => forall|i: int| 0 <= i < events.len() ==> (#[trigger] events[i]).entity != entity,
        },
    decreases events.len(),
{
    if events.len() > 0 {
        if events[0].entity == entity {
            assert(events[0].entity == entity && events[0].movement == events[0].movement && forall|
                j: int,
            | 0 <= j < 0 ==> (#[trigger] events[j]).entity != entity);
        } else {
            let rest = events.skip(1);
            lemma_first_intent(rest, entity);
            match first_intent_spec(rest, entity) {
                Some(movement) => {
                    let i = choose|i: int|
                        0 <= i < rest.len() && (#[trigger] rest[i]).entity == entity
                            && rest[i].movement == movement && forall|j: int|
                            0 <= j < i ==> (#[trigger] rest[j]).entity != entity;
                    assert(events[i + 1] == rest[i]);
                    assert forall|j: int| 0 <= j < i + 1 implies (#[trigger] events[j]).entity
                        != entity by {
                        if j > 0 {
                            assert(events[j] == rest[j - 1]);
                        }
                    }
                },
                None => {
                    assert forall|i: int| 0 <= i < events.len() implies (#[trigger] events[i]).entity
                        != entity by {
                        if i > 0 {
                            assert(events[i] == rest[i - 1]);
                        }
                    }
                },
            }
        }
    }
}

/// A request made after others counts only for an entity of which none was
/// made before.
pub proof fn lemma_first_intent_push(
    events: Seq<PlayerMoveEvent>,
    last: PlayerMoveEvent,
    entity: u64,
)
    ensures
        first_intent_spec(events.push(last), entity) == match first_intent_spec(events, entity) {
            Some(movement) => Some(movement),
            None => if last.entity == entity {
                Some(last.movement)
            } else {
                None
            },
        },
    decreases events.len(),
{
    if events.len() == 0 {
        let rest = events.push(last).skip(1);
        assert(rest.len() == 0);
        assert(first_intent_spec(rest, entity) == None::<Movement>);
        assert(first_intent_spec(events, entity) == None::<Movement>);
        assert(events.push(last)[0] == last);
    } else {
        assert(events.push(last)[0] == events[0]);
        assert(events.push(last).skip(1) =~= events.skip(1).push(last));
        lemma_first_intent_push(events.skip(1), last, entity);
    }
}

/// Sorts the requests of a tick by the entity they are made of. Of several
/// requests made of one entity the first is kept.
pub fn intents_by_entity(events: &Vec<PlayerMoveEvent>) -> (intents: HashMap<u64, Movement>)
    ensures
        forall|entity: u64| #[trigger]
            intents@.contains_key(entity) <==> first_intent_spec(events@, entity).is_some(),
        forall|entity: u64|
            intents@.contains_key(entity) ==> first_intent_spec(events@, entity) == Some(
                #[trigger] intents@[entity],
            ),
{
    broadcast use group_hash_axioms;

    let mut intents: HashMap<u64, Movement> = HashMap::new();
    let mut i: usize = 0;
    assert(events@.take(0) =~= Seq::<PlayerMoveEvent>::empty());
    while i < events.len()
        invariant
            i <= events.len(),
            forall|entity: u64| #[trigger]
                intents@.contains_key(entity) <==> first_intent_spec(
                    events@.take(i as int),
                    entity,
                ).is_some(),
            forall|entity: u64|
                intents@.contains_key(entity) ==> first_intent_spec(
                    events@.take(i as int),
                    entity,
                ) == Some(#[trigger] intents@[entity]),
        decreases events.len() - i,
    {
        let event = events[i];
        let ghost before = intents@;
        if !intents.contains_key(&event.entity) {
            intents.insert(event.entity, event.movement);
        }
        proof {
            assert(events@.take(i + 1) =~= events@.take(i as int).push(event));
            assert forall|entity: u64| #[trigger]
                intents@.contains_key(entity) <==> first_intent_spec(
                    events@.take(i + 1),
                    entity,
                ).is_some() by {
                lemma_first_intent_push(events@.take(i as int), event, entity);
                assert(before.contains_key(entity) <==> first_intent_spec(
                    events@.take(i as int),
                    entity,
                ).is_some());
            }
            assert forall|entity: u64| intents@.contains_key(entity) implies first_intent_spec(
                events@.take(i + 1),
                entity,
            ) == Some(#[trigger] intents@[entity]) by {
                lemma_first_intent_push(events@.take(i as int), event, entity);
                assert(before.contains_key(entity) <==> first_intent_spec(
                    events@.take(i as int),
                    entity,
                ).is_some());
                if before.contains_key(entity) {
                    assert(first_intent_spec(events@.take(i as int), entity) == Some(
                        before[entity],
                    ));
                }
            }
        }
        i = i + 1;
    }
    assert(events@.take(i as int) =~= events@);
    intents
}

/// Picks the request that counts for `entity`: the first one made of it.
pub fn first_intent(events: &Vec<PlayerMoveEvent>, entity: u64) -> (intent: Option<Movement>)
    ensures
        intent == first_intent_spec(events@, entity),
{
    broadcast use group_hash_axioms;

    let intents = intents_by_entity(events);
    match intents.get(&entity) {
        Some(movement) => Some(*movement),
        None => None,
    }
}

/// The runner is too slow: its velocity along the track is below a tenth of
/// its top speed.
pub open spec fn is_stalled(forward_velocity: int, speed: int) -> bool {
    forward_velocity * 10 < speed
}

/// The runner has fallen off the world: it is more than `FALL_DEPTH` below
/// the lowest segment of the level.
pub open spec fn has_fallen(height: int, lowest_height: int) -> bool {
    height < lowest_height - FALL_DEPTH
}

/// What is left of a stall timer after `dt` more milliseconds of stalling. A
/// runner that was not stalling starts from `STALL_GRACE`.
pub open spec fn countdown(death_timer: Option<i64>, dt: int) -> int {
    let from: int = match death_timer {
        Some(t) => t as int,
        None => STALL_GRACE as int,
    };
    clamped(from - dt, -(TIMER_LIMIT as int), TIMER_LIMIT as int)
}

/// One tick of survival: the next state, the next stall timer, and whether
/// the run ends in this tick.
///
/// A runner that is out stays out and ends nothing. Otherwise a stalled
/// runner counts down and is out once the timer falls below zero, a runner
/// that is not stalled has no timer, and a runner that has fallen is out at
/// once whatever its timer says.
pub open spec fn survival_step(
    state: PlayerState,
    death_timer: Option<i64>,
    stalled: bool,
    fallen: bool,
    dt: int,
) -> (PlayerState, Option<i64>, bool) {
    if state == PlayerState::Terminated {
        (PlayerState::Terminated, death_timer, false)
    } else {
        let remaining = countdown(death_timer, dt);
        let expired = stalled && remaining < 0;
        let timer = if !stalled {
            None
        } else if expired {
            death_timer
        } else {
            Some(remaining as i64)
        };
        if expired || fallen {
            (PlayerState::Terminated, timer, true)
        } else {
            (PlayerState::Normal, timer, false)
        }
    }
}

/// The change of a velocity component under the acceleration `lean * speed`
/// over `dt` milliseconds, `lean` in thousandths.
pub open spec fn impulse(lean: int, speed: int, dt: int) -> int {
    scaled(lean * speed, dt, MILLI * MILLI)
}

/// The jump cooldown after a tick: at least `COYOTE_TIME` if the runner is on
/// the ground, then `dt` less, within `-TIMER_LIMIT..=TIMER_LIMIT`.
pub open spec fn cooled(jump_cooldown: int, grounded: bool, dt: int) -> int {
    let floored = if grounded && jump_cooldown < COYOTE_TIME {
        COYOTE_TIME as int
    } else {
        jump_cooldown
    };
    clamped(floored - dt, -(TIMER_LIMIT as int), TIMER_LIMIT as int)
}

/// A jump begins: it is asked for while the cooldown, as this tick leaves it,
/// is positive.
pub open spec fn jumps(intent: Option<Movement>, jump_cooldown: int, grounded: bool, dt: int) -> bool {
    intent == Some(Movement::Jump) && cooled(jump_cooldown, grounded, dt) > 0
}

/// The jump cooldown at the end of a tick: used up by a jump.
pub open spec fn next_cooldown(
    intent: Option<Movement>,
    jump_cooldown: int,
    grounded: bool,
    dt: int,
) -> int {
    if jumps(intent, jump_cooldown, grounded, dt) {
        0
    } else {
        cooled(jump_cooldown, grounded, dt)
    }
}

/// The lean of a direction as an acceleration in thousandths of the top
/// speed per second: a whole unit each way. In the air the lean along `z`
/// counts half. `z` is the axis that the engine calls forward; on this track
/// it runs across the lanes, so it is the steering between the lanes that is
/// weaker in the air, while the lean along the track keeps its weight.
pub open spec fn steering(direction: Direction, grounded: bool) -> Vector {
    let lean = direction.vector();
    Vector {
        x: signum_or_zero(lean.x),
        y: signum_or_zero(lean.y),
        z: if grounded {
            signum_or_zero(lean.z)
        } else {
            trunc_div(signum_or_zero(lean.z), 2)
        },
    }
}

/// The velocity after drag, the constant push forward and what the player
/// asked for, before it is limited to the top speed.
pub open spec fn pushed(
    velocity: Vector,
    speed: int,
    jump_cooldown: int,
    intent: Option<Movement>,
    physics: Kinematics,
) -> Vector {
    let dt = physics.dt as int;
    let coasting = velocity.scaled(physics.decay as int, DECAY_ONE as int).plus(
        Vector { x: impulse(MILLI as int, speed, dt), y: 0, z: 0 },
    );
    match intent {
        Some(Movement::Normal(direction)) => {
            let lean = steering(direction, physics.grounded);
            coasting.plus(
                Vector {
                    x: impulse(lean.x, speed, dt),
                    y: impulse(lean.y, speed, dt),
                    z: impulse(lean.z, speed, dt),
                },
            )
        },
        Some(Movement::Jump) => if jumps(intent, jump_cooldown, physics.grounded, dt) {
            coasting.plus(Vector { x: 0, y: scaled(JUMP_IMPULSE as int, dt, MILLI as int), z: 0 })
        } else {
            coasting
        },
        None => coasting,
    }
}

/// The velocity at the end of a tick.
pub open spec fn next_velocity(
    velocity: Vector,
    speed: int,
    jump_cooldown: int,
    intent: Option<Movement>,
    physics: Kinematics,
) -> Vector {
    pushed(velocity, speed, jump_cooldown, intent, physics).clamp_length_max(speed)
}

/// The way that a runner with `velocity` goes in `dt` milliseconds; gravity
/// pulls it down unless it has just jumped.
pub open spec fn displacement(velocity: Vector, jumped: bool, dt: int) -> Vector {
    let pull: int = if jumped {
        0
    } else {
        GRAVITY as int
    };
    Vector {
        x: scaled(velocity.x, dt, MILLI as int),
        y: scaled(velocity.y - pull, dt, MILLI as int),
        z: scaled(velocity.z, dt, MILLI as int),
    }
}

/// The facing that a displacement gives, if the runner is faster than
/// `TURN_THRESHOLD` and the displacement points anywhere in the ground plane.
pub open spec fn heading_of(velocity: Vector, translation: Vector) -> Option<Heading> {
    if velocity.norm_sq() > TURN_THRESHOLD * TURN_THRESHOLD && (translation.x != 0 || translation.z
        != 0) {
        Some(Heading { y: (-translation.z) as i64, x: translation.x as i64 })
    } else {
        None
    }
}

/// The motion of a runner that does not move.
pub open spec fn still() -> Motion {
    Motion { translation: Vec3 { x: 0, y: 0, z: 0 }, heading: None, jumped: false, game_over: false }
}

/// Computes `impulse(lean, speed, dt)`.
fn impulse_of(lean: i64, speed: i64, dt: u32) -> (change: i64)
    requires
        -MILLI <= lean <= MILLI,
        0 <= speed <= SPEED_LIMIT,
    ensures
        change == impulse(lean as int, speed as int, dt as int),
        -IMPULSE_LIMIT <= change <= IMPULSE_LIMIT,
{
    proof {
        assert(-1_000_000_000_000_000 <= lean * speed <= 1_000_000_000_000_000) by (nonlinear_arith)
            requires
                -1000 <= lean <= 1000,
                0 <= speed <= 1_000_000_000_000,
        ;
        lemma_scaled_bound(
            lean * speed,
            dt as int,
            1_000_000,
            1_000_000_000_000_000,
            0x1_0000_0000,
        );
    }
    mul_div(lean * speed, dt as i64, MILLI * MILLI)
}

/// One tick of survival for a runner whose run is on. Returns whether the
/// run ends in this tick.
fn survive(player: &mut Player, stalled: bool, fallen: bool, dt: u32) -> (game_over: bool)
    requires
        old(player).state == PlayerState::Normal,
    ensures
        (final(player).state, final(player).death_timer, game_over) == survival_step(
            old(player).state,
            old(player).death_timer,
            stalled,
            fallen,
            dt as int,
        ),
        timer_ok(old(player).death_timer) ==> timer_ok(final(player).death_timer),
        final(player).speed == old(player).speed,
        final(player).rotation_speed == old(player).rotation_speed,
        final(player).friction == old(player).friction,
        final(player).velocity == old(player).velocity,
        final(player).random == old(player).random,
        final(player).donut_count == old(player).donut_count,
        final(player).jump_cooldown == old(player).jump_cooldown,
{
    let mut game_over = false;
    if stalled {
        let from = match player.death_timer {
            Some(t) => t,
            None => STALL_GRACE,
        };
        let left: i128 = (from as i128) - (dt as i128);
        let remaining: i64 = if left < -(TIMER_LIMIT as i128) {
            -TIMER_LIMIT
        } else if left > TIMER_LIMIT as i128 {
            TIMER_LIMIT
        } else {
            left as i64
        };
        if remaining < 0 {
            game_over = true;
        } else {
            player.death_timer = Some(remaining);
        }
    } else {
        player.death_timer = None;
    }
    if fallen {
        game_over = true;
    }
    if game_over {
        player.state = PlayerState::Terminated;
    }
    game_over
}

/// One tick of a runner.
///
/// Of the requests in `events` the first one made of `entity` counts. A
/// runner whose run has ended stays as it is and does not move. Otherwise
/// survival is judged first, against the measured velocity and the lowest
/// height of the level; then the velocity decays, gains the constant push
/// forward and what the player asked for, and is limited to the top speed.
/// The run may end in a tick in which the runner still moves. A velocity
/// that is longer than the top speed on entry is shortened like any other.
pub fn move_player(
    entity: u64,
    player: &mut Player,
    events: &Vec<PlayerMoveEvent>,
    physics: &Kinematics,
    floor_manager: &FloorManager,
) -> (motion: Motion)
    requires
        old(player).movable(),
        physics.decay <= DECAY_ONE,
    ensures
        old(player).wf() ==> final(player).wf(),
        final(player).movable(),
        final(player).speed == old(player).speed,
        final(player).rotation_speed == old(player).rotation_speed,
        final(player).friction == old(player).friction,
        final(player).random == old(player).random,
        final(player).donut_count == old(player).donut_count,
        old(player).state == PlayerState::Terminated ==> *final(player) == *old(player) && motion
            == still(),
        old(player).state == PlayerState::Normal ==> {
            let intent = first_intent_spec(events@, entity);
            let dt = physics.dt as int;
            let cooldown = old(player).jump_cooldown as int;
            &&& (final(player).state, final(player).death_timer, motion.game_over)
                == survival_step(
                old(player).state,
                old(player).death_timer,
                is_stalled(physics.forward_velocity as int, old(player).speed as int),
                has_fallen(physics.height as int, floor_manager.lowest_height as int),
                dt,
            )
            &&& motion.jumped == jumps(intent, cooldown, physics.grounded, dt)
            &&& final(player).jump_cooldown == next_cooldown(
                intent,
                cooldown,
                physics.grounded,
                dt,
            )
            &&& final(player).velocity@ == next_velocity(
                old(player).velocity@,
                old(player).speed as int,
                cooldown,
                intent,
                *physics,
            )
            &&& motion.translation@ == displacement(final(player).velocity@, motion.jumped, dt)
            &&& motion.heading == heading_of(final(player).velocity@, motion.translation@)
            &&& final(player).velocity@.norm_sq() <= final(player).speed * final(player).speed
            &&& -TIMER_LIMIT <= final(player).jump_cooldown <= TIMER_LIMIT
            &&& 0 < old(player).friction < MILLI && timer_ok(old(player).death_timer)
                ==> final(player).wf()
        },
{
    if player.state == PlayerState::Terminated {
        return Motion { translation: Vec3::zero(), heading: None, jumped: false, game_over: false };
    }
    let intent = first_intent(events, entity);
    let dt = physics.dt;
    let speed = player.speed;
    let stalled = (physics.forward_velocity as i128) * 10 < speed as i128;
    let fallen = (physics.height as i128) < (floor_manager.lowest_height as i128) - (
    FALL_DEPTH as i128);
    let game_over = survive(player, stalled, fallen, dt);

    proof {
        lemma_scaled_shrinks(player.velocity.x as int, physics.decay as int, DECAY_ONE as int);
        lemma_scaled_shrinks(player.velocity.y as int, physics.decay as int, DECAY_ONE as int);
        lemma_scaled_shrinks(player.velocity.z as int, physics.decay as int, DECAY_ONE as int);
    }
    let mut velocity = Vec3 {
        x: mul_div(player.velocity.x, physics.decay as i64, DECAY_ONE as i64),
        y: mul_div(player.velocity.y, physics.decay as i64, DECAY_ONE as i64),
        z: mul_div(player.velocity.z, physics.decay as i64, DECAY_ONE as i64),
    };
    velocity.x = velocity.x + impulse_of(MILLI, speed, dt);

    let floored = if physics.grounded && player.jump_cooldown < COYOTE_TIME {
        COYOTE_TIME
    } else {
        player.jump_cooldown
    };
    let left: i128 = (floored as i128) - (dt as i128);
    let mut cooldown: i64 = if left < -(TIMER_LIMIT as i128) {
        -TIMER_LIMIT
    } else if left > TIMER_LIMIT as i128 {
        TIMER_LIMIT
    } else {
        left as i64
    };

    let mut jumped = false;
    match intent {
        Some(Movement::Normal(direction)) => {
            let mut acceleration = direction.to_vec3().zero_signum();
            if !physics.grounded {
                acceleration.z = acceleration.z / 2;
            }
            velocity.x = velocity.x + impulse_of(acceleration.x, speed, dt);
            velocity.y = velocity.y + impulse_of(acceleration.y, speed, dt);
            velocity.z = velocity.z + impulse_of(acceleration.z, speed, dt);
        },
        Some(Movement::Jump) => {
            if cooldown > 0 {
                cooldown = 0;
                proof {
                    lemma_scaled_bound(
                        JUMP_IMPULSE as int,
                        dt as int,
                        MILLI as int,
                        JUMP_IMPULSE as int,
                        0x1_0000_0000,
                    );
                }
                velocity.y = velocity.y + mul_div(JUMP_IMPULSE, dt as i64, MILLI);
                jumped = true;
            }
        },
        None => {},
    }
    assert(velocity@ == pushed(
        old(player).velocity@,
        speed as int,
        old(player).jump_cooldown as int,
        intent,
        *physics,
    ));
    let velocity = velocity.clamp_length_max(speed);
    player.velocity = velocity;
    player.jump_cooldown = cooldown;

    let pull = if jumped {
        0
    } else {
        GRAVITY
    };
    proof {
        lemma_component_bound(velocity@, speed as int);
        lemma_scaled_bound(velocity.x as int, dt as int, 1000, SPEED_LIMIT as int, 0x1_0000_0000);
        lemma_scaled_bound(
            velocity.y - pull,
            dt as int,
            1000,
            SPEED_LIMIT + GRAVITY,
            0x1_0000_0000,
        );
        lemma_scaled_bound(velocity.z as int, dt as int, 1000, SPEED_LIMIT as int, 0x1_0000_0000);
    }
    let translation = Vec3 {
        x: mul_div(velocity.x, dt as i64, MILLI),
        y: mul_div(velocity.y - pull, dt as i64, MILLI),
        z: mul_div(velocity.z, dt as i64, MILLI),
    };
    let heading = if !velocity.length_at_most(TURN_THRESHOLD) && (translation.x != 0
        || translation.z != 0) {
        Some(Heading { y: -translation.z, x: translation.x })
    } else {
        None
    };
    Motion { translation, heading, jumped, game_over }
}

/// How far the runner's mesh spins in a tick, in thousandths of a radian: by
/// the top speed while the runner is faster than a tenth of it, else not at all.
pub fn spin_mesh(player: &Player, forward_velocity: i64, dt: u32) -> (turn: Option<i64>)
    requires
        0 <= player.speed <= SPEED_LIMIT,
    ensures
        turn == if forward_velocity * 10 > player.speed {
            Some(scaled(player.speed as int, dt as int, MILLI as int) as i64)
        } else {
            None
        },
{
    if (forward_velocity as i128) * 10 > player.speed as i128 {
        proof {
            lemma_scaled_bound(
                player.speed as int,
                dt as int,
                1000,
                SPEED_LIMIT as int,
                0x1_0000_0000,
            );
        }
        Some(mul_div(player.speed, dt as i64, MILLI))
    } else {
        None
    }
}


/// A jump asked for in a tick in which the runner stands on the ground
/// succeeds if the tick is shorter than the coyote time, and uses the
/// cooldown up.
pub proof fn lemma_grounded_jump(jump_cooldown: int, dt: int)
    requires
        -TIMER_LIMIT <= jump_cooldown <= TIMER_LIMIT,
        0 <= dt < COYOTE_TIME,
    ensures
        jumps(Some(Movement::Jump), jump_cooldown, true, dt),
        next_cooldown(Some(Movement::Jump), jump_cooldown, true, dt) == 0,
{
}

/// Off the ground a cooldown that is used up allows no jump, whatever is asked
/// for, and stays used up.
pub proof fn lemma_no_jump_without_cooldown(intent: Option<Movement>, jump_cooldown: int, dt: int)
    requires
        jump_cooldown <= 0,
        0 <= dt,
    ensures
        !jumps(intent, jump_cooldown, false, dt),
        next_cooldown(intent, jump_cooldown, false, dt) <= 0,
        dt > 0 ==> next_cooldown(intent, jump_cooldown, false, dt) < 0,
{
}

/// A jump begins only where one is asked for and the cooldown is positive, and
/// it always leaves the cooldown at zero.
pub proof fn lemma_jump_gating(
    intent: Option<Movement>,
    jump_cooldown: int,
    grounded: bool,
    dt: int,
)
    ensures
        jumps(intent, jump_cooldown, grounded, dt) ==> intent == Some(Movement::Jump) && cooled(
            jump_cooldown,
            grounded,
            dt,
        ) > 0 && next_cooldown(intent, jump_cooldown, grounded, dt) == 0,
        !jumps(intent, jump_cooldown, grounded, dt) ==> next_cooldown(
            intent,
            jump_cooldown,
            grounded,
            dt,
        ) == cooled(jump_cooldown, grounded, dt),
{
}

/// The milliseconds of a run of ticks.
pub open spec fn elapsed(ticks: Seq<u32>) -> int
    decreases ticks.len(),
{
    if ticks.len() == 0 {
        0
    } else {
        elapsed(ticks.drop_last()) + ticks.last()
    }
}

/// Survival of a runner that starts healthy and is stalled, but never fallen,
/// through every one of `ticks`: its state, its stall timer, and how often the
/// run ended on the way.
pub open spec fn stalled_through(ticks: Seq<u32>) -> (PlayerState, Option<i64>, nat)
    decreases ticks.len(),
{
    if ticks.len() == 0 {
        (PlayerState::Normal, None, 0)
    } else {
        let before = stalled_through(ticks.drop_last());
        let step = survival_step(before.0, before.1, true, false, ticks.last() as int);
        (
            step.0,
            step.1,
            before.2 + if step.2 {
                1nat
            } else {
                0nat
            },
        )
    }
}

/// A runner that stalls without a break is out exactly once the stall has
/// lasted longer than `STALL_GRACE`: the run ends in the first tick that
/// carries the stall past it, never before and never again.
pub proof fn lemma_stall_timer(ticks: Seq<u32>)
    ensures
        elapsed(ticks) >= 0,
        elapsed(ticks) <= STALL_GRACE ==> stalled_through(ticks).0 == PlayerState::Normal
            && stalled_through(ticks).2 == 0,
        elapsed(ticks) <= STALL_GRACE && ticks.len() > 0 ==> stalled_through(ticks).1 == Some(
            (STALL_GRACE - elapsed(ticks)) as i64,
        ),
        elapsed(ticks) > STALL_GRACE ==> stalled_through(ticks).0 == PlayerState::Terminated
            && stalled_through(ticks).2 == 1,
    decreases ticks.len(),
{
    if ticks.len() > 0 {
        lemma_stall_timer(ticks.drop_last());
    }
}

/// A runner that has fallen off the world is out after the tick, whatever its
/// state and its stall timer were; the run ends in that tick unless it had
/// ended before. A runner that is neither stalled nor fallen stays in the run.
pub proof fn lemma_fall_death(state: PlayerState, death_timer: Option<i64>, stalled: bool, dt: int)
    ensures
        survival_step(state, death_timer, stalled, true, dt).0 == PlayerState::Terminated,
        survival_step(state, death_timer, stalled, true, dt).2 == (state == PlayerState::Normal),
        survival_step(state, death_timer, false, false, dt) == (state, if state
            == PlayerState::Normal {
            None
        } else {
            death_timer
        }, false),
{
}

/// The run of a runner that is not stalled ends in a tick exactly if the run
/// is on and the runner is more than `FALL_DEPTH` below the lowest segment.
pub proof fn lemma_fall_threshold(
    state: PlayerState,
    death_timer: Option<i64>,
    height: int,
    lowest_height: int,
    dt: int,
)
    ensures
        survival_step(state, death_timer, false, has_fallen(height, lowest_height), dt).2 <==> state
            == PlayerState::Normal && height < lowest_height - FALL_DEPTH,
{
}

/// A runner that is out stays out and ends no run again.
pub proof fn lemma_terminated_absorbs(death_timer: Option<i64>, stalled: bool, fallen: bool, dt: int)
    ensures
        survival_step(PlayerState::Terminated, death_timer, stalled, fallen, dt) == (
            PlayerState::Terminated,
            death_timer,
            false,
        ),
{
}

/// Whatever is asked for, the velocity at the end of a tick is no longer than
/// the top speed.
pub proof fn lemma_velocity_clamp(
    velocity: Vector,
    speed: int,
    jump_cooldown: int,
    intent: Option<Movement>,
    physics: Kinematics,
)
    requires
        speed >= 0,
    ensures
        next_velocity(velocity, speed, jump_cooldown, intent, physics).norm_sq() <= speed * speed,
{
    crate::fixed::lemma_clamp_length_max(
        pushed(velocity, speed, jump_cooldown, intent, physics),
        speed,
    );
}

} // verus!
