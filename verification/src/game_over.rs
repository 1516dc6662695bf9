//! The end-of-run score screen: a countdown that reveals one line at a time,
//! then waits for the player to ask for another run.

use vstd::prelude::*;
use crate::fixed::{clamped, trunc_div};

verus! {

/// Raised once when a run ends.
#[derive(Clone, Copy, Debug, PartialEq, Eq, Structural)]
pub struct GameOverEvent;

/// Which line the score screen reveals next.
#[derive(Clone, Copy, Debug, PartialEq, Eq, Structural)]
pub enum DisplayState {
    GameOver,
    BaseScore,
    DonutsCollected,
    Distance,
    Height,
    Final,
    Continue,
    Wait,
}

/// Milliseconds between two lines of the score screen.
pub const COUNTDOWN: i64 = 200;

/// The countdown never remembers more than this many milliseconds either way.
pub const TIMER_LIMIT: i64 = 3000;

/// The countdown value that makes the next step fire on the following tick.
pub const TIMER_EXPIRED: i64 = -1000;

/// State of the score screen.
#[derive(Clone, Copy, Debug, PartialEq, Eq, Structural)]
pub struct GameOverState {
    /// Milliseconds until the next line is revealed.
    pub timer: i64,
    pub display_state: DisplayState,
}

/// The raw numbers of a finished run.
#[derive(Clone, Copy, Debug, PartialEq, Eq, Structural)]
pub struct RunSummary {
    pub score: usize,
    pub donut_count: usize,
    /// How far along the track the player got, in thousandths.
    pub distance: i64,
    /// Highest segment of the last level, in thousandths.
    pub max_height: i64,
}

/// One line of the score screen.
#[derive(Clone, Copy, Debug, PartialEq, Eq, Structural)]
pub enum GameOverLine {
    Title,
    BaseScore(usize),
    Donuts(usize),
    Distance(i64),
    MaxHeight(i64),
    TotalScore(i32),
    Again,
}

/// What the presentation layer has to do after a step of the score screen.
#[derive(Clone, Copy, Debug, PartialEq, Eq, Structural)]
pub enum GameOverAction {
    /// Nothing to show on this tick.
    Idle,
    /// Append this line to the screen.
    Show(GameOverLine),
    /// The player asked for another run.
    Restart,
}

/// The total score in whole points: the base score times the number of donuts
/// (at least one), plus ten points per unit of distance and a hundred per unit
/// of height, rounded toward zero and confined to the range of `i32`.
pub open spec fn final_score_spec(run: RunSummary) -> int {
    let donuts: int = if run.donut_count >= 1 {
        run.donut_count as int
    } else {
        1
    };
    let total = run.score * donuts * 1000 + run.distance * 10 + run.max_height * 100;
    clamped(trunc_div(total, 1000), i32::MIN as int, i32::MAX as int)
}

/// The state of a fresh score screen.
pub open spec fn initial_state() -> GameOverState {
    GameOverState { timer: COUNTDOWN, display_state: DisplayState::GameOver }
}

/// The line revealed when the countdown fires in `display`, if any.
pub open spec fn line_of(display: DisplayState, run: RunSummary) -> Option<GameOverLine> {
    match display {
        DisplayState::GameOver => Some(GameOverLine::Title),
        DisplayState::BaseScore => Some(GameOverLine::BaseScore(run.score)),
        DisplayState::DonutsCollected => Some(GameOverLine::Donuts(run.donut_count)),
        DisplayState::Distance => Some(GameOverLine::Distance(run.distance)),
        DisplayState::Height => Some(GameOverLine::MaxHeight(run.max_height)),
        DisplayState::Final => Some(GameOverLine::TotalScore(final_score_spec(run) as i32)),
        DisplayState::Continue => Some(GameOverLine::Again),
        DisplayState::Wait => None,
    }
}

/// The display state that follows `display` once its line has been revealed.
pub open spec fn successor(display: DisplayState) -> DisplayState {
    match display {
        DisplayState::GameOver => DisplayState::BaseScore,
        DisplayState::BaseScore => DisplayState::DonutsCollected,
        DisplayState::DonutsCollected => DisplayState::Distance,
        DisplayState::Distance => DisplayState::Height,
        DisplayState::Height => DisplayState::Final,
        DisplayState::Final => DisplayState::Continue,
        DisplayState::Continue => DisplayState::Wait,
        DisplayState::Wait => DisplayState::Wait,
    }
}

/// One tick of the score screen: the next state and what to do.
///
/// The countdown loses `dt` milliseconds and is confined to
/// `-TIMER_LIMIT..=TIMER_LIMIT`. While it is positive nothing happens. Once it
/// is not, the line of the current display state is revealed and the countdown
/// restarts; the last two states rearm at once instead of waiting, and the last
/// one restarts the run when the action button has just been pressed.
pub open spec fn game_over_step(
    state: GameOverState,
    dt: u32,
    action_just_pressed: bool,
    run: RunSummary,
) -> (GameOverState, GameOverAction) {
    let timer = clamped(state.timer - dt, -(TIMER_LIMIT as int), TIMER_LIMIT as int);
    if timer > 0 {
        (GameOverState { timer: timer as i64, display_state: state.display_state }, GameOverAction::Idle)
    } else {
        match state.display_state {
            DisplayState::Wait => if action_just_pressed {
                (initial_state(), GameOverAction::Restart)
            } else {
                (
                    GameOverState { timer: TIMER_EXPIRED, display_state: DisplayState::Wait },
                    GameOverAction::Idle,
                )
            },
            DisplayState::Continue => (
                GameOverState { timer: TIMER_EXPIRED, display_state: DisplayState::Wait },
                GameOverAction::Show(GameOverLine::Again),
            ),
            _ => (
                GameOverState { timer: COUNTDOWN, display_state: successor(state.display_state) },
                GameOverAction::Show(line_of(state.display_state, run).unwrap()),
            ),
        }
    }
}

impl GameOverLine {
    /// Whether revealing this line comes with the end-of-run sound.
    pub fn plays_sound(&self) -> (b: bool)
        ensures
            b == !(*self == GameOverLine::Again),
    {
        match self {
            GameOverLine::Again => false,
            _ => true,
        }
    }
}

impl Default for GameOverState {
    fn default() -> (s: Self)
        ensures
            s == initial_state(),
    {
        GameOverState { timer: COUNTDOWN, display_state: DisplayState::GameOver }
    }
}

/// The total score of a finished run, in whole points.
pub fn final_score(run: &RunSummary) -> (total: i32)
    ensures
        total == final_score_spec(*run),
{
    let donuts: u128 = if run.donut_count >= 1 {
        run.donut_count as u128
    } else {
        1
    };
    let score: u128 = run.score as u128;
    assert(score * donuts <= 0xffff_ffff_ffff_ffff_ffff_ffff_ffff_ffff) by (nonlinear_arith)
        requires
            score <= 0xffff_ffff_ffff_ffff,
            donuts <= 0xffff_ffff_ffff_ffff,
    ;
    let base: u128 = score * donuts;
    let rest: i128 = (run.distance as i128) * 10 + (run.max_height as i128) * 100;
    if base >= 0x1_0000_0000_0000_0000_0000 {
        proof {
            let total = base * 1000 + rest;
            assert(total >= 0x7fff_ffff * 1000 + 1000);
            assert(trunc_div(total, 1000) > 0x7fff_ffff);
        }
        return i32::MAX;
    }
    let total: i128 = (base as i128) * 1000 + rest;
    let points: i128 = total / 1000;
    if points > i32::MAX as i128 {
        i32::MAX
    } else if points < i32::MIN as i128 {
        i32::MIN
    } else {
        points as i32
    }
}

/// Advances the score screen by `dt` milliseconds and says what to show.
pub fn update_game_over(
    state: &mut GameOverState,
    dt: u32,
    action_just_pressed: bool,
    run: &RunSummary,
) -> (action: GameOverAction)
    ensures
        (*final(state), action) == game_over_step(*old(state), dt, action_just_pressed, *run),
{
    let elapsed: i128 = (state.timer as i128) - (dt as i128);
    let timer: i64 = if elapsed < -(TIMER_LIMIT as i128) {
        -TIMER_LIMIT
    } else if elapsed > TIMER_LIMIT as i128 {
        TIMER_LIMIT
    } else {
        elapsed as i64
    };
    if timer > 0 {
        state.timer = timer;
        return GameOverAction::Idle;
    }
    state.timer = COUNTDOWN;
    match state.display_state {
        DisplayState::GameOver => {
            state.display_state = DisplayState::BaseScore;
            GameOverAction::Show(GameOverLine::Title)
        },
        DisplayState::BaseScore => {
            state.display_state = DisplayState::DonutsCollected;
            GameOverAction::Show(GameOverLine::BaseScore(run.score))
        },
        DisplayState::DonutsCollected => {
            state.display_state = DisplayState::Distance;
            GameOverAction::Show(GameOverLine::Donuts(run.donut_count))
        },
        DisplayState::Distance => {
            state.display_state = DisplayState::Height;
            GameOverAction::Show(GameOverLine::Distance(run.distance))
        },
        DisplayState::Height => {
            state.display_state = DisplayState::Final;
            GameOverAction::Show(GameOverLine::MaxHeight(run.max_height))
        },
        DisplayState::Final => {
            state.display_state = DisplayState::Continue;
            GameOverAction::Show(GameOverLine::TotalScore(final_score(run)))
        },
        DisplayState::Continue => {
            state.timer = TIMER_EXPIRED;
            state.display_state = DisplayState::Wait;
            GameOverAction::Show(GameOverLine::Again)
        },
        DisplayState::Wait => {
            if action_just_pressed {
                *state = GameOverState::default();
                GameOverAction::Restart
            } else {
                state.timer = TIMER_EXPIRED;
                GameOverAction::Idle
            }
        },
    }
}

} // verus!
