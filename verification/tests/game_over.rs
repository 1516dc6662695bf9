use endless_runner::game_over::{
    final_score, update_game_over, DisplayState, GameOverAction, GameOverEvent, GameOverLine,
    GameOverState, RunSummary, COUNTDOWN,
};

fn summary() -> RunSummary {
    RunSummary { score: 30, donut_count: 2, distance: 12_500, max_height: 660 }
}

#[test]
fn game_over_state_starts_with_the_countdown() {
    let state = GameOverState::default();
    assert_eq!(state.timer, COUNTDOWN);
    assert_eq!(state.timer, 200);
    assert_eq!(state.display_state, DisplayState::GameOver);
    assert_eq!(GameOverEvent, GameOverEvent);
}

#[test]
fn countdown_holds_the_screen_back() {
    let mut state = GameOverState::default();
    assert_eq!(update_game_over(&mut state, 199, true, &summary()), GameOverAction::Idle);
    assert_eq!(state.timer, 1);
    assert_eq!(state.display_state, DisplayState::GameOver);
    assert_eq!(
        update_game_over(&mut state, 1, false, &summary()),
        GameOverAction::Show(GameOverLine::Title)
    );
    assert_eq!(state.timer, 200);
    assert_eq!(state.display_state, DisplayState::BaseScore);
}

#[test]
fn lines_appear_in_order() {
    let mut state = GameOverState::default();
    let mut shown = Vec::new();
    for _ in 0..7 {
        match update_game_over(&mut state, 200, false, &summary()) {
            GameOverAction::Show(line) => shown.push(line),
            other => panic!("unexpected {:?}", other),
        }
    }
    assert_eq!(
        shown,
        vec![
            GameOverLine::Title,
            GameOverLine::BaseScore(30),
            GameOverLine::Donuts(2),
            GameOverLine::Distance(12_500),
            GameOverLine::MaxHeight(660),
            GameOverLine::TotalScore(251),
            GameOverLine::Again,
        ]
    );
    assert_eq!(state.display_state, DisplayState::Wait);
    assert_eq!(state.timer, -1000);
}

#[test]
fn waiting_screen_restarts_on_the_action_button() {
    let mut state = GameOverState { timer: -1000, display_state: DisplayState::Wait };
    assert_eq!(update_game_over(&mut state, 16, false, &summary()), GameOverAction::Idle);
    assert_eq!(state, GameOverState { timer: -1000, display_state: DisplayState::Wait });
    assert_eq!(update_game_over(&mut state, 16, true, &summary()), GameOverAction::Restart);
    assert_eq!(state, GameOverState::default());
}

#[test]
fn action_button_is_ignored_before_the_prompt() {
    let mut state = GameOverState { timer: 0, display_state: DisplayState::Final };
    assert_eq!(
        update_game_over(&mut state, 0, true, &summary()),
        GameOverAction::Show(GameOverLine::TotalScore(251))
    );
    assert_eq!(state.display_state, DisplayState::Continue);
    let mut waiting = GameOverState { timer: 100, display_state: DisplayState::Wait };
    assert_eq!(update_game_over(&mut waiting, 50, true, &summary()), GameOverAction::Idle);
    assert_eq!(waiting.timer, 50);
}

#[test]
fn timer_is_clamped_to_three_seconds() {
    let mut state = GameOverState { timer: 9000, display_state: DisplayState::Distance };
    assert_eq!(update_game_over(&mut state, 0, false, &summary()), GameOverAction::Idle);
    assert_eq!(state.timer, 3000);
    let mut late = GameOverState { timer: i64::MIN, display_state: DisplayState::Distance };
    assert_eq!(
        update_game_over(&mut late, u32::MAX, false, &summary()),
        GameOverAction::Show(GameOverLine::Distance(12_500))
    );
    assert_eq!(late.timer, 200);
}

#[test]
fn every_line_but_the_prompt_plays_the_sound() {
    assert!(GameOverLine::Title.plays_sound());
    assert!(GameOverLine::BaseScore(1).plays_sound());
    assert!(GameOverLine::Donuts(1).plays_sound());
    assert!(GameOverLine::Distance(1).plays_sound());
    assert!(GameOverLine::MaxHeight(1).plays_sound());
    assert!(GameOverLine::TotalScore(1).plays_sound());
    assert!(!GameOverLine::Again.plays_sound());
}

#[test]
fn final_score_adds_distance_and_height() {
    let run = RunSummary { score: 30, donut_count: 0, distance: 12_500, max_height: 660 };
    assert_eq!(final_score(&run), 30 + 125 + 66);
}

#[test]
fn final_score_multiplies_by_the_donuts() {
    let one = RunSummary { score: 30, donut_count: 1, distance: 0, max_height: 0 };
    assert_eq!(final_score(&one), 30);
    let three = RunSummary { score: 30, donut_count: 3, distance: 0, max_height: 0 };
    assert_eq!(final_score(&three), 90);
}

#[test]
fn final_score_rounds_toward_zero() {
    let up = RunSummary { score: 0, donut_count: 0, distance: 199, max_height: 0 };
    assert_eq!(final_score(&up), 1);
    let down = RunSummary { score: 0, donut_count: 0, distance: -199, max_height: 0 };
    assert_eq!(final_score(&down), -1);
    let mixed = RunSummary { score: 1, donut_count: 0, distance: -150, max_height: 0 };
    assert_eq!(final_score(&mixed), 0);
}

#[test]
fn final_score_saturates() {
    let huge = RunSummary {
        score: usize::MAX,
        donut_count: usize::MAX,
        distance: i64::MIN,
        max_height: i64::MIN,
    };
    assert_eq!(final_score(&huge), i32::MAX);
    let far = RunSummary { score: 0, donut_count: 0, distance: i64::MAX, max_height: i64::MAX };
    assert_eq!(final_score(&far), i32::MAX);
    let deep = RunSummary { score: 5, donut_count: 0, distance: i64::MIN, max_height: 0 };
    assert_eq!(final_score(&deep), i32::MIN);
    let edge = RunSummary { score: 2_147_483_647, donut_count: 1, distance: 0, max_height: 0 };
    assert_eq!(final_score(&edge), i32::MAX);
}
