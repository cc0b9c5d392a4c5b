use pisweep::board::Difficulty;
use pisweep::session::{Effects, Session};
use pisweep::solver::{layout, Hint};
use pisweep::stats::{Bests, Settings};

fn settings(difficulty: &str) -> Settings {
    Settings {
        difficulty: difficulty.to_string(),
        bests: Bests::default(),
    }
}

/// Three squares in a row: a mine, an open `1`, and one covered safe square.
fn one_move_from_winning() -> Session {
    let mut s = Session::new(settings("beginner"));
    s.game = layout(3, 1, &[[0, 0]], &[[1, 0]], &[]);
    s
}

#[test]
fn a_session_starts_on_the_stored_board() {
    let s = Session::new(settings("expert"));
    assert_eq!((s.game.width, s.game.height, s.game.mines), (30, 16, 99));
    assert_eq!(s.game.difficulty, Difficulty::Expert);
    assert!(!s.clock_running);
    assert_eq!(s.elapsed(50), 0);
    let unknown = Session::new(settings("nope"));
    assert_eq!(unknown.game.difficulty, Difficulty::Beginner);
}

#[test]
fn the_first_click_starts_the_clock() {
    let mut s = Session::new(settings("beginner"));
    let fx = s.reveal_at(4, 4, 0);
    assert!(s.game.placed);
    if !s.game.over {
        assert_eq!(fx, Effects { start_clock: true, save: false });
        assert!(s.clock_running);
        assert_eq!(s.elapsed(17), 17);
        let again = s.reveal_at(4, 4, 3);
        assert_eq!(again, Effects { start_clock: false, save: false });
    }
    assert_eq!((s.game.cursor_x, s.game.cursor_y), (4, 4));
}

#[test]
fn a_win_freezes_the_clock_and_saves_a_best_time() {
    let mut s = one_move_from_winning();
    s.clock_running = true;
    let fx = s.reveal_at(2, 0, 42);
    assert!(s.game.won && s.game.over);
    assert_eq!(fx, Effects { start_clock: false, save: true });
    assert_eq!(s.frozen_elapsed, 42);
    assert_eq!(s.elapsed(99), 42);
    assert_eq!(s.settings.bests.beginner, 42);
    assert_eq!(s.settings.difficulty, "beginner");
    // Clicking again on a finished game records nothing new.
    let fx = s.reveal_at(2, 0, 50);
    assert_eq!(fx, Effects { start_clock: false, save: false });
    assert_eq!(s.settings.bests.beginner, 42);
}

#[test]
fn a_win_without_a_running_clock_counts_one_second() {
    let mut s = one_move_from_winning();
    let fx = s.reveal_at(2, 0, 42);
    assert!(s.game.won);
    assert_eq!(fx, Effects { start_clock: false, save: true });
    assert_eq!(s.frozen_elapsed, 0);
    assert_eq!(s.settings.bests.beginner, 1);
}

#[test]
fn a_slower_win_is_not_saved() {
    let mut s = one_move_from_winning();
    s.settings.bests.beginner = 10;
    s.clock_running = true;
    let fx = s.reveal_at(2, 0, 42);
    assert!(s.game.won);
    assert_eq!(fx, Effects { start_clock: false, save: false });
    assert_eq!(s.settings.bests.beginner, 10);
}

#[test]
fn losing_freezes_the_clock_without_saving() {
    let mut s = one_move_from_winning();
    s.clock_running = true;
    let fx = s.reveal_at(0, 0, 9);
    assert!(s.game.over && !s.game.won);
    assert_eq!(fx, Effects { start_clock: false, save: false });
    assert_eq!(s.elapsed(30), 9);
}

#[test]
fn a_new_game_resets_and_stores_the_board() {
    let mut s = one_move_from_winning();
    s.clock_running = true;
    s.hint_message = "x".to_string();
    let fx = s.new_game(Difficulty::Intermediate);
    assert_eq!(fx, Effects { start_clock: false, save: true });
    assert_eq!((s.game.width, s.game.height, s.game.mines), (16, 16, 40));
    assert!(!s.clock_running);
    assert_eq!(s.frozen_elapsed, 0);
    assert!(s.hint_message.is_empty());
    assert_eq!(s.settings.difficulty, "intermediate");
}

#[test]
fn flagging_toggles_and_clears_the_hint_line() {
    let mut s = one_move_from_winning();
    s.hint_message = "No certain move".to_string();
    s.flag_at(2, 0);
    assert!(s.game.cells[2].flagged);
    assert_eq!(s.game.flags, 1);
    assert!(s.hint_message.is_empty());
    s.flag_at(2, 0);
    assert!(!s.game.cells[2].flagged);
    assert_eq!(s.game.flags, 0);
}

#[test]
fn a_hint_plays_a_certain_move_or_says_there_is_none() {
    let mut s = Session::new(settings("beginner"));
    s.game = layout(3, 1, &[[0, 0]], &[[1, 0]], &[[0, 0]]);
    s.hint_message = "old".to_string();
    let fx = s.play_hint(5);
    assert!(s.game.won);
    assert_eq!(fx, Effects { start_clock: false, save: true });
    // Over: nothing happens.
    let before = s.game.cells.clone();
    let fx = s.play_hint(6);
    assert_eq!(fx, Effects { start_clock: false, save: false });
    assert_eq!(s.game.cells, before);

    let mut coin = Session::new(settings("beginner"));
    coin.game = layout(2, 1, &[[0, 0]], &[], &[]);
    let fx = coin.play_hint(0);
    assert_eq!(fx, Effects { start_clock: false, save: false });
    assert_eq!(coin.hint_message, "No certain move");
}

#[test]
fn applying_a_hint_plays_it() {
    let mut s = one_move_from_winning();
    let fx = s.apply_hint(Hint::Flag { x: 0, y: 0 }, 0);
    assert_eq!(fx, Effects { start_clock: false, save: false });
    assert!(s.game.cells[0].flagged);
    let fx = s.apply_hint(Hint::NoMove, 0);
    assert_eq!(fx, Effects { start_clock: false, save: false });
    assert_eq!(s.hint_message, "No certain move");
    let fx = s.apply_hint(Hint::Reveal { x: 2, y: 0 }, 0);
    assert!(s.game.won);
    assert_eq!(fx, Effects { start_clock: false, save: true });
}
