use pisweep::board::{format_time, pad3, Cell, Difficulty, Game, Lcg, Rand, ThreadRng};

fn count(game: &Game, pred: impl Fn(&Cell) -> bool) -> usize {
    game.cells.iter().filter(|c| pred(c)).count()
}

#[test]
fn beginner_and_expert_specs() {
    let b = Game::new(Difficulty::Beginner);
    assert_eq!((b.width, b.height, b.cells.len(), b.mines), (9, 9, 81, 10));
    assert!(!b.placed);
    let e = Game::new(Difficulty::Expert);
    assert_eq!(
        (e.width, e.height, e.cells.len(), e.mines),
        (30, 16, 480, 99)
    );
    assert_eq!(Difficulty::parse("nope"), Difficulty::Beginner);
    assert_eq!(pad3(99), "099");
    assert_eq!(pad3(-2), "-02");
    assert_eq!(format_time(65), "1:05");
}

#[test]
fn first_click_is_safe_and_places_mines() {
    let mut s = Game::new(Difficulty::Beginner);
    s.reveal_cell(4, 4, &mut Lcg::new(1));
    assert!(s.placed);
    let cell = s.cell(4, 4).unwrap();
    assert!(!cell.mine && cell.revealed);
    assert_eq!(count(&s, |c| c.mine), 10);
    for i in s.neighbor_indices(4, 4) {
        assert!(!s.cells[i].mine);
    }
}

#[test]
fn flag_toggle_and_blocks_reveal() {
    let mut s = Game::new(Difficulty::Beginner);
    s.reveal_cell(4, 4, &mut Lcg::new(1));
    let hidden = *s
        .cells
        .iter()
        .find(|c| !c.revealed && !c.mine)
        .expect("covered safe cell");
    s.flag(hidden.x, hidden.y);
    assert_eq!(s.flags, 1);
    assert!(s.cell(hidden.x as i32, hidden.y as i32).unwrap().flagged);
    assert_eq!(s.remaining(), 9);
    s.flag(hidden.x, hidden.y);
    assert_eq!(s.flags, 0);
    s.flag(hidden.x, hidden.y);
    s.reveal_cell(hidden.x, hidden.y, &mut Lcg::new(1));
    let cell = s.cell(hidden.x as i32, hidden.y as i32).unwrap();
    assert!(cell.flagged && !cell.revealed);
}

#[test]
fn hitting_a_mine_loses_and_shows_all() {
    let mut lose = Game::new(Difficulty::Beginner);
    lose.place_mines(0, 0, &mut Lcg::new(1));
    let mine = *lose.cells.iter().find(|c| c.mine).unwrap();
    lose.reveal_cell(mine.x, mine.y, &mut Lcg::new(1));
    assert!(
        lose.over && !lose.won && lose.cell(mine.x as i32, mine.y as i32).unwrap().exploded
    );
    assert_eq!(count(&lose, |c| c.mine && c.revealed), lose.mines as usize);
}

#[test]
fn clearing_safe_cells_wins() {
    let mut win = Game::new(Difficulty::Beginner);
    win.reveal_cell(2, 2, &mut Lcg::new(1));
    let pending: Vec<(u8, u8)> = win
        .cells
        .iter()
        .filter(|c| !c.mine && !c.revealed)
        .map(|c| (c.x, c.y))
        .collect();
    for (x, y) in pending {
        win.reveal_cell(x, y, &mut Lcg::new(1));
    }
    assert!(win.won && win.over);
    assert_eq!(win.flags as u16, win.mines);
}

#[test]
fn correct_chord_does_not_lose() {
    let mut chord = Game::new(Difficulty::Beginner);
    chord.place_mines(0, 0, &mut Lcg::new(1));
    let numbered = *chord.cells.iter().find(|c| !c.mine && c.adj == 1).unwrap();
    chord.reveal_cell(numbered.x, numbered.y, &mut Lcg::new(1));
    let around = chord.neighbor_indices(numbered.x, numbered.y);
    let mine = around.into_iter().find(|&i| chord.cells[i].mine).unwrap();
    let (mx, my) = (chord.cells[mine].x, chord.cells[mine].y);
    chord.flag(mx, my);
    chord.chord(numbered.x, numbered.y, &mut Lcg::new(1));
    assert!(!chord.over || chord.won);
    chord.move_cursor(100, 100);
    assert_eq!(chord.cursor_x, chord.width - 1);
    assert_eq!(chord.cursor_y, chord.height - 1);
}

#[test]
fn difficulty_ids_labels_and_specs() {
    for d in Difficulty::all() {
        assert_eq!(Difficulty::parse(d.id()), d);
    }
    assert_eq!(Difficulty::Intermediate.id(), "intermediate");
    assert_eq!(Difficulty::Intermediate.label(), "Inter.");
    assert_eq!(Difficulty::Expert.label(), "Expert");
    assert_eq!(Difficulty::Intermediate.spec(), (16, 16, 40));
    assert_eq!(Difficulty::parse(""), Difficulty::Beginner);
    assert_eq!(Difficulty::parse("Expert"), Difficulty::Beginner);
}

#[test]
fn counters_pad_and_cap() {
    assert_eq!(pad3(0), "000");
    assert_eq!(pad3(7), "007");
    assert_eq!(pad3(1234), "1234");
    assert_eq!(pad3(-150), "-99");
    assert_eq!(pad3(-9), "-09");
    assert_eq!(format_time(0), "0:00");
    assert_eq!(format_time(59), "0:59");
    assert_eq!(format_time(600), "10:00");
    assert_eq!(format_time(3599), "59:59");
}

#[test]
fn index_and_cells_off_board() {
    let g = Game::new(Difficulty::Beginner);
    assert_eq!(g.index(0, 0), Some(0));
    assert_eq!(g.index(8, 8), Some(80));
    assert_eq!(g.index(3, 2), Some(21));
    assert_eq!(g.index(-1, 0), None);
    assert_eq!(g.index(9, 0), None);
    assert_eq!(g.index(0, 9), None);
    assert!(g.cell(9, 9).is_none());
    let c = g.cell(3, 2).unwrap();
    assert_eq!((c.x, c.y), (3, 2));
}

#[test]
fn neighbours_in_order_at_edges() {
    let g = Game::new(Difficulty::Beginner);
    assert_eq!(g.neighbor_indices(0, 0), vec![1, 9, 10]);
    assert_eq!(g.neighbor_indices(4, 4), vec![30, 31, 32, 39, 41, 48, 49, 50]);
    assert_eq!(g.neighbor_indices(8, 8), vec![70, 71, 79]);
    assert_eq!(g.neighbor_indices(9, 8), vec![71, 80]);
}

#[test]
fn cursor_moves_and_stops_at_edges() {
    let mut g = Game::new(Difficulty::Beginner);
    g.move_cursor(-1, -1);
    assert_eq!((g.cursor_x, g.cursor_y), (0, 0));
    g.move_cursor(3, 2);
    assert_eq!((g.cursor_x, g.cursor_y), (3, 2));
    g.set_cursor(200, 5);
    assert_eq!((g.cursor_x, g.cursor_y), (8, 5));
}

#[test]
fn cell_mut_edits_one_cell() {
    let mut g = Game::new(Difficulty::Beginner);
    if let Some(c) = g.cell_mut(2, 1) {
        c.flagged = true;
    }
    assert!(g.cells[11].flagged);
    assert_eq!(g.cells.iter().filter(|c| c.flagged).count(), 1);
    assert!(g.cell_mut(9, 0).is_none());
}

#[test]
fn lcg_steps_and_scales() {
    let mut r = Lcg::new(1);
    // 1 * 1103515245 + 12345 = 1103527590; 1103527590 % 233280 = 113190
    assert_eq!(r.next_index(233_280), 113_190);
    let mut r = Lcg::new(1);
    // 113190 * 10 / 233280 = 4.85..
    assert_eq!(r.next_index(10), 4);
    let mut r = Lcg::new(0);
    assert_eq!(r.next_index(233_280), 12_345);
}

#[test]
fn first_click_flood_opens_a_region() {
    let mut g = Game::new(Difficulty::Expert);
    g.reveal_cell(15, 8, &mut Lcg::new(3));
    assert!(!g.over);
    let opened = g.cells.iter().filter(|c| c.revealed).count();
    assert_eq!(g.revealed_count as usize, opened);
    // the first click on a roomy board lands on a zero, so it floods
    assert!(opened > 1);
    for c in g.cells.iter().filter(|c| c.revealed) {
        assert!(!c.mine);
    }
}

#[test]
fn flags_do_not_win_only_reveals_do() {
    let mut g = Game::new(Difficulty::Beginner);
    g.reveal_cell(4, 4, &mut Lcg::new(5));
    let mines: Vec<(u8, u8)> = g.cells.iter().filter(|c| c.mine).map(|c| (c.x, c.y)).collect();
    for (x, y) in mines {
        g.flag(x, y);
    }
    assert!(!g.won && !g.over);
    assert_eq!(g.remaining(), 0);
}

#[test]
fn nothing_happens_after_the_game_is_over() {
    let mut g = Game::new(Difficulty::Beginner);
    g.place_mines(0, 0, &mut Lcg::new(1));
    let mine = *g.cells.iter().find(|c| c.mine).unwrap();
    g.reveal_cell(mine.x, mine.y, &mut Lcg::new(1));
    assert!(g.over);
    let before = g.clone();
    let safe = *g.cells.iter().find(|c| !c.mine && !c.revealed).unwrap();
    g.reveal_cell(safe.x, safe.y, &mut Lcg::new(1));
    g.flag(safe.x, safe.y);
    g.chord(safe.x, safe.y, &mut Lcg::new(1));
    assert_eq!(g.cells, before.cells);
    assert_eq!(g.flags, before.flags);
}

#[test]
fn thread_rng_stays_in_range() {
    let mut r = pisweep::board::ThreadRng::default();
    for n in 1..50usize {
        assert!(r.next_index(n) <= n);
    }
}

#[test]
fn flag_counter_range_check() {
    let mut g = Game::new(Difficulty::Beginner);
    assert!(g.flag_in_range(0, 0));
    g.flags = i16::MAX;
    assert!(!g.flag_in_range(0, 0));
    assert!(g.flag_in_range(40, 40));
    g.flags = i16::MIN;
    assert!(g.flag_in_range(0, 0));
    g.cells[0].flagged = true;
    assert!(!g.flag_in_range(0, 0));
    g.over = true;
    assert!(g.flag_in_range(0, 0));
}

#[test]
fn a_generator_seeded_from_the_clock_reading() {
    let mut a = ThreadRng::from_clock(Some(42));
    let mut b = ThreadRng::from_clock(Some(43));
    // 42 | 1 == 43: both start in the same state and draw alike.
    assert_eq!(a.next_index(1000), b.next_index(1000));
    let mut c = ThreadRng::from_clock(None);
    assert!(c.next_index(10) <= 10);
}

#[test]
fn chord_on_a_covered_square_is_a_reveal() {
    let mut a = Game::new(Difficulty::Beginner);
    let mut b = Game::new(Difficulty::Beginner);
    let mut ra = Lcg::new(11);
    let mut rb = Lcg::new(11);
    a.chord(3, 5, &mut ra);
    b.reveal_cell(3, 5, &mut rb);
    assert_eq!(a.cells, b.cells);
    assert_eq!((a.over, a.won, a.revealed_count), (b.over, b.won, b.revealed_count));
    assert_eq!(ra.next_index(1000), rb.next_index(1000));
}

#[test]
fn flag_at_the_counter_limit_can_still_be_undone() {
    let mut g = Game::new(Difficulty::Beginner);
    g.reveal_cell(4, 4, &mut Lcg::new(1));
    let hidden = *g
        .cells
        .iter()
        .find(|c| !c.revealed)
        .expect("covered cell");
    g.flags = i16::MAX - 1;
    let before = g.clone();
    g.flag(hidden.x, hidden.y);
    assert_eq!(g.flags, i16::MAX);
    g.flag(hidden.x, hidden.y);
    assert_eq!(g.flags, before.flags);
    assert_eq!(g.cells, before.cells);
}
