use pisweep::board::{Difficulty, Game, Lcg};
use pisweep::solver::{hint, infer, layout, Hint};

#[test]
fn over_is_none() {
    let mut g = Game::new(Difficulty::Beginner);
    g.over = true;
    g.placed = true;
    assert_eq!(hint(&g), Hint::NoMove);
}

#[test]
fn unstarted_hint_is_center() {
    let g = Game::new(Difficulty::Beginner);
    assert_eq!(hint(&g), Hint::Reveal { x: 4, y: 4 });
}

#[test]
fn last_hidden_cell_is_the_mine() {
    let g = layout(
        3,
        3,
        &[[0, 0]],
        &[
            [1, 0],
            [2, 0],
            [0, 1],
            [1, 1],
            [2, 1],
            [0, 2],
            [1, 2],
            [2, 2],
        ],
        &[],
    );
    assert_eq!(hint(&g), Hint::Flag { x: 0, y: 0 });
}

#[test]
fn remaining_mines_zero_marks_hidden_safe() {
    let g = layout(
        3,
        3,
        &[[0, 0]],
        &[[2, 0], [1, 1], [2, 1], [0, 2], [1, 2], [2, 2]],
        &[[0, 0]],
    );
    match hint(&g) {
        Hint::Reveal { x, y } => {
            let cell = g.cell(x as i32, y as i32).unwrap();
            assert!(!cell.mine && !cell.revealed);
        }
        other => panic!("expected reveal, got {other:?}"),
    }
}

#[test]
fn certain_hints_do_not_hit_a_mine() {
    let mut play = Game::new(Difficulty::Beginner);
    play.reveal_cell(4, 4, &mut Lcg::new(7));
    let mut steps = 0;
    let mut guesses = 0;
    while !play.over && steps < 200 {
        match hint(&play) {
            Hint::NoMove => {
                guesses += 1;
                break;
            }
            Hint::Reveal { x, y } => play.reveal_cell(x, y, &mut Lcg::new(7)),
            Hint::Flag { x, y } => play.flag(x, y),
        }
        steps += 1;
    }
    assert!(guesses == 1 || play.won || play.over);
    assert!(!(play.over && !play.won && guesses == 0));
}

#[test]
fn hint_kinds() {
    assert_eq!(Hint::NoMove.kind(), "none");
    assert_eq!(Hint::Reveal { x: 1, y: 2 }.kind(), "reveal");
    assert_eq!(Hint::Flag { x: 1, y: 2 }.kind(), "flag");
}

#[test]
fn layout_builds_the_board() {
    let g = layout(3, 2, &[[0, 0], [2, 1]], &[[1, 0]], &[[0, 0], [7, 7]]);
    assert_eq!(g.cells.len(), 6);
    assert_eq!(g.mines, 2);
    assert!(g.placed);
    assert_eq!(g.flags, 1);
    assert_eq!(g.revealed_count, 1);
    assert!(g.cells[0].mine && g.cells[0].flagged);
    assert!(g.cells[5].mine);
    assert!(g.cells[1].revealed);
    assert_eq!(g.cells[1].adj, 2);
    assert_eq!(g.cells[4].adj, 2);
    assert_eq!(g.cells[3].adj, 1);
    assert_eq!(g.cells[0].adj, 0);
}

#[test]
fn subset_rule_finds_the_mine() {
    // Row of five; only the middle 3 cells are open.
    //  ? 1 1 1 ?   with the mine at the right end: the left `1` sees the
    // left cover, the right `1` sees the right one, the middle sees none.
    let g = layout(5, 1, &[[4, 0]], &[[1, 0], [2, 0], [3, 0]], &[]);
    let (mines, safes) = infer(&g);
    assert!(mines.contains(&4));
    assert!(safes.contains(&0) || !mines.contains(&0));
    assert!(!mines.contains(&0));
}

#[test]
fn infer_marks_a_zero_neighbour_safe() {
    // 1-cell-wide column: mine at the bottom; the top open cell shows 0.
    let g = layout(1, 4, &[[0, 3]], &[[0, 0]], &[]);
    let (mines, safes) = infer(&g);
    assert!(safes.contains(&1));
    assert!(!mines.contains(&1));
    assert!(safes.contains(&0));
    match hint(&g) {
        Hint::Reveal { x, y } => assert_eq!((x, y), (0, 1)),
        other => panic!("expected reveal, got {other:?}"),
    }
}

#[test]
fn no_certain_move_is_no_move() {
    // Two covered cells, one mine, no information: a coin flip.
    let g = layout(2, 1, &[[0, 0]], &[], &[]);
    assert_eq!(hint(&g), Hint::NoMove);
}

#[test]
fn flags_that_meet_a_number_clear_its_other_neighbours() {
    // Row of four: mines at both ends, the left one flagged; the open `1`
    // already has its mine flagged, so its other covered neighbour is safe.
    let g = layout(4, 1, &[[0, 0], [3, 0]], &[[1, 0]], &[[0, 0]]);
    let (mines, safes) = infer(&g);
    assert!(safes.contains(&2));
    assert!(mines.contains(&0));
    assert!(mines.contains(&3));
    assert_eq!(hint(&g), Hint::Reveal { x: 2, y: 0 });
}

#[test]
fn a_number_filled_by_its_covered_neighbours_marks_them_mines() {
    // Row of five: the open `2` has exactly two covered neighbours.
    let g = layout(5, 1, &[[0, 0], [2, 0]], &[[1, 0]], &[]);
    let (mines, safes) = infer(&g);
    assert!(mines.contains(&0));
    assert!(mines.contains(&2));
    assert!(safes.contains(&3));
    assert!(safes.contains(&4));
}

#[test]
fn subset_differences_settle_a_row_of_three() {
    // Hidden top row, open bottom row showing 1 2 1, mines at both top corners.
    let g = layout(3, 2, &[[0, 0], [2, 0]], &[[0, 1], [1, 1], [2, 1]], &[]);
    let (mines, safes) = infer(&g);
    let mut m: Vec<usize> = mines.into_iter().collect();
    m.sort();
    let mut s: Vec<usize> = safes.into_iter().collect();
    s.sort();
    assert_eq!(m, vec![0, 2]);
    assert_eq!(s, vec![1, 3, 4, 5]);
    assert_eq!(hint(&g), Hint::Reveal { x: 1, y: 0 });
}
