use pisweep::board::Cell;
use pisweep::describe::{cell_announcement, cell_look, face, CellLook, CellMark, Paint};
use pisweep::icons::SweepIcon;

fn cell(x: u8, y: u8) -> Cell {
    Cell {
        x,
        y,
        mine: false,
        adj: 0,
        revealed: false,
        flagged: false,
        exploded: false,
    }
}

#[test]
fn cell_announcement_covers_states() {
    let covered = cell(2, 4);
    assert_eq!(
        cell_announcement(&covered, false, false, true),
        "covered, row 5, column 3, selected"
    );
    let mut flagged = covered;
    flagged.flagged = true;
    assert!(cell_announcement(&flagged, false, false, false).starts_with("flagged"));
    let mut numbered = cell(0, 0);
    numbered.revealed = true;
    numbered.adj = 3;
    assert_eq!(
        cell_announcement(&numbered, false, false, false),
        "3 adjacent mines, row 1, column 1"
    );
}

#[test]
fn announcement_names_every_state() {
    let mut c = cell(8, 0);
    c.flagged = true;
    assert_eq!(cell_announcement(&c, true, false, false), "wrong flag, row 1, column 9");
    assert_eq!(cell_announcement(&c, true, true, false), "flagged, row 1, column 9");
    let mut m = cell(0, 1);
    m.mine = true;
    m.revealed = true;
    assert_eq!(cell_announcement(&m, true, false, false), "mine, row 2, column 1");
    m.exploded = true;
    assert_eq!(cell_announcement(&m, true, false, false), "exploded mine, row 2, column 1");
    let mut e = cell(29, 15);
    e.revealed = true;
    assert_eq!(cell_announcement(&e, false, false, false), "empty, row 16, column 30");
    e.adj = 1;
    assert_eq!(cell_announcement(&e, false, false, true), "1 adjacent mine, row 16, column 30, selected");
}

#[test]
fn looks_follow_the_state_of_a_square() {
    let covered = cell(0, 0);
    assert_eq!(
        cell_look(&covered, false, false),
        CellLook { mark: CellMark::Blank, fill: Paint::Covered, color: Paint::Ink }
    );
    let mut flagged = covered;
    flagged.flagged = true;
    assert_eq!(cell_look(&flagged, false, false).mark, CellMark::Icon(SweepIcon::Flag));
    assert_eq!(cell_look(&flagged, true, true).mark, CellMark::Icon(SweepIcon::Flag));
    assert_eq!(
        cell_look(&flagged, true, false),
        CellLook {
            mark: CellMark::Icon(SweepIcon::X),
            fill: Paint::WrongWash,
            color: Paint::Rgb(0xef4444),
        }
    );
    let mut mine = covered;
    mine.mine = true;
    mine.revealed = true;
    assert_eq!(cell_look(&mine, true, false).fill, Paint::Open);
    mine.exploded = true;
    assert_eq!(
        cell_look(&mine, true, false),
        CellLook {
            mark: CellMark::Icon(SweepIcon::Bomb),
            fill: Paint::Rgb(0xb91c1c),
            color: Paint::Rgb(0xfff7ed),
        }
    );
    let mut open = covered;
    open.revealed = true;
    assert_eq!(cell_look(&open, false, false).mark, CellMark::Blank);
    open.adj = 3;
    assert_eq!(
        cell_look(&open, false, false),
        CellLook { mark: CellMark::Digit(3), fill: Paint::Open, color: Paint::Rgb(0xef4444) }
    );
    open.adj = 1;
    assert_eq!(cell_look(&open, false, false).color, Paint::Accent);
    open.adj = 8;
    assert_eq!(cell_look(&open, false, false).color, Paint::Muted);
}

#[test]
fn the_face_shows_how_the_game_went() {
    assert_eq!(face(false, false), SweepIcon::Smile);
    assert_eq!(face(true, false), SweepIcon::Frown);
    assert_eq!(face(true, true), SweepIcon::Grin);
}
