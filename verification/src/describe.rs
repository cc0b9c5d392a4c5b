//! How cells and the game look and read: the mark and colours of each
//! square, the face in the header, and spoken descriptions for screen
//! readers and tooltips.
use vstd::prelude::*;
use crate::board::Cell;
use crate::icons::SweepIcon;
use crate::text::{decimal, push_decimal};

verus! {

/// "row R, column C" for a cell, counting from one.
pub open spec fn position_text(cell: Cell) -> Seq<char> {
    "row "@ + decimal((cell.y + 1) as nat) + ", column "@ + decimal((cell.x + 1) as nat)
}

/// The state word of a cell, when it is not a number above one.
pub open spec fn state_text(cell: Cell, over: bool, won: bool) -> Option<Seq<char>> {
    if over && !won && cell.flagged && !cell.mine {
        Some("wrong flag"@)
    } else if cell.flagged && !cell.revealed {
        Some("flagged"@)
    } else if !cell.revealed {
        Some("covered"@)
    } else if cell.mine && cell.exploded {
        Some("exploded mine"@)
    } else if cell.mine {
        Some("mine"@)
    } else if cell.adj == 0 {
        Some("empty"@)
    } else if cell.adj == 1 {
        Some("1 adjacent mine"@)
    } else {
        None
    }
}

/// How a cell is announced: its state, its position, and whether the cursor
/// is on it.
pub open spec fn announcement(cell: Cell, over: bool, won: bool, selected: bool) -> Seq<char> {
    let state = match state_text(cell, over, won) {
        Some(s) => s,
        None => decimal(cell.adj as nat) + " adjacent mines"@,
    };
    state + ", "@ + position_text(cell) + if selected {
        ", selected"@
    } else {
        Seq::<char>::empty()
    }
}

/// Announces a cell: its state, its position, and whether it is selected.
pub fn cell_announcement(cell: &Cell, over: bool, won: bool, selected: bool) -> (r: String)
    requires
        cell.x < 255,
        cell.y < 255,
    ensures
        r@ == announcement(*cell, over, won, selected),
{
    let mut out = String::new();
    if over && !won && cell.flagged && !cell.mine {
        out.append("wrong flag");
    } else if cell.flagged && !cell.revealed {
        out.append("flagged");
    } else if !cell.revealed {
        out.append("covered");
    } else if cell.mine && cell.exploded {
        out.append("exploded mine");
    } else if cell.mine {
        out.append("mine");
    } else if cell.adj == 0 {
        out.append("empty");
    } else if cell.adj == 1 {
        out.append("1 adjacent mine");
    } else {
        push_decimal(&mut out, cell.adj as u32);
        out.append(" adjacent mines");
    }
    out.append(", ");
    out.append("row ");
    push_decimal(&mut out, (cell.y + 1) as u32);
    out.append(", column ");
    push_decimal(&mut out, (cell.x + 1) as u32);
    if selected {
        out.append(", selected");
    }
    proof {
        assert(out@ =~= announcement(*cell, over, won, selected));
    }
    out
}

/// What a square shows.
#[derive(Debug, Clone, Copy, PartialEq, Eq, Structural)]
pub enum CellMark {
    Blank,
    Digit(u8),
    Icon(SweepIcon),
}

/// A colour by its role in the theme, or a fixed RGB colour.
#[derive(Debug, Clone, Copy, PartialEq, Eq, Structural)]
pub enum Paint {
    /// A covered square.
    Covered,
    /// An open square.
    Open,
    /// The red wash behind a wrong flag.
    WrongWash,
    Accent,
    Ink,
    Muted,
    Rgb(u32),
}

/// A square's mark, its background and the colour of its mark.
#[derive(Debug, Clone, Copy, PartialEq, Eq, Structural)]
pub struct CellLook {
    pub mark: CellMark,
    pub fill: Paint,
    pub color: Paint,
}

/// The colour of each number.
pub open spec fn number_paint(adj: u8) -> Paint {
    if adj == 1 {
        Paint::Accent
    } else if adj == 2 {
        Paint::Rgb(0x22c55e)
    } else if adj == 3 {
        Paint::Rgb(0xef4444)
    } else if adj == 4 {
        Paint::Rgb(0x3b82f6)
    } else if adj == 5 {
        Paint::Rgb(0xb45309)
    } else if adj == 6 {
        Paint::Rgb(0x0d9488)
    } else if adj == 7 {
        Paint::Ink
    } else {
        Paint::Muted
    }
}

/// How a square looks: a wrong flag after a loss shows a red cross; a flag
/// the accent flag; a covered square nothing; a mine a bomb, on red when it
/// blew up; an open square its number, if any, in the number's colour.
pub open spec fn look_of(cell: Cell, over: bool, won: bool) -> CellLook {
    if over && !won && cell.flagged && !cell.mine {
        CellLook {
            mark: CellMark::Icon(SweepIcon::X),
            fill: Paint::WrongWash,
            color: Paint::Rgb(0xef4444),
        }
    } else if cell.flagged && !cell.revealed {
        CellLook { mark: CellMark::Icon(SweepIcon::Flag), fill: Paint::Covered, color: Paint::Accent }
    } else if !cell.revealed {
        CellLook { mark: CellMark::Blank, fill: Paint::Covered, color: Paint::Ink }
    } else if cell.mine {
        CellLook {
            mark: CellMark::Icon(SweepIcon::Bomb),
            fill: if cell.exploded {
                Paint::Rgb(0xb91c1c)
            } else {
                Paint::Open
            },
            color: if cell.exploded {
                Paint::Rgb(0xfff7ed)
            } else {
                Paint::Ink
            },
        }
    } else {
        CellLook {
            mark: if cell.adj == 0 {
                CellMark::Blank
            } else {
                CellMark::Digit(cell.adj)
            },
            fill: Paint::Open,
            color: number_paint(cell.adj),
        }
    }
}

/// The look of a square.
pub fn cell_look(cell: &Cell, over: bool, won: bool) -> (r: CellLook)
    ensures
        r == look_of(*cell, over, won),
{
    if over && !won && cell.flagged && !cell.mine {
        return CellLook {
            mark: CellMark::Icon(SweepIcon::X),
            fill: Paint::WrongWash,
            color: Paint::Rgb(0xef4444),
        };
    }
    if cell.flagged && !cell.revealed {
        return CellLook {
            mark: CellMark::Icon(SweepIcon::Flag),
            fill: Paint::Covered,
            color: Paint::Accent,
        };
    }
    if !cell.revealed {
        return CellLook { mark: CellMark::Blank, fill: Paint::Covered, color: Paint::Ink };
    }
    if cell.mine {
        return CellLook {
            mark: CellMark::Icon(SweepIcon::Bomb),
            fill: if cell.exploded {
                Paint::Rgb(0xb91c1c)
            } else {
                Paint::Open
            },
            color: if cell.exploded {
                Paint::Rgb(0xfff7ed)
            } else {
                Paint::Ink
            },
        };
    }
    let color = match cell.adj {
        1 => Paint::Accent,
        2 => Paint::Rgb(0x22c55e),
        3 => Paint::Rgb(0xef4444),
        4 => Paint::Rgb(0x3b82f6),
        5 => Paint::Rgb(0xb45309),
        6 => Paint::Rgb(0x0d9488),
        7 => Paint::Ink,
        _ => Paint::Muted,
    };
    CellLook {
        mark: if cell.adj == 0 {
            CellMark::Blank
        } else {
            CellMark::Digit(cell.adj)
        },
        fill: Paint::Open,
        color,
    }
}

/// Law: what a square shows. A revealed mine always shows the bomb, on a red
/// square when it is the one that went off; a covered square is blank or
/// flagged; after a loss a flag on a safe cell shows a cross; an open safe
/// cell shows its number, or nothing when no mine touches it. Its spoken
/// state names the same things.
pub proof fn lemma_look_shows_state(cell: Cell, over: bool, won: bool)
    ensures
        cell.revealed && cell.mine ==> look_of(cell, over, won).mark == CellMark::Icon(SweepIcon::Bomb)
            && look_of(cell, over, won).fill == (if cell.exploded {
            Paint::Rgb(0xb91c1c)
        } else {
            Paint::Open
        }),
        cell.revealed && cell.mine ==> state_text(cell, over, won) == Some(
            if cell.exploded {
                "exploded mine"@
            } else {
                "mine"@
            },
        ),
        !cell.revealed && !cell.flagged ==> state_text(cell, over, won) == Some("covered"@),
        !cell.revealed && cell.flagged && !(over && !won && !cell.mine) ==> state_text(cell, over, won)
            == Some("flagged"@),
        over && !won && cell.flagged && !cell.mine ==> state_text(cell, over, won) == Some(
            "wrong flag"@,
        ),
        cell.revealed && !cell.mine && !(over && !won && cell.flagged) ==> state_text(cell, over, won)
            == if cell.adj == 0 {
            Some("empty"@)
        } else if cell.adj == 1 {
            Some("1 adjacent mine"@)
        } else {
            None
        },
        !cell.revealed && !cell.flagged ==> look_of(cell, over, won).mark == CellMark::Blank
            && look_of(cell, over, won).fill == Paint::Covered,
        !cell.revealed && cell.flagged && !(over && !won && !cell.mine) ==> look_of(
            cell,
            over,
            won,
        ).mark == CellMark::Icon(SweepIcon::Flag),
        over && !won && cell.flagged && !cell.mine ==> look_of(cell, over, won).mark == CellMark::Icon(
            SweepIcon::X,
        ),
        cell.revealed && !cell.mine && !(over && !won && cell.flagged) ==> look_of(
            cell,
            over,
            won,
        ).fill == Paint::Open && look_of(cell, over, won).mark == (if cell.adj == 0 {
            CellMark::Blank
        } else {
            CellMark::Digit(cell.adj)
        }),
{
}

/// The face in the header: grinning after a win, frowning after a loss,
/// else smiling.
pub fn face(over: bool, won: bool) -> (r: SweepIcon)
    ensures
        r == (if won {
            SweepIcon::Grin
        } else if over {
            SweepIcon::Frown
        } else {
            SweepIcon::Smile
        }),
{
    if won {
        SweepIcon::Grin
    } else if over {
        SweepIcon::Frown
    } else {
        SweepIcon::Smile
    }
}

} // verus!
