//! Minesweeper rules.
//!
//! First-click safety, flood-fill through an explicit queue, and a win when
//! every non-mine cell is revealed (not when the flags match).
use vstd::prelude::*;
use crate::text::{decimal, zero_pad, push_decimal, push_padded, read_decimal, lemma_decimal_reads_back, lemma_zero_pad_reads_same};
use crate::counting::{
    count_below,
    seq_count,
    lemma_count_ext,
    lemma_count_complement,
    lemma_count_zero,
    lemma_count_bound,
    lemma_count_mono,
    lemma_count_split,
    lemma_count_single,
    lemma_count_flip,
    lemma_seq_count,
    lemma_seq_len_count,
};

verus! {

/// The three classic boards.
#[derive(Debug, Clone, Copy, PartialEq, Eq, Hash, Structural)]
pub enum Difficulty {
    Beginner,
    Intermediate,
    Expert,
}

/// Width, height and mine count of each board.
pub open spec fn difficulty_spec(d: Difficulty) -> (u8, u8, u16) {
    match d {
        Difficulty::Beginner => (9, 9, 10),
        Difficulty::Intermediate => (16, 16, 40),
        Difficulty::Expert => (30, 16, 99),
    }
}

/// Identifier of each board.
pub open spec fn difficulty_id(d: Difficulty) -> Seq<char> {
    match d {
        Difficulty::Beginner => "beginner"@,
        Difficulty::Intermediate => "intermediate"@,
        Difficulty::Expert => "expert"@,
    }
}

/// The board an identifier names; anything unknown is the beginner board.
pub open spec fn difficulty_from_id(id: Seq<char>) -> Difficulty {
    if id == "intermediate"@ {
        Difficulty::Intermediate
    } else if id == "expert"@ {
        Difficulty::Expert
    } else {
        Difficulty::Beginner
    }
}

/// Law: reading back an identifier gives the board it came from.
pub proof fn lemma_parse_id(d: Difficulty)
    ensures
        difficulty_from_id(difficulty_id(d)) == d,
{
    reveal_strlit("beginner");
    reveal_strlit("intermediate");
    reveal_strlit("expert");
    assert("beginner"@ != "intermediate"@) by {
        assert("beginner"@[0] != "intermediate"@[0]);
    }
    assert("beginner"@ != "expert"@) by {
        assert("beginner"@[0] != "expert"@[0]);
    }
    assert("intermediate"@ != "expert"@) by {
        assert("intermediate"@[0] != "expert"@[0]);
    }
}

impl Difficulty {
    /// Stable identifier, as stored in the settings file.
    pub fn id(self) -> (r: &'static str)
        ensures
            r@ == difficulty_id(self),
    {
        match self {
            Difficulty::Beginner => "beginner",
            Difficulty::Intermediate => "intermediate",
            Difficulty::Expert => "expert",
        }
    }

    /// Short label for buttons.
    pub fn label(self) -> (r: &'static str)
        ensures
            r@ == (match self {
                Difficulty::Beginner => "Beginner"@,
                Difficulty::Intermediate => "Inter."@,
                Difficulty::Expert => "Expert"@,
            }),
    {
        match self {
            Difficulty::Beginner => "Beginner",
            Difficulty::Intermediate => "Inter.",
            Difficulty::Expert => "Expert",
        }
    }

    /// `(width, height, mines)`.
    pub fn spec(self) -> (r: (u8, u8, u16))
        ensures
            r == difficulty_spec(self),
    {
        match self {
            Difficulty::Beginner => (9, 9, 10),
            Difficulty::Intermediate => (16, 16, 40),
            Difficulty::Expert => (30, 16, 99),
        }
    }

    /// Reads an identifier back; anything unknown is the beginner board.
    pub fn parse(id: &str) -> (r: Self)
        ensures
            r == difficulty_from_id(id@),
    {
        if crate::text::str_eq(id, "intermediate") {
            Difficulty::Intermediate
        } else if crate::text::str_eq(id, "expert") {
            Difficulty::Expert
        } else {
            Difficulty::Beginner
        }
    }

    /// All boards, smallest first.
    pub fn all() -> (r: [Self; 3])
        ensures
            r@ == seq![Difficulty::Beginner, Difficulty::Intermediate, Difficulty::Expert],
    {
        [Difficulty::Beginner, Difficulty::Intermediate, Difficulty::Expert]
    }
}

/// One square of the board.
#[derive(Debug, Clone, Copy, PartialEq, Eq, Structural)]
pub struct Cell {
    pub x: u8,
    pub y: u8,
    pub mine: bool,
    pub adj: u8,
    pub revealed: bool,
    pub flagged: bool,
    pub exploded: bool,
}

/// A covered, empty square at `(x, y)`.
pub open spec fn fresh_cell(c: Cell, x: int, y: int) -> bool {
    &&& c.x == x
    &&& c.y == y
    &&& !c.mine
    &&& c.adj == 0
    &&& !c.revealed
    &&& !c.flagged
    &&& !c.exploded
}

/// A game in progress: the board, its state and the keyboard cursor.
#[derive(Debug, Clone)]
pub struct Game {
    pub difficulty: Difficulty,
    pub width: u8,
    pub height: u8,
    pub mines: u16,
    pub cells: Vec<Cell>,
    pub placed: bool,
    pub over: bool,
    pub won: bool,
    pub flags: i16,
    pub revealed_count: u16,
    pub cursor_x: u8,
    pub cursor_y: u8,
}

impl Game {
    /// Number of cells on the board.
    pub open spec fn size(&self) -> int {
        self.cells@.len() as int
    }

    /// The cells lie in row-major order and each knows its coordinates.
    pub open spec fn wf(&self) -> bool {
        &&& self.cells@.len() == self.width as int * self.height as int
        &&& forall|i: int|
            0 <= i < self.cells@.len() ==> {
                &&& (#[trigger] self.cells@[i]).x < self.width
                &&& self.cells@[i].y < self.height
                &&& self.cells@[i].y as int * self.width as int + self.cells@[i].x as int == i
            }
    }

    /// While the game runs, the revealed counter counts the revealed cells.
    pub open spec fn counted(&self) -> bool {
        !self.over ==> self.revealed_count as int == count_below(
            |k: int| self.cells@[k].revealed,
            self.size(),
        )
    }

    /// Index of the cell at `(x, y)`, when it is on the board.
    pub open spec fn index_at(&self, x: int, y: int) -> Option<usize> {
        if 0 <= x < self.width && 0 <= y < self.height {
            Some((y * self.width + x) as usize)
        } else {
            None
        }
    }

    /// Cell `j` touches the square `(x, y)` without being it.
    pub open spec fn near(&self, x: int, y: int, j: int) -> bool {
        &&& 0 <= j < self.cells@.len()
        &&& -1 <= self.cells@[j].x - x <= 1
        &&& -1 <= self.cells@[j].y - y <= 1
        &&& !(self.cells@[j].x == x && self.cells@[j].y == y)
    }

    /// Cells `i` and `j` are neighbours.
    pub open spec fn adjacent(&self, i: int, j: int) -> bool {
        self.near(self.cells@[i].x as int, self.cells@[i].y as int, j)
    }

    /// The number of mines around cell `i`.
    pub open spec fn mines_around(&self, i: int) -> nat {
        count_below(|j: int| self.adjacent(i, j) && self.cells@[j].mine, self.size())
    }

    /// The number of mines on the board.
    pub open spec fn mine_count(&self) -> nat {
        count_below(|j: int| self.cells@[j].mine, self.size())
    }

    /// What the player sees agrees with the hidden mines: the mine counter
    /// counts them, every flag sits on a mine, no revealed cell is a mine, and
    /// every safe cell's number counts the mines around it.
    pub open spec fn consistent(&self) -> bool {
        &&& self.wf()
        &&& self.mines as int == self.mine_count()
        &&& forall|k: int|
            0 <= k < self.size() ==> {
                &&& ((#[trigger] self.cells@[k]).flagged ==> self.cells@[k].mine)
                &&& (self.cells@[k].revealed ==> !self.cells@[k].mine)
                &&& (!self.cells@[k].mine ==> self.cells@[k].adj as int == self.mines_around(k))
            }
    }
}

/// Entries strictly increase.
pub open spec fn increasing(s: Seq<usize>) -> bool {
    forall|a: int, b: int| 0 <= a < b < s.len() ==> s[a] < s[b]
}

/// In a well-formed game, the index `y * width + x` names the cell at `(x, y)`.
pub proof fn lemma_cell_at(g: &Game, x: int, y: int)
    requires
        g.wf(),
        0 <= x < g.width,
        0 <= y < g.height,
    ensures
        0 <= y * g.width + x < g.size(),
        g.cells@[y * g.width + x].x == x,
        g.cells@[y * g.width + x].y == y,
{
    let w = g.width as int;
    let h = g.height as int;
    let i = y * w + x;
    assert(0 <= i < w * h) by (nonlinear_arith)
        requires
            0 <= x < w,
            0 <= y < h,
            i == y * w + x,
    ;
    let c = g.cells@[i];
    vstd::arithmetic::div_mod::lemma_fundamental_div_mod_converse(i, w, y, x);
    vstd::arithmetic::div_mod::lemma_fundamental_div_mod_converse(i, w, c.y as int, c.x as int);
}

/// Cells are ordered row by row: an earlier row, or an earlier column in the
/// same row, means a smaller index.
pub proof fn lemma_index_order(g: &Game, a: int, b: int)
    requires
        g.wf(),
        0 <= a < g.size(),
        0 <= b < g.size(),
        g.cells@[a].y < g.cells@[b].y || (g.cells@[a].y == g.cells@[b].y && g.cells@[a].x
            < g.cells@[b].x),
    ensures
        a < b,
{
    let w = g.width as int;
    let ya = g.cells@[a].y as int;
    let xa = g.cells@[a].x as int;
    let yb = g.cells@[b].y as int;
    let xb = g.cells@[b].x as int;
    assert(ya * w + xa < yb * w + xb) by (nonlinear_arith)
        requires
            0 <= xa < w,
            0 <= xb < w,
            ya < yb || (ya == yb && xa < xb),
    ;
}

/// A well-formed board has at most 255 * 255 cells.
pub proof fn lemma_size_bound(g: &Game)
    requires
        g.wf(),
    ensures
        g.size() <= 65025,
{
    let w = g.width as int;
    let h = g.height as int;
    assert(w * h <= 65025) by (nonlinear_arith)
        requires
            0 <= w <= 255,
            0 <= h <= 255,
    ;
}

/// Two cells with the same coordinates are the same cell.
pub proof fn lemma_coords_unique(g: &Game, a: int, b: int)
    requires
        g.wf(),
        0 <= a < g.size(),
        0 <= b < g.size(),
        g.cells@[a].x == g.cells@[b].x,
        g.cells@[a].y == g.cells@[b].y,
    ensures
        a == b,
{
}

/// A new board for `d`: its size and mine count, every square covered and
/// empty, no mines laid, no flag, nothing revealed, and the cursor in the
/// top-left corner.
pub open spec fn fresh_game(g: Game, d: Difficulty) -> bool {
    &&& g.wf()
    &&& g.counted()
    &&& g.difficulty == d
    &&& (g.width, g.height, g.mines) == difficulty_spec(d)
    &&& forall|i: int|
        0 <= i < g.size() ==> fresh_cell(
            #[trigger] g.cells@[i],
            g.cells@[i].x as int,
            g.cells@[i].y as int,
        )
    &&& !g.placed
    &&& !g.over
    &&& !g.won
    &&& g.flags == 0
    &&& g.revealed_count == 0
    &&& g.cursor_x == 0
    &&& g.cursor_y == 0
}

impl Game {
    /// A fresh, unplaced board for the given difficulty.
    pub fn new(difficulty: Difficulty) -> (g: Self)
        ensures
            fresh_game(g, difficulty),
            playable(g),
    {
        let (width, height, mines) = difficulty.spec();
        assert(width <= 30 && height <= 16);
        assert(width as int * height as int <= 480) by (nonlinear_arith)
            requires
                width <= 30,
                height <= 16,
        ;
        let mut cells: Vec<Cell> = Vec::with_capacity((width as usize) * (height as usize));
        let mut y: u8 = 0;
        while y < height
            invariant
                0 <= y <= height,
                cells@.len() == y as int * width as int,
                forall|i: int|
                    0 <= i < cells@.len() ==> {
                        &&& (#[trigger] cells@[i]).x < width
                        &&& cells@[i].y < y
                        &&& cells@[i].y as int * width as int + cells@[i].x as int == i
                        &&& fresh_cell(cells@[i], cells@[i].x as int, cells@[i].y as int)
                    },
            decreases height - y,
        {
            let mut x: u8 = 0;
            while x < width
                invariant
                    0 <= x <= width,
                    y < height,
                    cells@.len() == y as int * width as int + x as int,
                    forall|i: int|
                        0 <= i < cells@.len() ==> {
                            &&& (#[trigger] cells@[i]).x < width
                            &&& cells@[i].y <= y
                            &&& cells@[i].y as int * width as int + cells@[i].x as int == i
                            &&& (cells@[i].y == y ==> cells@[i].x < x)
                            &&& fresh_cell(cells@[i], cells@[i].x as int, cells@[i].y as int)
                        },
                decreases width - x,
            {
                cells.push(
                    Cell {
                        x,
                        y,
                        mine: false,
                        adj: 0,
                        revealed: false,
                        flagged: false,
                        exploded: false,
                    },
                );
                x = x + 1;
            }
            assert(cells@.len() == (y as int + 1) * width as int) by (nonlinear_arith)
                requires
                    cells@.len() == y as int * width as int + width as int,
            ;
            y = y + 1;
        }
        assert(cells@.len() == width as int * height as int) by (nonlinear_arith)
            requires
                cells@.len() == height as int * width as int,
        ;
        let g = Game {
            difficulty,
            width,
            height,
            mines,
            cells,
            placed: false,
            over: false,
            won: false,
            flags: 0,
            revealed_count: 0,
            cursor_x: 0,
            cursor_y: 0,
        };
        proof {
            lemma_count_ext(|k: int| g.cells@[k].revealed, |k: int| false, g.size());
            lemma_count_zero(g.size());
            assert(g.mines as int <= g.size());
        }
        g
    }

    /// Mines left to find: the mine count minus the flags placed.
    pub fn remaining(&self) -> (r: i16)
        requires
            i16::MIN <= (self.mines as i16) - self.flags <= i16::MAX,
        ensures
            r == (self.mines as i16) - self.flags,
    {
        self.mines as i16 - self.flags
    }

    /// Index of the cell at `(x, y)`, or `None` off the board.
    pub fn index(&self, x: i32, y: i32) -> (r: Option<usize>)
        ensures
            r == self.index_at(x as int, y as int),
    {
        if x < 0 || y < 0 || x >= self.width as i32 || y >= self.height as i32 {
            return None;
        }
        proof {
            assert(0 <= y * self.width + x <= 255 * 255 + 255) by (nonlinear_arith)
                requires
                    0 <= x < self.width,
                    0 <= y < self.height,
                    self.width <= 255,
            ;
        }
        Some(y as usize * self.width as usize + x as usize)
    }

    /// The cell at `(x, y)`, or `None` off the board.
    pub fn cell(&self, x: i32, y: i32) -> (r: Option<&Cell>)
        requires
            self.wf(),
        ensures
            r == (match self.index_at(x as int, y as int) {
                Some(i) => Some(&self.cells@[i as int]),
                None => None,
            }),
    {
        match self.index(x, y) {
            Some(i) => {
                proof {
                    lemma_cell_at(self, x as int, y as int);
                }
                Some(&self.cells[i])
            },
            None => None,
        }
    }
}


/// `v` limited to `lo..=hi`.
pub open spec fn clamp_int(v: int, lo: int, hi: int) -> int {
    if v < lo {
        lo
    } else if v > hi {
        hi
    } else {
        v
    }
}

/// Law: limiting a value keeps it in range, leaves a value in range alone,
/// and otherwise gives the nearer end; so a cursor move never leaves the
/// board and moves by exactly the step while it stays on it.
pub proof fn lemma_clamp_in_range(v: int, lo: int, hi: int)
    requires
        lo <= hi,
    ensures
        lo <= clamp_int(v, lo, hi) <= hi,
        lo <= v <= hi ==> clamp_int(v, lo, hi) == v,
        v < lo ==> clamp_int(v, lo, hi) == lo,
        v > hi ==> clamp_int(v, lo, hi) == hi,
{
}

impl Game {
    /// Mutable access to the cell at `(x, y)`, or `None` off the board.
    pub fn cell_mut(&mut self, x: i32, y: i32) -> (r: Option<&mut Cell>)
        requires
            old(self).wf(),
        ensures
            old(self).index_at(x as int, y as int) is None ==> r is None && *final(self) == *old(
                self,
            ),
            old(self).index_at(x as int, y as int) matches Some(i) ==> r matches Some(c) && *c
                == old(self).cells@[i as int] && final(self).cells@ == old(self).cells@.update(
                i as int,
                *final(c),
            ) && final(self).width == old(self).width && final(self).height == old(self).height
                && final(self).mines == old(self).mines && final(self).difficulty == old(
                self,
            ).difficulty && final(self).placed == old(self).placed && final(self).over == old(
                self,
            ).over && final(self).won == old(self).won && final(self).flags == old(self).flags
                && final(self).revealed_count == old(self).revealed_count && final(self).cursor_x
                == old(self).cursor_x && final(self).cursor_y == old(self).cursor_y,
    {
        let i = self.index(x, y)?;
        proof {
            lemma_cell_at(self, x as int, y as int);
        }
        Some(&mut self.cells[i])
    }

    /// Moves the cursor by `(dx, dy)`, stopping at the edges.
    pub fn move_cursor(&mut self, dx: i32, dy: i32)
        requires
            old(self).width >= 1,
            old(self).height >= 1,
            i32::MIN <= old(self).cursor_x + dx <= i32::MAX,
            i32::MIN <= old(self).cursor_y + dy <= i32::MAX,
        ensures
            final(self).cursor_x == clamp_int(
                old(self).cursor_x + dx,
                0,
                old(self).width - 1,
            ),
            final(self).cursor_y == clamp_int(
                old(self).cursor_y + dy,
                0,
                old(self).height - 1,
            ),
            final(self).cells == old(self).cells,
            final(self).width == old(self).width,
            final(self).height == old(self).height,
            final(self).mines == old(self).mines,
            final(self).difficulty == old(self).difficulty,
            final(self).placed == old(self).placed,
            final(self).over == old(self).over,
            final(self).won == old(self).won,
            final(self).flags == old(self).flags,
            final(self).revealed_count == old(self).revealed_count,
    {
        let x = clamp_i32(self.cursor_x as i32 + dx, 0, self.width as i32 - 1);
        let y = clamp_i32(self.cursor_y as i32 + dy, 0, self.height as i32 - 1);
        self.cursor_x = x as u8;
        self.cursor_y = y as u8;
    }

    /// Puts the cursor at `(x, y)`, limited to the board.
    pub fn set_cursor(&mut self, x: u8, y: u8)
        ensures
            final(self).cursor_x == (if x as int <= clamp_int(old(self).width - 1, 0, 255) {
                x as int
            } else {
                clamp_int(old(self).width - 1, 0, 255)
            }),
            final(self).cursor_y == (if y as int <= clamp_int(old(self).height - 1, 0, 255) {
                y as int
            } else {
                clamp_int(old(self).height - 1, 0, 255)
            }),
            final(self).cells == old(self).cells,
            final(self).width == old(self).width,
            final(self).height == old(self).height,
            final(self).mines == old(self).mines,
            final(self).difficulty == old(self).difficulty,
            final(self).placed == old(self).placed,
            final(self).over == old(self).over,
            final(self).won == old(self).won,
            final(self).flags == old(self).flags,
            final(self).revealed_count == old(self).revealed_count,
    {
        self.cursor_x = x.min(self.width.saturating_sub(1));
        self.cursor_y = y.min(self.height.saturating_sub(1));
    }
}

/// `v` limited to `lo..=hi`, for `lo <= hi`.
fn clamp_i32(v: i32, lo: i32, hi: i32) -> (r: i32)
    requires
        lo <= hi,
    ensures
        r == clamp_int(v as int, lo as int, hi as int),
{
    if v < lo {
        lo
    } else if v > hi {
        hi
    } else {
        v
    }
}


/// Position of cell `j` among the nine squares around `(x, y)`, row by row.
spec fn nb_rank(g: &Game, x: int, y: int, j: int) -> int {
    (g.cells@[j].y - y + 1) * 3 + (g.cells@[j].x - x + 1)
}

impl Game {
    /// Indices of the cells around `(x, y)`, in increasing order.
    pub fn neighbor_indices(&self, x: u8, y: u8) -> (out: Vec<usize>)
        requires
            self.wf(),
        ensures
            increasing(out@),
            out@.len() <= 8,
            forall|k: int| 0 <= k < out@.len() ==> (#[trigger] out@[k] as int) < self.size(),
            forall|j: int|
                0 <= j < self.size() ==> (out@.contains(j as usize) <==> #[trigger] self.near(
                    x as int,
                    y as int,
                    j,
                )),
    {
        proof {
            lemma_size_bound(self);
        }
        let mut out: Vec<usize> = Vec::with_capacity(8);
        let mut k: u32 = 0;
        while k < 9
            invariant
                self.wf(),
                0 <= k <= 9,
                increasing(out@),
                self.size() <= 65025,
                out@.len() <= k,
                k > 4 ==> out@.len() < k,
                forall|t: int| 0 <= t < out@.len() ==> (#[trigger] out@[t] as int) < self.size(),
                forall|t: int|
                    0 <= t < out@.len() ==> self.near(x as int, y as int, #[trigger] out@[t] as int),
                forall|t: int|
                    0 <= t < out@.len() ==> nb_rank(self, x as int, y as int, #[trigger] out@[t] as int)
                        < k,
                forall|j: int|
                    0 <= j < self.size() ==> (out@.contains(j as usize) <==> (#[trigger] self.near(
                        x as int,
                        y as int,
                        j,
                    ) && nb_rank(self, x as int, y as int, j) < k)),
            decreases 9 - k,
        {
            let dx: i32 = (k % 3) as i32 - 1;
            let dy: i32 = (k / 3) as i32 - 1;
            let ghost old_out = out@;
            assert(k == (dy + 1) * 3 + (dx + 1));
            if k != 4 {
                let found = self.index(x as i32 + dx, y as i32 + dy);
                if let Some(i) = found {
                    proof {
                        lemma_cell_at(self, x + dx, y + dy);
                        assert(found == self.index_at(x + dx, y + dy));
                        assert(0 <= x + dx < self.width);
                        assert(0 <= (y + dy) * self.width + (x + dx) < self.size());
                        assert((y + dy) * self.width + (x + dx) <= 255 * 255 + 255) by (
                        nonlinear_arith)
                            requires
                                0 <= x + dx < self.width,
                                0 <= y + dy < self.height,
                                self.width <= 255,
                                self.height <= 255,
                        ;
                        assert(i as int == (y + dy) * self.width + (x + dx));
                        assert(self.cells@[i as int].x == x + dx);
                        assert(self.cells@[i as int].y == y + dy);
                        assert forall|t: int| 0 <= t < old_out.len() implies old_out[t] < i by {
                            let e = old_out[t] as int;
                            assert(nb_rank(self, x as int, y as int, e) < k);
                            assert(self.near(x as int, y as int, e));
                            assert(nb_rank(self, x as int, y as int, i as int) == k);
                            lemma_index_order(self, e, i as int);
                        }
                    }
                    out.push(i);
                    proof {
                        assert forall|j: int| 0 <= j < self.size() implies (out@.contains(
                            j as usize,
                        ) <==> (#[trigger] self.near(x as int, y as int, j) && nb_rank(
                            self,
                            x as int,
                            y as int,
                            j,
                        ) < k + 1)) by {
                            if self.near(x as int, y as int, j) && nb_rank(
                                self,
                                x as int,
                                y as int,
                                j,
                            ) == k {
                                let cj = self.cells@[j];
                                assert(cj.y - y + 1 == dy + 1 && cj.x - x + 1 == dx + 1) by {
                                    assert((cj.y - y + 1) * 3 + (cj.x - x + 1) == (dy + 1) * 3 + (
                                    dx + 1));
                                }
                                lemma_coords_unique(self, j, i as int);
                                assert(out@[out@.len() - 1] == i);
                            }
                            if out@.contains(j as usize) {
                                let t = choose|t: int|
                                    0 <= t < out@.len() && out@[t] == j as usize;
                                if t < old_out.len() {
                                    assert(old_out[t] == j as usize);
                                    assert(old_out.contains(j as usize));
                                }
                            }
                            if old_out.contains(j as usize) {
                                let t = choose|t: int|
                                    0 <= t < old_out.len() && old_out[t] == j as usize;
                                assert(out@[t] == j as usize);
                            }
                        }
                    }
                } else {
                    proof {
                        assert forall|j: int| 0 <= j < self.size() implies (out@.contains(
                            j as usize,
                        ) <==> (#[trigger] self.near(x as int, y as int, j) && nb_rank(
                            self,
                            x as int,
                            y as int,
                            j,
                        ) < k + 1)) by {
                            if self.near(x as int, y as int, j) && nb_rank(
                                self,
                                x as int,
                                y as int,
                                j,
                            ) == k {
                                assert(self.index_at(x + dx, y + dy) is Some);
                            }
                        }
                    }
                }
            } else {
                proof {
                    assert forall|j: int| 0 <= j < self.size() implies (out@.contains(
                        j as usize,
                    ) <==> (#[trigger] self.near(x as int, y as int, j) && nb_rank(
                        self,
                        x as int,
                        y as int,
                        j,
                    ) < k + 1)) by {}
                }
            }
            k = k + 1;
        }
        out
    }
}


/// Source of the random choices of mine placement.
pub trait Rand: Sized {
    /// The index the generator gives next when asked for one below `bound`.
    spec fn next_spec(&self, bound: usize) -> usize;

    /// The generator once it has given that index.
    spec fn advanced(&self, bound: usize) -> Self;

    /// A position in `0..bound` (callers also accept any other value: it is
    /// clamped).
    fn next_index(&mut self, bound: usize) -> (r: usize)
        ensures
            r == old(self).next_spec(bound),
            *final(self) == old(self).advanced(bound),
    ;
}

/// One step of the generator: multiply by 1103515245 and add 12345, both
/// modulo 2^32.
pub open spec fn lcg_step(s: u32) -> u32 {
    ((((s as int * 1_103_515_245) % 0x1_0000_0000) + 12_345) % 0x1_0000_0000) as u32
}

/// Linear congruential generator, for repeatable boards.
pub struct Lcg {
    i: u32,
}

impl Lcg {
    /// The generator's current state.
    pub closed spec fn state(&self) -> u32 {
        self.i
    }

    /// A generator started at `seed`.
    pub fn new(seed: u32) -> (r: Self)
        ensures
            r.state() == seed,
    {
        Lcg { i: seed }
    }
}

impl Rand for Lcg {
    closed spec fn next_spec(&self, bound: usize) -> usize {
        ((lcg_step(self.i) % 233_280) as int * bound as int / 233_280) as usize
    }

    closed spec fn advanced(&self, bound: usize) -> Self {
        Lcg { i: lcg_step(self.i) }
    }

    /// Steps the state to `state * 1103515245 + 12345` (wrapping) and scales
    /// `state % 233280` from `0..233280` down to `0..bound`.
    fn next_index(&mut self, bound: usize) -> (r: usize)
        ensures
            final(self).state() == lcg_step(old(self).state()),
            r as int == (final(self).state() % 233_280) as int * bound as int / 233_280,
            bound > 0 ==> r < bound,
    {
        let m = self.i.wrapping_mul(1_103_515_245);
        self.i = m.wrapping_add(12_345);
        let k: u128 = (self.i % 233_280) as u128;
        assert(k * (bound as u128) <= 233_279 * 0xffff_ffff_ffff_ffffu128) by (nonlinear_arith)
            requires
                k <= 233_279,
                bound <= 0xffff_ffff_ffff_ffffu128,
        ;
        let scaled: u128 = k * (bound as u128);
        let r: u128 = scaled / 233_280;
        proof {
            assert(scaled <= 233_279 * bound as int) by (nonlinear_arith)
                requires
                    k <= 233_279,
                    scaled == k * bound as int,
            ;
            assert(r <= bound) by (nonlinear_arith)
                requires
                    scaled <= 233_279 * bound as int,
                    r == scaled / 233_280,
            ;
            assert(bound > 0 ==> r < bound) by (nonlinear_arith)
                requires
                    scaled <= 233_279 * bound as int,
                    r == scaled / 233_280,
            ;
        }
        r as usize
    }
}

/// Xorshift generator seeded from the clock, for play.
pub struct ThreadRng {
    s: u64,
}

impl ThreadRng {
    /// The generator's current state.
    pub closed spec fn state(&self) -> u64 {
        self.s
    }
}

/// One xorshift step: shift left 13, right 7, left 17, each xored in.
pub open spec fn xorshift(s: u64) -> u64 {
    let a = s ^ (s << 13u64);
    let b = a ^ (a >> 7u64);
    b ^ (b << 17u64)
}

/// Reads the system clock: nanoseconds since the Unix epoch, kept to their
/// low 64 bits, or `None` when the clock stands before the epoch.
#[verifier::external_body]
fn clock_nanos() -> Option<u64> {
    match std::time::SystemTime::now().duration_since(std::time::UNIX_EPOCH) {
        Ok(d) => Some(d.as_nanos() as u64),
        Err(_) => None,
    }
}

impl ThreadRng {
    /// A generator seeded from a clock reading in nanoseconds, or from a
    /// fixed constant when there is none; the lowest bit is set, so the
    /// state is never zero.
    pub fn from_clock(nanos: Option<u64>) -> (r: Self)
        ensures
            r.state() == (match nanos {
                Some(n) => n,
                None => 0x9e37_79b9_7f4a_7c15u64,
            }) | 1u64,
            r.state() % 2 == 1,
    {
        let seed: u64 = match nanos {
            Some(n) => n,
            None => 0x9e37_79b9_7f4a_7c15,
        };
        let s = seed | 1;
        assert(s % 2 == 1) by (bit_vector)
            requires
                s == seed | 1,
        ;
        ThreadRng { s }
    }
}

impl Default for ThreadRng {
    /// Seeds from the system clock; the state is odd, so never zero.
    fn default() -> (r: Self)
        ensures
            r.state() % 2 == 1,
    {
        ThreadRng::from_clock(clock_nanos())
    }
}

impl Rand for ThreadRng {
    closed spec fn next_spec(&self, bound: usize) -> usize {
        (xorshift(self.s) as int * bound as int / u64::MAX as int) as usize
    }

    closed spec fn advanced(&self, bound: usize) -> Self {
        ThreadRng { s: xorshift(self.s) }
    }

    /// Steps the xorshift state and scales it from `0..=u64::MAX` down to
    /// `0..=bound`.
    fn next_index(&mut self, bound: usize) -> (r: usize)
        ensures
            final(self).state() == xorshift(old(self).state()),
            r as int == final(self).state() as int * bound as int / u64::MAX as int,
            r <= bound,
    {
        let mut s = self.s;
        s = s ^ (s << 13u64);
        s = s ^ (s >> 7u64);
        s = s ^ (s << 17u64);
        self.s = s;
        assert((s as u128) * (bound as u128) <= 0xffff_ffff_ffff_ffffu128 * 0xffff_ffff_ffff_ffffu128) by (nonlinear_arith)
            requires
                s <= 0xffff_ffff_ffff_ffffu128,
                bound <= 0xffff_ffff_ffff_ffffu128,
        ;
        let scaled: u128 = (s as u128) * (bound as u128);
        let r: u128 = scaled / (u64::MAX as u128);
        proof {
            assert(r <= bound) by (nonlinear_arith)
                requires
                    s <= u64::MAX,
                    scaled == s * bound as int,
                    r == scaled / (u64::MAX as u128),
            ;
        }
        r as usize
    }
}

/// `b` is `a` with positions `i` and `j` exchanged.
spec fn swapped(a: Seq<usize>, b: Seq<usize>, i: int, j: int) -> bool {
    &&& b.len() == a.len()
    &&& b[i] == a[j]
    &&& b[j] == a[i]
    &&& forall|k: int| 0 <= k < a.len() && k != i && k != j ==> #[trigger] b[k] == a[k]
}

/// Exchanging two entries keeps the members and keeps them free of repeats.
proof fn lemma_swap_members(a: Seq<usize>, b: Seq<usize>, i: int, j: int)
    requires
        0 <= i < a.len(),
        0 <= j < a.len(),
        swapped(a, b, i, j),
    ensures
        forall|x: usize| #[trigger] b.contains(x) <==> a.contains(x),
        a.no_duplicates() ==> b.no_duplicates(),
{
    assert forall|x: usize| #[trigger] b.contains(x) <==> a.contains(x) by {
        if b.contains(x) {
            let k = choose|k: int| 0 <= k < b.len() && b[k] == x;
            if k == i {
                assert(a[j] == x);
            } else if k == j {
                assert(a[i] == x);
            } else {
                assert(a[k] == x);
            }
        }
        if a.contains(x) {
            let k = choose|k: int| 0 <= k < a.len() && a[k] == x;
            if k == i {
                assert(b[j] == x);
            } else if k == j {
                assert(b[i] == x);
            } else {
                assert(b[k] == x);
            }
        }
    }
    if a.no_duplicates() {
        assert forall|p: int, q: int| 0 <= p < b.len() && 0 <= q < b.len() && p != q implies b[p] != b[q] by {
            let pa = if p == i { j } else if p == j { i } else { p };
            let qa = if q == i { j } else if q == j { i } else { q };
            assert(b[p] == a[pa]);
            assert(b[q] == a[qa]);
        }
    }
}

/// The Fisher-Yates pass over the first `i` entries of `v`, from the last
/// down to the second: each position `k` is exchanged with the position the
/// generator gives below `k + 1` (clamped to `k`). Gives the entries and the
/// generator afterwards.
pub open spec fn shuffled<R: Rand>(v: Seq<usize>, rng: R, i: int) -> (Seq<usize>, R)
    decreases i,
{
    if i <= 1 {
        (v, rng)
    } else {
        let k = i - 1;
        let j0 = rng.next_spec((k + 1) as usize);
        let j = if (j0 as int) < k {
            j0 as int
        } else {
            k
        };
        shuffled(v.update(k, v[j]).update(j, v[k]), rng.advanced((k + 1) as usize), k)
    }
}

/// Fisher-Yates shuffle driven by `rng`: the result holds the same indices,
/// still without repeats, in the order the generator's draws make.
fn shuffle<R: Rand>(values: &mut Vec<usize>, rng: &mut R)
    ensures
        final(values)@.len() == old(values)@.len(),
        old(values)@.no_duplicates() ==> final(values)@.no_duplicates(),
        final(values)@.to_multiset() == old(values)@.to_multiset(),
        forall|x: usize| #[trigger] final(values)@.contains(x) <==> old(values)@.contains(x),
        (final(values)@, *final(rng)) == shuffled(old(values)@, *old(rng), old(values)@.len() as int),
{
    let mut i = values.len();
    while i > 1
        invariant
            0 <= i <= values@.len(),
            values@.len() == old(values)@.len(),
            old(values)@.no_duplicates() ==> values@.no_duplicates(),
            forall|x: usize| #[trigger] values@.contains(x) <==> old(values)@.contains(x),
            values@.to_multiset() == old(values)@.to_multiset(),
            shuffled(values@, *rng, i as int) == shuffled(
                old(values)@,
                *old(rng),
                old(values)@.len() as int,
            ),
        decreases i,
    {
        i = i - 1;
        let j = rng.next_index(i + 1);
        let j = if j < i {
            j
        } else {
            i
        };
        let a = values[i];
        let b = values[j];
        let ghost before = values@;
        values.set(i, b);
        values.set(j, a);
        proof {
            assert(swapped(before, values@, i as int, j as int));
            lemma_swap_members(before, values@, i as int, j as int);
            assert(values@ == before.update(i as int, before[j as int]).update(
                j as int,
                before[i as int],
            ));
            let mid = before.update(i as int, before[j as int]);
            vstd::seq_lib::to_multiset_update(before, i as int, before[j as int]);
            vstd::seq_lib::to_multiset_update(mid, j as int, before[i as int]);
            assert(mid[j as int] == before[j as int]);
            let m = before.to_multiset();
            let vi = before[i as int];
            let vj = before[j as int];
            vstd::seq_lib::to_multiset_contains(before, vi);
            assert(before.contains(vi)) by {
                assert(before[i as int] == vi);
            }
            assert forall|x: usize| #[trigger] values@.to_multiset().count(x) == m.count(x) by {
                broadcast use vstd::multiset::group_multiset_axioms;
            }
            assert(values@.to_multiset() =~= m);
        }
    }
}


/// Cell `k` is the square `(x, y)`.
pub open spec fn at_square(g: Game, x: int, y: int, k: int) -> bool {
    0 <= k < g.size() && g.cells@[k].x == x && g.cells@[k].y == y
}

/// Cell `k` is the square `(x, y)` or one of its neighbours.
pub open spec fn near_or_at(g: Game, x: int, y: int, k: int) -> bool {
    g.near(x, y, k) || at_square(g, x, y, k)
}

/// Where mines may go for a first click at `(x, y)`: away from the square
/// and its neighbours when enough such cells remain for all the mines, else
/// anywhere but the square itself.
pub open spec fn mine_allowed(g: Game, x: int, y: int, k: int) -> bool {
    if count_below(|j: int| !near_or_at(g, x, y, j), g.size()) >= g.mines {
        !near_or_at(g, x, y, k)
    } else {
        !at_square(g, x, y, k)
    }
}

/// The cells where mines may go, counted.
pub open spec fn mine_room(g: Game, x: int, y: int) -> nat {
    count_below(|k: int| mine_allowed(g, x, y, k), g.size())
}

/// The fields other than the cells, the mine count and `placed` agree.
pub open spec fn same_frame(a: Game, b: Game) -> bool {
    &&& a.difficulty == b.difficulty
    &&& a.width == b.width
    &&& a.height == b.height
    &&& a.over == b.over
    &&& a.won == b.won
    &&& a.flags == b.flags
    &&& a.revealed_count == b.revealed_count
    &&& a.cursor_x == b.cursor_x
    &&& a.cursor_y == b.cursor_y
}

/// Every mine cell shows zero and every other cell shows its mines around.
pub open spec fn numbers_right(g: Game) -> bool {
    forall|k: int|
        0 <= k < g.size() ==> if (#[trigger] g.cells@[k]).mine {
            g.cells@[k].adj == 0
        } else {
            g.cells@[k].adj as int == g.mines_around(k)
        }
}

/// `new` is `old` after placing mines for a first click at `(x, y)`: as many
/// new mines as asked for, or as fit, in allowed cells; the numbers
/// recomputed; the board marked placed.
pub open spec fn mines_placed(old: Game, x: int, y: int, new: Game) -> bool {
    let n = old.size();
    &&& new.wf()
    &&& new.size() == n
    &&& same_frame(old, new)
    &&& new.placed
    &&& new.mines as int == if old.mines <= mine_room(old, x, y) {
        old.mines as int
    } else {
        mine_room(old, x, y) as int
    }
    &&& exists|chosen: spec_fn(int) -> bool|
        {
            &&& count_below(chosen, n) == new.mines
            &&& forall|k: int| 0 <= k < n && #[trigger] chosen(k) ==> mine_allowed(old, x, y, k)
            &&& forall|k: int|
                0 <= k < n ==> (#[trigger] new.cells@[k]).mine == (old.cells@[k].mine || chosen(k))
        }
    &&& forall|k: int|
        0 <= k < n ==> {
            &&& (#[trigger] new.cells@[k]).x == old.cells@[k].x
            &&& new.cells@[k].y == old.cells@[k].y
            &&& new.cells@[k].revealed == old.cells@[k].revealed
            &&& new.cells@[k].flagged == old.cells@[k].flagged
            &&& new.cells@[k].exploded == old.cells@[k].exploded
        }
    &&& numbers_right(new)
}

/// The cells below `n` where mines may go for a first click at `(x, y)`,
/// in increasing order.
pub open spec fn allowed_cells(g: Game, x: int, y: int, n: int) -> Seq<usize>
    decreases n,
{
    if n <= 0 {
        Seq::empty()
    } else {
        let p = allowed_cells(g, x, y, n - 1);
        if mine_allowed(g, x, y, n - 1) {
            p.push((n - 1) as usize)
        } else {
            p
        }
    }
}

/// `allowed_cells` increases and holds exactly the allowed cells below `n`.
proof fn lemma_allowed_cells(g: Game, x: int, y: int, n: int)
    requires
        0 <= n <= usize::MAX,
    ensures
        increasing(allowed_cells(g, x, y, n)),
        forall|t: int|
            0 <= t < allowed_cells(g, x, y, n).len() ==> (#[trigger] allowed_cells(g, x, y, n)[t] as int) < n,
        forall|k: usize|
            #[trigger] allowed_cells(g, x, y, n).contains(k) <==> ((k as int) < n && mine_allowed(
                g,
                x,
                y,
                k as int,
            )),
    decreases n,
{
    if n > 0 {
        lemma_allowed_cells(g, x, y, n - 1);
        let p = allowed_cells(g, x, y, n - 1);
        let q = allowed_cells(g, x, y, n);
        assert forall|k: usize| #[trigger] q.contains(k) <==> ((k as int) < n && mine_allowed(g, x, y, k as int)) by {
            if mine_allowed(g, x, y, n - 1) {
                if q.contains(k) {
                    let t = choose|t: int| 0 <= t < q.len() && q[t] == k;
                    if t < p.len() {
                        assert(p[t] == k);
                        assert(p.contains(k));
                    }
                }
                if (k as int) < n - 1 && mine_allowed(g, x, y, k as int) {
                    assert(p.contains(k));
                    let t = choose|t: int| 0 <= t < p.len() && p[t] == k;
                    assert(q[t] == k);
                }
                if k as int == n - 1 {
                    assert(q[q.len() - 1] == k);
                }
            }
        }
    }
}

/// Two increasing sequences with the same members are equal.
proof fn lemma_increasing_same(a: Seq<usize>, b: Seq<usize>)
    requires
        increasing(a),
        increasing(b),
        forall|v: usize| #![trigger a.contains(v)] #![trigger b.contains(v)] a.contains(v) <==> b.contains(v),
    ensures
        a == b,
    decreases a.len() + b.len(),
{
    if a.len() == 0 {
        if b.len() > 0 {
            assert(b.contains(b[0]));
            assert(a.contains(b[0]));
        }
        assert(a =~= b);
    } else if b.len() == 0 {
        assert(a.contains(a[0]));
    } else {
        let la = a.last();
        let lb = b.last();
        assert(a.contains(la));
        assert(b.contains(lb));
        assert(a.contains(lb));
        assert(b.contains(la));
        let ia = choose|i: int| 0 <= i < a.len() && a[i] == lb;
        let ib = choose|i: int| 0 <= i < b.len() && b[i] == la;
        if ia < a.len() - 1 {
            assert(a[ia] < a[a.len() - 1]);
        }
        if ib < b.len() - 1 {
            assert(b[ib] < b[b.len() - 1]);
        }
        assert(la == lb);
        let a1 = a.drop_last();
        let b1 = b.drop_last();
        assert forall|v: usize| #![trigger a1.contains(v)] #![trigger b1.contains(v)] a1.contains(v) <==> b1.contains(v) by {
            if a1.contains(v) {
                let i = choose|i: int| 0 <= i < a1.len() && a1[i] == v;
                assert(a[i] == v);
                assert(b.contains(v));
                let j = choose|j: int| 0 <= j < b.len() && b[j] == v;
                if j == b.len() - 1 {
                    assert(a[i] < a[a.len() - 1]);
                }
                assert(b1[j] == v);
            }
            if b1.contains(v) {
                let j = choose|j: int| 0 <= j < b1.len() && b1[j] == v;
                assert(b[j] == v);
                assert(a.contains(v));
                let i = choose|i: int| 0 <= i < a.len() && a[i] == v;
                if i == a.len() - 1 {
                    assert(b[j] < b[b.len() - 1]);
                }
                assert(a1[i] == v);
            }
        }
        lemma_increasing_same(a1, b1);
        assert(a =~= a1.push(la));
        assert(b =~= b1.push(lb));
    }
}

/// An increasing list of the cells where mines may go is `allowed_cells`.
proof fn lemma_candidates_listed(g: Game, x: int, y: int, r: Seq<usize>)
    requires
        g.wf(),
        increasing(r),
        forall|t: int| 0 <= t < r.len() ==> (#[trigger] r[t] as int) < g.size(),
        forall|k: int| 0 <= k < g.size() ==> (r.contains(k as usize) <==> #[trigger] mine_allowed(g, x, y, k)),
    ensures
        r == allowed_cells(g, x, y, g.size()),
{
    lemma_size_bound(&g);
    lemma_allowed_cells(g, x, y, g.size());
    let a = allowed_cells(g, x, y, g.size());
    assert forall|v: usize| #[trigger] r.contains(v) <==> a.contains(v) by {
        if r.contains(v) {
            let t = choose|t: int| 0 <= t < r.len() && r[t] == v;
            assert(mine_allowed(g, x, y, v as int));
        }
        if a.contains(v) {
            assert(mine_allowed(g, x, y, v as int));
        }
    }
    lemma_increasing_same(r, a);
}

/// `new` holds the mines that the generator `r0` lays for a first click at
/// `(x, y)`: the allowed cells, in increasing order, are shuffled by `r0`,
/// and the first `new.mines` of them take mines; `r1` is the generator
/// afterwards.
pub open spec fn drawn_mines<R: Rand>(old: Game, x: int, y: int, new: Game, r0: R, r1: R) -> bool {
    let cand = allowed_cells(old, x, y, old.size());
    let drawn = shuffled(cand, r0, cand.len() as int);
    &&& r1 == drawn.1
    &&& forall|k: int|
        0 <= k < old.size() ==> (#[trigger] new.cells@[k]).mine == (old.cells@[k].mine
            || drawn.0.take(new.mines as int).contains(k as usize))
}

impl Game {
    /// Cells where mines may go for a first click at `(x, y)`, in increasing
    /// order.
    fn mine_candidates(&self, safe_x: u8, safe_y: u8) -> (r: Vec<usize>)
        requires
            self.wf(),
        ensures
            increasing(r@),
            forall|t: int| 0 <= t < r@.len() ==> (#[trigger] r@[t] as int) < self.size(),
            forall|k: int|
                0 <= k < self.size() ==> (r@.contains(k as usize) <==> #[trigger] mine_allowed(
                    *self,
                    safe_x as int,
                    safe_y as int,
                    k,
                )),
            r@.len() == mine_room(*self, safe_x as int, safe_y as int),
            r@ == allowed_cells(*self, safe_x as int, safe_y as int, self.size()),
    {
        proof {
            lemma_size_bound(self);
        }
        let ghost g = *self;
        let ghost sx = safe_x as int;
        let ghost sy = safe_y as int;
        let n = self.cells.len();
        let mut forbidden: Vec<bool> = Vec::new();
        let mut i: usize = 0;
        while i < n
            invariant
                n == g.size(),
                0 <= i <= n,
                forbidden@.len() == i,
                forall|k: int| 0 <= k < i ==> !#[trigger] forbidden@[k],
            decreases n - i,
        {
            forbidden.push(false);
            i = i + 1;
        }
        let at = self.index(safe_x as i32, safe_y as i32);
        if let Some(i) = at {
            proof {
                lemma_cell_at(self, sx, sy);
            }
            forbidden.set(i, true);
        }
        proof {
            assert forall|k: int| 0 <= k < n implies #[trigger] forbidden@[k] == at_square(g, sx, sy, k) by {
                if at_square(g, sx, sy, k) {
                    lemma_cell_at(self, sx, sy);
                    lemma_coords_unique(self, k, sy * g.width + sx);
                }
            }
        }
        let around = self.neighbor_indices(safe_x, safe_y);
        let mut t: usize = 0;
        while t < around.len()
            invariant
                g == *self,
                n == g.size(),
                forbidden@.len() == n,
                0 <= t <= around@.len(),
                forall|u: int| 0 <= u < around@.len() ==> (#[trigger] around@[u] as int) < n,
                forall|j: int| 0 <= j < n ==> (around@.contains(j as usize) <==> #[trigger] g.near(sx, sy, j)),
                forall|k: int|
                    0 <= k < n ==> #[trigger] forbidden@[k] == (at_square(g, sx, sy, k) || (exists|u: int|
                        0 <= u < t && around@[u] == k as usize)),
            decreases around@.len() - t,
        {
            let j = around[t];
            forbidden.set(j, true);
            t = t + 1;
        }
        proof {
            assert forall|k: int| 0 <= k < n implies #[trigger] forbidden@[k] == near_or_at(g, sx, sy, k) by {
                if g.near(sx, sy, k) {
                    assert(around@.contains(k as usize));
                }
                if exists|u: int| 0 <= u < around@.len() && around@[u] == k as usize {
                    let u = choose|u: int| 0 <= u < around@.len() && around@[u] == k as usize;
                    assert(around@.contains(k as usize));
                }
            }
        }
        let mut roomy: Vec<usize> = Vec::new();
        let mut i: usize = 0;
        while i < n
            invariant
                g == *self,
                n == g.size(),
                n <= 65025,
                forbidden@.len() == n,
                forall|k: int| 0 <= k < n ==> #[trigger] forbidden@[k] == near_or_at(g, sx, sy, k),
                0 <= i <= n,
                increasing(roomy@),
                forall|u: int| 0 <= u < roomy@.len() ==> (#[trigger] roomy@[u] as int) < i,
                forall|k: int|
                    0 <= k < i ==> (roomy@.contains(k as usize) <==> !#[trigger] near_or_at(
                        g,
                        sx,
                        sy,
                        k,
                    )),
                roomy@.len() == count_below(|j: int| !near_or_at(g, sx, sy, j), i as int),
            decreases n - i,
        {
            let ghost before = roomy@;
            if !forbidden[i] {
                roomy.push(i);
                proof {
                    assert forall|k: int| 0 <= k < i + 1 implies (roomy@.contains(k as usize) <==> !#[trigger] near_or_at(g, sx, sy, k)) by {
                        if k < i {
                            if before.contains(k as usize) {
                                let u = choose|u: int| 0 <= u < before.len() && before[u] == k as usize;
                                assert(roomy@[u] == k as usize);
                            }
                            if roomy@.contains(k as usize) {
                                let u = choose|u: int| 0 <= u < roomy@.len() && roomy@[u] == k as usize;
                                assert(u < before.len());
                                assert(before[u] == k as usize);
                            }
                        } else {
                            assert(roomy@[roomy@.len() - 1] == k as usize);
                        }
                    }
                }
            } else {
                proof {
                    assert forall|k: int| 0 <= k < i + 1 implies (roomy@.contains(k as usize) <==> !#[trigger] near_or_at(g, sx, sy, k)) by {
                        if k == i {
                            if roomy@.contains(k as usize) {
                                let u = choose|u: int| 0 <= u < roomy@.len() && roomy@[u] == k as usize;
                            }
                        }
                    }
                }
            }
            i = i + 1;
        }
        if roomy.len() < self.mines as usize {
            let mut spare: Vec<usize> = Vec::new();
            let mut i: usize = 0;
            while i < n
                invariant
                    g == *self,
                    sx == safe_x as int,
                    sy == safe_y as int,
                    n == g.size(),
                    n <= 65025,
                    0 <= i <= n,
                    increasing(spare@),
                    forall|u: int| 0 <= u < spare@.len() ==> (#[trigger] spare@[u] as int) < i,
                    forall|k: int|
                        0 <= k < i ==> (spare@.contains(k as usize) <==> !#[trigger] at_square(
                            g,
                            sx,
                            sy,
                            k,
                        )),
                    spare@.len() == count_below(|j: int| !at_square(g, sx, sy, j), i as int),
                decreases n - i,
            {
                let ghost before = spare@;
                let c = self.cells[i];
                if !(c.x == safe_x && c.y == safe_y) {
                    spare.push(i);
                    proof {
                        assert forall|k: int| 0 <= k < i + 1 implies (spare@.contains(k as usize) <==> !#[trigger] at_square(g, sx, sy, k)) by {
                            if k < i {
                                if before.contains(k as usize) {
                                    let u = choose|u: int| 0 <= u < before.len() && before[u] == k as usize;
                                    assert(spare@[u] == k as usize);
                                }
                                if spare@.contains(k as usize) {
                                    let u = choose|u: int| 0 <= u < spare@.len() && spare@[u] == k as usize;
                                    assert(u < before.len());
                                    assert(before[u] == k as usize);
                                }
                            } else {
                                assert(spare@[spare@.len() - 1] == k as usize);
                            }
                        }
                    }
                } else {
                    proof {
                        assert forall|k: int| 0 <= k < i + 1 implies (spare@.contains(k as usize) <==> !#[trigger] at_square(g, sx, sy, k)) by {
                            if k == i {
                                if spare@.contains(k as usize) {
                                    let u = choose|u: int| 0 <= u < spare@.len() && spare@[u] == k as usize;
                                }
                            }
                        }
                    }
                }
                i = i + 1;
            }
            proof {
                lemma_count_ext(
                    |k: int| mine_allowed(g, sx, sy, k),
                    |j: int| !at_square(g, sx, sy, j),
                    n as int,
                );
                lemma_candidates_listed(g, sx, sy, spare@);
            }
            spare
        } else {
            proof {
                lemma_count_ext(
                    |k: int| mine_allowed(g, sx, sy, k),
                    |j: int| !near_or_at(g, sx, sy, j),
                    n as int,
                );
                lemma_candidates_listed(g, sx, sy, roomy@);
            }
            roomy
        }
    }
}


/// Two boards have mines and coordinates in the same places.
pub open spec fn same_layout(a: Game, b: Game) -> bool {
    &&& a.width == b.width
    &&& a.height == b.height
    &&& a.cells@.len() == b.cells@.len()
    &&& forall|k: int|
        0 <= k < a.cells@.len() ==> (#[trigger] a.cells@[k]).x == b.cells@[k].x
            && a.cells@[k].y == b.cells@[k].y && a.cells@[k].mine == b.cells@[k].mine
}

/// Boards with the same layout count the same mines around each cell.
pub(crate) proof fn lemma_same_layout_around(a: Game, b: Game, i: int)
    requires
        same_layout(a, b),
        0 <= i < a.size(),
    ensures
        a.mines_around(i) == b.mines_around(i),
{
    lemma_count_ext(
        |j: int| a.adjacent(i, j) && a.cells@[j].mine,
        |j: int| b.adjacent(i, j) && b.cells@[j].mine,
        a.size(),
    );
}

impl Game {
    /// The number of mines around cell `i`.
    pub(crate) fn count_adjacent_cell(&self, i: usize) -> (r: u8)
        requires
            self.wf(),
            (i as int) < self.size(),
        ensures
            r as int == self.mines_around(i as int),
    {
        proof {
            lemma_size_bound(self);
        }
        let ghost g = *self;
        let c = self.cells[i];
        let around = self.neighbor_indices(c.x, c.y);
        let ghost mp = |j: int| g.cells@[j].mine;
        let mut cnt: u8 = 0;
        let mut t: usize = 0;
        while t < around.len()
            invariant
                g == *self,
                mp == (|j: int| g.cells@[j].mine),
                0 <= t <= around@.len(),
                around@.len() <= 8,
                forall|u: int| 0 <= u < around@.len() ==> (#[trigger] around@[u] as int) < g.size(),
                cnt as int == seq_count(around@.take(t as int), mp),
                cnt <= t,
            decreases around@.len() - t,
        {
            let j = around[t];
            assert(around@.take(t + 1).drop_last() == around@.take(t as int));
            assert(around@.take(t + 1).last() == j);
            if self.cells[j].mine {
                cnt = cnt + 1;
            }
            t = t + 1;
        }
        proof {
            let n = g.size();
            assert(around@.take(around@.len() as int) == around@);
            assert(around@.no_duplicates());
            lemma_seq_count(around@, mp, n);
            assert forall|j: int| 0 <= j < n implies (0 <= j && around@.contains(j as usize) && mp(j))
                == (#[trigger] g.adjacent(i as int, j) && g.cells@[j].mine) by {}
            lemma_count_ext(
                |j: int| 0 <= j && around@.contains(j as usize) && mp(j),
                |j: int| g.adjacent(i as int, j) && g.cells@[j].mine,
                n,
            );
        }
        cnt
    }

    /// Writes every cell's number: zero on mines, the mines around elsewhere.
    fn compute_numbers(&mut self)
        requires
            old(self).wf(),
        ensures
            final(self).wf(),
            numbers_right(*final(self)),
            same_layout(*old(self), *final(self)),
            final(self).mines == old(self).mines,
            final(self).placed == old(self).placed,
            same_frame(*old(self), *final(self)),
            forall|k: int|
                0 <= k < old(self).size() ==> {
                    &&& (#[trigger] final(self).cells@[k]).revealed == old(self).cells@[k].revealed
                    &&& final(self).cells@[k].flagged == old(self).cells@[k].flagged
                    &&& final(self).cells@[k].exploded == old(self).cells@[k].exploded
                },
    {
        let ghost g = *self;
        let n = self.cells.len();
        let mut i: usize = 0;
        while i < n
            invariant
                n == g.size(),
                0 <= i <= n,
                self.wf(),
                same_layout(g, *self),
                self.mines == g.mines,
                self.placed == g.placed,
                same_frame(g, *self),
                forall|k: int|
                    0 <= k < n ==> {
                        &&& (#[trigger] self.cells@[k]).revealed == g.cells@[k].revealed
                        &&& self.cells@[k].flagged == g.cells@[k].flagged
                        &&& self.cells@[k].exploded == g.cells@[k].exploded
                    },
                forall|k: int|
                    0 <= k < i ==> if (#[trigger] self.cells@[k]).mine {
                        self.cells@[k].adj == 0
                    } else {
                        self.cells@[k].adj as int == g.mines_around(k)
                    },
            decreases n - i,
        {
            let mut c = self.cells[i];
            if c.mine {
                c.adj = 0;
            } else {
                let a = self.count_adjacent_cell(i);
                proof {
                    lemma_same_layout_around(*self, g, i as int);
                }
                c.adj = a;
            }
            self.cells.set(i, c);
            i = i + 1;
        }
        proof {
            assert forall|k: int| 0 <= k < n implies if (#[trigger] self.cells@[k]).mine {
                self.cells@[k].adj == 0
            } else {
                self.cells@[k].adj as int == self.mines_around(k)
            } by {
                lemma_same_layout_around(*self, g, k);
            }
        }
    }
}


impl Game {
    /// Lays the mines for a first click at `(safe_x, safe_y)`: never on that
    /// square, and not around it when enough other cells remain; then writes
    /// every cell's number and marks the board placed.
    pub fn place_mines<R: Rand>(&mut self, safe_x: u8, safe_y: u8, rng: &mut R)
        requires
            old(self).wf(),
        ensures
            mines_placed(*old(self), safe_x as int, safe_y as int, *final(self)),
            drawn_mines(*old(self), safe_x as int, safe_y as int, *final(self), *old(rng), *final(rng)),
    {
        proof {
            lemma_size_bound(self);
        }
        let ghost g = *self;
        let ghost sx = safe_x as int;
        let ghost sy = safe_y as int;
        let n = self.cells.len();
        let mut candidates = self.mine_candidates(safe_x, safe_y);
        let ghost sorted = candidates@;
        shuffle(&mut candidates, rng);
        let count: u16 = if self.mines < candidates.len() as u16 {
            self.mines
        } else {
            candidates.len() as u16
        };
        let ghost chosen_seq = candidates@.take(count as int);
        let ghost chosen = |k: int| 0 <= k && chosen_seq.contains(k as usize);
        proof {
            lemma_count_bound(|k: int| mine_allowed(g, sx, sy, k), n as int);
            assert forall|u: int| 0 <= u < candidates@.len() implies (#[trigger] candidates@[u] as int) < n by {
                assert(candidates@.contains(candidates@[u]));
                assert(sorted.contains(candidates@[u]));
                let v = choose|v: int| 0 <= v < sorted.len() && sorted[v] == candidates@[u];
            }
            assert(chosen_seq.no_duplicates());
            assert forall|u: int| 0 <= u < chosen_seq.len() implies #[trigger] chosen_seq[u] < n by {
                assert(chosen_seq[u] == candidates@[u]);
            }
            lemma_seq_len_count(chosen_seq, n as int);
        }
        let mut t: usize = 0;
        while t < count as usize
            invariant
                n == g.size(),
                n <= 65025,
                0 <= t <= count,
                count <= candidates@.len(),
                chosen_seq == candidates@.take(count as int),
                forall|u: int| 0 <= u < candidates@.len() ==> (#[trigger] candidates@[u] as int) < n,
                self.wf(),
                self.cells@.len() == n,
                self.mines == g.mines,
                self.placed == g.placed,
                same_frame(g, *self),
                forall|k: int|
                    0 <= k < n ==> {
                        &&& (#[trigger] self.cells@[k]).x == g.cells@[k].x
                        &&& self.cells@[k].y == g.cells@[k].y
                        &&& self.cells@[k].revealed == g.cells@[k].revealed
                        &&& self.cells@[k].flagged == g.cells@[k].flagged
                        &&& self.cells@[k].exploded == g.cells@[k].exploded
                        &&& self.cells@[k].mine == (g.cells@[k].mine || exists|u: int|
                            0 <= u < t && candidates@[u] == k as usize)
                    },
            decreases count - t,
        {
            let i = candidates[t];
            let mut c = self.cells[i];
            c.mine = true;
            self.cells.set(i, c);
            t = t + 1;
        }
        self.mines = count;
        let ghost mid = *self;
        self.compute_numbers();
        let ghost numbered = *self;
        self.placed = true;
        proof {
            assert(self.cells@ == numbered.cells@);
            assert forall|k: int| 0 <= k < n implies self.mines_around(k) == numbered.mines_around(k) by {
                lemma_same_layout_around(*self, numbered, k);
            }
            assert forall|k: int| 0 <= k < n implies (#[trigger] self.cells@[k]).mine == (g.cells@[k].mine || chosen(k)) by {
                assert(self.cells@[k].mine == mid.cells@[k].mine);
                if exists|u: int| 0 <= u < count && candidates@[u] == k as usize {
                    let u = choose|u: int| 0 <= u < count && candidates@[u] == k as usize;
                    assert(chosen_seq[u] == k as usize);
                }
                if chosen(k) {
                    let u = choose|u: int| 0 <= u < chosen_seq.len() && chosen_seq[u] == k as usize;
                    assert(candidates@[u] == k as usize);
                }
            }
            assert forall|k: int| 0 <= k < n && #[trigger] chosen(k) implies mine_allowed(g, sx, sy, k) by {
                let u = choose|u: int| 0 <= u < chosen_seq.len() && chosen_seq[u] == k as usize;
                assert(candidates@.contains(k as usize));
                assert(sorted.contains(k as usize));
            }
            lemma_count_ext(chosen, |k: int| 0 <= k && chosen_seq.contains(k as usize), n as int);
            assert(drawn_mines(g, sx, sy, *self, *old(rng), *rng));
        }
    }
}


/// Cells `j` and `k` are distinct and touch.
pub open spec fn touching(cells: Seq<Cell>, j: int, k: int) -> bool {
    &&& 0 <= j < cells.len()
    &&& 0 <= k < cells.len()
    &&& -1 <= cells[k].x - cells[j].x <= 1
    &&& -1 <= cells[k].y - cells[j].y <= 1
    &&& !(cells[k].x == cells[j].x && cells[k].y == cells[j].y)
}

/// An open cell with no mines around passes the flood on.
pub open spec fn spreads(c: Cell) -> bool {
    c.adj == 0 && !c.mine
}

/// The flood may open this cell: covered, unflagged, no mine.
pub open spec fn openable(c: Cell) -> bool {
    !c.revealed && !c.flagged && !c.mine
}

/// The flood from `s` reaches `k` within `steps` spreads.
pub open spec fn reach_in(cells: Seq<Cell>, s: int, k: int, steps: nat) -> bool
    decreases steps,
{
    if steps == 0 {
        k == s
    } else {
        reach_in(cells, s, k, (steps - 1) as nat) || exists|j: int|
            reach_in(cells, s, j, (steps - 1) as nat) && spreads(cells[j]) && #[trigger] touching(
                cells,
                j,
                k,
            ) && openable(cells[k])
    }
}

/// The flood from `s` reaches `k`.
pub open spec fn flooded(cells: Seq<Cell>, s: int, k: int) -> bool {
    exists|steps: nat| #[trigger] reach_in(cells, s, k, steps)
}

/// `c` with its revealed flag set to `b`.
pub open spec fn with_revealed(c: Cell, b: bool) -> Cell {
    Cell {
        x: c.x,
        y: c.y,
        mine: c.mine,
        adj: c.adj,
        revealed: b,
        flagged: c.flagged,
        exploded: c.exploded,
    }
}

/// Everything the flood reaches from `s` is revealed, given that every
/// spreading cell it revealed (or `s`) has had its neighbours opened.
proof fn lemma_reach_closed(c0: Seq<Cell>, cur: Seq<Cell>, s: int, k: int, steps: nat)
    requires
        cur.len() == c0.len(),
        0 <= s < c0.len(),
        forall|j: int|
            0 <= j < c0.len() && (j == s || (cur[j].revealed && !c0[j].revealed)) && spreads(
                c0[j],
            ) ==> forall|m: int|
                #![trigger touching(c0, j, m)]
                touching(c0, j, m) && openable(c0[m]) ==> cur[m].revealed,
    ensures
        reach_in(c0, s, k, steps) ==> k == s || (0 <= k < c0.len() && cur[k].revealed
            && !c0[k].revealed),
    decreases steps,
{
    if steps > 0 {
        lemma_reach_closed(c0, cur, s, k, (steps - 1) as nat);
        if reach_in(c0, s, k, steps) && !reach_in(c0, s, k, (steps - 1) as nat) {
            let j = choose|j: int|
                reach_in(c0, s, j, (steps - 1) as nat) && spreads(c0[j]) && #[trigger] touching(
                    c0,
                    j,
                    k,
                ) && openable(c0[k]);
            lemma_reach_closed(c0, cur, s, j, (steps - 1) as nat);
            assert(touching(c0, j, k));
            assert(openable(c0[k]));
        }
    }
}

impl Game {
    /// Opens, breadth first from the revealed zero cell `start`, every
    /// covered, unflagged, mine-free cell reachable through zero cells.
    fn flood(&mut self, start: usize)
        requires
            old(self).wf(),
            old(self).revealed_count as int == count_below(
                |k: int| old(self).cells@[k].revealed,
                old(self).size(),
            ),
            (start as int) < old(self).size(),
            old(self).cells@[start as int].revealed,
            spreads(old(self).cells@[start as int]),
        ensures
            final(self).wf(),
            final(self).revealed_count as int == count_below(
                |k: int| final(self).cells@[k].revealed,
                final(self).size(),
            ),
            final(self).mines == old(self).mines,
            final(self).placed == old(self).placed,
            final(self).difficulty == old(self).difficulty,
            final(self).width == old(self).width,
            final(self).height == old(self).height,
            final(self).over == old(self).over,
            final(self).won == old(self).won,
            final(self).flags == old(self).flags,
            final(self).cursor_x == old(self).cursor_x,
            final(self).cursor_y == old(self).cursor_y,
            final(self).cells@.len() == old(self).cells@.len(),
            forall|k: int|
                0 <= k < old(self).size() ==> #[trigger] final(self).cells@[k] == with_revealed(
                    old(self).cells@[k],
                    old(self).cells@[k].revealed || flooded(old(self).cells@, start as int, k),
                ),
    {
        proof {
            lemma_size_bound(self);
        }
        let ghost g = *self;
        let ghost c0 = self.cells@;
        let ghost s = start as int;
        let n = self.cells.len();
        let mut queue: std::collections::VecDeque<usize> = std::collections::VecDeque::new();
        queue.push_back(start);
        proof {
            lemma_count_bound(|k: int| self.cells@[k].revealed, n as int);
            assert(reach_in(c0, s, s, 0));
            assert(queue@[0] == start);
            assert(queue@.contains(start));
        }
        while queue.len() > 0
            invariant
                n == g.size(),
                n <= 65025,
                c0 == g.cells@,
                s == start as int,
                0 <= s < n,
                spreads(c0[s]),
                c0[s].revealed,
                self.cells@.len() == n,
                self.wf(),
                self.over == g.over,
                self.mines == g.mines,
                self.placed == g.placed,
                self.difficulty == g.difficulty,
                self.width == g.width,
                self.height == g.height,
                self.won == g.won,
                self.flags == g.flags,
                self.cursor_x == g.cursor_x,
                self.cursor_y == g.cursor_y,
                forall|k: int|
                    0 <= k < n ==> #[trigger] self.cells@[k] == with_revealed(
                        c0[k],
                        self.cells@[k].revealed,
                    ),
                forall|k: int| 0 <= k < n && c0[k].revealed ==> #[trigger] self.cells@[k].revealed,
                forall|k: int|
                    0 <= k < n && #[trigger] self.cells@[k].revealed && !c0[k].revealed ==> flooded(
                        c0,
                        s,
                        k,
                    ),
                forall|u: int|
                    0 <= u < queue@.len() ==> {
                        let q = #[trigger] queue@[u] as int;
                        &&& 0 <= q < n
                        &&& self.cells@[q].revealed
                        &&& (q == s || !c0[q].revealed)
                        &&& spreads(c0[q])
                        &&& flooded(c0, s, q)
                    },
                forall|j: int|
                    0 <= j < n && (j == s || (self.cells@[j].revealed && !c0[j].revealed)) && spreads(
                        c0[j],
                    ) && !queue@.contains(j as usize) ==> forall|m: int|
                        #![trigger touching(c0, j, m)]
                        touching(c0, j, m) && openable(c0[m]) ==> self.cells@[m].revealed,
                self.revealed_count as int == count_below(|k: int| self.cells@[k].revealed, n as int),
                self.revealed_count <= n,
            decreases 2 * (n - self.revealed_count) + queue@.len(),
        {
            let ghost before = queue@;
            let ghost measure = 2 * (n - self.revealed_count) + queue@.len();
            let popped = queue.pop_front();
            let i = match popped {
                Some(i) => i,
                None => {
                    return;
                },
            };
            let ci = self.cells[i];
            let ghost steps_i = choose|st: nat| #[trigger] reach_in(c0, s, i as int, st);
            let around = self.neighbor_indices(ci.x, ci.y);
            proof {
                assert forall|j: int| 0 <= j < n implies (around@.contains(j as usize) <==> #[trigger] touching(c0, i as int, j)) by {
                    assert(self.cells@[j] == with_revealed(c0[j], self.cells@[j].revealed));
                    assert(self.cells@[i as int] == with_revealed(c0[i as int], self.cells@[i as int].revealed));
                    assert(self.near(ci.x as int, ci.y as int, j) == touching(c0, i as int, j));
                }
                assert(queue@ == before.subrange(1, before.len() as int));
                assert(before[0] == i);
                assert forall|j: int| 0 <= j < n && j != i && !queue@.contains(j as usize) implies !#[trigger] before.contains(j as usize) by {
                    if before.contains(j as usize) {
                        let u = choose|u: int| 0 <= u < before.len() && before[u] == j as usize;
                        assert(u != 0);
                        assert(queue@[u - 1] == j as usize);
                    }
                }
            }
            let mut t: usize = 0;
            while t < around.len()
                invariant
                    n == g.size(),
                    n <= 65025,
                    c0 == g.cells@,
                    s == start as int,
                    0 <= s < n,
                    spreads(c0[s]),
                    c0[s].revealed,
                    0 <= i < n,
                    ci == self.cells@[i as int],
                    self.cells@[i as int].revealed,
                    spreads(c0[i as int]),
                    reach_in(c0, s, i as int, steps_i),
                    0 <= t <= around@.len(),
                    forall|u: int| 0 <= u < around@.len() ==> (#[trigger] around@[u] as int) < n,
                    forall|j: int|
                        0 <= j < n ==> (around@.contains(j as usize) <==> #[trigger] touching(
                            c0,
                            i as int,
                            j,
                        )),
                    self.cells@.len() == n,
                    self.wf(),
                    self.over == g.over,
                    self.mines == g.mines,
                    self.placed == g.placed,
                    self.difficulty == g.difficulty,
                    self.width == g.width,
                    self.height == g.height,
                    self.won == g.won,
                    self.flags == g.flags,
                    self.cursor_x == g.cursor_x,
                    self.cursor_y == g.cursor_y,
                    forall|k: int|
                        0 <= k < n ==> #[trigger] self.cells@[k] == with_revealed(
                            c0[k],
                            self.cells@[k].revealed,
                        ),
                    forall|k: int|
                        0 <= k < n && c0[k].revealed ==> #[trigger] self.cells@[k].revealed,
                    forall|k: int|
                        0 <= k < n && #[trigger] self.cells@[k].revealed && !c0[k].revealed
                            ==> flooded(c0, s, k),
                    forall|u: int|
                        0 <= u < queue@.len() ==> {
                            let q = #[trigger] queue@[u] as int;
                            &&& 0 <= q < n
                            &&& self.cells@[q].revealed
                            &&& (q == s || !c0[q].revealed)
                            &&& spreads(c0[q])
                            &&& flooded(c0, s, q)
                        },
                    forall|j: int|
                        0 <= j < n && j != i && (j == s || (self.cells@[j].revealed
                            && !c0[j].revealed)) && spreads(c0[j]) && !queue@.contains(j as usize)
                            ==> forall|m: int|
                            #![trigger touching(c0, j, m)]
                            touching(c0, j, m) && openable(c0[m]) ==> self.cells@[m].revealed,
                    forall|u: int|
                        0 <= u < t && openable(c0[#[trigger] around@[u] as int])
                            ==> self.cells@[around@[u] as int].revealed,
                    self.revealed_count as int == count_below(
                        |k: int| self.cells@[k].revealed,
                        n as int,
                    ),
                    self.revealed_count <= n,
                    2 * (n - self.revealed_count) + queue@.len() < measure,
                decreases around@.len() - t,
            {
                let nb = around[t];
                let c = self.cells[nb];
                let ghost body_cells = self.cells@;
                let ghost body_queue = queue@;
                if !(c.revealed || c.flagged || c.mine) {
                    let ghost prev = self.cells@;
                    let mut opened = c;
                    opened.revealed = true;
                    self.cells.set(nb, opened);
                    proof {
                        lemma_count_flip(
                            |k: int| prev[k].revealed,
                            |k: int| self.cells@[k].revealed,
                            nb as int,
                            n as int,
                        );
                        lemma_count_bound(|k: int| self.cells@[k].revealed, n as int);
                        assert(touching(c0, i as int, nb as int));
                        reveal_with_fuel(reach_in, 2);
                        assert(reach_in(c0, s, nb as int, steps_i + 1));
                        assert(flooded(c0, s, nb as int));
                        assert forall|m: int| 0 <= m < n && prev[m].revealed implies #[trigger] self.cells@[m].revealed by {
                            if m != nb as int {
                                assert(self.cells@[m] == prev[m]);
                            }
                        }
                    }
                    self.revealed_count = self.revealed_count + 1;
                    if c.adj == 0 {
                        queue.push_back(nb);
                        proof {
                            assert(queue@[queue@.len() - 1] == nb);
                            assert(queue@.contains(nb));
                        }
                    }
                    proof {
                        assert forall|j: int|
                            0 <= j < n && j != i && (j == s || (self.cells@[j].revealed
                                && !c0[j].revealed)) && spreads(c0[j]) && !queue@.contains(
                                j as usize,
                            ) implies forall|m: int|
                            #![trigger touching(c0, j, m)]
                            touching(c0, j, m) && openable(c0[m]) ==> self.cells@[m].revealed by {
                            if j != nb as int {
                                assert(self.cells@[j] == body_cells[j]);
                                if body_queue.contains(j as usize) {
                                    let u = choose|u: int| 0 <= u < body_queue.len() && body_queue[u] == j as usize;
                                    assert(queue@[u] == j as usize);
                                }
                                assert forall|m: int| #![trigger touching(c0, j, m)] touching(c0, j, m) && openable(c0[m]) implies self.cells@[m].revealed by {
                                    assert(body_cells[m].revealed);
                                }
                            }
                        }
                    }
                }
                t = t + 1;
            }
            proof {
                assert forall|m: int| #![trigger touching(c0, i as int, m)] touching(c0, i as int, m) && openable(c0[m]) implies self.cells@[m].revealed by {
                    assert(around@.contains(m as usize));
                    let u = choose|u: int| 0 <= u < around@.len() && around@[u] == m as usize;
                }
                assert forall|j: int|
                    0 <= j < n && (j == s || (self.cells@[j].revealed && !c0[j].revealed)) && spreads(
                        c0[j],
                    ) && !queue@.contains(j as usize) implies forall|m: int|
                        #![trigger touching(c0, j, m)]
                        touching(c0, j, m) && openable(c0[m]) ==> self.cells@[m].revealed by {
                    if j != i as int {
                        if before.contains(j as usize) {
                            let u = choose|u: int| 0 <= u < before.len() && before[u] == j as usize;
                            assert(u != 0);
                        }
                    }
                }
            }
        }
        proof {
            assert forall|k: int| 0 <= k < n implies #[trigger] self.cells@[k] == with_revealed(
                c0[k],
                c0[k].revealed || flooded(c0, s, k),
            ) by {
                if flooded(c0, s, k) {
                    let st = choose|st: nat| #[trigger] reach_in(c0, s, k, st);
                    lemma_reach_closed(c0, self.cells@, s, k, st);
                }
            }
        }
    }
}


/// `c` with its flagged flag set to `b`.
pub open spec fn with_flagged(c: Cell, b: bool) -> Cell {
    Cell {
        x: c.x,
        y: c.y,
        mine: c.mine,
        adj: c.adj,
        revealed: c.revealed,
        flagged: b,
        exploded: c.exploded,
    }
}

/// `c` after the board exploded at cell `i`: mines shown, `i` marked.
pub open spec fn shown_after_blast(c: Cell, at_blast: bool) -> Cell {
    Cell {
        x: c.x,
        y: c.y,
        mine: c.mine,
        adj: c.adj,
        revealed: c.revealed || c.mine,
        flagged: c.flagged,
        exploded: c.exploded || at_blast,
    }
}

/// Cell `k` after opening cell `i` of `cells`: a mine explodes, is marked
/// and shows every mine; otherwise `i` opens together with the flood from it.
pub open spec fn opened_cell(cells: Seq<Cell>, i: int, k: int) -> Cell {
    let c1 = cells.update(i, with_revealed(cells[i], true));
    if cells[i].mine {
        shown_after_blast(c1[k], k == i)
    } else {
        with_revealed(c1[k], c1[k].revealed || flooded(c1, i, k))
    }
}

/// `b` is `a` after opening the covered, unflagged cell `i`.
pub open spec fn opened_state(a: Game, i: int, b: Game) -> bool {
    let n = a.size();
    let lost = a.cells@[i].mine;
    &&& b.cells@.len() == n
    &&& forall|k: int| 0 <= k < n ==> #[trigger] b.cells@[k] == opened_cell(a.cells@, i, k)
    &&& b.revealed_count as int == if lost {
        a.revealed_count as int + 1
    } else {
        count_below(|k: int| opened_cell(a.cells@, i, k).revealed, n) as int
    }
    &&& b.over == lost
    &&& b.won == (!lost && a.won)
    &&& b.flags == a.flags
    &&& b.difficulty == a.difficulty
    &&& b.width == a.width
    &&& b.height == a.height
    &&& b.mines == a.mines
    &&& b.placed == a.placed
    &&& b.cursor_x == a.cursor_x
    &&& b.cursor_y == a.cursor_y
}

/// `b` is `a` after the win check: once every cell but the mines is
/// revealed (by the counter), the game is won and every mine is flagged.
pub open spec fn win_checked(a: Game, b: Game) -> bool {
    if a.over || (a.revealed_count as int) < a.width as int * a.height as int - a.mines as int {
        b == a
    } else {
        &&& b.cells@.len() == a.cells@.len()
        &&& forall|k: int|
            0 <= k < a.cells@.len() ==> #[trigger] b.cells@[k] == with_flagged(
                a.cells@[k],
                a.cells@[k].flagged || a.cells@[k].mine,
            )
        &&& b.over
        &&& b.won
        &&& b.flags == a.mines as i16
        &&& b.revealed_count == a.revealed_count
        &&& b.difficulty == a.difficulty
        &&& b.width == a.width
        &&& b.height == a.height
        &&& b.mines == a.mines
        &&& b.placed == a.placed
        &&& b.cursor_x == a.cursor_x
        &&& b.cursor_y == a.cursor_y
    }
}

/// Without spreading at the start the flood goes nowhere.
proof fn lemma_flood_stays(cells: Seq<Cell>, i: int, k: int, steps: nat)
    requires
        0 <= i < cells.len(),
        !spreads(cells[i]),
    ensures
        reach_in(cells, i, k, steps) ==> k == i,
    decreases steps,
{
    if steps > 0 {
        lemma_flood_stays(cells, i, k, (steps - 1) as nat);
        if reach_in(cells, i, k, steps) && !reach_in(cells, i, k, (steps - 1) as nat) {
            let j = choose|j: int|
                reach_in(cells, i, j, (steps - 1) as nat) && spreads(cells[j]) && #[trigger] touching(
                    cells,
                    j,
                    k,
                ) && openable(cells[k]);
            lemma_flood_stays(cells, i, j, (steps - 1) as nat);
        }
    }
}

impl Game {
    /// Ends the game lost and shows every mine.
    fn explode(&mut self)
        ensures
            final(self).over,
            !final(self).won,
            final(self).cells@.len() == old(self).cells@.len(),
            forall|k: int|
                0 <= k < old(self).cells@.len() ==> #[trigger] final(self).cells@[k]
                    == shown_after_blast(old(self).cells@[k], old(self).cells@[k].exploded),
            final(self).flags == old(self).flags,
            final(self).revealed_count == old(self).revealed_count,
            final(self).difficulty == old(self).difficulty,
            final(self).width == old(self).width,
            final(self).height == old(self).height,
            final(self).mines == old(self).mines,
            final(self).placed == old(self).placed,
            final(self).cursor_x == old(self).cursor_x,
            final(self).cursor_y == old(self).cursor_y,
    {
        self.over = true;
        self.won = false;
        let n = self.cells.len();
        let mut k: usize = 0;
        while k < n
            invariant
                n == old(self).cells@.len(),
                0 <= k <= n,
                self.cells@.len() == n,
                self.over,
                !self.won,
                self.flags == old(self).flags,
                self.revealed_count == old(self).revealed_count,
                self.difficulty == old(self).difficulty,
                self.width == old(self).width,
                self.height == old(self).height,
                self.mines == old(self).mines,
                self.placed == old(self).placed,
                self.cursor_x == old(self).cursor_x,
                self.cursor_y == old(self).cursor_y,
                forall|j: int|
                    0 <= j < n ==> #[trigger] self.cells@[j] == if j < k {
                        shown_after_blast(old(self).cells@[j], old(self).cells@[j].exploded)
                    } else {
                        old(self).cells@[j]
                    },
            decreases n - k,
        {
            let mut c = self.cells[k];
            if c.mine {
                c.revealed = true;
            }
            self.cells.set(k, c);
            k = k + 1;
        }
    }

    /// Wins the game once every non-mine cell is revealed (by the counter),
    /// flagging every mine.
    fn check_win(&mut self)
        requires
            old(self).mines as int <= old(self).width as int * old(self).height as int,
        ensures
            win_checked(*old(self), *final(self)),
    {
        if self.over {
            return;
        }
        proof {
            assert(self.width as int * self.height as int <= 65025) by (nonlinear_arith)
                requires
                    self.width <= 255,
                    self.height <= 255,
            ;
        }
        let safe: u16 = (self.width as u16) * (self.height as u16) - self.mines;
        if self.revealed_count < safe {
            return;
        }
        self.over = true;
        self.won = true;
        self.flags = self.mines as i16;
        let n = self.cells.len();
        let mut k: usize = 0;
        while k < n
            invariant
                n == old(self).cells@.len(),
                0 <= k <= n,
                self.cells@.len() == n,
                self.over,
                self.won,
                self.flags == old(self).mines as i16,
                self.revealed_count == old(self).revealed_count,
                self.difficulty == old(self).difficulty,
                self.width == old(self).width,
                self.height == old(self).height,
                self.mines == old(self).mines,
                self.placed == old(self).placed,
                self.cursor_x == old(self).cursor_x,
                self.cursor_y == old(self).cursor_y,
                forall|j: int|
                    0 <= j < n ==> #[trigger] self.cells@[j] == if j < k {
                        with_flagged(
                            old(self).cells@[j],
                            old(self).cells@[j].flagged || old(self).cells@[j].mine,
                        )
                    } else {
                        old(self).cells@[j]
                    },
            decreases n - k,
        {
            let mut c = self.cells[k];
            if c.mine {
                c.flagged = true;
            }
            self.cells.set(k, c);
            k = k + 1;
        }
    }

    /// Opens cell `i`, unless it is open or flagged or the game is over.
    fn reveal_index(&mut self, i: usize)
        requires
            old(self).wf(),
            old(self).counted(),
            (i as int) < old(self).size(),
        ensures
            final(self).wf(),
            final(self).counted(),
            if old(self).over || old(self).cells@[i as int].revealed || old(
                self,
            ).cells@[i as int].flagged {
                *final(self) == *old(self)
            } else {
                opened_state(*old(self), i as int, *final(self))
            },
    {
        if self.cells[i].revealed || self.cells[i].flagged || self.over {
            return;
        }
        proof {
            lemma_size_bound(self);
        }
        let ghost g = *self;
        let ghost n = g.size();
        let ghost c1 = g.cells@.update(i as int, with_revealed(g.cells@[i as int], true));
        let mut c = self.cells[i];
        c.revealed = true;
        self.cells.set(i, c);
        proof {
            assert(self.cells@ == c1);
            lemma_count_flip(
                |k: int| g.cells@[k].revealed,
                |k: int| self.cells@[k].revealed,
                i as int,
                n,
            );
            lemma_count_bound(|k: int| self.cells@[k].revealed, n);
        }
        self.revealed_count = self.revealed_count + 1;
        if c.mine {
            let mut e = self.cells[i];
            e.exploded = true;
            self.cells.set(i, e);
            let ghost before_blast = *self;
            self.explode();
            proof {
                assert forall|k: int| 0 <= k < n implies #[trigger] self.cells@[k] == opened_cell(g.cells@, i as int, k) by {
                    if k == i as int {
                        assert(before_blast.cells@[k].exploded);
                    } else {
                        assert(before_blast.cells@[k] == c1[k]);
                    }
                }
            }
            return;
        }
        if c.adj == 0 {
            self.flood(i);
        } else {
            proof {
                assert forall|k: int| 0 <= k < n implies #[trigger] self.cells@[k] == opened_cell(g.cells@, i as int, k) by {
                    if flooded(c1, i as int, k) {
                        let st = choose|st: nat| #[trigger] reach_in(c1, i as int, k, st);
                        lemma_flood_stays(c1, i as int, k, st);
                    }
                }
            }
        }
        proof {
            lemma_count_ext(
                |k: int| self.cells@[k].revealed,
                |k: int| opened_cell(g.cells@, i as int, k).revealed,
                n,
            );
        }
    }
}


/// `new` is `old` after opening `(x, y)`: nothing happens off the board,
/// once the game is over, or on an open or flagged cell; otherwise the mines
/// are placed first if they were not yet (around a safe first click), the
/// cell is opened, and the win is checked.
pub open spec fn reveal_rel(old: Game, x: int, y: int, new: Game) -> bool {
    match old.index_at(x, y) {
        Option::None => new == old,
        Option::Some(i) => if old.over || old.cells@[i as int].revealed || old.cells@[i as int].flagged {
            new == old
        } else {
            exists|mid: Game, open: Game|
                {
                    &&& (if old.placed {
                        mid == old
                    } else {
                        mines_placed(old, x, y, mid)
                    })
                    &&& #[trigger] opened_state(mid, i as int, open)
                    &&& win_checked(open, new)
                }
        },
    }
}

/// `new` and the generator `r1` follow from `old` and the generator `r0` by
/// opening `(x, y)`: as `reveal_rel`, with the first opening laying the
/// mines the generator draws (`drawn_mines`), and the generator untouched
/// whenever no mines are laid.
pub open spec fn revealed_by<R: Rand>(old: Game, x: int, y: int, new: Game, r0: R, r1: R) -> bool {
    match old.index_at(x, y) {
        Option::None => new == old && r1 == r0,
        Option::Some(i) => if old.over || old.cells@[i as int].revealed || old.cells@[i as int].flagged {
            new == old && r1 == r0
        } else {
            exists|mid: Game, open: Game|
                {
                    &&& (if old.placed {
                        mid == old && r1 == r0
                    } else {
                        mines_placed(old, x, y, mid) && drawn_mines(old, x, y, mid, r0, r1)
                    })
                    &&& #[trigger] opened_state(mid, i as int, open)
                    &&& win_checked(open, new)
                }
        },
    }
}

/// A chord on `(x, y)` draws nothing from the generator: off the board,
/// once the game is over, on an open number that does not fire, or on an
/// open number of a board whose mines are laid.
pub open spec fn chord_draws_nothing(old: Game, x: int, y: int) -> bool {
    match old.index_at(x, y) {
        Option::None => true,
        Option::Some(i) => old.over || (old.cells@[i as int].revealed && (old.placed
            || old.cells@[i as int].adj == 0 || count_below(
            |k: int| old.near(x, y, k) && old.cells@[k].flagged,
            old.size(),
        ) != old.cells@[i as int].adj as int)),
    }
}

/// A game that can be played on: well formed, counting its revealed cells,
/// and with no more mines than cells.
pub open spec fn playable(g: Game) -> bool {
    &&& g.wf()
    &&& g.counted()
    &&& g.mines as int <= g.size()
}

/// Flagging `(x, y)` keeps the flag counter in range.
pub open spec fn flag_fits(g: Game, x: int, y: int) -> bool {
    match g.index_at(x, y) {
        Option::Some(i) => !g.over && !g.cells@[i as int].revealed ==> if g.cells@[i as int].flagged {
            g.flags > i16::MIN
        } else {
            g.flags < i16::MAX
        },
        Option::None => true,
    }
}

/// `new` is `old` after toggling the flag on `(x, y)`: nothing happens off
/// the board, once the game is over, or on an open cell.
pub open spec fn flag_rel(old: Game, x: int, y: int, new: Game) -> bool {
    match old.index_at(x, y) {
        Option::None => new == old,
        Option::Some(i) => if old.over || old.cells@[i as int].revealed {
            new == old
        } else {
            let c = old.cells@[i as int];
            &&& new.cells@ == old.cells@.update(i as int, with_flagged(c, !c.flagged))
            &&& new.flags == old.flags + if c.flagged {
                -1int
            } else {
                1int
            }
            &&& new.difficulty == old.difficulty
            &&& new.width == old.width
            &&& new.height == old.height
            &&& new.mines == old.mines
            &&& new.placed == old.placed
            &&& new.over == old.over
            &&& new.won == old.won
            &&& new.revealed_count == old.revealed_count
            &&& new.cursor_x == old.cursor_x
            &&& new.cursor_y == old.cursor_y
        },
    }
}

impl Game {
    /// Opens `(x, y)`: the first click places the mines away from it, a mine
    /// loses the game, a zero floods, and revealing every safe cell wins.
    pub fn reveal_cell<R: Rand>(&mut self, x: u8, y: u8, rng: &mut R)
        requires
            playable(*old(self)),
        ensures
            playable(*final(self)),
            reveal_rel(*old(self), x as int, y as int, *final(self)),
            revealed_by(*old(self), x as int, y as int, *final(self), *old(rng), *final(rng)),
            old(self).placed ==> final(self).placed && *final(rng) == *old(rng),
    {
        if self.over {
            return;
        }
        let i = match self.index(x as i32, y as i32) {
            Some(i) => i,
            None => {
                return;
            },
        };
        proof {
            lemma_cell_at(self, x as int, y as int);
        }
        if self.cells[i].revealed || self.cells[i].flagged {
            return;
        }
        let ghost g = *self;
        if !self.placed {
            self.place_mines(x, y, rng);
            proof {
                lemma_count_ext(
                    |k: int| g.cells@[k].revealed,
                    |k: int| self.cells@[k].revealed,
                    g.size(),
                );
                lemma_count_bound(|k: int| mine_allowed(g, x as int, y as int, k), g.size());
            }
        }
        let ghost mid = *self;
        self.reveal_index(i);
        let ghost open = *self;
        proof {
            assert(self.mines == mid.mines);
            assert(self.size() == mid.size());
        }
        self.check_win();
        proof {
            assert(opened_state(mid, i as int, open));
            assert(win_checked(open, *self));
            if !self.over {
                assert(*self == open);
            }
            assert(revealed_by(g, x as int, y as int, *self, *old(rng), *rng));
        }
    }

    /// Whether toggling the flag on `(x, y)` keeps the flag counter in range.
    pub fn flag_in_range(&self, x: u8, y: u8) -> (r: bool)
        requires
            self.wf(),
        ensures
            r == flag_fits(*self, x as int, y as int),
    {
        if self.over {
            return true;
        }
        match self.index(x as i32, y as i32) {
            None => true,
            Some(i) => {
                proof {
                    lemma_cell_at(self, x as int, y as int);
                }
                let c = self.cells[i];
                if c.revealed {
                    true
                } else if c.flagged {
                    self.flags > i16::MIN
                } else {
                    self.flags < i16::MAX
                }
            },
        }
    }

    /// Toggles the flag on `(x, y)`, unless the cell is open or the game is
    /// over.
    pub fn flag(&mut self, x: u8, y: u8)
        requires
            old(self).wf(),
            flag_fits(*old(self), x as int, y as int),
        ensures
            final(self).wf(),
            old(self).counted() ==> final(self).counted(),
            flag_rel(*old(self), x as int, y as int, *final(self)),
            flag_fits(*final(self), x as int, y as int),
    {
        if self.over {
            return;
        }
        let i = match self.index(x as i32, y as i32) {
            Some(i) => i,
            None => {
                return;
            },
        };
        proof {
            lemma_cell_at(self, x as int, y as int);
        }
        if self.cells[i].revealed {
            return;
        }
        let ghost g = *self;
        let mut c = self.cells[i];
        c.flagged = !c.flagged;
        self.cells.set(i, c);
        if c.flagged {
            self.flags = self.flags + 1;
        } else {
            self.flags = self.flags - 1;
        }
        proof {
            lemma_count_ext(
                |k: int| g.cells@[k].revealed,
                |k: int| self.cells@[k].revealed,
                g.size(),
            );
        }
    }
}


/// Index `k` is among the first `t` entries of `s`.
pub open spec fn seen(s: Seq<usize>, t: int, k: int) -> bool {
    exists|u: int| 0 <= u < t && s[u] == k as usize
}

/// One more entry seen.
proof fn lemma_seen_step(s: Seq<usize>, t: int, k: int)
    requires
        0 <= t < s.len(),
    ensures
        seen(s, t + 1, k) == (seen(s, t, k) || s[t] == k as usize),
{
    if seen(s, t + 1, k) {
        let u = choose|u: int| 0 <= u < t + 1 && s[u] == k as usize;
        if u < t {
            assert(seen(s, t, k));
        }
    }
    if seen(s, t, k) {
        let u = choose|u: int| 0 <= u < t && s[u] == k as usize;
        assert(0 <= u < t + 1 && s[u] == k as usize);
    }
    if s[t] == k as usize {
        assert(0 <= t < t + 1 && s[t] == k as usize);
    }
}

/// `new` follows from `g` by opening the squares `coords` in turn, stopping
/// at a loss, and then checking for the win.
pub open spec fn chord_chain(g: Game, coords: Seq<(u8, u8)>, new: Game) -> bool
    decreases coords.len(),
{
    if coords.len() == 0 {
        win_checked(g, new)
    } else {
        exists|g1: Game|
            #[trigger] reveal_rel(g, coords[0].0 as int, coords[0].1 as int, g1) && if g1.over
                && !g1.won {
                new == g1
            } else {
                chord_chain(g1, coords.drop_first(), new)
            }
    }
}

/// `new` and the generator `r1` follow from `g` and the generator `r0` by
/// opening the squares `coords` in turn as `revealed_by` does, stopping at a
/// loss, and checking for a win at the end.
pub open spec fn drawn_chain<R: Rand>(g: Game, coords: Seq<(u8, u8)>, new: Game, r0: R, r1: R) -> bool
    decreases coords.len(),
{
    if coords.len() == 0 {
        win_checked(g, new) && r1 == r0
    } else {
        exists|g1: Game, rm: R|
            #[trigger] revealed_by(g, coords[0].0 as int, coords[0].1 as int, g1, r0, rm) && if g1.over
                && !g1.won {
                new == g1 && r1 == rm
            } else {
                drawn_chain(g1, coords.drop_first(), new, rm, r1)
            }
    }
}

/// `ps` lists, in increasing order, the covered unflagged cells around `(x, y)`.
pub open spec fn pending_list(g: Game, x: int, y: int, ps: Seq<usize>) -> bool {
    &&& increasing(ps)
    &&& forall|t: int| 0 <= t < ps.len() ==> (#[trigger] ps[t] as int) < g.size()
    &&& forall|k: int|
        0 <= k < g.size() ==> (ps.contains(k as usize) <==> (#[trigger] g.near(x, y, k)
            && !g.cells@[k].flagged && !g.cells@[k].revealed))
}

/// Coordinates of the listed cells.
pub open spec fn coords_of(g: Game, ps: Seq<usize>) -> Seq<(u8, u8)> {
    ps.map_values(|k: usize| (g.cells@[k as int].x, g.cells@[k as int].y))
}

/// `new` is `old` after a chord on `(x, y)`: on a covered cell it is a plain
/// reveal; on an open number whose flags around match it, every covered
/// unflagged neighbour is opened in order (stopping at a loss) and the win
/// checked; otherwise nothing happens.
pub open spec fn chord_rel(old: Game, x: int, y: int, new: Game) -> bool {
    match old.index_at(x, y) {
        Option::None => new == old,
        Option::Some(i) => if old.over {
            new == old
        } else if !old.cells@[i as int].revealed {
            reveal_rel(old, x, y, new)
        } else if old.cells@[i as int].adj == 0 || count_below(
            |k: int| old.near(x, y, k) && old.cells@[k].flagged,
            old.size(),
        ) != old.cells@[i as int].adj as int {
            new == old
        } else {
            exists|ps: Seq<usize>|
                #[trigger] pending_list(old, x, y, ps) && chord_chain(old, coords_of(old, ps), new)
        },
    }
}

/// `new` and the generator `r1` follow from `old` and the generator `r0` by
/// a chord on `(x, y)`: as `chord_rel`, with each opening drawing from the
/// generator as `revealed_by` does, and the generator untouched wherever
/// nothing is opened.
pub open spec fn chorded_by<R: Rand>(old: Game, x: int, y: int, new: Game, r0: R, r1: R) -> bool {
    match old.index_at(x, y) {
        Option::None => new == old && r1 == r0,
        Option::Some(i) => if old.over {
            new == old && r1 == r0
        } else if !old.cells@[i as int].revealed {
            revealed_by(old, x, y, new, r0, r1)
        } else if old.cells@[i as int].adj == 0 || count_below(
            |k: int| old.near(x, y, k) && old.cells@[k].flagged,
            old.size(),
        ) != old.cells@[i as int].adj as int {
            new == old && r1 == r0
        } else {
            exists|ps: Seq<usize>|
                #[trigger] pending_list(old, x, y, ps) && drawn_chain(old, coords_of(old, ps), new, r0, r1)
        },
    }
}

impl Game {
    /// Chord on `(x, y)`: on a covered cell, reveal it; on an open number
    /// whose neighbouring flags match it, open every other covered neighbour.
    pub fn chord<R: Rand>(&mut self, x: u8, y: u8, rng: &mut R)
        requires
            playable(*old(self)),
        ensures
            playable(*final(self)),
            chord_rel(*old(self), x as int, y as int, *final(self)),
            chorded_by(*old(self), x as int, y as int, *final(self), *old(rng), *final(rng)),
            chord_draws_nothing(*old(self), x as int, y as int) ==> *final(rng) == *old(rng),
    {
        if self.over {
            return;
        }
        let i = match self.index(x as i32, y as i32) {
            Some(i) => i,
            None => {
                return;
            },
        };
        proof {
            lemma_cell_at(self, x as int, y as int);
            lemma_size_bound(self);
        }
        if !self.cells[i].revealed {
            self.reveal_cell(x, y, rng);
            return;
        }
        let adj = self.cells[i].adj;
        if adj == 0 {
            return;
        }
        let ghost g = *self;
        let ghost n = g.size();
        let around = self.neighbor_indices(x, y);
        let ghost fl = |k: int| g.cells@[k].flagged;
        let mut flagged: usize = 0;
        let mut t: usize = 0;
        while t < around.len()
            invariant
                g == *self,
                fl == (|k: int| g.cells@[k].flagged),
                0 <= t <= around@.len(),
                around@.len() <= 8,
                forall|u: int| 0 <= u < around@.len() ==> (#[trigger] around@[u] as int) < n,
                n == g.size(),
                flagged as int == seq_count(around@.take(t as int), fl),
                flagged <= t,
            decreases around@.len() - t,
        {
            let j = around[t];
            assert(around@.take(t + 1).drop_last() == around@.take(t as int));
            assert(around@.take(t + 1).last() == j);
            if self.cells[j].flagged {
                flagged = flagged + 1;
            }
            t = t + 1;
        }
        proof {
            assert(around@.take(around@.len() as int) == around@);
            assert(around@.no_duplicates());
            lemma_seq_count(around@, fl, n);
            lemma_count_ext(
                |k: int| 0 <= k && around@.contains(k as usize) && fl(k),
                |k: int| g.near(x as int, y as int, k) && g.cells@[k].flagged,
                n,
            );
        }
        if flagged != adj as usize {
            return;
        }
        let mut pending: Vec<(u8, u8)> = Vec::new();
        let ghost mut ps: Seq<usize> = Seq::empty();
        let mut t: usize = 0;
        while t < around.len()
            invariant
                g == *self,
                0 <= t <= around@.len(),
                n == g.size(),
                n <= 65025,
                increasing(around@),
                forall|u: int| 0 <= u < around@.len() ==> (#[trigger] around@[u] as int) < n,
                increasing(ps),
                ps.len() > 0 ==> t > 0 && ps[ps.len() - 1] <= around@[t - 1],
                forall|u: int| 0 <= u < ps.len() ==> (#[trigger] ps[u] as int) < n,
                forall|k: int|
                    0 <= k < n ==> (#[trigger] ps.contains(k as usize) <==> (seen(around@, t as int, k)
                        && !g.cells@[k].flagged && !g.cells@[k].revealed)),
                pending@ == coords_of(g, ps),
            decreases around@.len() - t,
        {
            let j = around[t];
            let c = self.cells[j];
            let ghost old_ps = ps;
            if !c.flagged && !c.revealed {
                pending.push((c.x, c.y));
                proof {
                    ps = ps.push(j);
                    assert forall|k: int| 0 <= k < n implies (#[trigger] ps.contains(k as usize) <==> (seen(around@, t + 1, k)
                        && !g.cells@[k].flagged && !g.cells@[k].revealed)) by {
                        lemma_seen_step(around@, t as int, k);
                        if old_ps.contains(k as usize) {
                            let v = choose|v: int| 0 <= v < old_ps.len() && old_ps[v] == k as usize;
                            assert(ps[v] == k as usize);
                        }
                        if ps.contains(k as usize) {
                            let v = choose|v: int| 0 <= v < ps.len() && ps[v] == k as usize;
                            if v < old_ps.len() {
                                assert(old_ps[v] == k as usize);
                            }
                        }
                        if k == j as int {
                            assert(ps[ps.len() - 1] == j);
                        }
                    }
                    assert(pending@ =~= coords_of(g, ps));
                }
            } else {
                proof {
                    assert forall|k: int| 0 <= k < n implies (#[trigger] ps.contains(k as usize) <==> (seen(around@, t + 1, k)
                        && !g.cells@[k].flagged && !g.cells@[k].revealed)) by {
                        lemma_seen_step(around@, t as int, k);
                    }
                }
            }
            t = t + 1;
        }
        proof {
            assert forall|k: int| 0 <= k < n implies (ps.contains(k as usize) <==> (#[trigger] g.near(x as int, y as int, k)
                && !g.cells@[k].flagged && !g.cells@[k].revealed)) by {
                if g.near(x as int, y as int, k) {
                    assert(around@.contains(k as usize));
                    let u = choose|u: int| 0 <= u < around@.len() && around@[u] == k as usize;
                    assert(seen(around@, around@.len() as int, k));
                }
                if seen(around@, around@.len() as int, k) {
                    let u = choose|u: int| 0 <= u < around@.len() && around@[u] == k as usize;
                    assert(around@.contains(k as usize));
                }
            }
            assert(pending_list(g, x as int, y as int, ps));
        }
        let ghost coords = pending@;
        proof {
            assert(coords.subrange(0, coords.len() as int) =~= coords);
        }
        let mut t: usize = 0;
        while t < pending.len()
            invariant
                playable(*self),
                coords == pending@,
                g == *old(self),
                old(self).index_at(x as int, y as int) == Some(i),
                !g.over,
                g.cells@[i as int].revealed,
                g.cells@[i as int].adj == adj,
                adj != 0,
                count_below(|k: int| g.near(x as int, y as int, k) && g.cells@[k].flagged, g.size())
                    == adj as int,
                pending_list(g, x as int, y as int, ps),
                coords == coords_of(g, ps),
                0 <= t <= pending@.len(),
                forall|f: Game|
                    chord_chain(*self, coords.subrange(t as int, coords.len() as int), f)
                        ==> #[trigger] chord_chain(g, coords, f),
                forall|f: Game, rf: R|
                    drawn_chain(*self, coords.subrange(t as int, coords.len() as int), f, *rng, rf)
                        ==> #[trigger] drawn_chain(g, coords, f, *old(rng), rf),
                g.placed ==> self.placed && *rng == *old(rng),
            decreases pending@.len() - t,
        {
            let (nx, ny) = pending[t];
            let ghost cur = *self;
            let ghost rcur = *rng;
            self.reveal_cell(nx, ny, rng);
            proof {
                let rest = coords.subrange(t as int, coords.len() as int);
                assert(rest[0] == (nx, ny));
                assert(rest.drop_first() =~= coords.subrange(t + 1, coords.len() as int));
                assert forall|f: Game|
                    chord_chain(*self, coords.subrange(t + 1, coords.len() as int), f) implies #[trigger] chord_chain(g, coords, f) by {
                    if !(self.over && !self.won) {
                        assert(reveal_rel(cur, rest[0].0 as int, rest[0].1 as int, *self));
                        assert(chord_chain(cur, rest, f));
                    }
                }
                assert forall|f: Game, rf: R|
                    drawn_chain(*self, coords.subrange(t + 1, coords.len() as int), f, *rng, rf) implies #[trigger] drawn_chain(g, coords, f, *old(rng), rf) by {
                    if !(self.over && !self.won) {
                        assert(revealed_by(cur, rest[0].0 as int, rest[0].1 as int, *self, rcur, *rng));
                        assert(drawn_chain(cur, rest, f, rcur, rf));
                    }
                }
                if self.over && !self.won {
                    assert(reveal_rel(cur, rest[0].0 as int, rest[0].1 as int, *self));
                    assert(chord_chain(cur, rest, *self));
                    assert(chord_chain(g, coords, *self));
                    assert(pending_list(g, x as int, y as int, ps) && chord_chain(g, coords_of(g, ps), *self));
                    assert(revealed_by(cur, rest[0].0 as int, rest[0].1 as int, *self, rcur, *rng));
                    assert(drawn_chain(cur, rest, *self, rcur, *rng));
                    assert(drawn_chain(g, coords, *self, *old(rng), *rng));
                }
            }
            if self.over && !self.won {
                return;
            }
            t = t + 1;
        }
        let ghost last = *self;
        proof {
            lemma_size_bound(self);
        }
        self.check_win();
        proof {
            assert(coords.subrange(coords.len() as int, coords.len() as int) =~= Seq::<(u8, u8)>::empty());
            assert(chord_chain(last, coords.subrange(t as int, coords.len() as int), *self));
            assert(drawn_chain(last, coords.subrange(t as int, coords.len() as int), *self, *rng, *rng));
            if !self.over {
                assert(*self == last);
            }
            assert(pending_list(g, x as int, y as int, ps) && chord_chain(g, coords_of(g, ps), *self));
            assert(drawn_chain(g, coords_of(g, ps), *self, *old(rng), *rng));
        }
    }
}


/// The counter's text for `n`: a minus sign and two digits (capped at 99)
/// below zero, else at least three digits, zero-padded.
pub open spec fn counter_text(n: int) -> Seq<char> {
    if n < 0 {
        seq!['-'] + zero_pad(decimal(if -n > 99 { 99 } else { (-n) as nat }), 2)
    } else {
        zero_pad(decimal(n as nat), 3)
    }
}

/// The clock's text for `seconds`: minutes, a colon, two digits of seconds.
pub open spec fn time_text(seconds: nat) -> Seq<char> {
    decimal(seconds / 60) + seq![':'] + zero_pad(decimal(seconds % 60), 2)
}

/// Law: the counter reads back as its number. From zero up it is the
/// number's digits, three of them below a thousand; below zero it is a
/// minus sign and two digits that read as the number's size, capped at 99.
pub proof fn lemma_counter_text_reads(n: int)
    ensures
        n >= 0 ==> read_decimal(counter_text(n)) == Some(n as nat) && counter_text(n).len() >= 3,
        0 <= n < 1000 ==> counter_text(n).len() == 3,
        n < 0 ==> counter_text(n).len() == 3 && counter_text(n)[0] == '-' && read_decimal(
            counter_text(n).drop_first(),
        ) == Some(if -n > 99 { 99nat } else { (-n) as nat }),
{
    if n >= 0 {
        lemma_decimal_reads_back(n as nat);
        lemma_zero_pad_reads_same(decimal(n as nat), 3);
    } else {
        let v: nat = if -n > 99 { 99nat } else { (-n) as nat };
        lemma_decimal_reads_back(v);
        lemma_zero_pad_reads_same(decimal(v), 2);
        assert(counter_text(n).drop_first() =~= zero_pad(decimal(v), 2));
    }
}

/// Law: the clock reads back as its time. Its last three characters are a
/// colon and two digits; the digits before the colon read as whole minutes
/// and the two after as the seconds left over, below sixty, so that together
/// they give the time.
pub proof fn lemma_time_text_reads(seconds: nat)
    ensures
        time_text(seconds).len() >= 4,
        time_text(seconds)[time_text(seconds).len() - 3] == ':',
        read_decimal(time_text(seconds).take(time_text(seconds).len() - 3)) matches Some(m)
            && read_decimal(time_text(seconds).skip(time_text(seconds).len() - 2)) matches Some(sec)
            && sec < 60 && m * 60 + sec == seconds,
{
    let m = seconds / 60;
    let sec = seconds % 60;
    lemma_decimal_reads_back(m);
    lemma_decimal_reads_back(sec);
    lemma_zero_pad_reads_same(decimal(sec), 2);
    let t = time_text(seconds);
    let d = decimal(m);
    assert(t.take(t.len() - 3) =~= d);
    assert(t.skip(t.len() - 2) =~= zero_pad(decimal(sec), 2));
    vstd::arithmetic::div_mod::lemma_fundamental_div_mod(seconds as int, 60);
}

/// A counter in three characters: a minus sign and two digits (capped at
/// 99) below zero, else at least three digits, zero-padded.
pub fn pad3(n: i16) -> (r: String)
    requires
        n > i16::MIN,
    ensures
        r@ == counter_text(n as int),
{
    let mut out = String::new();
    if n < 0 {
        let neg: i16 = -n;
        let mag: i16 = if neg < 99 {
            neg
        } else {
            99
        };
        out.append("-");
        proof {
            reveal_strlit("-");
        }
        push_padded(&mut out, mag as u32, 2);
    } else {
        push_padded(&mut out, n as u32, 3);
    }
    out
}

/// Elapsed time as minutes and two-digit seconds, `m:ss`.
pub fn format_time(seconds: u32) -> (r: String)
    ensures
        r@ == time_text(seconds as nat),
{
    let m = seconds / 60;
    let s = seconds % 60;
    let mut out = String::new();
    push_decimal(&mut out, m);
    out.append(":");
    proof {
        reveal_strlit(":");
    }
    push_padded(&mut out, s, 2);
    out
}


/// Law: the first click is safe. On a board with no mines yet, opening a
/// covered, unflagged square never loses: the square opens as a safe cell,
/// the mine counter counts the mines laid, and when enough cells lie away
/// from the square no mine touches it.
pub proof fn lemma_first_click_safe(old: Game, x: int, y: int, new: Game)
    requires
        old.wf(),
        !old.placed,
        !old.over,
        !old.won,
        forall|k: int| 0 <= k < old.size() ==> !(#[trigger] old.cells@[k]).mine,
        0 <= x < old.width,
        0 <= y < old.height,
        !old.cells@[y * old.width + x].revealed,
        !old.cells@[y * old.width + x].flagged,
        reveal_rel(old, x, y, new),
    ensures
        new.cells@[y * old.width + x].revealed,
        !new.cells@[y * old.width + x].mine,
        !(new.over && !new.won),
        new.mines as int == new.mine_count(),
        new.mine_count() <= old.mines,
        count_below(|j: int| !near_or_at(old, x, y, j), old.size()) >= old.mines ==> new.mine_count()
            == old.mines,
        count_below(|j: int| !near_or_at(old, x, y, j), old.size()) >= old.mines ==> forall|k: int|
            0 <= k < new.size() && near_or_at(old, x, y, k) ==> !(#[trigger] new.cells@[k]).mine,
{
    lemma_cell_at(&old, x, y);
    lemma_size_bound(&old);
    let i = y * old.width + x;
    assert(old.index_at(x, y) == Some(i as usize));
    let (mid, open) = choose|mid: Game, open: Game|
        {
            &&& (if old.placed {
                mid == old
            } else {
                mines_placed(old, x, y, mid)
            })
            &&& #[trigger] opened_state(mid, i, open)
            &&& win_checked(open, new)
        };
    let chosen = choose|chosen: spec_fn(int) -> bool|
        {
            &&& count_below(chosen, old.size()) == mid.mines
            &&& forall|k: int| 0 <= k < old.size() && #[trigger] chosen(k) ==> mine_allowed(old, x, y, k)
            &&& forall|k: int|
                0 <= k < old.size() ==> (#[trigger] mid.cells@[k]).mine == (old.cells@[k].mine || chosen(k))
        };
    assert(at_square(old, x, y, i));
    assert(!mid.cells@[i].mine) by {
        if chosen(i) {
            assert(mine_allowed(old, x, y, i));
        }
    }
    assert(!open.over);
    assert(opened_cell(mid.cells@, i, i).revealed);
    assert(open.cells@[i] == opened_cell(mid.cells@, i, i));
    assert forall|k: int| 0 <= k < new.size() implies (#[trigger] new.cells@[k]).mine == mid.cells@[k].mine by {
        assert(open.cells@[k] == opened_cell(mid.cells@, i, k));
    }
    lemma_count_ext(|j: int| new.cells@[j].mine, chosen, new.size());
    if count_below(|j: int| !near_or_at(old, x, y, j), old.size()) >= old.mines {
        lemma_count_ext(|k: int| mine_allowed(old, x, y, k), |j: int| !near_or_at(old, x, y, j), old.size());
    }
}

/// Law: winning is clearing. On a running board whose counter counts its
/// mines and where no mine is revealed, the revealed counter reaches the
/// number of safe cells exactly when every safe cell is revealed; flags play
/// no part.
pub proof fn lemma_win_iff_cleared(g: Game)
    requires
        g.wf(),
        g.counted(),
        !g.over,
        g.mines as int == g.mine_count(),
        forall|k: int| 0 <= k < g.size() && (#[trigger] g.cells@[k]).revealed ==> !g.cells@[k].mine,
    ensures
        (g.revealed_count as int >= g.width as int * g.height as int - g.mines as int) <==> (forall|k: int|
            0 <= k < g.size() && !(#[trigger] g.cells@[k]).mine ==> g.cells@[k].revealed),
{
    let n = g.size();
    lemma_size_bound(&g);
    let rev = |k: int| g.cells@[k].revealed;
    let safe = |k: int| !g.cells@[k].mine;
    let mine = |k: int| g.cells@[k].mine;
    let all = |k: int| true;
    lemma_count_split(all, mine, n);
    lemma_count_ext(|k: int| all(k) && mine(k), mine, n);
    lemma_count_ext(|k: int| all(k) && !mine(k), safe, n);
    lemma_count_all(n);
    lemma_count_ext(|k: int| g.cells@[k].revealed, rev, n);
    assert(g.revealed_count as int == count_below(rev, n));
    assert(count_below(safe, n) == n - g.mines as int);
    assert forall|k: int| 0 <= k < n && #[trigger] rev(k) implies safe(k) by {
        assert(g.cells@[k].revealed);
    }
    lemma_count_mono(rev, safe, n);
    if g.revealed_count as int >= g.width as int * g.height as int - g.mines as int {
        assert(count_below(rev, n) == count_below(safe, n));
        assert forall|k: int| 0 <= k < n && !(#[trigger] g.cells@[k]).mine implies g.cells@[k].revealed by {
            assert(safe(k));
        }
    }
    if forall|k: int| 0 <= k < n && !(#[trigger] g.cells@[k]).mine ==> g.cells@[k].revealed {
        assert forall|k: int| 0 <= k < n && #[trigger] safe(k) implies rev(k) by {
            assert(!g.cells@[k].mine);
        }
        lemma_count_mono(safe, rev, n);
    }
}

/// Every index below the bound counts.
proof fn lemma_count_all(n: int)
    ensures
        n >= 0 ==> count_below(|k: int| true, n) == n,
    decreases n,
{
    if n > 0 {
        lemma_count_all(n - 1);
    }
}

/// Law: the flag counter counts the flags. A toggle on a board whose counter
/// counts its flagged cells leaves a board whose counter still does; it
/// touches no cell but the toggled one, and that one only while it is
/// covered and the game runs.
pub proof fn lemma_flag_counts(a: Game, x: int, y: int, b: Game)
    requires
        a.wf(),
        a.flags as int == count_below(|k: int| a.cells@[k].flagged, a.size()),
        flag_rel(a, x, y, b),
    ensures
        b.flags as int == count_below(|k: int| b.cells@[k].flagged, b.size()),
        b.cells@.len() == a.cells@.len(),
        forall|k: int|
            0 <= k < a.size() && a.index_at(x, y) != Some(k as usize) ==> #[trigger] b.cells@[k]
                == a.cells@[k],
        a.index_at(x, y) matches Some(i) ==> (b.cells@[i as int].flagged != a.cells@[i as int].flagged
            <==> !a.over && !a.cells@[i as int].revealed),
{
    if let Some(iu) = a.index_at(x, y) {
        let i = iu as int;
        lemma_cell_at(&a, x, y);
        if !(a.over || a.cells@[i].revealed) {
            let fa = |k: int| a.cells@[k].flagged;
            let fb = |k: int| b.cells@[k].flagged;
            lemma_count_single(fa, i, a.size());
            lemma_count_single(fb, i, a.size());
            lemma_count_ext(|k: int| fa(k) && k != i, |k: int| fb(k) && k != i, a.size());
            lemma_count_ext(fa, |k: int| a.cells@[k].flagged, a.size());
            lemma_count_ext(fb, |k: int| b.cells@[k].flagged, a.size());
        }
    }
}

/// Law: a flag toggled twice is gone again; the board is as before. Once a
/// toggle has been played, the counter always has room for the one that
/// undoes it.
pub proof fn lemma_flag_twice(a: Game, x: int, y: int, b: Game, c: Game)
    requires
        a.wf(),
        flag_rel(a, x, y, b),
        flag_rel(b, x, y, c),
    ensures
        flag_fits(b, x, y),
        c.cells@ == a.cells@,
        c.flags == a.flags,
        same_frame(a, c),
        c.mines == a.mines,
        c.placed == a.placed,
{
    if let Some(i) = a.index_at(x, y) {
        let ii = i as int;
        lemma_cell_at(&a, x, y);
        if !(a.over || a.cells@[ii].revealed) {
            let ca = a.cells@[ii];
            assert(b.index_at(x, y) == Some(i));
            assert(b.cells@[ii] == with_flagged(ca, !ca.flagged));
            assert(!b.over && !b.cells@[ii].revealed);
            assert(c.cells@ == b.cells@.update(ii, with_flagged(b.cells@[ii], !b.cells@[ii].flagged)));
            assert(with_flagged(with_flagged(ca, !ca.flagged), ca.flagged) == ca);
            assert(c.cells@ =~= a.cells@);
        }
    }
}

/// Law: a losing click shows every mine and marks the one that went off.
pub proof fn lemma_loss_shows_mines(old: Game, x: int, y: int, new: Game)
    requires
        old.wf(),
        !old.over,
        reveal_rel(old, x, y, new),
        new.over && !new.won,
    ensures
        forall|k: int| 0 <= k < new.size() && (#[trigger] new.cells@[k]).mine ==> new.cells@[k].revealed,
        exists|i: int| 0 <= i < new.size() && (#[trigger] new.cells@[i]).exploded && new.cells@[i].mine,
{
    if let Some(iu) = old.index_at(x, y) {
        let i = iu as int;
        lemma_cell_at(&old, x, y);
        if !(old.over || old.cells@[i].revealed || old.cells@[i].flagged) {
            let (mid, open) = choose|mid: Game, open: Game|
                {
                    &&& (if old.placed {
                        mid == old
                    } else {
                        mines_placed(old, x, y, mid)
                    })
                    &&& #[trigger] opened_state(mid, i, open)
                    &&& win_checked(open, new)
                };
            assert(open.over);
            assert(new == open);
            assert(mid.cells@.len() == old.cells@.len());
            assert forall|k: int| 0 <= k < new.size() && (#[trigger] new.cells@[k]).mine implies new.cells@[k].revealed by {
                assert(new.cells@[k] == opened_cell(mid.cells@, i, k));
            }
            assert(new.cells@[i] == opened_cell(mid.cells@, i, i));
            assert(new.cells@[i].exploded && new.cells@[i].mine);
        }
    }
}

/// Opening a square of a placed board keeps its size and its mines, and
/// does not lose when the square holds no mine and the game was not lost.
pub proof fn lemma_reveal_placed(g: Game, x: int, y: int, g1: Game)
    requires
        g.wf(),
        g.placed,
        reveal_rel(g, x, y, g1),
    ensures
        g1.width == g.width,
        g1.height == g.height,
        g1.placed,
        g1.cells@.len() == g.cells@.len(),
        forall|k: int| 0 <= k < g.size() ==> (#[trigger] g1.cells@[k]).mine == g.cells@[k].mine
            && g1.cells@[k].x == g.cells@[k].x && g1.cells@[k].y == g.cells@[k].y
            && g1.cells@[k].adj == g.cells@[k].adj,
        g1.mines == g.mines,
        !(g.over && !g.won) && (g.index_at(x, y) matches Some(i) ==> !g.cells@[i as int].mine) ==> !(
        g1.over && !g1.won),
{
    if let Some(i) = g.index_at(x, y) {
        lemma_cell_at(&g, x, y);
        if !(g.over || g.cells@[i as int].revealed || g.cells@[i as int].flagged) {
            let (mid, open) = choose|mid: Game, open: Game|
                {
                    &&& (if g.placed {
                        mid == g
                    } else {
                        mines_placed(g, x, y, mid)
                    })
                    &&& #[trigger] opened_state(mid, i as int, open)
                    &&& win_checked(open, g1)
                };
            assert forall|k: int| 0 <= k < g.size() implies (#[trigger] g1.cells@[k]).mine == g.cells@[k].mine
                && g1.cells@[k].x == g.cells@[k].x && g1.cells@[k].y == g.cells@[k].y
                && g1.cells@[k].adj == g.cells@[k].adj by {
                assert(open.cells@[k] == opened_cell(mid.cells@, i as int, k));
                if open.over || (open.revealed_count as int) < open.width as int * open.height as int - open.mines as int {
                    assert(g1 == open);
                } else {
                    assert(g1.cells@[k] == with_flagged(open.cells@[k], open.cells@[k].flagged || open.cells@[k].mine));
                }
            }
        }
    }
}


/// Whatever the flood from `i` reaches is `i` itself or a mine-free cell.
proof fn lemma_flood_safe(cells: Seq<Cell>, i: int, k: int, steps: nat)
    ensures
        reach_in(cells, i, k, steps) ==> k == i || openable(cells[k]),
    decreases steps,
{
    if steps > 0 {
        lemma_flood_safe(cells, i, k, (steps - 1) as nat);
    }
}

/// Two boards with the same layout count the same mines.
proof fn lemma_same_layout_count(a: Game, b: Game)
    requires
        same_layout(a, b),
    ensures
        a.mine_count() == b.mine_count(),
{
    lemma_count_ext(|j: int| a.cells@[j].mine, |j: int| b.cells@[j].mine, a.size());
}

/// Opening a mine-free square of a consistent placed board keeps it
/// consistent: only safe cells open, and a win flags only mines.
pub proof fn lemma_reveal_keeps_consistent(g: Game, x: int, y: int, g1: Game)
    requires
        g.consistent(),
        g.placed,
        g.index_at(x, y) matches Some(i) ==> !g.cells@[i as int].mine,
        reveal_rel(g, x, y, g1),
    ensures
        g1.consistent(),
{
    lemma_reveal_placed(g, x, y, g1);
    if let Some(iu) = g.index_at(x, y) {
        let i = iu as int;
        lemma_cell_at(&g, x, y);
        if !(g.over || g.cells@[i].revealed || g.cells@[i].flagged) {
            let (mid, open) = choose|mid: Game, open: Game|
                {
                    &&& (if g.placed {
                        mid == g
                    } else {
                        mines_placed(g, x, y, mid)
                    })
                    &&& #[trigger] opened_state(mid, i, open)
                    &&& win_checked(open, g1)
                };
            let c1 = g.cells@.update(i, with_revealed(g.cells@[i], true));
            assert(same_layout(g, g1));
            lemma_same_layout_count(g, g1);
            assert forall|k: int| 0 <= k < g1.size() implies {
                &&& ((#[trigger] g1.cells@[k]).flagged ==> g1.cells@[k].mine)
                &&& (g1.cells@[k].revealed ==> !g1.cells@[k].mine)
                &&& (!g1.cells@[k].mine ==> g1.cells@[k].adj as int == g1.mines_around(k))
            } by {
                assert(open.cells@[k] == opened_cell(g.cells@, i, k));
                if flooded(c1, i, k) {
                    let st = choose|st: nat| #[trigger] reach_in(c1, i, k, st);
                    lemma_flood_safe(c1, i, k, st);
                }
                lemma_same_layout_around(g, g1, k);
                if open.over || (open.revealed_count as int) < open.width as int * open.height as int
                    - open.mines as int {
                    assert(g1 == open);
                } else {
                    assert(g1.cells@[k] == with_flagged(open.cells@[k], open.cells@[k].flagged || open.cells@[k].mine));
                }
            }
            assert(g1.wf());
        }
    }
}

/// Every cell that holds no mine is open.
pub open spec fn all_safe_open(g: Game) -> bool {
    forall|k: int| 0 <= k < g.size() && !(#[trigger] g.cells@[k]).mine ==> g.cells@[k].revealed
}

/// Law: opening a square on a running, consistent board whose mines are laid
/// wins the game only when every cell without a mine is open; and an opening
/// that finds no mine wins exactly then, so the game goes on while one safe
/// cell is still covered.
pub proof fn lemma_win_exactly_when_all_safe_open(old: Game, x: int, y: int, new: Game)
    requires
        old.consistent(),
        old.placed,
        !old.over,
        !old.won,
        reveal_rel(old, x, y, new),
    ensures
        new.won ==> all_safe_open(new),
        (old.index_at(x, y) matches Some(i) && !old.cells@[i as int].revealed
            && !old.cells@[i as int].flagged && !old.cells@[i as int].mine) ==> (new.won
            <==> all_safe_open(new)),
{
    lemma_reveal_placed(old, x, y, new);
    if let Some(iu) = old.index_at(x, y) {
        let i = iu as int;
        lemma_cell_at(&old, x, y);
        if !(old.cells@[i].revealed || old.cells@[i].flagged) {
            let (mid, open) = choose|mid: Game, open: Game|
                {
                    &&& (if old.placed {
                        mid == old
                    } else {
                        mines_placed(old, x, y, mid)
                    })
                    &&& #[trigger] opened_state(mid, i, open)
                    &&& win_checked(open, new)
                };
            if !old.cells@[i].mine {
                lemma_reveal_keeps_consistent(old, x, y, new);
                let n = old.size();
                let rev = |k: int| new.cells@[k].revealed;
                let safe = |k: int| !new.cells@[k].mine;
                let mine = |k: int| new.cells@[k].mine;
                assert forall|k: int| 0 <= k < n implies #[trigger] opened_cell(old.cells@, i, k).revealed
                    == rev(k) by {
                    assert(open.cells@[k] == opened_cell(old.cells@, i, k));
                    if !(open.over || (open.revealed_count as int) < open.width as int * open.height as int
                        - open.mines as int) {
                        assert(new.cells@[k] == with_flagged(open.cells@[k], open.cells@[k].flagged || open.cells@[k].mine));
                    }
                }
                lemma_count_ext(|k: int| opened_cell(old.cells@, i, k).revealed, rev, n);
                assert forall|k: int| 0 <= k < n && #[trigger] rev(k) implies safe(k) by {}
                lemma_count_mono(rev, safe, n);
                lemma_count_complement(mine, safe, n);
                assert(new.mine_count() == count_below(mine, n));
                if all_safe_open(new) {
                    assert forall|k: int| 0 <= k < n && #[trigger] safe(k) implies rev(k) by {}
                    lemma_count_mono(safe, rev, n);
                }
                if new.won {
                    assert(!(open.over || (open.revealed_count as int) < open.width as int * open.height as int
                        - open.mines as int));
                    assert forall|k: int| 0 <= k < new.size() && !(#[trigger] new.cells@[k]).mine implies new.cells@[k].revealed by {
                        assert(safe(k));
                    }
                }
            }
        }
    }
}

/// Opening squares that hold no mine, one after another on a placed board
/// that is not lost, never loses.
proof fn lemma_chain_safe(g: Game, coords: Seq<(u8, u8)>, new: Game)
    requires
        g.wf(),
        g.placed,
        !(g.over && !g.won),
        forall|t: int|
            0 <= t < coords.len() ==> (g.index_at((#[trigger] coords[t]).0 as int, coords[t].1 as int)
                matches Some(k) ==> !g.cells@[k as int].mine),
        chord_chain(g, coords, new),
    ensures
        !(new.over && !new.won),
    decreases coords.len(),
{
    if coords.len() > 0 {
        let g1 = choose|g1: Game|
            #[trigger] reveal_rel(g, coords[0].0 as int, coords[0].1 as int, g1) && if g1.over
                && !g1.won {
                new == g1
            } else {
                chord_chain(g1, coords.drop_first(), new)
            };
        assert(coords[0] == coords[0]);
        lemma_reveal_placed(g, coords[0].0 as int, coords[0].1 as int, g1);
        assert(g1.wf());
        let rest = coords.drop_first();
        assert forall|t: int|
            0 <= t < rest.len() implies (g1.index_at((#[trigger] rest[t]).0 as int, rest[t].1 as int)
                matches Some(k) ==> !g1.cells@[k as int].mine) by {
            assert(rest[t] == coords[t + 1]);
            if let Some(k) = g.index_at(rest[t].0 as int, rest[t].1 as int) {
                lemma_cell_at(&g, rest[t].0 as int, rest[t].1 as int);
            }
        }
        lemma_chain_safe(g1, rest, new);
    }
}

/// Law: a chord never loses when the flags are right. On a consistent
/// placed board (every flag on a mine), chording an open square opens only
/// mine-free cells.
pub proof fn lemma_chord_safe(old: Game, x: int, y: int, new: Game)
    requires
        old.consistent(),
        old.placed,
        !old.over,
        !old.won,
        0 <= x < old.width,
        0 <= y < old.height,
        old.cells@[y * old.width + x].revealed,
        chord_rel(old, x, y, new),
    ensures
        !(new.over && !new.won),
{
    lemma_cell_at(&old, x, y);
    lemma_size_bound(&old);
    let i = y * old.width + x;
    let n = old.size();
    let c = old.cells@[i];
    if c.adj != 0 && count_below(|k: int| old.near(x, y, k) && old.cells@[k].flagged, n) == c.adj as int {
        let ps = choose|ps: Seq<usize>|
            #[trigger] pending_list(old, x, y, ps) && chord_chain(old, coords_of(old, ps), new);
        let nf = |k: int| old.near(x, y, k) && old.cells@[k].flagged;
        let nm = |k: int| old.adjacent(i, k) && old.cells@[k].mine;
        assert forall|k: int| 0 <= k < n && #[trigger] nf(k) implies nm(k) by {}
        lemma_count_mono(nf, nm, n);
        let coords = coords_of(old, ps);
        assert forall|t: int|
            0 <= t < coords.len() implies (old.index_at((#[trigger] coords[t]).0 as int, coords[t].1 as int)
                matches Some(k) ==> !old.cells@[k as int].mine) by {
            let k = ps[t] as int;
            assert(ps.contains(ps[t]));
            let ck = old.cells@[k];
            assert(coords[t] == (ck.x, ck.y));
            lemma_cell_at(&old, ck.x as int, ck.y as int);
            lemma_coords_unique(&old, k, ck.y * old.width + ck.x);
            if ck.mine {
                assert(nm(k));
                assert(nf(k));
            }
        }
        lemma_chain_safe(old, coords, new);
    }
}

/// One opening on a placed board: an open cell stays open, a flag stays put
/// while the game runs, the opened square itself is open afterwards unless
/// the game ended, and a finished game is left alone.
proof fn lemma_reveal_keeps_open(g: Game, cx: int, cy: int, g1: Game, j: int)
    requires
        g.wf(),
        g.placed,
        reveal_rel(g, cx, cy, g1),
        0 <= j < g.size(),
    ensures
        g1.wf(),
        g.over ==> g1 == g,
        g.cells@[j].revealed ==> g1.cells@[j].revealed,
        !g1.over ==> g1.cells@[j].flagged == g.cells@[j].flagged,
        (g.index_at(cx, cy) == Some(j as usize) && !g.cells@[j].flagged) ==> g1.cells@[j].revealed
            || g1.over,
{
    lemma_reveal_placed(g, cx, cy, g1);
    assert(g1.wf());
    if let Some(i) = g.index_at(cx, cy) {
        lemma_cell_at(&g, cx, cy);
        lemma_size_bound(&g);
        assert(i as int == cy * g.width + cx);
        if !(g.over || g.cells@[i as int].revealed || g.cells@[i as int].flagged) {
            let (mid, open) = choose|mid: Game, open: Game|
                {
                    &&& (if g.placed {
                        mid == g
                    } else {
                        mines_placed(g, cx, cy, mid)
                    })
                    &&& #[trigger] opened_state(mid, i as int, open)
                    &&& win_checked(open, g1)
                };
            assert(open.cells@[j] == opened_cell(g.cells@, i as int, j));
            if !(open.over || (open.revealed_count as int) < open.width as int * open.height as int
                - open.mines as int) {
                assert(g1.cells@[j] == with_flagged(open.cells@[j], open.cells@[j].flagged || open.cells@[j].mine));
            }
        }
    }
}

/// Along a chord's openings on a placed board, a cell that is open, or that
/// is unflagged and named by one of the openings, ends up open unless the
/// game ends; and a finished game stays finished.
proof fn lemma_chain_opens(g: Game, coords: Seq<(u8, u8)>, new: Game, j: int)
    requires
        g.wf(),
        g.placed,
        0 <= j < g.size(),
        chord_chain(g, coords, new),
        g.cells@[j].revealed || (!g.cells@[j].flagged && exists|t: int|
            0 <= t < coords.len() && #[trigger] coords[t] == (g.cells@[j].x, g.cells@[j].y)),
    ensures
        new.cells@.len() == g.cells@.len(),
        new.cells@[j].revealed || new.over,
        g.over ==> new.over,
        forall|k: int| 0 <= k < g.size() ==> #[trigger] new.cells@[k].mine == g.cells@[k].mine,
    decreases coords.len(),
{
    if coords.len() == 0 {
        if !(g.over || (g.revealed_count as int) < g.width as int * g.height as int - g.mines as int) {
            assert(new.cells@[j] == with_flagged(g.cells@[j], g.cells@[j].flagged || g.cells@[j].mine));
            assert forall|k: int| 0 <= k < g.size() implies #[trigger] new.cells@[k].mine == g.cells@[k].mine by {
                assert(new.cells@[k] == with_flagged(g.cells@[k], g.cells@[k].flagged || g.cells@[k].mine));
            }
        }
    } else {
        let g1 = choose|g1: Game|
            #[trigger] reveal_rel(g, coords[0].0 as int, coords[0].1 as int, g1) && if g1.over
                && !g1.won {
                new == g1
            } else {
                chord_chain(g1, coords.drop_first(), new)
            };
        lemma_reveal_keeps_open(g, coords[0].0 as int, coords[0].1 as int, g1, j);
        lemma_reveal_placed(g, coords[0].0 as int, coords[0].1 as int, g1);
        let rest = coords.drop_first();
        if !(g1.over && !g1.won) {
            if g1.cells@[j].revealed || g1.over {
                if g1.over {
                    lemma_chain_over(g1, rest, new);
                } else {
                    lemma_chain_opens(g1, rest, new, j);
                }
            } else {
                let t = choose|t: int|
                    0 <= t < coords.len() && #[trigger] coords[t] == (g.cells@[j].x, g.cells@[j].y);
                if t == 0 {
                    lemma_cell_at(&g, g.cells@[j].x as int, g.cells@[j].y as int);
                    lemma_coords_unique(&g, j, g.cells@[j].y * g.width + g.cells@[j].x);
                } else {
                    assert(rest[t - 1] == coords[t]);
                    lemma_chain_opens(g1, rest, new, j);
                }
            }
        }
    }
}

/// Once the game is over, the rest of a chord's openings change nothing that
/// matters: the game stays over.
proof fn lemma_chain_over(g: Game, coords: Seq<(u8, u8)>, new: Game)
    requires
        g.over,
        chord_chain(g, coords, new),
    ensures
        new.over,
        new.cells@ == g.cells@,
    decreases coords.len(),
{
    if coords.len() > 0 {
        let g1 = choose|g1: Game|
            #[trigger] reveal_rel(g, coords[0].0 as int, coords[0].1 as int, g1) && if g1.over
                && !g1.won {
                new == g1
            } else {
                chord_chain(g1, coords.drop_first(), new)
            };
        assert(g1 == g);
        if !(g1.over && !g1.won) {
            lemma_chain_over(g1, coords.drop_first(), new);
        }
    }
}

/// Law: a chord that fires on a placed board opens every covered, unflagged
/// neighbour of the chorded square, whichever side of it the neighbour lies
/// on, unless the game ends on the way; and every neighbour that was open
/// stays open.
pub proof fn lemma_chord_opens_around(old: Game, x: int, y: int, new: Game)
    requires
        old.wf(),
        old.placed,
        !old.over,
        0 <= x < old.width,
        0 <= y < old.height,
        old.cells@[y * old.width + x].revealed,
        old.cells@[y * old.width + x].adj != 0,
        count_below(|k: int| old.near(x, y, k) && old.cells@[k].flagged, old.size())
            == old.cells@[y * old.width + x].adj as int,
        chord_rel(old, x, y, new),
    ensures
        forall|k: int|
            0 <= k < old.size() && #[trigger] old.near(x, y, k) && !old.cells@[k].flagged
                ==> new.cells@[k].revealed || new.over,
{
    lemma_cell_at(&old, x, y);
    lemma_size_bound(&old);
    let i = y * old.width + x;
    assert(old.index_at(x, y) == Some(i as usize));
    assert(exists|ps: Seq<usize>|
        #[trigger] pending_list(old, x, y, ps) && chord_chain(old, coords_of(old, ps), new));
    let ps = choose|ps: Seq<usize>|
        #[trigger] pending_list(old, x, y, ps) && chord_chain(old, coords_of(old, ps), new);
    let coords = coords_of(old, ps);
    assert forall|k: int|
        0 <= k < old.size() && #[trigger] old.near(x, y, k) && !old.cells@[k].flagged
            implies new.cells@[k].revealed || new.over by {
        if !old.cells@[k].revealed {
            assert(ps.contains(k as usize));
            let t = choose|t: int| 0 <= t < ps.len() && ps[t] == k as usize;
            assert(coords[t] == (old.cells@[k].x, old.cells@[k].y));
        }
        lemma_chain_opens(old, coords, new, k);
    }
}

/// One opening on a placed board keeps the revealed counter counting while
/// the game runs.
proof fn lemma_reveal_counted(g: Game, cx: int, cy: int, g1: Game)
    requires
        g.wf(),
        g.placed,
        g.counted(),
        reveal_rel(g, cx, cy, g1),
    ensures
        g1.counted(),
{
    lemma_reveal_placed(g, cx, cy, g1);
    if let Some(i) = g.index_at(cx, cy) {
        lemma_cell_at(&g, cx, cy);
        if !(g.over || g.cells@[i as int].revealed || g.cells@[i as int].flagged) {
            let (mid, open) = choose|mid: Game, open: Game|
                {
                    &&& (if g.placed {
                        mid == g
                    } else {
                        mines_placed(g, cx, cy, mid)
                    })
                    &&& #[trigger] opened_state(mid, i as int, open)
                    &&& win_checked(open, g1)
                };
            if !g1.over {
                assert(g1 == open);
                assert forall|k: int| 0 <= k < g.size() implies #[trigger] opened_cell(g.cells@, i as int, k).revealed
                    == g1.cells@[k].revealed by {
                    assert(open.cells@[k] == opened_cell(g.cells@, i as int, k));
                }
                lemma_count_ext(
                    |k: int| opened_cell(g.cells@, i as int, k).revealed,
                    |k: int| g1.cells@[k].revealed,
                    g.size(),
                );
            }
        }
    }
}

/// Along openings of mine-free squares on a consistent placed board, a win
/// comes only once every safe cell is open.
proof fn lemma_chain_win_clears(g: Game, coords: Seq<(u8, u8)>, new: Game)
    requires
        g.consistent(),
        g.placed,
        g.counted(),
        g.won ==> g.over,
        g.won ==> all_safe_open(g),
        forall|t: int|
            0 <= t < coords.len() ==> (g.index_at((#[trigger] coords[t]).0 as int, coords[t].1 as int)
                matches Some(k) ==> !g.cells@[k as int].mine),
        chord_chain(g, coords, new),
    ensures
        new.won ==> all_safe_open(new),
    decreases coords.len(),
{
    if coords.len() == 0 {
        if !(g.over || (g.revealed_count as int) < g.width as int * g.height as int - g.mines as int) {
            lemma_win_iff_cleared(g);
            assert forall|k: int| 0 <= k < new.size() && !(#[trigger] new.cells@[k]).mine implies new.cells@[k].revealed by {
                assert(new.cells@[k] == with_flagged(g.cells@[k], g.cells@[k].flagged || g.cells@[k].mine));
            }
        }
    } else {
        let g1 = choose|g1: Game|
            #[trigger] reveal_rel(g, coords[0].0 as int, coords[0].1 as int, g1) && if g1.over
                && !g1.won {
                new == g1
            } else {
                chord_chain(g1, coords.drop_first(), new)
            };
        assert(coords[0] == coords[0]);
        lemma_reveal_placed(g, coords[0].0 as int, coords[0].1 as int, g1);
        lemma_reveal_counted(g, coords[0].0 as int, coords[0].1 as int, g1);
        if !g.over {
            lemma_reveal_keeps_consistent(g, coords[0].0 as int, coords[0].1 as int, g1);
            lemma_win_exactly_when_all_safe_open(g, coords[0].0 as int, coords[0].1 as int, g1);
        }
        let rest = coords.drop_first();
        assert forall|t: int|
            0 <= t < rest.len() implies (g1.index_at((#[trigger] rest[t]).0 as int, rest[t].1 as int)
                matches Some(k) ==> !g1.cells@[k as int].mine) by {
            assert(rest[t] == coords[t + 1]);
            if let Some(k) = g.index_at(rest[t].0 as int, rest[t].1 as int) {
                lemma_cell_at(&g, rest[t].0 as int, rest[t].1 as int);
            }
        }
        if !(g1.over && !g1.won) {
            lemma_chain_win_clears(g1, rest, new);
        }
    }
}

/// Law: with the flags right, a chord opens all around. On a consistent
/// placed board whose counter counts its open cells, a chord that fires
/// opens every covered, unflagged neighbour of the chorded square, whichever
/// side of it the neighbour lies on, and never loses.
pub proof fn lemma_chord_opens_all_around(old: Game, x: int, y: int, new: Game)
    requires
        old.consistent(),
        old.counted(),
        old.placed,
        !old.over,
        !old.won,
        0 <= x < old.width,
        0 <= y < old.height,
        old.cells@[y * old.width + x].revealed,
        old.cells@[y * old.width + x].adj != 0,
        count_below(|k: int| old.near(x, y, k) && old.cells@[k].flagged, old.size())
            == old.cells@[y * old.width + x].adj as int,
        chord_rel(old, x, y, new),
    ensures
        forall|k: int|
            0 <= k < old.size() && #[trigger] old.near(x, y, k) && !old.cells@[k].flagged
                ==> new.cells@[k].revealed,
        !(new.over && !new.won),
{
    lemma_chord_opens_around(old, x, y, new);
    lemma_chord_safe(old, x, y, new);
    lemma_cell_at(&old, x, y);
    lemma_size_bound(&old);
    let i = y * old.width + x;
    let n = old.size();
    assert(old.index_at(x, y) == Some(i as usize));
    let ps = choose|ps: Seq<usize>|
        #[trigger] pending_list(old, x, y, ps) && chord_chain(old, coords_of(old, ps), new);
    let coords = coords_of(old, ps);
    let nf = |k: int| old.near(x, y, k) && old.cells@[k].flagged;
    let nm = |k: int| old.adjacent(i, k) && old.cells@[k].mine;
    assert forall|k: int| 0 <= k < n && #[trigger] nf(k) implies nm(k) by {}
    lemma_count_mono(nf, nm, n);
    assert forall|t: int|
        0 <= t < coords.len() implies (old.index_at((#[trigger] coords[t]).0 as int, coords[t].1 as int)
            matches Some(k) ==> !old.cells@[k as int].mine) by {
        let k = ps[t] as int;
        assert(ps.contains(ps[t]));
        let ck = old.cells@[k];
        assert(coords[t] == (ck.x, ck.y));
        lemma_cell_at(&old, ck.x as int, ck.y as int);
        lemma_coords_unique(&old, k, ck.y * old.width + ck.x);
        if ck.mine {
            assert(nm(k));
            assert(nf(k));
        }
    }
    lemma_chain_win_clears(old, coords, new);
    assert forall|k: int|
        0 <= k < n && #[trigger] old.near(x, y, k) && !old.cells@[k].flagged implies new.cells@[k].revealed by {
        if !old.cells@[k].revealed {
            assert(ps.contains(k as usize));
            let t = choose|t: int| 0 <= t < ps.len() && ps[t] == k as usize;
            assert(coords[t] == (old.cells@[k].x, old.cells@[k].y));
        }
        lemma_chain_opens(old, coords, new, k);
        if !new.cells@[k].revealed {
            assert(new.over);
            assert(!nf(k));
            if old.cells@[k].mine {
                assert(nm(k));
            }
            assert(new.cells@[k].mine == old.cells@[k].mine);
        }
    }
}

/// A flood that reaches a cell other than its start reaches it from a
/// spreading cell it reaches next to it.
proof fn lemma_flood_last_step(cells: Seq<Cell>, s: int, k: int, steps: nat)
    requires
        reach_in(cells, s, k, steps),
        k != s,
    ensures
        openable(cells[k]),
        exists|j: int|
            reach_in(cells, s, j, steps) && spreads(cells[j]) && #[trigger] touching(cells, j, k),
    decreases steps,
{
    if reach_in(cells, s, k, (steps - 1) as nat) {
        lemma_flood_last_step(cells, s, k, (steps - 1) as nat);
        let j = choose|j: int|
            reach_in(cells, s, j, (steps - 1) as nat) && spreads(cells[j]) && #[trigger] touching(cells, j, k);
        lemma_reach_more(cells, s, j, (steps - 1) as nat);
        assert(touching(cells, j, k));
    } else {
        let j = choose|j: int|
            reach_in(cells, s, j, (steps - 1) as nat) && spreads(cells[j]) && #[trigger] touching(cells, j, k)
                && openable(cells[k]);
        lemma_reach_more(cells, s, j, (steps - 1) as nat);
        assert(touching(cells, j, k));
    }
}

/// What a flood reaches in some steps it reaches in one more.
proof fn lemma_reach_more(cells: Seq<Cell>, s: int, k: int, steps: nat)
    requires
        reach_in(cells, s, k, steps),
    ensures
        reach_in(cells, s, k, steps + 1),
{
}

/// Law: an opening spreads through empty cells, and only through them.
/// After opening a square without losing, every cell that the opening
/// revealed and that has no mine around it has all its safe, unflagged
/// neighbours open too; every cell it revealed holds no mine; and every cell
/// it revealed other than the square itself lies next to a cell it revealed
/// that has no mine around it.
pub proof fn lemma_opening_spreads(old: Game, x: int, y: int, new: Game)
    requires
        old.wf(),
        reveal_rel(old, x, y, new),
        !(new.over && !new.won),
    ensures
        forall|j: int, m: int|
            0 <= j < old.size() && 0 <= m < old.size() && (#[trigger] new.cells@[j]).revealed
                && !old.cells@[j].revealed && new.cells@[j].adj == 0 && !new.cells@[j].mine
                && #[trigger] new.adjacent(j, m) && !new.cells@[m].flagged && !new.cells@[m].mine
                ==> new.cells@[m].revealed,
        forall|k: int|
            0 <= k < old.size() && (#[trigger] new.cells@[k]).revealed && !old.cells@[k].revealed
                ==> !new.cells@[k].mine,
        forall|k: int|
            0 <= k < old.size() && (#[trigger] new.cells@[k]).revealed && !old.cells@[k].revealed
                && old.index_at(x, y) != Some(k as usize) ==> exists|j: int|
                0 <= j < old.size() && new.cells@[j].revealed && !old.cells@[j].revealed
                    && new.cells@[j].adj == 0 && !new.cells@[j].mine && #[trigger] new.adjacent(j, k),
{
    if let Some(iu) = old.index_at(x, y) {
        let i = iu as int;
        lemma_cell_at(&old, x, y);
        if !(old.over || old.cells@[i].revealed || old.cells@[i].flagged) {
            let (mid, open) = choose|mid: Game, open: Game|
                {
                    &&& (if old.placed {
                        mid == old
                    } else {
                        mines_placed(old, x, y, mid)
                    })
                    &&& #[trigger] opened_state(mid, i, open)
                    &&& win_checked(open, new)
                };
            let n = old.size();
            let c1 = mid.cells@.update(i, with_revealed(mid.cells@[i], true));
            assert(mid.cells@.len() == n);
            assert(!open.over) by {
                if open.over {
                    assert(new == open);
                }
            }
            assert(!mid.cells@[i].mine);
            assert forall|k: int| 0 <= k < n implies #[trigger] new.cells@[k] == with_flagged(
                open.cells@[k],
                new.cells@[k].flagged,
            ) && open.cells@[k] == with_revealed(c1[k], c1[k].revealed || flooded(c1, i, k)) by {
                assert(open.cells@[k] == opened_cell(mid.cells@, i, k));
                if !((open.revealed_count as int) < open.width as int * open.height as int
                    - open.mines as int) {
                    assert(new.cells@[k] == with_flagged(open.cells@[k], open.cells@[k].flagged || open.cells@[k].mine));
                }
            }
            assert forall|j: int, m: int|
                0 <= j < n && 0 <= m < n && (#[trigger] new.cells@[j]).revealed
                    && !old.cells@[j].revealed && new.cells@[j].adj == 0 && !new.cells@[j].mine
                    && #[trigger] new.adjacent(j, m) && !new.cells@[m].flagged && !new.cells@[m].mine
                    implies new.cells@[m].revealed by {
                assert(new.cells@[j] == with_flagged(open.cells@[j], new.cells@[j].flagged));
                assert(new.cells@[m] == with_flagged(open.cells@[m], new.cells@[m].flagged));
                if !c1[m].revealed && !flooded(c1, i, m) {
                    assert(mid.cells@[j].revealed == old.cells@[j].revealed);
                    assert(mid.cells@[m].flagged == old.cells@[m].flagged);
                    let st: nat = if j == i {
                        0
                    } else {
                        choose|st: nat| #[trigger] reach_in(c1, i, j, st)
                    };
                    assert(reach_in(c1, i, j, st));
                    assert(spreads(c1[j]));
                    assert(touching(c1, j, m));
                    assert(openable(c1[m]));
                    assert(reach_in(c1, i, m, st + 1));
                    assert(flooded(c1, i, m));
                }
            }
            assert forall|k: int|
                0 <= k < n && (#[trigger] new.cells@[k]).revealed && !old.cells@[k].revealed
                    implies !new.cells@[k].mine && (old.index_at(x, y) != Some(k as usize) ==> exists|j: int|
                    0 <= j < n && new.cells@[j].revealed && !old.cells@[j].revealed
                        && new.cells@[j].adj == 0 && !new.cells@[j].mine && #[trigger] new.adjacent(j, k)) by {
                assert(new.cells@[k] == with_flagged(open.cells@[k], new.cells@[k].flagged));
                assert(mid.cells@[k].revealed == old.cells@[k].revealed);
                if k != i {
                    let st = choose|st: nat| #[trigger] reach_in(c1, i, k, st);
                    lemma_flood_last_step(c1, i, k, st);
                    let j = choose|j: int|
                        reach_in(c1, i, j, st) && spreads(c1[j]) && #[trigger] touching(c1, j, k);
                    assert(flooded(c1, i, j));
                    assert(new.cells@[j] == with_flagged(open.cells@[j], new.cells@[j].flagged));
                    assert(mid.cells@[j].revealed == old.cells@[j].revealed);
                    if j != i {
                        lemma_flood_last_step(c1, i, j, st);
                    }
                    assert(new.adjacent(j, k));
                }
            }
        }
    }
}

/// Law: an opening only ever opens. A flagged or open square, a square off
/// the board, or a finished game is left exactly as it was; otherwise no open
/// cell closes, no cell is flagged or unflagged except that a win flags the
/// mines, and the opened square itself is open afterwards.
pub proof fn lemma_reveal_only_opens(old: Game, x: int, y: int, new: Game)
    requires
        old.wf(),
        reveal_rel(old, x, y, new),
    ensures
        old.index_at(x, y) is None ==> new == old,
        old.over ==> new == old,
        old.index_at(x, y) matches Some(i) && (old.cells@[i as int].flagged
            || old.cells@[i as int].revealed) ==> new == old,
        new.cells@.len() == old.cells@.len(),
        forall|k: int| 0 <= k < old.size() && old.cells@[k].revealed ==> #[trigger] new.cells@[k].revealed,
        forall|k: int|
            0 <= k < old.size() ==> #[trigger] new.cells@[k].flagged == (old.cells@[k].flagged || (
            new.over && new.won && !old.over && new.cells@[k].mine)),
        old.index_at(x, y) matches Some(i) ==> old.over || new.cells@[i as int].revealed || old.cells@[i as int].flagged,
{
    if let Some(iu) = old.index_at(x, y) {
        let i = iu as int;
        lemma_cell_at(&old, x, y);
        if !(old.over || old.cells@[i].revealed || old.cells@[i].flagged) {
            let (mid, open) = choose|mid: Game, open: Game|
                {
                    &&& (if old.placed {
                        mid == old
                    } else {
                        mines_placed(old, x, y, mid)
                    })
                    &&& #[trigger] opened_state(mid, i, open)
                    &&& win_checked(open, new)
                };
            assert(mid.cells@.len() == old.cells@.len());
            assert forall|k: int| 0 <= k < old.size() implies {
                &&& (old.cells@[k].revealed ==> #[trigger] new.cells@[k].revealed)
                &&& new.cells@[k].flagged == (old.cells@[k].flagged || (new.over && new.won
                    && !old.over && new.cells@[k].mine))
                &&& (k == i ==> new.cells@[k].revealed)
            } by {
                assert(open.cells@[k] == opened_cell(mid.cells@, i, k));
                if !(open.over || (open.revealed_count as int) < open.width as int * open.height as int
                    - open.mines as int) {
                    assert(new.cells@[k] == with_flagged(open.cells@[k], open.cells@[k].flagged || open.cells@[k].mine));
                } else {
                    assert(new == open);
                }
            }
        }
    }
}

/// Two games agree in every field, cell by cell.
pub open spec fn same_game(a: Game, b: Game) -> bool {
    &&& a.cells@ == b.cells@
    &&& a.difficulty == b.difficulty
    &&& a.width == b.width
    &&& a.height == b.height
    &&& a.mines == b.mines
    &&& a.placed == b.placed
    &&& a.over == b.over
    &&& a.won == b.won
    &&& a.flags == b.flags
    &&& a.revealed_count == b.revealed_count
    &&& a.cursor_x == b.cursor_x
    &&& a.cursor_y == b.cursor_y
}

/// The mines a generator lays are fixed by the board, the square and the
/// generator.
proof fn lemma_placement_unique<R: Rand>(old: Game, x: int, y: int, a: Game, b: Game, r0: R, ra: R, rb: R)
    requires
        mines_placed(old, x, y, a),
        drawn_mines(old, x, y, a, r0, ra),
        mines_placed(old, x, y, b),
        drawn_mines(old, x, y, b, r0, rb),
    ensures
        same_game(a, b),
        ra == rb,
{
    let n = old.size();
    assert(same_layout(a, b));
    assert forall|k: int| 0 <= k < n implies #[trigger] a.cells@[k] == b.cells@[k] by {
        if !a.cells@[k].mine {
            lemma_same_layout_around(a, b, k);
        }
    }
    assert(a.cells@ =~= b.cells@);
}

/// The state after opening a cell is fixed by the state before.
proof fn lemma_opened_unique(m1: Game, m2: Game, i: int, a: Game, b: Game)
    requires
        same_game(m1, m2),
        0 <= i < m1.size(),
        opened_state(m1, i, a),
        opened_state(m2, i, b),
    ensures
        same_game(a, b),
{
    assert forall|k: int| 0 <= k < m1.size() implies #[trigger] a.cells@[k] == b.cells@[k] by {}
    assert(a.cells@ =~= b.cells@);
}

/// The state after the win check is fixed by the state before.
proof fn lemma_win_unique(o1: Game, o2: Game, a: Game, b: Game)
    requires
        same_game(o1, o2),
        win_checked(o1, a),
        win_checked(o2, b),
    ensures
        same_game(a, b),
{
    if !(o1.over || (o1.revealed_count as int) < o1.width as int * o1.height as int - o1.mines as int) {
        assert forall|k: int| 0 <= k < o1.cells@.len() implies #[trigger] a.cells@[k] == b.cells@[k] by {}
        assert(a.cells@ =~= b.cells@);
    }
}

/// Law: opening a square is deterministic. From the same board and the same
/// generator, two openings of `(x, y)` end in the same board, cell by cell,
/// and the same generator. A chord on a covered square is such an opening,
/// so it agrees with a plain reveal.
pub proof fn lemma_reveal_deterministic<R: Rand>(old: Game, x: int, y: int, a: Game, b: Game, r0: R, ra: R, rb: R)
    requires
        old.wf(),
        revealed_by(old, x, y, a, r0, ra),
        revealed_by(old, x, y, b, r0, rb),
    ensures
        same_game(a, b),
        ra == rb,
{
    match old.index_at(x, y) {
        Option::None => {},
        Option::Some(i) => {
            if !(old.over || old.cells@[i as int].revealed || old.cells@[i as int].flagged) {
                lemma_cell_at(&old, x, y);
                let (m1, o1) = choose|mid: Game, open: Game|
                    {
                        &&& (if old.placed {
                            mid == old && ra == r0
                        } else {
                            mines_placed(old, x, y, mid) && drawn_mines(old, x, y, mid, r0, ra)
                        })
                        &&& #[trigger] opened_state(mid, i as int, open)
                        &&& win_checked(open, a)
                    };
                let (m2, o2) = choose|mid: Game, open: Game|
                    {
                        &&& (if old.placed {
                            mid == old && rb == r0
                        } else {
                            mines_placed(old, x, y, mid) && drawn_mines(old, x, y, mid, r0, rb)
                        })
                        &&& #[trigger] opened_state(mid, i as int, open)
                        &&& win_checked(open, b)
                    };
                if !old.placed {
                    lemma_placement_unique(old, x, y, m1, m2, r0, ra, rb);
                }
                lemma_opened_unique(m1, m2, i as int, o1, o2);
                lemma_win_unique(o1, o2, a, b);
            }
        },
    }
}

} // verus!
