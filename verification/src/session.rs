//! A game in its window: the board, the clock, the hint line and the stored
//! settings. Each move returns what the window has to do next: start its
//! clock, save the settings.
use vstd::prelude::*;
use crate::board::{
    Difficulty,
    Game,
    ThreadRng,
    playable,
    fresh_game,
    clamp_int,
    flag_fits,
    reveal_rel,
    flag_rel,
    chord_rel,
    revealed_by,
    chord_draws_nothing,
    chorded_by,
    difficulty_from_id,
    difficulty_id,
};
use crate::solver::{hint, hint_of, Hint, certain};
use crate::stats::{Settings, recorded, best_of, lemma_record_keeps_fastest};

verus! {

/// What the window does after a change.
#[derive(Debug, Clone, Copy, PartialEq, Eq, Structural)]
pub struct Effects {
    /// Start the clock now.
    pub start_clock: bool,
    /// Write the settings to disk.
    pub save: bool,
}

/// A game being played, with what the window shows around it.
pub struct Session {
    pub game: Game,
    pub rng: ThreadRng,
    /// The clock has started for this game.
    pub clock_running: bool,
    /// The seconds shown once the game is over.
    pub frozen_elapsed: u32,
    pub hint_message: String,
    pub settings: Settings,
}

/// `g` with its cursor moved to `(x, y)`, limited to the board.
pub open spec fn with_cursor(g: Game, x: u8, y: u8) -> Game {
    let mx = clamp_int(g.width - 1, 0, 255);
    let my = clamp_int(g.height - 1, 0, 255);
    Game {
        cursor_x: if x as int <= mx {
            x
        } else {
            mx as u8
        },
        cursor_y: if y as int <= my {
            y
        } else {
            my as u8
        },
        ..g
    }
}

/// The seconds shown: frozen once the game is over, the clock's while it
/// runs, else zero.
pub open spec fn shown_elapsed(s: Session, clock: u32) -> u32 {
    if s.game.over {
        s.frozen_elapsed
    } else if s.clock_running {
        clock
    } else {
        0
    }
}

/// `new` is `old` after settling the clock, with the clock reading `clock`
/// seconds: it starts with the first move that lays the mines; when the game
/// is over the time freezes once; a win is recorded, and a new best time
/// stores the difficulty and is saved.
pub open spec fn clock_settled(old: Session, clock: u32, new: Session, fx: Effects) -> bool {
    let g = old.game;
    let starts = !old.clock_running && g.placed && !g.over;
    let frozen = if g.over && old.frozen_elapsed == 0 {
        if old.clock_running {
            clock
        } else {
            0
        }
    } else {
        old.frozen_elapsed
    };
    &&& fx.start_clock == starts
    &&& new.clock_running == (old.clock_running || starts)
    &&& new.frozen_elapsed == frozen
    &&& new.game == old.game
    &&& new.rng == old.rng
    &&& new.hint_message@ == old.hint_message@
    &&& if g.over && g.won {
        &&& recorded(old.settings.bests, g.difficulty, frozen, new.settings.bests, fx.save)
        &&& new.settings.difficulty@ == if fx.save {
            difficulty_id(g.difficulty)
        } else {
            old.settings.difficulty@
        }
    } else {
        &&& !fx.save
        &&& new.settings.bests == old.settings.bests
        &&& new.settings.difficulty@ == old.settings.difficulty@
    }
}

/// `new` is `old` after a move on the board that left `game`: the hint line
/// is cleared and the rest is kept; the generator may have moved.
pub open spec fn moved(old: Session, game: Game, new: Session) -> bool {
    &&& new.game == game
    &&& new.hint_message@ == Seq::<char>::empty()
    &&& new.clock_running == old.clock_running
    &&& new.frozen_elapsed == old.frozen_elapsed
    &&& new.settings.bests == old.settings.bests
    &&& new.settings.difficulty@ == old.settings.difficulty@
}

/// `new` is `old` after opening `(x, y)` with the clock at `clock`.
pub open spec fn revealed_step(old: Session, x: u8, y: u8, clock: u32, new: Session, fx: Effects) -> bool {
    exists|mid: Session|
        #[trigger] moved(old, mid.game, mid) && reveal_rel(
            with_cursor(old.game, x, y),
            x as int,
            y as int,
            mid.game,
        ) && revealed_by(with_cursor(old.game, x, y), x as int, y as int, mid.game, old.rng, mid.rng)
            && clock_settled(mid, clock, new, fx)
}

/// `new` is `old` after a chord on `(x, y)` with the clock at `clock`.
pub open spec fn chorded_step(old: Session, x: u8, y: u8, clock: u32, new: Session, fx: Effects) -> bool {
    exists|mid: Session|
        #[trigger] moved(old, mid.game, mid) && chord_rel(
            with_cursor(old.game, x, y),
            x as int,
            y as int,
            mid.game,
        ) && chorded_by(with_cursor(old.game, x, y), x as int, y as int, mid.game, old.rng, mid.rng)
            && (chord_draws_nothing(with_cursor(old.game, x, y), x as int, y as int) ==> mid.rng
            == old.rng)
            && clock_settled(mid, clock, new, fx)
}

/// `new` is `old` after toggling the flag on `(x, y)`.
pub open spec fn flagged_step(old: Session, x: u8, y: u8, new: Session) -> bool {
    &&& flag_rel(with_cursor(old.game, x, y), x as int, y as int, new.game)
    &&& moved(old, new.game, new)
    &&& new.rng == old.rng
}

/// `h` is the solver's move on `g`, and a certain one on a consistent board.
pub open spec fn solver_answer(g: Game, h: Hint) -> bool {
    &&& h == hint_of(g)
    &&& !g.over && g.placed && g.consistent() ==> certain(g, h)
}

impl Session {
    /// A session on the stored settings: a new board of the stored
    /// difficulty (the beginner board when it names none), the clock
    /// stopped, no hint.
    pub fn new(settings: Settings) -> (s: Self)
        ensures
            fresh_game(s.game, difficulty_from_id(settings.difficulty@)),
            playable(s.game),
            !s.clock_running,
            s.frozen_elapsed == 0,
            s.hint_message@ == Seq::<char>::empty(),
            s.settings.bests == settings.bests,
            s.settings.difficulty@ == settings.difficulty@,
    {
        let difficulty = Difficulty::parse(settings.difficulty.as_str());
        Session {
            game: Game::new(difficulty),
            rng: ThreadRng::default(),
            clock_running: false,
            frozen_elapsed: 0,
            hint_message: String::new(),
            settings,
        }
    }

    /// The seconds to show, with the running clock at `clock`.
    pub fn elapsed(&self, clock: u32) -> (r: u32)
        ensures
            r == shown_elapsed(*self, clock),
    {
        if self.game.over {
            self.frozen_elapsed
        } else if self.clock_running {
            clock
        } else {
            0
        }
    }

    /// Settles the clock after a move, with the clock at `clock`.
    fn note_start(&mut self, clock: u32) -> (fx: Effects)
        ensures
            clock_settled(*old(self), clock, *final(self), fx),
    {
        let mut fx = Effects { start_clock: false, save: false };
        let running_before = self.clock_running;
        if !self.clock_running && self.game.placed && !self.game.over {
            self.clock_running = true;
            fx.start_clock = true;
        }
        if self.game.over {
            if self.frozen_elapsed == 0 {
                self.frozen_elapsed = if running_before {
                    clock
                } else {
                    0
                };
            }
            if self.game.won && self.settings.bests.record(self.game.difficulty, self.frozen_elapsed) {
                self.settings.difficulty = self.game.difficulty.id().to_owned();
                fx.save = true;
            }
        }
        fx
    }

    /// Starts a new board of `d`, with the clock stopped and no hint, and
    /// stores `d`; the settings are to be saved.
    pub fn new_game(&mut self, d: Difficulty) -> (fx: Effects)
        ensures
            fresh_game(final(self).game, d),
            playable(final(self).game),
            !final(self).clock_running,
            final(self).frozen_elapsed == 0,
            final(self).hint_message@ == Seq::<char>::empty(),
            final(self).settings.bests == old(self).settings.bests,
            final(self).settings.difficulty@ == difficulty_id(d),
            final(self).rng == old(self).rng,
            fx == (Effects { start_clock: false, save: true }),
    {
        self.game = Game::new(d);
        self.clock_running = false;
        self.frozen_elapsed = 0;
        self.hint_message = String::new();
        self.settings.difficulty = d.id().to_owned();
        Effects { start_clock: false, save: true }
    }

    /// Moves the cursor to `(x, y)` and opens it.
    pub fn reveal_at(&mut self, x: u8, y: u8, clock: u32) -> (fx: Effects)
        requires
            playable(old(self).game),
        ensures
            playable(final(self).game),
            revealed_step(*old(self), x, y, clock, *final(self), fx),
    {
        self.game.set_cursor(x, y);
        proof {
            assert(self.game == with_cursor(old(self).game, x, y));
        }
        self.game.reveal_cell(x, y, &mut self.rng);
        self.hint_message = String::new();
        let ghost mid = *self;
        let fx = self.note_start(clock);
        proof {
            assert(moved(*old(self), mid.game, mid));
        }
        fx
    }

    /// Moves the cursor to `(x, y)` and toggles its flag.
    pub fn flag_at(&mut self, x: u8, y: u8)
        requires
            playable(old(self).game),
            flag_fits(old(self).game, x as int, y as int),
        ensures
            playable(final(self).game),
            flagged_step(*old(self), x, y, *final(self)),
    {
        self.game.set_cursor(x, y);
        proof {
            assert(self.game == with_cursor(old(self).game, x, y));
        }
        self.game.flag(x, y);
        self.hint_message = String::new();
    }

    /// Moves the cursor to `(x, y)` and chords on it.
    pub fn chord_at(&mut self, x: u8, y: u8, clock: u32) -> (fx: Effects)
        requires
            playable(old(self).game),
        ensures
            playable(final(self).game),
            chorded_step(*old(self), x, y, clock, *final(self), fx),
    {
        self.game.set_cursor(x, y);
        proof {
            assert(self.game == with_cursor(old(self).game, x, y));
        }
        self.game.chord(x, y, &mut self.rng);
        self.hint_message = String::new();
        let ghost mid = *self;
        let fx = self.note_start(clock);
        proof {
            assert(moved(*old(self), mid.game, mid));
        }
        fx
    }

    /// Plays one certain move of the solver, or says there is none. Nothing
    /// happens once the game is over.
    pub fn play_hint(&mut self, clock: u32) -> (fx: Effects)
        requires
            playable(old(self).game),
            i16::MIN < old(self).game.flags < i16::MAX,
        ensures
            playable(final(self).game),
            old(self).game.over ==> *final(self) == *old(self) && fx == (Effects {
                start_clock: false,
                save: false,
            }),
            !old(self).game.over ==> exists|h: Hint|
                #[trigger] solver_answer(old(self).game, h) && match h {
                    Hint::NoMove => {
                        &&& final(self).hint_message@ == "No certain move"@
                        &&& final(self).game == old(self).game
                        &&& final(self).rng == old(self).rng
                        &&& final(self).clock_running == old(self).clock_running
                        &&& final(self).frozen_elapsed == old(self).frozen_elapsed
                        &&& final(self).settings.bests == old(self).settings.bests
                        &&& final(self).settings.difficulty@ == old(self).settings.difficulty@
                        &&& fx == (Effects { start_clock: false, save: false })
                    },
                    Hint::Reveal { x, y } => revealed_step(*old(self), x, y, clock, *final(self), fx),
                    Hint::Flag { x, y } => flagged_step(*old(self), x, y, *final(self)) && fx == (
                    Effects { start_clock: false, save: false }),
                },
    {
        if self.game.over {
            return Effects { start_clock: false, save: false };
        }
        let h = hint(&self.game);
        proof {
            assert(solver_answer(old(self).game, h));
        }
        self.apply_hint(h, clock)
    }

    /// Plays the move `h`: opens or flags its square, or, for no move, says
    /// there is no certain move.
    pub fn apply_hint(&mut self, h: Hint, clock: u32) -> (fx: Effects)
        requires
            playable(old(self).game),
            h matches Hint::Flag { x, y } ==> flag_fits(old(self).game, x as int, y as int),
        ensures
            playable(final(self).game),
            match h {
                Hint::NoMove => {
                    &&& final(self).hint_message@ == "No certain move"@
                    &&& final(self).game == old(self).game
                    &&& final(self).rng == old(self).rng
                    &&& final(self).clock_running == old(self).clock_running
                    &&& final(self).frozen_elapsed == old(self).frozen_elapsed
                    &&& final(self).settings.bests == old(self).settings.bests
                    &&& final(self).settings.difficulty@ == old(self).settings.difficulty@
                    &&& fx == (Effects { start_clock: false, save: false })
                },
                Hint::Reveal { x, y } => revealed_step(*old(self), x, y, clock, *final(self), fx),
                Hint::Flag { x, y } => flagged_step(*old(self), x, y, *final(self)) && fx == (Effects {
                    start_clock: false,
                    save: false,
                }),
            },
    {
        match h {
            Hint::NoMove => {
                self.hint_message = "No certain move".to_owned();
                Effects { start_clock: false, save: false }
            },
            Hint::Reveal { x, y } => self.reveal_at(x, y, clock),
            Hint::Flag { x, y } => {
                self.flag_at(x, y);
                Effects { start_clock: false, save: false }
            },
        }
    }
}

/// Law: the clock follows the game. It starts with the move that lays the
/// mines and never stops while the game runs; a move on a board without
/// mines leaves it alone; once the game is over its time is frozen for good;
/// only a win is recorded and saved, and a win leaves a best time for its
/// board that is no slower than the run or the best before it.
pub proof fn lemma_clock_follows_game(old: Session, clock: u32, new: Session, fx: Effects)
    requires
        clock_settled(old, clock, new, fx),
    ensures
        new.game.placed && !new.game.over ==> new.clock_running,
        !new.game.placed ==> new.clock_running == old.clock_running && !fx.start_clock,
        fx.start_clock ==> !old.clock_running && new.clock_running,
        old.game.over && old.frozen_elapsed != 0 ==> new.frozen_elapsed == old.frozen_elapsed,
        new.game.over ==> forall|c: u32| shown_elapsed(new, c) == new.frozen_elapsed,
        fx.save ==> new.game.over && new.game.won,
        !(new.game.over && new.game.won) ==> new.settings.bests == old.settings.bests,
        new.game.over && new.game.won ==> {
            let b = best_of(new.settings.bests, new.game.difficulty);
            &&& b != 0
            &&& b <= (if new.frozen_elapsed == 0 { 1u32 } else { new.frozen_elapsed })
            &&& best_of(old.settings.bests, new.game.difficulty) != 0 ==> b <= best_of(
                old.settings.bests,
                new.game.difficulty,
            )
        },
{
    if old.game.over && old.game.won {
        let g = old.game;
        lemma_record_keeps_fastest(old.settings.bests, g.difficulty, new.frozen_elapsed, new.settings.bests, fx.save);
    }
}

} // verus!
