//! Best times per difficulty, and the settings they are kept in.
use vstd::prelude::*;
use crate::board::Difficulty;

verus! {

/// Best times in seconds; zero means none yet.
#[derive(Debug, Clone, Copy, PartialEq, Eq, Structural)]
pub struct Bests {
    pub beginner: u32,
    pub intermediate: u32,
    pub expert: u32,
}

/// The best time kept for a difficulty.
pub open spec fn best_of(b: Bests, d: Difficulty) -> u32 {
    match d {
        Difficulty::Beginner => b.beginner,
        Difficulty::Intermediate => b.intermediate,
        Difficulty::Expert => b.expert,
    }
}

/// `b` with the time for `d` set to `t`.
pub open spec fn with_best(b: Bests, d: Difficulty, t: u32) -> Bests {
    match d {
        Difficulty::Beginner => Bests { beginner: t, ..b },
        Difficulty::Intermediate => Bests { intermediate: t, ..b },
        Difficulty::Expert => Bests { expert: t, ..b },
    }
}

/// `new` is `old` after recording a run of `elapsed` seconds on `d`
/// (zero counted as one): the run is a best when there was none or it is
/// faster, and only then is it kept.
pub open spec fn recorded(old: Bests, d: Difficulty, elapsed: u32, new: Bests, is_best: bool) -> bool {
    let seconds = if elapsed == 0 {
        1u32
    } else {
        elapsed
    };
    let prev = best_of(old, d);
    &&& is_best == (prev == 0 || seconds < prev)
    &&& new == if is_best {
        with_best(old, d, seconds)
    } else {
        old
    }
}

impl Default for Bests {
    /// No best times yet.
    fn default() -> (r: Self)
        ensures
            r == (Bests { beginner: 0, intermediate: 0, expert: 0 }),
    {
        Bests { beginner: 0, intermediate: 0, expert: 0 }
    }
}

impl Bests {
    /// The best time for `d`, or zero when there is none.
    pub fn get(&self, d: Difficulty) -> (r: u32)
        ensures
            r == best_of(*self, d),
    {
        match d {
            Difficulty::Beginner => self.beginner,
            Difficulty::Intermediate => self.intermediate,
            Difficulty::Expert => self.expert,
        }
    }

    /// Records a finished run; zero elapsed seconds count as one. Returns
    /// whether the run is a new best (the first, or faster than the best),
    /// and keeps it then.
    pub fn record(&mut self, d: Difficulty, elapsed: u32) -> (is_best: bool)
        ensures
            recorded(*old(self), d, elapsed, *final(self), is_best),
    {
        let seconds = if elapsed > 1 {
            elapsed
        } else {
            1
        };
        let prev = self.get(d);
        if prev == 0 || seconds < prev {
            match d {
                Difficulty::Beginner => self.beginner = seconds,
                Difficulty::Intermediate => self.intermediate = seconds,
                Difficulty::Expert => self.expert = seconds,
            }
            true
        } else {
            false
        }
    }
}

/// What is kept between runs: the last difficulty played, by its
/// identifier, and the best times.
#[derive(Debug, Clone, PartialEq, Eq)]
pub struct Settings {
    pub difficulty: String,
    pub bests: Bests,
}

impl Default for Settings {
    /// No difficulty chosen and no best times.
    fn default() -> (r: Self)
        ensures
            r.difficulty@ == Seq::<char>::empty(),
            r.bests == (Bests { beginner: 0, intermediate: 0, expert: 0 }),
    {
        Settings { difficulty: String::new(), bests: Bests::default() }
    }
}

/// The file path of a `Store`.
#[verifier::external_type_specification]
#[verifier::external_body]
pub struct ExPathBuf(std::path::PathBuf);

/// Where the settings live on disk.
pub struct Store {
    path: std::path::PathBuf,
}

impl Store {
    /// A store kept at `path`.
    pub fn new(path: std::path::PathBuf) -> (r: Self)
        ensures
            r.location() == path,
    {
        Store { path }
    }

    /// The store's file path.
    pub closed spec fn location(&self) -> std::path::PathBuf {
        self.path
    }

    /// The store's file path.
    pub fn path(&self) -> (r: &std::path::PathBuf)
        ensures
            *r == self.location(),
    {
        &self.path
    }
}


/// Law: recording never makes a best time slower. After recording a run
/// of `elapsed` seconds for `d`, the best for `d` is set, is at most the
/// run (counted as at least one second) and at most the previous best, and
/// the other boards keep theirs.
pub proof fn lemma_record_keeps_fastest(old: Bests, d: Difficulty, elapsed: u32, new: Bests, is_best: bool)
    requires
        recorded(old, d, elapsed, new, is_best),
    ensures
        best_of(new, d) != 0,
        best_of(new, d) <= (if elapsed == 0 { 1u32 } else { elapsed }),
        best_of(old, d) != 0 ==> best_of(new, d) <= best_of(old, d),
        forall|e: Difficulty| e != d ==> best_of(new, e) == best_of(old, e),
{
}

} // verus!
