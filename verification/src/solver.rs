//! Knowledge-based hint solver.
//!
//! Pure deduction: sentences of the form "exactly N of these cells are
//! mines", subset differences, and the remaining-mine count. Never guesses:
//! `hint` returns one certain reveal or flag, or `Hint::NoMove`.
use vstd::prelude::*;
use std::collections::{BTreeSet, HashSet};
use vstd::std_specs::btree::spec_btree_keys_iter;
use vstd::std_specs::iter::IteratorSpec;
use crate::board::{
    Game,
    Cell,
    Difficulty,
    lemma_size_bound,
    increasing,
    reveal_rel,
    flag_rel,
    with_flagged,
    lemma_cell_at,
    lemma_coords_unique,
    lemma_reveal_placed,
    lemma_reveal_keeps_consistent,
    lemma_same_layout_around,
};
use crate::counting::{
    count_below,
    seq_count,
    lemma_count_ext,
    lemma_count_split,
    lemma_count_mono,
    lemma_count_bound,
    lemma_count_zero,
    lemma_count_single,
    lemma_seq_count,
    lemma_seq_len_count,
};

verus! {

/// One move the solver is certain of.
#[derive(Debug, Clone, Copy, PartialEq, Eq, Structural)]
pub enum Hint {
    NoMove,
    Reveal { x: u8, y: u8 },
    Flag { x: u8, y: u8 },
}

impl Hint {
    /// Name of the move.
    pub fn kind(self) -> (r: &'static str)
        ensures
            r@ == (match self {
                Hint::NoMove => "none"@,
                Hint::Reveal { .. } => "reveal"@,
                Hint::Flag { .. } => "flag"@,
            }),
    {
        match self {
            Hint::NoMove => "none",
            Hint::Reveal { .. } => "reveal",
            Hint::Flag { .. } => "flag",
        }
    }
}

/// "Exactly `count` of `cells` are mines."
struct Sentence {
    cells: BTreeSet<usize>,
    count: i32,
}

/// What the solver knows: cells known to be mines, cells known to be safe,
/// and the sentences still open.
struct Knowledge {
    mines: HashSet<usize>,
    safes: HashSet<usize>,
    sentences: Vec<Sentence>,
}

/// The cell is neither revealed nor flagged.
pub open spec fn covered(g: Game, k: int) -> bool {
    !g.cells@[k].revealed && !g.cells@[k].flagged
}

/// Members of `s`, as a property of indices.
pub open spec fn member(s: Set<usize>) -> spec_fn(int) -> bool {
    |i: int| 0 <= i && s.contains(i as usize)
}

/// The number of mines among the cells of `s`.
pub open spec fn mines_in(g: Game, s: Set<usize>) -> nat {
    count_below(|i: int| 0 <= i && s.contains(i as usize) && g.cells@[i].mine, g.size())
}

/// Every member of `s` is a covered cell of the board.
spec fn covered_set(g: Game, s: Set<usize>) -> bool {
    forall|c: usize| #[trigger] s.contains(c) ==> (c as int) < g.size() && covered(g, c as int)
}

/// A sentence speaks of covered cells, has a count of at least zero, and is
/// true whenever the board is consistent.
spec fn sentence_ok(g: Game, cells: Set<usize>, count: int) -> bool {
    &&& covered_set(g, cells)
    &&& count >= 0
    &&& g.consistent() ==> count == mines_in(g, cells)
}

/// Known mines are covered by no reveal and are not known safe; known safes
/// are revealed or unflagged; on a consistent board both are right; every
/// sentence is fine.
spec fn kb_inv(g: Game, kb: Knowledge) -> bool {
    &&& forall|k: usize|
        #[trigger] kb.mines@.contains(k) ==> (k as int) < g.size() && !g.cells@[k as int].revealed
            && !kb.safes@.contains(k)
    &&& forall|k: usize|
        #[trigger] kb.safes@.contains(k) ==> (k as int) < g.size() && (g.cells@[k as int].revealed
            || !g.cells@[k as int].flagged)
    &&& g.consistent() ==> forall|k: usize| #[trigger]
        kb.mines@.contains(k) ==> g.cells@[k as int].mine
    &&& g.consistent() ==> forall|k: usize| #[trigger]
        kb.safes@.contains(k) ==> !g.cells@[k as int].mine
    &&& forall|j: int|
        0 <= j < kb.sentences@.len() ==> sentence_ok(
            g,
            (#[trigger] kb.sentences@[j]).cells@,
            kb.sentences@[j].count as int,
        )
}

/// The members of a set of cells, in increasing order, and what follows from
/// them: the set is finite and its size is the number of its members.
proof fn lemma_cells_facts(g: Game, b: &BTreeSet<usize>)
    requires
        g.wf(),
        forall|c: usize| #[trigger] b@.contains(c) ==> (c as int) < g.size(),
    ensures
        b@.finite(),
        b@.len() == count_below(member(b@), g.size()),
        b@.len() <= g.size(),
{
    lemma_size_bound(&g);
    let q = spec_btree_keys_iter(b).remaining().unref();
    assert(q.to_set() == b@);
    assert forall|j: int| 0 <= j < q.len() implies #[trigger] q[j] < g.size() by {
        assert(q.to_set().contains(q[j]));
    }
    lemma_seq_len_count(q, g.size());
    assert forall|i: int| 0 <= i < g.size() implies (0 <= i && q.contains(i as usize)) == #[trigger] member(b@)(i) by {
        if q.contains(i as usize) {
            assert(q.to_set().contains(i as usize));
        }
        if b@.contains(i as usize) {
            assert(q.to_set().contains(i as usize));
        }
    }
    lemma_count_ext(|i: int| 0 <= i && q.contains(i as usize), member(b@), g.size());
    lemma_count_bound(member(b@), g.size());
}

/// Elements of `a` that are not in `b`.
fn set_difference(a: &BTreeSet<usize>, b: &BTreeSet<usize>) -> (r: BTreeSet<usize>)
    ensures
        r@ == a@.difference(b@),
{
    let ghost q = spec_btree_keys_iter(a).remaining().unref();
    assert(q.to_set() == a@);
    let mut r: BTreeSet<usize> = BTreeSet::new();
    for c in it: a.iter()
        invariant
            it.seq().unref() == q,
            forall|x: usize|
                #[trigger] r@.contains(x) <==> (exists|t: int|
                    0 <= t < it.index() && q[t] == x) && !b@.contains(x),
    {
        if !b.contains(c) {
            r.insert(*c);
        }
        proof {
            assert(q[it.index() as int] == *c);
        }
    }
    proof {
        assert forall|x: usize| #[trigger] r@.contains(x) <==> a@.difference(b@).contains(x) by {
            if a@.contains(x) {
                assert(q.contains(x));
            }
            if r@.contains(x) {
                let t = choose|t: int| 0 <= t < q.len() && q[t] == x;
                assert(q.contains(x));
            }
        }
        assert(r@ =~= a@.difference(b@));
    }
    r
}

/// `a` is a subset of `b`.
fn set_within(a: &BTreeSet<usize>, b: &BTreeSet<usize>) -> (r: bool)
    ensures
        r == a@.subset_of(b@),
{
    let ghost q = spec_btree_keys_iter(a).remaining().unref();
    assert(q.to_set() == a@);
    for c in it: a.iter()
        invariant
            it.seq().unref() == q,
            forall|t: int| 0 <= t < it.index() ==> b@.contains(#[trigger] q[t]),
    {
        if !b.contains(c) {
            proof {
                assert(q[it.index() as int] == *c);
                assert(q.contains(*c));
            }
            return false;
        }
    }
    proof {
        assert forall|x: usize| a@.contains(x) implies b@.contains(x) by {
            assert(q.contains(x));
            let t = choose|t: int| 0 <= t < q.len() && q[t] == x;
        }
    }
    true
}

/// `inner` is a non-empty proper subset of `outer`.
fn is_proper_subset(inner: &BTreeSet<usize>, outer: &BTreeSet<usize>) -> (r: bool)
    ensures
        r == (!inner@.is_empty() && inner@.len() < outer@.len() && inner@.subset_of(outer@)),
{
    !inner.is_empty() && inner.len() < outer.len() && set_within(inner, outer)
}

/// Two sentences say the same thing.
fn same_sentence(a: &Sentence, b: &Sentence, Ghost(g): Ghost<Game>) -> (r: bool)
    requires
        g.wf(),
        forall|c: usize| #[trigger] a.cells@.contains(c) ==> (c as int) < g.size(),
        forall|c: usize| #[trigger] b.cells@.contains(c) ==> (c as int) < g.size(),
    ensures
        r == (a.cells@ == b.cells@ && a.count == b.count),
{
    if a.count != b.count {
        return false;
    }
    if a.cells.len() != b.cells.len() {
        return false;
    }
    proof {
        lemma_cells_facts(g, &a.cells);
        lemma_cells_facts(g, &b.cells);
    }
    if set_within(&a.cells, &b.cells) {
        proof {
            vstd::set_lib::lemma_subset_equality(a.cells@, b.cells@);
        }
        true
    } else {
        false
    }
}


/// Removing a cell from a sentence lowers its mine count by one when the cell
/// is a mine in it, and leaves it alone otherwise.
proof fn lemma_mines_remove(g: Game, s: Set<usize>, key: usize)
    requires
        g.wf(),
        (key as int) < g.size(),
    ensures
        mines_in(g, s) == mines_in(g, s.remove(key)) + if s.contains(key) && g.cells@[key as int].mine {
            1nat
        } else {
            0nat
        },
{
    lemma_size_bound(&g);
    let p = |i: int| 0 <= i && s.contains(i as usize) && g.cells@[i].mine;
    let q = |i: int| 0 <= i && s.remove(key).contains(i as usize) && g.cells@[i].mine;
    lemma_count_single(p, key as int, g.size());
    assert forall|i: int| 0 <= i < g.size() implies (p(i) && i != key as int) == #[trigger] q(i) by {}
    lemma_count_ext(|i: int| p(i) && i != key as int, q, g.size());
}

/// Cell `k` is decided, or a sentence that still holds it has no mines.
spec fn safe_pending(kb: Knowledge, k: usize) -> bool {
    ||| kb.mines@.contains(k)
    ||| kb.safes@.contains(k)
    ||| exists|j: int|
        0 <= j < kb.sentences@.len() && (#[trigger] kb.sentences@[j]).cells@.contains(k)
            && kb.sentences@[j].count == 0
}

/// Cell `k` is a known mine, or a sentence that still holds it has as many
/// mines as cells.
spec fn mine_pending(kb: Knowledge, k: usize) -> bool {
    ||| kb.mines@.contains(k)
    ||| exists|j: int|
        0 <= j < kb.sentences@.len() && (#[trigger] kb.sentences@[j]).cells@.contains(k)
            && kb.sentences@[j].count == kb.sentences@[j].cells@.len()
}

/// Learning more mines or safes, with the sentences unchanged, keeps every
/// pending cell pending.
proof fn lemma_pending_grow(before: Knowledge, after: Knowledge)
    requires
        before.sentences@ == after.sentences@,
        before.mines@.subset_of(after.mines@),
        before.safes@.subset_of(after.safes@),
    ensures
        forall|k: usize| safe_pending(before, k) ==> #[trigger] safe_pending(after, k),
        forall|k: usize| mine_pending(before, k) ==> #[trigger] mine_pending(after, k),
{
    assert forall|k: usize| safe_pending(before, k) implies #[trigger] safe_pending(after, k) by {
        if !before.mines@.contains(k) && !before.safes@.contains(k) {
            let j0 = choose|j0: int|
                0 <= j0 < before.sentences@.len() && (#[trigger] before.sentences@[j0]).cells@.contains(k)
                    && before.sentences@[j0].count == 0;
            assert(after.sentences@[j0] == before.sentences@[j0]);
        }
    }
    assert forall|k: usize| mine_pending(before, k) implies #[trigger] mine_pending(after, k) by {
        if !before.mines@.contains(k) {
            let j0 = choose|j0: int|
                0 <= j0 < before.sentences@.len() && (#[trigger] before.sentences@[j0]).cells@.contains(k)
                    && before.sentences@[j0].count == before.sentences@[j0].cells@.len();
            assert(after.sentences@[j0] == before.sentences@[j0]);
        }
    }
}

/// Sentence `j2` holds `c` and sentence `j1` does not, and the cells of
/// `j1`, of which there is at least one, all lie in `j2`.
spec fn nested_pair(kb: Knowledge, j1: int, j2: int, c: usize) -> bool {
    &&& 0 <= j1 < kb.sentences@.len()
    &&& 0 <= j2 < kb.sentences@.len()
    &&& j1 != j2
    &&& !kb.sentences@[j1].cells@.is_empty()
    &&& kb.sentences@[j1].cells@.subset_of(kb.sentences@[j2].cells@)
    &&& kb.sentences@[j2].cells@.contains(c)
    &&& !kb.sentences@[j1].cells@.contains(c)
}

/// The cells of sentence `j2` outside sentence `j1`.
spec fn outer_cells(kb: Knowledge, j1: int, j2: int) -> Set<usize> {
    kb.sentences@[j2].cells@.difference(kb.sentences@[j1].cells@)
}

/// Cell `c` is on its way to being known safe: it is pending, or a nested
/// pair of sentences holds it among outer cells that are no mines.
spec fn safe_track(g: Game, kb: Knowledge, c: usize) -> bool {
    ||| safe_pending(kb, c)
    ||| exists|j1: int, j2: int|
        #[trigger] nested_pair(kb, j1, j2, c) && forall|d: usize|
            #[trigger] outer_cells(kb, j1, j2).contains(d) ==> !g.cells@[d as int].mine
}

/// Cell `c` is on its way to being a known mine: it is pending, or a nested
/// pair of sentences holds it among outer cells that are all mines.
spec fn mine_track(g: Game, kb: Knowledge, c: usize) -> bool {
    ||| mine_pending(kb, c)
    ||| exists|j1: int, j2: int|
        #[trigger] nested_pair(kb, j1, j2, c) && forall|d: usize|
            #[trigger] outer_cells(kb, j1, j2).contains(d) ==> g.cells@[d as int].mine
}

/// Learning more, with the sentences unchanged, keeps every tracked cell
/// tracked.
proof fn lemma_track_grow(g: Game, before: Knowledge, after: Knowledge)
    requires
        before.sentences@ == after.sentences@,
        before.mines@.subset_of(after.mines@),
        before.safes@.subset_of(after.safes@),
    ensures
        forall|c: usize| safe_track(g, before, c) ==> #[trigger] safe_track(g, after, c),
        forall|c: usize| mine_track(g, before, c) ==> #[trigger] mine_track(g, after, c),
{
    lemma_pending_grow(before, after);
    assert forall|c: usize| safe_track(g, before, c) implies #[trigger] safe_track(g, after, c) by {
        if !safe_pending(before, c) {
            let (j1, j2) = choose|j1: int, j2: int|
                #[trigger] nested_pair(before, j1, j2, c) && forall|d: usize|
                    #[trigger] outer_cells(before, j1, j2).contains(d) ==> !g.cells@[d as int].mine;
            assert(nested_pair(after, j1, j2, c));
            assert(outer_cells(after, j1, j2) == outer_cells(before, j1, j2));
        }
    }
    assert forall|c: usize| mine_track(g, before, c) implies #[trigger] mine_track(g, after, c) by {
        if !mine_pending(before, c) {
            let (j1, j2) = choose|j1: int, j2: int|
                #[trigger] nested_pair(before, j1, j2, c) && forall|d: usize|
                    #[trigger] outer_cells(before, j1, j2).contains(d) ==> g.cells@[d as int].mine;
            assert(nested_pair(after, j1, j2, c));
            assert(outer_cells(after, j1, j2) == outer_cells(before, j1, j2));
        }
    }
}

/// Marking `key` keeps every tracked cell tracked: the key leaves every
/// sentence alike, so a nested pair stays nested, or the inner sentence
/// empties and the outer one has no mines left, or only mines.
proof fn lemma_track_mark(g: Game, before: Knowledge, after: Knowledge, key: usize)
    requires
        g.wf(),
        g.consistent(),
        kb_inv(g, after),
        after.sentences@.len() == before.sentences@.len(),
        before.mines@.subset_of(after.mines@),
        before.safes@.subset_of(after.safes@),
        forall|c: usize| safe_pending(before, c) ==> #[trigger] safe_pending(after, c),
        forall|c: usize| mine_pending(before, c) ==> #[trigger] mine_pending(after, c),
        before.safes@.contains(key) || before.mines@.contains(key) ==> after.sentences@
            == before.sentences@,
        !before.safes@.contains(key) && !before.mines@.contains(key) ==> forall|j: int|
            0 <= j < before.sentences@.len() ==> (#[trigger] after.sentences@[j]).cells@
                == before.sentences@[j].cells@.remove(key),
        after.mines@.contains(key) || after.safes@.contains(key),
    ensures
        forall|c: usize| safe_track(g, before, c) ==> #[trigger] safe_track(g, after, c),
        forall|c: usize| mine_track(g, before, c) ==> #[trigger] mine_track(g, after, c),
{
    let known = before.safes@.contains(key) || before.mines@.contains(key);
    lemma_size_bound(&g);
    assert forall|c: usize| safe_track(g, before, c) implies #[trigger] safe_track(g, after, c) by {
        if !safe_pending(before, c) {
            let (j1, j2) = choose|j1: int, j2: int|
                #[trigger] nested_pair(before, j1, j2, c) && forall|d: usize|
                    #[trigger] outer_cells(before, j1, j2).contains(d) ==> !g.cells@[d as int].mine;
            if known {
                assert(nested_pair(after, j1, j2, c));
                assert(outer_cells(after, j1, j2) == outer_cells(before, j1, j2));
            } else if c == key {
                assert(safe_pending(after, c));
            } else {
                let s1 = after.sentences@[j1].cells@;
                let s2 = after.sentences@[j2].cells@;
                assert(s2.contains(c));
                if s1.is_empty() {
                    assert(sentence_ok(g, s2, after.sentences@[j2].count as int));
                    let p = |i: int| 0 <= i && s2.contains(i as usize) && g.cells@[i].mine;
                    assert forall|i: int| 0 <= i < g.size() implies #[trigger] p(i) == false by {
                        if p(i) {
                            let d = i as usize;
                            assert(!s1.contains(d));
                            if before.sentences@[j1].cells@.contains(d) {
                                assert(d == key);
                            }
                            assert(outer_cells(before, j1, j2).contains(d));
                        }
                    }
                    lemma_count_ext(p, |i: int| false, g.size());
                    lemma_count_zero(g.size());
                    assert(after.sentences@[j2].count == 0);
                    assert(safe_pending(after, c));
                } else {
                    assert(nested_pair(after, j1, j2, c));
                    assert forall|d: usize| #[trigger] outer_cells(after, j1, j2).contains(d) implies !g.cells@[d as int].mine by {
                        assert(outer_cells(before, j1, j2).contains(d));
                    }
                }
            }
        }
    }
    assert forall|c: usize| mine_track(g, before, c) implies #[trigger] mine_track(g, after, c) by {
        if !mine_pending(before, c) {
            let (j1, j2) = choose|j1: int, j2: int|
                #[trigger] nested_pair(before, j1, j2, c) && forall|d: usize|
                    #[trigger] outer_cells(before, j1, j2).contains(d) ==> g.cells@[d as int].mine;
            if known {
                assert(nested_pair(after, j1, j2, c));
                assert(outer_cells(after, j1, j2) == outer_cells(before, j1, j2));
            } else if c == key {
                if after.safes@.contains(key) {
                    assert(!g.cells@[key as int].mine);
                    assert(outer_cells(before, j1, j2).contains(c));
                }
                assert(mine_pending(after, c));
            } else {
                let s1 = after.sentences@[j1].cells@;
                let s2 = after.sentences@[j2].cells@;
                assert(s2.contains(c));
                if s1.is_empty() {
                    assert(sentence_ok(g, s2, after.sentences@[j2].count as int));
                    lemma_cells_facts(g, &after.sentences@[j2].cells);
                    let p = |i: int| 0 <= i && s2.contains(i as usize) && g.cells@[i].mine;
                    assert forall|i: int| 0 <= i < g.size() implies #[trigger] p(i) == member(s2)(i) by {
                        if member(s2)(i) {
                            let d = i as usize;
                            assert(!s1.contains(d));
                            if before.sentences@[j1].cells@.contains(d) {
                                assert(d == key);
                            }
                            assert(outer_cells(before, j1, j2).contains(d));
                        }
                    }
                    lemma_count_ext(p, member(s2), g.size());
                    assert(after.sentences@[j2].count == s2.len());
                    assert(mine_pending(after, c));
                } else {
                    assert(nested_pair(after, j1, j2, c));
                    assert forall|d: usize| #[trigger] outer_cells(after, j1, j2).contains(d) implies g.cells@[d as int].mine by {
                        assert(outer_cells(before, j1, j2).contains(d));
                    }
                }
            }
        }
    }
}

/// On a consistent board, every cell of a true sentence with as many mines
/// as cells is a mine.
proof fn lemma_full_sentence(g: Game, cells: &BTreeSet<usize>, count: int)
    requires
        g.wf(),
        g.consistent(),
        sentence_ok(g, cells@, count),
        count == cells@.len(),
    ensures
        forall|c: usize| #[trigger] cells@.contains(c) ==> g.cells@[c as int].mine,
{
    lemma_cells_facts(g, cells);
    lemma_count_mono(
        |i: int| 0 <= i && cells@.contains(i as usize) && g.cells@[i].mine,
        member(cells@),
        g.size(),
    );
    assert forall|c: usize| #[trigger] cells@.contains(c) implies g.cells@[c as int].mine by {
        assert(member(cells@)(c as int));
    }
}

/// Records `key` as a mine and takes it out of every sentence.
/// Returns whether some sentence held it.
fn mark_mine(kb: &mut Knowledge, key: usize, Ghost(g): Ghost<Game>) -> (changed: bool)
    requires
        g.wf(),
        kb_inv(g, *old(kb)),
        (key as int) < g.size(),
        covered(g, key as int),
        g.consistent() ==> g.cells@[key as int].mine,
    ensures
        kb_inv(g, *final(kb)),
        final(kb).safes@ == old(kb).safes@,
        final(kb).mines@ == if old(kb).safes@.contains(key) {
            old(kb).mines@
        } else {
            old(kb).mines@.insert(key)
        },
        final(kb).sentences@.len() == old(kb).sentences@.len(),
        forall|k: usize| safe_pending(*old(kb), k) ==> #[trigger] safe_pending(*final(kb), k),
        forall|k: usize| mine_pending(*old(kb), k) ==> #[trigger] mine_pending(*final(kb), k),
        g.consistent() ==> forall|c: usize|
            safe_track(g, *old(kb), c) ==> #[trigger] safe_track(g, *final(kb), c),
        g.consistent() ==> forall|c: usize|
            mine_track(g, *old(kb), c) ==> #[trigger] mine_track(g, *final(kb), c),
        old(kb).safes@.contains(key) || old(kb).mines@.contains(key) ==> final(kb).sentences@
            == old(kb).sentences@ && !changed,
        !old(kb).safes@.contains(key) && !old(kb).mines@.contains(key) ==> (changed <==> exists|j: int|
            0 <= j < old(kb).sentences@.len() && (#[trigger] old(kb).sentences@[j]).cells@.contains(key)),
        !old(kb).safes@.contains(key) && !old(kb).mines@.contains(key) ==> forall|j: int|
            0 <= j < old(kb).sentences@.len() ==> (#[trigger] final(kb).sentences@[j]).cells@
                == old(kb).sentences@[j].cells@.remove(key) && final(kb).sentences@[j].count == (
            if old(kb).sentences@[j].cells@.contains(key) {
                if old(kb).sentences@[j].count - 1 > 0 {
                    old(kb).sentences@[j].count - 1
                } else {
                    0
                }
            } else {
                old(kb).sentences@[j].count as int
            }),
{
    if kb.safes.contains(&key) || kb.mines.contains(&key) {
        return false;
    }
    kb.mines.insert(key);
    let mut changed = false;
    let mut j: usize = 0;
    while j < kb.sentences.len()
        invariant
            g.wf(),
            (key as int) < g.size(),
            covered(g, key as int),
            g.consistent() ==> g.cells@[key as int].mine,
            kb.mines@ == old(kb).mines@.insert(key),
            kb.safes@ == old(kb).safes@,
            !old(kb).safes@.contains(key),
            kb_inv(g, *old(kb)),
            kb.sentences@.len() == old(kb).sentences@.len(),
            0 <= j <= kb.sentences@.len(),
            forall|t: int|
                0 <= t < kb.sentences@.len() ==> sentence_ok(
                    g,
                    (#[trigger] kb.sentences@[t]).cells@,
                    kb.sentences@[t].count as int,
                ),
            forall|t: int|
                0 <= t < j ==> (#[trigger] kb.sentences@[t]).cells@ == old(kb).sentences@[t].cells@.remove(key)
                    && kb.sentences@[t].count == (if old(kb).sentences@[t].cells@.contains(key) {
                    if old(kb).sentences@[t].count - 1 > 0 {
                        old(kb).sentences@[t].count - 1
                    } else {
                        0
                    }
                } else {
                    old(kb).sentences@[t].count as int
                }),
            forall|t: int|
                j <= t < kb.sentences@.len() ==> #[trigger] kb.sentences@[t] == old(kb).sentences@[t],
            changed <==> exists|t: int|
                0 <= t < j && (#[trigger] old(kb).sentences@[t]).cells@.contains(key),
        decreases kb.sentences@.len() - j,
    {
        proof {
            if !kb.sentences@[j as int].cells@.contains(key) {
                assert(kb.sentences@[j as int].cells@.remove(key) =~= kb.sentences@[j as int].cells@);
            }
        }
        if kb.sentences[j].cells.contains(&key) {
            let mut cells = kb.sentences[j].cells.clone();
            cells.remove(&key);
            let old_count = kb.sentences[j].count;
            let count = if old_count - 1 > 0 {
                old_count - 1
            } else {
                0
            };
            proof {
                let sc = kb.sentences@[j as int].cells@;
                lemma_mines_remove(g, sc, key);
                assert(cells@ == sc.remove(key));
            }
            kb.sentences.set(j, Sentence { cells, count });
            changed = true;
        }
        j = j + 1;
    }
    proof {
        assert forall|k: usize| safe_pending(*old(kb), k) implies #[trigger] safe_pending(*kb, k) by {
            if !old(kb).mines@.contains(k) && !old(kb).safes@.contains(k) && k != key {
                let j0 = choose|j0: int|
                    0 <= j0 < old(kb).sentences@.len() && (#[trigger] old(kb).sentences@[j0]).cells@.contains(k)
                        && old(kb).sentences@[j0].count == 0;
                assert(kb.sentences@[j0].cells@.contains(k));
            }
        }
        assert forall|k: usize| mine_pending(*old(kb), k) implies #[trigger] mine_pending(*kb, k) by {
            if !old(kb).mines@.contains(k) && k != key {
                let j0 = choose|j0: int|
                    0 <= j0 < old(kb).sentences@.len() && (#[trigger] old(kb).sentences@[j0]).cells@.contains(k)
                        && old(kb).sentences@[j0].count == old(kb).sentences@[j0].cells@.len();
                let oc = old(kb).sentences@[j0].cells@;
                assert(kb.sentences@[j0].cells@.contains(k));
                assert(sentence_ok(g, oc, old(kb).sentences@[j0].count as int));
                lemma_cells_facts(g, &old(kb).sentences@[j0].cells);
                if oc.contains(key) {
                    assert(oc.remove(key).len() == oc.len() - 1);
                    assert(oc.remove(key).contains(k));
                    assert(oc.remove(key).len() >= 1) by {
                        vstd::set_lib::lemma_len_subset(set![k], oc.remove(key));
                    }
                }
            }
        }
        if g.consistent() {
            lemma_track_mark(g, *old(kb), *kb, key);
        }
    }
    changed
}

/// Records `key` as safe and takes it out of every sentence.
/// Returns whether some sentence held it.
fn mark_safe(kb: &mut Knowledge, key: usize, Ghost(g): Ghost<Game>) -> (changed: bool)
    requires
        g.wf(),
        kb_inv(g, *old(kb)),
        (key as int) < g.size(),
        covered(g, key as int),
        g.consistent() ==> !g.cells@[key as int].mine,
    ensures
        kb_inv(g, *final(kb)),
        final(kb).mines@ == old(kb).mines@,
        final(kb).safes@ == if old(kb).mines@.contains(key) {
            old(kb).safes@
        } else {
            old(kb).safes@.insert(key)
        },
        final(kb).sentences@.len() == old(kb).sentences@.len(),
        forall|k: usize| safe_pending(*old(kb), k) ==> #[trigger] safe_pending(*final(kb), k),
        g.consistent() ==> forall|k: usize|
            mine_pending(*old(kb), k) ==> #[trigger] mine_pending(*final(kb), k),
        g.consistent() ==> forall|c: usize|
            safe_track(g, *old(kb), c) ==> #[trigger] safe_track(g, *final(kb), c),
        g.consistent() ==> forall|c: usize|
            mine_track(g, *old(kb), c) ==> #[trigger] mine_track(g, *final(kb), c),
        old(kb).safes@.contains(key) || old(kb).mines@.contains(key) ==> final(kb).sentences@
            == old(kb).sentences@ && !changed,
        !old(kb).safes@.contains(key) && !old(kb).mines@.contains(key) ==> (changed <==> exists|j: int|
            0 <= j < old(kb).sentences@.len() && (#[trigger] old(kb).sentences@[j]).cells@.contains(key)),
        !old(kb).safes@.contains(key) && !old(kb).mines@.contains(key) ==> forall|j: int|
            0 <= j < old(kb).sentences@.len() ==> (#[trigger] final(kb).sentences@[j]).cells@
                == old(kb).sentences@[j].cells@.remove(key) && final(kb).sentences@[j].count
                == old(kb).sentences@[j].count,
{
    if kb.safes.contains(&key) || kb.mines.contains(&key) {
        return false;
    }
    kb.safes.insert(key);
    let mut changed = false;
    let mut j: usize = 0;
    while j < kb.sentences.len()
        invariant
            g.wf(),
            (key as int) < g.size(),
            covered(g, key as int),
            g.consistent() ==> !g.cells@[key as int].mine,
            kb.safes@ == old(kb).safes@.insert(key),
            kb.mines@ == old(kb).mines@,
            !old(kb).mines@.contains(key),
            kb_inv(g, *old(kb)),
            kb.sentences@.len() == old(kb).sentences@.len(),
            0 <= j <= kb.sentences@.len(),
            forall|t: int|
                0 <= t < kb.sentences@.len() ==> sentence_ok(
                    g,
                    (#[trigger] kb.sentences@[t]).cells@,
                    kb.sentences@[t].count as int,
                ),
            forall|t: int|
                0 <= t < j ==> (#[trigger] kb.sentences@[t]).cells@ == old(kb).sentences@[t].cells@.remove(key)
                    && kb.sentences@[t].count == old(kb).sentences@[t].count,
            forall|t: int|
                j <= t < kb.sentences@.len() ==> #[trigger] kb.sentences@[t] == old(kb).sentences@[t],
            changed <==> exists|t: int|
                0 <= t < j && (#[trigger] old(kb).sentences@[t]).cells@.contains(key),
        decreases kb.sentences@.len() - j,
    {
        proof {
            if !kb.sentences@[j as int].cells@.contains(key) {
                assert(kb.sentences@[j as int].cells@.remove(key) =~= kb.sentences@[j as int].cells@);
            }
        }
        if kb.sentences[j].cells.contains(&key) {
            let mut cells = kb.sentences[j].cells.clone();
            cells.remove(&key);
            let count = kb.sentences[j].count;
            proof {
                let sc = kb.sentences@[j as int].cells@;
                lemma_mines_remove(g, sc, key);
                assert(cells@ == sc.remove(key));
            }
            kb.sentences.set(j, Sentence { cells, count });
            changed = true;
        }
        j = j + 1;
    }
    proof {
        assert forall|k: usize| safe_pending(*old(kb), k) implies #[trigger] safe_pending(*kb, k) by {
            if !old(kb).mines@.contains(k) && !old(kb).safes@.contains(k) && k != key {
                let j0 = choose|j0: int|
                    0 <= j0 < old(kb).sentences@.len() && (#[trigger] old(kb).sentences@[j0]).cells@.contains(k)
                        && old(kb).sentences@[j0].count == 0;
                assert(kb.sentences@[j0].cells@.contains(k));
            }
        }
        if g.consistent() {
            assert forall|k: usize| mine_pending(*old(kb), k) implies #[trigger] mine_pending(*kb, k) by {
                if !old(kb).mines@.contains(k) {
                    let j0 = choose|j0: int|
                        0 <= j0 < old(kb).sentences@.len() && (#[trigger] old(kb).sentences@[j0]).cells@.contains(k)
                            && old(kb).sentences@[j0].count == old(kb).sentences@[j0].cells@.len();
                    let oc = old(kb).sentences@[j0].cells@;
                    assert(sentence_ok(g, oc, old(kb).sentences@[j0].count as int));
                    lemma_full_sentence(g, &old(kb).sentences@[j0].cells, old(kb).sentences@[j0].count as int);
                    assert(!oc.contains(key));
                    assert(oc.remove(key) =~= oc);
                    assert(kb.sentences@[j0].cells@.contains(k));
                }
            }
            lemma_track_mark(g, *old(kb), *kb, key);
        }
    }
    changed
}

/// Adds a sentence unless it is empty or already known; its count is taken
/// as at least zero. Returns whether it was added.
fn add_sentence(kb: &mut Knowledge, cells: BTreeSet<usize>, count: i32, Ghost(g): Ghost<Game>) -> (added: bool)
    requires
        g.wf(),
        kb_inv(g, *old(kb)),
        covered_set(g, cells@),
        g.consistent() ==> count == mines_in(g, cells@),
    ensures
        kb_inv(g, *final(kb)),
        final(kb).mines@ == old(kb).mines@,
        final(kb).safes@ == old(kb).safes@,
        added == (!cells@.is_empty() && !exists|j: int|
            0 <= j < old(kb).sentences@.len() && (#[trigger] old(kb).sentences@[j]).cells@ == cells@
                && old(kb).sentences@[j].count == (if count > 0 {
                count
            } else {
                0
            })),
        added ==> final(kb).sentences@.len() == old(kb).sentences@.len() + 1,
        added ==> final(kb).sentences@.last().cells@ == cells@,
        added ==> final(kb).sentences@.last().count == (if count > 0 { count } else { 0 }),
        added ==> forall|j: int|
            0 <= j < old(kb).sentences@.len() ==> final(kb).sentences@[j] == old(kb).sentences@[j],
        !added ==> final(kb).sentences@ == old(kb).sentences@,
        forall|k: usize| safe_pending(*old(kb), k) ==> #[trigger] safe_pending(*final(kb), k),
        forall|k: usize| mine_pending(*old(kb), k) ==> #[trigger] mine_pending(*final(kb), k),
        count <= 0 ==> forall|k: usize| #[trigger] cells@.contains(k) ==> safe_pending(*final(kb), k),
        count > 0 && count == cells@.len() ==> forall|k: usize|
            #[trigger] cells@.contains(k) ==> mine_pending(*final(kb), k),
        forall|c: usize| safe_track(g, *old(kb), c) ==> #[trigger] safe_track(g, *final(kb), c),
        forall|c: usize| mine_track(g, *old(kb), c) ==> #[trigger] mine_track(g, *final(kb), c),
{
    if cells.is_empty() {
        return false;
    }
    let ghost cells_view = cells@;
    let sentence = Sentence { cells, count: if count > 0 { count } else { 0 } };
    assert(sentence.cells@ == cells_view);
    let mut j: usize = 0;
    while j < kb.sentences.len()
        invariant
            g.wf(),
            kb_inv(g, *kb),
            *kb == *old(kb),
            covered_set(g, sentence.cells@),
            sentence.cells@ == cells_view,
            !cells_view.is_empty(),
            cells_view == cells@,
            sentence.count == (if count > 0 { count } else { 0 }),
            0 <= j <= kb.sentences@.len(),
            forall|t: int|
                0 <= t < j ==> !((#[trigger] kb.sentences@[t]).cells@ == sentence.cells@
                    && kb.sentences@[t].count == sentence.count),
        decreases kb.sentences@.len() - j,
    {
        proof {
            assert(sentence_ok(g, kb.sentences@[j as int].cells@, kb.sentences@[j as int].count as int));
        }
        if same_sentence(&kb.sentences[j], &sentence, Ghost(g)) {
            proof {
                assert(old(kb).sentences@[j as int].cells@ == cells_view);
                assert(old(kb).sentences@[j as int].count == (if count > 0 { count } else { 0 }));
                assert(exists|t: int|
                    0 <= t < old(kb).sentences@.len() && (#[trigger] old(kb).sentences@[t]).cells@
                        == cells_view && old(kb).sentences@[t].count == (if count > 0 {
                        count
                    } else {
                        0
                    }));
                assert forall|k: usize| #[trigger] cells_view.contains(k) implies kb.sentences@[j as int].cells@.contains(k) by {}
            }
            return false;
        }
        j = j + 1;
    }
    let ghost before = *kb;
    kb.sentences.push(sentence);
    proof {
        let last = kb.sentences@.len() - 1;
        assert(kb.sentences@[last] == sentence);
        assert forall|k: usize| safe_pending(before, k) implies #[trigger] safe_pending(*kb, k) by {
            if !before.mines@.contains(k) && !before.safes@.contains(k) {
                let j0 = choose|j0: int|
                    0 <= j0 < before.sentences@.len() && (#[trigger] before.sentences@[j0]).cells@.contains(k)
                        && before.sentences@[j0].count == 0;
                assert(kb.sentences@[j0] == before.sentences@[j0]);
            }
        }
        assert forall|k: usize| mine_pending(before, k) implies #[trigger] mine_pending(*kb, k) by {
            if !before.mines@.contains(k) {
                let j0 = choose|j0: int|
                    0 <= j0 < before.sentences@.len() && (#[trigger] before.sentences@[j0]).cells@.contains(k)
                        && before.sentences@[j0].count == before.sentences@[j0].cells@.len();
                assert(kb.sentences@[j0] == before.sentences@[j0]);
            }
        }
        assert forall|k: usize| #[trigger] cells_view.contains(k) implies kb.sentences@[last].cells@.contains(k) by {}
        assert forall|c: usize| safe_track(g, before, c) implies #[trigger] safe_track(g, *kb, c) by {
            if !safe_pending(before, c) {
                let (j1, j2) = choose|j1: int, j2: int|
                    #[trigger] nested_pair(before, j1, j2, c) && forall|d: usize|
                        #[trigger] outer_cells(before, j1, j2).contains(d) ==> !g.cells@[d as int].mine;
                assert(kb.sentences@[j1] == before.sentences@[j1]);
                assert(kb.sentences@[j2] == before.sentences@[j2]);
                assert(nested_pair(*kb, j1, j2, c));
                assert(outer_cells(*kb, j1, j2) == outer_cells(before, j1, j2));
            }
        }
        assert forall|c: usize| mine_track(g, before, c) implies #[trigger] mine_track(g, *kb, c) by {
            if !mine_pending(before, c) {
                let (j1, j2) = choose|j1: int, j2: int|
                    #[trigger] nested_pair(before, j1, j2, c) && forall|d: usize|
                        #[trigger] outer_cells(before, j1, j2).contains(d) ==> g.cells@[d as int].mine;
                assert(kb.sentences@[j1] == before.sentences@[j1]);
                assert(kb.sentences@[j2] == before.sentences@[j2]);
                assert(nested_pair(*kb, j1, j2, c));
                assert(outer_cells(*kb, j1, j2) == outer_cells(before, j1, j2));
            }
        }
    }
    true
}


/// Flagged cells that are not revealed.
pub open spec fn flag_hidden(g: Game) -> spec_fn(int) -> bool {
    |k: int| g.cells@[k].flagged && !g.cells@[k].revealed
}

/// Cells neither revealed nor flagged.
pub open spec fn covered_cells(g: Game) -> spec_fn(int) -> bool {
    |k: int| covered(g, k)
}

/// Mines not yet flagged, by the counter: the mine count minus the flags on
/// covered cells.
pub open spec fn unflagged_mines(g: Game) -> int {
    g.mines as int - count_below(flag_hidden(g), g.size())
}

/// `h` lists the covered cells in increasing order.
spec fn hidden_list(g: Game, h: Seq<usize>) -> bool {
    &&& increasing(h)
    &&& forall|t: int| 0 <= t < h.len() ==> (#[trigger] h[t] as int) < g.size() && covered(g, h[t] as int)
    &&& forall|k: int| 0 <= k < g.size() && covered(g, k) ==> #[trigger] h.contains(k as usize)
}

/// On a consistent board the mines under covered cells number exactly the
/// mine count minus the flags.
proof fn lemma_hidden_mines(g: Game)
    requires
        g.consistent(),
    ensures
        unflagged_mines(g) == count_below(
            |k: int| covered(g, k) && g.cells@[k].mine,
            g.size(),
        ),
{
    let n = g.size();
    let m = |k: int| g.cells@[k].mine;
    lemma_count_split(m, flag_hidden(g), n);
    assert forall|k: int| 0 <= k < n implies (m(k) && flag_hidden(g)(k)) == #[trigger] flag_hidden(g)(k) by {
        assert(g.cells@[k].flagged ==> g.cells@[k].mine);
    }
    lemma_count_ext(|k: int| m(k) && flag_hidden(g)(k), flag_hidden(g), n);
    assert forall|k: int| 0 <= k < n implies (m(k) && !flag_hidden(g)(k)) == (#[trigger] covered(g, k) && g.cells@[k].mine) by {
        assert(g.cells@[k].revealed ==> !g.cells@[k].mine);
    }
    lemma_count_ext(
        |k: int| m(k) && !flag_hidden(g)(k),
        |k: int| covered(g, k) && g.cells@[k].mine,
        n,
    );
}

/// Sorts the cells into revealed (safe), flagged (mine) and covered.
fn initial_knowledge(game: &Game) -> (r: (Knowledge, Vec<usize>, i32))
    requires
        game.wf(),
    ensures
        r.0.sentences@.len() == 0,
        forall|k: usize|
            #[trigger] r.0.mines@.contains(k) <==> ((k as int) < game.size()
                && game.cells@[k as int].flagged && !game.cells@[k as int].revealed),
        forall|k: usize|
            #[trigger] r.0.safes@.contains(k) <==> ((k as int) < game.size()
                && game.cells@[k as int].revealed),
        hidden_list(*game, r.1@),
        r.1@.len() == count_below(covered_cells(*game), game.size()),
        r.2 == count_below(flag_hidden(*game), game.size()),
{
    proof {
        lemma_size_bound(game);
    }
    let ghost g = *game;
    let mut kb = Knowledge { mines: HashSet::new(), safes: HashSet::new(), sentences: Vec::new() };
    let mut hidden: Vec<usize> = Vec::new();
    let mut flagged: i32 = 0;
    let n = game.cells.len();
    let mut i: usize = 0;
    while i < n
        invariant
            g == *game,
            n == g.size(),
            g.size() <= 65025,
            0 <= i <= n,
            kb.sentences@.len() == 0,
            forall|k: usize|
                #[trigger] kb.mines@.contains(k) <==> ((k as int) < i && g.cells@[k as int].flagged
                    && !g.cells@[k as int].revealed),
            forall|k: usize|
                #[trigger] kb.safes@.contains(k) <==> ((k as int) < i && g.cells@[k as int].revealed),
            increasing(hidden@),
            forall|t: int|
                0 <= t < hidden@.len() ==> (#[trigger] hidden@[t] as int) < i && covered(
                    g,
                    hidden@[t] as int,
                ),
            forall|k: int| 0 <= k < i && covered(g, k) ==> #[trigger] hidden@.contains(k as usize),
            hidden@.len() == count_below(covered_cells(g), i as int),
            flagged == count_below(flag_hidden(g), i as int),
        decreases n - i,
    {
        let cell = game.cells[i];
        let ghost old_hidden = hidden@;
        if cell.revealed {
            kb.safes.insert(i);
        } else if cell.flagged {
            kb.mines.insert(i);
            proof {
                lemma_count_bound(flag_hidden(g), i as int);
            }
            flagged = flagged + 1;
        } else {
            hidden.push(i);
            proof {
                assert forall|k: int| 0 <= k < i + 1 && covered(g, k) implies #[trigger] hidden@.contains(k as usize) by {
                    if k < i {
                        assert(old_hidden.contains(k as usize));
                        let t = choose|t: int| 0 <= t < old_hidden.len() && old_hidden[t] == k as usize;
                        assert(hidden@[t] == k as usize);
                    } else {
                        assert(hidden@[hidden@.len() - 1] == i);
                    }
                }
            }
        }
        proof {
            assert forall|k: int| 0 <= k < i + 1 && covered(g, k) implies #[trigger] hidden@.contains(k as usize) by {
                if k < i {
                    assert(old_hidden.contains(k as usize));
                    let t = choose|t: int| 0 <= t < old_hidden.len() && old_hidden[t] == k as usize;
                    assert(hidden@[t] == k as usize);
                }
            }
        }
        i = i + 1;
    }
    (kb, hidden, flagged)
}


/// Flagged cells.
pub open spec fn flags_of(g: Game) -> spec_fn(int) -> bool {
    |k: int| g.cells@[k].flagged
}

/// Known mines are exactly the flags on covered cells and known safes exactly
/// the revealed cells.
spec fn first_knowledge(g: Game, kb: Knowledge) -> bool {
    &&& forall|k: usize|
        #[trigger] kb.mines@.contains(k) <==> ((k as int) < g.size() && g.cells@[k as int].flagged
            && !g.cells@[k as int].revealed)
    &&& forall|k: usize|
        #[trigger] kb.safes@.contains(k) <==> ((k as int) < g.size() && g.cells@[k as int].revealed)
}

/// The first knowledge base is sound.
proof fn lemma_first_knowledge(g: Game, kb: Knowledge)
    requires
        g.wf(),
        first_knowledge(g, kb),
        kb.sentences@.len() == 0,
    ensures
        kb_inv(g, kb),
{
    if g.consistent() {
        assert forall|k: usize| #[trigger] kb.mines@.contains(k) implies g.cells@[k as int].mine by {
            assert(g.cells@[k as int].flagged);
        }
        assert forall|k: usize| #[trigger] kb.safes@.contains(k) implies !g.cells@[k as int].mine by {
            assert(g.cells@[k as int].revealed);
        }
    }
}

/// The number of flagged neighbours of cell `s`.
pub open spec fn flags_around(g: Game, s: int) -> nat {
    count_below(|j: int| g.adjacent(s, j) && g.cells@[j].flagged, g.size())
}

/// The number of covered neighbours of cell `s`.
pub open spec fn covered_around(g: Game, s: int) -> nat {
    count_below(|j: int| g.adjacent(s, j) && covered(g, j), g.size())
}

/// Cell `k` is a covered neighbour of the revealed safe cell `s`, whose
/// number its flagged neighbours already reach: `k` is safe by `s`.
pub open spec fn cleared_by(g: Game, s: int, k: int) -> bool {
    &&& 0 <= s < g.size()
    &&& 0 <= k < g.size()
    &&& g.cells@[s].revealed
    &&& !g.cells@[s].mine
    &&& g.adjacent(s, k)
    &&& covered(g, k)
    &&& g.cells@[s].adj <= flags_around(g, s)
}

/// Cell `k` is a covered neighbour of the revealed safe cell `s`, whose
/// number is its flagged neighbours plus all its covered ones: `k` is a mine
/// by `s`.
pub open spec fn filled_by(g: Game, s: int, k: int) -> bool {
    &&& 0 <= s < g.size()
    &&& 0 <= k < g.size()
    &&& g.cells@[s].revealed
    &&& !g.cells@[s].mine
    &&& g.adjacent(s, k)
    &&& covered(g, k)
    &&& g.cells@[s].adj == flags_around(g, s) + covered_around(g, s)
}

/// The sentence that revealed cell `s` states about its covered neighbours:
/// its number minus its flagged neighbours.
fn neighbor_sentence(game: &Game, kb: &Knowledge, s: usize) -> (r: (BTreeSet<usize>, i32))
    requires
        game.wf(),
        first_knowledge(*game, *kb),
        (s as int) < game.size(),
        game.cells@[s as int].revealed,
        !game.cells@[s as int].mine,
    ensures
        covered_set(*game, r.0@),
        forall|c: usize|
            #[trigger] r.0@.contains(c) <==> ((c as int) < game.size() && game.adjacent(s as int, c as int)
                && covered(*game, c as int)),
        r.0@.finite(),
        r.0@.len() == covered_around(*game, s as int),
        r.1 == game.cells@[s as int].adj - flags_around(*game, s as int),
        game.consistent() ==> r.1 == mines_in(*game, r.0@),
{
    let ghost g = *game;
    proof {
        lemma_size_bound(game);
    }
    let src = game.cells[s];
    let mut undetermined: BTreeSet<usize> = BTreeSet::new();
    let mut count: i32 = src.adj as i32;
    let around = game.neighbor_indices(src.x, src.y);
    let ghost fl = flags_of(g);
    let mut t: usize = 0;
    while t < around.len()
        invariant
            g == *game,
            g.wf(),
            g.size() <= 65025,
            first_knowledge(g, *kb),
            fl == flags_of(g),
            src == g.cells@[s as int],
            0 <= t <= around@.len(),
            around@.len() <= 8,
            forall|k: int| 0 <= k < around@.len() ==> (#[trigger] around@[k] as int) < g.size(),
            count == src.adj - seq_count(around@.take(t as int), fl),
            seq_count(around@.take(t as int), fl) <= t,
            forall|x: usize|
                #[trigger] undetermined@.contains(x) <==> (exists|u: int|
                    0 <= u < t && around@[u] == x) && covered(g, x as int),
        decreases around@.len() - t,
    {
        let nb = around[t];
        assert(around@.take(t + 1).drop_last() == around@.take(t as int));
        assert(around@.take(t + 1).last() == nb);
        assert(kb.mines@.contains(nb) ==> g.cells@[nb as int].flagged);
        assert(seq_count(around@.take(t + 1), fl) == seq_count(around@.take(t as int), fl) + if fl(
            nb as int,
        ) {
            1nat
        } else {
            0nat
        });
        if game.cells[nb].flagged || kb.mines.contains(&nb) {
            count = count - 1;
        } else if !game.cells[nb].revealed && !kb.safes.contains(&nb) {
            undetermined.insert(nb);
        }
        t = t + 1;
    }
    proof {
        assert(around@.take(around@.len() as int) == around@);
        let n = g.size();
        let adjf = |j: int| g.adjacent(s as int, j) && g.cells@[j].flagged;
        assert(around@.no_duplicates());
        lemma_seq_count(around@, fl, n);
        assert forall|j: int| 0 <= j < n implies (0 <= j && around@.contains(j as usize) && fl(j))
            == #[trigger] adjf(j) by {}
        lemma_count_ext(|j: int| 0 <= j && around@.contains(j as usize) && fl(j), adjf, n);
        assert forall|c: usize| #[trigger] undetermined@.contains(c) <==> ((c as int) < g.size()
            && g.adjacent(s as int, c as int) && covered(g, c as int)) by {
            if undetermined@.contains(c) {
                let u = choose|u: int| 0 <= u < t && around@[u] == c;
                assert(around@.contains(c));
            }
            if (c as int) < g.size() && g.adjacent(s as int, c as int) && covered(g, c as int) {
                assert(around@.contains(c));
                let u = choose|u: int| 0 <= u < around@.len() && around@[u] == c;
            }
        }
        lemma_cells_facts(g, &undetermined);
        assert forall|j: int| 0 <= j < n implies #[trigger] member(undetermined@)(j) == (g.adjacent(
            s as int,
            j,
        ) && covered(g, j)) by {}
        lemma_count_ext(member(undetermined@), |j: int| g.adjacent(s as int, j) && covered(g, j), n);
        if g.consistent() {
            let adjm = |j: int| g.adjacent(s as int, j) && g.cells@[j].mine;
            lemma_count_split(adjm, fl, n);
            assert forall|j: int| 0 <= j < n implies (adjm(j) && fl(j)) == #[trigger] adjf(j) by {
                assert(g.cells@[j].flagged ==> g.cells@[j].mine);
            }
            lemma_count_ext(|j: int| adjm(j) && fl(j), adjf, n);
            assert forall|j: int| 0 <= j < n implies (adjm(j) && !fl(j)) == (0 <= j && #[trigger] undetermined@.contains(j as usize) && g.cells@[j].mine) by {
                assert(g.cells@[j].revealed ==> !g.cells@[j].mine);
                if around@.contains(j as usize) {
                    let u = choose|u: int| 0 <= u < around@.len() && around@[u] == j as usize;
                }
            }
            lemma_count_ext(
                |j: int| adjm(j) && !fl(j),
                |j: int| 0 <= j && undetermined@.contains(j as usize) && g.cells@[j].mine,
                n,
            );
        }
        assert forall|c: usize| #[trigger] undetermined@.contains(c) implies (c as int) < g.size() && covered(g, c as int) by {
            let u = choose|u: int| 0 <= u < t && around@[u] == c;
        }
    }
    (undetermined, count)
}


/// Known mines that are not flagged.
pub open spec fn inferred_mines(g: Game, m: Set<usize>) -> spec_fn(int) -> bool {
    |j: int| 0 <= j && m.contains(j as usize) && !g.cells@[j].flagged
}

/// Covered cells that are neither known mines nor known safes.
pub open spec fn still_unknown(g: Game, m: Set<usize>, s: Set<usize>) -> spec_fn(int) -> bool {
    |j: int| covered(g, j) && !m.contains(j as usize) && !s.contains(j as usize)
}

/// How many known mines are not flagged.
fn count_inferred(game: &Game, kb: &Knowledge) -> (r: i32)
    requires
        game.wf(),
    ensures
        r == count_below(inferred_mines(*game, kb.mines@), game.size()),
{
    proof {
        lemma_size_bound(game);
    }
    let ghost g = *game;
    let n = game.cells.len();
    let mut r: i32 = 0;
    let mut k: usize = 0;
    while k < n
        invariant
            g == *game,
            n == g.size(),
            n <= 65025,
            0 <= k <= n,
            r == count_below(inferred_mines(g, kb.mines@), k as int),
        decreases n - k,
    {
        proof {
            lemma_count_bound(inferred_mines(g, kb.mines@), k as int);
        }
        if kb.mines.contains(&k) && !game.cells[k].flagged {
            r = r + 1;
        }
        k = k + 1;
    }
    r
}

/// The covered cells not yet known, in increasing order.
fn collect_unknown(game: &Game, kb: &Knowledge, hidden: &Vec<usize>) -> (r: Vec<usize>)
    requires
        game.wf(),
        hidden_list(*game, hidden@),
    ensures
        increasing(r@),
        forall|t: int|
            0 <= t < r@.len() ==> (#[trigger] r@[t] as int) < game.size() && still_unknown(
                *game,
                kb.mines@,
                kb.safes@,
            )(r@[t] as int),
        forall|k: int|
            0 <= k < game.size() && #[trigger] still_unknown(*game, kb.mines@, kb.safes@)(k)
                ==> r@.contains(k as usize),
        r@.len() == count_below(still_unknown(*game, kb.mines@, kb.safes@), game.size()),
{
    proof {
        lemma_size_bound(game);
    }
    let ghost g = *game;
    let ghost su = still_unknown(g, kb.mines@, kb.safes@);
    let mut r: Vec<usize> = Vec::new();
    let mut t: usize = 0;
    while t < hidden.len()
        invariant
            g == *game,
            g.size() <= 65025,
            su == still_unknown(g, kb.mines@, kb.safes@),
            hidden_list(g, hidden@),
            0 <= t <= hidden@.len(),
            increasing(r@),
            forall|u: int|
                0 <= u < r@.len() ==> (#[trigger] r@[u] as int) < g.size() && su(r@[u] as int),
            r@.len() > 0 ==> t > 0 && r@[r@.len() - 1] <= hidden@[t - 1],
            forall|x: usize|
                #[trigger] r@.contains(x) <== (exists|u: int| 0 <= u < t && hidden@[u] == x) && su(
                    x as int,
                ),
        decreases hidden@.len() - t,
    {
        let h = hidden[t];
        let ghost old_r = r@;
        if !kb.mines.contains(&h) && !kb.safes.contains(&h) {
            r.push(h);
            proof {
                assert forall|x: usize| (exists|u: int| 0 <= u < t + 1 && hidden@[u] == x) && su(x as int) implies #[trigger] r@.contains(x) by {
                    let u = choose|u: int| 0 <= u < t + 1 && hidden@[u] == x;
                    if u < t {
                        assert(old_r.contains(x));
                        let v = choose|v: int| 0 <= v < old_r.len() && old_r[v] == x;
                        assert(r@[v] == x);
                    } else {
                        assert(r@[r@.len() - 1] == x);
                    }
                }
            }
        } else {
            proof {
                assert forall|x: usize| (exists|u: int| 0 <= u < t + 1 && hidden@[u] == x) && su(x as int) implies #[trigger] r@.contains(x) by {
                    let u = choose|u: int| 0 <= u < t + 1 && hidden@[u] == x;
                    if u < t {
                        assert(old_r.contains(x));
                    }
                }
            }
        }
        t = t + 1;
    }
    proof {
        let n = g.size();
        assert forall|k: int| 0 <= k < n && #[trigger] su(k) implies r@.contains(k as usize) by {
            assert(hidden@.contains(k as usize));
            let u = choose|u: int| 0 <= u < hidden@.len() && hidden@[u] == k as usize;
        }
        assert(r@.no_duplicates());
        lemma_seq_len_count(r@, n);
        assert forall|k: int| 0 <= k < n implies (0 <= k && r@.contains(k as usize)) == #[trigger] su(k) by {
            if r@.contains(k as usize) {
                let u = choose|u: int| 0 <= u < r@.len() && r@[u] == k as usize;
            }
        }
        lemma_count_ext(|k: int| 0 <= k && r@.contains(k as usize), su, n);
    }
    r
}

/// On a consistent board, the mines among the still-unknown cells number
/// exactly the unflagged mines minus the known mines that are not flagged.
proof fn lemma_unknown_mines(g: Game, kb: Knowledge)
    requires
        g.consistent(),
        kb_inv(g, kb),
    ensures
        unflagged_mines(g) - count_below(inferred_mines(g, kb.mines@), g.size()) == count_below(
            |j: int| still_unknown(g, kb.mines@, kb.safes@)(j) && g.cells@[j].mine,
            g.size(),
        ),
{
    let n = g.size();
    lemma_size_bound(&g);
    lemma_hidden_mines(g);
    let hm = |k: int| covered(g, k) && g.cells@[k].mine;
    let km = |k: int| 0 <= k && kb.mines@.contains(k as usize);
    lemma_count_split(hm, km, n);
    assert forall|k: int| 0 <= k < n implies (hm(k) && km(k)) == #[trigger] inferred_mines(g, kb.mines@)(k) by {
        if kb.mines@.contains(k as usize) {
            assert(g.cells@[k].mine);
            assert(!g.cells@[k].revealed);
        }
    }
    lemma_count_ext(|k: int| hm(k) && km(k), inferred_mines(g, kb.mines@), n);
    assert forall|k: int| 0 <= k < n implies (hm(k) && !km(k)) == (#[trigger] still_unknown(g, kb.mines@, kb.safes@)(k) && g.cells@[k].mine) by {
        if kb.safes@.contains(k as usize) {
            assert(!g.cells@[k].mine);
        }
    }
    lemma_count_ext(
        |k: int| hm(k) && !km(k),
        |j: int| still_unknown(g, kb.mines@, kb.safes@)(j) && g.cells@[j].mine,
        n,
    );
}

/// An entry of an increasing list is not among the entries before it.
proof fn lemma_fresh_key(u: Seq<usize>, t: int)
    requires
        increasing(u),
        0 <= t < u.len(),
    ensures
        !u.take(t).contains(u[t]),
        u.take(t + 1) == u.take(t).push(u[t]),
        forall|c: usize| #[trigger] u.take(t + 1).contains(c) <==> (u.take(t).contains(c) || c == u[t]),
{
    let w0 = u.take(t);
    if w0.contains(u[t]) {
        let v = choose|v: int| 0 <= v < t && w0[v] == u[t];
        assert(u[v] < u[t]);
    }
    assert(u.take(t + 1) =~= u.take(t).push(u[t]));
    assert forall|c: usize| #[trigger] u.take(t + 1).contains(c) <==> (u.take(t).contains(c) || c == u[t]) by {
        let w = u.take(t + 1);
        if w.contains(c) {
            let v = choose|v: int| 0 <= v < t + 1 && w[v] == c;
            if v < t {
                assert(u.take(t)[v] == c);
            }
        }
        let w0 = u.take(t);
        if w0.contains(c) {
            let v = choose|v: int| 0 <= v < t && w0[v] == c;
            assert(u.take(t + 1)[v] == c);
        }
        if c == u[t] {
            assert(u.take(t + 1)[t] == c);
        }
    }
}

/// One mark of the remaining-mine rule, on a key that was not yet known:
/// the sentences lose the key and the answer records whether one held it.
proof fn lemma_marked_step(
    start: Knowledge,
    prev: Knowledge,
    next: Knowledge,
    u: Seq<usize>,
    t: int,
    was: bool,
    marked: bool,
    now: bool,
)
    requires
        0 <= t < u.len(),
        !u.take(t).contains(u[t]),
        forall|c: usize| #[trigger] u.take(t + 1).contains(c) <==> (u.take(t).contains(c) || c == u[t]),
        prev.sentences@.len() == start.sentences@.len(),
        next.sentences@.len() == start.sentences@.len(),
        was <==> exists|j: int, c: usize|
            0 <= j < start.sentences@.len() && (#[trigger] start.sentences@[j].cells@.contains(c))
                && u.take(t).contains(c),
        forall|j: int, c: usize|
            0 <= j < start.sentences@.len() ==> (#[trigger] prev.sentences@[j].cells@.contains(c)
                <==> start.sentences@[j].cells@.contains(c) && !u.take(t).contains(c)),
        marked <==> exists|j: int|
            0 <= j < prev.sentences@.len() && (#[trigger] prev.sentences@[j]).cells@.contains(u[t]),
        forall|j: int|
            0 <= j < prev.sentences@.len() ==> (#[trigger] next.sentences@[j]).cells@
                == prev.sentences@[j].cells@.remove(u[t]),
        now == (was || marked),
    ensures
        now <==> exists|j: int, c: usize|
            0 <= j < start.sentences@.len() && (#[trigger] start.sentences@[j].cells@.contains(c))
                && u.take(t + 1).contains(c),
        forall|j: int, c: usize|
            0 <= j < start.sentences@.len() ==> (#[trigger] next.sentences@[j].cells@.contains(c)
                <==> start.sentences@[j].cells@.contains(c) && !u.take(t + 1).contains(c)),
{
    let h = u[t];
    assert forall|j: int, c: usize| 0 <= j < start.sentences@.len() implies (#[trigger] next.sentences@[j].cells@.contains(c)
        <==> start.sentences@[j].cells@.contains(c) && !u.take(t + 1).contains(c)) by {
        assert(next.sentences@[j].cells@ == prev.sentences@[j].cells@.remove(h));
        assert(prev.sentences@[j].cells@.contains(c) <==> start.sentences@[j].cells@.contains(c)
            && !u.take(t).contains(c));
    }
    if now {
        if was {
            let (j, c) = choose|j: int, c: usize|
                0 <= j < start.sentences@.len() && (#[trigger] start.sentences@[j].cells@.contains(c))
                    && u.take(t).contains(c);
            assert(u.take(t + 1).contains(c));
        } else {
            let j = choose|j: int|
                0 <= j < prev.sentences@.len() && (#[trigger] prev.sentences@[j]).cells@.contains(h);
            assert(prev.sentences@[j].cells@.contains(h));
            assert(start.sentences@[j].cells@.contains(h));
            assert(u.take(t + 1).contains(h));
        }
    } else {
        assert forall|j: int, c: usize|
            0 <= j < start.sentences@.len() && u.take(t + 1).contains(c) implies !#[trigger] start.sentences@[j].cells@.contains(c) by {
            if start.sentences@[j].cells@.contains(c) {
                if u.take(t).contains(c) {
                } else {
                    assert(c == h);
                    assert(prev.sentences@[j].cells@.contains(h));
                }
            }
        }
    }
}

/// The remaining-mine rule: when no unknown mine is left, every unknown cell
/// is safe; when as many are left as cells are unknown, all are mines.
/// Returns whether a sentence changed.
fn apply_remaining(kb: &mut Knowledge, unknown: &Vec<usize>, left: i32, Ghost(g): Ghost<Game>) -> (changed: bool)
    requires
        g.wf(),
        kb_inv(g, *old(kb)),
        increasing(unknown@),
        forall|t: int|
            0 <= t < unknown@.len() ==> (#[trigger] unknown@[t] as int) < g.size() && still_unknown(
                g,
                old(kb).mines@,
                old(kb).safes@,
            )(unknown@[t] as int),
        unknown@.len() == count_below(still_unknown(g, old(kb).mines@, old(kb).safes@), g.size()),
        g.consistent() ==> left == count_below(
            |j: int| still_unknown(g, old(kb).mines@, old(kb).safes@)(j) && g.cells@[j].mine,
            g.size(),
        ),
    ensures
        kb_inv(g, *final(kb)),
        old(kb).mines@.subset_of(final(kb).mines@),
        old(kb).safes@.subset_of(final(kb).safes@),
        final(kb).sentences@.len() == old(kb).sentences@.len(),
        forall|k: usize| safe_pending(*old(kb), k) ==> #[trigger] safe_pending(*final(kb), k),
        g.consistent() ==> forall|k: usize|
            mine_pending(*old(kb), k) ==> #[trigger] mine_pending(*final(kb), k),
        g.consistent() ==> forall|c: usize|
            safe_track(g, *old(kb), c) ==> #[trigger] safe_track(g, *final(kb), c),
        g.consistent() ==> forall|c: usize|
            mine_track(g, *old(kb), c) ==> #[trigger] mine_track(g, *final(kb), c),
        !(left == 0 && unknown@.len() > 0) && !(left > 0 && left == unknown@.len()) ==> *final(kb)
            == *old(kb) && !changed,
        (left == 0 && unknown@.len() > 0) || (left > 0 && left == unknown@.len()) ==> (changed
            <==> exists|j: int, c: usize|
            0 <= j < old(kb).sentences@.len() && (#[trigger] old(kb).sentences@[j].cells@.contains(c))
                && unknown@.contains(c)),
        (left == 0 && unknown@.len() > 0) || (left > 0 && left == unknown@.len()) ==> forall|
            j: int,
            c: usize,
        |
            0 <= j < old(kb).sentences@.len() ==> (#[trigger] final(kb).sentences@[j].cells@.contains(c)
                <==> old(kb).sentences@[j].cells@.contains(c) && !unknown@.contains(c)),
        left == 0 && unknown@.len() > 0 ==> {
            &&& final(kb).mines@ == old(kb).mines@
            &&& forall|k: usize| #[trigger] final(kb).safes@.contains(k) <==> (old(kb).safes@.contains(k)
                || unknown@.contains(k))
            &&& forall|j: int|
                0 <= j < old(kb).sentences@.len() ==> (#[trigger] final(kb).sentences@[j]).count
                    == old(kb).sentences@[j].count
        },
        left > 0 && left == unknown@.len() ==> {
            &&& final(kb).safes@ == old(kb).safes@
            &&& forall|k: usize| #[trigger] final(kb).mines@.contains(k) <==> (old(kb).mines@.contains(k)
                || unknown@.contains(k))
            &&& forall|j: int|
                0 <= j < old(kb).sentences@.len() ==> (#[trigger] final(kb).sentences@[j]).count == (
                if old(kb).sentences@[j].count - (old(kb).sentences@[j].cells@.len()
                    - final(kb).sentences@[j].cells@.len()) > 0 {
                    old(kb).sentences@[j].count - (old(kb).sentences@[j].cells@.len()
                        - final(kb).sentences@[j].cells@.len())
                } else {
                    0
                })
        },
{
    let ghost n = g.size();
    let ghost su = still_unknown(g, old(kb).mines@, old(kb).safes@);
    let ghost sum = |j: int| su(j) && g.cells@[j].mine;
    proof {
        lemma_size_bound(&g);
        lemma_count_bound(su, n);
    }
    let mut changed = false;
    if left == 0 && !unknown.is_empty() {
        proof {
            lemma_count_bound(sum, n);
            if g.consistent() {
                assert forall|j: int| 0 <= j < n implies !(#[trigger] su(j) && g.cells@[j].mine) by {
                    assert(!sum(j));
                }
            }
        }
        let mut t: usize = 0;
        while t < unknown.len()
            invariant
                g.wf(),
                n == g.size(),
                n <= 65025,
                kb_inv(g, *kb),
                su == still_unknown(g, old(kb).mines@, old(kb).safes@),
                kb.mines@ == old(kb).mines@,
                old(kb).safes@.subset_of(kb.safes@),
                kb.sentences@.len() == old(kb).sentences@.len(),
                forall|u: int|
                    0 <= u < unknown@.len() ==> (#[trigger] unknown@[u] as int) < n && su(
                        unknown@[u] as int,
                    ),
                g.consistent() ==> forall|j: int| 0 <= j < n ==> !(#[trigger] su(j) && g.cells@[j].mine),
                0 <= t <= unknown@.len(),
                forall|k: usize| safe_pending(*old(kb), k) ==> #[trigger] safe_pending(*kb, k),
                g.consistent() ==> forall|k: usize|
                    mine_pending(*old(kb), k) ==> #[trigger] mine_pending(*kb, k),
                increasing(unknown@),
                g.consistent() ==> forall|c: usize|
                    safe_track(g, *old(kb), c) ==> #[trigger] safe_track(g, *kb, c),
                g.consistent() ==> forall|c: usize|
                    mine_track(g, *old(kb), c) ==> #[trigger] mine_track(g, *kb, c),
                changed <==> exists|j: int, c: usize|
                    0 <= j < old(kb).sentences@.len() && (#[trigger] old(kb).sentences@[j].cells@.contains(c))
                        && unknown@.take(t as int).contains(c),
                forall|j: int, c: usize|
                    0 <= j < old(kb).sentences@.len() ==> (#[trigger] kb.sentences@[j].cells@.contains(c)
                        <==> old(kb).sentences@[j].cells@.contains(c) && !unknown@.take(t as int).contains(c)),
                forall|k: usize| #[trigger] kb.safes@.contains(k) <==> (old(kb).safes@.contains(k)
                    || unknown@.take(t as int).contains(k)),
                forall|j: int|
                    0 <= j < old(kb).sentences@.len() ==> (#[trigger] kb.sentences@[j]).count
                        == old(kb).sentences@[j].count,
            decreases unknown@.len() - t,
        {
            let h = unknown[t];
            let ghost prev = *kb;
            let ghost was = changed;
            proof {
                assert(su(h as int));
                lemma_fresh_key(unknown@, t as int);
            }
            let marked = mark_safe(kb, h, Ghost(g));
            if marked {
                changed = true;
            } else {
                let ghost before = *kb;
                kb.safes.insert(h);
                proof {
                    lemma_pending_grow(before, *kb);
                    lemma_track_grow(g, before, *kb);
                    assert(kb.safes@ =~= before.safes@);
                }
            }
            proof {
                lemma_marked_step(*old(kb), prev, *kb, unknown@, t as int, was, marked, changed);
            }
            t = t + 1;
        }
    } else if left > 0 && left == unknown.len() as i32 {
        proof {
            if g.consistent() {
                lemma_count_mono(sum, su, n);
            }
        }
        let mut t: usize = 0;
        while t < unknown.len()
            invariant
                g.wf(),
                n == g.size(),
                n <= 65025,
                kb_inv(g, *kb),
                su == still_unknown(g, old(kb).mines@, old(kb).safes@),
                kb.safes@ == old(kb).safes@,
                kb_inv(g, *old(kb)),
                old(kb).mines@.subset_of(kb.mines@),
                kb.sentences@.len() == old(kb).sentences@.len(),
                forall|u: int|
                    0 <= u < unknown@.len() ==> (#[trigger] unknown@[u] as int) < n && su(
                        unknown@[u] as int,
                    ),
                g.consistent() ==> forall|j: int| 0 <= j < n && #[trigger] su(j) ==> g.cells@[j].mine,
                0 <= t <= unknown@.len(),
                forall|k: usize| safe_pending(*old(kb), k) ==> #[trigger] safe_pending(*kb, k),
                g.consistent() ==> forall|k: usize|
                    mine_pending(*old(kb), k) ==> #[trigger] mine_pending(*kb, k),
                increasing(unknown@),
                g.consistent() ==> forall|c: usize|
                    safe_track(g, *old(kb), c) ==> #[trigger] safe_track(g, *kb, c),
                g.consistent() ==> forall|c: usize|
                    mine_track(g, *old(kb), c) ==> #[trigger] mine_track(g, *kb, c),
                changed <==> exists|j: int, c: usize|
                    0 <= j < old(kb).sentences@.len() && (#[trigger] old(kb).sentences@[j].cells@.contains(c))
                        && unknown@.take(t as int).contains(c),
                forall|j: int, c: usize|
                    0 <= j < old(kb).sentences@.len() ==> (#[trigger] kb.sentences@[j].cells@.contains(c)
                        <==> old(kb).sentences@[j].cells@.contains(c) && !unknown@.take(t as int).contains(c)),
                forall|k: usize| #[trigger] kb.mines@.contains(k) <==> (old(kb).mines@.contains(k)
                    || unknown@.take(t as int).contains(k)),
                forall|j: int|
                    0 <= j < old(kb).sentences@.len() ==> (#[trigger] kb.sentences@[j]).count == (
                    if old(kb).sentences@[j].count - (old(kb).sentences@[j].cells@.len()
                        - kb.sentences@[j].cells@.len()) > 0 {
                        old(kb).sentences@[j].count - (old(kb).sentences@[j].cells@.len()
                            - kb.sentences@[j].cells@.len())
                    } else {
                        0
                    }),
            decreases unknown@.len() - t,
        {
            let h = unknown[t];
            let ghost prev = *kb;
            let ghost was = changed;
            proof {
                assert(su(h as int));
                lemma_fresh_key(unknown@, t as int);
            }
            let marked = mark_mine(kb, h, Ghost(g));
            if marked {
                changed = true;
            } else {
                let ghost before = *kb;
                kb.mines.insert(h);
                proof {
                    lemma_pending_grow(before, *kb);
                    lemma_track_grow(g, before, *kb);
                    assert(kb.mines@ =~= before.mines@);
                }
            }
            proof {
                lemma_marked_step(*old(kb), prev, *kb, unknown@, t as int, was, marked, changed);
                assert forall|j: int| 0 <= j < old(kb).sentences@.len() implies (#[trigger] kb.sentences@[j]).count == (
                    if old(kb).sentences@[j].count - (old(kb).sentences@[j].cells@.len()
                        - kb.sentences@[j].cells@.len()) > 0 {
                        old(kb).sentences@[j].count - (old(kb).sentences@[j].cells@.len()
                            - kb.sentences@[j].cells@.len())
                    } else {
                        0
                    }) by {
                    assert(sentence_ok(g, prev.sentences@[j].cells@, prev.sentences@[j].count as int));
                    lemma_cells_facts(g, &prev.sentences@[j].cells);
                    assert(sentence_ok(g, old(kb).sentences@[j].cells@, old(kb).sentences@[j].count as int));
                    lemma_cells_facts(g, &old(kb).sentences@[j].cells);
                    if !prev.sentences@[j].cells@.contains(h) {
                        assert(kb.sentences@[j].cells@ =~= prev.sentences@[j].cells@);
                    }
                }
            }
            t = t + 1;
        }
    }
    proof {
        assert(unknown@.take(unknown@.len() as int) =~= unknown@);
    }
    changed
}


/// Cells of a known sentence that it forces to be mines (as many cells as
/// mines) or safe (no mines).
fn collect_keys(kb: &Knowledge, Ghost(g): Ghost<Game>) -> (r: (Vec<usize>, Vec<usize>))
    requires
        g.wf(),
        kb_inv(g, *kb),
    ensures
        forall|t: int|
            0 <= t < r.0@.len() ==> (#[trigger] r.0@[t] as int) < g.size() && covered(
                g,
                r.0@[t] as int,
            ) && (g.consistent() ==> g.cells@[r.0@[t] as int].mine),
        forall|t: int|
            0 <= t < r.1@.len() ==> (#[trigger] r.1@[t] as int) < g.size() && covered(
                g,
                r.1@[t] as int,
            ) && (g.consistent() ==> !g.cells@[r.1@[t] as int].mine),
        forall|j: int, c: usize|
            #![trigger kb.sentences@[j].cells@.contains(c)]
            0 <= j < kb.sentences@.len() && kb.sentences@[j].cells@.contains(c)
                && kb.sentences@[j].count == kb.sentences@[j].cells@.len() ==> r.0@.contains(c),
        forall|j: int, c: usize|
            #![trigger kb.sentences@[j].cells@.contains(c)]
            0 <= j < kb.sentences@.len() && kb.sentences@[j].cells@.contains(c)
                && kb.sentences@[j].count == 0 ==> r.1@.contains(c),
        forall|c: usize| #[trigger] r.0@.contains(c) ==> full_cells(kb_view(*kb)).contains(c),
        forall|c: usize| #[trigger] r.1@.contains(c) ==> empty_count_cells(kb_view(*kb)).contains(c),
{
    proof {
        lemma_size_bound(&g);
    }
    let mut mine_keys: Vec<usize> = Vec::new();
    let mut safe_keys: Vec<usize> = Vec::new();
    let mut j: usize = 0;
    while j < kb.sentences.len()
        invariant
            g.wf(),
            g.size() <= 65025,
            kb_inv(g, *kb),
            0 <= j <= kb.sentences@.len(),
            forall|t: int|
                0 <= t < mine_keys@.len() ==> (#[trigger] mine_keys@[t] as int) < g.size()
                    && covered(g, mine_keys@[t] as int) && (g.consistent()
                    ==> g.cells@[mine_keys@[t] as int].mine),
            forall|t: int|
                0 <= t < safe_keys@.len() ==> (#[trigger] safe_keys@[t] as int) < g.size()
                    && covered(g, safe_keys@[t] as int) && (g.consistent()
                    ==> !g.cells@[safe_keys@[t] as int].mine),
            forall|t: int, c: usize|
                #![trigger kb.sentences@[t].cells@.contains(c)]
                0 <= t < j && kb.sentences@[t].cells@.contains(c)
                    && kb.sentences@[t].count == kb.sentences@[t].cells@.len() ==> mine_keys@.contains(c),
            forall|t: int, c: usize|
                #![trigger kb.sentences@[t].cells@.contains(c)]
                0 <= t < j && kb.sentences@[t].cells@.contains(c)
                    && kb.sentences@[t].count == 0 ==> safe_keys@.contains(c),
            forall|c: usize| #[trigger] mine_keys@.contains(c) ==> full_cells(kb_view(*kb)).contains(c),
            forall|c: usize| #[trigger] safe_keys@.contains(c) ==> empty_count_cells(kb_view(*kb)).contains(c),
        decreases kb.sentences@.len() - j,
    {
        let ghost mk0 = mine_keys@;
        let ghost sk0 = safe_keys@;
        let sentence = &kb.sentences[j];
        let ghost cs = sentence.cells@;
        proof {
            assert(sentence_ok(g, cs, sentence.count as int));
            lemma_cells_facts(g, &sentence.cells);
        }
        if !sentence.cells.is_empty() {
            let ghost q = spec_btree_keys_iter(&sentence.cells).remaining().unref();
            proof {
                assert(q.to_set() == cs);
            }
            if sentence.cells.len() as i32 == sentence.count && sentence.count > 0 {
                proof {
                    if g.consistent() {
                        lemma_count_mono(
                            |i: int| 0 <= i && cs.contains(i as usize) && g.cells@[i].mine,
                            member(cs),
                            g.size(),
                        );
                    }
                }
                for c in it: sentence.cells.iter()
                    invariant
                        it.seq().unref() == q,
                        q.to_set() == cs,
                        g.wf(),
                        covered_set(g, cs),
                        g.consistent() ==> forall|i: int|
                            0 <= i < g.size() && #[trigger] member(cs)(i) ==> g.cells@[i].mine,
                        forall|t: int|
                            0 <= t < mine_keys@.len() ==> (#[trigger] mine_keys@[t] as int)
                                < g.size() && covered(g, mine_keys@[t] as int) && (g.consistent()
                                ==> g.cells@[mine_keys@[t] as int].mine),
                        forall|x: usize| #[trigger] mk0.contains(x) ==> mine_keys@.contains(x),
                        0 <= j < kb.sentences@.len(),
                        cs == kb.sentences@[j as int].cells@,
                        kb.sentences@[j as int].count == cs.len(),
                        forall|c: usize| #[trigger] mine_keys@.contains(c) ==> full_cells(kb_view(*kb)).contains(c),
                        forall|u: int| 0 <= u < it.index() ==> mine_keys@.contains(#[trigger] q[u]),
                {
                    proof {
                        assert(q[it.index() as int] == *c);
                        assert(q.contains(*c));
                        assert(cs.contains(*c));
                        assert(member(cs)(*c as int));
                    }
                    let ghost prev = mine_keys@;
                    mine_keys.push(*c);
                    proof {
                        assert(mine_keys@[mine_keys@.len() - 1] == *c);
                        assert forall|x: usize| #[trigger] prev.contains(x) implies mine_keys@.contains(x) by {
                            let i = choose|i: int| 0 <= i < prev.len() && prev[i] == x;
                            assert(mine_keys@[i] == x);
                        }
                        assert forall|x: usize| #[trigger] mine_keys@.contains(x) implies full_cells(kb_view(*kb)).contains(x) by {
                            if x == *c {
                                assert(sentence_views(kb.sentences@)[j as int].0.contains(x));
                            } else {
                                assert(prev.contains(x)) by {
                                    let i = choose|i: int| 0 <= i < mine_keys@.len() && mine_keys@[i] == x;
                                    assert(i < prev.len());
                                    assert(prev[i] == x);
                                }
                            }
                        }
                    }
                }
            } else if sentence.count == 0 {
                for c in it: sentence.cells.iter()
                    invariant
                        it.seq().unref() == q,
                        q.to_set() == cs,
                        g.wf(),
                        covered_set(g, cs),
                        g.consistent() ==> 0 == mines_in(g, cs),
                        forall|t: int|
                            0 <= t < safe_keys@.len() ==> (#[trigger] safe_keys@[t] as int)
                                < g.size() && covered(g, safe_keys@[t] as int) && (g.consistent()
                                ==> !g.cells@[safe_keys@[t] as int].mine),
                        forall|x: usize| #[trigger] sk0.contains(x) ==> safe_keys@.contains(x),
                        0 <= j < kb.sentences@.len(),
                        cs == kb.sentences@[j as int].cells@,
                        kb.sentences@[j as int].count == 0,
                        forall|c: usize| #[trigger] safe_keys@.contains(c) ==> empty_count_cells(kb_view(*kb)).contains(c),
                        forall|u: int| 0 <= u < it.index() ==> safe_keys@.contains(#[trigger] q[u]),
                {
                    proof {
                        assert(q[it.index() as int] == *c);
                        assert(q.contains(*c));
                        assert(cs.contains(*c));
                        if g.consistent() {
                            let p = |i: int| 0 <= i && cs.contains(i as usize) && g.cells@[i].mine;
                            lemma_count_bound(p, g.size());
                            let i = *c as int;
                            assert(i < g.size());
                            assert(!p(i));
                        }
                    }
                    let ghost prev = safe_keys@;
                    safe_keys.push(*c);
                    proof {
                        assert(safe_keys@[safe_keys@.len() - 1] == *c);
                        assert forall|x: usize| #[trigger] prev.contains(x) implies safe_keys@.contains(x) by {
                            let i = choose|i: int| 0 <= i < prev.len() && prev[i] == x;
                            assert(safe_keys@[i] == x);
                        }
                        assert forall|x: usize| #[trigger] safe_keys@.contains(x) implies empty_count_cells(kb_view(*kb)).contains(x) by {
                            if x == *c {
                                assert(sentence_views(kb.sentences@)[j as int].0.contains(x));
                            } else {
                                assert(prev.contains(x)) by {
                                    let i = choose|i: int| 0 <= i < safe_keys@.len() && safe_keys@[i] == x;
                                    assert(i < prev.len());
                                    assert(prev[i] == x);
                                }
                            }
                        }
                    }
                }
            }
        }
        proof {
            let cs = kb.sentences@[j as int].cells@;
            let q = spec_btree_keys_iter(&kb.sentences@[j as int].cells).remaining().unref();
            assert(q.to_set() == cs);
            assert forall|t: int, c: usize|
                #![trigger kb.sentences@[t].cells@.contains(c)]
                0 <= t < j + 1 && kb.sentences@[t].cells@.contains(c)
                    && kb.sentences@[t].count == kb.sentences@[t].cells@.len() implies mine_keys@.contains(c) by {
                if t < j {
                    assert(mk0.contains(c));
                } else {
                    assert(q.contains(c));
                }
            }
            assert forall|t: int, c: usize|
                #![trigger kb.sentences@[t].cells@.contains(c)]
                0 <= t < j + 1 && kb.sentences@[t].cells@.contains(c)
                    && kb.sentences@[t].count == 0 implies safe_keys@.contains(c) by {
                if t < j {
                    assert(sk0.contains(c));
                } else {
                    assert(q.contains(c));
                }
            }
        }
        j = j + 1;
    }
    (mine_keys, safe_keys)
}

/// Mines in the part of `s2` outside `s1`, for `s1` within `s2`.
proof fn lemma_mines_difference(g: Game, s1: Set<usize>, s2: Set<usize>)
    requires
        g.wf(),
        s1.subset_of(s2),
    ensures
        mines_in(g, s2.difference(s1)) == mines_in(g, s2) - mines_in(g, s1),
{
    let n = g.size();
    let p2 = |i: int| 0 <= i && s2.contains(i as usize) && g.cells@[i].mine;
    lemma_count_split(p2, member(s1), n);
    lemma_count_ext(
        |i: int| p2(i) && member(s1)(i),
        |i: int| 0 <= i && s1.contains(i as usize) && g.cells@[i].mine,
        n,
    );
    lemma_count_ext(
        |i: int| p2(i) && !member(s1)(i),
        |i: int| 0 <= i && s2.difference(s1).contains(i as usize) && g.cells@[i].mine,
        n,
    );
}

/// What the ordered pair `(s1, s2)` yields: when the cells of `s1` are a
/// non-empty proper subset of those of `s2`, the cells of `s2` outside `s1`
/// hold the difference of the counts, provided there are such cells and the
/// difference is not negative.
pub open spec fn pair_yield(s1: (Set<usize>, int), s2: (Set<usize>, int)) -> Option<(Set<usize>, int)> {
    let cells = s2.0.difference(s1.0);
    let count = s2.1 - s1.1;
    if !s1.0.is_empty() && s1.0.len() < s2.0.len() && s1.0.subset_of(s2.0) && !cells.is_empty()
        && count >= 0 {
        Option::Some((cells, count))
    } else {
        Option::None
    }
}

/// What sentence `a` yields with each other sentence below position `b`, in
/// order.
pub open spec fn row_yield(s: Seq<(Set<usize>, int)>, a: int, b: int) -> Seq<(Set<usize>, int)>
    decreases b,
{
    if b <= 0 {
        Seq::empty()
    } else {
        let prev = row_yield(s, a, b - 1);
        if a != b - 1 && pair_yield(s[a], s[b - 1]) is Some {
            prev.push(pair_yield(s[a], s[b - 1])->0)
        } else {
            prev
        }
    }
}

/// What the sentences below position `a` yield with every other sentence,
/// row by row.
pub open spec fn rows_yield(s: Seq<(Set<usize>, int)>, a: int) -> Seq<(Set<usize>, int)>
    decreases a,
{
    if a <= 0 {
        Seq::empty()
    } else {
        rows_yield(s, a - 1) + row_yield(s, a - 1, s.len() as int)
    }
}

/// Sentences as their sets of cells and counts.
spec fn sentence_views(s: Seq<Sentence>) -> Seq<(Set<usize>, int)> {
    s.map_values(|e: Sentence| (e.cells@, e.count as int))
}

/// A list of derived sentences as sets and counts.
spec fn derived_view(r: Seq<(BTreeSet<usize>, i32)>) -> Seq<(Set<usize>, int)> {
    r.map_values(|e: (BTreeSet<usize>, i32)| (e.0@, e.1 as int))
}

/// A yielding pair's sentence is in its row once the row passes it.
proof fn lemma_row_has(s: Seq<(Set<usize>, int)>, a: int, b: int, m: int)
    requires
        0 <= a < s.len(),
        0 <= b < m,
        a != b,
        pair_yield(s[a], s[b]) is Some,
    ensures
        row_yield(s, a, m).contains(pair_yield(s[a], s[b])->0),
    decreases m,
{
    let x = pair_yield(s[a], s[b])->0;
    if m == b + 1 {
        let r = row_yield(s, a, m);
        assert(r[r.len() - 1] == x);
    } else {
        lemma_row_has(s, a, b, m - 1);
        let p = row_yield(s, a, m - 1);
        let i = choose|i: int| 0 <= i < p.len() && p[i] == x;
        assert(row_yield(s, a, m)[i] == x);
    }
}

/// A yielding pair's sentence is among all yielded once the rows pass its
/// first sentence.
proof fn lemma_rows_has(s: Seq<(Set<usize>, int)>, a: int, b: int, m: int)
    requires
        0 <= a < m,
        a < s.len(),
        0 <= b < s.len(),
        a != b,
        pair_yield(s[a], s[b]) is Some,
    ensures
        rows_yield(s, m).contains(pair_yield(s[a], s[b])->0),
    decreases m,
{
    let x = pair_yield(s[a], s[b])->0;
    if m == a + 1 {
        lemma_row_has(s, a, b, s.len() as int);
        let r = row_yield(s, a, s.len() as int);
        let i = choose|i: int| 0 <= i < r.len() && r[i] == x;
        let q = rows_yield(s, a);
        assert(rows_yield(s, m)[q.len() + i] == x);
    } else {
        lemma_rows_has(s, a, b, m - 1);
        let p = rows_yield(s, m - 1);
        let i = choose|i: int| 0 <= i < p.len() && p[i] == x;
        assert(rows_yield(s, m)[i] == x);
    }
}

/// New sentences from pairs where one sentence's cells lie inside
/// another's: the extra cells hold the difference of the counts. Every
/// ordered pair of distinct sentences is tried, the first index outer.
fn derive_sentences(kb: &Knowledge, Ghost(g): Ghost<Game>) -> (r: Vec<(BTreeSet<usize>, i32)>)
    requires
        g.wf(),
        kb_inv(g, *kb),
    ensures
        derived_view(r@) == rows_yield(sentence_views(kb.sentences@), kb.sentences@.len() as int),
        forall|t: int|
            0 <= t < r@.len() ==> sentence_ok(g, (#[trigger] r@[t]).0@, r@[t].1 as int),
{
    let mut derived: Vec<(BTreeSet<usize>, i32)> = Vec::new();
    let len = kb.sentences.len();
    let ghost ss = sentence_views(kb.sentences@);
    let mut a: usize = 0;
    proof {
        assert(derived_view(derived@) =~= rows_yield(ss, 0));
    }
    while a < len
        invariant
            g.wf(),
            kb_inv(g, *kb),
            ss == sentence_views(kb.sentences@),
            len == kb.sentences@.len(),
            0 <= a <= len,
            derived_view(derived@) == rows_yield(ss, a as int),
            forall|t: int|
                0 <= t < derived@.len() ==> sentence_ok(
                    g,
                    (#[trigger] derived@[t]).0@,
                    derived@[t].1 as int,
                ),
        decreases len - a,
    {
        let mut b: usize = 0;
        proof {
            assert(rows_yield(ss, a as int) + row_yield(ss, a as int, 0) =~= rows_yield(ss, a as int));
        }
        while b < len
            invariant
                g.wf(),
                kb_inv(g, *kb),
                ss == sentence_views(kb.sentences@),
                len == kb.sentences@.len(),
                0 <= a < len,
                0 <= b <= len,
                derived_view(derived@) == rows_yield(ss, a as int) + row_yield(ss, a as int, b as int),
                forall|t: int|
                    0 <= t < derived@.len() ==> sentence_ok(
                        g,
                        (#[trigger] derived@[t]).0@,
                        derived@[t].1 as int,
                    ),
            decreases len - b,
        {
            let ghost before = derived@;
            if a != b {
                let s1 = &kb.sentences[a];
                let s2 = &kb.sentences[b];
                proof {
                    assert(sentence_ok(g, s1.cells@, s1.count as int));
                    assert(sentence_ok(g, s2.cells@, s2.count as int));
                }
                if is_proper_subset(&s1.cells, &s2.cells) {
                    let cells = set_difference(&s2.cells, &s1.cells);
                    let count = s2.count - s1.count;
                    if !cells.is_empty() && count >= 0 {
                        proof {
                            lemma_mines_difference(g, s1.cells@, s2.cells@);
                        }
                        derived.push((cells, count));
                    }
                }
            }
            proof {
                let rows = rows_yield(ss, a as int);
                let row = row_yield(ss, a as int, b as int);
                if derived@.len() > before.len() {
                    assert(derived@ == before.push(derived@.last()));
                    assert(derived_view(derived@) =~= derived_view(before).push(
                        (derived@.last().0@, derived@.last().1 as int),
                    ));
                    assert(rows + row.push(pair_yield(ss[a as int], ss[b as int])->0) =~= (rows
                        + row).push(pair_yield(ss[a as int], ss[b as int])->0));
                } else {
                    assert(derived@ == before);
                }
            }
            b = b + 1;
        }
        a = a + 1;
    }
    derived
}


/// On a consistent board a cell that a number clears is no mine.
pub proof fn lemma_cleared_safe(g: Game, s: int, k: int)
    requires
        g.consistent(),
        cleared_by(g, s, k),
    ensures
        !g.cells@[k].mine,
{
    let n = g.size();
    let adjm = |j: int| g.adjacent(s, j) && g.cells@[j].mine;
    let fl = flags_of(g);
    assert(g.cells@[s].adj as int == g.mines_around(s));
    lemma_count_ext(adjm, |j: int| g.adjacent(s, j) && g.cells@[j].mine, n);
    lemma_count_split(adjm, fl, n);
    assert forall|j: int| 0 <= j < n implies (adjm(j) && fl(j)) == (g.adjacent(s, j) && #[trigger] g.cells@[j].flagged) by {}
    lemma_count_ext(|j: int| adjm(j) && fl(j), |j: int| g.adjacent(s, j) && g.cells@[j].flagged, n);
    let rest = |j: int| adjm(j) && !fl(j);
    lemma_count_ext(|i: int| adjm(i) && !fl(i), rest, n);
    assert(g.cells@[s].adj <= flags_around(g, s));
    assert(count_below(rest, n) == 0);
    lemma_count_bound(rest, n);
    assert(!rest(k));
}

/// On a consistent board a cell that a number fills is a mine.
pub proof fn lemma_filled_mine(g: Game, s: int, k: int)
    requires
        g.consistent(),
        filled_by(g, s, k),
    ensures
        g.cells@[k].mine,
{
    let n = g.size();
    let adjm = |j: int| g.adjacent(s, j) && g.cells@[j].mine;
    let adjc = |j: int| g.adjacent(s, j) && covered(g, j);
    let fl = flags_of(g);
    assert(g.cells@[s].adj as int == g.mines_around(s));
    lemma_count_ext(adjm, |j: int| g.adjacent(s, j) && g.cells@[j].mine, n);
    lemma_count_ext(adjc, |j: int| g.adjacent(s, j) && covered(g, j), n);
    lemma_count_split(adjm, fl, n);
    assert forall|j: int| 0 <= j < n implies (adjm(j) && fl(j)) == (g.adjacent(s, j) && #[trigger] g.cells@[j].flagged) by {}
    lemma_count_ext(|j: int| adjm(j) && fl(j), |j: int| g.adjacent(s, j) && g.cells@[j].flagged, n);
    assert forall|j: int| 0 <= j < n && #[trigger] adjm(j) && !fl(j) implies adjc(j) by {
        assert(g.cells@[j].revealed ==> !g.cells@[j].mine);
    }
    lemma_count_mono(|j: int| adjm(j) && !fl(j), adjc, n);
    assert(adjc(k));
}

/// The covered neighbours of cell `s`.
pub open spec fn covered_set_of(g: Game, s: int) -> Set<usize> {
    Set::new(|c: usize| (c as int) < g.size() && g.adjacent(s, c as int) && covered(g, c as int))
}

/// `s1` and `s2` are revealed safe numbers, the covered neighbours of `s1`
/// (at least one) are all neighbours of `s2`, and `k` is a covered
/// neighbour of `s2` but not of `s1`.
pub open spec fn nested_numbers(g: Game, s1: int, s2: int, k: int) -> bool {
    &&& 0 <= s1 < g.size()
    &&& 0 <= s2 < g.size()
    &&& 0 <= k < g.size()
    &&& g.cells@[s1].revealed
    &&& !g.cells@[s1].mine
    &&& g.cells@[s2].revealed
    &&& !g.cells@[s2].mine
    &&& !covered_set_of(g, s1).is_empty()
    &&& covered_set_of(g, s1).subset_of(covered_set_of(g, s2))
    &&& covered_set_of(g, s2).contains(k as usize)
    &&& !covered_set_of(g, s1).contains(k as usize)
}

/// The subset difference clears `k`: `s2` misses as many mines as `s1`
/// (its number minus its flags), so its covered neighbours outside those
/// of `s1` are safe.
pub open spec fn cleared_by_pair(g: Game, s1: int, s2: int, k: int) -> bool {
    &&& nested_numbers(g, s1, s2, k)
    &&& g.cells@[s2].adj - flags_around(g, s2) == g.cells@[s1].adj - flags_around(g, s1)
}

/// The subset difference fills `k`: `s2` misses more mines than `s1` by as
/// many as it has covered neighbours outside those of `s1`, so they are all
/// mines.
pub open spec fn filled_by_pair(g: Game, s1: int, s2: int, k: int) -> bool {
    &&& nested_numbers(g, s1, s2, k)
    &&& (g.cells@[s2].adj - flags_around(g, s2)) - (g.cells@[s1].adj - flags_around(g, s1))
        == covered_around(g, s2) - covered_around(g, s1)
}

/// On a consistent board a number minus its flags counts the mines among
/// its covered neighbours, and its covered neighbours are `covered_around`.
proof fn lemma_number_mines(g: Game, s: int)
    requires
        g.consistent(),
        0 <= s < g.size(),
        g.cells@[s].revealed,
        !g.cells@[s].mine,
    ensures
        g.cells@[s].adj - flags_around(g, s) == mines_in(g, covered_set_of(g, s)),
        covered_around(g, s) == count_below(member(covered_set_of(g, s)), g.size()),
{
    lemma_size_bound(&g);
    let n = g.size();
    let u = covered_set_of(g, s);
    let adjm = |j: int| g.adjacent(s, j) && g.cells@[j].mine;
    let fl = flags_of(g);
    assert(g.cells@[s].adj as int == g.mines_around(s));
    lemma_count_ext(adjm, |j: int| g.adjacent(s, j) && g.cells@[j].mine, n);
    lemma_count_split(adjm, fl, n);
    assert forall|j: int| 0 <= j < n implies (adjm(j) && fl(j)) == (g.adjacent(s, j) && #[trigger] g.cells@[j].flagged) by {}
    lemma_count_ext(|j: int| adjm(j) && fl(j), |j: int| g.adjacent(s, j) && g.cells@[j].flagged, n);
    assert forall|j: int| 0 <= j < n implies (adjm(j) && !fl(j)) == (0 <= j && u.contains(j as usize) && #[trigger] g.cells@[j].mine) by {
        assert(g.cells@[j].revealed ==> !g.cells@[j].mine);
    }
    lemma_count_ext(
        |j: int| adjm(j) && !fl(j),
        |i: int| 0 <= i && u.contains(i as usize) && g.cells@[i].mine,
        n,
    );
    assert forall|j: int| 0 <= j < n implies #[trigger] member(u)(j) == (g.adjacent(s, j) && covered(g, j)) by {}
    lemma_count_ext(member(u), |j: int| g.adjacent(s, j) && covered(g, j), n);
}

/// On a consistent board the subset difference is right: cells it clears
/// hold no mines and cells it fills are mines, as do all the outer cells.
pub proof fn lemma_pair_sound(g: Game, s1: int, s2: int, k: int)
    requires
        g.consistent(),
        nested_numbers(g, s1, s2, k),
    ensures
        cleared_by_pair(g, s1, s2, k) ==> forall|d: usize|
            #[trigger] covered_set_of(g, s2).difference(covered_set_of(g, s1)).contains(d)
                ==> !g.cells@[d as int].mine,
        filled_by_pair(g, s1, s2, k) ==> forall|d: usize|
            #[trigger] covered_set_of(g, s2).difference(covered_set_of(g, s1)).contains(d)
                ==> g.cells@[d as int].mine,
{
    lemma_size_bound(&g);
    let n = g.size();
    let u1 = covered_set_of(g, s1);
    let u2 = covered_set_of(g, s2);
    let d = u2.difference(u1);
    lemma_number_mines(g, s1);
    lemma_number_mines(g, s2);
    lemma_mines_difference(g, u1, u2);
    let p = |i: int| 0 <= i && d.contains(i as usize) && g.cells@[i].mine;
    if cleared_by_pair(g, s1, s2, k) {
        lemma_count_bound(p, n);
        assert forall|c: usize| #[trigger] d.contains(c) implies !g.cells@[c as int].mine by {
            assert(!p(c as int));
        }
    }
    if filled_by_pair(g, s1, s2, k) {
        lemma_count_split(member(u2), member(u1), n);
        lemma_count_ext(|i: int| member(u2)(i) && member(u1)(i), member(u1), n);
        lemma_count_ext(|i: int| member(u2)(i) && !member(u1)(i), member(d), n);
        lemma_count_mono(p, member(d), n);
        assert forall|c: usize| #[trigger] d.contains(c) implies g.cells@[c as int].mine by {
            assert(member(d)(c as int));
        }
    }
}

/// The sentence `j` of `kb` has these cells and this count.
spec fn holds_sentence(kb: Knowledge, cells: Set<usize>, count: int) -> bool {
    exists|j: int|
        0 <= j < kb.sentences@.len() && (#[trigger] kb.sentences@[j]).cells@ == cells
            && kb.sentences@[j].count == count
}

/// The sentences of `a` and `b` have the same cells and counts.
spec fn same_sentences(a: Knowledge, b: Knowledge) -> bool {
    &&& a.sentences@.len() == b.sentences@.len()
    &&& forall|j: int|
        0 <= j < a.sentences@.len() ==> (#[trigger] a.sentences@[j]).cells@ == b.sentences@[j].cells@
            && a.sentences@[j].count == b.sentences@[j].count
}

/// Every cell that a subset difference clears or fills is tracked.
spec fn pairs_tracked(g: Game, kb: Knowledge) -> bool {
    &&& forall|s1: int, s2: int, k: int|
        #[trigger] cleared_by_pair(g, s1, s2, k) ==> safe_track(g, kb, k as usize)
    &&& forall|s1: int, s2: int, k: int|
        #[trigger] filled_by_pair(g, s1, s2, k) ==> mine_track(g, kb, k as usize)
}

/// Every cell that a subset difference clears or fills is pending.
spec fn pairs_pending(g: Game, kb: Knowledge) -> bool {
    &&& forall|s1: int, s2: int, k: int|
        #[trigger] cleared_by_pair(g, s1, s2, k) ==> safe_pending(kb, k as usize)
    &&& forall|s1: int, s2: int, k: int|
        #[trigger] filled_by_pair(g, s1, s2, k) ==> mine_pending(kb, k as usize)
}

/// Every cell that a subset difference clears or fills is known.
spec fn pairs_decided(g: Game, kb: Knowledge) -> bool {
    &&& forall|s1: int, s2: int, k: int|
        #[trigger] cleared_by_pair(g, s1, s2, k) ==> kb.mines@.contains(k as usize)
            || kb.safes@.contains(k as usize)
    &&& forall|s1: int, s2: int, k: int|
        #[trigger] filled_by_pair(g, s1, s2, k) ==> kb.mines@.contains(k as usize)
            || kb.safes@.contains(k as usize)
}

/// On a consistent board, a nested pair of true sentences yields its outer
/// cells with the mines among them.
proof fn lemma_pair_yields(g: Game, kb: Knowledge, j1: int, j2: int, c: usize)
    requires
        g.wf(),
        g.consistent(),
        kb_inv(g, kb),
        nested_pair(kb, j1, j2, c),
    ensures
        pair_yield(sentence_views(kb.sentences@)[j1], sentence_views(kb.sentences@)[j2]) == Option::Some(
            (outer_cells(kb, j1, j2), mines_in(g, outer_cells(kb, j1, j2)) as int),
        ),
{
    let s1 = kb.sentences@[j1];
    let s2 = kb.sentences@[j2];
    assert(sentence_ok(g, s1.cells@, s1.count as int));
    assert(sentence_ok(g, s2.cells@, s2.count as int));
    lemma_cells_facts(g, &kb.sentences@[j1].cells);
    lemma_cells_facts(g, &kb.sentences@[j2].cells);
    assert(s1.cells@.subset_of(s2.cells@.remove(c)));
    vstd::set_lib::lemma_len_subset(s1.cells@, s2.cells@.remove(c));
    let outer = outer_cells(kb, j1, j2);
    assert(outer.contains(c));
    assert(!outer.is_empty()) by {
        if outer.is_empty() {
            assert(Set::<usize>::empty().contains(c));
        }
    }
    lemma_mines_difference(g, s1.cells@, s2.cells@);
}

/// On a consistent board, a true sentence whose cells hold no mines has
/// count zero, and one whose cells are all mines has as many mines as cells.
proof fn lemma_sentence_pending(g: Game, kb: Knowledge, j: int, c: usize)
    requires
        g.wf(),
        g.consistent(),
        kb_inv(g, kb),
        0 <= j < kb.sentences@.len(),
        kb.sentences@[j].cells@.contains(c),
    ensures
        (forall|d: usize| #[trigger] kb.sentences@[j].cells@.contains(d) ==> !g.cells@[d as int].mine)
            ==> safe_pending(kb, c),
        (forall|d: usize| #[trigger] kb.sentences@[j].cells@.contains(d) ==> g.cells@[d as int].mine)
            ==> mine_pending(kb, c),
{
    lemma_size_bound(&g);
    let cs = kb.sentences@[j].cells@;
    assert(sentence_ok(g, cs, kb.sentences@[j].count as int));
    lemma_cells_facts(g, &kb.sentences@[j].cells);
    let p = |i: int| 0 <= i && cs.contains(i as usize) && g.cells@[i].mine;
    if forall|d: usize| #[trigger] cs.contains(d) ==> !g.cells@[d as int].mine {
        assert forall|i: int| 0 <= i < g.size() implies #[trigger] p(i) == false by {
            if p(i) {
                assert(cs.contains(i as usize));
            }
        }
        lemma_count_ext(p, |i: int| false, g.size());
        lemma_count_zero(g.size());
    }
    if forall|d: usize| #[trigger] cs.contains(d) ==> g.cells@[d as int].mine {
        assert forall|i: int| 0 <= i < g.size() implies #[trigger] p(i) == member(cs)(i) by {
            if member(cs)(i) {
                assert(cs.contains(i as usize));
            }
        }
        lemma_count_ext(p, member(cs), g.size());
    }
}

/// The number sentences of the board hold every nested pair of numbers, so
/// every cell a subset difference clears or fills is tracked.
proof fn lemma_pairs_start(g: Game, kb: Knowledge)
    requires
        g.wf(),
        g.consistent(),
        kb_inv(g, kb),
        forall|s2: int|
            0 <= s2 < g.size() && g.cells@[s2].revealed && !g.cells@[s2].mine && !(
            #[trigger] covered_set_of(g, s2)).is_empty() ==> exists|j: int|
                0 <= j < kb.sentences@.len() && (#[trigger] kb.sentences@[j]).cells@
                    == covered_set_of(g, s2),
    ensures
        pairs_tracked(g, kb),
{
    assert forall|s1: int, s2: int, k: int| #[trigger] cleared_by_pair(g, s1, s2, k) implies safe_track(g, kb, k as usize) by {
        lemma_pair_start(g, kb, s1, s2, k);
    }
    assert forall|s1: int, s2: int, k: int| #[trigger] filled_by_pair(g, s1, s2, k) implies mine_track(g, kb, k as usize) by {
        lemma_pair_start(g, kb, s1, s2, k);
    }
}

/// One nested pair of numbers, held by two sentences.
proof fn lemma_pair_start(g: Game, kb: Knowledge, s1: int, s2: int, k: int)
    requires
        g.wf(),
        g.consistent(),
        kb_inv(g, kb),
        nested_numbers(g, s1, s2, k),
        forall|s: int|
            0 <= s < g.size() && g.cells@[s].revealed && !g.cells@[s].mine && !(
            #[trigger] covered_set_of(g, s)).is_empty() ==> exists|j: int|
                0 <= j < kb.sentences@.len() && (#[trigger] kb.sentences@[j]).cells@
                    == covered_set_of(g, s),
    ensures
        cleared_by_pair(g, s1, s2, k) ==> safe_track(g, kb, k as usize),
        filled_by_pair(g, s1, s2, k) ==> mine_track(g, kb, k as usize),
{
    let u1 = covered_set_of(g, s1);
    let u2 = covered_set_of(g, s2);
    assert(!u2.is_empty()) by {
        if u2.is_empty() {
            assert(Set::<usize>::empty().contains(k as usize));
        }
    }
    let j1 = choose|j: int| 0 <= j < kb.sentences@.len() && (#[trigger] kb.sentences@[j]).cells@ == u1;
    let j2 = choose|j: int| 0 <= j < kb.sentences@.len() && (#[trigger] kb.sentences@[j]).cells@ == u2;
    assert(j1 != j2);
    assert(nested_pair(kb, j1, j2, k as usize));
    lemma_pair_sound(g, s1, s2, k);
    assert(outer_cells(kb, j1, j2) == u2.difference(u1));
}

/// A mark that changed no sentence leaves the sentences' cells and counts
/// as they were.
proof fn lemma_quiet_mark(prev: Knowledge, kb: Knowledge, key: usize)
    requires
        kb.sentences@.len() == prev.sentences@.len(),
        prev.safes@.contains(key) || prev.mines@.contains(key) ==> kb.sentences@ == prev.sentences@,
        !prev.safes@.contains(key) && !prev.mines@.contains(key) ==> !exists|j: int|
            0 <= j < prev.sentences@.len() && (#[trigger] prev.sentences@[j]).cells@.contains(key),
        !prev.safes@.contains(key) && !prev.mines@.contains(key) ==> forall|j: int|
            0 <= j < prev.sentences@.len() ==> (#[trigger] kb.sentences@[j]).cells@
                == prev.sentences@[j].cells@.remove(key) && (!prev.sentences@[j].cells@.contains(key)
                ==> kb.sentences@[j].count == prev.sentences@[j].count),
    ensures
        same_sentences(kb, prev),
{
    if !prev.safes@.contains(key) && !prev.mines@.contains(key) {
        assert forall|j: int| 0 <= j < kb.sentences@.len() implies (#[trigger] kb.sentences@[j]).cells@
            == prev.sentences@[j].cells@ && kb.sentences@[j].count == prev.sentences@[j].count by {
            assert(!prev.sentences@[j].cells@.contains(key));
            assert(prev.sentences@[j].cells@.remove(key) =~= prev.sentences@[j].cells@);
        }
    }
}

/// Adding a sentence keeps every sentence held, and holds the new one.
proof fn lemma_add_holds(prev: Knowledge, kb: Knowledge, added: bool, cells: Set<usize>, count: i32)
    requires
        added == (!cells.is_empty() && !exists|j: int|
            0 <= j < prev.sentences@.len() && (#[trigger] prev.sentences@[j]).cells@ == cells
                && prev.sentences@[j].count == (if count > 0 {
                count
            } else {
                0
            })),
        added ==> kb.sentences@.len() == prev.sentences@.len() + 1,
        added ==> kb.sentences@.last().cells@ == cells,
        added ==> kb.sentences@.last().count == (if count > 0 { count } else { 0 }),
        added ==> forall|j: int|
            0 <= j < prev.sentences@.len() ==> kb.sentences@[j] == prev.sentences@[j],
        !added ==> kb.sentences@ == prev.sentences@,
        count >= 0,
    ensures
        !cells.is_empty() ==> holds_sentence(kb, cells, count as int),
        forall|cs: Set<usize>, ct: int| holds_sentence(prev, cs, ct) ==> #[trigger] holds_sentence(kb, cs, ct),
{
    if added {
        assert(kb.sentences@[kb.sentences@.len() - 1].cells@ == cells);
        assert forall|cs: Set<usize>, ct: int| holds_sentence(prev, cs, ct) implies #[trigger] holds_sentence(kb, cs, ct) by {
            let j = choose|j: int|
                0 <= j < prev.sentences@.len() && (#[trigger] prev.sentences@[j]).cells@ == cs
                    && prev.sentences@[j].count == ct;
            assert(kb.sentences@[j] == prev.sentences@[j]);
        }
    }
}

/// After the derived sentences are added, every tracked cell of a subset
/// difference is pending: the nested pair yielded its outer cells.
proof fn lemma_pairs_derived(g: Game, kb2: Knowledge, kb: Knowledge, derived: Seq<(BTreeSet<usize>, i32)>)
    requires
        g.wf(),
        g.consistent(),
        kb_inv(g, kb2),
        kb_inv(g, kb),
        pairs_tracked(g, kb2),
        derived_view(derived) == rows_yield(sentence_views(kb2.sentences@), kb2.sentences@.len() as int),
        forall|u: int|
            0 <= u < derived.len() && !(#[trigger] derived[u]).0@.is_empty() ==> holds_sentence(
                kb,
                derived[u].0@,
                derived[u].1 as int,
            ),
        forall|k: usize| safe_pending(kb2, k) ==> #[trigger] safe_pending(kb, k),
        forall|k: usize| mine_pending(kb2, k) ==> #[trigger] mine_pending(kb, k),
    ensures
        pairs_pending(g, kb),
{
    assert forall|s1: int, s2: int, k: int| #[trigger] cleared_by_pair(g, s1, s2, k) implies safe_pending(kb, k as usize) by {
        let c = k as usize;
        assert(safe_track(g, kb2, c));
        if !safe_pending(kb2, c) {
            let (j1, j2) = choose|j1: int, j2: int|
                #[trigger] nested_pair(kb2, j1, j2, c) && forall|d: usize|
                    #[trigger] outer_cells(kb2, j1, j2).contains(d) ==> !g.cells@[d as int].mine;
            let j = lemma_yield_held(g, kb2, kb, derived, j1, j2, c);
            lemma_sentence_pending(g, kb, j, c);
        }
    }
    assert forall|s1: int, s2: int, k: int| #[trigger] filled_by_pair(g, s1, s2, k) implies mine_pending(kb, k as usize) by {
        let c = k as usize;
        assert(mine_track(g, kb2, c));
        if !mine_pending(kb2, c) {
            let (j1, j2) = choose|j1: int, j2: int|
                #[trigger] nested_pair(kb2, j1, j2, c) && forall|d: usize|
                    #[trigger] outer_cells(kb2, j1, j2).contains(d) ==> g.cells@[d as int].mine;
            let j = lemma_yield_held(g, kb2, kb, derived, j1, j2, c);
            lemma_sentence_pending(g, kb, j, c);
        }
    }
}

/// The outer cells of a nested pair end up as a sentence of `kb`.
proof fn lemma_yield_held(
    g: Game,
    kb2: Knowledge,
    kb: Knowledge,
    derived: Seq<(BTreeSet<usize>, i32)>,
    j1: int,
    j2: int,
    c: usize,
) -> (j: int)
    requires
        g.wf(),
        g.consistent(),
        kb_inv(g, kb2),
        nested_pair(kb2, j1, j2, c),
        derived_view(derived) == rows_yield(sentence_views(kb2.sentences@), kb2.sentences@.len() as int),
        forall|u: int|
            0 <= u < derived.len() && !(#[trigger] derived[u]).0@.is_empty() ==> holds_sentence(
                kb,
                derived[u].0@,
                derived[u].1 as int,
            ),
    ensures
        0 <= j < kb.sentences@.len(),
        kb.sentences@[j].cells@ == outer_cells(kb2, j1, j2),
{
    lemma_pair_yields(g, kb2, j1, j2, c);
    let ss = sentence_views(kb2.sentences@);
    let x = pair_yield(ss[j1], ss[j2])->0;
    lemma_rows_has(ss, j1, j2, ss.len() as int);
    let r = rows_yield(ss, ss.len() as int);
    let u = choose|u: int| 0 <= u < r.len() && r[u] == x;
    assert(derived_view(derived)[u] == x);
    assert(derived[u].0@ == x.0);
    let outer = outer_cells(kb2, j1, j2);
    assert(outer.contains(c));
    assert(!outer.is_empty()) by {
        if outer.is_empty() {
            assert(Set::<usize>::empty().contains(c));
        }
    }
    assert(holds_sentence(kb, derived[u].0@, derived[u].1 as int));
    let j = choose|j: int|
        0 <= j < kb.sentences@.len() && (#[trigger] kb.sentences@[j]).cells@ == derived[u].0@
            && kb.sentences@[j].count == derived[u].1 as int;
    j
}

/// In a round that changed nothing, the pending cells of a subset
/// difference were pending when the keys were collected, so they are known.
proof fn lemma_pairs_quiet(g: Game, kb1: Knowledge, kb: Knowledge)
    requires
        g.consistent(),
        same_sentences(kb, kb1),
        pairs_pending(g, kb),
        forall|c: usize| #[trigger] safe_pending(kb1, c) ==> kb.mines@.contains(c) || kb.safes@.contains(c),
        forall|c: usize| #[trigger] mine_pending(kb1, c) ==> kb.mines@.contains(c) || kb.safes@.contains(c),
    ensures
        pairs_decided(g, kb),
{
    assert forall|s1: int, s2: int, k: int| #[trigger] cleared_by_pair(g, s1, s2, k) implies kb.mines@.contains(
        k as usize,
    ) || kb.safes@.contains(k as usize) by {
        let c = k as usize;
        assert(safe_pending(kb, c));
        if !kb.mines@.contains(c) && !kb.safes@.contains(c) {
            let j0 = choose|j0: int|
                0 <= j0 < kb.sentences@.len() && (#[trigger] kb.sentences@[j0]).cells@.contains(c)
                    && kb.sentences@[j0].count == 0;
            assert(kb1.sentences@[j0].cells@.contains(c));
            assert(safe_pending(kb1, c));
        }
    }
    assert forall|s1: int, s2: int, k: int| #[trigger] filled_by_pair(g, s1, s2, k) implies kb.mines@.contains(
        k as usize,
    ) || kb.safes@.contains(k as usize) by {
        let c = k as usize;
        assert(mine_pending(kb, c));
        if !kb.mines@.contains(c) {
            let j0 = choose|j0: int|
                0 <= j0 < kb.sentences@.len() && (#[trigger] kb.sentences@[j0]).cells@.contains(c)
                    && kb.sentences@[j0].count == kb.sentences@[j0].cells@.len();
            assert(kb1.sentences@[j0].cells@.contains(c));
            assert(mine_pending(kb1, c));
        }
    }
}

/// What the solver knows: cells known to be mines, cells known to be safe,
/// and its sentences as sets of cells with a mine count.
#[verifier::ext_equal]
pub struct Deductions {
    pub mines: Set<usize>,
    pub safes: Set<usize>,
    pub sentences: Seq<(Set<usize>, int)>,
}

/// A knowledge base as deductions.
spec fn kb_view(kb: Knowledge) -> Deductions {
    Deductions { mines: kb.mines@, safes: kb.safes@, sentences: sentence_views(kb.sentences@) }
}

/// `c`, or zero when it is negative.
pub open spec fn at_least_zero(c: int) -> int {
    if c > 0 {
        c
    } else {
        0
    }
}

/// Whether the sentence `(cells, count)`, with its count taken as at least
/// zero, is new: its cells are not empty and it is not yet among them.
pub open spec fn adds_sentence(d: Deductions, cells: Set<usize>, count: int) -> bool {
    !cells.is_empty() && !d.sentences.contains((cells, at_least_zero(count)))
}

/// `d` with the sentence `(cells, count)` added when it is new.
pub open spec fn with_sentence(d: Deductions, cells: Set<usize>, count: int) -> Deductions {
    if adds_sentence(d, cells, count) {
        Deductions { sentences: d.sentences.push((cells, at_least_zero(count))), ..d }
    } else {
        d
    }
}

/// Revealed cells are safe, flagged covered cells are mines, no sentences.
pub open spec fn first_deductions(g: Game) -> Deductions {
    Deductions {
        mines: Set::new(|k: usize| (k as int) < g.size() && g.cells@[k as int].flagged && !g.cells@[k as int].revealed),
        safes: Set::new(|k: usize| (k as int) < g.size() && g.cells@[k as int].revealed),
        sentences: Seq::empty(),
    }
}

/// The first deductions with the sentence of each revealed safe number
/// below `s` added in turn: its covered neighbours hold its number minus its
/// flagged neighbours.
pub open spec fn number_sentences(g: Game, s: int) -> Deductions
    decreases s,
{
    if s <= 0 {
        first_deductions(g)
    } else {
        let d = number_sentences(g, s - 1);
        if g.cells@[s - 1].revealed && !g.cells@[s - 1].mine {
            with_sentence(d, covered_set_of(g, s - 1), g.cells@[s - 1].adj - flags_around(g, s - 1))
        } else {
            d
        }
    }
}

/// The covered cells of the board.
pub open spec fn covered_cells_set(g: Game) -> Set<usize> {
    Set::new(|k: usize| (k as int) < g.size() && covered(g, k as int))
}

/// The remaining-mine count before the rounds: with no unflagged mines every
/// covered cell is safe; with as many as covered cells, all are mines.
pub open spec fn counted_start(g: Game, d: Deductions) -> Deductions {
    if unflagged_mines(g) == 0 {
        Deductions { safes: d.safes + covered_cells_set(g), ..d }
    } else if unflagged_mines(g) > 0 && unflagged_mines(g) == count_below(covered_cells(g), g.size()) {
        Deductions { mines: d.mines + covered_cells_set(g), ..d }
    } else {
        d
    }
}

/// Covered cells that are neither known mines nor known safes.
pub open spec fn unknown_cells(g: Game, d: Deductions) -> Set<usize> {
    Set::new(|c: usize| (c as int) < g.size() && still_unknown(g, d.mines, d.safes)(c as int))
}

/// Mines not yet flagged nor known, at least zero.
pub open spec fn mines_left(g: Game, d: Deductions) -> int {
    at_least_zero(unflagged_mines(g) - count_below(inferred_mines(g, d.mines), g.size()))
}

/// Some sentence holds a cell of `u`.
pub open spec fn touches(d: Deductions, u: Set<usize>) -> bool {
    exists|j: int, c: usize| 0 <= j < d.sentences.len() && #[trigger] d.sentences[j].0.contains(c) && u.contains(c)
}

/// The sentences with the cells of `u` taken out as safes.
pub open spec fn without_safes(d: Deductions, u: Set<usize>) -> Seq<(Set<usize>, int)> {
    d.sentences.map_values(|e: (Set<usize>, int)| (e.0.difference(u), e.1))
}

/// The sentences with the cells of `u` taken out as mines: each count drops
/// by the cells it lost, but not below zero.
pub open spec fn without_mines(d: Deductions, u: Set<usize>) -> Seq<(Set<usize>, int)> {
    d.sentences.map_values(
        |e: (Set<usize>, int)| (e.0.difference(u), at_least_zero(e.1 - (e.0.len() - e.0.difference(u).len()))),
    )
}

/// The remaining-mine rule in a round, and whether it changed a sentence.
pub open spec fn by_count(g: Game, d: Deductions) -> (Deductions, bool) {
    let u = unknown_cells(g, d);
    let ulen = count_below(still_unknown(g, d.mines, d.safes), g.size());
    let left = mines_left(g, d);
    if left == 0 && ulen > 0 {
        (Deductions { safes: d.safes + u, sentences: without_safes(d, u), ..d }, touches(d, u))
    } else if left > 0 && left == ulen {
        (Deductions { mines: d.mines + u, sentences: without_mines(d, u), ..d }, touches(d, u))
    } else {
        (d, false)
    }
}

/// Cells of a sentence with as many mines as cells.
pub open spec fn full_cells(d: Deductions) -> Set<usize> {
    Set::new(|c: usize| exists|j: int| 0 <= j < d.sentences.len() && #[trigger] d.sentences[j].0.contains(c)
        && d.sentences[j].1 == d.sentences[j].0.len())
}

/// Cells of a sentence with no mines.
pub open spec fn empty_count_cells(d: Deductions) -> Set<usize> {
    Set::new(|c: usize| exists|j: int| 0 <= j < d.sentences.len() && #[trigger] d.sentences[j].0.contains(c)
        && d.sentences[j].1 == 0)
}

/// The sentence rules in a round: the cells of full sentences not yet known
/// become mines, then those of sentences with no mines not yet known become
/// safes; and whether a sentence changed.
pub open spec fn by_keys(d: Deductions) -> (Deductions, bool) {
    let rm = full_cells(d).difference(d.mines + d.safes);
    let d1 = Deductions { mines: d.mines + rm, sentences: without_mines(d, rm), ..d };
    let rs = empty_count_cells(d).difference(d1.mines + d1.safes);
    let d2 = Deductions { safes: d1.safes + rs, sentences: without_safes(d1, rs), ..d1 };
    (d2, touches(d, rm) || touches(d1, rs))
}

/// `d` with the sentences `ds` added in turn, and whether one was new.
pub open spec fn with_all(d: Deductions, ds: Seq<(Set<usize>, int)>) -> (Deductions, bool)
    decreases ds.len(),
{
    if ds.len() == 0 {
        (d, false)
    } else {
        let prev = with_all(d, ds.drop_last());
        (
            with_sentence(prev.0, ds.last().0, ds.last().1),
            prev.1 || adds_sentence(prev.0, ds.last().0, ds.last().1),
        )
    }
}

/// One round of the solver: the remaining-mine rule, the sentence rules,
/// then the subset differences of every ordered pair of sentences; and
/// whether anything changed a sentence or added one.
pub open spec fn solver_round(g: Game, d: Deductions) -> (Deductions, bool) {
    let r1 = by_count(g, d);
    let r2 = by_keys(r1.0);
    let r3 = with_all(r2.0, rows_yield(r2.0.sentences, r2.0.sentences.len() as int));
    (r3.0, r1.1 || r2.1 || r3.1)
}

/// Rounds from round `r` on: until a round changes nothing, at most up to
/// round 400.
pub open spec fn rounds_from(g: Game, d: Deductions, r: int) -> Deductions
    decreases 400 - r,
{
    if r >= 400 {
        d
    } else {
        let next = solver_round(g, d);
        if !next.1 {
            next.0
        } else {
            rounds_from(g, next.0, r + 1)
        }
    }
}

/// What the solver deduces on `g`: the number sentences, the remaining-mine
/// count, then the rounds.
pub open spec fn infer_rounds(g: Game) -> Deductions {
    rounds_from(g, counted_start(g, number_sentences(g, g.size())), 0)
}

/// Adding a sentence, as deductions.
proof fn lemma_add_view(before: Knowledge, after: Knowledge, added: bool, cells: Set<usize>, count: i32)
    requires
        after.mines@ == before.mines@,
        after.safes@ == before.safes@,
        added == (!cells.is_empty() && !exists|j: int|
            0 <= j < before.sentences@.len() && (#[trigger] before.sentences@[j]).cells@ == cells
                && before.sentences@[j].count == (if count > 0 {
                count
            } else {
                0
            })),
        added ==> after.sentences@.len() == before.sentences@.len() + 1,
        added ==> after.sentences@.last().cells@ == cells,
        added ==> after.sentences@.last().count == (if count > 0 { count } else { 0 }),
        added ==> forall|j: int|
            0 <= j < before.sentences@.len() ==> after.sentences@[j] == before.sentences@[j],
        !added ==> after.sentences@ == before.sentences@,
    ensures
        kb_view(after) == with_sentence(kb_view(before), cells, count as int),
        added == adds_sentence(kb_view(before), cells, count as int),
{
    let vb = sentence_views(before.sentences@);
    let x = (cells, at_least_zero(count as int));
    if vb.contains(x) {
        let j = choose|j: int| 0 <= j < vb.len() && vb[j] == x;
        assert(before.sentences@[j].cells@ == cells);
    }
    if exists|j: int|
        0 <= j < before.sentences@.len() && (#[trigger] before.sentences@[j]).cells@ == cells
            && before.sentences@[j].count == (if count > 0 {
            count
        } else {
            0
        }) {
        let j = choose|j: int|
            0 <= j < before.sentences@.len() && (#[trigger] before.sentences@[j]).cells@ == cells
                && before.sentences@[j].count == (if count > 0 {
                count
            } else {
                0
            });
        assert(vb[j] == x);
    }
    if added {
        assert(sentence_views(after.sentences@) =~= vb.push(x));
    }
    assert(kb_view(after) =~= with_sentence(kb_view(before), cells, count as int));
}

/// The keys among the first `t` of `keys` that were not known at `start`.
spec fn marked_set(start: Knowledge, keys: Seq<usize>, t: int) -> Set<usize> {
    Set::new(|c: usize| keys.take(t).contains(c) && !start.mines@.contains(c) && !start.safes@.contains(c))
}

/// After marking the first `t` keys from `start`: the new keys joined the
/// mines (or the safes) and left every sentence, and with mines each count
/// dropped by the cells it lost, not below zero.
spec fn keys_marked(start: Knowledge, kb: Knowledge, keys: Seq<usize>, t: int, as_mine: bool) -> bool {
    let m = marked_set(start, keys, t);
    &&& kb.sentences@.len() == start.sentences@.len()
    &&& if as_mine {
        kb.mines@ == start.mines@ + m && kb.safes@ == start.safes@
    } else {
        kb.safes@ == start.safes@ + m && kb.mines@ == start.mines@
    }
    &&& forall|j: int|
        0 <= j < kb.sentences@.len() ==> (#[trigger] kb.sentences@[j]).cells@
            == start.sentences@[j].cells@.difference(m)
    &&& forall|j: int|
        0 <= j < kb.sentences@.len() ==> (#[trigger] kb.sentences@[j]).count as int == if as_mine {
            at_least_zero(
                start.sentences@[j].count - (start.sentences@[j].cells@.len()
                    - kb.sentences@[j].cells@.len()),
            )
        } else {
            start.sentences@[j].count as int
        }
}

/// One mark of the sentence rules keeps `keys_marked`, and it changes a
/// sentence exactly when a sentence held a key not known at `start`.
proof fn lemma_key_step(
    g: Game,
    start: Knowledge,
    prev: Knowledge,
    next: Knowledge,
    keys: Seq<usize>,
    t: int,
    as_mine: bool,
    marked: bool,
)
    requires
        g.wf(),
        kb_inv(g, start),
        kb_inv(g, prev),
        0 <= t < keys.len(),
        keys_marked(start, prev, keys, t, as_mine),
        ({
            let key = keys[t];
            let known = prev.safes@.contains(key) || prev.mines@.contains(key);
            &&& known ==> next.sentences@ == prev.sentences@ && next.mines@ == prev.mines@
                && next.safes@ == prev.safes@ && !marked
            &&& !known ==> (marked <==> exists|j: int|
                0 <= j < prev.sentences@.len() && (#[trigger] prev.sentences@[j]).cells@.contains(key))
            &&& !known ==> next.sentences@.len() == prev.sentences@.len()
            &&& !known ==> forall|j: int|
                0 <= j < prev.sentences@.len() ==> (#[trigger] next.sentences@[j]).cells@
                    == prev.sentences@[j].cells@.remove(key) && next.sentences@[j].count == (
                if as_mine && prev.sentences@[j].cells@.contains(key) {
                    if prev.sentences@[j].count - 1 > 0 {
                        prev.sentences@[j].count - 1
                    } else {
                        0
                    }
                } else {
                    prev.sentences@[j].count as int
                })
            &&& !known ==> if as_mine {
                next.mines@ == prev.mines@.insert(key) && next.safes@ == prev.safes@
            } else {
                next.safes@ == prev.safes@.insert(key) && next.mines@ == prev.mines@
            }
        }),
    ensures
        keys_marked(start, next, keys, t + 1, as_mine),
        touches(kb_view(start), marked_set(start, keys, t + 1)) == (touches(
            kb_view(start),
            marked_set(start, keys, t),
        ) || marked),
{
    let key = keys[t];
    let m0 = marked_set(start, keys, t);
    let m1 = marked_set(start, keys, t + 1);
    assert(keys.take(t + 1) =~= keys.take(t).push(key));
    assert forall|c: usize| #[trigger] keys.take(t + 1).contains(c) <==> (keys.take(t).contains(c) || c == key) by {
        let w = keys.take(t + 1);
        let w0 = keys.take(t);
        if w.contains(c) {
            let v = choose|v: int| 0 <= v < t + 1 && w[v] == c;
            if v < t {
                assert(w0[v] == c);
            }
        }
        if w0.contains(c) {
            let v = choose|v: int| 0 <= v < t && w0[v] == c;
            assert(w[v] == c);
        }
        if c == key {
            assert(w[t] == c);
        }
    }
    let fresh = !start.mines@.contains(key) && !start.safes@.contains(key) && !keys.take(t).contains(key);
    let known = prev.safes@.contains(key) || prev.mines@.contains(key);
    assert(known == !fresh);
    if !fresh {
        assert(m1 =~= m0);
    } else {
        assert(m1 =~= m0.insert(key));
        assert forall|j: int| 0 <= j < next.sentences@.len() implies (#[trigger] next.sentences@[j]).cells@
            == start.sentences@[j].cells@.difference(m1) by {
            assert(next.sentences@[j].cells@ =~= start.sentences@[j].cells@.difference(m1));
        }
        if as_mine {
            assert(next.mines@ =~= start.mines@ + m1);
            assert forall|j: int| 0 <= j < next.sentences@.len() implies (#[trigger] next.sentences@[j]).count as int
                == at_least_zero(
                start.sentences@[j].count - (start.sentences@[j].cells@.len()
                    - next.sentences@[j].cells@.len()),
            ) by {
                assert(sentence_ok(g, prev.sentences@[j].cells@, prev.sentences@[j].count as int));
                lemma_cells_facts(g, &prev.sentences@[j].cells);
                if !prev.sentences@[j].cells@.contains(key) {
                    assert(next.sentences@[j].cells@ =~= prev.sentences@[j].cells@);
                }
            }
        } else {
            assert(next.safes@ =~= start.safes@ + m1);
        }
        let d = kb_view(start);
        if marked {
            let j = choose|j: int|
                0 <= j < prev.sentences@.len() && (#[trigger] prev.sentences@[j]).cells@.contains(key);
            assert(d.sentences[j].0.contains(key));
        }
        if touches(d, m1) && !touches(d, m0) {
            let (j, c) = choose|j: int, c: usize| 0 <= j < d.sentences.len() && #[trigger] d.sentences[j].0.contains(c) && m1.contains(c);
            assert(c == key);
            assert(prev.sentences@[j].cells@.contains(key));
        }
        if touches(d, m0) {
            let (j, c) = choose|j: int, c: usize| 0 <= j < d.sentences.len() && #[trigger] d.sentences[j].0.contains(c) && m0.contains(c);
            assert(m1.contains(c));
        }
    }
}

/// Before any key is marked nothing has changed.
proof fn lemma_keys_start(g: Game, kb: Knowledge, keys: Seq<usize>, as_mine: bool)
    requires
        kb_inv(g, kb),
    ensures
        keys_marked(kb, kb, keys, 0, as_mine),
        !touches(kb_view(kb), marked_set(kb, keys, 0)),
{
    let m = marked_set(kb, keys, 0);
    assert(m =~= Set::<usize>::empty());
    assert(kb.mines@ + m =~= kb.mines@);
    assert(kb.safes@ + m =~= kb.safes@);
    assert forall|j: int| 0 <= j < kb.sentences@.len() implies (#[trigger] kb.sentences@[j]).cells@
        == kb.sentences@[j].cells@.difference(m) by {
        assert(kb.sentences@[j].cells@ =~= kb.sentences@[j].cells@.difference(m));
    }
    assert forall|j: int| 0 <= j < kb.sentences@.len() implies (#[trigger] kb.sentences@[j]).count >= 0 by {
        assert(sentence_ok(g, kb.sentences@[j].cells@, kb.sentences@[j].count as int));
    }
}

/// Marking the keys collected from `kb1`, mines then safes, is `by_keys`.
proof fn lemma_keys_view(
    g: Game,
    kb1: Knowledge,
    kbm: Knowledge,
    kb: Knowledge,
    mk: Seq<usize>,
    sk: Seq<usize>,
)
    requires
        forall|j: int, c: usize|
            #![trigger kb1.sentences@[j].cells@.contains(c)]
            0 <= j < kb1.sentences@.len() && kb1.sentences@[j].cells@.contains(c)
                && kb1.sentences@[j].count == kb1.sentences@[j].cells@.len() ==> mk.contains(c),
        forall|j: int, c: usize|
            #![trigger kb1.sentences@[j].cells@.contains(c)]
            0 <= j < kb1.sentences@.len() && kb1.sentences@[j].cells@.contains(c)
                && kb1.sentences@[j].count == 0 ==> sk.contains(c),
        forall|c: usize| #[trigger] mk.contains(c) ==> full_cells(kb_view(kb1)).contains(c),
        forall|c: usize| #[trigger] sk.contains(c) ==> empty_count_cells(kb_view(kb1)).contains(c),
        keys_marked(kb1, kbm, mk, mk.len() as int, true),
        keys_marked(kbm, kb, sk, sk.len() as int, false),
    ensures
        kb_view(kbm) == (Deductions {
            mines: kb_view(kb1).mines + marked_set(kb1, mk, mk.len() as int),
            sentences: without_mines(kb_view(kb1), marked_set(kb1, mk, mk.len() as int)),
            ..kb_view(kb1)
        }),
        marked_set(kb1, mk, mk.len() as int) == full_cells(kb_view(kb1)).difference(
            kb_view(kb1).mines + kb_view(kb1).safes,
        ),
        marked_set(kbm, sk, sk.len() as int) == empty_count_cells(kb_view(kb1)).difference(
            kb_view(kbm).mines + kb_view(kbm).safes,
        ),
        kb_view(kb) == by_keys(kb_view(kb1)).0,
{
    let d = kb_view(kb1);
    let rm = full_cells(d).difference(d.mines + d.safes);
    assert(mk.take(mk.len() as int) =~= mk);
    assert(sk.take(sk.len() as int) =~= sk);
    assert forall|c: usize| #[trigger] marked_set(kb1, mk, mk.len() as int).contains(c) <==> rm.contains(c) by {
        if full_cells(d).contains(c) {
            let j = choose|j: int| 0 <= j < d.sentences.len() && #[trigger] d.sentences[j].0.contains(c)
                && d.sentences[j].1 == d.sentences[j].0.len();
            assert(kb1.sentences@[j].cells@.contains(c));
        }
    }
    assert(marked_set(kb1, mk, mk.len() as int) =~= rm);
    let d1 = Deductions { mines: d.mines + rm, sentences: without_mines(d, rm), ..d };
    assert(kb_view(kbm).sentences =~= d1.sentences);
    assert(kb_view(kbm) =~= d1);
    let rs = empty_count_cells(d).difference(d1.mines + d1.safes);
    assert forall|c: usize| #[trigger] marked_set(kbm, sk, sk.len() as int).contains(c) <==> rs.contains(c) by {
        if empty_count_cells(d).contains(c) {
            let j = choose|j: int| 0 <= j < d.sentences.len() && #[trigger] d.sentences[j].0.contains(c)
                && d.sentences[j].1 == 0;
            assert(kb1.sentences@[j].cells@.contains(c));
        }
    }
    assert(marked_set(kbm, sk, sk.len() as int) =~= rs);
    let d2 = Deductions { safes: d1.safes + rs, sentences: without_safes(d1, rs), ..d1 };
    assert(kb_view(kb).sentences =~= d2.sentences);
    assert(kb_view(kb) =~= d2);
}

/// The steps of a round compose to `solver_round`.
proof fn lemma_round_view(
    g: Game,
    d0: Deductions,
    d2: Deductions,
    dv: Seq<(Set<usize>, int)>,
    dend: Deductions,
    c1: bool,
    c2: bool,
    changed: bool,
)
    requires
        c1 == by_count(g, d0).1,
        d2 == by_keys(by_count(g, d0).0).0,
        c2 == by_keys(by_count(g, d0).0).1,
        dv == rows_yield(d2.sentences, d2.sentences.len() as int),
        dend == with_all(d2, dv.take(dv.len() as int)).0,
        changed == ((c1 || c2) || with_all(d2, dv.take(dv.len() as int)).1),
    ensures
        solver_round(g, d0) == (dend, changed),
{
    assert(dv.take(dv.len() as int) =~= dv);
}

/// What the solver knows before its rounds: revealed cells are safe, flagged
/// covered cells are mines, and the remaining-mine count settled the covered
/// cells where it could.
spec fn start_facts(g: Game, ms: Set<usize>, ss: Set<usize>) -> bool {
    &&& forall|k: int|
        0 <= k < g.size() ==> ((#[trigger] g.cells@[k]).revealed ==> ss.contains(k as usize))
            && (g.cells@[k].flagged && !g.cells@[k].revealed ==> ms.contains(k as usize))
    &&& unflagged_mines(g) == 0 ==> forall|k: int|
        0 <= k < g.size() && #[trigger] covered(g, k) ==> ss.contains(k as usize)
    &&& unflagged_mines(g) > 0 && unflagged_mines(g) == count_below(covered_cells(g), g.size())
        ==> forall|k: int| 0 <= k < g.size() && #[trigger] covered(g, k) ==> ms.contains(k as usize)
}

/// Facts that the solver's result satisfies on any well-formed board.
///
/// Known mines are covered cells and never known safe; known safes are
/// revealed or unflagged cells. Every revealed cell is known safe and every
/// flagged covered cell a known mine. When the flags account for all mines,
/// every covered cell is known safe; when the unflagged mines exactly fill
/// the covered cells, every covered cell is a known mine. Every covered
/// neighbour of a number that its flags already reach is known, and on a
/// consistent board known safe; on a consistent board every covered
/// neighbour of a number that its flags and covered neighbours exactly reach
/// is a known mine. On a consistent board the subset difference of two
/// nested numbers is applied too: the outer cells it clears are known safe
/// and those it fills are known mines. On a consistent board every known
/// mine is a mine and every known safe is not.
pub open spec fn infer_facts(g: Game, ms: Set<usize>, ss: Set<usize>) -> bool {
    &&& forall|k: usize|
        #[trigger] ms.contains(k) ==> (k as int) < g.size() && !g.cells@[k as int].revealed
            && !ss.contains(k)
    &&& forall|k: usize|
        #[trigger] ss.contains(k) ==> (k as int) < g.size() && (g.cells@[k as int].revealed
            || !g.cells@[k as int].flagged)
    &&& forall|k: int|
        0 <= k < g.size() ==> ((#[trigger] g.cells@[k]).revealed ==> ss.contains(k as usize))
            && (g.cells@[k].flagged && !g.cells@[k].revealed ==> ms.contains(k as usize))
    &&& unflagged_mines(g) == 0 ==> forall|k: int|
        0 <= k < g.size() && #[trigger] covered(g, k) ==> ss.contains(k as usize)
    &&& unflagged_mines(g) > 0 && unflagged_mines(g) == count_below(covered_cells(g), g.size())
        ==> forall|k: int| 0 <= k < g.size() && #[trigger] covered(g, k) ==> ms.contains(k as usize)
    &&& forall|s: int, k: int|
        #[trigger] cleared_by(g, s, k) ==> ms.contains(k as usize) || ss.contains(k as usize)
    &&& g.consistent() ==> forall|s: int, k: int| #[trigger] cleared_by(g, s, k) ==> ss.contains(k as usize)
    &&& g.consistent() ==> forall|s: int, k: int| #[trigger] filled_by(g, s, k) ==> ms.contains(k as usize)
    &&& g.consistent() ==> forall|s1: int, s2: int, k: int|
        #[trigger] cleared_by_pair(g, s1, s2, k) ==> ss.contains(k as usize)
    &&& g.consistent() ==> forall|s1: int, s2: int, k: int|
        #[trigger] filled_by_pair(g, s1, s2, k) ==> ms.contains(k as usize)
    &&& g.consistent() ==> forall|k: usize| #[trigger] ms.contains(k) ==> g.cells@[k as int].mine
    &&& g.consistent() ==> forall|k: usize| #[trigger] ss.contains(k) ==> !g.cells@[k as int].mine
}

/// Deduces the cells that are certainly mines and certainly safe: exactly
/// what `infer_rounds` settles, rounds repeated until one changes nothing or
/// 400 have run.
///
/// Returns `(mines, safes)` as cell indices.
pub fn infer(game: &Game) -> (r: (HashSet<usize>, HashSet<usize>))
    requires
        game.wf(),
    ensures
        r.0@ == infer_rounds(*game).mines,
        r.1@ == infer_rounds(*game).safes,
        infer_facts(*game, r.0@, r.1@),
{
    let ghost g = *game;
    proof {
        lemma_size_bound(game);
    }
    let n = game.cells.len();
    let (mut kb, hidden, flagged) = initial_knowledge(game);
    proof {
        lemma_first_knowledge(g, kb);
        assert(kb_view(kb) =~= number_sentences(g, 0));
    }

    let mut s: usize = 0;
    while s < n
        invariant
            g == *game,
            g.wf(),
            n == g.size(),
            first_knowledge(g, kb),
            kb_inv(g, kb),
            0 <= s <= n,
            kb_view(kb) == number_sentences(g, s as int),
            forall|s2: int, k: int|
                #[trigger] cleared_by(g, s2, k) && s2 < s ==> safe_pending(kb, k as usize),
            g.consistent() ==> forall|s2: int, k: int|
                #[trigger] filled_by(g, s2, k) && s2 < s ==> mine_pending(kb, k as usize),
            forall|s2: int|
                0 <= s2 < s && g.cells@[s2].revealed && !g.cells@[s2].mine && !(
                #[trigger] covered_set_of(g, s2)).is_empty() ==> exists|j: int|
                    0 <= j < kb.sentences@.len() && (#[trigger] kb.sentences@[j]).cells@
                        == covered_set_of(g, s2),
        decreases n - s,
    {
        let ghost before = kb;
        let src = game.cells[s];
        if src.revealed && !src.mine {
            let (undetermined, count) = neighbor_sentence(game, &kb, s);
            let ghost cells = undetermined@;
            proof {
                assert(cells =~= covered_set_of(g, s as int));
            }
            let added = add_sentence(&mut kb, undetermined, count, Ghost(g));
            proof {
                lemma_add_view(before, kb, added, cells, count);
                assert forall|s2: int|
                    0 <= s2 < s + 1 && g.cells@[s2].revealed && !g.cells@[s2].mine && !(
                    #[trigger] covered_set_of(g, s2)).is_empty() implies exists|j: int|
                        0 <= j < kb.sentences@.len() && (#[trigger] kb.sentences@[j]).cells@
                            == covered_set_of(g, s2) by {
                    if s2 < s {
                        let j = choose|j: int|
                            0 <= j < before.sentences@.len() && (#[trigger] before.sentences@[j]).cells@
                                == covered_set_of(g, s2);
                        assert(kb.sentences@[j] == before.sentences@[j]);
                    } else if added {
                        assert(kb.sentences@[kb.sentences@.len() - 1].cells@ == cells);
                    } else {
                        let j = choose|j: int|
                            0 <= j < before.sentences@.len() && (#[trigger] before.sentences@[j]).cells@ == cells
                                && before.sentences@[j].count == (if count > 0 {
                                count
                            } else {
                                0
                            });
                        assert(kb.sentences@[j].cells@ == covered_set_of(g, s2));
                    }
                }
                assert forall|s2: int, k: int| #[trigger] cleared_by(g, s2, k) && s2 < s + 1 implies safe_pending(kb, k as usize) by {
                    if s2 == s {
                        assert(cells.contains(k as usize));
                    }
                }
                if g.consistent() {
                    assert forall|s2: int, k: int| #[trigger] filled_by(g, s2, k) && s2 < s + 1 implies mine_pending(kb, k as usize) by {
                        if s2 == s {
                            assert(cells.contains(k as usize));
                            lemma_count_bound(|j: int| g.adjacent(s as int, j) && covered(g, j), n as int);
                            assert(count > 0);
                        }
                    }
                }
            }
        }
        s = s + 1;
    }
    let ghost kb_a = kb;
    proof {
        if g.consistent() {
            lemma_pairs_start(g, kb);
        }
    }

    proof {
        lemma_count_bound(flag_hidden(g), n as int);
    }
    let remain: i32 = game.mines as i32 - flagged;
    proof {
        lemma_count_bound(covered_cells(g), n as int);
        if g.consistent() {
            lemma_hidden_mines(g);
            lemma_count_ext(
                |k: int| covered(g, k) && g.cells@[k].mine,
                |k: int| covered_cells(g)(k) && g.cells@[k].mine,
                n as int,
            );
        }
    }
    if remain == 0 {
        proof {
            if g.consistent() {
                let p = |k: int| covered(g, k) && g.cells@[k].mine;
                lemma_count_bound(p, n as int);
                assert forall|k: int| 0 <= k < n && #[trigger] covered(g, k) implies !g.cells@[k].mine by {
                    assert(!p(k));
                }
            }
        }
        let mut t: usize = 0;
        while t < hidden.len()
            invariant
                g == *game,
                g.wf(),
                n == g.size(),
                hidden_list(g, hidden@),
                forall|k: usize|
                    #[trigger] kb.mines@.contains(k) <==> ((k as int) < g.size()
                        && g.cells@[k as int].flagged && !g.cells@[k as int].revealed),
                forall|k: usize|
                    #[trigger] kb.safes@.contains(k) ==> ((k as int) < g.size() && (
                    g.cells@[k as int].revealed || covered(g, k as int))),
                forall|k: int|
                    0 <= k < g.size() ==> (#[trigger] g.cells@[k]).revealed ==> kb.safes@.contains(
                        k as usize,
                    ),
                forall|u: int| 0 <= u < t ==> kb.safes@.contains(#[trigger] hidden@[u]),
                kb_inv(g, kb),
                kb.sentences@ == kb_a.sentences@,
                kb_a.mines@.subset_of(kb.mines@),
                kb_a.safes@.subset_of(kb.safes@),
                g.consistent() ==> forall|k: int|
                    0 <= k < n && #[trigger] covered(g, k) ==> !g.cells@[k].mine,
                0 <= t <= hidden@.len(),
            decreases hidden@.len() - t,
        {
            let h = hidden[t];
            kb.safes.insert(h);
            t = t + 1;
        }
        proof {
            assert forall|k: int| 0 <= k < g.size() && #[trigger] covered(g, k) implies kb.safes@.contains(k as usize) by {
                assert(hidden@.contains(k as usize));
                let u = choose|u: int| 0 <= u < hidden@.len() && hidden@[u] == k as usize;
            }
        }
    } else if remain > 0 && remain == hidden.len() as i32 {
        proof {
            if g.consistent() {
                lemma_count_mono(
                    |k: int| covered_cells(g)(k) && g.cells@[k].mine,
                    covered_cells(g),
                    n as int,
                );
            }
        }
        let mut t: usize = 0;
        while t < hidden.len()
            invariant
                g == *game,
                g.wf(),
                n == g.size(),
                hidden_list(g, hidden@),
                forall|k: usize|
                    #[trigger] kb.safes@.contains(k) <==> ((k as int) < g.size()
                        && g.cells@[k as int].revealed),
                forall|k: usize|
                    #[trigger] kb.mines@.contains(k) ==> ((k as int) < g.size()
                        && !g.cells@[k as int].revealed),
                forall|k: int|
                    0 <= k < g.size() ==> (g.cells@[k].flagged && !g.cells@[k].revealed)
                        ==> #[trigger] kb.mines@.contains(k as usize),
                forall|u: int| 0 <= u < t ==> kb.mines@.contains(#[trigger] hidden@[u]),
                forall|k: usize| #[trigger] kb.mines@.contains(k) ==> kb_a.mines@.contains(k) || ((k as int)
                    < g.size() && covered(g, k as int)),
                kb_inv(g, kb),
                kb.sentences@ == kb_a.sentences@,
                kb_a.mines@.subset_of(kb.mines@),
                kb_a.safes@.subset_of(kb.safes@),
                g.consistent() ==> forall|k: int|
                    0 <= k < n && #[trigger] covered_cells(g)(k) ==> g.cells@[k].mine,
                0 <= t <= hidden@.len(),
            decreases hidden@.len() - t,
        {
            let h = hidden[t];
            proof {
                assert(covered_cells(g)(h as int));
            }
            kb.mines.insert(h);
            t = t + 1;
        }
        proof {
            assert forall|k: int| 0 <= k < g.size() && #[trigger] covered(g, k) implies kb.mines@.contains(k as usize) by {
                assert(hidden@.contains(k as usize));
                let u = choose|u: int| 0 <= u < hidden@.len() && hidden@[u] == k as usize;
            }
        }
    }
    proof {
        if remain == 0 {
            assert forall|k: usize| #[trigger] kb.safes@.contains(k) <==> (kb_a.safes@ + covered_cells_set(g)).contains(k) by {
                if (k as int) < g.size() && covered(g, k as int) {
                    assert(kb.safes@.contains(k));
                }
            }
        } else if remain > 0 && remain == hidden@.len() {
            assert forall|k: usize| #[trigger] kb.mines@.contains(k) <==> (kb_a.mines@ + covered_cells_set(g)).contains(k) by {
                if (k as int) < g.size() && covered(g, k as int) {
                    assert(kb.mines@.contains(k));
                }
            }
        }
        assert(kb_view(kb) =~= counted_start(g, kb_view(kb_a)));
        assert(kb_view(kb) == counted_start(g, number_sentences(g, g.size())));
    }
    let ghost m0 = kb.mines@;
    let ghost s0 = kb.safes@;
    proof {
        assert(start_facts(g, m0, s0));
        lemma_pending_grow(kb_a, kb);
        lemma_track_grow(g, kb_a, kb);
    }
    let ghost mut pair_settled = false;

    let ghost mut settled = false;
    let mut round: u32 = 0;
    while round < 400
        invariant_except_break
            rounds_from(g, kb_view(kb), round as int) == infer_rounds(g),
        invariant
            g == *game,
            g.wf(),
            n == g.size(),
            n <= 65025,
            hidden_list(g, hidden@),
            remain == unflagged_mines(g),
            -65025 <= remain <= 65535,
            kb_inv(g, kb),
            start_facts(g, m0, s0),
            m0.subset_of(kb.mines@),
            s0.subset_of(kb.safes@),
            forall|s2: int, k: int| #[trigger] cleared_by(g, s2, k) ==> safe_pending(kb, k as usize),
            g.consistent() ==> forall|s2: int, k: int|
                #[trigger] filled_by(g, s2, k) ==> mine_pending(kb, k as usize),
            settled ==> forall|s2: int, k: int|
                #[trigger] cleared_by(g, s2, k) ==> kb.mines@.contains(k as usize) || kb.safes@.contains(
                    k as usize,
                ),
            settled ==> g.consistent() ==> forall|s2: int, k: int|
                #[trigger] filled_by(g, s2, k) ==> kb.mines@.contains(k as usize) || kb.safes@.contains(
                    k as usize,
                ),
            round > 0 ==> settled,
            g.consistent() ==> pairs_tracked(g, kb),
            g.consistent() && round >= 1 ==> pairs_pending(g, kb),
            g.consistent() && pair_settled ==> pairs_decided(g, kb),
            round >= 2 ==> pair_settled,
        ensures
            settled,
            pair_settled,
            kb_view(kb) == infer_rounds(g),
        decreases 400 - round,
    {
        let ghost kb0 = kb;
        let mut changed = false;

        let inferred = count_inferred(game, &kb);
        let unknown = collect_unknown(game, &kb, &hidden);
        proof {
            lemma_count_bound(inferred_mines(g, kb.mines@), n as int);
            if g.consistent() {
                lemma_unknown_mines(g, kb);
            }
        }
        let left = if remain - inferred > 0 {
            remain - inferred
        } else {
            0
        };
        let ch_count = apply_remaining(&mut kb, &unknown, left, Ghost(g));
        if ch_count {
            changed = true;
        }
        proof {
            let d = kb_view(kb0);
            let uu = unknown_cells(g, d);
            assert forall|c: usize| #[trigger] unknown@.contains(c) <==> uu.contains(c) by {
                if unknown@.contains(c) {
                    let u = choose|u: int| 0 <= u < unknown@.len() && unknown@[u] == c;
                }
            }
            assert(unknown@.len() == count_below(still_unknown(g, d.mines, d.safes), g.size()));
            assert(left == mines_left(g, d));
            if (left == 0 && unknown@.len() > 0) || (left > 0 && left == unknown@.len()) {
                assert(ch_count == touches(d, uu)) by {
                    if ch_count {
                        let (j, c) = choose|j: int, c: usize|
                            0 <= j < kb0.sentences@.len() && (#[trigger] kb0.sentences@[j].cells@.contains(c))
                                && unknown@.contains(c);
                        assert(d.sentences[j].0.contains(c));
                    }
                    if touches(d, uu) {
                        let (j, c) = choose|j: int, c: usize|
                            0 <= j < d.sentences.len() && #[trigger] d.sentences[j].0.contains(c) && uu.contains(c);
                        assert(kb0.sentences@[j].cells@.contains(c));
                    }
                }
                assert forall|j: int| 0 <= j < kb.sentences@.len() implies #[trigger] kb.sentences@[j].cells@
                    == kb0.sentences@[j].cells@.difference(uu) by {
                    assert(kb.sentences@[j].cells@ =~= kb0.sentences@[j].cells@.difference(uu));
                }
                if left == 0 {
                    assert(kb_view(kb).sentences =~= without_safes(d, uu));
                    assert(kb_view(kb).safes =~= d.safes + uu);
                } else {
                    assert(kb_view(kb).sentences =~= without_mines(d, uu));
                    assert(kb_view(kb).mines =~= d.mines + uu);
                }
            }
            assert(kb_view(kb) =~= by_count(g, d).0);
            assert(ch_count == by_count(g, d).1);
        }

        let ghost kb1 = kb;
        proof {
            if g.consistent() {
                assert(pairs_tracked(g, kb1));
                if round >= 1 {
                    assert(pairs_pending(g, kb1));
                }
            }
        }
        let (mine_keys, safe_keys) = collect_keys(&kb, Ghost(g));
        proof {
            lemma_keys_start(g, kb, mine_keys@, true);
        }
        let mut t: usize = 0;
        while t < mine_keys.len()
            invariant
                g.wf(),
                kb_inv(g, kb),
                m0.subset_of(kb.mines@),
                s0.subset_of(kb.safes@),
                kb1.mines@.subset_of(kb.mines@),
                kb1.safes@.subset_of(kb.safes@),
                forall|u: int|
                    0 <= u < mine_keys@.len() ==> (#[trigger] mine_keys@[u] as int) < g.size()
                        && covered(g, mine_keys@[u] as int) && (g.consistent()
                        ==> g.cells@[mine_keys@[u] as int].mine),
                0 <= t <= mine_keys@.len(),
                forall|u: int|
                    0 <= u < t ==> kb.mines@.contains(#[trigger] mine_keys@[u]) || kb.safes@.contains(
                        mine_keys@[u],
                    ),
                forall|k: usize| safe_pending(kb1, k) ==> #[trigger] safe_pending(kb, k),
                g.consistent() ==> forall|k: usize| mine_pending(kb1, k) ==> #[trigger] mine_pending(kb, k),
                g.consistent() ==> forall|c: usize| safe_track(g, kb1, c) ==> #[trigger] safe_track(g, kb, c),
                g.consistent() ==> forall|c: usize| mine_track(g, kb1, c) ==> #[trigger] mine_track(g, kb, c),
                !changed ==> same_sentences(kb, kb1),
                kb_inv(g, kb1),
                keys_marked(kb1, kb, mine_keys@, t as int, true),
                changed == (ch_count || touches(kb_view(kb1), marked_set(kb1, mine_keys@, t as int))),
            decreases mine_keys@.len() - t,
        {
            let ghost prev = kb;
            let marked = mark_mine(&mut kb, mine_keys[t], Ghost(g));
            if marked {
                changed = true;
            }
            proof {
                if !marked {
                    lemma_quiet_mark(prev, kb, mine_keys@[t as int]);
                }
                let key = mine_keys@[t as int];
                if prev.mines@.contains(key) {
                    assert(prev.mines@.insert(key) =~= prev.mines@);
                }
                lemma_key_step(g, kb1, prev, kb, mine_keys@, t as int, true, marked);
            }
            t = t + 1;
        }
        let ghost kbm = kb;
        let ghost ch_before_safe = changed;
        proof {
            lemma_keys_start(g, kb, safe_keys@, false);
        }
        let mut t: usize = 0;
        while t < safe_keys.len()
            invariant
                g.wf(),
                kb_inv(g, kb),
                m0.subset_of(kb.mines@),
                s0.subset_of(kb.safes@),
                kb1.mines@.subset_of(kb.mines@),
                kb1.safes@.subset_of(kb.safes@),
                forall|u: int|
                    0 <= u < safe_keys@.len() ==> (#[trigger] safe_keys@[u] as int) < g.size()
                        && covered(g, safe_keys@[u] as int) && (g.consistent()
                        ==> !g.cells@[safe_keys@[u] as int].mine),
                0 <= t <= safe_keys@.len(),
                forall|u: int|
                    0 <= u < mine_keys@.len() ==> kb.mines@.contains(#[trigger] mine_keys@[u])
                        || kb.safes@.contains(mine_keys@[u]),
                forall|u: int|
                    0 <= u < t ==> kb.mines@.contains(#[trigger] safe_keys@[u]) || kb.safes@.contains(
                        safe_keys@[u],
                    ),
                forall|k: usize| safe_pending(kb1, k) ==> #[trigger] safe_pending(kb, k),
                g.consistent() ==> forall|k: usize| mine_pending(kb1, k) ==> #[trigger] mine_pending(kb, k),
                g.consistent() ==> forall|c: usize| safe_track(g, kb1, c) ==> #[trigger] safe_track(g, kb, c),
                g.consistent() ==> forall|c: usize| mine_track(g, kb1, c) ==> #[trigger] mine_track(g, kb, c),
                !changed ==> same_sentences(kb, kb1),
                kb_inv(g, kbm),
                keys_marked(kbm, kb, safe_keys@, t as int, false),
                changed == (ch_before_safe || touches(kb_view(kbm), marked_set(kbm, safe_keys@, t as int))),
            decreases safe_keys@.len() - t,
        {
            let ghost prev = kb;
            let marked = mark_safe(&mut kb, safe_keys[t], Ghost(g));
            if marked {
                changed = true;
            }
            proof {
                if !marked {
                    lemma_quiet_mark(prev, kb, safe_keys@[t as int]);
                }
                let key = safe_keys@[t as int];
                if prev.safes@.contains(key) {
                    assert(prev.safes@.insert(key) =~= prev.safes@);
                }
                lemma_key_step(g, kbm, prev, kb, safe_keys@, t as int, false, marked);
            }
            t = t + 1;
        }
        proof {
            lemma_keys_view(g, kb1, kbm, kb, mine_keys@, safe_keys@);
        }
        proof {
            assert forall|s2: int, k: int| #[trigger] cleared_by(g, s2, k) implies kb.mines@.contains(
                k as usize,
            ) || kb.safes@.contains(k as usize) by {
                assert(safe_pending(kb1, k as usize));
                if !kb1.mines@.contains(k as usize) && !kb1.safes@.contains(k as usize) {
                    let j0 = choose|j0: int|
                        0 <= j0 < kb1.sentences@.len() && (#[trigger] kb1.sentences@[j0]).cells@.contains(k as usize)
                            && kb1.sentences@[j0].count == 0;
                    assert(kb1.sentences@[j0].cells@.contains(k as usize));
                    assert(safe_keys@.contains(k as usize));
                    let u = choose|u: int| 0 <= u < safe_keys@.len() && safe_keys@[u] == k as usize;
                }
            }
            if g.consistent() {
                assert forall|s2: int, k: int| #[trigger] filled_by(g, s2, k) implies kb.mines@.contains(
                    k as usize,
                ) || kb.safes@.contains(k as usize) by {
                    assert(mine_pending(kb1, k as usize));
                    if !kb1.mines@.contains(k as usize) {
                        let j0 = choose|j0: int|
                            0 <= j0 < kb1.sentences@.len() && (#[trigger] kb1.sentences@[j0]).cells@.contains(k as usize)
                                && kb1.sentences@[j0].count == kb1.sentences@[j0].cells@.len();
                        assert(kb1.sentences@[j0].cells@.contains(k as usize));
                        assert(mine_keys@.contains(k as usize));
                        let u = choose|u: int| 0 <= u < mine_keys@.len() && mine_keys@[u] == k as usize;
                    }
                }
            }
            assert forall|c: usize| #[trigger] safe_pending(kb1, c) implies kb.mines@.contains(c)
                || kb.safes@.contains(c) by {
                if !kb1.mines@.contains(c) && !kb1.safes@.contains(c) {
                    let j0 = choose|j0: int|
                        0 <= j0 < kb1.sentences@.len() && (#[trigger] kb1.sentences@[j0]).cells@.contains(c)
                            && kb1.sentences@[j0].count == 0;
                    assert(kb1.sentences@[j0].cells@.contains(c));
                    assert(safe_keys@.contains(c));
                    let u = choose|u: int| 0 <= u < safe_keys@.len() && safe_keys@[u] == c;
                }
            }
            if g.consistent() {
                assert forall|c: usize| #[trigger] mine_pending(kb1, c) implies kb.mines@.contains(c)
                    || kb.safes@.contains(c) by {
                    if !kb1.mines@.contains(c) {
                        let j0 = choose|j0: int|
                            0 <= j0 < kb1.sentences@.len() && (#[trigger] kb1.sentences@[j0]).cells@.contains(c)
                                && kb1.sentences@[j0].count == kb1.sentences@[j0].cells@.len();
                        assert(kb1.sentences@[j0].cells@.contains(c));
                        assert(mine_keys@.contains(c));
                        let u = choose|u: int| 0 <= u < mine_keys@.len() && mine_keys@[u] == c;
                    }
                }
                if round >= 1 {
                    assert(pairs_decided(g, kb));
                }
            }
            if round >= 1 {
                pair_settled = true;
            }
        }
        let ghost kb2 = kb;

        let derived = derive_sentences(&kb, Ghost(g));
        let ghost ch_pre = changed;
        let mut t: usize = 0;
        proof {
            assert(derived_view(derived@).take(0) =~= Seq::<(Set<usize>, int)>::empty());
        }
        while t < derived.len()
            invariant
                g.wf(),
                kb_inv(g, kb),
                m0.subset_of(kb.mines@),
                s0.subset_of(kb.safes@),
                forall|u: int|
                    0 <= u < derived@.len() ==> sentence_ok(
                        g,
                        (#[trigger] derived@[u]).0@,
                        derived@[u].1 as int,
                    ),
                0 <= t <= derived@.len(),
                forall|s2: int, k: int| #[trigger] cleared_by(g, s2, k) ==> safe_pending(kb, k as usize),
                g.consistent() ==> forall|s2: int, k: int|
                    #[trigger] filled_by(g, s2, k) ==> mine_pending(kb, k as usize),
                forall|s2: int, k: int|
                    #[trigger] cleared_by(g, s2, k) ==> kb.mines@.contains(k as usize) || kb.safes@.contains(
                        k as usize,
                    ),
                g.consistent() ==> forall|s2: int, k: int|
                    #[trigger] filled_by(g, s2, k) ==> kb.mines@.contains(k as usize) || kb.safes@.contains(
                        k as usize,
                    ),
                kb.mines@ == kb2.mines@,
                kb.safes@ == kb2.safes@,
                forall|k: usize| safe_pending(kb2, k) ==> #[trigger] safe_pending(kb, k),
                forall|k: usize| mine_pending(kb2, k) ==> #[trigger] mine_pending(kb, k),
                !changed ==> same_sentences(kb, kb1),
                !changed ==> same_sentences(kb2, kb1),
                forall|u: int|
                    0 <= u < t && !(#[trigger] derived@[u]).0@.is_empty() ==> holds_sentence(
                        kb,
                        derived@[u].0@,
                        derived@[u].1 as int,
                    ),
                kb_view(kb) == with_all(kb_view(kb2), derived_view(derived@).take(t as int)).0,
                changed == (ch_pre || with_all(kb_view(kb2), derived_view(derived@).take(t as int)).1),
            decreases derived@.len() - t,
        {
            let cells = derived[t].0.clone();
            let count = derived[t].1;
            let ghost prev = kb;
            proof {
                assert(sentence_ok(g, derived@[t as int].0@, derived@[t as int].1 as int));
            }
            let added = add_sentence(&mut kb, cells, count, Ghost(g));
            if added {
                changed = true;
            }
            proof {
                lemma_add_view(prev, kb, added, derived@[t as int].0@, count);
                let dv = derived_view(derived@);
                assert(dv.take(t + 1).drop_last() =~= dv.take(t as int));
                assert(dv.take(t + 1).last() == (derived@[t as int].0@, count as int));
                lemma_add_holds(prev, kb, added, derived@[t as int].0@, count);
                assert forall|u: int|
                    0 <= u < t + 1 && !(#[trigger] derived@[u]).0@.is_empty() implies holds_sentence(
                        kb,
                        derived@[u].0@,
                        derived@[u].1 as int,
                    ) by {
                    if u < t {
                        assert(holds_sentence(prev, derived@[u].0@, derived@[u].1 as int));
                    }
                }
            }
            t = t + 1;
        }
        proof {
            if g.consistent() {
                lemma_pairs_derived(g, kb2, kb, derived@);
                if !changed {
                    lemma_pairs_quiet(g, kb1, kb);
                }
            }
            if !changed {
                pair_settled = true;
            }
        }

        proof {
            settled = true;
            let d0 = kb_view(kb0);
            let r1 = by_count(g, d0);
            let r2 = by_keys(r1.0);
            assert(kb_view(kb2) == r2.0);
            let dv = derived_view(derived@);
            assert(dv.take(dv.len() as int) =~= dv);
            assert(r2.0.sentences.len() == kb2.sentences@.len());

            lemma_round_view(g, d0, kb_view(kb2), derived_view(derived@), kb_view(kb), ch_count, r2.1, changed);
        }
        if !changed {
            break;
        }
        round = round + 1;
    }
    proof {
        assert(kb.mines@ == infer_rounds(g).mines);
        assert(kb.safes@ == infer_rounds(g).safes);
        if g.consistent() {
            assert forall|s2: int, k: int| #[trigger] cleared_by(g, s2, k) implies kb.safes@.contains(k as usize) by {
                lemma_cleared_safe(g, s2, k);
            }
            assert forall|s2: int, k: int| #[trigger] filled_by(g, s2, k) implies kb.mines@.contains(k as usize) by {
                lemma_filled_mine(g, s2, k);
            }
            assert forall|s1: int, s2: int, k: int| #[trigger] cleared_by_pair(g, s1, s2, k) implies kb.safes@.contains(k as usize) by {
                lemma_pair_sound(g, s1, s2, k);
                assert(covered_set_of(g, s2).difference(covered_set_of(g, s1)).contains(k as usize));
            }
            assert forall|s1: int, s2: int, k: int| #[trigger] filled_by_pair(g, s1, s2, k) implies kb.mines@.contains(k as usize) by {
                lemma_pair_sound(g, s1, s2, k);
                assert(covered_set_of(g, s2).difference(covered_set_of(g, s1)).contains(k as usize));
            }
        }
        assert(infer_facts(g, kb.mines@, kb.safes@));
    }
    (kb.mines, kb.safes)
}


/// The first covered cell at index `from` or later that belongs to `s`.
pub open spec fn first_covered_in(g: Game, s: Set<usize>, from: int) -> Option<int>
    decreases g.size() - from,
{
    if from < 0 || from >= g.size() {
        Option::None
    } else if covered(g, from) && s.contains(from as usize) {
        Option::Some(from)
    } else {
        first_covered_in(g, s, from + 1)
    }
}

/// A cell found by `first_covered_in` is a covered member of `s` with no
/// covered member of `s` between `from` and it; when none is found from a
/// start of zero or more, no covered member of `s` lies at `from` or later.
pub proof fn lemma_first_covered_in(g: Game, s: Set<usize>, from: int)
    ensures
        first_covered_in(g, s, from) matches Option::Some(k) ==> from <= k < g.size() && covered(
            g,
            k,
        ) && s.contains(k as usize),
        first_covered_in(g, s, from) matches Option::Some(k) ==> forall|j: int|
            from <= j < k ==> !(#[trigger] covered(g, j) && s.contains(j as usize)),
        from >= 0 && first_covered_in(g, s, from) is None ==> forall|j: int|
            from <= j < g.size() ==> !(#[trigger] covered(g, j) && s.contains(j as usize)),
    decreases g.size() - from,
{
    if 0 <= from < g.size() && !(covered(g, from) && s.contains(from as usize)) {
        lemma_first_covered_in(g, s, from + 1);
    }
}

/// The move played from a solver result: reveal the first covered known
/// safe cell, else flag the first covered known mine, else nothing.
pub open spec fn hint_from(g: Game, ms: Set<usize>, ss: Set<usize>) -> Hint {
    match first_covered_in(g, ss, 0) {
        Option::Some(k) => Hint::Reveal { x: g.cells@[k].x, y: g.cells@[k].y },
        Option::None => match first_covered_in(g, ms, 0) {
            Option::Some(k) => Hint::Flag { x: g.cells@[k].x, y: g.cells@[k].y },
            Option::None => Hint::NoMove,
        },
    }
}

/// The move the solver gives on `g`: nothing once the game is over, the
/// centre before the first click, else the move `hint_from` picks out of
/// everything the deduction rounds settle.
pub open spec fn hint_of(g: Game) -> Hint {
    if g.over {
        Hint::NoMove
    } else if !g.placed {
        Hint::Reveal { x: g.width / 2, y: g.height / 2 }
    } else {
        hint_from(g, infer_rounds(g).mines, infer_rounds(g).safes)
    }
}

/// On a consistent board the move is right: a reveal names a covered cell
/// that is not a mine, a flag a covered cell that is a mine.
pub open spec fn certain(g: Game, h: Hint) -> bool {
    match h {
        Hint::Reveal { x, y } => exists|k: int|
            0 <= k < g.size() && (#[trigger] g.cells@[k]).x == x && g.cells@[k].y == y && covered(
                g,
                k,
            ) && !g.cells@[k].mine,
        Hint::Flag { x, y } => exists|k: int|
            0 <= k < g.size() && (#[trigger] g.cells@[k]).x == x && g.cells@[k].y == y && covered(
                g,
                k,
            ) && g.cells@[k].mine,
        Hint::NoMove => true,
    }
}

/// Scans for the first covered cell of the board that belongs to `set`.
fn find_first_covered(game: &Game, set: &HashSet<usize>) -> (r: Option<usize>)
    requires
        game.wf(),
    ensures
        match r {
            Option::Some(k) => first_covered_in(*game, set@, 0) == Option::Some(k as int),
            Option::None => first_covered_in(*game, set@, 0) is None,
        },
{
    let n = game.cells.len();
    let mut i: usize = 0;
    while i < n
        invariant
            n == game.size(),
            0 <= i <= n,
            first_covered_in(*game, set@, 0) == first_covered_in(*game, set@, i as int),
        decreases n - i,
    {
        let cell = game.cells[i];
        if !cell.revealed && !cell.flagged && set.contains(&i) {
            return Option::Some(i);
        }
        i = i + 1;
    }
    Option::None
}

/// One certain move: a reveal of a cell known safe or a flag on a cell known
/// to be a mine; the centre before the first click; nothing once the game is
/// over or when no move is certain.
pub fn hint(game: &Game) -> (h: Hint)
    requires
        game.wf(),
    ensures
        game.over ==> h == Hint::NoMove,
        !game.over && !game.placed ==> h == (Hint::Reveal { x: game.width / 2, y: game.height / 2 }),
        h == hint_of(*game),
        !game.over && game.placed && game.consistent() ==> certain(*game, h),
{
    if game.over {
        return Hint::NoMove;
    }
    if !game.placed {
        return Hint::Reveal { x: game.width / 2, y: game.height / 2 };
    }
    let (mines, safes) = infer(game);
    let ghost g = *game;
    proof {
        lemma_first_covered_in(g, safes@, 0);
        lemma_first_covered_in(g, mines@, 0);
    }
    let h = match find_first_covered(game, &safes) {
        Option::Some(k) => Hint::Reveal { x: game.cells[k].x, y: game.cells[k].y },
        Option::None => match find_first_covered(game, &mines) {
            Option::Some(k) => Hint::Flag { x: game.cells[k].x, y: game.cells[k].y },
            Option::None => Hint::NoMove,
        },
    };
    proof {
        assert(h == hint_from(g, mines@, safes@));
        if let Option::Some(k) = first_covered_in(g, safes@, 0) {
            assert(g.cells@[k].x == g.cells@[k].x);
        }
        if let Option::Some(k) = first_covered_in(g, mines@, 0) {
            assert(g.cells@[k].x == g.cells@[k].x);
        }
    }
    h
}


/// Some entry of `ps` names the square `(x, y)`.
pub open spec fn listed(ps: Seq<[u8; 2]>, x: int, y: int) -> bool {
    exists|t: int| 0 <= t < ps.len() && (#[trigger] ps[t])[0] == x && ps[t][1] == y
}

/// The number of entries of `ps` that lie on a `width` by `height` board.
pub open spec fn on_board(ps: Seq<[u8; 2]>, width: int, height: int) -> nat
    decreases ps.len(),
{
    if ps.len() == 0 {
        0
    } else {
        on_board(ps.drop_last(), width, height) + if ps.last()[0] < width && ps.last()[1] < height {
            1nat
        } else {
            0nat
        }
    }
}

/// A prefix has no more entries on the board than the whole list.
proof fn lemma_on_board_prefix(ps: Seq<[u8; 2]>, t: int, width: int, height: int)
    requires
        0 <= t <= ps.len(),
    ensures
        on_board(ps.take(t), width, height) <= on_board(ps, width, height),
    decreases ps.len(),
{
    if t < ps.len() {
        assert(ps.drop_last().take(t) =~= ps.take(t));
        lemma_on_board_prefix(ps.drop_last(), t, width, height);
    } else {
        assert(ps.take(t) =~= ps);
    }
}

/// Whether some entry of `ps` names `(x, y)`.
fn is_listed(ps: &[[u8; 2]], x: u8, y: u8) -> (r: bool)
    ensures
        r == listed(ps@, x as int, y as int),
{
    let mut t: usize = 0;
    while t < ps.len()
        invariant
            0 <= t <= ps@.len(),
            forall|u: int| 0 <= u < t ==> !((#[trigger] ps@[u])[0] == x && ps@[u][1] == y),
        decreases ps@.len() - t,
    {
        let p = ps[t];
        if p[0] == x && p[1] == y {
            proof {
                assert(ps@[t as int] == p);
            }
            return true;
        }
        t = t + 1;
    }
    false
}

/// A board for solver tests: `width` by `height`, mines on the `mines`
/// squares, the `revealed` squares open and the `flagged` squares flagged,
/// with the numbers filled in and the game marked placed.
///
/// The mine counter is the number of entries of `mines` (modulo 2^16) and
/// the flag counter the number of `flagged` entries on the board.
pub fn layout(
    width: u8,
    height: u8,
    mines: &[[u8; 2]],
    revealed: &[[u8; 2]],
    flagged: &[[u8; 2]],
) -> (g: Game)
    requires
        on_board(flagged@, width as int, height as int) <= i16::MAX,
    ensures
        g.wf(),
        g.counted(),
        g.difficulty == Difficulty::Beginner,
        g.width == width,
        g.height == height,
        g.mines == mines@.len() as u16,
        g.placed,
        !g.over,
        !g.won,
        g.cursor_x == 0,
        g.cursor_y == 0,
        g.flags as int == on_board(flagged@, width as int, height as int),
        g.revealed_count as int == count_below(|k: int| g.cells@[k].revealed, g.size()),
        forall|k: int|
            0 <= k < g.size() ==> {
                &&& (#[trigger] g.cells@[k]).mine == listed(mines@, g.cells@[k].x as int, g.cells@[k].y as int)
                &&& g.cells@[k].revealed == listed(revealed@, g.cells@[k].x as int, g.cells@[k].y as int)
                &&& g.cells@[k].flagged == listed(flagged@, g.cells@[k].x as int, g.cells@[k].y as int)
                &&& !g.cells@[k].exploded
            },
        crate::board::numbers_right(g),
{
    let mut game = Game::new(Difficulty::Beginner);
    game.width = width;
    game.height = height;
    game.mines = mines.len() as u16;
    game.cells = Vec::new();
    assert(game.mines == mines@.len() as u16);
    let mut y: u8 = 0;
    while y < height
        invariant
            game.mines == mines@.len() as u16,
            game.difficulty == Difficulty::Beginner,
            !game.placed,
            !game.over,
            !game.won,
            game.cursor_x == 0,
            game.cursor_y == 0,
            game.width == width,
            game.height == height,
            game.cells@.len() == y as int * width as int,
            0 <= y <= height,
            forall|i: int|
                0 <= i < game.cells@.len() ==> {
                    &&& (#[trigger] game.cells@[i]).x < width
                    &&& game.cells@[i].y < y
                    &&& game.cells@[i].y as int * width as int + game.cells@[i].x as int == i
                    &&& game.cells@[i].mine == listed(mines@, game.cells@[i].x as int, game.cells@[i].y as int)
                    &&& game.cells@[i].adj == 0
                    &&& !game.cells@[i].revealed
                    &&& !game.cells@[i].flagged
                    &&& !game.cells@[i].exploded
                },
        decreases height - y,
    {
        let mut x: u8 = 0;
        while x < width
            invariant
                game.mines == mines@.len() as u16,
                game.difficulty == Difficulty::Beginner,
                !game.placed,
                !game.over,
                !game.won,
                game.cursor_x == 0,
                game.cursor_y == 0,
                game.width == width,
                game.height == height,
                y < height,
                0 <= x <= width,
                game.cells@.len() == y as int * width as int + x as int,
                forall|i: int|
                    0 <= i < game.cells@.len() ==> {
                        &&& (#[trigger] game.cells@[i]).x < width
                        &&& game.cells@[i].y <= y
                        &&& game.cells@[i].y as int * width as int + game.cells@[i].x as int == i
                        &&& (game.cells@[i].y == y ==> game.cells@[i].x < x)
                        &&& game.cells@[i].mine == listed(mines@, game.cells@[i].x as int, game.cells@[i].y as int)
                        &&& game.cells@[i].adj == 0
                        &&& !game.cells@[i].revealed
                        &&& !game.cells@[i].flagged
                        &&& !game.cells@[i].exploded
                    },
            decreases width - x,
        {
            let mine = is_listed(mines, x, y);
            game.cells.push(
                Cell {
                    x,
                    y,
                    mine,
                    adj: 0,
                    revealed: false,
                    flagged: false,
                    exploded: false,
                },
            );
            x = x + 1;
        }
        assert(game.cells@.len() == (y as int + 1) * width as int) by (nonlinear_arith)
            requires
                game.cells@.len() == y as int * width as int + width as int,
        ;
        y = y + 1;
    }
    assert(game.cells@.len() == width as int * height as int) by (nonlinear_arith)
        requires
            game.cells@.len() == height as int * width as int,
    ;
    proof {
        lemma_size_bound(&game);
    }
    let n = game.cells.len();
    let ghost base = game;
    let mut i: usize = 0;
    while i < n
        invariant
            n == base.size(),
            n <= 65025,
            0 <= i <= n,
            game.wf(),
            crate::board::same_layout(base, game),
            crate::board::same_frame(base, game),
            game.mines == base.mines,
            game.placed == base.placed,
            game.difficulty == base.difficulty,
            forall|k: int| 0 <= k < n ==> (#[trigger] base.cells@[k]).adj == 0,
            forall|k: int|
                0 <= k < n ==> {
                    &&& (#[trigger] game.cells@[k]).revealed == base.cells@[k].revealed
                    &&& game.cells@[k].flagged == base.cells@[k].flagged
                    &&& game.cells@[k].exploded == base.cells@[k].exploded
                    &&& ((k >= i || game.cells@[k].mine) ==> game.cells@[k].adj == base.cells@[k].adj)
                    &&& (k < i && !game.cells@[k].mine ==> game.cells@[k].adj as int == base.mines_around(k))
                },
        decreases n - i,
    {
        if !game.cells[i].mine {
            let a = game.count_adjacent_cell(i);
            proof {
                crate::board::lemma_same_layout_around(game, base, i as int);
            }
            let mut c = game.cells[i];
            c.adj = a;
            game.cells.set(i, c);
        }
        i = i + 1;
    }
    proof {
        assert forall|k: int| 0 <= k < n implies game.mines_around(k) == base.mines_around(k) by {
            crate::board::lemma_same_layout_around(game, base, k);
        }
        assert(crate::board::numbers_right(game));
    }
    let ghost counted_game = game;
    game.flags = 0;
    game.revealed_count = 0;
    let ghost numbered = game;
    proof {
        assert forall|k: int| 0 <= k < n implies game.mines_around(k) == counted_game.mines_around(k) by {
            crate::board::lemma_same_layout_around(game, counted_game, k);
        }
    }
    let mut k: usize = 0;
    while k < n
        invariant
            n == numbered.size(),
            n <= 65025,
            0 <= k <= n,
            game.wf(),
            crate::board::same_layout(numbered, game),
            crate::board::numbers_right(numbered),
            game.mines == numbered.mines,
            game.placed == numbered.placed,
            game.difficulty == numbered.difficulty,
            game.over == numbered.over,
            game.won == numbered.won,
            game.cursor_x == numbered.cursor_x,
            game.cursor_y == numbered.cursor_y,
            game.flags == 0,
            forall|j: int|
                0 <= j < n ==> {
                    &&& (#[trigger] game.cells@[j]).adj == numbered.cells@[j].adj
                    &&& game.cells@[j].flagged == numbered.cells@[j].flagged
                    &&& game.cells@[j].exploded == numbered.cells@[j].exploded
                    &&& game.cells@[j].revealed == (j < k && listed(
                        revealed@,
                        numbered.cells@[j].x as int,
                        numbered.cells@[j].y as int,
                    ))
                },
            game.revealed_count as int == count_below(|j: int| game.cells@[j].revealed, k as int),
            game.revealed_count <= k,
        decreases n - k,
    {
        let c = game.cells[k];
        let ghost g_before = game;
        if is_listed(revealed, c.x, c.y) {
            let mut o = c;
            o.revealed = true;
            game.cells.set(k, o);
            game.revealed_count = game.revealed_count + 1;
        }
        proof {
            lemma_count_ext(
                |j: int| g_before.cells@[j].revealed,
                |j: int| (j < k && listed(revealed@, numbered.cells@[j].x as int, numbered.cells@[j].y as int)),
                k as int,
            );
            lemma_count_ext(
                |j: int| game.cells@[j].revealed,
                |j: int| (j < k + 1 && listed(revealed@, numbered.cells@[j].x as int, numbered.cells@[j].y as int)),
                k + 1,
            );
            lemma_count_ext(
                |j: int| (j < k + 1 && listed(revealed@, numbered.cells@[j].x as int, numbered.cells@[j].y as int)),
                |j: int| (j < k && listed(revealed@, numbered.cells@[j].x as int, numbered.cells@[j].y as int)),
                k as int,
            );
        }
        k = k + 1;
    }
    proof {
        assert forall|j: int| 0 <= j < n implies game.mines_around(j) == numbered.mines_around(j) by {
            crate::board::lemma_same_layout_around(game, numbered, j);
        }
    }
    let ghost opened = game;
    let mut t: usize = 0;
    while t < flagged.len()
        invariant
            n == opened.size(),
            0 <= t <= flagged@.len(),
            on_board(flagged@, width as int, height as int) <= i16::MAX,
            opened.width == width,
            opened.height == height,
            game.wf(),
            crate::board::same_layout(opened, game),
            game.mines == opened.mines,
            game.placed == opened.placed,
            game.difficulty == opened.difficulty,
            game.over == opened.over,
            game.won == opened.won,
            game.cursor_x == opened.cursor_x,
            game.cursor_y == opened.cursor_y,
            game.revealed_count == opened.revealed_count,
            game.flags as int == on_board(flagged@.take(t as int), opened.width as int, opened.height as int),
            on_board(flagged@.take(t as int), opened.width as int, opened.height as int) <= t,
            forall|j: int|
                0 <= j < n ==> {
                    &&& (#[trigger] game.cells@[j]).adj == opened.cells@[j].adj
                    &&& game.cells@[j].revealed == opened.cells@[j].revealed
                    &&& game.cells@[j].exploded == opened.cells@[j].exploded
                    &&& game.cells@[j].flagged == listed(
                        flagged@.take(t as int),
                        opened.cells@[j].x as int,
                        opened.cells@[j].y as int,
                    )
                },
        decreases flagged@.len() - t,
    {
        let p = flagged[t];
        proof {
            assert(flagged@.take(t + 1).drop_last() =~= flagged@.take(t as int));
            assert(flagged@.take(t + 1).last() == p);
            lemma_on_board_prefix(flagged@, t + 1, width as int, height as int);
        }
        let ghost before = game;
        match game.index(p[0] as i32, p[1] as i32) {
            Some(i) => {
                proof {
                    crate::board::lemma_cell_at(&game, p[0] as int, p[1] as int);
                }
                let mut c = game.cells[i];
                c.flagged = true;
                game.cells.set(i, c);
                game.flags = game.flags + 1;
                proof {
                    assert forall|j: int| 0 <= j < n implies (#[trigger] game.cells@[j]).flagged == listed(
                        flagged@.take(t + 1),
                        opened.cells@[j].x as int,
                        opened.cells@[j].y as int,
                    ) by {
                        lemma_listed_push(flagged@.take(t as int), p, opened.cells@[j].x as int, opened.cells@[j].y as int);
                        assert(flagged@.take(t + 1) =~= flagged@.take(t as int).push(p));
                        if j != i as int {
                            assert(game.cells@[j] == before.cells@[j]);
                            if opened.cells@[j].x == p[0] && opened.cells@[j].y == p[1] {
                                crate::board::lemma_coords_unique(&game, j, i as int);
                            }
                        }
                    }
                }
            },
            None => {
                proof {
                    assert forall|j: int| 0 <= j < n implies (#[trigger] game.cells@[j]).flagged == listed(
                        flagged@.take(t + 1),
                        opened.cells@[j].x as int,
                        opened.cells@[j].y as int,
                    ) by {
                        lemma_listed_push(flagged@.take(t as int), p, opened.cells@[j].x as int, opened.cells@[j].y as int);
                        assert(flagged@.take(t + 1) =~= flagged@.take(t as int).push(p));
                    }
                }
            },
        }
        t = t + 1;
    }
    game.placed = true;
    proof {
        assert(flagged@.take(flagged@.len() as int) =~= flagged@);
        assert forall|j: int| 0 <= j < n implies game.mines_around(j) == opened.mines_around(j) by {
            crate::board::lemma_same_layout_around(game, opened, j);
        }
        lemma_count_ext(
            |j: int| game.cells@[j].revealed,
            |j: int| opened.cells@[j].revealed,
            n as int,
        );
    }
    game
}

/// Listing one more square.
proof fn lemma_listed_push(ps: Seq<[u8; 2]>, p: [u8; 2], x: int, y: int)
    ensures
        listed(ps.push(p), x, y) == (listed(ps, x, y) || (p[0] == x && p[1] == y)),
{
    let q = ps.push(p);
    if listed(q, x, y) {
        let t = choose|t: int| 0 <= t < q.len() && (#[trigger] q[t])[0] == x && q[t][1] == y;
        if t < ps.len() {
            assert(ps[t] == q[t]);
        }
    }
    if listed(ps, x, y) {
        let t = choose|t: int| 0 <= t < ps.len() && (#[trigger] ps[t])[0] == x && ps[t][1] == y;
        assert(q[t] == ps[t]);
    }
    if p[0] == x && p[1] == y {
        assert(q[ps.len() as int] == p);
    }
}


/// Law: on a running board whose mines are laid, the move `hint` gives is
/// the one picked out of what `infer` returns: the first covered cell that
/// `infer` finds safe, else the first covered cell it finds to be a mine,
/// else no move.
pub proof fn lemma_hint_follows_infer(g: Game)
    requires
        g.wf(),
        g.placed,
        !g.over,
    ensures
        hint_of(g) == hint_from(g, infer_rounds(g).mines, infer_rounds(g).safes),
        (forall|k: int|
            first_covered_in(g, infer_rounds(g).safes, 0) == Option::Some(k) ==> hint_of(g) == (
            Hint::Reveal { x: g.cells@[k].x, y: g.cells@[k].y })),
        first_covered_in(g, infer_rounds(g).safes, 0) is None ==> (forall|k: int|
            first_covered_in(g, infer_rounds(g).mines, 0) == Option::Some(k) ==> hint_of(g) == (
            Hint::Flag { x: g.cells@[k].x, y: g.cells@[k].y })),
        first_covered_in(g, infer_rounds(g).safes, 0) is None && first_covered_in(
            g,
            infer_rounds(g).mines,
            0,
        ) is None ==> hint_of(g) == Hint::NoMove,
{
}

/// `new` is `g` after playing the move `h`.
pub open spec fn played(g: Game, h: Hint, new: Game) -> bool {
    match h {
        Hint::Reveal { x, y } => reveal_rel(g, x as int, y as int, new),
        Hint::Flag { x, y } => flag_rel(g, x as int, y as int, new),
        Hint::NoMove => new == g,
    }
}

/// Law: certain hints never hit a mine. Playing a certain move on a
/// consistent placed board never loses and leaves the board consistent, so
/// hint after hint can be played.
pub proof fn lemma_hint_move_safe(g: Game, h: Hint, new: Game)
    requires
        g.consistent(),
        g.placed,
        !g.over,
        !g.won,
        certain(g, h),
        played(g, h, new),
    ensures
        new.consistent(),
        !(new.over && !new.won),
{
    lemma_size_bound(&g);
    match h {
        Hint::Reveal { x, y } => {
            let k = choose|k: int|
                0 <= k < g.size() && (#[trigger] g.cells@[k]).x == x && g.cells@[k].y == y && covered(
                    g,
                    k,
                ) && !g.cells@[k].mine;
            lemma_cell_at(&g, x as int, y as int);
            lemma_coords_unique(&g, k, y * g.width + x);
            lemma_reveal_placed(g, x as int, y as int, new);
            lemma_reveal_keeps_consistent(g, x as int, y as int, new);
        },
        Hint::Flag { x, y } => {
            let k = choose|k: int|
                0 <= k < g.size() && (#[trigger] g.cells@[k]).x == x && g.cells@[k].y == y && covered(
                    g,
                    k,
                ) && g.cells@[k].mine;
            lemma_cell_at(&g, x as int, y as int);
            lemma_coords_unique(&g, k, y * g.width + x);
            assert(new.cells@ == g.cells@.update(k, with_flagged(g.cells@[k], true)));
            assert(crate::board::same_layout(g, new));
            assert forall|j: int| 0 <= j < new.size() implies {
                &&& ((#[trigger] new.cells@[j]).flagged ==> new.cells@[j].mine)
                &&& (new.cells@[j].revealed ==> !new.cells@[j].mine)
                &&& (!new.cells@[j].mine ==> new.cells@[j].adj as int == new.mines_around(j))
            } by {
                lemma_same_layout_around(g, new, j);
            }
            lemma_count_ext(|j: int| g.cells@[j].mine, |j: int| new.cells@[j].mine, g.size());
        },
        Hint::NoMove => {},
    }
}

} // verus!
