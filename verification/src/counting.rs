//! Counting cells of a board by a property, and the facts about such counts
//! that the board rules and the solver rest on.
use vstd::prelude::*;

verus! {

/// The number of indices `i` in `0..n` for which `p(i)` holds.
pub open spec fn count_below(p: spec_fn(int) -> bool, n: int) -> nat
    decreases n,
{
    if n <= 0 {
        0
    } else {
        count_below(p, n - 1) + if p(n - 1) {
            1nat
        } else {
            0nat
        }
    }
}

/// The number of entries of `q` for which `p` holds.
pub open spec fn seq_count(q: Seq<usize>, p: spec_fn(int) -> bool) -> nat
    decreases q.len(),
{
    if q.len() == 0 {
        0
    } else {
        seq_count(q.drop_last(), p) + if p(q.last() as int) {
            1nat
        } else {
            0nat
        }
    }
}

/// Counts only depend on the values of the property below the bound.
pub proof fn lemma_count_ext(p: spec_fn(int) -> bool, q: spec_fn(int) -> bool, n: int)
    requires
        forall|i: int| 0 <= i < n ==> #[trigger] p(i) == q(i),
    ensures
        count_below(p, n) == count_below(q, n),
    decreases n,
{
    if n > 0 {
        lemma_count_ext(p, q, n - 1);
    }
}

/// A count splits along any second property.
pub proof fn lemma_count_split(p: spec_fn(int) -> bool, q: spec_fn(int) -> bool, n: int)
    ensures
        count_below(p, n) == count_below(|i: int| p(i) && q(i), n) + count_below(
            |i: int| p(i) && !q(i),
            n,
        ),
    decreases n,
{
    if n > 0 {
        lemma_count_split(p, q, n - 1);
    }
}

/// Counts are monotone in the property, and equal counts of nested properties
/// mean the properties agree below the bound.
pub proof fn lemma_count_mono(p: spec_fn(int) -> bool, q: spec_fn(int) -> bool, n: int)
    requires
        forall|i: int| 0 <= i < n && #[trigger] p(i) ==> q(i),
    ensures
        count_below(p, n) <= count_below(q, n),
        count_below(p, n) == count_below(q, n) ==> forall|i: int|
            0 <= i < n && #[trigger] q(i) ==> p(i),
    decreases n,
{
    if n > 0 {
        lemma_count_mono(p, q, n - 1);
    }
}

/// An index below the bound either has the property or not, so the two
/// counts add up to the bound.
pub proof fn lemma_count_complement(p: spec_fn(int) -> bool, q: spec_fn(int) -> bool, n: int)
    requires
        forall|i: int| 0 <= i < n ==> #[trigger] q(i) == !p(i),
    ensures
        n >= 0 ==> count_below(p, n) + count_below(q, n) == n,
    decreases n,
{
    if n > 0 {
        lemma_count_complement(p, q, n - 1);
    }
}

/// A count is at most the bound; a count of zero means the property never holds.
pub proof fn lemma_count_bound(p: spec_fn(int) -> bool, n: int)
    ensures
        n >= 0 ==> count_below(p, n) <= n,
        count_below(p, n) == 0 ==> forall|i: int| 0 <= i < n ==> !#[trigger] p(i),
        n >= 0 && count_below(p, n) == n ==> forall|i: int| 0 <= i < n ==> #[trigger] p(i),
    decreases n,
{
    if n > 0 {
        lemma_count_bound(p, n - 1);
    }
}

/// Taking one index out of a property lowers its count by one exactly when
/// the property held there.
pub proof fn lemma_count_single(p: spec_fn(int) -> bool, k: int, n: int)
    ensures
        count_below(p, n) == count_below(|i: int| p(i) && i != k, n) + if 0 <= k < n && p(k) {
            1nat
        } else {
            0nat
        },
    decreases n,
{
    if n > 0 {
        lemma_count_single(p, k, n - 1);
    }
}

/// Counting along a sequence without repeats equals counting its members
/// below a bound that exceeds every entry.
pub proof fn lemma_seq_count(q: Seq<usize>, p: spec_fn(int) -> bool, n: int)
    requires
        q.no_duplicates(),
        n <= usize::MAX,
        forall|j: int| 0 <= j < q.len() ==> #[trigger] q[j] < n,
    ensures
        seq_count(q, p) == count_below(|i: int| 0 <= i && q.contains(i as usize) && p(i), n),
    decreases q.len(),
{
    let f = |i: int| 0 <= i && q.contains(i as usize) && p(i);
    if q.len() == 0 {
        lemma_count_ext(f, |i: int| false, n);
        lemma_count_bound(|i: int| false, n);
        assert(count_below(|i: int| false, n) == 0) by {
            lemma_count_zero(n);
        }
    } else {
        let r = q.drop_last();
        let x = q.last();
        assert forall|a: int, b: int| 0 <= a < b < r.len() implies r[a] != r[b] by {
            assert(q[a] == r[a] && q[b] == r[b]);
        }
        assert(r.no_duplicates());
        assert forall|j: int| 0 <= j < r.len() implies #[trigger] r[j] < n by {
            assert(q[j] == r[j]);
        }
        lemma_seq_count(r, p, n);
        let g = |i: int| 0 <= i && r.contains(i as usize) && p(i);
        lemma_count_single(f, x as int, n);
        assert(!r.contains(x)) by {
            if r.contains(x) {
                let j = choose|j: int| 0 <= j < r.len() && r[j] == x;
                assert(q[j] == q[q.len() - 1]);
            }
        }
        assert forall|i: int| 0 <= i < n implies (f(i) && i != x as int) == #[trigger] g(i) by {
            if 0 <= i && i != x as int {
                if q.contains(i as usize) {
                    let j = choose|j: int| 0 <= j < q.len() && q[j] == i as usize;
                    assert(j != q.len() - 1);
                    assert(r[j] == i as usize);
                }
                if r.contains(i as usize) {
                    let j = choose|j: int| 0 <= j < r.len() && r[j] == i as usize;
                    assert(q[j] == i as usize);
                }
            }
        }
        lemma_count_ext(|i: int| f(i) && i != x as int, g, n);
        assert(q[q.len() - 1] == x);
        assert(q.contains(x));
    }
}

/// The always-false property has count zero.
pub proof fn lemma_count_zero(n: int)
    ensures
        count_below(|i: int| false, n) == 0,
    decreases n,
{
    if n > 0 {
        lemma_count_zero(n - 1);
    }
}

/// A sequence without repeats, below a bound, has as many entries as members.
pub proof fn lemma_seq_len_count(q: Seq<usize>, n: int)
    requires
        q.no_duplicates(),
        n <= usize::MAX,
        forall|j: int| 0 <= j < q.len() ==> #[trigger] q[j] < n,
    ensures
        q.len() == count_below(|i: int| 0 <= i && q.contains(i as usize), n),
    decreases q.len(),
{
    let t = |i: int| true;
    lemma_seq_count(q, t, n);
    lemma_seq_count_true(q);
    lemma_count_ext(
        |i: int| 0 <= i && q.contains(i as usize) && t(i),
        |i: int| 0 <= i && q.contains(i as usize),
        n,
    );
}

/// Counting along a sequence by the always-true property gives its length.
pub proof fn lemma_seq_count_true(q: Seq<usize>)
    ensures
        seq_count(q, |i: int| true) == q.len(),
    decreases q.len(),
{
    if q.len() > 0 {
        lemma_seq_count_true(q.drop_last());
    }
}


/// Turning the property on at one index where it was off raises the count by one.
pub proof fn lemma_count_flip(p: spec_fn(int) -> bool, q: spec_fn(int) -> bool, k: int, n: int)
    requires
        0 <= k < n,
        !p(k),
        q(k),
        forall|i: int| 0 <= i < n && i != k ==> #[trigger] p(i) == q(i),
    ensures
        count_below(q, n) == count_below(p, n) + 1,
{
    lemma_count_single(p, k, n);
    lemma_count_single(q, k, n);
    lemma_count_ext(|i: int| p(i) && i != k, |i: int| q(i) && i != k, n);
}

} // verus!
