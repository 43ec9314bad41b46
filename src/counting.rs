//! Counting covered pairs: laying a word over a matrix covers exactly as many
//! new pairs as its marginal coverage.

use vstd::prelude::*;
use crate::coverage::{FIRST_LETTER, letter_index, word_fits, grid_wf, grid_full, empty_grid, gain, marginal, apply_word};

verus! {

/// The number of covered cells in a row.
pub open spec fn row_count(r: Seq<bool>) -> nat
    decreases r.len(),
{
    if r.len() == 0 {
        0
    } else {
        row_count(r.drop_last()) + if r.last() {
            1nat
        } else {
            0nat
        }
    }
}

/// The number of covered pairs in a matrix.
pub open spec fn grid_count(c: Seq<Seq<bool>>) -> nat
    decreases c.len(),
{
    if c.len() == 0 {
        0
    } else {
        grid_count(c.drop_last()) + row_count(c.last())
    }
}

/// Covering one cell of a row adds one to its count exactly when the cell was open.
proof fn lemma_row_count_set(r: Seq<bool>, j: int)
    requires
        0 <= j < r.len(),
    ensures
        row_count(r.update(j, true)) == row_count(r) + if r[j] {
            0nat
        } else {
            1nat
        },
    decreases r.len(),
{
    let u = r.update(j, true);
    if j == r.len() - 1 {
        assert(u.drop_last() =~= r.drop_last());
    } else {
        assert(u.drop_last() =~= r.drop_last().update(j, true));
        lemma_row_count_set(r.drop_last(), j);
    }
}

/// Replacing one row changes the matrix's count by the difference of the rows' counts.
proof fn lemma_grid_count_update(c: Seq<Seq<bool>>, p: int, r: Seq<bool>)
    requires
        0 <= p < c.len(),
    ensures
        grid_count(c.update(p, r)) + row_count(c[p]) == grid_count(c) + row_count(r),
    decreases c.len(),
{
    let u = c.update(p, r);
    if p == c.len() - 1 {
        assert(u.drop_last() =~= c.drop_last());
    } else {
        assert(u.drop_last() =~= c.drop_last().update(p, r));
        lemma_grid_count_update(c.drop_last(), p, r);
    }
}

/// `c` with the letters of the first `n` positions of `w` covered.
spec fn apply_prefix(c: Seq<Seq<bool>>, w: Seq<u8>, n: int) -> Seq<Seq<bool>> {
    Seq::new(
        c.len(),
        |p: int|
            if p < n {
                c[p].update(letter_index(w[p]), true)
            } else {
                c[p]
            },
    )
}

proof fn lemma_count_prefix(c: Seq<Seq<bool>>, w: Seq<u8>, letters: nat, n: nat)
    requires
        grid_wf(c, letters),
        word_fits(w, c.len(), letters),
        n <= w.len(),
    ensures
        grid_count(apply_prefix(c, w, n as int)) == grid_count(c) + gain(c, w, n),
    decreases n,
{
    if n == 0 {
        assert(apply_prefix(c, w, 0) =~= c);
    } else {
        let m = (n - 1) as nat;
        lemma_count_prefix(c, w, letters, m);
        let prev = apply_prefix(c, w, m as int);
        let j = letter_index(w[m as int]);
        assert(apply_prefix(c, w, n as int) =~= prev.update(m as int, c[m as int].update(j, true)));
        lemma_grid_count_update(prev, m as int, c[m as int].update(j, true));
        lemma_row_count_set(c[m as int], j);
    }
}

/// Laying a word over a matrix adds its marginal coverage to the count of
/// covered pairs.
pub proof fn lemma_count_apply(c: Seq<Seq<bool>>, w: Seq<u8>, letters: nat)
    requires
        grid_wf(c, letters),
        word_fits(w, c.len(), letters),
    ensures
        grid_count(apply_word(c, w)) == grid_count(c) + marginal(c, w),
{
    lemma_count_prefix(c, w, letters, w.len());
    assert(apply_prefix(c, w, w.len() as int) =~= apply_word(c, w));
}

/// Laying a fitting word over a matrix keeps its shape.
pub proof fn lemma_apply_wf(c: Seq<Seq<bool>>, w: Seq<u8>, letters: nat)
    requires
        grid_wf(c, letters),
        word_fits(w, c.len(), letters),
    ensures
        grid_wf(apply_word(c, w), letters),
        apply_word(c, w).len() == c.len(),
{
    let a = apply_word(c, w);
    assert forall|p: int| 0 <= p < a.len() implies (#[trigger] a[p]).len() == letters by {
        assert(c[p].len() == letters);
        if p < w.len() {
            assert(FIRST_LETTER <= w[p] < FIRST_LETTER + letters);
            assert(a[p] == c[p].update(letter_index(w[p]), true));
        } else {
            assert(a[p] == c[p]);
        }
    }
}

/// The marginal coverage of the first `n` positions is at most `n`, and at
/// least one when one of them is open.
pub proof fn lemma_gain_bounds(c: Seq<Seq<bool>>, w: Seq<u8>, n: nat, q: int)
    ensures
        gain(c, w, n) <= n,
        0 <= q < n && !c[q][letter_index(w[q])] ==> gain(c, w, n) >= 1,
    decreases n,
{
    if n > 0 {
        lemma_gain_bounds(c, w, (n - 1) as nat, q);
    }
}

proof fn lemma_row_count_const(r: Seq<bool>, v: bool)
    requires
        forall|l: int| 0 <= l < r.len() ==> r[l] == v,
    ensures
        row_count(r) == if v {
            r.len()
        } else {
            0
        },
    decreases r.len(),
{
    if r.len() > 0 {
        lemma_row_count_const(r.drop_last(), v);
    }
}

/// A matrix with nothing covered counts zero.
pub proof fn lemma_count_empty(width: nat, letters: nat)
    ensures
        grid_count(empty_grid(width, letters)) == 0,
    decreases width,
{
    if width > 0 {
        let e = empty_grid(width, letters);
        assert(e.drop_last() =~= empty_grid((width - 1) as nat, letters));
        lemma_count_empty((width - 1) as nat, letters);
        lemma_row_count_const(e.last(), false);
    }
}

/// A full matrix of `c.len()` rows of `letters` columns counts every pair.
pub proof fn lemma_count_full(c: Seq<Seq<bool>>, letters: nat)
    requires
        grid_wf(c, letters),
        grid_full(c),
    ensures
        grid_count(c) == c.len() * letters,
    decreases c.len(),
{
    if c.len() > 0 {
        let d = c.drop_last();
        assert(grid_full(d)) by {
            assert forall|p: int, l: int| 0 <= p < d.len() && 0 <= l < d[p].len() implies #[trigger] d[p][l] by {
                assert(c[p][l]);
            }
        }
        lemma_count_full(d, letters);
        assert forall|l: int| 0 <= l < c.last().len() implies c.last()[l] == true by {
            assert(c[c.len() - 1][l]);
        }
        lemma_row_count_const(c.last(), true);
        let n = d.len();
        assert(n * letters + letters == (n + 1) * letters) by (nonlinear_arith);
    }
}

proof fn lemma_row_count_le(r: Seq<bool>)
    ensures
        row_count(r) <= r.len(),
    decreases r.len(),
{
    if r.len() > 0 {
        lemma_row_count_le(r.drop_last());
    }
}

/// A matrix of `c.len()` rows of `letters` columns counts at most every pair.
pub proof fn lemma_count_le(c: Seq<Seq<bool>>, letters: nat)
    requires
        grid_wf(c, letters),
    ensures
        grid_count(c) <= c.len() * letters,
    decreases c.len(),
{
    if c.len() > 0 {
        let d = c.drop_last();
        assert(grid_wf(d, letters)) by {
            assert forall|p: int| 0 <= p < d.len() implies (#[trigger] d[p]).len() == letters by {
                assert(c[p].len() == letters);
            }
        }
        lemma_count_le(d, letters);
        lemma_row_count_le(c.last());
        assert(c[c.len() - 1].len() == letters);
        let n = d.len();
        assert(n * letters + letters == (n + 1) * letters) by (nonlinear_arith);
    }
}

} // verus!
