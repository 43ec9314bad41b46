//! What every generator run guarantees of the sequence it returns, whatever
//! the visiting order.

use vstd::prelude::*;
use crate::coverage::{
    ALPHABET_SIZE, FIRST_LETTER, letter_index, word_fits, grid_wf, grid_full, empty_grid, marginal,
    apply_word,
};
use crate::counting::{
    grid_count, lemma_count_apply, lemma_apply_wf, lemma_gain_bounds, lemma_count_empty,
    lemma_count_full, lemma_count_le,
};
use crate::generator::{visit_order, dict_fits, steps_fit, has_candidate, is_pick, pick, run_from, outcome};

verus! {

/// The coverage left by laying the words of `s`, in order, over `c`.
pub open spec fn cover_of(c: Seq<Seq<bool>>, s: Seq<(Seq<u8>, nat)>) -> Seq<Seq<bool>>
    decreases s.len(),
{
    if s.len() == 0 {
        c
    } else {
        apply_word(cover_of(c, s.drop_last()), s.last().0)
    }
}

/// Each recorded score is the marginal coverage its word added over `c` and
/// the words before it, and is at least one.
pub open spec fn scores_recorded(c: Seq<Seq<bool>>, s: Seq<(Seq<u8>, nat)>) -> bool {
    forall|i: int|
        0 <= i < s.len() ==> (#[trigger] s[i]).1 == marginal(cover_of(c, s.take(i)), s[i].0) && s[i].1
            >= 1
}

/// Every word of `s` is a word of the dictionary.
pub open spec fn from_dict(dict: Seq<Seq<u8>>, s: Seq<(Seq<u8>, nat)>) -> bool {
    forall|i: int| 0 <= i < s.len() ==> dict.contains((#[trigger] s[i]).0)
}

/// The sum of the recorded scores.
pub open spec fn score_sum(s: Seq<(Seq<u8>, nat)>) -> nat
    decreases s.len(),
{
    if s.len() == 0 {
        0
    } else {
        score_sum(s.drop_last()) + s.last().1
    }
}

/// `s` is what a run may return: a complete cover shorter than `bound`, made
/// of dictionary words, whose recorded scores are the marginal coverage each
/// word added, between one and `width`, summing to `width * letters`.
pub open spec fn sound_cover(dict: Seq<Seq<u8>>, width: nat, letters: nat, bound: nat, s: Seq<(Seq<u8>, nat)>) -> bool {
    &&& s.len() < bound
    &&& grid_full(cover_of(empty_grid(width, letters), s))
    &&& scores_recorded(empty_grid(width, letters), s)
    &&& forall|i: int| 0 <= i < s.len() ==> (#[trigger] s[i]).1 <= width
    &&& from_dict(dict, s)
    &&& score_sum(s) == width * letters
}

/// Some pair (position, letter) is placed by no dictionary word.
pub open spec fn pair_unreachable(dict: Seq<Seq<u8>>, width: nat, letters: nat) -> bool {
    exists|p: usize, l: u8|
        p < width && FIRST_LETTER <= l < FIRST_LETTER + letters && !has_candidate(dict, p as int, l)
}

/// Whenever some word has `l` at `p`, the greedy choice for (`p`, `l`) exists.
pub proof fn lemma_pick_exists(dict: Seq<Seq<u8>>, c: Seq<Seq<bool>>, p: int, l: u8)
    requires
        has_candidate(dict, p, l),
    ensures
        is_pick(dict, c, p, l, pick(dict, c, p, l)),
{
    lemma_pick_in_prefix(dict, c, p, l, dict.len() as int);
    let i = choose|i: int| is_pick_upto(dict, c, p, l, dict.len() as int, i);
    assert(is_pick(dict, c, p, l, i));
}

/// `i` is the greedy choice for (`p`, `l`) among the first `n` words.
spec fn is_pick_upto(dict: Seq<Seq<u8>>, c: Seq<Seq<bool>>, p: int, l: u8, n: int, i: int) -> bool {
    &&& 0 <= i < n
    &&& dict[i][p] == l
    &&& forall|j: int| 0 <= j < n && (#[trigger] dict[j])[p] == l ==> marginal(c, dict[j]) <= marginal(c, dict[i])
    &&& forall|j: int| 0 <= j < i && (#[trigger] dict[j])[p] == l ==> marginal(c, dict[j]) < marginal(c, dict[i])
}

proof fn lemma_pick_in_prefix(dict: Seq<Seq<u8>>, c: Seq<Seq<bool>>, p: int, l: u8, n: int)
    requires
        0 <= n <= dict.len(),
        exists|j: int| 0 <= j < n && (#[trigger] dict[j])[p] == l,
    ensures
        exists|i: int| is_pick_upto(dict, c, p, l, n, i),
    decreases n,
{
    if exists|j: int| 0 <= j < n - 1 && (#[trigger] dict[j])[p] == l {
        let m = n - 1;
        lemma_pick_in_prefix(dict, c, p, l, m);
        let i = choose|i: int| is_pick_upto(dict, c, p, l, m, i);
        if dict[n - 1][p] == l && marginal(c, dict[n - 1]) > marginal(c, dict[i]) {
            assert(is_pick_upto(dict, c, p, l, n, n - 1));
        } else {
            assert(is_pick_upto(dict, c, p, l, n, i));
        }
    } else {
        assert(is_pick_upto(dict, c, p, l, n, n - 1));
    }
}

/// The facts a run keeps of the sequence built so far: its scores are
/// recorded, its words come from the dictionary, and the coverage it leaves
/// is well formed and counts the sum of its scores.
pub open spec fn run_state_ok(dict: Seq<Seq<u8>>, width: nat, letters: nat, acc: Seq<(Seq<u8>, nat)>) -> bool {
    &&& scores_recorded(empty_grid(width, letters), acc)
    &&& from_dict(dict, acc)
    &&& grid_wf(cover_of(empty_grid(width, letters), acc), letters)
    &&& cover_of(empty_grid(width, letters), acc).len() == width
    &&& grid_count(cover_of(empty_grid(width, letters), acc)) == score_sum(acc)
}

/// Recording dictionary word `i` with its marginal coverage, when that is at
/// least one, keeps the facts of `run_state_ok`.
proof fn lemma_push_pick(dict: Seq<Seq<u8>>, width: nat, letters: nat, acc: Seq<(Seq<u8>, nat)>, i: int)
    requires
        dict_fits(dict, width, letters),
        run_state_ok(dict, width, letters, acc),
        0 <= i < dict.len(),
        marginal(cover_of(empty_grid(width, letters), acc), dict[i]) >= 1,
    ensures
        ({
            let c = cover_of(empty_grid(width, letters), acc);
            let next = acc.push((dict[i], marginal(c, dict[i])));
            &&& run_state_ok(dict, width, letters, next)
            &&& cover_of(empty_grid(width, letters), next) == apply_word(c, dict[i])
        }),
{
    let e = empty_grid(width, letters);
    let c = cover_of(e, acc);
    let w = dict[i];
    assert(word_fits(w, width, letters));
    let next = acc.push((w, marginal(c, w)));
    assert(next.drop_last() =~= acc);
    assert(cover_of(e, next) == apply_word(c, w));
    lemma_count_apply(c, w, letters);
    lemma_apply_wf(c, w, letters);
    assert(scores_recorded(e, next)) by {
        assert forall|j: int| 0 <= j < next.len() implies (#[trigger] next[j]).1 == marginal(
            cover_of(e, next.take(j)),
            next[j].0,
        ) && next[j].1 >= 1 by {
            if j < acc.len() {
                assert(next.take(j) =~= acc.take(j));
                assert(next[j] == acc[j]);
            } else {
                assert(next.take(j) =~= acc);
            }
        }
    }
    assert(from_dict(dict, next)) by {
        assert forall|j: int| 0 <= j < next.len() implies dict.contains((#[trigger] next[j]).0) by {
            if j < acc.len() {
                assert(next[j] == acc[j]);
            } else {
                assert(dict[i] == next[j].0);
            }
        }
    }
}

/// What holds of the sequence built so far carries over to what the rest of
/// the run returns.
proof fn lemma_run_from(
    dict: Seq<Seq<u8>>,
    width: nat,
    letters: nat,
    bound: nat,
    steps: Seq<(usize, u8)>,
    k: nat,
    acc: Seq<(Seq<u8>, nat)>,
)
    requires
        dict_fits(dict, width, letters),
        steps_fit(steps, width, letters),
        acc.len() < bound,
        run_state_ok(dict, width, letters, acc),
        run_from(dict, bound, steps, k, cover_of(empty_grid(width, letters), acc), acc) is Some,
    ensures
        ({
            let s = run_from(dict, bound, steps, k, cover_of(empty_grid(width, letters), acc), acc)->0;
            &&& s.len() < bound
            &&& scores_recorded(empty_grid(width, letters), s)
            &&& from_dict(dict, s)
            &&& grid_full(cover_of(empty_grid(width, letters), s))
            &&& grid_wf(cover_of(empty_grid(width, letters), s), letters)
            &&& cover_of(empty_grid(width, letters), s).len() == width
            &&& grid_count(cover_of(empty_grid(width, letters), s)) == score_sum(s)
        }),
    decreases steps.len() - k,
{
    let e = empty_grid(width, letters);
    let c = cover_of(e, acc);
    if k < steps.len() {
        let p = steps[k as int].0 as int;
        let l = steps[k as int].1;
        if c[p][letter_index(l)] {
            lemma_run_from(dict, width, letters, bound, steps, k + 1, acc);
        } else {
            let i = pick(dict, c, p, l);
            lemma_pick_exists(dict, c, p, l);
            lemma_gain_bounds(c, dict[i], dict[i].len(), p);
            lemma_push_pick(dict, width, letters, acc, i);
            let next = acc.push((dict[i], marginal(c, dict[i])));
            lemma_run_from(dict, width, letters, bound, steps, k + 1, next);
        }
    }
}

/// Every sequence a run returns is a complete cover shorter than the bound,
/// made of dictionary words. Each recorded score is the marginal coverage its
/// word added over the words before it, between one and the word length, and
/// the scores add up to the number of pairs, `width * letters`.
pub proof fn lemma_outcome_is_cover(
    dict: Seq<Seq<u8>>,
    width: nat,
    letters: nat,
    bound: nat,
    steps: Seq<(usize, u8)>,
)
    requires
        dict_fits(dict, width, letters),
        steps_fit(steps, width, letters),
        outcome(dict, width, letters, bound, steps) is Some,
    ensures
        ({
            let s = outcome(dict, width, letters, bound, steps)->0;
            &&& s.len() < bound
            &&& grid_full(cover_of(empty_grid(width, letters), s))
            &&& scores_recorded(empty_grid(width, letters), s)
            &&& forall|i: int| 0 <= i < s.len() ==> (#[trigger] s[i]).1 <= width
            &&& from_dict(dict, s)
            &&& score_sum(s) == width * letters
            &&& grid_wf(cover_of(empty_grid(width, letters), s), letters)
            &&& cover_of(empty_grid(width, letters), s).len() == width
        }),
{
    let e = empty_grid(width, letters);
    let acc: Seq<(Seq<u8>, nat)> = seq![];
    assert(cover_of(e, acc) == e);
    lemma_count_empty(width, letters);
    lemma_run_from(dict, width, letters, bound, steps, 0, acc);
    let s = outcome(dict, width, letters, bound, steps)->0;
    lemma_count_full(cover_of(e, s), letters);
    assert forall|i: int| 0 <= i < s.len() implies (#[trigger] s[i]).1 <= width by {
        assert(dict.contains(s[i].0));
        let j = choose|j: int| 0 <= j < dict.len() && dict[j] == s[i].0;
        assert(word_fits(dict[j], width, letters));
        lemma_gain_bounds(cover_of(e, s.take(i)), s[i].0, s[i].0.len(), 0);
    }
}


/// A run against a bound of zero returns nothing.
pub proof fn lemma_bound_zero(dict: Seq<Seq<u8>>, width: nat, letters: nat, steps: Seq<(usize, u8)>)
    ensures
        outcome(dict, width, letters, 0, steps) is None,
{
}

/// A run against a bound of one returns a sequence only when there is no
/// pair to cover at all: no single word covers more than one letter of a
/// position, so no non-empty matrix is covered by fewer than one word.
pub proof fn lemma_bound_one(dict: Seq<Seq<u8>>, width: nat, letters: nat, steps: Seq<(usize, u8)>)
    requires
        dict_fits(dict, width, letters),
        steps_fit(steps, width, letters),
        outcome(dict, width, letters, 1, steps) is Some,
    ensures
        width == 0 || letters == 0,
{
    lemma_outcome_is_cover(dict, width, letters, 1, steps);
    let s = outcome(dict, width, letters, 1, steps)->0;
    let e = empty_grid(width, letters);
    assert(s.len() == 0);
    assert(cover_of(e, s) == e);
    if width > 0 && letters > 0 {
        assert(!e[0][0]);
    }
}

/// Laying fitting words over a matrix keeps its shape.
proof fn lemma_cover_wf(c: Seq<Seq<bool>>, s: Seq<(Seq<u8>, nat)>, letters: nat)
    requires
        grid_wf(c, letters),
        forall|i: int| 0 <= i < s.len() ==> word_fits((#[trigger] s[i]).0, c.len(), letters),
    ensures
        grid_wf(cover_of(c, s), letters),
        cover_of(c, s).len() == c.len(),
    decreases s.len(),
{
    if s.len() > 0 {
        lemma_cover_wf(c, s.drop_last(), letters);
        assert(word_fits(s[s.len() - 1].0, c.len(), letters));
        lemma_apply_wf(cover_of(c, s.drop_last()), s.last().0, letters);
    }
}

/// A pair covered after laying `s` over `c` was covered in `c` or is placed
/// by one of the words of `s`.
proof fn lemma_covered_by_word(c: Seq<Seq<bool>>, s: Seq<(Seq<u8>, nat)>, letters: nat, p: int, x: int)
    requires
        grid_wf(c, letters),
        forall|i: int| 0 <= i < s.len() ==> word_fits((#[trigger] s[i]).0, c.len(), letters),
        0 <= p < c.len(),
        0 <= x < letters,
        cover_of(c, s)[p][x],
    ensures
        c[p][x] || exists|i: int| 0 <= i < s.len() && letter_index((#[trigger] s[i]).0[p]) == x,
    decreases s.len(),
{
    if s.len() > 0 {
        let d = s.drop_last();
        let w = s.last().0;
        assert(word_fits(s[s.len() - 1].0, c.len(), letters));
        lemma_cover_wf(c, d, letters);
        let prev = cover_of(c, d);
        assert(cover_of(c, s)[p] == prev[p].update(letter_index(w[p]), true));
        if letter_index(w[p]) != x {
            assert(prev[p][x]);
            lemma_covered_by_word(c, d, letters, p, x);
            if !c[p][x] {
                let i = choose|i: int| 0 <= i < d.len() && letter_index((#[trigger] d[i]).0[p]) == x;
                assert(s[i] == d[i]);
            }
        } else {
            assert(letter_index(s[s.len() - 1].0[p]) == x);
        }
    }
}

/// When no dictionary word has letter `l` at position `p`, no run returns a
/// sequence.
pub proof fn lemma_unreachable_pair(
    dict: Seq<Seq<u8>>,
    width: nat,
    letters: nat,
    bound: nat,
    steps: Seq<(usize, u8)>,
    p: int,
    l: u8,
)
    requires
        dict_fits(dict, width, letters),
        steps_fit(steps, width, letters),
        0 <= p < width,
        FIRST_LETTER <= l < FIRST_LETTER + letters,
        !has_candidate(dict, p, l),
    ensures
        outcome(dict, width, letters, bound, steps) is None,
{
    if outcome(dict, width, letters, bound, steps) is Some {
        lemma_outcome_is_cover(dict, width, letters, bound, steps);
        let s = outcome(dict, width, letters, bound, steps)->0;
        let e = empty_grid(width, letters);
        assert forall|i: int| 0 <= i < s.len() implies word_fits((#[trigger] s[i]).0, e.len(), letters) by {
            assert(dict.contains(s[i].0));
            let j = choose|j: int| 0 <= j < dict.len() && dict[j] == s[i].0;
            assert(word_fits(dict[j], width, letters));
        }
        let x = letter_index(l);
        assert(cover_of(e, s)[p][x]);
        lemma_covered_by_word(e, s, letters, p, x);
        let i = choose|i: int| 0 <= i < s.len() && letter_index((#[trigger] s[i]).0[p]) == x;
        assert(dict.contains(s[i].0));
        let j = choose|j: int| 0 <= j < dict.len() && dict[j] == s[i].0;
        assert(dict[j][p] == l);
    }
}

/// A word adds nothing over a matrix it has already been laid over.
proof fn lemma_marginal_after_apply(c: Seq<Seq<bool>>, w: Seq<u8>, letters: nat, n: nat)
    requires
        grid_wf(c, letters),
        word_fits(w, c.len(), letters),
        n <= w.len(),
    ensures
        crate::coverage::gain(apply_word(c, w), w, n) == 0,
    decreases n,
{
    if n > 0 {
        let q = n - 1;
        assert(FIRST_LETTER <= w[q] < FIRST_LETTER + letters);
        assert(apply_word(c, w)[q] == c[q].update(letter_index(w[q]), true));
        lemma_marginal_after_apply(c, w, letters, (n - 1) as nat);
    }
}

/// In a returned sequence no word directly follows itself: every recorded
/// score is at least one, and a word laid a second time adds nothing.
pub proof fn lemma_no_adjacent_repeat(
    dict: Seq<Seq<u8>>,
    width: nat,
    letters: nat,
    bound: nat,
    s: Seq<(Seq<u8>, nat)>,
    i: int,
)
    requires
        dict_fits(dict, width, letters),
        sound_cover(dict, width, letters, bound, s),
        0 <= i < s.len() - 1,
    ensures
        s[i].0 != s[i + 1].0,
{
    let e = empty_grid(width, letters);
    assert forall|j: int| 0 <= j < s.len() implies word_fits((#[trigger] s[j]).0, e.len(), letters) by {
        assert(dict.contains(s[j].0));
        let k = choose|k: int| 0 <= k < dict.len() && dict[k] == s[j].0;
        assert(word_fits(dict[k], width, letters));
    }
    let before = s.take(i);
    let after = s.take(i + 1);
    assert(after.drop_last() =~= before);
    assert(after.last() == s[i]);
    assert(forall|j: int| 0 <= j < before.len() ==> before[j] == s[j]);
    lemma_cover_wf(e, before, letters);
    assert(s[i + 1].1 >= 1);
    if s[i].0 == s[i + 1].0 {
        assert(word_fits(s[i].0, e.len(), letters));
        lemma_marginal_after_apply(cover_of(e, before), s[i].0, letters, s[i].0.len());
    }
}

/// A sequence whose scores are all at least one is no longer than their sum.
proof fn lemma_len_le_sum(s: Seq<(Seq<u8>, nat)>)
    requires
        forall|i: int| 0 <= i < s.len() ==> (#[trigger] s[i]).1 >= 1,
    ensures
        s.len() <= score_sum(s),
    decreases s.len(),
{
    if s.len() > 0 {
        let d = s.drop_last();
        assert(forall|i: int| 0 <= i < d.len() ==> d[i] == s[i]);
        lemma_len_le_sum(d);
        assert(s[s.len() - 1].1 >= 1);
    }
}

/// From step `k` on, a run in which every pair is reachable and the bound
/// exceeds the number of pairs returns a sequence, provided every pair named
/// before step `k` is covered and every pair is named somewhere.
proof fn lemma_run_completes(
    dict: Seq<Seq<u8>>,
    width: nat,
    letters: nat,
    bound: nat,
    steps: Seq<(usize, u8)>,
    k: nat,
    acc: Seq<(Seq<u8>, nat)>,
)
    requires
        letters <= ALPHABET_SIZE,
        width <= usize::MAX,
        dict_fits(dict, width, letters),
        steps_fit(steps, width, letters),
        forall|p: usize, l: u8|
            p < width && FIRST_LETTER <= l < FIRST_LETTER + letters ==> steps.contains((p, l)),
        !pair_unreachable(dict, width, letters),
        width * letters < bound,
        k <= steps.len(),
        run_state_ok(dict, width, letters, acc),
        acc.len() <= score_sum(acc),
        forall|j: int|
            0 <= j < k ==> cover_of(empty_grid(width, letters), acc)[(#[trigger] steps[j]).0 as int][letter_index(
                steps[j].1,
            )],
    ensures
        run_from(dict, bound, steps, k, cover_of(empty_grid(width, letters), acc), acc) is Some,
    decreases steps.len() - k,
{
    let e = empty_grid(width, letters);
    let c = cover_of(e, acc);
    if k == steps.len() {
        assert forall|p: int, x: int| 0 <= p < c.len() && 0 <= x < c[p].len() implies #[trigger] c[p][x] by {
            assert(c[p].len() == letters);
            let l = (FIRST_LETTER + x) as u8;
            assert(steps.contains((p as usize, l)));
            let j = choose|j: int| 0 <= j < steps.len() && steps[j] == (p as usize, l);
            assert(c[steps[j].0 as int][letter_index(steps[j].1)]);
        }
    } else {
        let p = steps[k as int].0 as int;
        let l = steps[k as int].1;
        if c[p][letter_index(l)] {
            lemma_run_completes(dict, width, letters, bound, steps, k + 1, acc);
        } else {
            if !has_candidate(dict, p, l) {
                assert(pair_unreachable(dict, width, letters));
            }
            let i = pick(dict, c, p, l);
            lemma_pick_exists(dict, c, p, l);
            let w = dict[i];
            assert(word_fits(w, width, letters));
            lemma_gain_bounds(c, w, w.len(), p);
            lemma_push_pick(dict, width, letters, acc, i);
            let next = acc.push((w, marginal(c, w)));
            let c2 = cover_of(e, next);
            assert(next.drop_last() =~= acc);
            lemma_count_le(c2, letters);
            assert forall|j: int| 0 <= j < k + 1 implies c2[(#[trigger] steps[j]).0 as int][letter_index(
                steps[j].1,
            )] by {
                let q = steps[j].0 as int;
                assert(FIRST_LETTER <= w[q] < FIRST_LETTER + letters);
                assert(c2[q] == c[q].update(letter_index(w[q]), true));
            }
            lemma_run_completes(dict, width, letters, bound, steps, k + 1, next);
        }
    }
}

/// When every pair is placed by some dictionary word, a run over a visiting
/// order that names every pair, under a bound above the number of pairs,
/// always returns a cover: the greedy choice for a pair places that pair, and
/// every recorded word adds at least one pair.
pub proof fn lemma_reachable_pairs_cover(
    dict: Seq<Seq<u8>>,
    width: nat,
    letters: nat,
    bound: nat,
    steps: Seq<(usize, u8)>,
)
    requires
        letters <= ALPHABET_SIZE,
        width <= usize::MAX,
        dict_fits(dict, width, letters),
        visit_order(steps, width, letters),
        !pair_unreachable(dict, width, letters),
        width * letters < bound,
    ensures
        outcome(dict, width, letters, bound, steps) is Some,
{
    let e = empty_grid(width, letters);
    let acc: Seq<(Seq<u8>, nat)> = seq![];
    assert(cover_of(e, acc) == e);
    lemma_count_empty(width, letters);
    lemma_run_completes(dict, width, letters, bound, steps, 0, acc);
}

} // verus!
