//! The greedy cover generator: it visits (position, letter) pairs in a given
//! order and, for each pair not yet covered, takes the dictionary word with
//! that letter at that position which adds the most coverage.

use vstd::prelude::*;
use crate::random::shuffle;
use crate::soundness::{sound_cover, pair_unreachable, lemma_outcome_is_cover, lemma_unreachable_pair,
    lemma_reachable_pairs_cover};
use crate::coverage::{
    Coverage, ALPHABET_SIZE, FIRST_LETTER, letter_index, word_fits, marginal, apply_word,
    empty_grid, grid_full,
};

verus! {

/// A chosen word with the marginal coverage it added when it was chosen.
pub type ScoredWord = (Vec<u8>, usize);

/// The words of a dictionary as byte sequences.
pub open spec fn words_view(dict: Seq<Vec<u8>>) -> Seq<Seq<u8>> {
    dict.map_values(|w: Vec<u8>| w@)
}

/// A candidate sequence as (word, score) pairs of plain values.
pub open spec fn scored_view(s: Seq<ScoredWord>) -> Seq<(Seq<u8>, nat)> {
    s.map_values(|e: ScoredWord| (e.0@, e.1 as nat))
}

/// The view of a generator result.
pub open spec fn outcome_view(r: Option<Vec<ScoredWord>>) -> Option<Seq<(Seq<u8>, nat)>> {
    match r {
        Some(v) => Some(scored_view(v@)),
        None => None,
    }
}

/// Every word of the dictionary has `width` letters among the first `letters`.
pub open spec fn dict_fits(dict: Seq<Seq<u8>>, width: nat, letters: nat) -> bool {
    forall|i: int| 0 <= i < dict.len() ==> word_fits(#[trigger] dict[i], width, letters)
}

/// Every step of a visiting order names a position below `width` and one of
/// the first `letters` letters.
pub open spec fn steps_fit(steps: Seq<(usize, u8)>, width: nat, letters: nat) -> bool {
    forall|k: int|
        0 <= k < steps.len() ==> (#[trigger] steps[k]).0 < width && FIRST_LETTER <= steps[k].1
            && steps[k].1 < FIRST_LETTER + letters
}

/// Some dictionary word has letter `l` at position `p`.
pub open spec fn has_candidate(dict: Seq<Seq<u8>>, p: int, l: u8) -> bool {
    exists|i: int| 0 <= i < dict.len() && (#[trigger] dict[i])[p] == l
}

/// Word `i` is the greedy choice for the pair (`p`, `l`) over coverage `c`:
/// among the words with `l` at `p` it has the highest marginal coverage, and
/// it is the first in dictionary order to reach it.
pub open spec fn is_pick(dict: Seq<Seq<u8>>, c: Seq<Seq<bool>>, p: int, l: u8, i: int) -> bool {
    &&& 0 <= i < dict.len()
    &&& dict[i][p] == l
    &&& forall|j: int|
        0 <= j < dict.len() && (#[trigger] dict[j])[p] == l ==> marginal(c, dict[j]) <= marginal(
            c,
            dict[i],
        )
    &&& forall|j: int|
        0 <= j < i && (#[trigger] dict[j])[p] == l ==> marginal(c, dict[j]) < marginal(c, dict[i])
}

/// The greedy choice for the pair (`p`, `l`).
pub open spec fn pick(dict: Seq<Seq<u8>>, c: Seq<Seq<bool>>, p: int, l: u8) -> int {
    choose|i: int| is_pick(dict, c, p, l, i)
}

/// The rest of a generator run from step `k` on, with coverage `c` and the
/// words `acc` chosen so far.
pub open spec fn run_from(
    dict: Seq<Seq<u8>>,
    bound: nat,
    steps: Seq<(usize, u8)>,
    k: nat,
    c: Seq<Seq<bool>>,
    acc: Seq<(Seq<u8>, nat)>,
) -> Option<Seq<(Seq<u8>, nat)>>
    decreases steps.len() - k,
{
    if k >= steps.len() {
        if grid_full(c) {
            Some(acc)
        } else {
            None
        }
    } else {
        let p = steps[k as int].0 as int;
        let l = steps[k as int].1;
        if c[p][letter_index(l)] {
            run_from(dict, bound, steps, k + 1, c, acc)
        } else if !has_candidate(dict, p, l) {
            None
        } else {
            let w = dict[pick(dict, c, p, l)];
            let next = acc.push((w, marginal(c, w)));
            if next.len() >= bound {
                None
            } else {
                run_from(dict, bound, steps, k + 1, apply_word(c, w), next)
            }
        }
    }
}

/// What a generator run over the visiting order `steps` returns.
pub open spec fn outcome(
    dict: Seq<Seq<u8>>,
    width: nat,
    letters: nat,
    bound: nat,
    steps: Seq<(usize, u8)>,
) -> Option<Seq<(Seq<u8>, nat)>> {
    if bound == 0 {
        None
    } else {
        run_from(dict, bound, steps, 0, empty_grid(width, letters), seq![])
    }
}

/// At most one word is the greedy choice for a pair.
pub proof fn lemma_pick_unique(dict: Seq<Seq<u8>>, c: Seq<Seq<bool>>, p: int, l: u8, i: int, j: int)
    requires
        is_pick(dict, c, p, l, i),
        is_pick(dict, c, p, l, j),
    ensures
        i == j,
{
    if i < j {
        assert(dict[i][p] == l);
    } else if j < i {
        assert(dict[j][p] == l);
    }
}

/// The index of the greedy choice for the pair (`p`, `l`), or `None` when no
/// word has `l` at `p`.
pub fn pick_word(dict: &Vec<Vec<u8>>, cov: &Coverage, p: usize, l: u8) -> (r: Option<usize>)
    requires
        cov.wf(),
        p < cov@.len(),
        dict_fits(words_view(dict@), cov@.len(), cov.letters as nat),
    ensures
        match r {
            None => !has_candidate(words_view(dict@), p as int, l),
            Some(i) => is_pick(words_view(dict@), cov@, p as int, l, i as int),
        },
{
    let ghost d = words_view(dict@);
    let mut best: Option<(usize, usize)> = None;
    let mut i: usize = 0;
    while i < dict.len()
        invariant
            d == words_view(dict@),
            cov.wf(),
            p < cov@.len(),
            dict_fits(d, cov@.len(), cov.letters as nat),
            i <= dict@.len(),
            match best {
                None => forall|j: int| 0 <= j < i ==> (#[trigger] d[j])[p as int] != l,
                Some((b, bs)) => {
                    &&& b < i
                    &&& d[b as int][p as int] == l
                    &&& bs == marginal(cov@, d[b as int])
                    &&& forall|j: int|
                        0 <= j < i && (#[trigger] d[j])[p as int] == l ==> marginal(cov@, d[j]) <= bs
                    &&& forall|j: int|
                        0 <= j < b && (#[trigger] d[j])[p as int] == l ==> marginal(cov@, d[j]) < bs
                },
            },
        decreases dict@.len() - i,
    {
        assert(d[i as int] == dict@[i as int]@);
        assert(word_fits(d[i as int], cov@.len(), cov.letters as nat));
        if dict[i][p] == l {
            let s = cov.score(&dict[i]);
            match best {
                None => {
                    best = Some((i, s));
                },
                Some((b, bs)) => {
                    if s > bs {
                        best = Some((i, s));
                    }
                },
            }
        }
        i = i + 1;
    }
    match best {
        None => {
            assert(!has_candidate(d, p as int, l));
            None
        },
        Some((b, bs)) => Some(b),
    }
}

/// One generator run over the visiting order `steps`. For each (position,
/// letter) pair of `steps` that is not yet covered it records the greedy
/// choice with its marginal coverage, and lays it over the matrix. It returns
/// nothing when some pair has no word (a dead end), when the sequence reaches
/// `bound` words, or when pairs are left uncovered at the end.
pub fn generate_in_order(
    dict: &Vec<Vec<u8>>,
    width: usize,
    letters: usize,
    bound: usize,
    steps: &Vec<(usize, u8)>,
) -> (r: Option<Vec<ScoredWord>>)
    requires
        letters <= ALPHABET_SIZE,
        dict_fits(words_view(dict@), width as nat, letters as nat),
        steps_fit(steps@, width as nat, letters as nat),
    ensures
        outcome_view(r) == outcome(words_view(dict@), width as nat, letters as nat, bound as nat, steps@),
{
    let ghost d = words_view(dict@);
    if bound == 0 {
        return None;
    }
    let mut cov = Coverage::new(width, letters);
    let mut acc: Vec<ScoredWord> = Vec::new();
    let mut k: usize = 0;
    proof {
        assert(scored_view(acc@) =~= seq![]);
    }
    while k < steps.len()
        invariant
            d == words_view(dict@),
            0 < bound,
            cov.wf(),
            cov.letters == letters,
            cov@.len() == width,
            dict_fits(d, width as nat, letters as nat),
            steps_fit(steps@, width as nat, letters as nat),
            k <= steps@.len(),
            acc@.len() < bound,
            outcome(d, width as nat, letters as nat, bound as nat, steps@) == run_from(
                d,
                bound as nat,
                steps@,
                k as nat,
                cov@,
                scored_view(acc@),
            ),
        decreases steps@.len() - k,
    {
        let (p, l) = steps[k];
        assert(steps@[k as int] == (p, l));
        if !cov.is_covered(p, l) {
            match pick_word(dict, &cov, p, l) {
                None => {
                    return None;
                },
                Some(i) => {
                    proof {
                        lemma_pick_unique(d, cov@, p as int, l, i as int, pick(d, cov@, p as int, l));
                        assert(d[i as int] == dict@[i as int]@);
                    }
                    let w = dict[i].clone();
                    assert(w@ == d[i as int]);
                    let s = cov.score(&w);
                    let ghost before = scored_view(acc@);
                    acc.push((w, s));
                    assert(scored_view(acc@) =~= before.push((d[i as int], marginal(cov@, d[i as int]))));
                    if acc.len() >= bound {
                        return None;
                    }
                    cov.mark(&dict[i]);
                },
            }
        }
        k = k + 1;
    }
    if cov.is_full() {
        Some(acc)
    } else {
        None
    }
}

/// A visiting order of the randomized generator: it names every pair of
/// `width` positions and `letters` letters, and nothing else.
pub open spec fn visit_order(steps: Seq<(usize, u8)>, width: nat, letters: nat) -> bool {
    &&& steps.len() == width * letters
    &&& steps_fit(steps, width, letters)
    &&& forall|p: usize, l: u8|
        p < width && FIRST_LETTER <= l < FIRST_LETTER + letters ==> steps.contains((p, l))
}

/// Two sequences with the same multiset have the same length and elements.
proof fn lemma_same_elements<T>(a: Seq<T>, b: Seq<T>)
    requires
        a.to_multiset() == b.to_multiset(),
    ensures
        a.len() == b.len(),
        forall|x: T| a.contains(x) <==> b.contains(x),
{
    a.to_multiset_ensures();
    b.to_multiset_ensures();
    assert forall|x: T| a.contains(x) <==> b.contains(x) by {
        vstd::seq_lib::to_multiset_contains(a, x);
        vstd::seq_lib::to_multiset_contains(b, x);
    }
}

/// Builds a visiting order: the positions in a random order and, for each in
/// turn, the letters in a freshly shuffled order.
fn random_visit_order(width: usize, letters: usize) -> (r: Vec<(usize, u8)>)
    requires
        letters <= ALPHABET_SIZE,
    ensures
        visit_order(r@, width as nat, letters as nat),
{
    let mut rng = rand::thread_rng();
    let mut positions: Vec<usize> = Vec::new();
    let mut p: usize = 0;
    while p < width
        invariant
            p <= width,
            positions@ == Seq::new(p as nat, |q: int| q as usize),
        decreases width - p,
    {
        positions.push(p);
        p = p + 1;
        assert(positions@ =~= Seq::new(p as nat, |q: int| q as usize));
    }
    let mut order: Vec<u8> = Vec::new();
    let mut l: usize = 0;
    while l < letters
        invariant
            l <= letters,
            letters <= ALPHABET_SIZE,
            order@ == Seq::new(l as nat, |k: int| (FIRST_LETTER + k) as u8),
        decreases letters - l,
    {
        order.push(FIRST_LETTER + l as u8);
        l = l + 1;
        assert(order@ =~= Seq::new(l as nat, |k: int| (FIRST_LETTER + k) as u8));
    }
    let ghost letter_set = order@;
    assert forall|c: u8| FIRST_LETTER <= c < FIRST_LETTER + letters implies letter_set.contains(c) by {
        assert(letter_set[c - FIRST_LETTER] == c);
    }
    let ghost all_positions = positions@;
    shuffle(&mut positions, &mut rng);
    proof {
        lemma_same_elements(positions@, all_positions);
    }
    assert forall|q: usize| q < width implies positions@.contains(q) by {
        assert(all_positions[q as int] == q);
        assert(all_positions.contains(q));
    }
    assert forall|k: int| 0 <= k < width implies #[trigger] positions@[k] < width by {
        assert(positions@.contains(positions@[k]));
        assert(all_positions.contains(positions@[k]));
    }
    let mut steps: Vec<(usize, u8)> = Vec::new();
    let mut i: usize = 0;
    while i < positions.len()
        invariant
            positions@.len() == width,
            forall|q: usize| q < width ==> positions@.contains(q),
            forall|k: int| 0 <= k < width ==> #[trigger] positions@[k] < width,
            order@.to_multiset() == letter_set.to_multiset(),
            forall|c: u8| FIRST_LETTER <= c < FIRST_LETTER + letters ==> letter_set.contains(c),
            forall|k: int| 0 <= k < letter_set.len() ==> FIRST_LETTER <= #[trigger] letter_set[k] < FIRST_LETTER + letters,
            letter_set.len() == letters,
            i <= width,
            steps@.len() == i * letters,
            steps_fit(steps@, width as nat, letters as nat),
            forall|j: int, c: u8|
                0 <= j < i && FIRST_LETTER <= c < FIRST_LETTER + letters ==> #[trigger] steps@.contains((positions@[j], c)),
        decreases width - i,
    {
        shuffle(&mut order, &mut rng);
        proof {
            lemma_same_elements(order@, letter_set);
        }
        let pos = positions[i];
        let ghost start = steps@;
        let mut j: usize = 0;
        while j < order.len()
            invariant
                order@.len() == letters,
                order@.to_multiset() == letter_set.to_multiset(),
                forall|x: u8| order@.contains(x) <==> letter_set.contains(x),
                forall|k: int| 0 <= k < letter_set.len() ==> FIRST_LETTER <= #[trigger] letter_set[k] < FIRST_LETTER + letters,
                pos < width,
                j <= letters,
                steps@.len() == start.len() + j,
                steps@.subrange(0, start.len() as int) == start,
                steps_fit(steps@, width as nat, letters as nat),
                forall|k: int| 0 <= k < j ==> steps@.contains((pos, #[trigger] order@[k])),
            decreases letters - j,
        {
            assert(order@.contains(order@[j as int]));
            assert(letter_set.contains(order@[j as int]));
            let ghost before = steps@;
            steps.push((pos, order[j]));
            assert(steps@.subrange(0, start.len() as int) =~= start);
            assert forall|k: int| 0 <= k <= j implies steps@.contains((pos, #[trigger] order@[k])) by {
                if k < j {
                    assert(before.contains((pos, order@[k])));
                    let m = choose|m: int| 0 <= m < before.len() && before[m] == (pos, order@[k]);
                    assert(steps@[m] == before[m]);
                } else {
                    assert(steps@[before.len() as int] == (pos, order@[k]));
                }
            }
            j = j + 1;
        }
        assert forall|jj: int, c: u8|
            0 <= jj <= i && FIRST_LETTER <= c < FIRST_LETTER + letters implies #[trigger] steps@.contains((positions@[jj], c)) by {
            if jj < i {
                assert(start.contains((positions@[jj], c)));
                let m = choose|m: int| 0 <= m < start.len() && start[m] == (positions@[jj], c);
                assert(steps@.subrange(0, start.len() as int)[m] == start[m]);
            } else {
                assert(order@.contains(c));
                let m = choose|m: int| 0 <= m < order@.len() && order@[m] == c;
                assert(steps@.contains((pos, order@[m])));
            }
        }
        assert(steps@.len() == (i + 1) * letters) by (nonlinear_arith)
            requires
                steps@.len() == i * letters + letters,
        ;
        i = i + 1;
    }
    assert forall|q: usize, c: u8| q < width && FIRST_LETTER <= c < FIRST_LETTER + letters implies steps@.contains((q, c)) by {
        assert(positions@.contains(q));
        let jj = choose|jj: int| 0 <= jj < positions@.len() && positions@[jj] == q;
        assert(steps@.contains((positions@[jj], c)));
    }
    steps
}

/// One attempt of the randomized search: a fresh random visiting order, then
/// a greedy run over it against `bound`.
pub fn generate_guesses(dict: &Vec<Vec<u8>>, width: usize, letters: usize, bound: usize) -> (r: Option<Vec<ScoredWord>>)
    requires
        letters <= ALPHABET_SIZE,
        dict_fits(words_view(dict@), width as nat, letters as nat),
    ensures
        exists|steps: Seq<(usize, u8)>|
            visit_order(steps, width as nat, letters as nat) && outcome_view(r) == outcome(
                words_view(dict@),
                width as nat,
                letters as nat,
                bound as nat,
                steps,
            ),
        match outcome_view(r) {
            Some(s) => sound_cover(words_view(dict@), width as nat, letters as nat, bound as nat, s),
            None => true,
        },
        bound == 0 ==> r is None,
        pair_unreachable(words_view(dict@), width as nat, letters as nat) ==> r is None,
        !pair_unreachable(words_view(dict@), width as nat, letters as nat) && width * letters < bound
            ==> r is Some,
{
    let steps = random_visit_order(width, letters);
    let r = generate_in_order(dict, width, letters, bound, &steps);
    proof {
        let d = words_view(dict@);
        if r is Some {
            lemma_outcome_is_cover(d, width as nat, letters as nat, bound as nat, steps@);
        }
        if pair_unreachable(d, width as nat, letters as nat) {
            let (p, l) = choose|p: usize, l: u8|
                p < width && FIRST_LETTER <= l < FIRST_LETTER + letters && !has_candidate(d, p as int, l);
            lemma_unreachable_pair(d, width as nat, letters as nat, bound as nat, steps@, p as int, l);
        } else if width * letters < bound {
            lemma_reachable_pairs_cover(d, width as nat, letters as nat, bound as nat, steps@);
        }
    }
    r
}

/// Whether `w` has `width` letters, each among the first `letters`.
pub fn is_valid_word(w: &Vec<u8>, width: usize, letters: usize) -> (r: bool)
    requires
        letters <= ALPHABET_SIZE,
    ensures
        r == word_fits(w@, width as nat, letters as nat),
{
    if w.len() != width {
        return false;
    }
    let top: u8 = FIRST_LETTER + letters as u8;
    let mut i: usize = 0;
    while i < w.len()
        invariant
            i <= w@.len(),
            top == FIRST_LETTER + letters,
            forall|j: int| 0 <= j < i ==> FIRST_LETTER <= #[trigger] w@[j] && w@[j] < top,
        decreases w@.len() - i,
    {
        if w[i] < FIRST_LETTER || w[i] >= top {
            return false;
        }
        i = i + 1;
    }
    true
}

/// Whether every word of `dict` has `width` letters, each among the first `letters`.
pub fn is_valid_dictionary(dict: &Vec<Vec<u8>>, width: usize, letters: usize) -> (r: bool)
    requires
        letters <= ALPHABET_SIZE,
    ensures
        r == dict_fits(words_view(dict@), width as nat, letters as nat),
{
    let ghost d = words_view(dict@);
    let mut i: usize = 0;
    while i < dict.len()
        invariant
            d == words_view(dict@),
            letters <= ALPHABET_SIZE,
            i <= dict@.len(),
            forall|j: int| 0 <= j < i ==> word_fits(#[trigger] d[j], width as nat, letters as nat),
        decreases dict@.len() - i,
    {
        assert(d[i as int] == dict@[i as int]@);
        if !is_valid_word(&dict[i], width, letters) {
            return false;
        }
        i = i + 1;
    }
    true
}

} // verus!
