//! The coverage matrix: which (position, letter) pairs the words chosen so
//! far have already placed, and how much a further word would add.

use vstd::prelude::*;

verus! {

/// The lower-case letters a word may use.
pub const ALPHABET_SIZE: usize = 26;

/// The byte of the first letter, `a`.
pub const FIRST_LETTER: u8 = 97;

/// Column of a letter byte in a coverage row.
pub open spec fn letter_index(b: u8) -> int {
    b as int - FIRST_LETTER as int
}

/// `w` has `width` bytes, each among the first `letters` lower-case letters.
pub open spec fn word_fits(w: Seq<u8>, width: nat, letters: nat) -> bool {
    &&& w.len() == width
    &&& forall|i: int| 0 <= i < w.len() ==> FIRST_LETTER <= #[trigger] w[i] && w[i] < FIRST_LETTER + letters
}

/// Every row of `c` has one column per letter.
pub open spec fn grid_wf(c: Seq<Seq<bool>>, letters: nat) -> bool {
    forall|p: int| 0 <= p < c.len() ==> (#[trigger] c[p]).len() == letters
}

/// A matrix with no pair covered.
pub open spec fn empty_grid(width: nat, letters: nat) -> Seq<Seq<bool>> {
    Seq::new(width, |p: int| Seq::new(letters, |l: int| false))
}

/// Every pair of `c` is covered.
pub open spec fn grid_full(c: Seq<Seq<bool>>) -> bool {
    forall|p: int, l: int| 0 <= p < c.len() && 0 <= l < c[p].len() ==> #[trigger] c[p][l]
}

/// The number of positions among the first `n` of `w` whose letter `c` has
/// not yet covered.
pub open spec fn gain(c: Seq<Seq<bool>>, w: Seq<u8>, n: nat) -> nat
    decreases n,
{
    if n == 0 {
        0
    } else {
        gain(c, w, (n - 1) as nat) + if c[n - 1][letter_index(w[n - 1])] {
            0nat
        } else {
            1nat
        }
    }
}

/// The marginal coverage of `w` over `c`: how many pairs it would newly cover.
pub open spec fn marginal(c: Seq<Seq<bool>>, w: Seq<u8>) -> nat {
    gain(c, w, w.len())
}

/// `c` after `w` is laid over it: each position's letter becomes covered.
pub open spec fn apply_word(c: Seq<Seq<bool>>, w: Seq<u8>) -> Seq<Seq<bool>> {
    Seq::new(
        c.len(),
        |p: int|
            if p < w.len() {
                c[p].update(letter_index(w[p]), true)
            } else {
                c[p]
            },
    )
}

/// The coverage matrix of one generator run: one row per position, one
/// column per letter.
pub struct Coverage {
    pub rows: Vec<Vec<bool>>,
    pub letters: usize,
}

impl View for Coverage {
    type V = Seq<Seq<bool>>;

    open spec fn view(&self) -> Seq<Seq<bool>> {
        self.rows@.map_values(|r: Vec<bool>| r@)
    }
}

impl Coverage {
    /// The matrix is rectangular and the alphabet fits in the lower-case letters.
    pub open spec fn wf(&self) -> bool {
        &&& self.letters <= ALPHABET_SIZE
        &&& forall|p: int| 0 <= p < self.rows@.len() ==> (#[trigger] self.rows@[p])@.len() == self.letters
        &&& grid_wf(self@, self.letters as nat)
    }

    /// `w` is a word this matrix can score.
    pub open spec fn fits(&self, w: Seq<u8>) -> bool {
        word_fits(w, self@.len(), self.letters as nat)
    }

    /// A matrix of `width` positions over the first `letters` letters, with
    /// nothing covered.
    pub fn new(width: usize, letters: usize) -> (r: Coverage)
        requires
            letters <= ALPHABET_SIZE,
        ensures
            r.wf(),
            r.letters == letters,
            r@ == empty_grid(width as nat, letters as nat),
    {
        let mut rows: Vec<Vec<bool>> = Vec::new();
        let mut p: usize = 0;
        while p < width
            invariant
                p <= width,
                rows@.len() == p,
                forall|q: int| 0 <= q < p ==> (#[trigger] rows@[q])@ == Seq::new(letters as nat, |l: int| false),
            decreases width - p,
        {
            let mut row: Vec<bool> = Vec::new();
            let mut l: usize = 0;
            while l < letters
                invariant
                    l <= letters,
                    row@ == Seq::new(l as nat, |k: int| false),
                decreases letters - l,
            {
                row.push(false);
                l = l + 1;
                assert(row@ =~= Seq::new(l as nat, |k: int| false));
            }
            rows.push(row);
            p = p + 1;
        }
        let r = Coverage { rows, letters };
        assert(r@ =~= empty_grid(width as nat, letters as nat));
        r
    }

    /// Whether the pair (`pos`, `letter`) is covered.
    pub fn is_covered(&self, pos: usize, letter: u8) -> (r: bool)
        requires
            self.wf(),
            pos < self@.len(),
            FIRST_LETTER <= letter < FIRST_LETTER + self.letters,
        ensures
            r == self@[pos as int][letter_index(letter)],
    {
        assert(self@[pos as int] == self.rows@[pos as int]@);
        self.rows[pos][(letter - FIRST_LETTER) as usize]
    }

    /// How many pairs `word` would newly cover: the number of positions whose
    /// letter is not covered yet.
    pub fn score(&self, word: &Vec<u8>) -> (r: usize)
        requires
            self.wf(),
            self.fits(word@),
        ensures
            r == marginal(self@, word@),
            r <= word@.len(),
    {
        let mut n: usize = 0;
        let mut p: usize = 0;
        while p < word.len()
            invariant
                self.wf(),
                self.fits(word@),
                p <= word@.len(),
                n == gain(self@, word@, p as nat),
                n <= p,
            decreases word@.len() - p,
        {
            if !self.is_covered(p, word[p]) {
                n = n + 1;
            }
            p = p + 1;
        }
        n
    }

    /// Lays `word` over the matrix: each of its positions' letters becomes covered.
    pub fn mark(&mut self, word: &Vec<u8>)
        requires
            old(self).wf(),
            old(self).fits(word@),
        ensures
            final(self).wf(),
            final(self).letters == old(self).letters,
            final(self)@ == apply_word(old(self)@, word@),
    {
        let ghost start = self@;
        let mut p: usize = 0;
        while p < word.len()
            invariant
                self.wf(),
                self.letters == old(self).letters,
                word_fits(word@, start.len(), self.letters as nat),
                p <= word@.len(),
                self@.len() == start.len(),
                forall|q: int| 0 <= q < p ==> #[trigger] self@[q] == start[q].update(letter_index(word@[q]), true),
                forall|q: int| p <= q < start.len() ==> #[trigger] self@[q] == start[q],
            decreases word@.len() - p,
        {
            let l = (word[p] - FIRST_LETTER) as usize;
            assert(self@[p as int] == self.rows@[p as int]@);
            let ghost before = self@;
            self.rows[p][l] = true;
            assert(self@ =~= before.update(p as int, before[p as int].update(l as int, true)));
            p = p + 1;
        }
        assert(self@ =~= apply_word(start, word@));
    }

    /// Whether every pair is covered.
    pub fn is_full(&self) -> (r: bool)
        requires
            self.wf(),
        ensures
            r == grid_full(self@),
    {
        let mut p: usize = 0;
        while p < self.rows.len()
            invariant
                self.wf(),
                p <= self@.len(),
                forall|q: int, l: int| 0 <= q < p && 0 <= l < self@[q].len() ==> #[trigger] self@[q][l],
            decreases self@.len() - p,
        {
            let mut l: usize = 0;
            while l < self.letters
                invariant
                    self.wf(),
                    p < self@.len(),
                    l <= self.letters,
                    forall|k: int| 0 <= k < l ==> #[trigger] self@[p as int][k],
                decreases self.letters - l,
            {
                assert(self@[p as int] == self.rows@[p as int]@);
                if !self.rows[p][l] {
                    return false;
                }
                l = l + 1;
            }
            p = p + 1;
        }
        true
    }
}

} // verus!
