use vstd::prelude::*;
use vstd::string::*;
use std::sync::Arc;
use crate::tile::{Multiplier, letter_base};
use crate::board::{Board, BoardLocation, adjacent, in_bounds};

verus! {

/// Every cell of `locs` lies on the board.
pub open spec fn cells_in_bounds(board: Board, locs: Seq<BoardLocation>) -> bool {
    forall|i: int| 0 <= i < locs.len() ==> in_bounds(#[trigger] locs[i], board.size())
}

/// A non-empty route over distinct, pairwise consecutive-adjacent cells of the board.
pub open spec fn is_path(board: Board, locs: Seq<BoardLocation>) -> bool {
    &&& locs.len() >= 1
    &&& cells_in_bounds(board, locs)
    &&& locs.no_duplicates()
    &&& forall|i: int| 0 <= i < locs.len() - 1 ==> adjacent(#[trigger] locs[i], locs[i + 1])
}

/// The letters of the visited tiles, concatenated in path order.
pub open spec fn text_of(board: Board, locs: Seq<BoardLocation>) -> Seq<char>
    decreases locs.len(),
{
    if locs.len() == 0 {
        Seq::empty()
    } else {
        text_of(board, locs.drop_last()) + board.tile(locs.last()).letter@
    }
}

/// Sum over the visited tiles of base value times letter factor.
pub open spec fn letter_sum(board: Board, locs: Seq<BoardLocation>) -> nat
    decreases locs.len(),
{
    if locs.len() == 0 {
        0
    } else {
        letter_sum(board, locs.drop_last()) + board.tile(locs.last()).letter_score()
    }
}

/// Product over the visited tiles of their word factors.
pub open spec fn word_product(board: Board, locs: Seq<BoardLocation>) -> nat
    decreases locs.len(),
{
    if locs.len() == 0 {
        1
    } else {
        word_product(board, locs.drop_last()) * board.tile(locs.last()).multiplier.word_factor()
    }
}

/// Score of a route: its letter sum times the product of its word factors.
pub open spec fn score_of(board: Board, locs: Seq<BoardLocation>) -> nat {
    letter_sum(board, locs) * word_product(board, locs)
}

/// The score when it fits in a `u64`.
pub open spec fn checked_score(board: Board, locs: Seq<BoardLocation>) -> Option<u64> {
    if score_of(board, locs) <= u64::MAX {
        Some(score_of(board, locs) as u64)
    } else {
        None
    }
}

/// A route on a shared board.
pub struct Word {
    pub loc_vector: Vec<BoardLocation>,
    pub board: Arc<Board>,
}

impl Word {
    pub open spec fn locs(&self) -> Seq<BoardLocation> {
        self.loc_vector@
    }

    pub open spec fn shared_board(&self) -> Board {
        *self.board
    }

    pub open spec fn on_board(&self) -> bool {
        self.board.wf() && cells_in_bounds(*self.board, self.locs())
    }

    /// An empty route on `board`.
    pub fn new(board: Arc<Board>) -> (w: Word)
        ensures
            w.locs() == Seq::<BoardLocation>::empty(),
            w.board == board,
    {
        Word { loc_vector: Vec::new(), board: board }
    }

    /// Appends `loc`; the caller has checked adjacency and reuse.
    pub fn add_tile(&mut self, loc: BoardLocation)
        ensures
            final(self).locs() == old(self).locs().push(loc),
            final(self).board == old(self).board,
    {
        self.loc_vector.push(loc)
    }

    /// The route's text.
    pub fn get_string(&self) -> (s: String)
        requires
            self.on_board(),
        ensures
            s@ == text_of(*self.board, self.locs()),
    {
        let mut word = String::new();
        let mut i: usize = 0;
        while i < self.loc_vector.len()
            invariant
                self.on_board(),
                i <= self.locs().len(),
                word@ == text_of(*self.board, self.locs().take(i as int)),
            decreases self.locs().len() - i,
        {
            let tile = self.board.get_tile(&self.loc_vector[i]);
            word.append(tile.letter.as_str());
            assert(self.locs().take(i + 1).drop_last() == self.locs().take(i as int));
            i += 1;
        }
        assert(self.locs().take(i as int) == self.locs());
        word
    }

    /// The route's score, or `None` when it exceeds `u64::MAX`.
    pub fn get_score(&self) -> (r: Option<u64>)
        requires
            self.on_board(),
        ensures
            r == checked_score(*self.board, self.locs()),
    {
        let ghost board = self.shared_board();
        let ghost locs = self.locs();
        let mut score: u64 = 0;
        let mut multiplier: u64 = 1;
        let mut i: usize = 0;
        while i < self.loc_vector.len()
            invariant
                self.on_board(),
                board == *self.board,
                locs == self.locs(),
                i <= locs.len(),
                score == letter_sum(board, locs.take(i as int)),
                multiplier == word_product(board, locs.take(i as int)),
            decreases locs.len() - i,
        {
            let tile = self.board.get_tile(&self.loc_vector[i]);
            proof {
                assert(locs.take(i + 1).drop_last() == locs.take(i as int));
                assert(locs.take(i + 1).last() == locs[i as int]);
                lemma_prefix_bounds(board, locs, i + 1);
            }
            let base = crate::tile::letter_value_of(tile.letter.as_str()) as u64;
            let gained: u64;
            match tile.multiplier {
                Multiplier::Letter(m) => {
                    assert(base * (m as u64) <= 10 * 65535) by (nonlinear_arith)
                        requires base <= 10, m <= 65535;
                    gained = base * (m as u64);
                },
                Multiplier::Word(m) => {
                    gained = base;
                    match multiplier.checked_mul(m as u64) {
                        Some(p) => multiplier = p,
                        None => {
                            proof { lemma_overflow(board, locs); }
                            return None;
                        },
                    }
                },
                Multiplier::Unmultiplied => {
                    gained = base;
                },
            }
            proof {
                let prev = word_product(board, locs.take(i as int));
                let f = board.tile(locs[i as int]).multiplier.word_factor();
                assert(word_product(board, locs.take(i + 1)) == prev * f);
                if f == 1 {
                    assert(prev * f == prev) by (nonlinear_arith)
                        requires f == 1;
                }
            }
            match score.checked_add(gained) {
                Some(s) => score = s,
                None => {
                    proof { lemma_overflow(board, locs); }
                    return None;
                },
            }
            i += 1;
        }
        proof {
            assert(locs.take(i as int) == locs);
        }
        score.checked_mul(multiplier)
    }

    /// Whether the route already visits `loc`.
    pub fn uses_loc(&self, loc: &BoardLocation) -> (r: bool)
        ensures
            r == self.locs().contains(*loc),
    {
        let mut i: usize = 0;
        while i < self.loc_vector.len()
            invariant
                i <= self.locs().len(),
                forall|j: int| 0 <= j < i ==> self.locs()[j] != *loc,
            decreases self.locs().len() - i,
        {
            let used_loc = &self.loc_vector[i];
            if used_loc.0 == loc.0 && used_loc.1 == loc.1 {
                return true;
            }
            i += 1;
        }
        false
    }
}

/// Prefix sums and products never exceed the whole route's, and the whole route's
/// factors are at least one.
proof fn lemma_prefix_bounds(board: Board, locs: Seq<BoardLocation>, k: int)
    requires
        board.wf(),
        cells_in_bounds(board, locs),
        0 <= k <= locs.len(),
    ensures
        letter_sum(board, locs.take(k)) <= letter_sum(board, locs),
        word_product(board, locs.take(k)) <= word_product(board, locs),
        word_product(board, locs) >= 1,
        locs.len() > 0 ==> letter_sum(board, locs) >= 1,
    decreases locs.len(),
{
    if locs.len() > 0 {
        let rest = locs.drop_last();
        assert(cells_in_bounds(board, rest)) by {
            assert forall|i: int| 0 <= i < rest.len() implies in_bounds(#[trigger] rest[i], board.size()) by {
                assert(rest[i] == locs[i]);
            }
        }
        let l = locs.last();
        assert(in_bounds(locs[locs.len() - 1], board.size()));
        let t = board.tile(l);
        assert(t.wf());
        let f = t.multiplier.word_factor();
        let g = t.multiplier.letter_factor();
        assert(f >= 1);
        assert(g >= 1);
        assert(letter_base(t.letter@) >= 1);
        assert(t.letter_score() >= 1) by (nonlinear_arith)
            requires t.letter_score() == letter_base(t.letter@) * g, letter_base(t.letter@) >= 1, g >= 1;
        if k == locs.len() {
            assert(locs.take(k) == locs);
            lemma_prefix_bounds(board, rest, 0);
        } else {
            lemma_prefix_bounds(board, rest, k);
            assert(rest.take(k) == locs.take(k));
        }
        let p = word_product(board, rest);
        assert(p * f >= p) by (nonlinear_arith)
            requires p >= 1, f >= 1;
    } else {
        assert(locs.take(k) == locs);
    }
}

/// A route whose letter sum or word product alone exceeds `u64::MAX` has a score beyond it.
proof fn lemma_overflow(board: Board, locs: Seq<BoardLocation>)
    requires
        board.wf(),
        cells_in_bounds(board, locs),
        letter_sum(board, locs) > u64::MAX || word_product(board, locs) > u64::MAX,
    ensures
        score_of(board, locs) > u64::MAX,
{
    lemma_prefix_bounds(board, locs, 0);
    assert(locs.len() > 0);
    let s = letter_sum(board, locs);
    let p = word_product(board, locs);
    assert(s * p >= s && s * p >= p) by (nonlinear_arith)
        requires s >= 1, p >= 1;
}

/// Number of visited tiles that carry the two-letter `qu`.
pub open spec fn qu_tiles(board: Board, locs: Seq<BoardLocation>) -> nat
    decreases locs.len(),
{
    if locs.len() == 0 {
        0
    } else {
        qu_tiles(board, locs.drop_last()) + if board.tile(locs.last()).letter@ == seq!['q', 'u'] {
            1nat
        } else {
            0nat
        }
    }
}

/// A route's text has one letter per visited tile, plus one more for each `qu` tile.
pub proof fn lemma_text_len(board: Board, locs: Seq<BoardLocation>)
    requires
        board.wf(),
        cells_in_bounds(board, locs),
    ensures
        text_of(board, locs).len() == locs.len() + qu_tiles(board, locs),
    decreases locs.len(),
{
    if locs.len() > 0 {
        let rest = locs.drop_last();
        assert forall|i: int| 0 <= i < rest.len() implies in_bounds(#[trigger] rest[i], board.size()) by {
            assert(rest[i] == locs[i]);
        }
        lemma_text_len(board, rest);
        assert(in_bounds(locs[locs.len() - 1], board.size()));
        let l = board.tile(locs.last()).letter@;
        assert(board.tile(locs.last()).wf());
        if l.len() == 2 {
            assert(l =~= seq!['q', 'u']);
        } else {
            assert(l != seq!['q', 'u']);
        }
    }
}

/// The score is a function of the board and the visited cells alone.
pub proof fn lemma_score_deterministic(a: Word, b: Word)
    requires
        a.shared_board() == b.shared_board(),
        a.locs() == b.locs(),
    ensures
        checked_score(a.shared_board(), a.locs()) == checked_score(b.shared_board(), b.locs()),
        text_of(a.shared_board(), a.locs()) == text_of(b.shared_board(), b.locs()),
{
}

} // verus!
