use vstd::prelude::*;
use std::sync::Arc;
use crate::board::{Board, BoardLocation, adjacent, in_bounds, before};
use crate::word::{Word, is_path, text_of, score_of, checked_score};
use crate::dictionary::{Dictionary, is_prefix};
use crate::rank::{rank_words, scored, entries_view, sort_by_score, lemma_sort_by_score};

verus! {

/// `word` with `loc` appended, on the same board.
fn extended(word: &Word, loc: BoardLocation) -> (w: Word)
    ensures
        w.locs() == word.locs().push(loc),
        w.board == word.board,
{
    let mut w = Word::new(Arc::clone(&word.board));
    let mut i: usize = 0;
    while i < word.loc_vector.len()
        invariant
            i <= word.locs().len(),
            w.locs() == word.locs().take(i as int),
            w.board == word.board,
        decreases word.locs().len() - i,
    {
        w.add_tile(word.loc_vector[i]);
        assert(word.locs().take(i + 1) == word.locs().take(i as int).push(word.locs()[i as int]));
        i += 1;
    }
    assert(word.locs().take(i as int) == word.locs());
    w.add_tile(loc);
    w
}


/// `p` is a route of at most `max` cells that properly extends `start` and spells a word of
/// `dict`.
pub open spec fn word_extension(
    board: Board,
    dict: Set<Seq<char>>,
    start: Seq<BoardLocation>,
    max: nat,
    p: Seq<BoardLocation>,
) -> bool {
    &&& is_path(board, p)
    &&& start.len() < p.len() <= max
    &&& p.subrange(0, start.len() as int) == start
    &&& dict.contains(text_of(board, p))
}

/// The text of a leading part of a route is a leading part of the route's text.
pub proof fn lemma_text_prefix(board: Board, p: Seq<BoardLocation>, k: int)
    requires
        0 <= k <= p.len(),
    ensures
        is_prefix(text_of(board, p.subrange(0, k)), text_of(board, p)),
    decreases p.len(),
{
    let t = text_of(board, p);
    if k == p.len() {
        assert(p.subrange(0, k) == p);
        assert(t.subrange(0, t.len() as int) == t);
    } else {
        let rest = p.drop_last();
        lemma_text_prefix(board, rest, k);
        assert(rest.subrange(0, k) == p.subrange(0, k));
        let q = text_of(board, p.subrange(0, k));
        let r = text_of(board, rest);
        assert(t == r + board.tile(p.last()).letter@);
        assert(t.subrange(0, q.len() as int) == r.subrange(0, q.len() as int));
    }
}

/// Appending a free cell adjacent to the last one keeps a route a path.
proof fn lemma_extend_path(board: Board, s: Seq<BoardLocation>, a: BoardLocation)
    requires
        is_path(board, s),
        in_bounds(a, board.size()),
        adjacent(s.last(), a),
        !s.contains(a),
    ensures
        is_path(board, s.push(a)),
{
    let t = s.push(a);
    assert forall|i: int| 0 <= i < t.len() implies in_bounds(#[trigger] t[i], board.size()) by {
        if i < s.len() {
            assert(t[i] == s[i]);
        }
    }
    assert forall|i: int, j: int| 0 <= i < t.len() && 0 <= j < t.len() && i != j
        implies t[i] != t[j] by {
        if i < s.len() && j < s.len() {
            assert(t[i] == s[i] && t[j] == s[j]);
        } else if i < s.len() {
            assert(t[i] == s[i]);
        } else if j < s.len() {
            assert(t[j] == s[j]);
        }
    }
    assert forall|i: int| 0 <= i < t.len() - 1 implies adjacent(#[trigger] t[i], t[i + 1]) by {
        if i < s.len() - 1 {
            assert(t[i] == s[i] && t[i + 1] == s[i + 1]);
        } else {
            assert(t[i] == s.last());
        }
    }
}

/// Every route that extends `word` by one or more cells, has at most `max_length` cells and
/// spells a dictionary word, each exactly once.
///
/// A branch is cut as soon as its text starts no dictionary word.
pub fn grown_words(word: &Word, max_length: usize, word_list: &Dictionary) -> (found: Vec<Word>)
    requires
        word.board.wf(),
        word_list.wf(),
        is_path(word.shared_board(), word.locs()),
    ensures
        forall|i: int| 0 <= i < found@.len() ==> (#[trigger] found@[i]).board == word.board,
        forall|i: int|
            0 <= i < found@.len() ==> word_extension(
                word.shared_board(),
                word_list@,
                word.locs(),
                max_length as nat,
                (#[trigger] found@[i]).locs(),
            ),
        forall|p: Seq<BoardLocation>|
            word_extension(word.shared_board(), word_list@, word.locs(), max_length as nat, p)
                ==> exists|i: int| 0 <= i < found@.len() && (#[trigger] found@[i]).locs() == p,
        forall|i: int, j: int|
            0 <= i < j < found@.len() ==> (#[trigger] found@[i]).locs() != (
            #[trigger] found@[j]).locs(),
    decreases max_length - word.locs().len(),
{
    let ghost board = word.shared_board();
    let ghost dict = word_list@;
    let ghost s = word.locs();
    let ghost n: int = s.len() as int;
    let ghost max = max_length as nat;
    let last = word.loc_vector[word.loc_vector.len() - 1];
    assert(in_bounds(s[n - 1], board.size()));
    assert(last == s.last());
    let adj = word.board.get_adjacent_tiles(&last);
    assert(word.board.size() == board.size());
    let mut new_words: Vec<Word> = Vec::new();
    let mut k: usize = 0;
    while k < adj.len()
        invariant
            board == word.shared_board(),
            dict == word_list@,
            s == word.locs(),
            n == s.len(),
            n >= 1,
            max == max_length,
            board.wf(),
            word_list.wf(),
            is_path(board, s),
            last == s.last(),
            k <= adj@.len(),
            adj@.no_duplicates(),
            forall|b: BoardLocation|
                #[trigger] adj@.contains(b) <==> in_bounds(b, board.size()) && adjacent(last, b),
            forall|i: int| 0 <= i < new_words@.len() ==> (#[trigger] new_words@[i]).board == word.board,
            forall|i: int|
                0 <= i < new_words@.len() ==> word_extension(board, dict, s, max, (#[trigger] new_words@[i]).locs()),
            forall|i: int|
                0 <= i < new_words@.len() ==> exists|m: int|
                    0 <= m < k && adj@[m] == (#[trigger] new_words@[i]).locs()[n as int],
            forall|p: Seq<BoardLocation>|
                word_extension(board, dict, s, max, p) && (exists|m: int| 0 <= m < k && adj@[m] == p[n as int])
                    ==> exists|i: int| 0 <= i < new_words@.len() && (#[trigger] new_words@[i]).locs() == p,
            forall|i: int, j: int|
                0 <= i < j < new_words@.len() ==> (#[trigger] new_words@[i]).locs() != (
                #[trigger] new_words@[j]).locs(),
        decreases adj@.len() - k,
    {
        let a = adj[k];
        let ghost before = new_words@;
        let ghost b = before.len();
        assert(adj@.contains(a));
        if !word.uses_loc(&a) {
            let next = extended(word, a);
            let ghost t = s.push(a);
            proof {
                lemma_extend_path(board, s, a);
                assert(t.subrange(0, n as int) == s);
            }
            if next.loc_vector.len() <= max_length {
                let text = next.get_string();
                if word_list.has_prefix(&text) {
                    let mut deeper: Vec<Word> = Vec::new();
                    if next.loc_vector.len() < max_length {
                        deeper = grown_words(&next, max_length, word_list);
                    }
                    let ghost deep = deeper@;
                    proof {
                        // what the deeper routes are, whether or not the branch was explored
                        assert(next.shared_board() == board);
                        assert forall|q: Seq<BoardLocation>| word_extension(board, dict, t, max, q)
                            implies exists|i: int| 0 <= i < deep.len() && (#[trigger] deep[i]).locs() == q by {
                            assert(word_extension(next.shared_board(), word_list@, next.locs(), max_length as nat, q));
                        }
                        assert forall|i: int| 0 <= i < deep.len() implies {
                            &&& word_extension(board, dict, s, max, (#[trigger] deep[i]).locs())
                            &&& deep[i].locs()[n as int] == a
                            &&& deep[i].locs().len() > n + 1
                        } by {
                            let q = deep[i].locs();
                            assert(word_extension(board, dict, t, max, q));
                            assert(q.subrange(0, n as int) == q.subrange(0, n + 1).subrange(0, n as int));
                            assert(q[n as int] == q.subrange(0, n + 1)[n as int]);
                        }
                    }
                    let is_word = word_list.contains(&text);
                    if is_word {
                        new_words.push(next);
                    }
                    let ghost mid = new_words@;
                    new_words.append(&mut deeper);
                    proof {
                        let c = mid.len() - b;
                        assert(new_words@ == mid + deep);
                        assert(new_words@.subrange(0, b as int) == before);
                        if is_word {
                            assert(new_words@[b as int].locs() == t);
                            assert(word_extension(board, dict, s, max, t));
                        }
                        assert forall|i: int| b <= i < new_words@.len() implies {
                            &&& (#[trigger] new_words@[i]).board == word.board
                            &&& word_extension(board, dict, s, max, new_words@[i].locs())
                            &&& new_words@[i].locs()[n as int] == a
                        } by {
                            if i >= mid.len() {
                                assert(new_words@[i] == deep[i - mid.len()]);
                            }
                        }
                        assert forall|i: int, j: int| b <= i < j < new_words@.len() implies
                            (#[trigger] new_words@[i]).locs() != (#[trigger] new_words@[j]).locs() by {
                            if j >= mid.len() {
                                assert(new_words@[j] == deep[j - mid.len()]);
                                if i >= mid.len() {
                                    assert(new_words@[i] == deep[i - mid.len()]);
                                }
                            }
                        }
                        assert forall|p: Seq<BoardLocation>|
                            word_extension(board, dict, s, max, p) && p[n as int] == a
                            implies exists|i: int| b <= i < new_words@.len() && (#[trigger] new_words@[i]).locs() == p by {
                            lemma_text_prefix(board, p, n + 1);
                            assert(p.subrange(0, n + 1) == t);
                            assert(dict.contains(text_of(board, p)));
                            if p.len() == n + 1 {
                                assert(p == t);
                                assert(new_words@[b as int].locs() == p);
                            } else {
                                assert(word_extension(board, dict, t, max, p));
                                let i = choose|i: int| 0 <= i < deep.len() && (#[trigger] deep[i]).locs() == p;
                                assert(new_words@[mid.len() + i] == deep[i]);
                            }
                        }
                    }
                } else {
                    proof {
                        assert forall|p: Seq<BoardLocation>|
                            word_extension(board, dict, s, max, p) implies p[n as int] != a by {
                            if p[n as int] == a {
                                lemma_text_prefix(board, p, n + 1);
                                assert(p.subrange(0, n + 1) == t);
                                assert(dict.contains(text_of(board, p)));
                            }
                        }
                    }
                }
            } else {
                assert forall|p: Seq<BoardLocation>|
                    word_extension(board, dict, s, max, p) implies p[n as int] != a by {
                    assert(n + 1 > max);
                }
            }
        } else {
            assert forall|p: Seq<BoardLocation>|
                word_extension(board, dict, s, max, p) implies p[n as int] != a by {
                let j = choose|j: int| 0 <= j < n && s[j] == a;
                assert(p[j] == s[j]);
            }
        }
        proof {
            assert(new_words@.subrange(0, b as int) == before);
            assert forall|i: int| 0 <= i < b implies new_words@[i] == #[trigger] before[i] by {
                assert(new_words@.subrange(0, b as int)[i] == new_words@[i]);
            }
        }
        k += 1;
    }
    proof {
        assert forall|p: Seq<BoardLocation>| word_extension(board, dict, s, max, p)
            implies exists|i: int| 0 <= i < new_words@.len() && (#[trigger] new_words@[i]).locs() == p by {
            assert(p[n - 1] == p.subrange(0, n)[n - 1]);
            assert(adjacent(p[n - 1], p[n]));
            assert(in_bounds(p[n], board.size()));
            assert(adj@.contains(p[n]));
            let m = choose|m: int| 0 <= m < adj@.len() && adj@[m] == p[n];
        }
    }
    new_words
}

/// A route of two to `max` cells that spells a word of `dict`.
pub open spec fn is_solution(board: Board, dict: Set<Seq<char>>, max: nat, p: Seq<BoardLocation>) -> bool {
    &&& is_path(board, p)
    &&& 2 <= p.len() <= max
    &&& dict.contains(text_of(board, p))
}

/// Every solution that starts at `start`, each exactly once.
pub fn words_from(board: Arc<Board>, start: BoardLocation, word_list: &Dictionary, max_length: usize) -> (found: Vec<Word>)
    requires
        board.wf(),
        word_list.wf(),
        in_bounds(start, board.size()),
    ensures
        forall|i: int| 0 <= i < found@.len() ==> (#[trigger] found@[i]).board == board,
        forall|i: int| 0 <= i < found@.len() ==> is_solution(*board, word_list@, max_length as nat, (#[trigger] found@[i]).locs()) && found@[i].locs()[0] == start,
        forall|p: Seq<BoardLocation>| is_solution(*board, word_list@, max_length as nat, p) && p[0] == start
            ==> exists|i: int| 0 <= i < found@.len() && (#[trigger] found@[i]).locs() == p,
        forall|i: int, j: int| 0 <= i < j < found@.len() ==> (#[trigger] found@[i]).locs() != (#[trigger] found@[j]).locs(),
{
    let mut first = Word::new(board);
    first.add_tile(start);
    let ghost s = first.locs();
    proof {
        assert(s == seq![start]);
        assert(s[0] == start);
    }
    let found = grown_words(&first, max_length, word_list);
    proof {
        assert forall|i: int| 0 <= i < found@.len() implies is_solution(*board, word_list@, max_length as nat, (#[trigger] found@[i]).locs()) && found@[i].locs()[0] == start by {
            let q = found@[i].locs();
            assert(word_extension(*board, word_list@, s, max_length as nat, q));
            assert(q[0] == q.subrange(0, 1)[0]);
        }
        assert forall|p: Seq<BoardLocation>| is_solution(*board, word_list@, max_length as nat, p) && p[0] == start
            implies exists|i: int| 0 <= i < found@.len() && (#[trigger] found@[i]).locs() == p by {
            assert(p.subrange(0, 1) == s);
            assert(word_extension(first.shared_board(), word_list@, first.locs(), max_length as nat, p));
        }
    }
    found
}

/// Every solution on the board, each exactly once, grouped by start cell in row-major order.
pub fn find_words(board: Arc<Board>, word_list: &Dictionary, max_length: usize) -> (words: Vec<Word>)
    requires
        board.wf(),
        word_list.wf(),
    ensures
        forall|i: int| 0 <= i < words@.len() ==> (#[trigger] words@[i]).board == board,
        forall|i: int| 0 <= i < words@.len() ==> is_solution(*board, word_list@, max_length as nat, (#[trigger] words@[i]).locs()),
        forall|p: Seq<BoardLocation>| is_solution(*board, word_list@, max_length as nat, p)
            ==> exists|i: int| 0 <= i < words@.len() && (#[trigger] words@[i]).locs() == p,
        forall|i: int, j: int| 0 <= i < j < words@.len() ==> (#[trigger] words@[i]).locs() != (#[trigger] words@[j]).locs(),
{
    let ghost dict = word_list@;
    let ghost max = max_length as nat;
    let n = board.grid.len();
    let mut words: Vec<Word> = Vec::new();
    let mut row: usize = 0;
    while row < n
        invariant
            n == board.size(),
            board.wf(),
            word_list.wf(),
            dict == word_list@,
            max == max_length,
            row <= n,
            forall|i: int| 0 <= i < words@.len() ==> (#[trigger] words@[i]).board == board,
            forall|i: int| 0 <= i < words@.len() ==> is_solution(*board, dict, max, (#[trigger] words@[i]).locs()) && words@[i].locs()[0].0 < row,
            forall|p: Seq<BoardLocation>| is_solution(*board, dict, max, p) && p[0].0 < row
                ==> exists|i: int| 0 <= i < words@.len() && (#[trigger] words@[i]).locs() == p,
            forall|i: int, j: int| 0 <= i < j < words@.len() ==> (#[trigger] words@[i]).locs() != (#[trigger] words@[j]).locs(),
        decreases n - row,
    {
        let mut col: usize = 0;
        while col < n
            invariant
                n == board.size(),
                board.wf(),
                word_list.wf(),
                dict == word_list@,
                max == max_length,
                row < n,
                col <= n,
                forall|i: int| 0 <= i < words@.len() ==> (#[trigger] words@[i]).board == board,
                forall|i: int| 0 <= i < words@.len() ==> is_solution(*board, dict, max, (#[trigger] words@[i]).locs()) && before(words@[i].locs()[0], BoardLocation(row, col)),
                forall|p: Seq<BoardLocation>| is_solution(*board, dict, max, p) && before(p[0], BoardLocation(row, col))
                    ==> exists|i: int| 0 <= i < words@.len() && (#[trigger] words@[i]).locs() == p,
                forall|i: int, j: int| 0 <= i < j < words@.len() ==> (#[trigger] words@[i]).locs() != (#[trigger] words@[j]).locs(),
            decreases n - col,
        {
            let ghost old_words = words@;
            let start = BoardLocation(row, col);
            let mut from_here = words_from(Arc::clone(&board), start, word_list, max_length);
            let ghost batch = from_here@;
            words.append(&mut from_here);
            proof {
                let b = old_words.len();
                assert(words@ == old_words + batch);
                assert forall|i: int| 0 <= i < words@.len() implies (#[trigger] words@[i]).board == board
                    && is_solution(*board, dict, max, words@[i].locs())
                    && before(words@[i].locs()[0], BoardLocation(row, (col + 1) as usize)) by {
                    if i >= b {
                        assert(words@[i] == batch[i - b]);
                    } else {
                        assert(words@[i] == old_words[i]);
                    }
                }
                assert forall|i: int, j: int| 0 <= i < j < words@.len() implies (#[trigger] words@[i]).locs() != (#[trigger] words@[j]).locs() by {
                    if j >= b {
                        assert(words@[j] == batch[j - b]);
                        if i >= b {
                            assert(words@[i] == batch[i - b]);
                        } else {
                            assert(words@[i] == old_words[i]);
                        }
                    } else {
                        assert(words@[i] == old_words[i]);
                        assert(words@[j] == old_words[j]);
                    }
                }
                assert forall|p: Seq<BoardLocation>| is_solution(*board, dict, max, p) && before(p[0], BoardLocation(row, (col + 1) as usize))
                    implies exists|i: int| 0 <= i < words@.len() && (#[trigger] words@[i]).locs() == p by {
                    if p[0] == start {
                        let j = choose|j: int| 0 <= j < batch.len() && (#[trigger] batch[j]).locs() == p;
                        assert(words@[b + j] == batch[j]);
                    } else {
                        let j = choose|j: int| 0 <= j < old_words.len() && (#[trigger] old_words[j]).locs() == p;
                        assert(words@[j] == old_words[j]);
                    }
                }
            }
            col += 1;
        }
        proof {
            assert forall|p: Seq<BoardLocation>| is_solution(*board, dict, max, p) && p[0].0 < row + 1
                implies exists|i: int| 0 <= i < words@.len() && (#[trigger] words@[i]).locs() == p by {
                assert(in_bounds(p[0], board.size()));
                assert(before(p[0], BoardLocation(row, col)));
            }
        }
        row += 1;
    }
    proof {
        assert forall|p: Seq<BoardLocation>| is_solution(*board, dict, max, p)
            implies exists|i: int| 0 <= i < words@.len() && (#[trigger] words@[i]).locs() == p by {
            assert(in_bounds(p[0], board.size()));
        }
    }
    words
}

/// `ws` holds every solution on `board` exactly once.
pub open spec fn lists_all_solutions(board: Arc<Board>, dict: Set<Seq<char>>, max: nat, ws: Seq<Word>) -> bool {
    &&& forall|i: int| 0 <= i < ws.len() ==> (#[trigger] ws[i]).board == board
    &&& forall|i: int| 0 <= i < ws.len() ==> is_solution(*board, dict, max, (#[trigger] ws[i]).locs())
    &&& forall|p: Seq<BoardLocation>| is_solution(*board, dict, max, p)
        ==> exists|i: int| 0 <= i < ws.len() && (#[trigger] ws[i]).locs() == p
    &&& forall|i: int, j: int| 0 <= i < j < ws.len() ==> (#[trigger] ws[i]).locs() != (#[trigger] ws[j]).locs()
}

/// Every text in a ranking of all solutions is a dictionary word.
pub proof fn lemma_ranked_words_in_dictionary(board: Arc<Board>, dict: Set<Seq<char>>, max: nat, ws: Seq<Word>)
    requires
        lists_all_solutions(board, dict, max, ws),
    ensures
        forall|i: int| 0 <= i < sort_by_score(scored(ws)).len()
            ==> dict.contains(#[trigger] sort_by_score(scored(ws))[i].0),
{
    broadcast use vstd::seq_lib::group_to_multiset_ensures;

    let v = sort_by_score(scored(ws));
    lemma_sort_by_score(scored(ws));
    assert forall|i: int| 0 <= i < v.len() implies dict.contains(#[trigger] v[i].0) by {
        assert(v.contains(v[i]));
        assert(v.to_multiset().count(v[i]) > 0);
        assert(scored(ws).contains(v[i]));
        let j = choose|j: int| 0 <= j < scored(ws).len() && scored(ws)[j] == v[i];
        assert(is_solution(*board, dict, max, ws[j].locs()));
    }
}

/// Two different solutions that spell the same text stand as two separate routes, each
/// with the score of its own tiles.
pub proof fn lemma_same_text_kept_apart(
    board: Arc<Board>,
    dict: Set<Seq<char>>,
    max: nat,
    ws: Seq<Word>,
    p: Seq<BoardLocation>,
    q: Seq<BoardLocation>,
)
    requires
        lists_all_solutions(board, dict, max, ws),
        is_solution(*board, dict, max, p),
        is_solution(*board, dict, max, q),
        p != q,
        text_of(*board, p) == text_of(*board, q),
    ensures
        exists|i: int, j: int|
            0 <= i < ws.len() && 0 <= j < ws.len() && i != j
            && (#[trigger] ws[i]).locs() == p && (#[trigger] ws[j]).locs() == q
            && scored(ws)[i] == (text_of(*board, p), score_of(*board, p) as u64)
            && scored(ws)[j] == (text_of(*board, q), score_of(*board, q) as u64),
{
    let i = choose|i: int| 0 <= i < ws.len() && (#[trigger] ws[i]).locs() == p;
    let j = choose|j: int| 0 <= j < ws.len() && (#[trigger] ws[j]).locs() == q;
    assert(ws[i].shared_board() == *board);
    assert(ws[j].shared_board() == *board);
}

/// The ranked (text, score) list of every solution: `None` when some solution's score
/// exceeds `u64::MAX`.
pub fn solve(board: Arc<Board>, word_list: &Dictionary, max_length: usize) -> (ranked: Option<Vec<(String, u64)>>)
    requires
        board.wf(),
        word_list.wf(),
    ensures
        ranked is None <==> exists|p: Seq<BoardLocation>|
            is_solution(*board, word_list@, max_length as nat, p) && score_of(*board, p) > u64::MAX,
        ranked matches Some(v) ==> exists|ws: Seq<Word>|
            lists_all_solutions(board, word_list@, max_length as nat, ws)
            && entries_view(v@) == sort_by_score(scored(ws)),
        ranked matches Some(v) ==> forall|i: int| 0 <= i < v@.len() ==> word_list@.contains(#[trigger] v@[i].0@),
        ranked matches Some(v) ==> forall|i: int, j: int| 0 <= i < j < v@.len() ==> (#[trigger] v@[i]).1 <= (#[trigger] v@[j]).1,
{
    let words = find_words(Arc::clone(&board), word_list, max_length);
    let ghost ws = words@;
    let ghost dict = word_list@;
    let ghost max = max_length as nat;
    proof {
        assert forall|i: int| 0 <= i < ws.len() implies (#[trigger] ws[i]).on_board() by {
            assert(is_solution(*board, dict, max, ws[i].locs()));
        }
    }
    let ranked = rank_words(&words);
    proof {
        assert(lists_all_solutions(board, dict, max, ws));
        if ranked is None {
            let i = choose|i: int| 0 <= i < ws.len() && checked_score((#[trigger] ws[i]).shared_board(), ws[i].locs()) is None;
            assert(is_solution(*board, dict, max, ws[i].locs()));
        } else {
            assert forall|p: Seq<BoardLocation>| is_solution(*board, dict, max, p) implies score_of(*board, p) <= u64::MAX by {
                let i = choose|i: int| 0 <= i < ws.len() && (#[trigger] ws[i]).locs() == p;
                assert(checked_score(ws[i].shared_board(), ws[i].locs()) is Some);
            }
            let v = ranked->0;
            lemma_ranked_words_in_dictionary(board, dict, max, ws);
            lemma_sort_by_score(scored(ws));
            assert forall|i: int| 0 <= i < v@.len() implies dict.contains(#[trigger] v@[i].0@) by {
                assert(entries_view(v@)[i].0 == v@[i].0@);
            }
            assert forall|i: int, j: int| 0 <= i < j < v@.len() implies (#[trigger] v@[i]).1 <= (#[trigger] v@[j]).1 by {
                assert(entries_view(v@)[i].1 == v@[i].1);
                assert(entries_view(v@)[j].1 == v@[j].1);
            }
        }
    }
    ranked
}

/// A board with a single cell, or none, has no two adjacent cells and so no solution.
pub proof fn lemma_single_cell_board(board: Board, dict: Set<Seq<char>>, max: nat, p: Seq<BoardLocation>)
    requires
        board.size() <= 1,
    ensures
        !is_solution(board, dict, max, p),
{
    if is_solution(board, dict, max, p) {
        assert(in_bounds(p[0], board.size()));
        assert(in_bounds(p[1], board.size()));
        assert(adjacent(p[0], p[1]));
    }
}

} // verus!
