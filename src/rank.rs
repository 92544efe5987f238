use vstd::prelude::*;
use crate::word::{Word, text_of, score_of, checked_score};

verus! {

/// `x` placed after every entry of `s` whose score is at most its own, scanning from the end.
pub open spec fn insert_by_score<T>(s: Seq<(T, u64)>, x: (T, u64)) -> Seq<(T, u64)>
    decreases s.len(),
{
    if s.len() == 0 {
        seq![x]
    } else if s.last().1 <= x.1 {
        s.push(x)
    } else {
        insert_by_score(s.drop_last(), x).push(s.last())
    }
}

/// Stable ascending sort by score: entries of equal score keep their input order.
pub open spec fn sort_by_score<T>(s: Seq<(T, u64)>) -> Seq<(T, u64)>
    decreases s.len(),
{
    if s.len() == 0 {
        s
    } else {
        insert_by_score(sort_by_score(s.drop_last()), s.last())
    }
}

pub open spec fn is_sorted_by_score<T>(s: Seq<(T, u64)>) -> bool {
    forall|i: int, j: int| 0 <= i < j < s.len() ==> s[i].1 <= s[j].1
}

/// Sorts `entries` by ascending score; ties keep their input order.
pub fn sort_entries<T>(entries: Vec<(T, u64)>) -> (sorted: Vec<(T, u64)>)
    ensures
        sorted@ == sort_by_score(entries@),
{
    let mut rest = entries;
    let mut sorted: Vec<(T, u64)> = Vec::new();
    let ghost all = rest@;
    assert(all.len() == rest.len());
    let mut i: usize = 0;
    while rest.len() > 0
        invariant
            i + rest@.len() == all.len(),
            all.len() <= usize::MAX,
            rest@ == all.subrange(i as int, all.len() as int),
            sorted@ == sort_by_score(all.take(i as int)),
        decreases rest@.len(),
    {
        let x = rest.remove(0);
        proof {
            assert(all.take(i + 1).drop_last() == all.take(i as int));
            assert(all.take(i + 1).last() == x);
            assert(rest@ == all.subrange(i + 1, all.len() as int));
        }
        insert_entry(&mut sorted, x);
        i += 1;
    }
    proof {
        assert(all.take(i as int) == all);
    }
    sorted
}

/// Inserts `x` after the last entry whose score is at most `x`'s.
fn insert_entry<T>(sorted: &mut Vec<(T, u64)>, x: (T, u64))
    ensures
        final(sorted)@ == insert_by_score(old(sorted)@, x),
{
    let ghost s = sorted@;
    let mut j: usize = sorted.len();
    assert(s.take(j as int) == s);
    assert(s.skip(j as int) == Seq::<(T, u64)>::empty());
    assert(insert_by_score(s, x) + Seq::<(T, u64)>::empty() == insert_by_score(s, x));
    while j > 0 && sorted[j - 1].1 > x.1
        invariant
            sorted@ == s,
            j <= s.len(),
            insert_by_score(s, x) == insert_by_score(s.take(j as int), x) + s.skip(j as int),
        decreases j,
    {
        proof {
            let t = s.take(j as int);
            assert(t.drop_last() == s.take(j - 1));
            assert(t.last() == s[j - 1]);
            assert(s.skip(j - 1) == seq![s[j - 1]] + s.skip(j as int));
            assert(insert_by_score(t, x) == insert_by_score(s.take(j - 1), x).push(s[j - 1]));
            assert(insert_by_score(s.take(j - 1), x).push(s[j - 1]) + s.skip(j as int)
                == insert_by_score(s.take(j - 1), x) + s.skip(j - 1));
        }
        j -= 1;
    }
    proof {
        assert(s.take(0) == Seq::<(T, u64)>::empty());
        assert(s == s.take(j as int) + s.skip(j as int));
    }
    sorted.insert(j, x);
    proof {
        assert(sorted@ == s.take(j as int).push(x) + s.skip(j as int));
    }
}

/// Entries of score `k`, in their order.
pub open spec fn with_score<T>(s: Seq<(T, u64)>, k: u64) -> Seq<(T, u64)> {
    s.filter(|e: (T, u64)| e.1 == k)
}

proof fn lemma_filter_push<T>(s: Seq<(T, u64)>, x: (T, u64), k: u64)
    ensures
        with_score(s.push(x), k) == if x.1 == k { with_score(s, k).push(x) } else { with_score(s, k) },
{
    reveal(Seq::filter);
    let f = |e: (T, u64)| e.1 == k;
    let t = s.push(x);
    assert(t.drop_last() == s);
    assert(t.last() == x);
    assert(t.filter(f) == if f(t.last()) { t.drop_last().filter(f).push(t.last()) } else { t.drop_last().filter(f) });
}

proof fn lemma_insert<T>(s: Seq<(T, u64)>, x: (T, u64))
    ensures
        insert_by_score(s, x).to_multiset() == s.to_multiset().insert(x),
        is_sorted_by_score(s) ==> is_sorted_by_score(insert_by_score(s, x)),
        forall|k: u64| #[trigger] with_score(insert_by_score(s, x), k)
            == if x.1 == k { with_score(s, k).push(x) } else { with_score(s, k) },
    decreases s.len(),
{
    broadcast use vstd::seq_lib::group_to_multiset_ensures;

    let r = insert_by_score(s, x);
    if s.len() == 0 {
        assert(r == Seq::<(T, u64)>::empty().push(x));
        assert(s == Seq::<(T, u64)>::empty());
        assert forall|k: u64| #[trigger] with_score(r, k)
            == if x.1 == k { with_score(s, k).push(x) } else { with_score(s, k) } by {
            lemma_filter_push(s, x, k);
        }
    } else if s.last().1 <= x.1 {
        assert forall|k: u64| #[trigger] with_score(r, k)
            == if x.1 == k { with_score(s, k).push(x) } else { with_score(s, k) } by {
            lemma_filter_push(s, x, k);
        }
    } else {
        let init = s.drop_last();
        let l = s.last();
        let q = insert_by_score(init, x);
        lemma_insert(init, x);
        assert(s == init.push(l));
        if is_sorted_by_score(s) {
            assert forall|i: int| 0 <= i < init.len() implies #[trigger] init[i].1 <= l.1 by {
                assert(s[i] == init[i]);
                assert(s[s.len() - 1] == l);
            }
            assert forall|i: int| 0 <= i < q.len() implies #[trigger] q[i].1 <= l.1 by {
                assert(q.contains(q[i]));
                assert(q.to_multiset().count(q[i]) > 0);
                if q[i] != x {
                    assert(init.to_multiset().count(q[i]) > 0);
                    assert(init.contains(q[i]));
                }
            }
            assert(is_sorted_by_score(r)) by {
                assert forall|i: int, j: int| 0 <= i < j < r.len() implies r[i].1 <= r[j].1 by {
                    if j < q.len() {
                        assert(r[i] == q[i] && r[j] == q[j]);
                    } else {
                        assert(r[i] == q[i]);
                    }
                }
            }
            assert(is_sorted_by_score(init)) by {
                assert forall|i: int, j: int| 0 <= i < j < init.len() implies init[i].1 <= init[j].1 by {
                    assert(s[i] == init[i] && s[j] == init[j]);
                }
            }
        }
        assert forall|k: u64| #[trigger] with_score(r, k)
            == if x.1 == k { with_score(s, k).push(x) } else { with_score(s, k) } by {
            lemma_filter_push(q, l, k);
            lemma_filter_push(init, l, k);
            assert(with_score(init, k) == with_score(init, k));
            if x.1 == k {
                assert(with_score(q, k) == with_score(init, k).push(x));
            }
        }
    }
}

/// Ranking laws: the result is in ascending score order, holds the same entries as the
/// input, and keeps the input order among entries of equal score.
pub proof fn lemma_sort_by_score<T>(s: Seq<(T, u64)>)
    ensures
        is_sorted_by_score(sort_by_score(s)),
        sort_by_score(s).to_multiset() == s.to_multiset(),
        forall|k: u64| #[trigger] with_score(sort_by_score(s), k) == with_score(s, k),
    decreases s.len(),
{
    broadcast use vstd::seq_lib::group_to_multiset_ensures;

    if s.len() > 0 {
        let init = s.drop_last();
        lemma_sort_by_score(init);
        lemma_insert(sort_by_score(init), s.last());
        assert(s == init.push(s.last()));
        assert forall|k: u64| #[trigger] with_score(sort_by_score(s), k) == with_score(s, k) by {
            lemma_filter_push(init, s.last(), k);
            assert(with_score(sort_by_score(init), k) == with_score(init, k));
        }
    }
}

/// Each entry's text by its view, with its score.
pub open spec fn entries_view(es: Seq<(String, u64)>) -> Seq<(Seq<char>, u64)> {
    Seq::new(es.len(), |i: int| (es[i].0@, es[i].1))
}

/// Each route's text and score, in the routes' order.
pub open spec fn scored(ws: Seq<Word>) -> Seq<(Seq<char>, u64)> {
    Seq::new(
        ws.len(),
        |i: int| (text_of(ws[i].shared_board(), ws[i].locs()), score_of(ws[i].shared_board(), ws[i].locs()) as u64),
    )
}

proof fn lemma_view_push(s: Seq<(String, u64)>, x: (String, u64))
    ensures
        entries_view(s.push(x)) == entries_view(s).push((x.0@, x.1)),
        s.len() > 0 ==> entries_view(s.drop_last()) == entries_view(s).drop_last(),
        s.len() > 0 ==> entries_view(s).last() == (s.last().0@, s.last().1),
{
    assert(entries_view(s.push(x)) =~= entries_view(s).push((x.0@, x.1)));
    if s.len() > 0 {
        assert(entries_view(s.drop_last()) =~= entries_view(s).drop_last());
    }
}

proof fn lemma_insert_view(s: Seq<(String, u64)>, x: (String, u64))
    ensures
        entries_view(insert_by_score(s, x)) == insert_by_score(entries_view(s), (x.0@, x.1)),
    decreases s.len(),
{
    lemma_view_push(s, x);
    if s.len() == 0 {
        assert(entries_view(seq![x]) =~= seq![(x.0@, x.1)]);
    } else if s.last().1 <= x.1 {
    } else {
        lemma_insert_view(s.drop_last(), x);
        lemma_view_push(insert_by_score(s.drop_last(), x), s.last());
    }
}

/// Sorting commutes with taking the entries' views.
proof fn lemma_sort_view(s: Seq<(String, u64)>)
    ensures
        entries_view(sort_by_score(s)) == sort_by_score(entries_view(s)),
    decreases s.len(),
{
    if s.len() == 0 {
        assert(entries_view(s) =~= Seq::<(Seq<char>, u64)>::empty());
    } else {
        lemma_view_push(s, s.last());
        lemma_sort_view(s.drop_last());
        lemma_insert_view(sort_by_score(s.drop_last()), s.last());
    }
}

/// The routes' texts and scores sorted by ascending score, ties in input order; `None`
/// when some score exceeds `u64::MAX`.
pub fn rank_words(words: &Vec<Word>) -> (ranked: Option<Vec<(String, u64)>>)
    requires
        forall|i: int| 0 <= i < words@.len() ==> (#[trigger] words@[i]).on_board(),
    ensures
        ranked is None <==> exists|i: int|
            0 <= i < words@.len() && checked_score((#[trigger] words@[i]).shared_board(), words@[i].locs()) is None,
        ranked matches Some(v) ==> entries_view(v@) == sort_by_score(scored(words@)),
{
    let mut entries: Vec<(String, u64)> = Vec::new();
    let mut i: usize = 0;
    while i < words.len()
        invariant
            i <= words@.len(),
            forall|j: int| 0 <= j < words@.len() ==> (#[trigger] words@[j]).on_board(),
            forall|j: int| 0 <= j < i ==> checked_score((#[trigger] words@[j]).shared_board(), words@[j].locs()) is Some,
            entries_view(entries@) == scored(words@).take(i as int),
        decreases words@.len() - i,
    {
        let text = words[i].get_string();
        match words[i].get_score() {
            None => {
                return None;
            },
            Some(score) => {
                proof {
                    lemma_view_push(entries@, (text, score));
                    assert(scored(words@).take(i + 1) =~= scored(words@).take(i as int).push((text@, score)));
                }
                entries.push((text, score));
            },
        }
        i += 1;
    }
    proof {
        assert(scored(words@).take(i as int) =~= scored(words@));
    }
    let ghost unsorted = entries@;
    let sorted = sort_entries(entries);
    proof {
        lemma_sort_view(unsorted);
    }
    Some(sorted)
}

} // verus!
