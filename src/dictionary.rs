use vstd::prelude::*;
use vstd::string::*;

verus! {

/// `p` is a (possibly equal) leading part of `w`.
pub open spec fn is_prefix(p: Seq<char>, w: Seq<char>) -> bool {
    p.len() <= w.len() && w.subrange(0, p.len() as int) == p
}

/// `a` and `b` agree before `k`, and at `k` either `a` ends while `b` goes on, or `a` holds
/// the smaller character.
pub open spec fn less_at(a: Seq<char>, b: Seq<char>, k: int) -> bool {
    &&& 0 <= k <= a.len()
    &&& k <= b.len()
    &&& forall|j: int| 0 <= j < k ==> a[j] == b[j]
    &&& (k == a.len() && k < b.len()) || (k < a.len() && k < b.len() && a[k] < b[k])
}

/// Lexicographic order by character.
pub open spec fn lex_lt(a: Seq<char>, b: Seq<char>) -> bool {
    exists|k: int| less_at(a, b, k)
}

/// Every word is smaller than every later word.
pub open spec fn strictly_sorted(ws: Seq<String>) -> bool {
    forall|i: int, j: int| 0 <= i < j < ws.len() ==> lex_lt((#[trigger] ws[i])@, (#[trigger] ws[j])@)
}

pub proof fn lemma_lex_transitive(a: Seq<char>, b: Seq<char>, c: Seq<char>)
    requires
        lex_lt(a, b),
        lex_lt(b, c),
    ensures
        lex_lt(a, c),
{
    let k1 = choose|k: int| less_at(a, b, k);
    let k2 = choose|k: int| less_at(b, c, k);
    let k = if k1 < k2 { k1 } else { k2 };
    assert(less_at(a, c, k));
}

pub proof fn lemma_lex_irreflexive(a: Seq<char>)
    ensures
        !lex_lt(a, a),
{
}

/// A word that starts with `p` is not smaller than `p`.
proof fn lemma_prefix_not_less(p: Seq<char>, w: Seq<char>)
    requires
        is_prefix(p, w),
    ensures
        !lex_lt(w, p),
{
    if lex_lt(w, p) {
        let k = choose|k: int| less_at(w, p, k);
        if k < p.len() {
            assert(w.subrange(0, p.len() as int)[k] == w[k]);
        }
    }
}

/// Between `p` and a word starting with `p`, every word starts with `p` too.
proof fn lemma_prefix_between(p: Seq<char>, x: Seq<char>, y: Seq<char>)
    requires
        !lex_lt(x, p),
        lex_lt(x, y),
        is_prefix(p, y),
    ensures
        is_prefix(p, x),
{
    let k = choose|k: int| less_at(x, y, k);
    assert forall|j: int| 0 <= j < p.len() && j < k implies x[j] == p[j] by {
        assert(y.subrange(0, p.len() as int)[j] == y[j]);
    }
    if k < p.len() {
        assert(y.subrange(0, p.len() as int)[k] == y[k]);
        assert(less_at(x, p, k));
    } else {
        assert(x.subrange(0, p.len() as int) =~= p) by {
            assert forall|j: int| 0 <= j < p.len() implies x.subrange(0, p.len() as int)[j] == p[j] by {
                assert(y.subrange(0, p.len() as int)[j] == y[j]);
            }
        }
    }
}

/// Whether `a` comes before `b` in lexicographic order.
pub fn lex_less(a: &str, b: &str) -> (r: bool)
    ensures
        r == lex_lt(a@, b@),
{
    let la = a.unicode_len();
    let lb = b.unicode_len();
    let mut i: usize = 0;
    while i < la && i < lb && a.get_char(i) == b.get_char(i)
        invariant
            la == a@.len(),
            lb == b@.len(),
            i <= la,
            i <= lb,
            forall|j: int| 0 <= j < i ==> a@[j] == b@[j],
        decreases la - i,
    {
        i += 1;
    }
    if i < la && i < lb {
        let r = a.get_char(i) < b.get_char(i);
        if r {
            assert(less_at(a@, b@, i as int));
        } else {
            assert forall|k: int| !less_at(a@, b@, k) by {
                if less_at(a@, b@, k) && k > i {
                    assert(a@[i as int] == b@[i as int]);
                }
            }
        }
        r
    } else if i == la && i < lb {
        assert(less_at(a@, b@, i as int));
        true
    } else {
        assert forall|k: int| !less_at(a@, b@, k) by {
            if less_at(a@, b@, k) && k < i {
                assert(a@[k] == b@[k]);
            }
        }
        false
    }
}

/// The valid words, each lower-case and trimmed, held in strictly increasing order.
pub struct Dictionary {
    pub words: Vec<String>,
}

impl View for Dictionary {
    type V = Set<Seq<char>>;

    open spec fn view(&self) -> Set<Seq<char>> {
        Set::new(|w: Seq<char>| exists|i: int| 0 <= i < self.words@.len() && #[trigger] self.words@[i]@ == w)
    }
}

impl Dictionary {
    pub open spec fn wf(&self) -> bool {
        strictly_sorted(self.words@)
    }

    /// Some word of the dictionary starts with `p`.
    pub open spec fn starts_some_word(&self, p: Seq<char>) -> bool {
        exists|w: Seq<char>| #[trigger] self@.contains(w) && is_prefix(p, w)
    }

    /// The dictionary of `words`, when they are in strictly increasing order (so sorted and
    /// free of duplicates); `None` otherwise.
    pub fn new(words: Vec<String>) -> (d: Option<Dictionary>)
        ensures
            d is Some <==> strictly_sorted(words@),
            d matches Some(dict) ==> dict.words@ == words@ && dict.wf(),
    {
        let n = words.len();
        let mut i: usize = 1;
        while i < n
            invariant
                n == words@.len(),
                1 <= i || n == 0,
                forall|a: int, b: int| 0 <= a < b < i && b < n ==> lex_lt((#[trigger] words@[a])@, (#[trigger] words@[b])@),
            decreases n - i,
        {
            if !lex_less(words[i - 1].as_str(), words[i].as_str()) {
                return None;
            }
            proof {
                assert forall|a: int, b: int| 0 <= a < b < i + 1 && b < n implies lex_lt((#[trigger] words@[a])@, (#[trigger] words@[b])@) by {
                    if b == i && a < i - 1 {
                        lemma_lex_transitive(words@[a]@, words@[i - 1]@, words@[b]@);
                    }
                }
            }
            i += 1;
        }
        Some(Dictionary { words })
    }

    /// Index of the first word not smaller than `p`.
    fn lower_bound(&self, p: &str) -> (i: usize)
        requires
            self.wf(),
        ensures
            i <= self.words@.len(),
            forall|j: int| 0 <= j < i ==> lex_lt((#[trigger] self.words@[j])@, p@),
            forall|j: int| i <= j < self.words@.len() ==> !lex_lt((#[trigger] self.words@[j])@, p@),
    {
        let mut lo: usize = 0;
        let mut hi: usize = self.words.len();
        while lo < hi
            invariant
                self.wf(),
                lo <= hi <= self.words@.len(),
                forall|j: int| 0 <= j < lo ==> lex_lt((#[trigger] self.words@[j])@, p@),
                forall|j: int| hi <= j < self.words@.len() ==> !lex_lt((#[trigger] self.words@[j])@, p@),
            decreases hi - lo,
        {
            let mid = lo + (hi - lo) / 2;
            if lex_less(self.words[mid].as_str(), p) {
                proof {
                    assert forall|j: int| 0 <= j < mid + 1 implies lex_lt((#[trigger] self.words@[j])@, p@) by {
                        if j < mid {
                            assert(lex_lt(self.words@[j]@, self.words@[mid as int]@));
                            lemma_lex_transitive(self.words@[j]@, self.words@[mid as int]@, p@);
                        }
                    }
                }
                lo = mid + 1;
            } else {
                proof {
                    assert forall|j: int| mid <= j < self.words@.len() implies !lex_lt((#[trigger] self.words@[j])@, p@) by {
                        if j > mid && lex_lt(self.words@[j]@, p@) {
                            assert(lex_lt(self.words@[mid as int]@, self.words@[j]@));
                            lemma_lex_transitive(self.words@[mid as int]@, self.words@[j]@, p@);
                        }
                    }
                }
                hi = mid;
            }
        }
        lo
    }

    /// Exact membership, by binary search.
    pub fn contains(&self, text: &String) -> (r: bool)
        requires
            self.wf(),
        ensures
            r == self@.contains(text@),
    {
        let i = self.lower_bound(text.as_str());
        let r = i < self.words.len() && self.words[i] == *text;
        proof {
            if self@.contains(text@) {
                let j = choose|j: int| 0 <= j < self.words@.len() && #[trigger] self.words@[j]@ == text@;
                lemma_lex_irreflexive(text@);
                if j > i {
                    assert(lex_lt(self.words@[i as int]@, self.words@[j]@));
                }
            }
            if r {
                assert(self.words@[i as int]@ == text@);
            }
        }
        r
    }

    /// Whether some word starts with `text`, by binary search: the words that start with
    /// `text` follow one another from the first word not smaller than it.
    pub fn has_prefix(&self, text: &String) -> (r: bool)
        requires
            self.wf(),
        ensures
            r == self.starts_some_word(text@),
    {
        let i = self.lower_bound(text.as_str());
        let r = i < self.words.len() && starts_with(self.words[i].as_str(), text.as_str());
        proof {
            if self.starts_some_word(text@) {
                let w = choose|w: Seq<char>| #[trigger] self@.contains(w) && is_prefix(text@, w);
                let j = choose|j: int| 0 <= j < self.words@.len() && #[trigger] self.words@[j]@ == w;
                lemma_prefix_not_less(text@, w);
                if j > i {
                    assert(lex_lt(self.words@[i as int]@, self.words@[j]@));
                    lemma_prefix_between(text@, self.words@[i as int]@, w);
                }
            }
            if r {
                assert(self@.contains(self.words@[i as int]@));
            }
        }
        r
    }
}

/// Whether `w` starts with `p`.
pub fn starts_with(w: &str, p: &str) -> (r: bool)
    ensures
        r == is_prefix(p@, w@),
{
    let n = p.unicode_len();
    if n > w.unicode_len() {
        return false;
    }
    let mut i: usize = 0;
    while i < n
        invariant
            n == p@.len(),
            n <= w@.len(),
            i <= n,
            forall|j: int| 0 <= j < i ==> w@[j] == p@[j],
        decreases n - i,
    {
        if w.get_char(i) != p.get_char(i) {
            assert(w@.subrange(0, n as int)[i as int] != p@[i as int]);
            return false;
        }
        i += 1;
    }
    assert(w@.subrange(0, n as int) =~= p@);
    true
}

} // verus!
