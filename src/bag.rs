//! The bag: each distinct word with the number of times it occurred.
use vstd::prelude::*;
use vstd::multiset::*;
use crate::text::{
    char_is_space, chars_of, chunk_word, chunks_upto, has_upper, has_uppercase, is_space, is_word,
    lemma_words_in_push, string_of, valid_word, words_in, words_of,
};
use crate::order::{compare, lemma_lex_irreflexive, lemma_lex_transitive, lex_lt};

verus! {

broadcast use {group_multiset_properties, vstd::seq_lib::group_to_multiset_ensures};

/// The bag `m` after the words of `text` are added to it.
pub open spec fn ingested(m: Multiset<Seq<char>>, text: Seq<char>) -> Multiset<Seq<char>> {
    m.add(words_of(text).to_multiset())
}

/// `c` copies of `w`.
spec fn copies(w: Seq<char>, c: nat) -> Multiset<Seq<char>>
    decreases c,
{
    if c == 0 {
        Multiset::empty()
    } else {
        copies(w, (c - 1) as nat).insert(w)
    }
}

/// The multiset in which each `ws[i]` occurs `cs[i]` times.
spec fn bag_of(ws: Seq<Seq<char>>, cs: Seq<usize>) -> Multiset<Seq<char>>
    decreases ws.len(),
{
    if ws.len() == 0 {
        Multiset::empty()
    } else {
        bag_of(ws.drop_last(), cs.drop_last()).add(copies(ws.last(), cs.last() as nat))
    }
}

proof fn lemma_copies(w: Seq<char>, c: nat)
    ensures
        copies(w, c).count(w) == c,
        forall|k: Seq<char>| k != w ==> #[trigger] copies(w, c).count(k) == 0,
    decreases c,
{
    if c > 0 {
        lemma_copies(w, (c - 1) as nat);
    }
}

/// A word at no position of `ws` is not in the bag.
proof fn lemma_bag_absent(ws: Seq<Seq<char>>, cs: Seq<usize>, k: Seq<char>)
    requires
        ws.len() == cs.len(),
        forall|i: int| 0 <= i < ws.len() ==> ws[i] != k,
    ensures
        bag_of(ws, cs).count(k) == 0,
    decreases ws.len(),
{
    if ws.len() > 0 {
        lemma_bag_absent(ws.drop_last(), cs.drop_last(), k);
        lemma_copies(ws.last(), cs.last() as nat);
    }
}

/// With distinct words, the word at position `i` occurs `cs[i]` times.
proof fn lemma_bag_present(ws: Seq<Seq<char>>, cs: Seq<usize>, i: int)
    requires
        ws.len() == cs.len(),
        0 <= i < ws.len(),
        forall|a: int, b: int| 0 <= a < b < ws.len() ==> ws[a] != ws[b],
    ensures
        bag_of(ws, cs).count(ws[i]) == cs[i],
    decreases ws.len(),
{
    let n = ws.len() - 1;
    lemma_copies(ws.last(), cs.last() as nat);
    if i < n {
        lemma_bag_present(ws.drop_last(), cs.drop_last(), i);
    } else {
        lemma_bag_absent(ws.drop_last(), cs.drop_last(), ws[i]);
    }
}

/// Inserting a word with count one at any position adds one occurrence.
proof fn lemma_bag_insert_at(ws: Seq<Seq<char>>, cs: Seq<usize>, p: int, w: Seq<char>)
    requires
        ws.len() == cs.len(),
        0 <= p <= ws.len(),
    ensures
        bag_of(ws.insert(p, w), cs.insert(p, 1)) == bag_of(ws, cs).insert(w),
    decreases ws.len(),
{
    let ws2 = ws.insert(p, w);
    let cs2 = cs.insert(p, 1);
    if p == ws.len() {
        assert(ws2.drop_last() =~= ws);
        assert(cs2.drop_last() =~= cs);
        assert(copies(w, 1) =~= Multiset::empty().insert(w)) by {
            lemma_copies(w, 1);
        }
        assert(bag_of(ws2, cs2) =~= bag_of(ws, cs).insert(w));
    } else {
        assert(ws2.drop_last() =~= ws.drop_last().insert(p, w));
        assert(cs2.drop_last() =~= cs.drop_last().insert(p, 1));
        lemma_bag_insert_at(ws.drop_last(), cs.drop_last(), p, w);
        assert(bag_of(ws2, cs2) =~= bag_of(ws, cs).insert(w));
    }
}

/// Raising the count at position `i` by one adds one occurrence of `ws[i]`.
proof fn lemma_bag_bump(ws: Seq<Seq<char>>, cs: Seq<usize>, i: int, c: usize)
    requires
        ws.len() == cs.len(),
        0 <= i < ws.len(),
        c == cs[i] + 1,
    ensures
        bag_of(ws, cs.update(i, c)) == bag_of(ws, cs).insert(ws[i]),
    decreases ws.len(),
{
    let cs2 = cs.update(i, c);
    if i == ws.len() - 1 {
        assert(cs2.drop_last() =~= cs.drop_last());
        assert(copies(ws[i], c as nat) == copies(ws[i], cs[i] as nat).insert(ws[i]));
        assert(bag_of(ws, cs2) =~= bag_of(ws, cs).insert(ws[i]));
    } else {
        assert(cs2.drop_last() =~= cs.drop_last().update(i, c));
        lemma_bag_bump(ws.drop_last(), cs.drop_last(), i, c);
        assert(bag_of(ws, cs2) =~= bag_of(ws, cs).insert(ws[i]));
    }
}

/// A bag of words: each distinct word, in ascending lexicographic order, with
/// the number of times it occurred.
#[derive(Debug, Clone)]
pub struct Bbow {
    words: Vec<Vec<char>>,
    counts: Vec<usize>,
    total: usize,
}

impl View for Bbow {
    type V = Multiset<Seq<char>>;

    closed spec fn view(&self) -> Multiset<Seq<char>> {
        bag_of(self.keys(), self.counts@)
    }
}

impl Bbow {
    spec fn keys(&self) -> Seq<Seq<char>> {
        self.words@.map_values(|w: Vec<char>| w@)
    }

    /// The words are in strictly ascending order, each counted at least once,
    /// and the running total is the size of the bag.
    pub closed spec fn wf(&self) -> bool {
        &&& self.words.len() == self.counts.len()
        &&& forall|i: int, j: int|
            0 <= i < j < self.words.len() ==> lex_lt(#[trigger] self.words[i]@, #[trigger] self.words[j]@)
        &&& forall|i: int| 0 <= i < self.counts.len() ==> #[trigger] self.counts[i] >= 1
        &&& self.total == self@.len()
        &&& self.words.len() == self@.dom().len()
    }

    proof fn lemma_distinct(&self)
        requires
            self.wf(),
        ensures
            forall|a: int, b: int| 0 <= a < b < self.keys().len() ==> self.keys()[a] != self.keys()[b],
    {
        assert forall|a: int, b: int| 0 <= a < b < self.keys().len() implies self.keys()[a] != self.keys()[b] by {
            lemma_lex_irreflexive(self.words[a]@);
            assert(lex_lt(self.words[a]@, self.words[b]@));
        }
    }

    /// Where `w` stands among the words: `(i, true)` if it is the word at `i`;
    /// `(i, false)` if it is absent and belongs at `i` to keep the order.
    fn position(&self, w: &Vec<char>) -> (r: (usize, bool))
        requires
            self.wf(),
        ensures
            r.0 <= self.words.len(),
            r.1 ==> r.0 < self.words.len() && self.keys()[r.0 as int] == w@,
            !r.1 ==> forall|j: int| 0 <= j < self.words.len() ==> self.keys()[j] != w@,
            !r.1 ==> forall|j: int| 0 <= j < r.0 ==> lex_lt(#[trigger] self.words[j]@, w@),
            !r.1 ==> forall|j: int| r.0 <= j < self.words.len() ==> lex_lt(w@, #[trigger] self.words[j]@),
    {
        let n = self.words.len();
        let mut lo: usize = 0;
        let mut hi: usize = n;
        while lo < hi
            invariant
                self.wf(),
                n == self.words.len(),
                lo <= hi <= n,
                forall|j: int| 0 <= j < lo ==> lex_lt(#[trigger] self.words[j]@, w@),
                forall|j: int| hi <= j < n ==> lex_lt(w@, #[trigger] self.words[j]@),
            decreases hi - lo,
        {
            let mid = lo + (hi - lo) / 2;
            let c = compare(&self.words[mid], w);
            if c == 0 {
                return (mid, true);
            } else if c == -1 {
                proof {
                    assert forall|j: int| 0 <= j <= mid implies lex_lt(#[trigger] self.words[j]@, w@) by {
                        if j < mid {
                            lemma_lex_transitive(self.words[j]@, self.words[mid as int]@, w@);
                        }
                    }
                }
                lo = mid + 1;
            } else {
                proof {
                    assert forall|j: int| mid <= j < n implies lex_lt(w@, #[trigger] self.words[j]@) by {
                        if j > mid {
                            lemma_lex_transitive(w@, self.words[mid as int]@, self.words[j]@);
                        }
                    }
                }
                hi = mid;
            }
        }
        proof {
            assert forall|j: int| 0 <= j < n implies self.keys()[j] != w@ by {
                lemma_lex_irreflexive(w@);
            }
        }
        (lo, false)
    }

    /// Adds the word that the chunk `s[lo..hi]` yields, if any, and records
    /// the chunk in `done`.
    fn add_chunk(&mut self, s: &Vec<char>, lo: usize, hi: usize, Ghost(base): Ghost<Multiset<Seq<char>>>, Ghost(done): Ghost<Seq<Seq<char>>>)
        requires
            old(self).wf(),
            lo < hi <= s.len(),
            old(self)@ == base.add(words_in(done).to_multiset()),
            words_in(done).len() <= done.len(),
            base.len() + done.len() < usize::MAX,
        ensures
            final(self).wf(),
            final(self)@ == base.add(words_in(done.push(s@.subrange(lo as int, hi as int))).to_multiset()),
            words_in(done.push(s@.subrange(lo as int, hi as int))).len() <= done.len() + 1,
    {
        let ghost chunk = s@.subrange(lo as int, hi as int);
        proof {
            lemma_words_in_push(done, chunk);
        }
        match chunk_word(s, lo, hi) {
            Some(w) => {
                assert(old(self)@.len() == base.len() + words_in(done).len());
                self.add_word(w);
                assert(self@ =~= base.add(words_in(done.push(chunk)).to_multiset()));
            },
            None => {},
        }
    }

    /// A word is in the bag exactly when it stands at some position.
    proof fn lemma_contains(&self)
        requires
            self.wf(),
        ensures
            forall|k: Seq<char>| self@.contains(k) <==> exists|i: int| 0 <= i < self.words.len() && self.words[i]@ == k,
    {
        self.lemma_distinct();
        assert forall|k: Seq<char>| self@.contains(k) <==> exists|i: int| 0 <= i < self.words.len() && self.words[i]@ == k by {
            if exists|i: int| 0 <= i < self.words.len() && self.words[i]@ == k {
                let i = choose|i: int| 0 <= i < self.words.len() && self.words[i]@ == k;
                lemma_bag_present(self.keys(), self.counts@, i);
            } else {
                lemma_bag_absent(self.keys(), self.counts@, k);
            }
        }
    }

    /// An empty bag.
    pub fn new() -> (r: Self)
        ensures
            r.wf(),
            r@ == Multiset::<Seq<char>>::empty(),
    {
        let r = Bbow { words: Vec::new(), counts: Vec::new(), total: 0 };
        assert(r.keys() =~= Seq::<Seq<char>>::empty());
        assert(r@.dom() =~= Set::<Seq<char>>::empty());
        r
    }

    /// The number of occurrences of `keyword` in the bag. The keyword is looked
    /// up as it is: one that is not a word, or that holds an uppercase letter,
    /// is never stored, and gets 0.
    pub fn match_count(&self, keyword: &str) -> (r: usize)
        requires
            self.wf(),
        ensures
            r == if valid_word(keyword@) && !has_upper(keyword@) {
                self@.count(keyword@)
            } else {
                0
            },
    {
        let k = chars_of(keyword);
        if !is_word(&k) || has_uppercase(&k) {
            return 0;
        }
        let (i, found) = self.position(&k);
        proof {
            self.lemma_distinct();
        }
        if found {
            proof {
                lemma_bag_present(self.keys(), self.counts@, i as int);
            }
            self.counts[i]
        } else {
            proof {
                lemma_bag_absent(self.keys(), self.counts@, k@);
            }
            0
        }
    }

    /// The distinct words of the bag, in ascending lexicographic order.
    pub fn words(&self) -> (r: Vec<String>)
        requires
            self.wf(),
        ensures
            r.len() == self@.dom().len(),
            forall|i: int, j: int| 0 <= i < j < r.len() ==> lex_lt(#[trigger] r[i]@, #[trigger] r[j]@),
            forall|k: Seq<char>| self@.contains(k) <==> exists|i: int| 0 <= i < r.len() && r[i]@ == k,
    {
        let mut r: Vec<String> = Vec::new();
        let mut i: usize = 0;
        while i < self.words.len()
            invariant
                self.wf(),
                i <= self.words.len(),
                r.len() == i,
                forall|j: int| 0 <= j < i ==> (#[trigger] r[j])@ == self.words[j]@,
            decreases self.words.len() - i,
        {
            r.push(string_of(&self.words[i]));
            i += 1;
        }
        proof {
            self.lemma_contains();
            assert forall|a: int, b: int| 0 <= a < b < r.len() implies lex_lt(#[trigger] r[a]@, #[trigger] r[b]@) by {
                assert(lex_lt(self.words[a]@, self.words[b]@));
            }
            assert forall|k: Seq<char>| self@.contains(k) <==> exists|i: int| 0 <= i < r.len() && r[i]@ == k by {
                if exists|i: int| 0 <= i < r.len() && r[i]@ == k {
                    let i = choose|i: int| 0 <= i < r.len() && r[i]@ == k;
                    assert(self.words[i]@ == k);
                }
                if exists|i: int| 0 <= i < self.words.len() && self.words[i]@ == k {
                    let i = choose|i: int| 0 <= i < self.words.len() && self.words[i]@ == k;
                    assert(r[i]@ == k);
                }
            }
        }
        r
    }

    /// The number of words in the bag, repeated occurrences counted apart.
    pub fn count(&self) -> (r: usize)
        requires
            self.wf(),
        ensures
            r == self@.len(),
    {
        self.total
    }

    /// The number of distinct words in the bag.
    pub fn len(&self) -> (r: usize)
        requires
            self.wf(),
        ensures
            r == self@.dom().len(),
    {
        self.words.len()
    }

    /// Whether the bag holds no word.
    pub fn is_empty(&self) -> (r: bool)
        requires
            self.wf(),
        ensures
            r == (self@.dom().len() == 0),
            r == (self@.len() == 0),
            r == (self@ == Multiset::<Seq<char>>::empty()),
    {
        proof {
            if self.words.len() == 0 {
                assert(self.keys() =~= Seq::<Seq<char>>::empty());
            } else {
                self.lemma_distinct();
                lemma_bag_present(self.keys(), self.counts@, 0);
                assert(self@.count(self.keys()[0]) > 0);
            }
        }
        self.words.len() == 0
    }

    /// Adds the words of `target` to the bag: the text is split at whitespace,
    /// each chunk is stripped of leading and trailing non-letters, and what
    /// remains, if it is a word, is added in its normalised form. Returns the
    /// bag, so that calls chain over several texts.
    pub fn extend_from_text(self, target: &str) -> (r: Self)
        requires
            self.wf(),
            self@.len() + target@.len() <= usize::MAX,
        ensures
            r.wf(),
            r@ == ingested(self@, target@),
            r@.len() == self@.len() + words_of(target@).len(),
    {
        let s = chars_of(target);
        let n = s.len();
        let ghost base = self@;
        let mut bag = self;
        let ghost mut done: Seq<Seq<char>> = Seq::empty();
        let mut start: usize = 0;
        let mut i: usize = 0;
        assert(bag@ =~= base.add(words_in(done).to_multiset()));
        while i < n
            invariant
                bag.wf(),
                s@ == target@,
                n == s.len(),
                start <= i <= n,
                done.len() <= start,
                start == 0 || is_space(s@[start - 1]),
                forall|j: int| start <= j < i ==> !is_space(#[trigger] s@[j]),
                start < i ==> chunks_upto(s@, i as int) == done.push(s@.subrange(start as int, i as int)),
                start == i ==> chunks_upto(s@, i as int) == done,
                bag@ == base.add(words_in(done).to_multiset()),
                words_in(done).len() <= done.len(),
                base.len() + n <= usize::MAX,
            decreases n - i,
        {
            if char_is_space(s[i]) {
                if start < i {
                    bag.add_chunk(&s, start, i, Ghost(base), Ghost(done));
                    proof {
                        done = done.push(s@.subrange(start as int, i as int));
                    }
                }
                start = i + 1;
            } else {
                proof {
                    if start < i {
                        assert(s@.subrange(start as int, i as int).push(s@[i as int]) =~= s@.subrange(start as int, i + 1));
                        assert(done.push(s@.subrange(start as int, i as int)).update(
                            done.len() as int,
                            s@.subrange(start as int, i as int).push(s@[i as int]),
                        ) =~= done.push(s@.subrange(start as int, i + 1)));
                    } else {
                        assert(seq![s@[i as int]] =~= s@.subrange(start as int, i + 1));
                        assert(done.push(seq![s@[i as int]]) =~= done.push(s@.subrange(start as int, i + 1)));
                    }
                }
            }
            i += 1;
        }
        if start < n {
            bag.add_chunk(&s, start, n, Ghost(base), Ghost(done));
            proof {
                done = done.push(s@.subrange(start as int, n as int));
            }
        }
        assert(words_of(target@) == words_in(done));
        bag
    }

    /// Adds one occurrence of `w`.
    fn add_word(&mut self, w: Vec<char>)
        requires
            old(self).wf(),
            old(self)@.len() < usize::MAX,
        ensures
            final(self).wf(),
            final(self)@ == old(self)@.insert(w@),
    {
        let ghost ks = self.keys();
        let (i, found) = self.position(&w);
        if found {
            proof {
                self.lemma_distinct();
                lemma_bag_present(ks, self.counts@, i as int);
                lemma_bag_bump(ks, self.counts@, i as int, (self.counts[i as int] + 1) as usize);
            }
            let c = self.counts[i] + 1;
            self.counts.set(i, c);
            self.total += 1;
            proof {
                assert(self.keys() == ks);
                assert(self@.dom() =~= old(self)@.dom());
            }
        } else {
            proof {
                lemma_bag_absent(ks, self.counts@, w@);
                lemma_bag_insert_at(ks, self.counts@, i as int, w@);
            }
            let ghost wv = w@;
            self.words.insert(i, w);
            self.counts.insert(i, 1);
            self.total += 1;
            proof {
                assert(self.keys() =~= ks.insert(i as int, wv));
                assert(self@.dom() =~= old(self)@.dom().insert(wv));
                assert forall|a: int, b: int| 0 <= a < b < self.words.len() implies lex_lt(
                    #[trigger] self.words[a]@,
                    #[trigger] self.words[b]@,
                ) by {
                    if a < i && b == i {
                    } else if a == i {
                    } else if a < i && b > i {
                        assert(old(self).words[a]@ == self.words[a]@);
                        assert(old(self).words[b - 1]@ == self.words[b]@);
                    } else if a > i {
                        assert(old(self).words[a - 1]@ == self.words[a]@);
                        assert(old(self).words[b - 1]@ == self.words[b]@);
                    } else {
                        assert(old(self).words[a]@ == self.words[a]@);
                        assert(old(self).words[b]@ == self.words[b]@);
                    }
                }
            }
        }
    }
}


impl Default for Bbow {
    fn default() -> (r: Self)
        ensures
            r.wf(),
            r@ == Multiset::<Seq<char>>::empty(),
    {
        Bbow::new()
    }
}

} // verus!
