//! Laws of the tokenizer and the bag, stated over the contracts' models.
use vstd::prelude::*;
use vstd::multiset::*;
use crate::bag::ingested;
use crate::text::{
    chunks, chunks_upto, has_upper, is_letter, is_space, normalized, strip_back, strip_front,
    trimmed, valid_word, words_in, words_of,
};

verus! {

broadcast use {group_multiset_properties, vstd::seq_lib::group_to_multiset_ensures};

/// The chunks of the first `end` characters depend on those characters alone.
proof fn lemma_chunks_prefix(s1: Seq<char>, s2: Seq<char>, end: int)
    requires
        0 <= end <= s1.len(),
        end <= s2.len(),
        s1.take(end) == s2.take(end),
    ensures
        chunks_upto(s1, end) == chunks_upto(s2, end),
    decreases end,
{
    if end > 0 {
        assert(s1.take(end - 1) =~= s1.take(end).take(end - 1));
        assert(s2.take(end - 1) =~= s2.take(end).take(end - 1));
        lemma_chunks_prefix(s1, s2, end - 1);
        assert(s1[end - 1] == s1.take(end)[end - 1]);
        assert(s2[end - 1] == s2.take(end)[end - 1]);
        if end >= 2 {
            assert(s1[end - 2] == s1.take(end)[end - 2]);
            assert(s2[end - 2] == s2.take(end)[end - 2]);
        }
    }
}

/// A text that ends in a non-space has at least one chunk.
proof fn lemma_chunks_nonempty(s: Seq<char>, end: int)
    requires
        1 <= end <= s.len(),
        !is_space(s[end - 1]),
    ensures
        chunks_upto(s, end).len() > 0,
    decreases end,
{
    if end >= 2 && !is_space(s[end - 2]) {
        lemma_chunks_nonempty(s, end - 1);
    }
}

/// After a whitespace separator, the chunks of the rest follow those of the
/// text before it.
proof fn lemma_chunks_after_space(f1: Seq<char>, sep: char, f2: Seq<char>, e: int)
    requires
        is_space(sep),
        0 <= e <= f2.len(),
    ensures
        chunks_upto(f1.push(sep) + f2, f1.len() + 1 + e) == chunks(f1) + chunks_upto(f2, e),
    decreases e,
{
    let t = f1.push(sep) + f2;
    let k = f1.len() + 1;
    if e == 0 {
        assert(t.take(f1.len() as int) =~= f1.take(f1.len() as int));
        lemma_chunks_prefix(t, f1, f1.len() as int);
        assert(t[k - 1] == sep);
        assert(chunks_upto(f2, 0) =~= Seq::<Seq<char>>::empty());
        assert(chunks(f1) + chunks_upto(f2, 0) =~= chunks(f1));
    } else {
        lemma_chunks_after_space(f1, sep, f2, e - 1);
        let a = chunks(f1);
        let b = chunks_upto(f2, e - 1);
        let c = f2[e - 1];
        assert(t[k + e - 1] == c);
        if is_space(c) {
        } else if e >= 2 && !is_space(f2[e - 2]) {
            assert(t[k + e - 2] == f2[e - 2]);
            lemma_chunks_nonempty(f2, e - 1);
            assert((a + b).update((a + b).len() - 1, (a + b).last().push(c)) =~= a + b.update(
                b.len() - 1,
                b.last().push(c),
            ));
        } else {
            if e >= 2 {
                assert(t[k + e - 2] == f2[e - 2]);
            } else {
                assert(t[k + e - 2] == sep);
            }
            assert((a + b).push(seq![c]) =~= a + b.push(seq![c]));
        }
    }
}

/// The words of two runs of chunks are the words of each, in order.
proof fn lemma_words_in_concat(a: Seq<Seq<char>>, b: Seq<Seq<char>>)
    ensures
        words_in(a + b) == words_in(a) + words_in(b),
    decreases b.len(),
{
    if b.len() == 0 {
        assert(a + b =~= a);
        assert(words_in(a) + words_in(b) =~= words_in(a));
    } else {
        assert((a + b).drop_last() =~= a + b.drop_last());
        lemma_words_in_concat(a, b.drop_last());
        if valid_word(trimmed(b.last())) {
            assert(words_in(a) + words_in(b) =~= (words_in(a) + words_in(b.drop_last())).push(
                normalized(trimmed(b.last())),
            ));
        }
    }
}

/// The multiset of a concatenation is the sum of the multisets.
proof fn lemma_to_multiset_concat(a: Seq<Seq<char>>, b: Seq<Seq<char>>)
    ensures
        (a + b).to_multiset() == a.to_multiset().add(b.to_multiset()),
    decreases b.len(),
{
    if b.len() == 0 {
        assert(a + b =~= a);
        assert((a + b).to_multiset() =~= a.to_multiset().add(b.to_multiset()));
    } else {
        lemma_to_multiset_concat(a, b.drop_last());
        assert(a + b =~= (a + b.drop_last()).push(b.last()));
        assert(b =~= b.drop_last().push(b.last()));
        assert((a + b).to_multiset() =~= a.to_multiset().add(b.to_multiset()));
    }
}

/// Ingesting `f1` and then `f2` leaves the bag as ingesting `f1`, a
/// whitespace character, and `f2` as one text does.
pub proof fn law_chaining(m: Multiset<Seq<char>>, f1: Seq<char>, sep: char, f2: Seq<char>)
    requires
        is_space(sep),
    ensures
        ingested(ingested(m, f1), f2) == ingested(m, f1.push(sep) + f2),
{
    let t = f1.push(sep) + f2;
    lemma_chunks_after_space(f1, sep, f2, f2.len() as int);
    assert(t.len() == f1.len() + 1 + f2.len());
    lemma_words_in_concat(chunks(f1), chunks(f2));
    lemma_to_multiset_concat(words_of(f1), words_of(f2));
    assert(ingested(ingested(m, f1), f2) =~= ingested(m, t));
}

/// A word of letters alone, none of them whitespace or uppercase, is the one
/// word of the text that it forms.
proof fn lemma_single_word(w: Seq<char>)
    requires
        valid_word(w),
        !has_upper(w),
        forall|i: int| 0 <= i < w.len() ==> !is_space(#[trigger] w[i]),
    ensures
        words_of(w) == seq![w],
{
    assert forall|e: int| 1 <= e <= w.len() implies chunks_upto(w, e) == seq![w.take(e)] by {
        lemma_chunks_single(w, e);
    }
    assert(w.take(w.len() as int) =~= w);
    assert(is_letter(w[0]));
    assert(strip_front(w) == w);
    assert(is_letter(w.last()));
    assert(strip_back(w) == w);
    assert(chunks(w) == seq![w]);
    assert(seq![w].drop_last() =~= Seq::<Seq<char>>::empty());
    assert(trimmed(w) == w);
    assert(normalized(w) == w);
    assert(words_in(Seq::<Seq<char>>::empty()) == Seq::<Seq<char>>::empty());
    assert(words_in(seq![w]) =~= seq![w]);
}

proof fn lemma_chunks_single(w: Seq<char>, e: int)
    requires
        1 <= e <= w.len(),
        forall|i: int| 0 <= i < w.len() ==> !is_space(#[trigger] w[i]),
    ensures
        chunks_upto(w, e) == seq![w.take(e)],
    decreases e,
{
    assert(!is_space(w[e - 1]));
    if e == 1 {
        assert(chunks_upto(w, 0) =~= Seq::<Seq<char>>::empty());
        assert(seq![w[0]] =~= w.take(1));
        assert(Seq::<Seq<char>>::empty().push(seq![w[0]]) =~= seq![w.take(1)]);
    } else {
        lemma_chunks_single(w, e - 1);
        assert(!is_space(w[e - 2]));
        assert(w.take(e - 1).push(w[e - 1]) =~= w.take(e));
        assert(seq![w.take(e - 1)].update(0, w.take(e - 1).push(w[e - 1])) =~= seq![w.take(e)]);
    }
}

/// A word without uppercase letters, ingested twice into an empty bag, is its
/// one distinct word, counted twice.
pub proof fn law_repeated_word(w: Seq<char>)
    requires
        valid_word(w),
        !has_upper(w),
        forall|i: int| 0 <= i < w.len() ==> !is_space(#[trigger] w[i]),
    ensures
        ingested(ingested(Multiset::empty(), w), w).count(w) == 2,
        ingested(ingested(Multiset::empty(), w), w).dom().len() == 1,
{
    lemma_single_word(w);
    let b = ingested(ingested(Multiset::empty(), w), w);
    assert(seq![w] =~= Seq::<Seq<char>>::empty().push(w));
    assert(b =~= Multiset::empty().insert(w).insert(w));
    assert(b.dom() =~= set![w]);
}

/// The bag after ingesting each text of `texts` in turn, starting from `m`.
pub open spec fn ingested_all(m: Multiset<Seq<char>>, texts: Seq<Seq<char>>) -> Multiset<Seq<char>>
    decreases texts.len(),
{
    if texts.len() == 0 {
        m
    } else {
        ingested(ingested_all(m, texts.drop_last()), texts.last())
    }
}

/// A bag built from empty is empty exactly when none of the texts ingested
/// into it held a word.
pub proof fn law_empty_iff_no_words(texts: Seq<Seq<char>>)
    ensures
        ingested_all(Multiset::empty(), texts).len() == 0 <==> forall|i: int|
            0 <= i < texts.len() ==> #[trigger] words_of(texts[i]).len() == 0,
    decreases texts.len(),
{
    if texts.len() > 0 {
        law_empty_iff_no_words(texts.drop_last());
        let n = texts.len() - 1;
        if forall|i: int| 0 <= i < texts.len() ==> #[trigger] words_of(texts[i]).len() == 0 {
            assert forall|i: int| 0 <= i < n implies #[trigger] words_of(texts.drop_last()[i]).len() == 0 by {
                assert(texts.drop_last()[i] == texts[i]);
            }
        }
        if ingested_all(Multiset::empty(), texts).len() == 0 {
            assert forall|i: int| 0 <= i < texts.len() implies #[trigger] words_of(texts[i]).len() == 0 by {
                if i < n {
                    assert(texts[i] == texts.drop_last()[i]);
                }
            }
        }
    }
}

} // verus!
