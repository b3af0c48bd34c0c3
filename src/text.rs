//! Character classes, case mapping, and the tokenizer's specification.
use vstd::prelude::*;

verus! {

/// Whether a character has the Unicode Alphabetic property.
pub uninterp spec fn is_letter(c: char) -> bool;

/// Whether a character has the Unicode Uppercase property.
pub uninterp spec fn is_upper(c: char) -> bool;

/// Whether a character has the Unicode White_Space property.
pub uninterp spec fn is_space(c: char) -> bool;

/// The lowercase mapping of a string, character by character.
pub uninterp spec fn lower_of(s: Seq<char>) -> Seq<char>;

/// Relies on `char::is_alphabetic`, which reports the Alphabetic property.
#[verifier::external_body]
pub(crate) fn char_is_letter(c: char) -> (r: bool)
    ensures
        r == is_letter(c),
{
    c.is_alphabetic()
}

/// Relies on `char::is_uppercase`, which reports the Uppercase property.
#[verifier::external_body]
pub(crate) fn char_is_upper(c: char) -> (r: bool)
    ensures
        r == is_upper(c),
{
    c.is_uppercase()
}

/// Relies on `char::is_whitespace`, which reports the White_Space property.
#[verifier::external_body]
pub(crate) fn char_is_space(c: char) -> (r: bool)
    ensures
        r == is_space(c),
{
    c.is_whitespace()
}

/// Relies on `str::to_lowercase`: the result depends on the characters alone.
#[verifier::external_body]
pub(crate) fn lowercase(w: &Vec<char>) -> (r: Vec<char>)
    ensures
        r@ == lower_of(w@),
{
    let s: String = w.iter().collect();
    s.to_lowercase().chars().collect()
}

/// Relies on `String`'s `FromIterator<char>`: the string holds the characters in order.
#[verifier::external_body]
pub(crate) fn string_of(w: &Vec<char>) -> (r: String)
    ensures
        r@ == w@,
{
    w.iter().collect()
}

/// The characters of `s`, in order.
pub fn chars_of(s: &str) -> (r: Vec<char>)
    ensures
        r@ == s@,
{
    let mut r: Vec<char> = Vec::new();
    for c in it: s.chars()
        invariant
            it.seq() == s@,
            r@ == it.seq().take(it.index() as int),
    {
        r.push(c);
    }
    r
}


/// The whitespace-separated chunks of `s.take(end)`, built one character at a
/// time: a non-space character extends the current chunk when the character
/// before it is a non-space too, and starts a new chunk otherwise.
pub open spec fn chunks_upto(s: Seq<char>, end: int) -> Seq<Seq<char>>
    decreases end,
{
    if end <= 0 {
        seq![]
    } else {
        let prev = chunks_upto(s, end - 1);
        let c = s[end - 1];
        if is_space(c) {
            prev
        } else if end >= 2 && !is_space(s[end - 2]) {
            prev.update(prev.len() - 1, prev.last().push(c))
        } else {
            prev.push(seq![c])
        }
    }
}

/// The maximal runs of non-whitespace characters of `s`, in order.
pub open spec fn chunks(s: Seq<char>) -> Seq<Seq<char>> {
    chunks_upto(s, s.len() as int)
}

/// `w` without its leading non-letters.
pub open spec fn strip_front(w: Seq<char>) -> Seq<char>
    decreases w.len(),
{
    if w.len() > 0 && !is_letter(w[0]) {
        strip_front(w.drop_first())
    } else {
        w
    }
}

/// `w` without its trailing non-letters.
pub open spec fn strip_back(w: Seq<char>) -> Seq<char>
    decreases w.len(),
{
    if w.len() > 0 && !is_letter(w.last()) {
        strip_back(w.drop_last())
    } else {
        w
    }
}

/// `w` without its leading and trailing non-letters.
pub open spec fn trimmed(w: Seq<char>) -> Seq<char> {
    strip_back(strip_front(w))
}

/// A word: non-empty, and made of letters alone.
pub open spec fn valid_word(w: Seq<char>) -> bool {
    w.len() > 0 && forall|i: int| 0 <= i < w.len() ==> is_letter(#[trigger] w[i])
}

/// Whether some character of `w` is uppercase.
pub open spec fn has_upper(w: Seq<char>) -> bool {
    exists|i: int| 0 <= i < w.len() && is_upper(#[trigger] w[i])
}

/// The stored form of a word: its lowercase mapping if it holds an uppercase
/// letter, the word itself otherwise.
pub open spec fn normalized(w: Seq<char>) -> Seq<char> {
    if has_upper(w) {
        lower_of(w)
    } else {
        w
    }
}

/// The normalised words that a sequence of chunks yields, in order: each chunk
/// is trimmed, and kept only if what remains is a word.
pub open spec fn words_in(cs: Seq<Seq<char>>) -> Seq<Seq<char>>
    decreases cs.len(),
{
    if cs.len() == 0 {
        seq![]
    } else {
        let rest = words_in(cs.drop_last());
        let t = trimmed(cs.last());
        if valid_word(t) {
            rest.push(normalized(t))
        } else {
            rest
        }
    }
}

/// The normalised words of a text, in order.
pub open spec fn words_of(s: Seq<char>) -> Seq<Seq<char>> {
    words_in(chunks(s))
}

/// Appending a chunk appends the word it yields, if any.
pub proof fn lemma_words_in_push(cs: Seq<Seq<char>>, c: Seq<char>)
    ensures
        words_in(cs.push(c)) == if valid_word(trimmed(c)) {
            words_in(cs).push(normalized(trimmed(c)))
        } else {
            words_in(cs)
        },
{
    assert(cs.push(c).drop_last() =~= cs);
}

/// Whether `w` is non-empty and made of letters alone.
pub fn is_word(w: &Vec<char>) -> (r: bool)
    ensures
        r == valid_word(w@),
{
    if w.len() == 0 {
        return false;
    }
    let mut i: usize = 0;
    while i < w.len()
        invariant
            i <= w.len(),
            forall|j: int| 0 <= j < i ==> is_letter(#[trigger] w@[j]),
        decreases w.len() - i,
    {
        if !char_is_letter(w[i]) {
            return false;
        }
        i += 1;
    }
    true
}

/// Whether some character of `w` is uppercase.
pub fn has_uppercase(w: &Vec<char>) -> (r: bool)
    ensures
        r == has_upper(w@),
{
    let mut i: usize = 0;
    while i < w.len()
        invariant
            i <= w.len(),
            forall|j: int| 0 <= j < i ==> !is_upper(#[trigger] w@[j]),
        decreases w.len() - i,
    {
        if char_is_upper(w[i]) {
            return true;
        }
        i += 1;
    }
    false
}

/// The word that the chunk `s[lo..hi]` yields, if any: the chunk trimmed of
/// leading and trailing non-letters, normalised, when what remains is a word.
pub fn chunk_word(s: &Vec<char>, lo: usize, hi: usize) -> (r: Option<Vec<char>>)
    requires
        lo <= hi <= s.len(),
    ensures
        match r {
            Some(w) => valid_word(trimmed(s@.subrange(lo as int, hi as int)))
                && w@ == normalized(trimmed(s@.subrange(lo as int, hi as int))),
            None => !valid_word(trimmed(s@.subrange(lo as int, hi as int))),
        },
{
    let ghost chunk = s@.subrange(lo as int, hi as int);
    let mut a: usize = lo;
    while a < hi && !char_is_letter(s[a])
        invariant
            lo <= a <= hi <= s.len(),
            strip_front(chunk) == strip_front(s@.subrange(a as int, hi as int)),
        decreases hi - a,
    {
        assert(s@.subrange(a as int, hi as int).drop_first() =~= s@.subrange(a + 1, hi as int));
        a += 1;
    }
    assert(strip_front(chunk) == s@.subrange(a as int, hi as int));
    let mut b: usize = hi;
    while b > a && !char_is_letter(s[b - 1])
        invariant
            a <= b <= hi <= s.len(),
            trimmed(chunk) == strip_back(s@.subrange(a as int, b as int)),
        decreases b - a,
    {
        assert(s@.subrange(a as int, b as int).drop_last() =~= s@.subrange(a as int, b - 1));
        b -= 1;
    }
    let mut w: Vec<char> = Vec::new();
    let mut k: usize = a;
    while k < b
        invariant
            a <= k <= b <= s.len(),
            w@ == s@.subrange(a as int, k as int),
        decreases b - k,
    {
        w.push(s[k]);
        assert(w@ =~= s@.subrange(a as int, k + 1));
        k += 1;
    }
    assert(trimmed(chunk) == w@);
    if !is_word(&w) {
        return None;
    }
    if has_uppercase(&w) {
        Some(lowercase(&w))
    } else {
        Some(w)
    }
}

} // verus!
