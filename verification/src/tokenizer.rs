//! The tokenizer: text to normalized terms.
//!
//! A text is lower-cased as a whole and then cut at runs of whitespace. No
//! punctuation is stripped and nothing is stemmed: a term is whatever stands
//! between two runs of whitespace.

use vstd::prelude::*;
use crate::text::{char_is_whitespace, is_whitespace, texts};

verus! {

/// The lower-case form of `s`, as the standard library computes it.
pub uninterp spec fn lowercase(s: Seq<char>) -> Seq<char>;

/// `str::to_lowercase`: the result depends on the text alone, and is what the
/// contracts of this crate call `lowercase`.
#[verifier::external_body]
pub(crate) fn to_lowercase(s: &str) -> (lowered: String)
    ensures
        lowered@ == lowercase(s@),
{
    s.to_lowercase()
}

/// Length of the longest prefix of `s` that holds no whitespace.
pub open spec fn word_len(s: Seq<char>) -> nat
    decreases s.len(),
{
    if s.len() > 0 && !is_whitespace(s[0]) {
        1 + word_len(s.drop_first())
    } else {
        0
    }
}

/// The maximal runs of non-whitespace characters of `s`, from left to right.
pub open spec fn words(s: Seq<char>) -> Seq<Seq<char>>
    decreases s.len(),
    via words_decreases
{
    if s.len() == 0 {
        Seq::empty()
    } else if is_whitespace(s[0]) {
        words(s.drop_first())
    } else {
        seq![s.take(word_len(s) as int)] + words(s.skip(word_len(s) as int))
    }
}

#[via_fn]
proof fn words_decreases(s: Seq<char>) {
    lemma_word_len_bound(s);
}

/// The terms of a text: none for the empty text; otherwise the words of its
/// lower-case form.
pub open spec fn terms_of(text: Seq<char>) -> Seq<Seq<char>> {
    if text.len() == 0 {
        Seq::empty()
    } else {
        words(lowercase(text))
    }
}

/// Whether `w` is a word: not empty, and free of whitespace.
pub open spec fn is_word(w: Seq<char>) -> bool {
    w.len() > 0 && forall|i: int| 0 <= i < w.len() ==> !is_whitespace(#[trigger] w[i])
}

proof fn lemma_word_len_bound(s: Seq<char>)
    ensures
        word_len(s) <= s.len(),
        s.len() > 0 && !is_whitespace(s[0]) ==> word_len(s) >= 1,
    decreases s.len(),
{
    if s.len() > 0 && !is_whitespace(s[0]) {
        lemma_word_len_bound(s.drop_first());
    }
}

/// The first `word_len(s)` characters of `s` hold no whitespace.
proof fn lemma_word_len_prefix(s: Seq<char>, i: int)
    requires
        0 <= i < word_len(s),
    ensures
        i < s.len(),
        !is_whitespace(s[i]),
    decreases s.len(),
{
    lemma_word_len_bound(s);
    if i > 0 {
        lemma_word_len_prefix(s.drop_first(), i - 1);
    }
}

/// Every term is a word: not empty, and free of whitespace.
pub proof fn lemma_words_are_words(s: Seq<char>)
    ensures
        forall|k: int| 0 <= k < words(s).len() ==> is_word(#[trigger] words(s)[k]),
    decreases s.len(),
{
    if s.len() == 0 {
        assert(words(s).len() == 0);
    } else if is_whitespace(s[0]) {
        lemma_words_are_words(s.drop_first());
        assert(words(s) == words(s.drop_first()));
    } else {
        let n = word_len(s) as int;
        lemma_word_len_bound(s);
        let first = s.take(n);
        assert(words(s) == seq![first] + words(s.skip(n)));
        assert forall|i: int| 0 <= i < first.len() implies !is_whitespace(#[trigger] first[i]) by {
            lemma_word_len_prefix(s, i);
        }
        lemma_words_are_words(s.skip(n));
        assert forall|k: int| 0 <= k < words(s).len() implies is_word(#[trigger] words(s)[k]) by {
            if k > 0 {
                assert(words(s)[k] == words(s.skip(n))[k - 1]);
            }
        }
    }
}

/// A word followed by nothing, or by whitespace, is the first word of the whole.
proof fn lemma_word_len_of_word(w: Seq<char>, rest: Seq<char>)
    requires
        forall|i: int| 0 <= i < w.len() ==> !is_whitespace(#[trigger] w[i]),
        rest.len() > 0 ==> is_whitespace(rest[0]),
    ensures
        word_len(w + rest) == w.len(),
    decreases w.len(),
{
    if w.len() == 0 {
        assert(w + rest == rest);
    } else {
        assert((w + rest).drop_first() == w.drop_first() + rest);
        assert forall|i: int| 0 <= i < w.drop_first().len() implies !is_whitespace(
            #[trigger] w.drop_first()[i],
        ) by {
            assert(w.drop_first()[i] == w[i + 1]);
        }
        lemma_word_len_of_word(w.drop_first(), rest);
    }
}

/// The words of a word followed by whitespace, or by nothing: the word itself,
/// then the words of what follows.
proof fn lemma_words_after_word(w: Seq<char>, rest: Seq<char>)
    requires
        is_word(w),
        rest.len() > 0 ==> is_whitespace(rest[0]),
    ensures
        words(w + rest) == seq![w] + words(rest),
{
    let s = w + rest;
    lemma_word_len_of_word(w, rest);
    assert(s[0] == w[0]);
    assert(s.take(w.len() as int) == w);
    assert(s.skip(w.len() as int) == rest);
}

/// The words of `s`, each as a string of its own.
pub fn split_whitespace(s: &str) -> (found: Vec<String>)
    ensures
        texts(found@) == words(s@),
        forall|k: int| 0 <= k < found@.len() ==> is_word(#[trigger] found@[k]@),
{
    let mut found: Vec<String> = Vec::new();
    let mut current = String::new();
    proof {
        assert(current@ + s@.skip(0) == s@);
        assert(texts(found@) + words(s@) == words(s@));
    }
    for c in iter: s.chars()
        invariant
            iter.seq() == s@,
            forall|i: int| 0 <= i < current@.len() ==> !is_whitespace(#[trigger] current@[i]),
            words(s@) == texts(found@) + words(current@ + s@.skip(iter.index() as int)),
    {
        let ghost rest = s@.skip(iter.index() as int);
        let ghost after = s@.skip(iter.index() + 1);
        proof {
            assert(rest[0] == c);
            assert(rest.drop_first() == after);
        }
        if char_is_whitespace(c) {
            if !current.as_str().is_empty() {
                proof {
                    lemma_words_after_word(current@, rest);
                    assert(texts(found@.push(current)) == texts(found@) + seq![current@]);
                }
                found.push(current);
                current = String::new();
            } else {
                assert(current@ + rest == rest);
            }
            assert(Seq::<char>::empty() + after == after);
        } else {
            proof {
                assert(current@.push(c) + after == current@ + rest);
            }
            current.push(c);
        }
    }
    proof {
        assert(s@.skip(s@.len() as int) == Seq::<char>::empty());
        assert(current@ + Seq::<char>::empty() == current@);
    }
    if !current.as_str().is_empty() {
        proof {
            lemma_words_after_word(current@, Seq::empty());
            assert(texts(found@.push(current)) == texts(found@) + seq![current@]);
        }
        found.push(current);
    }
    proof {
        lemma_words_are_words(s@);
        assert forall|k: int| 0 <= k < found@.len() implies is_word(#[trigger] found@[k]@) by {
            assert(found@[k]@ == words(s@)[k]);
        }
    }
    found
}

/// The terms of `text`: its lower-case form, cut at runs of whitespace.
pub fn tokenize(text: &str) -> (terms: Vec<String>)
    ensures
        texts(terms@) == terms_of(text@),
        forall|k: int| 0 <= k < terms@.len() ==> is_word(#[trigger] terms@[k]@),
{
    if text.is_empty() {
        return Vec::new();
    }
    let lowered = to_lowercase(text);
    split_whitespace(lowered.as_str())
}

} // verus!
