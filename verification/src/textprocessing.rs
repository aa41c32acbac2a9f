//! Splitting text into words and token sequences into adjacent
//! overlapping pairs.

use vstd::prelude::*;

verus! {

/// Whitespace for the purposes of splitting and trimming.
pub open spec fn is_ws_char(ch: char) -> bool {
    ch == ' ' || ch == '\t' || ch == '\n' || ch == '\r'
}

/// The length of the leading run of non-whitespace characters.
pub open spec fn word_len(s: Seq<char>) -> nat
    decreases s.len(),
{
    if s.len() == 0 || is_ws_char(s[0]) {
        0
    } else {
        (1 + word_len(s.drop_first())) as nat
    }
}

/// `word_len` is the first whitespace position, or the whole length.
pub proof fn lemma_word_len(s: Seq<char>)
    ensures
        word_len(s) <= s.len(),
        forall|i: int| 0 <= i < word_len(s) ==> !is_ws_char(s[i]),
        word_len(s) < s.len() ==> is_ws_char(s[word_len(s) as int]),
    decreases s.len(),
{
    if s.len() == 0 || is_ws_char(s[0]) {
    } else {
        lemma_word_len(s.drop_first());
        assert forall|i: int| 0 <= i < word_len(s) implies !is_ws_char(s[i]) by {
            if i >= 1 {
                assert(s.drop_first()[i - 1] == s[i]);
            }
        }
        if word_len(s) < s.len() {
            assert(s.drop_first()[word_len(s.drop_first()) as int] == s[word_len(s) as int]);
        }
    }
}

/// The maximal whitespace-free words of the text, in order.
pub open spec fn words_of(s: Seq<char>) -> Seq<Seq<char>>
    decreases s.len(),
    via words_of_decreases
{
    if s.len() == 0 {
        Seq::empty()
    } else if is_ws_char(s[0]) {
        words_of(s.drop_first())
    } else {
        seq![s.take(word_len(s) as int)] + words_of(s.skip(word_len(s) as int))
    }
}

#[via_fn]
proof fn words_of_decreases(s: Seq<char>) {
    if s.len() > 0 && !is_ws_char(s[0]) {
        lemma_word_len(s);
    }
}

use vstd::std_specs::iter::IteratorSpec;

broadcast use vstd::string::group_string_axioms;

/// Whether the character counts as whitespace.
pub fn ws_char(ch: char) -> (r: bool)
    ensures
        r == is_ws_char(ch),
{
    ch == ' ' || ch == '\t' || ch == '\n' || ch == '\r'
}

/// Collects the characters of a string slice, in order.
pub fn str_to_chars(s: &str) -> (r: Vec<char>)
    ensures
        r@ == s@,
{
    let mut out: Vec<char> = Vec::new();
    let mut it = s.chars();
    loop
        invariant
            out@ + it.remaining() == s@,
            it.obeys_prophetic_iter_laws(),
        ensures
            out@ + it.remaining() == s@,
            it.remaining().len() == 0,
        decreases s@.len() - out@.len(),
    {
        match it.next() {
            Some(ch) => {
                out.push(ch);
            },
            None => {
                break;
            },
        }
    }
    proof {
        assert(out@ =~= s@);
    }
    out
}

/// Relies on `String::push`: appends exactly one character.
#[verifier::external_body]
fn push_char(s: &mut String, ch: char)
    ensures
        final(s)@ == old(s)@.push(ch),
{
    s.push(ch);
}

/// Builds a string out of characters, in order.
pub fn chars_to_string(chars: &Vec<char>) -> (r: String)
    ensures
        r@ == chars@,
{
    let n = chars.len();
    let mut out = String::new();
    let mut i: usize = 0;
    while i < n
        invariant
            n == chars@.len(),
            i <= n,
            out@ == chars@.take(i as int),
        decreases n - i,
    {
        push_char(&mut out, chars[i]);
        proof {
            assert(chars@.take(i + 1) =~= chars@.take(i as int).push(chars@[i as int]));
        }
        i = i + 1;
    }
    proof {
        assert(chars@.take(n as int) =~= chars@);
    }
    out
}

/// Splits the text on whitespace into its maximal words, in order.
pub fn split_words(text: &str) -> (r: Vec<String>)
    ensures
        crate::model::texts_of(r@) == words_of(text@),
        r@.len() == words_of(text@).len(),
        forall|i: int| 0 <= i < r@.len() ==> (#[trigger] r@[i])@ == words_of(text@)[i],
{
    let chars = str_to_chars(text);
    let n = chars.len();
    let mut r: Vec<String> = Vec::new();
    proof {
        assert(crate::model::texts_of(r@) =~= Seq::<Seq<char>>::empty());
        assert(chars@.skip(0) =~= chars@);
        assert(crate::model::texts_of(r@) + words_of(chars@) =~= words_of(chars@));
    }
    let mut i: usize = 0;
    while i < n
        invariant
            n == chars@.len(),
            chars@ == text@,
            i <= n,
            crate::model::texts_of(r@) + words_of(chars@.skip(i as int)) == words_of(chars@),
        decreases n - i,
    {
        if ws_char(chars[i]) {
            proof {
                assert(chars@.skip(i as int).drop_first() =~= chars@.skip(i + 1));
                assert(chars@.skip(i as int)[0] == chars@[i as int]);
            }
            i = i + 1;
        } else {
            let start = i;
            let mut k = i;
            let mut word = String::new();
            while k < n && !ws_char(chars[k])
                invariant
                    n == chars@.len(),
                    start <= k <= n,
                    word@ == chars@.subrange(start as int, k as int),
                    forall|j: int| start <= j < k ==> !is_ws_char(chars@[j]),
                decreases n - k,
            {
                push_char(&mut word, chars[k]);
                proof {
                    assert(chars@.subrange(start as int, k + 1) =~= chars@.subrange(
                        start as int,
                        k as int,
                    ).push(chars@[k as int]));
                }
                k = k + 1;
            }
            proof {
                let rest = chars@.skip(start as int);
                lemma_word_len(rest);
                assert(forall|j: int| 0 <= j < rest.len() ==> rest[j] == chars@[start + j]);
                let wl = word_len(rest) as int;
                let kk = k as int - start as int;
                assert(wl == kk) by {
                    if wl < kk {
                        assert(is_ws_char(rest[wl]));
                        assert(!is_ws_char(chars@[start + wl]));
                    }
                    if wl > kk {
                        assert(kk < rest.len());
                        assert(!is_ws_char(rest[kk]));
                        assert(k < n ==> is_ws_char(chars@[k as int]));
                        assert(k as int == n ==> kk == rest.len());
                    }
                }
                assert(rest.take(kk) =~= chars@.subrange(start as int, k as int));
                assert(rest.skip(kk) =~= chars@.skip(k as int));
                assert(words_of(rest) == seq![word@] + words_of(chars@.skip(k as int)));
            }
            let ghost pre = r@;
            r.push(word);
            proof {
                assert(crate::model::texts_of(r@) =~= crate::model::texts_of(pre) + seq![word@]);
                assert(crate::model::texts_of(r@) + words_of(chars@.skip(k as int))
                    =~= crate::model::texts_of(pre) + (seq![word@] + words_of(
                    chars@.skip(k as int),
                )));
            }
            i = k;
        }
    }
    proof {
        assert(chars@.skip(n as int) =~= Seq::<char>::empty());
        assert(crate::model::texts_of(r@) + words_of(chars@.skip(n as int)) =~= crate::model::texts_of(r@));
        assert forall|i2: int|
            0 <= i2 < r@.len() implies (#[trigger] r@[i2])@ == words_of(text@)[i2] by {
            assert(crate::model::texts_of(r@)[i2] == r@[i2]@);
        }
    }
    r
}

/// Splits the normalized text on whitespace and produces every consecutive
/// overlapping pair of words, in order. Zero or one word yields no pairs.
pub fn to_pairs(normalized: &str) -> (r: Vec<(String, String)>)
    ensures
        words_of(normalized@).len() < 2 ==> r@.len() == 0,
        words_of(normalized@).len() >= 2 ==> r@.len() == words_of(normalized@).len() - 1,
        forall|i: int|
            0 <= i < r@.len() ==> (#[trigger] r@[i]).0@ == words_of(normalized@)[i]
                && r@[i].1@ == words_of(normalized@)[i + 1],
{
    let words = split_words(normalized);
    let mut r: Vec<(String, String)> = Vec::new();
    let n = words.len();
    if n < 2 {
        return r;
    }
    let mut i: usize = 0;
    while i + 1 < n
        invariant
            n == words@.len(),
            n >= 2,
            i < n,
            r@.len() == i,
            forall|j: int| 0 <= j < words@.len() ==> (#[trigger] words@[j])@ == words_of(
                normalized@,
            )[j],
            forall|j: int|
                0 <= j < i ==> (#[trigger] r@[j]).0@ == words_of(normalized@)[j] && r@[j].1@
                    == words_of(normalized@)[j + 1],
        decreases n - i,
    {
        r.push((words[i].clone(), words[i + 1].clone()));
        i = i + 1;
    }
    r
}

/// Splits a vector of token ids into every adjacent overlapping pair, in
/// order: `[a, b, c]` becomes `[[a, b], [b, c]]`. Fewer than two tokens
/// yield no pairs.
pub fn vec_word_split(words: Vec<i32>) -> (pairs: Vec<Vec<i32>>)
    ensures
        words@.len() < 2 ==> pairs@.len() == 0,
        words@.len() >= 2 ==> pairs@.len() == words@.len() - 1,
        forall|i: int| 0 <= i < pairs@.len() ==> #[trigger] pairs@[i]@ == seq![words@[i], words@[i + 1]],
{
    let mut pairs: Vec<Vec<i32>> = Vec::new();
    let n = words.len();
    if n < 2 {
        return pairs;
    }
    let mut i: usize = 0;
    while i + 1 < n
        invariant
            n == words@.len(),
            n >= 2,
            i < n,
            pairs@.len() == i,
            forall|j: int| 0 <= j < i ==> #[trigger] pairs@[j]@ == seq![words@[j], words@[j + 1]],
        decreases n - i,
    {
        let pair = vec![words[i], words[i + 1]];
        assert(pair@ == seq![words@[i as int], words@[i + 1]]);
        pairs.push(pair);
        i = i + 1;
    }
    pairs
}

} // verus!
