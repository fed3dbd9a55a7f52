//! From raw text to n-grams.
//!
//! A text is put into lowercase and split at whitespace. A word is kept if,
//! once the characters at its two ends that cannot stand in a word are
//! stripped, only letters and apostrophes are left, and enough of them. The
//! cleaned text holds the kept words, each with a space before it. Its n-grams
//! are taken as from a cycle: those that start near the end run on at the
//! beginning, so that there are as many n-grams as characters.
use crate::text::{
    alphabetic, chars_of, lowercase, string_from_chars, texts, white_space,
};
use vstd::prelude::*;
use vstd::string::StrSliceExecFns;
use vstd::utf8::encode_utf8;

verus! {

/// Whether `c` may stand in a word: it is a letter or an apostrophe.
pub open spec fn word_char(c: char) -> bool {
    alphabetic(c) || c == '\''
}

/// The word without the characters at its beginning that cannot stand in a
/// word.
pub open spec fn strip_start(word: Seq<char>) -> Seq<char>
    decreases word.len(),
{
    if word.len() > 0 && !word_char(word[0]) {
        strip_start(word.skip(1))
    } else {
        word
    }
}

/// The word without the characters at its end that cannot stand in a word.
pub open spec fn strip_end(word: Seq<char>) -> Seq<char>
    decreases word.len(),
{
    if word.len() > 0 && !word_char(word.last()) {
        strip_end(word.drop_last())
    } else {
        word
    }
}

/// The word without the characters at its two ends that cannot stand in a
/// word.
pub open spec fn stripped(word: Seq<char>) -> Seq<char> {
    strip_end(strip_start(word))
}

/// Whether every character may stand in a word.
pub open spec fn all_word_chars(word: Seq<char>) -> bool {
    forall|i: int| 0 <= i < word.len() ==> word_char(#[trigger] word[i])
}

/// The stripped word, if all of its characters may stand in a word and it
/// takes up `min_length` bytes at least.
pub open spec fn cleaned_word(word: Seq<char>, min_length: usize) -> Option<Seq<char>> {
    let inner = stripped(word);
    if all_word_chars(inner) && encode_utf8(inner).len() >= min_length {
        Some(inner)
    } else {
        None
    }
}

/// The number of characters before the first whitespace.
pub open spec fn word_len(text: Seq<char>) -> int
    decreases text.len(),
{
    if text.len() == 0 || white_space(text[0]) {
        0
    } else {
        1 + word_len(text.skip(1))
    }
}

/// The words of `text` that are kept, each stripped and with a space before
/// it.
pub open spec fn clean_words(text: Seq<char>, min_word_length: usize) -> Seq<char>
    decreases text.len(),
{
    if text.len() == 0 {
        Seq::empty()
    } else if white_space(text[0]) {
        clean_words(text.skip(1), min_word_length)
    } else {
        let n = word_len(text);
        if 1 <= n <= text.len() {
            (match cleaned_word(text.take(n), min_word_length) {
                Some(inner) => seq![' '] + inner,
                None => Seq::empty(),
            }) + clean_words(text.skip(n), min_word_length)
        } else {
            Seq::empty()
        }
    }
}

/// The cleaned text: the kept words of the text in lowercase.
pub open spec fn cleaned_text(text: Seq<char>, min_word_length: usize) -> Seq<char> {
    clean_words(lowercase(text), min_word_length)
}

/// The n-gram of `n` characters that starts at position `i` of a cyclic text.
pub open spec fn ngram_at(text: Seq<char>, i: int, n: int) -> Seq<char> {
    Seq::new(
        n as nat,
        |j: int|
            if i + j < text.len() {
                text[i + j]
            } else {
                text[i + j - text.len()]
            },
    )
}

/// The n-grams of a cyclic text, one from each position; none if the text is
/// shorter than an n-gram, or an n-gram is to have no character.
pub open spec fn cyclic_ngrams(text: Seq<char>, n: int) -> Seq<Seq<char>> {
    if 0 < n <= text.len() {
        Seq::new(text.len(), |i: int| ngram_at(text, i, n))
    } else {
        Seq::empty()
    }
}

/// Each n-gram of a cyclic text shares all but its first character with the
/// n-gram at the next position, where the first position comes after the last.
pub proof fn lemma_cyclic_ngrams_overlap(text: Seq<char>, n: int, i: int)
    requires
        0 < n <= text.len(),
        0 <= i < text.len(),
    ensures
        cyclic_ngrams(text, n).len() == text.len(),
        cyclic_ngrams(text, n)[i] == ngram_at(text, i, n),
        ngram_at(text, i, n).len() == n,
        ngram_at(
            text,
            if i + 1 < text.len() {
                i + 1
            } else {
                0
            },
            n,
        ).take(n - 1) == ngram_at(text, i, n).skip(1),
{
}

/// Whether `c` may stand in a word: it is a letter or an apostrophe.
pub fn is_word_char(c: char) -> (answer: bool)
    ensures
        answer == word_char(c),
{
    c.is_alphabetic() || c == '\''
}

/// Strips from `word` the characters at its two ends that cannot stand in a
/// word. Gives what is left, if all of its characters may stand in a word and
/// it takes up `min_length` bytes at least.
pub fn clean_word(word: &str, min_length: usize) -> (cleaned: Option<&str>)
    ensures
        match cleaned {
            Some(inner) => cleaned_word(word@, min_length) == Some(inner@),
            None => cleaned_word(word@, min_length) is None,
        },
{
    let chars: Vec<char> = chars_of(word);
    let mut from: usize = 0;
    assert(chars@.skip(0) =~= chars@);
    while from < chars.len() && !is_word_char(chars[from])
        invariant
            0 <= from <= chars.len(),
            strip_start(chars@) == strip_start(chars@.skip(from as int)),
        decreases chars.len() - from,
    {
        assert(chars@.skip(from as int).skip(1) =~= chars@.skip(from + 1));
        from = from + 1;
    }
    let mut to: usize = chars.len();
    while to > from && !is_word_char(chars[to - 1])
        invariant
            from <= to <= chars.len(),
            stripped(chars@) == strip_end(chars@.subrange(from as int, to as int)),
        decreases to,
    {
        assert(chars@.subrange(from as int, to as int).drop_last() =~= chars@.subrange(
            from as int,
            to - 1,
        ));
        to = to - 1;
    }
    let ghost inner = chars@.subrange(from as int, to as int);
    assert(stripped(chars@) == inner);
    let mut at: usize = from;
    while at < to
        invariant
            from <= at <= to <= chars.len(),
            chars@ == word@,
            inner == chars@.subrange(from as int, to as int),
            stripped(chars@) == inner,
            forall|j: int| 0 <= j < at - from ==> word_char(#[trigger] inner[j]),
        decreases to - at,
    {
        if !is_word_char(chars[at]) {
            assert(!word_char(inner[at - from]));
            return None;
        }
        at = at + 1;
    }
    let kept: &str = word.substring_char(from, to);
    if kept.as_bytes().len() >= min_length {
        Some(kept)
    } else {
        None
    }
}

/// Cleans a text: puts it into lowercase, splits it at whitespace and keeps
/// the words that `clean_word` keeps, each with a space before it.
pub fn clean_text(text: &str, min_word_length: usize) -> (cleaned: String)
    ensures
        cleaned@ == cleaned_text(text@, min_word_length),
{
    let lower: String = text.to_lowercase();
    keep_words(lower.as_str(), min_word_length)
}

/// Splits a text at whitespace and keeps the words that `clean_word` keeps,
/// each with a space before it.
pub fn keep_words(text: &str, min_word_length: usize) -> (cleaned: String)
    ensures
        cleaned@ == clean_words(text@, min_word_length),
{
    let chars: Vec<char> = chars_of(text);
    let mut out: Vec<char> = Vec::new();
    let mut i: usize = 0;
    assert(chars@.skip(0) =~= chars@);
    while i < chars.len()
        invariant
            0 <= i <= chars.len(),
            clean_words(chars@, min_word_length) == out@ + clean_words(
                chars@.skip(i as int),
                min_word_length,
            ),
        decreases chars.len() - i,
    {
        let ghost rest = chars@.skip(i as int);
        if chars[i].is_whitespace() {
            assert(rest.skip(1) =~= chars@.skip(i + 1));
            i = i + 1;
        } else {
            let mut word: Vec<char> = Vec::new();
            let mut j: usize = i;
            while j < chars.len() && !chars[j].is_whitespace()
                invariant
                    i <= j <= chars.len(),
                    word@ == chars@.subrange(i as int, j as int),
                    word_len(chars@.skip(i as int)) == (j - i) + word_len(chars@.skip(j as int)),
                decreases chars.len() - j,
            {
                word.push(chars[j]);
                proof {
                    assert(chars@.skip(j as int).skip(1) =~= chars@.skip(j + 1));
                }
                j = j + 1;
            }
            proof {
                assert(rest.take(j - i) =~= word@);
                assert(rest.skip(j - i) =~= chars@.skip(j as int));
            }
            let ghost before = out@;
            let whole: String = string_from_chars(&word);
            match clean_word(whole.as_str(), min_word_length) {
                Some(inner) => {
                    out.push(' ');
                    let kept: Vec<char> = chars_of(inner);
                    let ghost spaced = out@;
                    let mut t: usize = 0;
                    while t < kept.len()
                        invariant
                            0 <= t <= kept.len(),
                            out@ == spaced + kept@.take(t as int),
                        decreases kept.len() - t,
                    {
                        out.push(kept[t]);
                        t = t + 1;
                    }
                },
                None => {},
            }
            proof {
                let piece = match cleaned_word(word@, min_word_length) {
                    Some(inner) => seq![' '] + inner,
                    None => Seq::empty(),
                };
                assert(clean_words(rest, min_word_length) == piece + clean_words(
                    chars@.skip(j as int),
                    min_word_length,
                ));
                assert(before + (piece + clean_words(chars@.skip(j as int), min_word_length))
                    =~= (before + piece) + clean_words(chars@.skip(j as int), min_word_length));
            }
            i = j;
        }
    }
    string_from_chars(&out)
}

/// A cursor over the n-grams of a cyclic text. Its view is the sequence of the
/// n-grams that are still to come.
#[derive(Debug)]
pub struct ToNgrams {
    text: Vec<char>,
    ngram_length: usize,
    position: usize,
}

impl View for ToNgrams {
    type V = Seq<Seq<char>>;

    closed spec fn view(&self) -> Seq<Seq<char>> {
        cyclic_ngrams(self.text@, self.ngram_length as int).skip(self.position as int)
    }
}

impl ToNgrams {
    #[verifier::type_invariant]
    spec fn inv(&self) -> bool {
        self.position <= cyclic_ngrams(self.text@, self.ngram_length as int).len()
    }

    /// A cursor before the first of the n-grams of `string`, each of
    /// `ngram_length` characters.
    pub fn new(ngram_length: usize, string: &str) -> (cursor: ToNgrams)
        ensures
            cursor@ == cyclic_ngrams(string@, ngram_length as int),
    {
        let text: Vec<char> = chars_of(string);
        assert(cyclic_ngrams(text@, ngram_length as int).skip(0) =~= cyclic_ngrams(
            text@,
            ngram_length as int,
        ));
        ToNgrams { text, ngram_length, position: 0 }
    }

    /// Hands out the next n-gram and moves on, as long as one is left.
    pub fn next(&mut self) -> (ngram: Option<String>)
        ensures
            match ngram {
                Some(ngram) => old(self)@.len() > 0 && ngram@ == old(self)@[0] && final(self)@
                    == old(self)@.skip(1),
                None => old(self)@.len() == 0 && final(self)@ == old(self)@,
            },
    {
        proof {
            use_type_invariant(&*self);
        }
        let length: usize = self.text.len();
        let size: usize = self.ngram_length;
        if size == 0 || size > length || self.position >= length {
            return None;
        }
        let start: usize = self.position;
        let mut chars: Vec<char> = Vec::new();
        let mut j: usize = 0;
        while j < size
            invariant
                0 <= j <= size <= length,
                start < length,
                length == self.text.len(),
                chars@ == ngram_at(self.text@, start as int, size as int).take(j as int),
            decreases size - j,
        {
            let c: char = if j < length - start {
                self.text[start + j]
            } else {
                self.text[j - (length - start)]
            };
            chars.push(c);
            j = j + 1;
        }
        assert(ngram_at(self.text@, start as int, size as int).take(size as int) =~= ngram_at(
            self.text@,
            start as int,
            size as int,
        ));
        self.position = start + 1;
        Some(string_from_chars(&chars))
    }
}

/// A cleaned text and the length of the n-grams to take from it.
#[derive(Debug)]
pub struct Corpus {
    text: String,
    ngram_length: usize,
}

impl Corpus {
    /// The cleaned text.
    pub closed spec fn spec_text(&self) -> Seq<char> {
        self.text@
    }

    /// The number of characters of an n-gram.
    pub closed spec fn spec_ngram_length(&self) -> usize {
        self.ngram_length
    }

    /// Cleans `text`, keeping the words of `min_word_length` bytes at least.
    pub fn new(text: &str, ngram_length: usize, min_word_length: usize) -> (corpus: Corpus)
        ensures
            corpus.spec_text() == cleaned_text(text@, min_word_length),
            corpus.spec_ngram_length() == ngram_length,
    {
        Corpus { text: clean_text(text, min_word_length), ngram_length }
    }

    /// The cleaned text.
    pub fn text(&self) -> (text: &str)
        ensures
            text@ == self.spec_text(),
    {
        self.text.as_str()
    }

    /// The number of characters of an n-gram.
    pub fn ngram_length(&self) -> (n: usize)
        ensures
            n == self.spec_ngram_length(),
    {
        self.ngram_length
    }

    /// The n-grams of the cleaned text, taken as a cycle, one from each
    /// position; none if the text is shorter than an n-gram.
    pub fn ngrams(&self) -> (ngrams: Vec<String>)
        ensures
            texts(ngrams@) == cyclic_ngrams(self.spec_text(), self.spec_ngram_length() as int),
    {
        let mut cursor = ToNgrams::new(self.ngram_length, self.text.as_str());
        let ghost all = cursor@;
        let mut ngrams: Vec<String> = Vec::new();
        assert(texts(ngrams@) + cursor@ =~= all);
        loop
            invariant
                texts(ngrams@) + cursor@ == all,
            ensures
                texts(ngrams@) == all,
            decreases cursor@.len(),
        {
            match cursor.next() {
                Some(ngram) => {
                    ngrams.push(ngram);
                },
                None => {
                    break ;
                },
            }
        }
        ngrams
    }
}

/// The n-grams of a text: cleans it, keeping the words of `min_word_length`
/// bytes at least, and takes the n-grams of `ngram_length` characters from the
/// cleaned text as from a cycle.
pub fn get_ngrams(corpus: String, ngram_length: usize, min_word_length: usize) -> (ngrams: Vec<
    String,
>)
    ensures
        texts(ngrams@) == cyclic_ngrams(
            cleaned_text(corpus@, min_word_length),
            ngram_length as int,
        ),
{
    Corpus::new(corpus.as_str(), ngram_length, min_word_length).ngrams()
}

} // verus!
