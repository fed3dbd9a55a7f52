//! A walk over the chain and the passphrase that it spells.
//!
//! A walk starts with an n-gram that begins a word and goes on from each
//! n-gram to one that may follow it. Successive n-grams of a corpus overlap in
//! all but one character, so the text that a walk spells takes one character
//! from each n-gram and the whole of the last one. The walk is over when the
//! caller has seen enough entropy and the current n-gram ends a word; how much
//! entropy the n-grams are worth is the caller's to reckon, from the weights
//! that the nodes hand out.
use crate::corpus::{cyclic_ngrams, lemma_cyclic_ngrams_overlap};
use crate::markovchain::{
    ends_with_space, ends_word, lemma_start_occurs, lemma_transition_occurs, successor_at,
    MarkovNode, PassphraseMarkovChain,
};
use crate::text::{chars_of, string_from_chars, texts, white_space};
use rand::rngs::StdRng;
use vstd::prelude::*;

verus! {

/// The first character of an n-gram, if it has one.
pub open spec fn first_char(ngram: Seq<char>) -> Seq<char> {
    if ngram.len() > 0 {
        seq![ngram[0]]
    } else {
        Seq::empty()
    }
}

/// The first characters of the n-grams, one after the other.
pub open spec fn heads(ngrams: Seq<Seq<char>>) -> Seq<char>
    decreases ngrams.len(),
{
    if ngrams.len() == 0 {
        Seq::empty()
    } else {
        heads(ngrams.drop_last()) + first_char(ngrams.last())
    }
}

/// The text that overlapping n-grams spell: the first character of each but
/// the last, then the last one in full.
pub open spec fn overlapped(selected: Seq<Seq<char>>) -> Seq<char> {
    if selected.len() == 0 {
        Seq::empty()
    } else {
        heads(selected.drop_last()) + selected.last()
    }
}

/// The text without the whitespace that it begins with.
pub open spec fn trim_start(text: Seq<char>) -> Seq<char>
    decreases text.len(),
{
    if text.len() > 0 && white_space(text[0]) {
        trim_start(text.skip(1))
    } else {
        text
    }
}

/// The text without the whitespace that it ends with.
pub open spec fn trim_end(text: Seq<char>) -> Seq<char>
    decreases text.len(),
{
    if text.len() > 0 && white_space(text.last()) {
        trim_end(text.drop_last())
    } else {
        text
    }
}

/// The text without the whitespace at its two ends.
pub open spec fn trimmed(text: Seq<char>) -> Seq<char> {
    trim_end(trim_start(text))
}

/// The passphrase that the selected n-grams spell.
pub open spec fn passphrase_of(selected: Seq<Seq<char>>) -> Seq<char> {
    trimmed(overlapped(selected))
}

/// Whether the n-grams have `n` characters each and each begins with the last
/// `n - 1` characters of the one before it.
pub open spec fn overlapping(selected: Seq<Seq<char>>, n: int) -> bool {
    &&& n >= 1
    &&& forall|i: int| 0 <= i < selected.len() ==> (#[trigger] selected[i]).len() == n
    &&& forall|i: int|
        0 < i < selected.len() ==> (#[trigger] selected[i]).take(n - 1) == selected[i - 1].skip(1)
}

/// The heads of n-grams that are not empty are their first characters.
proof fn lemma_heads_index(ngrams: Seq<Seq<char>>)
    requires
        forall|i: int| 0 <= i < ngrams.len() ==> (#[trigger] ngrams[i]).len() >= 1,
    ensures
        heads(ngrams).len() == ngrams.len(),
        forall|i: int| 0 <= i < ngrams.len() ==> heads(ngrams)[i] == (#[trigger] ngrams[i])[0],
    decreases ngrams.len(),
{
    if ngrams.len() > 0 {
        let rest = ngrams.drop_last();
        assert forall|i: int| 0 <= i < rest.len() implies (#[trigger] rest[i]).len() >= 1 by {
            assert(rest[i] == ngrams[i]);
        }
        lemma_heads_index(rest);
        assert forall|i: int| 0 <= i < ngrams.len() implies heads(ngrams)[i] == (
        #[trigger] ngrams[i])[0] by {
            if i < rest.len() {
                assert(rest[i] == ngrams[i]);
            }
        }
    }
}

/// In overlapping n-grams, a character stands one position earlier in each
/// n-gram that follows.
proof fn lemma_overlap_shifts(selected: Seq<Seq<char>>, n: int, i: int, k: int, j: int)
    requires
        overlapping(selected, n),
        0 <= i <= k < selected.len(),
        0 <= j,
        j + (k - i) < n,
    ensures
        selected[i][j + (k - i)] == selected[k][j],
    decreases k - i,
{
    if i < k {
        lemma_overlap_shifts(selected, n, i, k - 1, j + 1);
        let here = selected[k];
        let before = selected[k - 1];
        assert(here.take(n - 1) == before.skip(1));
        assert(here.take(n - 1)[j] == here[j]);
    }
}

/// The text that overlapping n-grams spell holds each of them at its
/// position: it has one character for each n-gram and the rest of the last
/// one, and the `n` characters from position `i` on are the n-gram `i`.
pub proof fn lemma_overlapped_windows(selected: Seq<Seq<char>>, n: int, i: int)
    requires
        overlapping(selected, n),
        0 <= i < selected.len(),
    ensures
        overlapped(selected).len() == selected.len() - 1 + n,
        overlapped(selected).subrange(i, i + n) == selected[i],
{
    let rest = selected.drop_last();
    let last = selected.len() - 1;
    assert forall|x: int| 0 <= x < rest.len() implies (#[trigger] rest[x]).len() >= 1 by {
        assert(rest[x] == selected[x]);
    }
    lemma_heads_index(rest);
    let spelled = overlapped(selected);
    assert(selected.last() == selected[last]);
    let window = spelled.subrange(i, i + n);
    assert forall|j: int| 0 <= j < n implies window[j] == selected[i][j] by {
        if i + j < last {
            assert(rest[i + j] == selected[i + j]);
            lemma_overlap_shifts(selected, n, i, i + j, 0);
        } else {
            lemma_overlap_shifts(selected, n, i, last, i + j - last);
        }
    }
}

/// A walk over the chain of the n-grams of a cyclic text spells, before it is
/// trimmed, a text of which every `n` successive characters are an n-gram of
/// the cyclic text: the n-gram selected at that position.
pub proof fn lemma_walk_spells_ngrams(
    chain: PassphraseMarkovChain,
    text: Seq<char>,
    n: int,
    selected: Seq<Seq<char>>,
    i: int,
)
    requires
        0 < n <= text.len(),
        chain.models(cyclic_ngrams(text, n)),
        chain.traces(selected),
        0 <= i < selected.len(),
    ensures
        overlapping(selected, n),
        overlapped(selected).len() == selected.len() - 1 + n,
        overlapped(selected).subrange(i, i + n) == selected[i],
        cyclic_ngrams(text, n).contains(selected[i]),
{
    let grams = cyclic_ngrams(text, n);
    assert forall|x: int| 0 <= x < selected.len() implies grams.contains(#[trigger] selected[x])
        && selected[x].len() == n && (x > 0 ==> selected[x].take(n - 1) == selected[x - 1].skip(
        1,
    )) by {
        if x == 0 {
            lemma_start_occurs(chain, grams, selected[0]);
            let p = choose|p: int| 0 <= p < grams.len() && grams[p] == selected[0];
            lemma_cyclic_ngrams_overlap(text, n, p);
        } else {
            lemma_transition_occurs(chain, grams, selected[x - 1], selected[x]);
            let p = choose|p: int|
                0 <= p < grams.len() && #[trigger] grams[p] == selected[x - 1] && successor_at(
                    grams,
                    p,
                ) == selected[x];
            lemma_cyclic_ngrams_overlap(text, n, p);
            let next = if p + 1 < text.len() {
                p + 1
            } else {
                0
            };
            lemma_cyclic_ngrams_overlap(text, n, next);
        }
    }
    lemma_overlapped_windows(selected, n, i);
}

/// The characters of a text without the whitespace at its two ends.
pub fn trim(chars: &Vec<char>) -> (kept: Vec<char>)
    ensures
        kept@ == trimmed(chars@),
{
    let mut from: usize = 0;
    assert(chars@.skip(0) =~= chars@);
    while from < chars.len() && chars[from].is_whitespace()
        invariant
            0 <= from <= chars.len(),
            trim_start(chars@) == trim_start(chars@.skip(from as int)),
        decreases chars.len() - from,
    {
        assert(chars@.skip(from as int).skip(1) =~= chars@.skip(from + 1));
        from = from + 1;
    }
    let mut to: usize = chars.len();
    while to > from && chars[to - 1].is_whitespace()
        invariant
            from <= to <= chars.len(),
            trimmed(chars@) == trim_end(chars@.subrange(from as int, to as int)),
        decreases to,
    {
        assert(chars@.subrange(from as int, to as int).drop_last() =~= chars@.subrange(
            from as int,
            to - 1,
        ));
        to = to - 1;
    }
    let mut kept: Vec<char> = Vec::new();
    let mut at: usize = from;
    while at < to
        invariant
            from <= at <= to <= chars.len(),
            kept@ == chars@.subrange(from as int, at as int),
        decreases to - at,
    {
        kept.push(chars[at]);
        at = at + 1;
    }
    kept
}

/// The text that the selected n-grams spell: the first character of each but
/// the last, then the last one in full.
pub fn overlap(selected: &Vec<String>) -> (chars: Vec<char>)
    ensures
        chars@ == overlapped(texts(selected@)),
{
    let ghost all = texts(selected@);
    let mut chars: Vec<char> = Vec::new();
    if selected.len() > 0 {
        let last: usize = selected.len() - 1;
        let mut i: usize = 0;
        while i < last
            invariant
                last == selected.len() - 1,
                all == texts(selected@),
                0 <= i <= last,
                chars@ == heads(all.take(i as int)),
            decreases last - i,
        {
            let ngram: &str = selected[i].as_str();
            if !ngram.is_empty() {
                chars.push(ngram.get_char(0));
            }
            proof {
                assert(all.take(i + 1).drop_last() =~= all.take(i as int));
            }
            i = i + 1;
        }
        let tail: Vec<char> = chars_of(selected[last].as_str());
        let ghost spelled = chars@;
        let mut t: usize = 0;
        while t < tail.len()
            invariant
                0 <= t <= tail.len(),
                chars@ == spelled + tail@.take(t as int),
            decreases tail.len() - t,
        {
            chars.push(tail[t]);
            t = t + 1;
        }
    }
    chars
}

/// The passphrase that the selected n-grams spell: the text of their overlap
/// without the whitespace at its two ends.
pub fn assemble(selected: &Vec<String>) -> (passphrase: String)
    ensures
        passphrase@ == passphrase_of(texts(selected@)),
{
    let chars: Vec<char> = overlap(selected);
    let kept: Vec<char> = trim(&chars);
    string_from_chars(&kept)
}

/// Whether a walk is over: enough entropy has been seen and the current
/// n-gram ends a word.
pub fn is_complete(enough_entropy: bool, ngram: &str) -> (complete: bool)
    ensures
        complete == (enough_entropy && ends_word(ngram@)),
{
    enough_entropy && ends_with_space(ngram)
}

/// A walk over a chain: the n-grams selected so far. Its view is the sequence
/// of their texts, which is a trace of the chain at every moment.
pub struct Walk<'a> {
    chain: &'a PassphraseMarkovChain,
    selected: Vec<String>,
}

impl<'a> View for Walk<'a> {
    type V = Seq<Seq<char>>;

    closed spec fn view(&self) -> Seq<Seq<char>> {
        texts(self.selected@)
    }
}

impl<'a> Walk<'a> {
    /// The chain that is walked over.
    pub closed spec fn spec_chain(&self) -> PassphraseMarkovChain {
        *self.chain
    }

    #[verifier::type_invariant]
    spec fn inv(&self) -> bool {
        self.chain.wf() && self.chain.traces(self@)
    }

    /// Starts a walk with the n-gram that the draw of `column` and `level`
    /// selects among those that begin a word.
    pub fn begin_at(chain: &'a PassphraseMarkovChain, column: usize, level: u128) -> (walk: Walk<
        'a,
    >)
        requires
            column < chain.spec_starting_dist().spec_len(),
            level < chain.spec_starting_dist().spec_total(),
        ensures
            walk.spec_chain() == *chain,
            walk@ == seq![
                chain.spec_starting()[chain.spec_starting_dist().selected(
                    column as int,
                    level as int,
                )],
            ],
            chain.traces(walk@),
    {
        let start: &str = chain.start_at(column, level);
        let mut selected: Vec<String> = Vec::new();
        selected.push(start.to_owned());
        assert(texts(selected@) =~= seq![start@]);
        Walk { chain, selected }
    }

    /// Starts a walk with an n-gram drawn among those that begin a word.
    pub fn begin(chain: &'a PassphraseMarkovChain, rng: &mut StdRng) -> (walk: Walk<'a>)
        ensures
            walk.spec_chain() == *chain,
            walk@.len() == 1,
            chain.traces(walk@),
    {
        let (column, level) = chain.starting_dist().draw(rng);
        Walk::begin_at(chain, column, level)
    }

    /// The n-grams selected so far. They are a trace of the chain.
    pub fn selected(&self) -> (selected: &Vec<String>)
        ensures
            texts(selected@) == self@,
            self.spec_chain().traces(self@),
    {
        proof {
            use_type_invariant(self);
        }
        &self.selected
    }

    /// The n-gram at which the walk stands.
    pub fn current(&self) -> (ngram: &str)
        ensures
            self@.len() > 0,
            ngram@ == self@.last(),
            self.spec_chain().has_node(ngram@),
    {
        proof {
            use_type_invariant(self);
            self.chain.lemma_trace_has_nodes(self@, self@.len() - 1);
        }
        self.selected[self.selected.len() - 1].as_str()
    }

    /// The node of the n-gram at which the walk stands.
    pub fn current_node(&self) -> (node: &MarkovNode<String>)
        ensures
            self@.len() > 0,
            node.spec_value()@ == self@.last(),
            texts(node.spec_transitions()) == self.spec_chain().following(self@.last()),
            node.spec_weights() == self.spec_chain().following_weights(self@.last()),
            node.spec_dist() == self.spec_chain().following_dist(self@.last()),
    {
        let ngram: &str = self.current();
        self.chain.node(ngram).unwrap()
    }

    /// Whether the walk is over, given whether enough entropy has been seen:
    /// it is if the n-gram at which it stands ends a word.
    pub fn complete(&self, enough_entropy: bool) -> (complete: bool)
        ensures
            self@.len() > 0,
            complete == (enough_entropy && ends_word(self@.last())),
    {
        is_complete(enough_entropy, self.current())
    }

    /// Goes on to the n-gram that the draw of `column` and `level` selects
    /// among those that may follow the current one.
    pub fn advance(self, column: usize, level: u128) -> (walk: Walk<'a>)
        requires
            column < self.spec_chain().following_dist(self@.last()).spec_len(),
            level < self.spec_chain().following_dist(self@.last()).spec_total(),
        ensures
            self@.len() > 0,
            walk.spec_chain() == self.spec_chain(),
            walk@ == self@.push(
                self.spec_chain().following(self@.last())[self.spec_chain().following_dist(
                    self@.last(),
                ).selected(column as int, level as int)],
            ),
            self.spec_chain().may_follow(self@.last(), walk@.last()),
    {
        proof {
            use_type_invariant(&self);
        }
        let next: String = self.current_node().pick(column, level).clone();
        let ghost before = self@;
        let ghost t = self.chain.following_dist(before.last()).selected(column as int, level as int);
        let Walk { chain, mut selected } = self;
        selected.push(next);
        proof {
            let after = texts(selected@);
            assert(after =~= before.push(next@));
            assert(chain.following(before.last())[t] == next@);
            assert(chain.may_follow(before.last(), next@));
            chain.lemma_follower_has_node(before.last(), next@);
            assert forall|i: int| 0 < i < after.len() implies chain.may_follow(
                after[i - 1],
                #[trigger] after[i],
            ) by {
                if i < before.len() {
                    assert(after[i] == before[i]);
                }
            }
        }
        Walk { chain, selected }
    }

    /// The passphrase that the selected n-grams spell.
    pub fn finish(self) -> (passphrase: String)
        ensures
            passphrase@ == passphrase_of(self@),
    {
        assemble(&self.selected)
    }

    /// One step of the walk. Given whether enough entropy has been seen, the
    /// walk is complete if the current n-gram ends a word, and the passphrase
    /// that it spells comes out. Else an n-gram that may follow the current
    /// one is drawn and selected, and the walk goes on.
    pub fn step(self, enough_entropy: bool, rng: &mut StdRng) -> (outcome: Step<'a>)
        ensures
            self@.len() > 0,
            match outcome {
                Step::Complete(passphrase) => {
                    &&& enough_entropy
                    &&& ends_word(self@.last())
                    &&& passphrase@ == passphrase_of(self@)
                },
                Step::Onward(walk) => {
                    &&& !(enough_entropy && ends_word(self@.last()))
                    &&& walk.spec_chain() == self.spec_chain()
                    &&& walk@.len() == self@.len() + 1
                    &&& walk@.drop_last() == self@
                    &&& self.spec_chain().may_follow(self@.last(), walk@.last())
                },
            },
    {
        if self.complete(enough_entropy) {
            Step::Complete(self.finish())
        } else {
            let (column, level) = self.current_node().dist().draw(rng);
            let walk = self.advance(column, level);
            assert(walk@.drop_last() =~= self@);
            Step::Onward(walk)
        }
    }
}

/// What a step of a walk comes to.
pub enum Step<'a> {
    /// The walk goes on, with one n-gram more.
    Onward(Walk<'a>),
    /// The walk is complete and has spelled this passphrase.
    Complete(String),
}

} // verus!
