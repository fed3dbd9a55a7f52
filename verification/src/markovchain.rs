//! The chain: one node for each distinct n-gram, with a sampler over the
//! n-grams that follow it, and a sampler over the n-grams that begin a word.
use crate::alias_dist::{weight_sum, AliasDistribution};
use crate::errors::{AliasDistributionError, MarkovChainError};
use crate::tally::{
    distinct, lemma_distinct_contains, lemma_distinct_no_duplicates, lemma_occurrences_bounded,
    no_duplicates, occurrences, Tally,
};
use crate::text::texts;
use rand::rngs::StdRng;
use vstd::hash_map::StringHashMap;
use vstd::prelude::*;
use vstd::string::StrSliceExecFns;

verus! {

/// Whether an n-gram begins a word: its first character is a space.
pub open spec fn begins_word(ngram: Seq<char>) -> bool {
    ngram.len() > 0 && ngram[0] == ' '
}

/// Whether an n-gram ends a word: its last character is a space.
pub open spec fn ends_word(ngram: Seq<char>) -> bool {
    ngram.len() > 0 && ngram.last() == ' '
}

/// The n-gram that follows the one at position `i`, where the first follows
/// the last.
pub open spec fn successor_at(ngrams: Seq<Seq<char>>, i: int) -> Seq<char> {
    if i + 1 < ngrams.len() {
        ngrams[i + 1]
    } else {
        ngrams[0]
    }
}

/// The n-grams that follow the occurrences of `ngram` among the first `upto`
/// positions, in their order.
pub open spec fn successors(ngrams: Seq<Seq<char>>, ngram: Seq<char>, upto: int) -> Seq<Seq<char>>
    decreases upto,
{
    if upto <= 0 {
        Seq::empty()
    } else {
        let before = successors(ngrams, ngram, upto - 1);
        if ngrams[upto - 1] == ngram {
            before.push(successor_at(ngrams, upto - 1))
        } else {
            before
        }
    }
}

/// Those of the first `upto` n-grams that begin a word, in their order.
pub open spec fn word_starts(ngrams: Seq<Seq<char>>, upto: int) -> Seq<Seq<char>>
    decreases upto,
{
    if upto <= 0 {
        Seq::empty()
    } else {
        let before = word_starts(ngrams, upto - 1);
        if begins_word(ngrams[upto - 1]) {
            before.push(ngrams[upto - 1])
        } else {
            before
        }
    }
}

/// An n-gram has as many successors as it has occurrences.
pub proof fn lemma_successors_len(ngrams: Seq<Seq<char>>, ngram: Seq<char>, upto: int)
    requires
        0 <= upto <= ngrams.len(),
    ensures
        successors(ngrams, ngram, upto).len() == occurrences(ngrams.take(upto), ngram),
    decreases upto,
{
    if upto > 0 {
        lemma_successors_len(ngrams, ngram, upto - 1);
        assert(ngrams.take(upto).drop_last() =~= ngrams.take(upto - 1));
    }
}

/// Every successor is one of the n-grams.
pub proof fn lemma_successors_within(ngrams: Seq<Seq<char>>, ngram: Seq<char>, upto: int)
    requires
        0 <= upto <= ngrams.len(),
    ensures
        forall|t: int|
            0 <= t < successors(ngrams, ngram, upto).len() ==> ngrams.contains(
                #[trigger] successors(ngrams, ngram, upto)[t],
            ),
    decreases upto,
{
    if upto > 0 {
        lemma_successors_within(ngrams, ngram, upto - 1);
        let next = successor_at(ngrams, upto - 1);
        if upto < ngrams.len() {
            assert(ngrams[upto] == next);
        } else {
            assert(ngrams[0] == next);
        }
        let before = successors(ngrams, ngram, upto - 1);
        let now = successors(ngrams, ngram, upto);
        assert forall|t: int| 0 <= t < now.len() implies ngrams.contains(#[trigger] now[t]) by {
            if t < before.len() {
                assert(now[t] == before[t]);
            }
        }
    }
}

/// The n-grams that begin a word are among the n-grams, and begin a word.
pub proof fn lemma_word_starts_within(ngrams: Seq<Seq<char>>, upto: int)
    requires
        0 <= upto <= ngrams.len(),
    ensures
        word_starts(ngrams, upto).len() <= upto,
        forall|t: int|
            0 <= t < word_starts(ngrams, upto).len() ==> ngrams.contains(
                #[trigger] word_starts(ngrams, upto)[t],
            ) && begins_word(word_starts(ngrams, upto)[t]),
    decreases upto,
{
    if upto > 0 {
        lemma_word_starts_within(ngrams, upto - 1);
        let before = word_starts(ngrams, upto - 1);
        let now = word_starts(ngrams, upto);
        assert forall|t: int| 0 <= t < now.len() implies ngrams.contains(#[trigger] now[t])
            && begins_word(now[t]) by {
            if t < before.len() {
                assert(now[t] == before[t]);
            }
        }
    }
}

/// One n-gram of the chain: the n-grams that may follow it and a sampler over
/// them.
#[derive(Debug)]
pub struct MarkovNode<T> {
    value: T,
    transitions: Vec<T>,
    dist: AliasDistribution,
}

impl<T> MarkovNode<T> {
    /// What the node stands for.
    pub closed spec fn spec_value(&self) -> T {
        self.value
    }

    /// What may follow.
    pub closed spec fn spec_transitions(&self) -> Seq<T> {
        self.transitions@
    }

    /// The weight of each transition.
    pub closed spec fn spec_weights(&self) -> Seq<u64> {
        self.dist.spec_weights()
    }

    /// The sampler over the transitions.
    pub closed spec fn spec_dist(&self) -> AliasDistribution {
        self.dist
    }

    /// Each transition has a weight, and one at least is not zero.
    pub open spec fn wf(&self) -> bool {
        &&& self.spec_transitions().len() == self.spec_weights().len()
        &&& weight_sum(self.spec_weights(), self.spec_weights().len() as int) > 0
    }

    #[verifier::type_invariant]
    spec fn inv(&self) -> bool {
        self.wf() && self.dist.wf()
    }

    /// The node of `value`, which `values` may follow, each with the weight
    /// that stands at its place in `weights`.
    ///
    /// Fails with `NullDistribution` if no weight is more than zero, as when
    /// there is none.
    pub fn new(value: T, values: Vec<T>, weights: Vec<u64>) -> (result: Result<
        MarkovNode<T>,
        AliasDistributionError,
    >)
        requires
            values.len() == weights.len(),
        ensures
            match result {
                Ok(node) => {
                    &&& node.wf()
                    &&& node.spec_value() == value
                    &&& node.spec_transitions() == values@
                    &&& node.spec_weights() == weights@
                },
                Err(error) => error == AliasDistributionError::NullDistribution && forall|t: int|
                    0 <= t < weights.len() ==> weights[t] == 0,
            },
            result is Ok <==> exists|t: int| 0 <= t < weights.len() && weights[t] > 0,
    {
        match AliasDistribution::from_counts(&weights) {
            Ok(dist) => Ok(MarkovNode { value, transitions: values, dist }),
            Err(error) => Err(error),
        }
    }

    /// What the node stands for.
    pub fn value(&self) -> (value: &T)
        ensures
            *value == self.spec_value(),
    {
        &self.value
    }

    /// What may follow.
    pub fn transitions(&self) -> (transitions: &Vec<T>)
        ensures
            transitions@ == self.spec_transitions(),
            self.wf(),
    {
        proof {
            use_type_invariant(self);
        }
        &self.transitions
    }

    /// The weight of each transition.
    pub fn weights(&self) -> (weights: &Vec<u64>)
        ensures
            weights@ == self.spec_weights(),
            self.wf(),
    {
        proof {
            use_type_invariant(self);
        }
        self.dist.weights()
    }

    /// The sampler over the transitions: its weights are theirs.
    pub fn dist(&self) -> (dist: &AliasDistribution)
        ensures
            *dist == self.spec_dist(),
            dist.wf(),
            dist.spec_weights() == self.spec_weights(),
            dist.spec_len() == self.spec_transitions().len(),
    {
        proof {
            use_type_invariant(self);
        }
        &self.dist
    }

    /// What follows by the draw of `column` and `level`: the transition that
    /// the sampler selects. Its weight is not zero.
    pub fn pick(&self, column: usize, level: u128) -> (following: &T)
        requires
            column < self.spec_dist().spec_len(),
            level < self.spec_dist().spec_total(),
        ensures
            0 <= self.spec_dist().selected(column as int, level as int)
                < self.spec_transitions().len(),
            *following == self.spec_transitions()[self.spec_dist().selected(
                column as int,
                level as int,
            )],
            self.spec_weights()[self.spec_dist().selected(column as int, level as int)] > 0,
    {
        proof {
            use_type_invariant(self);
        }
        let t: usize = self.dist.select(column, level);
        &self.transitions[t]
    }

    /// Draws what follows. Whatever the generator hands out, it is one of the
    /// transitions, and its weight is not zero.
    pub fn next(&self, rng: &mut StdRng) -> (following: &T)
        ensures
            exists|t: int|
                0 <= t < self.spec_transitions().len() && self.spec_weights()[t] > 0
                    && *following == #[trigger] self.spec_transitions()[t],
    {
        let (column, level) = self.dist().draw(rng);
        self.pick(column, level)
    }
}

/// Whether no n-gram leaves a choice: each is followed by one n-gram only,
/// however often it occurs.
pub open spec fn without_choice(ngrams: Seq<Seq<char>>) -> bool {
    forall|i: int|
        0 <= i < ngrams.len() ==> distinct(
            successors(ngrams, #[trigger] ngrams[i], ngrams.len() as int),
        ).len() == 1
}

/// What follows an n-gram of the sequence is an n-gram of the sequence.
proof fn lemma_transition_within(ngrams: Seq<Seq<char>>, ngram: Seq<char>, following: Seq<char>)
    requires
        distinct(successors(ngrams, ngram, ngrams.len() as int)).contains(following),
    ensures
        distinct(ngrams).contains(following),
        occurrences(successors(ngrams, ngram, ngrams.len() as int), following) >= 1,
{
    let all = successors(ngrams, ngram, ngrams.len() as int);
    lemma_distinct_contains(all, following);
    lemma_successors_within(ngrams, ngram, ngrams.len() as int);
    let t = choose|t: int| 0 <= t < all.len() && all[t] == following;
    assert(ngrams.contains(all[t]));
    lemma_distinct_contains(ngrams, following);
}

/// An n-gram that begins a word of the sequence is an n-gram of the sequence.
proof fn lemma_start_within(ngrams: Seq<Seq<char>>, start: Seq<char>)
    requires
        distinct(word_starts(ngrams, ngrams.len() as int)).contains(start),
    ensures
        distinct(ngrams).contains(start),
        begins_word(start),
        occurrences(word_starts(ngrams, ngrams.len() as int), start) >= 1,
{
    let all = word_starts(ngrams, ngrams.len() as int);
    lemma_distinct_contains(all, start);
    lemma_word_starts_within(ngrams, ngrams.len() as int);
    let t = choose|t: int| 0 <= t < all.len() && all[t] == start;
    assert(ngrams.contains(all[t]));
    lemma_distinct_contains(ngrams, start);
}

/// An n-gram of the sequence has a successor.
proof fn lemma_has_successor(ngrams: Seq<Seq<char>>, ngram: Seq<char>)
    requires
        distinct(ngrams).contains(ngram),
    ensures
        distinct(successors(ngrams, ngram, ngrams.len() as int)).len() >= 1,
{
    let all = successors(ngrams, ngram, ngrams.len() as int);
    lemma_distinct_contains(ngrams, ngram);
    lemma_successors_len(ngrams, ngram, ngrams.len() as int);
    assert(ngrams.take(ngrams.len() as int) =~= ngrams);
    lemma_distinct_contains(all, all[0]);
    assert(distinct(all).contains(all[0]));
}

/// Whether `ngram` begins a word.
pub fn begins_with_space(ngram: &str) -> (answer: bool)
    ensures
        answer == begins_word(ngram@),
{
    !ngram.is_empty() && ngram.get_char(0) == ' '
}

/// Whether `ngram` ends a word.
pub fn ends_with_space(ngram: &str) -> (answer: bool)
    ensures
        answer == ends_word(ngram@),
{
    let length: usize = ngram.unicode_len();
    length > 0 && ngram.get_char(length - 1) == ' '
}

/// A copy of a list of strings.
fn clone_strings(strings: &Vec<String>) -> (copy: Vec<String>)
    ensures
        texts(copy@) == texts(strings@),
{
    let mut copy: Vec<String> = Vec::new();
    let mut t: usize = 0;
    while t < strings.len()
        invariant
            0 <= t <= strings.len(),
            copy.len() == t,
            forall|u: int| 0 <= u < t ==> copy[u]@ == strings[u]@,
        decreases strings.len() - t,
    {
        copy.push(strings[t].clone());
        t = t + 1;
    }
    copy
}

/// A copy of a list of counts.
fn clone_counts(counts: &Vec<u64>) -> (copy: Vec<u64>)
    ensures
        copy@ == counts@,
{
    let mut copy: Vec<u64> = Vec::new();
    let mut t: usize = 0;
    while t < counts.len()
        invariant
            0 <= t <= counts.len(),
            copy@ == counts@.take(t as int),
        decreases counts.len() - t,
    {
        copy.push(counts[t]);
        t = t + 1;
    }
    copy
}

/// The chain over the n-grams of a corpus.
pub struct PassphraseMarkovChain {
    nodes: Vec<MarkovNode<String>>,
    index: StringHashMap<usize>,
    starting_ngrams: Vec<String>,
    starting_dist: AliasDistribution,
}

impl PassphraseMarkovChain {
    /// The n-grams of the chain, one for each node.
    pub closed spec fn spec_values(&self) -> Seq<Seq<char>> {
        Seq::new(self.nodes.len() as nat, |k: int| self.nodes[k].spec_value()@)
    }

    /// The n-grams that may follow the n-gram of node `k`.
    pub closed spec fn spec_transitions(&self, k: int) -> Seq<Seq<char>> {
        texts(self.nodes[k].spec_transitions())
    }

    /// The weight of each transition of node `k`.
    pub closed spec fn spec_weights(&self, k: int) -> Seq<u64> {
        self.nodes[k].spec_weights()
    }

    /// The sampler over the transitions of node `k`.
    pub closed spec fn spec_dist(&self, k: int) -> AliasDistribution {
        self.nodes[k].spec_dist()
    }

    /// The sampler over the n-grams with which a passphrase may start.
    pub closed spec fn spec_starting_dist(&self) -> AliasDistribution {
        self.starting_dist
    }

    /// The n-grams with which a passphrase may start.
    pub closed spec fn spec_starting(&self) -> Seq<Seq<char>> {
        texts(self.starting_ngrams@)
    }

    /// The weight of each n-gram with which a passphrase may start.
    pub closed spec fn spec_starting_weights(&self) -> Seq<u64> {
        self.starting_dist.spec_weights()
    }

    /// The chain is that of the sequence `ngrams`, taken as a cycle. Its nodes
    /// are the distinct n-grams in the order in which they first occur. The
    /// transitions of a node are the distinct n-grams that follow its n-gram,
    /// in the order in which they first do, and the weight of a transition is
    /// the number of times that it occurs. A passphrase may start with each
    /// distinct n-gram that begins a word, with the number of its occurrences
    /// as its weight.
    pub open spec fn models(&self, ngrams: Seq<Seq<char>>) -> bool {
        &&& self.spec_values() == distinct(ngrams)
        &&& forall|k: int|
            #![trigger self.spec_transitions(k)]
            #![trigger self.spec_weights(k)]
            0 <= k < self.spec_values().len() ==> {
                let following = successors(ngrams, self.spec_values()[k], ngrams.len() as int);
                &&& self.spec_transitions(k) == distinct(following)
                &&& self.spec_weights(k).len() == self.spec_transitions(k).len()
                &&& forall|t: int|
                    #![trigger self.spec_transitions(k)[t]]
                    #![trigger self.spec_weights(k)[t]]
                    0 <= t < self.spec_transitions(k).len() ==> self.spec_weights(k)[t]
                        == occurrences(following, self.spec_transitions(k)[t])
            }
        &&& self.spec_starting() == distinct(word_starts(ngrams, ngrams.len() as int))
        &&& self.spec_starting_weights().len() == self.spec_starting().len()
        &&& forall|t: int|
            #![trigger self.spec_starting()[t]]
            #![trigger self.spec_starting_weights()[t]]
            0 <= t < self.spec_starting().len() ==> self.spec_starting_weights()[t] == occurrences(
                word_starts(ngrams, ngrams.len() as int),
                self.spec_starting()[t],
            )
    }

    /// No n-gram has two nodes; every node has a transition, and what follows
    /// has a node of its own; no weight is zero; there are two n-grams at
    /// least with which a passphrase may start, each begins a word and has a
    /// node; and some node has more than one transition.
    pub open spec fn wf(&self) -> bool {
        &&& no_duplicates(self.spec_values())
        &&& forall|k: int|
            #![trigger self.spec_transitions(k)]
            #![trigger self.spec_weights(k)]
            0 <= k < self.spec_values().len() ==> {
                &&& self.spec_transitions(k).len() >= 1
                &&& self.spec_weights(k).len() == self.spec_transitions(k).len()
                &&& forall|t: int|
                    #![trigger self.spec_transitions(k)[t]]
                    #![trigger self.spec_weights(k)[t]]
                    0 <= t < self.spec_transitions(k).len() ==> self.spec_weights(k)[t] >= 1
                        && self.spec_values().contains(self.spec_transitions(k)[t])
            }
        &&& exists|k: int|
            0 <= k < self.spec_values().len() && (#[trigger] self.spec_transitions(k)).len() >= 2
        &&& self.spec_starting().len() >= 2
        &&& self.spec_starting_weights().len() == self.spec_starting().len()
        &&& forall|t: int|
            #![trigger self.spec_starting()[t]]
            #![trigger self.spec_starting_weights()[t]]
            0 <= t < self.spec_starting().len() ==> self.spec_starting_weights()[t] >= 1
                && begins_word(self.spec_starting()[t]) && self.spec_values().contains(
                self.spec_starting()[t],
            )
    }

    #[verifier::type_invariant]
    spec fn inv(&self) -> bool {
        &&& self.wf()
        &&& self.starting_dist.wf()
        &&& forall|key: Seq<char>|
            self.index@.contains_key(key) <==> self.spec_values().contains(key)
        &&& forall|k: int|
            0 <= k < self.nodes.len() ==> self.index@[#[trigger] self.spec_values()[k]] == k
    }

    /// Builds the chain of a sequence of n-grams, taken as a cycle: the first
    /// follows the last.
    ///
    /// Fails with `NoNgrams` if the sequence is empty; else with `ZeroEntropy`
    /// if no n-gram leaves a choice of what follows it; else with
    /// `ZeroStartOfWordEntropy` if fewer than two distinct n-grams begin a
    /// word.
    pub fn new(ngrams: &Vec<String>) -> (result: Result<PassphraseMarkovChain, MarkovChainError>)
        ensures
            match result {
                Ok(chain) => {
                    &&& chain.wf()
                    &&& chain.models(texts(ngrams@))
                    &&& ngrams.len() > 0
                    &&& !without_choice(texts(ngrams@))
                    &&& distinct(word_starts(texts(ngrams@), ngrams.len() as int)).len() >= 2
                },
                Err(MarkovChainError::NoNgrams) => ngrams.len() == 0,
                Err(MarkovChainError::ZeroEntropy) => ngrams.len() > 0 && without_choice(
                    texts(ngrams@),
                ),
                Err(MarkovChainError::ZeroStartOfWordEntropy) => {
                    &&& ngrams.len() > 0
                    &&& !without_choice(texts(ngrams@))
                    &&& distinct(word_starts(texts(ngrams@), ngrams.len() as int)).len() < 2
                },
            },
    {
        let count: usize = ngrams.len();
        if count == 0 {
            return Err(MarkovChainError::NoNgrams);
        }
        let ghost grams = texts(ngrams@);
        let mut values: Vec<String> = Vec::new();
        let mut index: StringHashMap<usize> = StringHashMap::new();
        let mut followers: Vec<Tally> = Vec::new();
        let mut starts = Tally::new();
        // Count each n-gram that begins a word, and for each n-gram what
        // follows it; what follows the last one is the first.
        let mut i: usize = 0;
        assert(texts(values@) =~= distinct(grams.take(0)));
        while i < count
            invariant
                count == ngrams.len(),
                grams == texts(ngrams@),
                0 <= i <= count,
                texts(values@) == distinct(grams.take(i as int)),
                followers.len() == values.len(),
                forall|k: int|
                    0 <= k < followers.len() ==> (#[trigger] followers[k]).wf() && followers[k]@
                        == successors(grams, texts(values@)[k], i as int),
                starts.wf(),
                starts@ == word_starts(grams, i as int),
                forall|key: Seq<char>|
                    index@.contains_key(key) <==> texts(values@).contains(key),
                forall|k: int|
                    0 <= k < values.len() ==> index@[#[trigger] texts(values@)[k]] == k,
            decreases count - i,
        {
            let current: &String = &ngrams[i];
            let following: &String = if i + 1 < count {
                &ngrams[i + 1]
            } else {
                &ngrams[0]
            };
            let ghost before = texts(values@);
            proof {
                assert(grams.take(i + 1).drop_last() =~= grams.take(i as int));
                lemma_distinct_contains(grams.take(i as int), current@);
                lemma_distinct_no_duplicates(grams.take(i as int));
                lemma_distinct_no_duplicates(grams.take(i + 1));
                lemma_word_starts_within(grams, i as int);
                lemma_successors_len(grams, current@, i as int);
                lemma_occurrences_bounded(grams.take(i as int), current@);
            }
            if begins_with_space(current.as_str()) {
                starts.record(current);
            }
            let found: Option<&usize> = index.get(current.as_str());
            let k: usize = match found {
                Some(k) => *k,
                None => {
                    let k: usize = values.len();
                    values.push(current.clone());
                    followers.push(Tally::new());
                    index.insert(current.clone(), k);
                    proof {
                        assert forall|key: Seq<char>| index@.contains_key(key) implies texts(
                            values@,
                        ).contains(key) by {
                            if key == current@ {
                                assert(texts(values@)[k as int] == key);
                            } else {
                                let u = choose|u: int| 0 <= u < before.len() && before[u] == key;
                                assert(texts(values@)[u] == key);
                            }
                        }
                        assert forall|key: Seq<char>| texts(values@).contains(key) implies index@.contains_key(
                            key,
                        ) by {
                            let u = choose|u: int|
                                0 <= u < texts(values@).len() && texts(values@)[u] == key;
                            if u < before.len() {
                                assert(before[u] == key);
                            }
                        }
                        assert forall|u: int| 0 <= u < values.len() implies index@[#[trigger] texts(
                            values@,
                        )[u]] == u by {
                            if u < before.len() {
                                assert(before[u] == texts(values@)[u]);
                            }
                        }
                    }
                    k
                },
            };
            proof {
                assert(texts(values@).contains(current@));
                let u = choose|u: int| 0 <= u < values.len() && texts(values@)[u] == current@;
                assert(index@[texts(values@)[u]] == u);
                lemma_successors_len(grams, current@, i as int);
            }
            let ghost tallies_before = followers@;
            followers[k].record(following);
            proof {
                assert forall|u: int| 0 <= u < followers.len() implies (#[trigger] followers[u]).wf()
                    && followers[u]@ == successors(grams, texts(values@)[u], i + 1) by {
                    if u != k {
                        assert(followers[u] == tallies_before[u]);
                    }
                }
            }
            i = i + 1;
        }
        assert(grams.take(count as int) =~= grams);
        // A choice is left if some n-gram is followed by more than one.
        let mut branching: bool = false;
        let mut k: usize = 0;
        while k < followers.len()
            invariant
                0 <= k <= followers.len(),
                branching <==> exists|u: int| 0 <= u < k && (#[trigger] followers[u]).spec_keys().len() != 1,
            decreases followers.len() - k,
        {
            if followers[k].len() != 1 {
                branching = true;
            }
            k = k + 1;
        }
        proof {
            if branching {
                let u = choose|u: int|
                    0 <= u < followers.len() && (#[trigger] followers[u]).spec_keys().len() != 1;
                let value = texts(values@)[u];
                assert(distinct(grams).contains(value));
                lemma_distinct_contains(grams, value);
                let at = choose|at: int| 0 <= at < grams.len() && grams[at] == value;
                assert(distinct(successors(grams, grams[at], grams.len() as int)).len() != 1);
            } else {
                assert forall|at: int| 0 <= at < grams.len() implies distinct(
                    successors(grams, #[trigger] grams[at], grams.len() as int),
                ).len() == 1 by {
                    lemma_distinct_contains(grams, grams[at]);
                    let u = choose|u: int|
                        0 <= u < values.len() && texts(values@)[u] == grams[at];
                    assert(followers[u].spec_keys().len() == 1);
                }
            }
        }
        if !branching {
            return Err(MarkovChainError::ZeroEntropy);
        }
        if starts.len() < 2 {
            return Err(MarkovChainError::ZeroStartOfWordEntropy);
        }
        // Every count is of an n-gram seen, so no sampler can fail.
        let mut nodes: Vec<MarkovNode<String>> = Vec::new();
        k = 0;
        while k < values.len()
            invariant
                0 <= k <= values.len(),
                followers.len() == values.len(),
                nodes.len() == k,
                texts(values@) == distinct(grams),
                forall|u: int|
                    0 <= u < followers.len() ==> (#[trigger] followers[u]).wf() && followers[u]@
                        == successors(grams, texts(values@)[u], grams.len() as int),
                forall|u: int|
                    0 <= u < k ==> {
                        &&& (#[trigger] nodes[u]).spec_value()@ == values[u]@
                        &&& texts(nodes[u].spec_transitions()) == followers[u].spec_keys()
                        &&& nodes[u].spec_weights() == followers[u].spec_counts()
                    },
            decreases values.len() - k,
        {
            let tally: &Tally = &followers[k];
            let keys: Vec<String> = clone_strings(tally.keys());
            let counts: Vec<u64> = clone_counts(tally.counts());
            proof {
                let value = texts(values@)[k as int];
                assert(distinct(grams).contains(value));
                lemma_has_successor(grams, value);
                assert forall|t: int| 0 <= t < counts.len() implies counts[t] >= 1 by {
                    let key = tally.spec_keys()[t];
                    assert(distinct(tally@).contains(key));
                    lemma_distinct_contains(tally@, key);
                }
                assert(counts[0] >= 1);
            }
            let node = MarkovNode::new(values[k].clone(), keys, counts).unwrap();
            nodes.push(node);
            k = k + 1;
        }
        let (starting_ngrams, starting_weights) = starts.into_parts();
        proof {
            assert forall|t: int| 0 <= t < starting_weights.len() implies starting_weights[t]
                >= 1 by {
                let key = texts(starting_ngrams@)[t];
                assert(distinct(word_starts(grams, grams.len() as int)).contains(key));
                lemma_start_within(grams, key);
            }
        }
        let starting_dist = AliasDistribution::from_counts(&starting_weights).unwrap();
        proof {
            let chain = PassphraseMarkovChain { nodes, index, starting_ngrams, starting_dist };
            assert(chain.spec_values() =~= texts(values@));
            lemma_distinct_no_duplicates(grams);
            assert forall|u: int|
                #![trigger chain.spec_transitions(u)]
                #![trigger chain.spec_weights(u)]
                0 <= u < chain.spec_values().len() implies {
                let following = successors(grams, chain.spec_values()[u], grams.len() as int);
                &&& chain.spec_transitions(u) == distinct(following)
                &&& chain.spec_weights(u).len() == chain.spec_transitions(u).len()
                &&& chain.spec_transitions(u).len() >= 1
                &&& forall|t: int|
                    #![trigger chain.spec_transitions(u)[t]]
                    #![trigger chain.spec_weights(u)[t]]
                    0 <= t < chain.spec_transitions(u).len() ==> chain.spec_weights(u)[t]
                        == occurrences(following, chain.spec_transitions(u)[t])
                        && chain.spec_weights(u)[t] >= 1 && chain.spec_values().contains(
                        chain.spec_transitions(u)[t],
                    )
            } by {
                let value = chain.spec_values()[u];
                let following = successors(grams, value, grams.len() as int);
                assert(followers[u].wf());
                lemma_has_successor(grams, value);
                assert forall|t: int|
                    #![trigger chain.spec_transitions(u)[t]]
                    #![trigger chain.spec_weights(u)[t]]
                    0 <= t < chain.spec_transitions(u).len() implies chain.spec_weights(u)[t]
                    == occurrences(following, chain.spec_transitions(u)[t]) && chain.spec_weights(
                    u,
                )[t] >= 1 && chain.spec_values().contains(chain.spec_transitions(u)[t]) by {
                    let next = chain.spec_transitions(u)[t];
                    assert(distinct(following).contains(next));
                    lemma_transition_within(grams, value, next);
                }
            }
            assert forall|t: int|
                #![trigger chain.spec_starting()[t]]
                #![trigger chain.spec_starting_weights()[t]]
                0 <= t < chain.spec_starting().len() implies chain.spec_starting_weights()[t] >= 1
                && begins_word(chain.spec_starting()[t]) && chain.spec_values().contains(
                chain.spec_starting()[t],
            ) by {
                let key = chain.spec_starting()[t];
                assert(distinct(word_starts(grams, grams.len() as int)).contains(key));
                lemma_start_within(grams, key);
            }
            let u = choose|u: int|
                0 <= u < followers.len() && (#[trigger] followers[u]).spec_keys().len() != 1;
            assert(chain.spec_transitions(u).len() >= 2);
        }
        Ok(PassphraseMarkovChain { nodes, index, starting_ngrams, starting_dist })
    }

    /// Whether `ngram` has a node.
    pub open spec fn has_node(&self, ngram: Seq<char>) -> bool {
        self.spec_values().contains(ngram)
    }

    /// The n-grams that may follow `ngram`.
    pub open spec fn following(&self, ngram: Seq<char>) -> Seq<Seq<char>> {
        self.spec_transitions(self.spec_values().index_of(ngram))
    }

    /// The weight of each n-gram that may follow `ngram`.
    pub open spec fn following_weights(&self, ngram: Seq<char>) -> Seq<u64> {
        self.spec_weights(self.spec_values().index_of(ngram))
    }

    /// The sampler over the n-grams that may follow `ngram`.
    pub open spec fn following_dist(&self, ngram: Seq<char>) -> AliasDistribution {
        self.spec_dist(self.spec_values().index_of(ngram))
    }

    /// Whether a passphrase may start with `ngram`.
    pub open spec fn may_start(&self, ngram: Seq<char>) -> bool {
        self.spec_starting().contains(ngram)
    }

    /// Whether `next` is a transition of the node of `ngram`.
    pub open spec fn may_follow(&self, ngram: Seq<char>, next: Seq<char>) -> bool {
        self.has_node(ngram) && self.following(ngram).contains(next)
    }

    /// Whether `selected` is the trace of a walk: it starts with an n-gram
    /// with which a passphrase may start, and each further n-gram may follow
    /// the one before it.
    pub open spec fn traces(&self, selected: Seq<Seq<char>>) -> bool {
        &&& selected.len() > 0
        &&& self.may_start(selected[0])
        &&& forall|i: int|
            0 < i < selected.len() ==> self.may_follow(selected[i - 1], #[trigger] selected[i])
    }

    /// Every n-gram of a trace has a node.
    pub proof fn lemma_trace_has_nodes(&self, selected: Seq<Seq<char>>, i: int)
        requires
            self.wf(),
            self.traces(selected),
            0 <= i < selected.len(),
        ensures
            self.has_node(selected[i]),
    {
        if i == 0 {
            let first = selected[0];
            let t = choose|t: int|
                0 <= t < self.spec_starting().len() && self.spec_starting()[t] == first;
            assert(self.spec_values().contains(self.spec_starting()[t]));
        } else {
            let from = selected[i - 1];
            let k = self.spec_values().index_of(from);
            assert(self.may_follow(from, selected[i]));
            let t = choose|t: int|
                0 <= t < self.spec_transitions(k).len() && self.spec_transitions(k)[t]
                    == selected[i];
            assert(self.spec_values().contains(self.spec_transitions(k)[t]));
        }
    }

    /// What may follow an n-gram has a node.
    pub proof fn lemma_follower_has_node(&self, ngram: Seq<char>, next: Seq<char>)
        requires
            self.wf(),
            self.may_follow(ngram, next),
        ensures
            self.has_node(next),
    {
        let k = self.spec_values().index_of(ngram);
        let t = choose|t: int|
            0 <= t < self.spec_transitions(k).len() && self.spec_transitions(k)[t] == next;
        assert(self.spec_values().contains(self.spec_transitions(k)[t]));
    }

    /// The number of nodes: of distinct n-grams.
    pub fn len(&self) -> (n: usize)
        ensures
            n == self.spec_values().len(),
            self.wf(),
    {
        proof {
            use_type_invariant(self);
        }
        self.nodes.len()
    }

    /// The node of `ngram`, if it has one.
    pub fn node(&self, ngram: &str) -> (found: Option<&MarkovNode<String>>)
        ensures
            self.wf(),
            match found {
                Some(node) => {
                    &&& self.has_node(ngram@)
                    &&& node.spec_value()@ == ngram@
                    &&& texts(node.spec_transitions()) == self.following(ngram@)
                    &&& node.spec_weights() == self.following_weights(ngram@)
                    &&& node.spec_dist() == self.following_dist(ngram@)
                },
                None => !self.has_node(ngram@),
            },
    {
        proof {
            use_type_invariant(self);
        }
        match self.index.get(ngram) {
            Some(k) => {
                proof {
                    let values = self.spec_values();
                    assert(self.index@.contains_key(ngram@));
                    assert(values.contains(ngram@));
                    let at = choose|at: int| 0 <= at < values.len() && values[at] == ngram@;
                    assert(self.index@[values[at]] == at);
                    let chosen = values.index_of(ngram@);
                    assert(0 <= chosen < values.len() && values[chosen] == ngram@);
                }
                Some(&self.nodes[*k])
            },
            None => None,
        }
    }

    /// The n-grams with which a passphrase may start.
    pub fn starting_ngrams(&self) -> (ngrams: &Vec<String>)
        ensures
            texts(ngrams@) == self.spec_starting(),
            self.wf(),
    {
        proof {
            use_type_invariant(self);
        }
        &self.starting_ngrams
    }

    /// The weight of each n-gram with which a passphrase may start.
    pub fn starting_weights(&self) -> (weights: &Vec<u64>)
        ensures
            weights@ == self.spec_starting_weights(),
            self.wf(),
    {
        proof {
            use_type_invariant(self);
        }
        self.starting_dist.weights()
    }

    /// The sampler over the n-grams with which a passphrase may start: its
    /// weights are theirs.
    pub fn starting_dist(&self) -> (dist: &AliasDistribution)
        ensures
            *dist == self.spec_starting_dist(),
            dist.wf(),
            dist.spec_weights() == self.spec_starting_weights(),
            dist.spec_len() == self.spec_starting().len(),
            self.wf(),
    {
        proof {
            use_type_invariant(self);
        }
        &self.starting_dist
    }

    /// The n-gram with which a passphrase starts by the draw of `column` and
    /// `level`: the one that the sampler selects. It begins a word and has a
    /// node.
    pub fn start_at(&self, column: usize, level: u128) -> (ngram: &str)
        requires
            column < self.spec_starting_dist().spec_len(),
            level < self.spec_starting_dist().spec_total(),
        ensures
            self.wf(),
            0 <= self.spec_starting_dist().selected(column as int, level as int)
                < self.spec_starting().len(),
            ngram@ == self.spec_starting()[self.spec_starting_dist().selected(
                column as int,
                level as int,
            )],
            self.may_start(ngram@),
            self.has_node(ngram@),
            begins_word(ngram@),
    {
        proof {
            use_type_invariant(self);
        }
        let t: usize = self.starting_dist.select(column, level);
        let start: &String = &self.starting_ngrams[t];
        assert(self.spec_starting()[t as int] == start@);
        start.as_str()
    }

    /// Draws a node with which a passphrase may start.
    pub fn get_node(&self, rng: &mut StdRng) -> (node: &MarkovNode<String>)
        ensures
            self.wf(),
            self.may_start(node.spec_value()@),
            self.has_node(node.spec_value()@),
            texts(node.spec_transitions()) == self.following(node.spec_value()@),
            node.spec_weights() == self.following_weights(node.spec_value()@),
    {
        proof {
            use_type_invariant(self);
        }
        let t: usize = self.starting_dist.choice(rng);
        let start: &String = &self.starting_ngrams[t];
        assert(self.spec_starting()[t as int] == start@);
        self.node(start.as_str()).unwrap()
    }

    /// Draws an n-gram with which a passphrase may start. It begins a word and
    /// has a node.
    pub fn get_starting_ngram(&self, rng: &mut StdRng) -> (ngram: &str)
        ensures
            self.wf(),
            self.may_start(ngram@),
            self.has_node(ngram@),
            begins_word(ngram@),
    {
        let (column, level) = self.starting_dist().draw(rng);
        self.start_at(column, level)
    }

    /// Draws an n-gram that may follow `ngram`. It has a node of its own.
    pub fn get_next_ngram(&self, ngram: &str, rng: &mut StdRng) -> (next: &str)
        requires
            self.has_node(ngram@),
        ensures
            self.wf(),
            self.may_follow(ngram@, next@),
            self.has_node(next@),
    {
        let node: &MarkovNode<String> = self.node(ngram).unwrap();
        let next: &String = node.next(rng);
        proof {
            let t = choose|t: int|
                0 <= t < node.spec_transitions().len() && node.spec_weights()[t] > 0 && *next
                    == #[trigger] node.spec_transitions()[t];
            let k = self.spec_values().index_of(ngram@);
            assert(self.spec_transitions(k)[t] == next@);
        }
        next.as_str()
    }
}

/// What may follow an n-gram in a walk does follow it somewhere in the
/// sequence that the chain was built from, taken as a cycle.
pub proof fn lemma_transition_occurs(
    chain: PassphraseMarkovChain,
    ngrams: Seq<Seq<char>>,
    ngram: Seq<char>,
    next: Seq<char>,
)
    requires
        chain.models(ngrams),
        chain.may_follow(ngram, next),
    ensures
        exists|i: int|
            0 <= i < ngrams.len() && #[trigger] ngrams[i] == ngram && successor_at(ngrams, i)
                == next,
{
    let k = chain.spec_values().index_of(ngram);
    let all = successors(ngrams, ngram, ngrams.len() as int);
    assert(chain.spec_transitions(k) == distinct(all));
    lemma_distinct_contains(all, next);
    lemma_successor_occurs(ngrams, ngram, next, ngrams.len() as int);
}

/// An n-gram with which a passphrase may start occurs in the sequence that
/// the chain was built from, and begins a word.
pub proof fn lemma_start_occurs(
    chain: PassphraseMarkovChain,
    ngrams: Seq<Seq<char>>,
    ngram: Seq<char>,
)
    requires
        chain.models(ngrams),
        chain.may_start(ngram),
    ensures
        ngrams.contains(ngram),
        begins_word(ngram),
{
    lemma_start_within(ngrams, ngram);
    lemma_distinct_contains(ngrams, ngram);
}

proof fn lemma_successor_occurs(
    ngrams: Seq<Seq<char>>,
    ngram: Seq<char>,
    next: Seq<char>,
    upto: int,
)
    requires
        0 <= upto <= ngrams.len(),
        successors(ngrams, ngram, upto).contains(next),
    ensures
        exists|i: int|
            0 <= i < upto && #[trigger] ngrams[i] == ngram && successor_at(ngrams, i) == next,
    decreases upto,
{
    let now = successors(ngrams, ngram, upto);
    let t = choose|t: int| 0 <= t < now.len() && now[t] == next;
    if upto > 0 {
        let before = successors(ngrams, ngram, upto - 1);
        if t < before.len() {
            lemma_successor_occurs(ngrams, ngram, next, upto - 1);
        } else {
            assert(ngrams[upto - 1] == ngram && successor_at(ngrams, upto - 1) == next);
        }
    }
}

} // verus!
