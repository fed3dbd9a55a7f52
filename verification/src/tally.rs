//! Counting how often each text occurs in a sequence.
use crate::text::texts;
use vstd::prelude::*;

verus! {

/// How often `item` occurs in `items`.
pub open spec fn occurrences(items: Seq<Seq<char>>, item: Seq<char>) -> nat
    decreases items.len(),
{
    if items.len() == 0 {
        0
    } else {
        occurrences(items.drop_last(), item) + if items.last() == item {
            1nat
        } else {
            0nat
        }
    }
}

/// The texts that occur in `items`, each once, in the order in which they
/// first occur.
pub open spec fn distinct(items: Seq<Seq<char>>) -> Seq<Seq<char>>
    decreases items.len(),
{
    if items.len() == 0 {
        Seq::empty()
    } else {
        let before = distinct(items.drop_last());
        if before.contains(items.last()) {
            before
        } else {
            before.push(items.last())
        }
    }
}

/// No text stands twice in `items`.
pub open spec fn no_duplicates(items: Seq<Seq<char>>) -> bool {
    forall|a: int, b: int| 0 <= a < b < items.len() ==> items[a] != items[b]
}

/// A text is among the distinct ones exactly if it occurs at all.
pub proof fn lemma_distinct_contains(items: Seq<Seq<char>>, item: Seq<char>)
    ensures
        distinct(items).contains(item) <==> occurrences(items, item) > 0,
        occurrences(items, item) > 0 <==> items.contains(item),
    decreases items.len(),
{
    if items.len() > 0 {
        let rest = items.drop_last();
        lemma_distinct_contains(rest, item);
        let before = distinct(rest);
        if items.contains(item) {
            let t = choose|t: int| 0 <= t < items.len() && items[t] == item;
            if t < rest.len() {
                assert(rest[t] == item);
            }
        }
        if rest.contains(item) {
            let t = choose|t: int| 0 <= t < rest.len() && rest[t] == item;
            assert(items[t] == item);
        }
        if items.last() == item {
            assert(items[items.len() - 1] == item);
        }
        if !before.contains(items.last()) {
            let after = before.push(items.last());
            if before.contains(item) {
                let t = choose|t: int| 0 <= t < before.len() && before[t] == item;
                assert(after[t] == item);
            }
            if after.contains(item) {
                let t = choose|t: int| 0 <= t < after.len() && after[t] == item;
                if t < before.len() {
                    assert(before[t] == item);
                }
            }
            assert(after[after.len() - 1] == items.last());
        }
    }
}

/// A text occurs at most as often as there are items.
pub proof fn lemma_occurrences_bounded(items: Seq<Seq<char>>, item: Seq<char>)
    ensures
        occurrences(items, item) <= items.len(),
    decreases items.len(),
{
    if items.len() > 0 {
        lemma_occurrences_bounded(items.drop_last(), item);
    }
}

/// The distinct texts are distinct.
pub proof fn lemma_distinct_no_duplicates(items: Seq<Seq<char>>)
    ensures
        no_duplicates(distinct(items)),
    decreases items.len(),
{
    if items.len() > 0 {
        lemma_distinct_no_duplicates(items.drop_last());
    }
}

/// A count of texts as they come: its view is the sequence of the texts
/// recorded so far. It keeps the distinct ones in the order in which they first
/// came and, beside each, the number of its occurrences.
pub struct Tally {
    keys: Vec<String>,
    counts: Vec<u64>,
    seen: Ghost<Seq<Seq<char>>>,
}

impl View for Tally {
    type V = Seq<Seq<char>>;

    closed spec fn view(&self) -> Seq<Seq<char>> {
        self.seen@
    }
}

impl Tally {
    /// The distinct texts, in the order in which they first came.
    pub closed spec fn spec_keys(&self) -> Seq<Seq<char>> {
        texts(self.keys@)
    }

    /// The count of each distinct text.
    pub closed spec fn spec_counts(&self) -> Seq<u64> {
        self.counts@
    }

    /// The keys are the distinct texts recorded and each count is the number
    /// of occurrences of its key.
    pub open spec fn wf(&self) -> bool {
        &&& self.spec_keys() == distinct(self@)
        &&& self.spec_counts().len() == self.spec_keys().len()
        &&& forall|t: int|
            0 <= t < self.spec_keys().len() ==> self.spec_counts()[t] == occurrences(
                self@,
                #[trigger] self.spec_keys()[t],
            )
    }

    /// A tally in which nothing is recorded yet.
    pub fn new() -> (tally: Tally)
        ensures
            tally.wf(),
            tally@ == Seq::<Seq<char>>::empty(),
    {
        let tally = Tally { keys: Vec::new(), counts: Vec::new(), seen: Ghost(Seq::empty()) };
        assert(tally.spec_keys() =~= distinct(Seq::empty()));
        tally
    }

    /// The number of distinct texts.
    pub fn len(&self) -> (n: usize)
        ensures
            n == self.spec_keys().len(),
    {
        self.keys.len()
    }

    /// The distinct texts, in the order in which they first came.
    pub fn keys(&self) -> (keys: &Vec<String>)
        ensures
            texts(keys@) == self.spec_keys(),
    {
        &self.keys
    }

    /// The count of each distinct text.
    pub fn counts(&self) -> (counts: &Vec<u64>)
        ensures
            counts@ == self.spec_counts(),
    {
        &self.counts
    }

    /// Records one more occurrence of `item`.
    #[verifier::loop_isolation(false)]
    pub fn record(&mut self, item: &String)
        requires
            old(self).wf(),
            old(self)@.len() < u64::MAX,
        ensures
            final(self).wf(),
            final(self)@ == old(self)@.push(item@),
    {
        let ghost seen = self@;
        let ghost grown = seen.push(item@);
        proof {
            assert(grown.drop_last() =~= seen);
            lemma_distinct_contains(seen, item@);
            lemma_distinct_no_duplicates(seen);
            lemma_occurrences_bounded(seen, item@);
        }
        let mut t: usize = 0;
        while t < self.keys.len()
            invariant
                0 <= t <= self.keys.len(),
                *self == *old(self),
                forall|u: int| 0 <= u < t ==> self.spec_keys()[u] != item@,
            decreases self.keys.len() - t,
        {
            if self.keys[t] == *item {
                assert(self.spec_keys()[t as int] == item@);
                let count: u64 = self.counts[t];
                self.counts[t] = count + 1;
                self.seen = Ghost(grown);
                assert forall|u: int| 0 <= u < self.spec_keys().len() implies self.spec_counts()[u]
                    == occurrences(grown, #[trigger] self.spec_keys()[u]) by {
                    assert(old(self).spec_counts()[u] == occurrences(seen, old(self).spec_keys()[u]));
                }
                return ;
            }
            t = t + 1;
        }
        self.keys.push(item.clone());
        self.counts.push(1);
        self.seen = Ghost(grown);
        proof {
            assert(self.spec_keys() =~= old(self).spec_keys().push(item@));
            assert forall|u: int| 0 <= u < self.spec_keys().len() implies self.spec_counts()[u]
                == occurrences(grown, #[trigger] self.spec_keys()[u]) by {
                if u < old(self).spec_keys().len() {
                    assert(old(self).spec_counts()[u] == occurrences(seen, old(self).spec_keys()[u]));
                }
            }
        }
    }

    /// Hands out the distinct texts and their counts.
    pub fn into_parts(self) -> (parts: (Vec<String>, Vec<u64>))
        ensures
            texts(parts.0@) == self.spec_keys(),
            parts.1@ == self.spec_counts(),
    {
        (self.keys, self.counts)
    }
}

} // verus!
