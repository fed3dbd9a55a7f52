//! Weighted sampling in constant time by the alias method.
//!
//! A distribution over the indices `0..n` is given by integer weights. It is
//! stored as `n` columns of `total` levels each, where `total` is the sum of the
//! weights. Column `c` keeps `probability_table[c]` of its levels for the index
//! `c` itself and gives the others to the index `alias_table[c]`. A draw picks a
//! column and a level uniformly and independently; [`draws`] counts the draws
//! that select a given index, and the tables are built so that index `k` is
//! selected by exactly `n * weights[k]` of the `n * total` draws.
use crate::errors::AliasDistributionError;
use crate::random::uniform_below;
use rand::rngs::StdRng;
use vstd::prelude::*;

verus! {

/// The largest value of a weight.
pub const MAX_WEIGHT: u128 = 0xffff_ffff_ffff_ffff;

/// Sum of the first `upto` weights.
pub open spec fn weight_sum(weights: Seq<u64>, upto: int) -> int
    decreases upto,
{
    if upto <= 0 {
        0
    } else {
        weight_sum(weights, upto - 1) + weights[upto - 1]
    }
}

/// The index that the draw of `column` and `level` selects.
pub open spec fn selects(
    probability: Seq<u128>,
    alias: Seq<usize>,
    column: int,
    level: int,
) -> int {
    if level < probability[column] {
        column
    } else {
        alias[column] as int
    }
}

/// How many of the first `levels` levels of `column` select `outcome`.
pub open spec fn hits(
    probability: Seq<u128>,
    alias: Seq<usize>,
    outcome: int,
    column: int,
    levels: int,
) -> int
    decreases levels,
{
    if levels <= 0 {
        0
    } else {
        hits(probability, alias, outcome, column, levels - 1) + if selects(
            probability,
            alias,
            column,
            levels - 1,
        ) == outcome {
            1int
        } else {
            0int
        }
    }
}

/// How many draws from the first `columns` columns, each of `total` levels,
/// select `outcome`.
pub open spec fn draws(
    probability: Seq<u128>,
    alias: Seq<usize>,
    total: int,
    outcome: int,
    columns: int,
) -> int
    decreases columns,
{
    if columns <= 0 {
        0
    } else {
        draws(probability, alias, total, outcome, columns - 1) + hits(
            probability,
            alias,
            outcome,
            columns - 1,
            total,
        )
    }
}

/// What column `c`, keeping `kept` levels and giving the rest to `alias`,
/// contributes to `outcome`, as long as a column that aliases itself gives
/// nothing away.
spec fn share(kept: int, alias: int, c: int, outcome: int, total: int) -> int {
    (if c == outcome {
        kept
    } else {
        0
    }) + (if alias == outcome && alias != c {
        total - kept
    } else {
        0
    })
}

/// Sum of the shares of the first `upto` columns in `outcome`.
spec fn shares(
    probability: Seq<u128>,
    alias: Seq<usize>,
    total: int,
    outcome: int,
    upto: int,
) -> int
    decreases upto,
{
    if upto <= 0 {
        0
    } else {
        shares(probability, alias, total, outcome, upto - 1) + share(
            probability[upto - 1] as int,
            alias[upto - 1] as int,
            upto - 1,
            outcome,
            total,
        )
    }
}

/// Sum of the table entries of the columns on a stack.
spec fn sum_at(stack: Seq<usize>, probability: Seq<u128>) -> int
    decreases stack.len(),
{
    if stack.len() == 0 {
        0
    } else {
        sum_at(stack.drop_last(), probability) + probability[stack.last() as int]
    }
}

/// No column stands twice on the two stacks taken together.
spec fn stacks_distinct(under: Seq<usize>, over: Seq<usize>) -> bool {
    &&& forall|a: int, b: int| 0 <= a < b < under.len() ==> under[a] != under[b]
    &&& forall|a: int, b: int| 0 <= a < b < over.len() ==> over[a] != over[b]
    &&& forall|a: int, b: int| 0 <= a < under.len() && 0 <= b < over.len() ==> under[a] != over[b]
}

proof fn lemma_hits_closed_form(
    probability: Seq<u128>,
    alias: Seq<usize>,
    outcome: int,
    column: int,
    levels: int,
)
    requires
        0 <= levels,
    ensures
        hits(probability, alias, outcome, column, levels) == (if column == outcome {
            if levels <= probability[column] {
                levels
            } else {
                probability[column] as int
            }
        } else {
            0
        }) + (if alias[column] == outcome && levels > probability[column] {
            levels - probability[column]
        } else {
            0
        }),
    decreases levels,
{
    if levels > 0 {
        lemma_hits_closed_form(probability, alias, outcome, column, levels - 1);
    }
}

proof fn lemma_draws_are_shares(
    probability: Seq<u128>,
    alias: Seq<usize>,
    total: int,
    outcome: int,
    upto: int,
)
    requires
        0 <= total,
        0 <= upto <= probability.len(),
        probability.len() == alias.len(),
        forall|c: int|
            0 <= c < upto ==> probability[c] <= total && (alias[c] == c ==> probability[c]
                == total),
    ensures
        draws(probability, alias, total, outcome, upto) == shares(
            probability,
            alias,
            total,
            outcome,
            upto,
        ),
    decreases upto,
{
    if upto > 0 {
        lemma_draws_are_shares(probability, alias, total, outcome, upto - 1);
        lemma_hits_closed_form(probability, alias, outcome, upto - 1, total);
    }
}

proof fn lemma_shares_of_identity(
    probability: Seq<u128>,
    alias: Seq<usize>,
    total: int,
    outcome: int,
    upto: int,
)
    requires
        0 <= upto <= probability.len(),
        probability.len() == alias.len(),
        forall|c: int| 0 <= c < upto ==> alias[c] == c,
    ensures
        shares(probability, alias, total, outcome, upto) == (if 0 <= outcome < upto {
            probability[outcome] as int
        } else {
            0
        }),
    decreases upto,
{
    if upto > 0 {
        lemma_shares_of_identity(probability, alias, total, outcome, upto - 1);
    }
}

/// Two pairs of tables that agree outside the columns `a` and `b` differ in
/// their shares by what those two columns changed.
proof fn lemma_shares_two_changes(
    probability: Seq<u128>,
    alias: Seq<usize>,
    probability2: Seq<u128>,
    alias2: Seq<usize>,
    total: int,
    outcome: int,
    upto: int,
    a: int,
    b: int,
)
    requires
        0 <= upto <= probability.len(),
        probability.len() == alias.len(),
        probability2.len() == probability.len(),
        alias2.len() == alias.len(),
        0 <= a < probability.len(),
        0 <= b < probability.len(),
        a != b,
        forall|c: int|
            0 <= c < upto && c != a && c != b ==> probability2[c] == probability[c] && alias2[c]
                == alias[c],
    ensures
        shares(probability2, alias2, total, outcome, upto) == shares(
            probability,
            alias,
            total,
            outcome,
            upto,
        ) + (if a < upto {
            share(probability2[a] as int, alias2[a] as int, a, outcome, total) - share(
                probability[a] as int,
                alias[a] as int,
                a,
                outcome,
                total,
            )
        } else {
            0
        }) + (if b < upto {
            share(probability2[b] as int, alias2[b] as int, b, outcome, total) - share(
                probability[b] as int,
                alias[b] as int,
                b,
                outcome,
                total,
            )
        } else {
            0
        }),
    decreases upto,
{
    if upto > 0 {
        lemma_shares_two_changes(
            probability,
            alias,
            probability2,
            alias2,
            total,
            outcome,
            upto - 1,
            a,
            b,
        );
    }
}

proof fn lemma_sum_at_push(stack: Seq<usize>, probability: Seq<u128>, column: usize)
    ensures
        sum_at(stack.push(column), probability) == sum_at(stack, probability)
            + probability[column as int],
{
    assert(stack.push(column).drop_last() =~= stack);
}

/// The sum over a stack does not depend on the entries of columns that are not
/// on it.
proof fn lemma_sum_at_frame(stack: Seq<usize>, probability: Seq<u128>, probability2: Seq<u128>)
    requires
        forall|t: int|
            0 <= t < stack.len() ==> probability2[stack[t] as int] == probability[stack[t] as int],
    ensures
        sum_at(stack, probability2) == sum_at(stack, probability),
    decreases stack.len(),
{
    if stack.len() > 0 {
        lemma_sum_at_frame(stack.drop_last(), probability, probability2);
    }
}

/// Columns that all hold at least `total` sum to at least `total` each, and to
/// no more only if each holds exactly `total`.
proof fn lemma_sum_at_full(stack: Seq<usize>, probability: Seq<u128>, total: int)
    requires
        forall|t: int| 0 <= t < stack.len() ==> probability[stack[t] as int] >= total,
    ensures
        sum_at(stack, probability) >= stack.len() * total,
        sum_at(stack, probability) == stack.len() * total ==> forall|t: int|
            0 <= t < stack.len() ==> probability[stack[t] as int] == total,
    decreases stack.len(),
{
    if stack.len() > 0 {
        let rest = stack.drop_last();
        lemma_sum_at_full(rest, probability, total);
        assert(stack.len() * total == rest.len() * total + total) by (nonlinear_arith)
            requires
                stack.len() == rest.len() + 1,
        ;
        if sum_at(stack, probability) == stack.len() * total {
            assert forall|t: int| 0 <= t < stack.len() implies probability[stack[t] as int]
                == total by {
                if t < rest.len() {
                    assert(rest[t] == stack[t]);
                }
            }
        }
    } else {
        assert(stack.len() * total == 0) by (nonlinear_arith)
            requires
                stack.len() == 0,
        ;
    }
}

/// Columns that all hold less than `total` sum to less than `total` each.
proof fn lemma_sum_at_short(stack: Seq<usize>, probability: Seq<u128>, total: int)
    requires
        forall|t: int| 0 <= t < stack.len() ==> probability[stack[t] as int] < total,
    ensures
        stack.len() > 0 ==> sum_at(stack, probability) < stack.len() * total,
        stack.len() == 0 ==> sum_at(stack, probability) == 0,
    decreases stack.len(),
{
    if stack.len() > 0 {
        let rest = stack.drop_last();
        lemma_sum_at_short(rest, probability, total);
        assert(stack.len() * total == rest.len() * total + total) by (nonlinear_arith)
            requires
                stack.len() == rest.len() + 1,
        ;
        if rest.len() == 0 {
            assert(rest.len() * total == 0) by (nonlinear_arith)
                requires
                    rest.len() == 0,
            ;
        }
    }
}

/// A sampler over the indices of a list of weights.
#[derive(Debug)]
pub struct AliasDistribution {
    weights: Vec<u64>,
    probability_table: Vec<u128>,
    alias_table: Vec<usize>,
    total: u128,
}

impl AliasDistribution {
    /// The weights that the sampler was built from.
    pub closed spec fn spec_weights(&self) -> Seq<u64> {
        self.weights@
    }

    /// For each column, the number of its levels that select the column itself.
    pub closed spec fn spec_probability_table(&self) -> Seq<u128> {
        self.probability_table@
    }

    /// For each column, the index that its other levels select.
    pub closed spec fn spec_alias_table(&self) -> Seq<usize> {
        self.alias_table@
    }

    /// The number of levels of each column: the sum of the weights.
    pub closed spec fn spec_total(&self) -> u128 {
        self.total
    }

    /// The number of indices.
    pub open spec fn spec_len(&self) -> nat {
        self.spec_weights().len()
    }

    /// The index that the draw of `column` and `level` selects.
    pub open spec fn selected(&self, column: int, level: int) -> int {
        selects(self.spec_probability_table(), self.spec_alias_table(), column, level)
    }

    /// How many of all the draws select `outcome`.
    pub open spec fn draws_of(&self, outcome: int) -> int {
        draws(
            self.spec_probability_table(),
            self.spec_alias_table(),
            self.spec_total() as int,
            outcome,
            self.spec_len() as int,
        )
    }

    /// The tables realise the weights: there is at least one index, the columns
    /// have as many levels as the weights sum to, which is more than none, and
    /// each index is selected by as many draws as its weight asks for.
    pub open spec fn wf(&self) -> bool {
        &&& self.spec_len() > 0
        &&& self.spec_probability_table().len() == self.spec_len()
        &&& self.spec_alias_table().len() == self.spec_len()
        &&& self.spec_total() == weight_sum(self.spec_weights(), self.spec_len() as int)
        &&& self.spec_total() > 0
        &&& forall|c: int|
            0 <= c < self.spec_len() ==> self.spec_probability_table()[c] <= self.spec_total()
        &&& forall|c: int| 0 <= c < self.spec_len() ==> self.spec_alias_table()[c] < self.spec_len()
        &&& forall|k: int|
            0 <= k < self.spec_len() ==> self.draws_of(k) == self.spec_len()
                * self.spec_weights()[k]
    }

    #[verifier::type_invariant]
    spec fn inv(&self) -> bool {
        self.wf()
    }

    /// Builds the sampler of `weights`.
    ///
    /// Fails with `InvalidWeight` if some weight is negative, and with
    /// `NullDistribution` if none is negative and none is more than zero, so
    /// that they sum to zero, as they do when there is none.
    pub fn new(weights: &Vec<i64>) -> (result: Result<AliasDistribution, AliasDistributionError>)
        ensures
            match result {
                Ok(dist) => dist.wf() && same_weights(dist.spec_weights(), weights@),
                Err(AliasDistributionError::InvalidWeight) => exists|i: int|
                    0 <= i < weights.len() && weights[i] < 0,
                Err(AliasDistributionError::NullDistribution) => forall|i: int|
                    0 <= i < weights.len() ==> weights[i] == 0,
            },
            result is Ok <==> (forall|i: int| 0 <= i < weights.len() ==> weights[i] >= 0) && (
            exists|i: int| 0 <= i < weights.len() && weights[i] > 0),
    {
        let mut counts: Vec<u64> = Vec::new();
        let mut i: usize = 0;
        while i < weights.len()
            invariant
                0 <= i <= weights.len(),
                counts.len() == i,
                forall|j: int| 0 <= j < i ==> weights[j] >= 0 && counts[j] == weights[j],
            decreases weights.len() - i,
        {
            let weight: i64 = weights[i];
            if weight < 0 {
                return Err(AliasDistributionError::InvalidWeight);
            }
            counts.push(weight as u64);
            i = i + 1;
        }
        let result = AliasDistribution::from_counts(&counts);
        proof {
            if exists|j: int| 0 <= j < weights.len() && weights[j] > 0 {
                let j = choose|j: int| 0 <= j < weights.len() && weights[j] > 0;
                assert(counts[j] > 0);
            }
            if exists|j: int| 0 <= j < counts.len() && counts[j] > 0 {
                let j = choose|j: int| 0 <= j < counts.len() && counts[j] > 0;
                assert(weights[j] > 0);
            }
        }
        result
    }

    /// Builds the sampler of weights that are counts.
    ///
    /// Fails with `NullDistribution` if none of them is more than zero, so that
    /// they sum to zero, as they do when there is none.
    pub fn from_counts(weights: &Vec<u64>) -> (result: Result<
        AliasDistribution,
        AliasDistributionError,
    >)
        ensures
            match result {
                Ok(dist) => dist.wf() && dist.spec_weights() == weights@,
                Err(error) => error == AliasDistributionError::NullDistribution && forall|i: int|
                    0 <= i < weights.len() ==> weights[i] == 0,
            },
            result is Ok <==> exists|i: int| 0 <= i < weights.len() && weights[i] > 0,
            result is Ok <==> weight_sum(weights@, weights.len() as int) > 0,
    {
        let total: u128 = total_of(weights);
        proof {
            lemma_weight_sum_positive(weights@, weights.len() as int);
        }
        if total == 0 {
            return Err(AliasDistributionError::NullDistribution);
        }
        let size: usize = weights.len();
        assert(size > 0);
        let mut kept: Vec<u64> = Vec::new();
        let mut probability_table: Vec<u128> = Vec::new();
        let mut alias_table: Vec<usize> = Vec::new();
        let mut overfull: Vec<usize> = Vec::new();
        let mut underfull: Vec<usize> = Vec::new();
        // Each column starts out with `size * weight` levels of its own index:
        // too few or too many, unless they happen to be `total`.
        let mut i: usize = 0;
        while i < size
            invariant
                size == weights.len(),
                0 <= i <= size,
                total == weight_sum(weights@, size as int),
                kept@ == weights@.take(i as int),
                probability_table.len() == i,
                alias_table.len() == i,
                forall|c: int| 0 <= c < i ==> probability_table[c] == size * weights[c],
                forall|c: int| 0 <= c < i ==> alias_table[c] == c,
                stacks_distinct(underfull@, overfull@),
                forall|t: int|
                    0 <= t < underfull.len() ==> underfull[t] < i
                        && probability_table[underfull[t] as int] < total,
                forall|t: int|
                    0 <= t < overfull.len() ==> overfull[t] < i
                        && probability_table[overfull[t] as int] >= total,
                forall|c: usize| c < i ==> underfull@.contains(c) || overfull@.contains(c),
                underfull.len() + overfull.len() == i,
                sum_at(underfull@, probability_table@) + sum_at(overfull@, probability_table@)
                    == size * weight_sum(weights@, i as int),
            decreases size - i,
        {
            let weight: u64 = weights[i];
            assert(size * weight <= 0xffff_ffff_ffff_ffff * 0xffff_ffff_ffff_ffff)
                by (nonlinear_arith)
                requires
                    0 <= size <= 0xffff_ffff_ffff_ffff,
                    0 <= weight <= 0xffff_ffff_ffff_ffff,
            ;
            assert(0 <= size * weight) by (nonlinear_arith)
                requires
                    0 <= size,
                    0 <= weight,
            ;
            let scaled: u128 = (size as u128) * (weight as u128);
            let ghost before = probability_table@;
            let ghost under_before = underfull@;
            let ghost over_before = overfull@;
            kept.push(weight);
            probability_table.push(scaled);
            alias_table.push(i);
            proof {
                lemma_sum_at_frame(under_before, before, probability_table@);
                lemma_sum_at_frame(over_before, before, probability_table@);
                assert(size * weight_sum(weights@, i + 1) == size * weight_sum(weights@, i as int)
                    + size * weight) by (nonlinear_arith)
                    requires
                        weight_sum(weights@, i + 1) == weight_sum(weights@, i as int) + weight,
                ;
            }
            if scaled < total {
                underfull.push(i);
                proof {
                    lemma_sum_at_push(under_before, probability_table@, i);
                }
            } else {
                overfull.push(i);
                proof {
                    lemma_sum_at_push(over_before, probability_table@, i);
                }
            }
            proof {
                assert forall|c: usize| c < i + 1 implies underfull@.contains(c)
                    || overfull@.contains(c) by {
                    if c < i {
                        if under_before.contains(c) {
                            let t = choose|t: int| 0 <= t < under_before.len() && under_before[t] == c;
                            assert(underfull@[t] == c);
                        } else {
                            let t = choose|t: int| 0 <= t < over_before.len() && over_before[t] == c;
                            assert(overfull@[t] == c);
                        }
                    } else {
                        if scaled < total {
                            assert(underfull@[underfull.len() - 1] == c);
                        } else {
                            assert(overfull@[overfull.len() - 1] == c);
                        }
                    }
                }
            }
            i = i + 1;
        }
        proof {
            assert(kept@ =~= weights@);
            assert forall|k: int| 0 <= k < size implies shares(
                probability_table@,
                alias_table@,
                total as int,
                k,
                size as int,
            ) == size * weights[k] by {
                lemma_shares_of_identity(
                    probability_table@,
                    alias_table@,
                    total as int,
                    k,
                    size as int,
                );
            }
        }
        // A column with too few levels is filled up by one with too many, which
        // becomes its alias and is sorted anew by what it has left.
        while underfull.len() > 0 && overfull.len() > 0
            invariant
                size == weights.len(),
                size > 0,
                total > 0,
                probability_table.len() == size,
                alias_table.len() == size,
                stacks_distinct(underfull@, overfull@),
                forall|t: int|
                    0 <= t < underfull.len() ==> underfull[t] < size
                        && probability_table[underfull[t] as int] < total
                        && alias_table[underfull[t] as int] == underfull[t],
                forall|t: int|
                    0 <= t < overfull.len() ==> overfull[t] < size
                        && probability_table[overfull[t] as int] >= total
                        && alias_table[overfull[t] as int] == overfull[t],
                forall|c: int| 0 <= c < size ==> alias_table[c] < size,
                forall|c: usize|
                    c < size && alias_table[c as int] == c ==> underfull@.contains(c)
                        || overfull@.contains(c),
                forall|c: int| 0 <= c < size && alias_table[c] != c ==> probability_table[c] < total,
                sum_at(underfull@, probability_table@) + sum_at(overfull@, probability_table@) == (
                underfull.len() + overfull.len()) * total,
                forall|k: int|
                    0 <= k < size ==> shares(
                        probability_table@,
                        alias_table@,
                        total as int,
                        k,
                        size as int,
                    ) == size * weights[k],
            decreases underfull.len() + overfull.len(),
        {
            let ghost before = probability_table@;
            let ghost alias_before = alias_table@;
            let ghost under_before = underfull@;
            let ghost over_before = overfull@;
            let short: usize = underfull.pop().unwrap();
            let full: usize = overfull.pop().unwrap();
            assert(short == under_before[under_before.len() - 1]);
            let gift: u128 = total - probability_table[short];
            let rest: u128 = probability_table[full] - gift;
            alias_table[short] = full;
            probability_table[full] = rest;
            let ghost under_popped = underfull@;
            let ghost over_popped = overfull@;
            proof {
                lemma_sum_at_frame(under_popped, before, probability_table@);
                lemma_sum_at_frame(over_popped, before, probability_table@);
                assert((under_before.len() + over_before.len()) * total - total == (
                under_popped.len() + over_popped.len() + 1) * total) by (nonlinear_arith)
                    requires
                        under_before.len() == under_popped.len() + 1,
                        over_before.len() == over_popped.len() + 1,
                ;
                assert forall|k: int| 0 <= k < size implies shares(
                    probability_table@,
                    alias_table@,
                    total as int,
                    k,
                    size as int,
                ) == size * weights[k] by {
                    lemma_shares_two_changes(
                        before,
                        alias_before,
                        probability_table@,
                        alias_table@,
                        total as int,
                        k,
                        size as int,
                        short as int,
                        full as int,
                    );
                }
            }
            if rest < total {
                underfull.push(full);
                proof {
                    lemma_sum_at_push(under_popped, probability_table@, full);
                }
            } else {
                overfull.push(full);
                proof {
                    lemma_sum_at_push(over_popped, probability_table@, full);
                }
            }
            proof {
                assert forall|c: usize| c < size && alias_table[c as int] == c implies underfull@.contains(
                    c,
                ) || overfull@.contains(c) by {
                    if c == full {
                        if rest < total {
                            assert(underfull@[underfull.len() - 1] == c);
                        } else {
                            assert(overfull@[overfull.len() - 1] == c);
                        }
                    } else {
                        if under_before.contains(c) {
                            let t = choose|t: int| 0 <= t < under_before.len() && under_before[t] == c;
                            assert(underfull@[t] == c);
                        } else {
                            let t = choose|t: int| 0 <= t < over_before.len() && over_before[t] == c;
                            assert(overfull@[t] == c);
                        }
                    }
                }
            }
        }
        // The columns still waiting hold `total` levels each: all levels are
        // accounted for.
        proof {
            lemma_sum_at_short(underfull@, probability_table@, total as int);
            lemma_sum_at_full(overfull@, probability_table@, total as int);
            if overfull.len() == 0 {
                assert((underfull.len() + overfull.len()) * total == underfull.len() * total)
                    by (nonlinear_arith)
                    requires
                        overfull.len() == 0,
                ;
            } else {
                assert((underfull.len() + overfull.len()) * total == overfull.len() * total)
                    by (nonlinear_arith)
                    requires
                        underfull.len() == 0,
                ;
            }
            assert forall|c: int| 0 <= c < size implies probability_table[c] <= total && (
            alias_table[c] == c ==> probability_table[c] == total) by {
                if alias_table[c] == c {
                    let column = c as usize;
                    assert(overfull@.contains(column));
                    let t = choose|t: int| 0 <= t < overfull.len() && overfull[t] == column;
                    assert(probability_table[overfull[t] as int] == total);
                }
            }
            assert forall|k: int| 0 <= k < size implies draws(
                probability_table@,
                alias_table@,
                total as int,
                k,
                size as int,
            ) == size * weights[k] by {
                lemma_draws_are_shares(
                    probability_table@,
                    alias_table@,
                    total as int,
                    k,
                    size as int,
                );
            }
        }
        Ok(AliasDistribution { weights: kept, probability_table, alias_table, total })
    }

    /// The number of indices.
    pub fn len(&self) -> (n: usize)
        ensures
            n == self.spec_len(),
            n > 0,
    {
        proof {
            use_type_invariant(self);
        }
        self.weights.len()
    }

    /// The number of levels of each column: the sum of the weights.
    pub fn total(&self) -> (total: u128)
        ensures
            total == self.spec_total(),
            total > 0,
    {
        proof {
            use_type_invariant(self);
        }
        self.total
    }

    /// The weights that the sampler was built from.
    pub fn weights(&self) -> (weights: &Vec<u64>)
        ensures
            weights@ == self.spec_weights(),
    {
        &self.weights
    }

    /// For each column, the number of its levels that select the column itself.
    pub fn probability_table(&self) -> (table: &Vec<u128>)
        ensures
            table@ == self.spec_probability_table(),
    {
        &self.probability_table
    }

    /// For each column, the index that its other levels select.
    pub fn alias_table(&self) -> (table: &Vec<usize>)
        ensures
            table@ == self.spec_alias_table(),
    {
        &self.alias_table
    }

    /// The index that the draw of `column` and `level` selects. Its weight is
    /// not zero.
    pub fn select(&self, column: usize, level: u128) -> (index: usize)
        requires
            column < self.spec_len(),
            level < self.spec_total(),
        ensures
            index == self.selected(column as int, level as int),
            index < self.spec_len(),
            self.spec_weights()[index as int] > 0,
    {
        proof {
            use_type_invariant(self);
            lemma_selected_has_weight(*self, column as int, level as int);
        }
        if level < self.probability_table[column] {
            column
        } else {
            self.alias_table[column]
        }
    }

    /// Draws a column and a level from `rng`, each within its range.
    pub fn draw(&self, rng: &mut StdRng) -> (drawn: (usize, u128))
        ensures
            drawn.0 < self.spec_len(),
            drawn.1 < self.spec_total(),
    {
        let size: usize = self.len();
        let total: u128 = self.total();
        let column: usize = uniform_below(rng, size as u128) as usize;
        let level: u128 = uniform_below(rng, total);
        (column, level)
    }

    /// Draws a column and a level from `rng` and returns the index that they
    /// select. Whatever the generator hands out, the index has a weight that
    /// is not zero.
    pub fn choice(&self, rng: &mut StdRng) -> (index: usize)
        ensures
            index < self.spec_len(),
            self.spec_weights()[index as int] > 0,
            exists|column: int, level: int|
                0 <= column < self.spec_len() && 0 <= level < self.spec_total() && index
                    == #[trigger] self.selected(column, level),
    {
        let (column, level) = self.draw(rng);
        self.select(column, level)
    }
}

/// A draw selects an index within the tables, and one whose weight is not
/// zero: an index of weight zero is selected by no draw at all.
pub proof fn lemma_selected_has_weight(dist: AliasDistribution, column: int, level: int)
    requires
        dist.wf(),
        0 <= column < dist.spec_len(),
        0 <= level < dist.spec_total(),
    ensures
        0 <= dist.selected(column, level) < dist.spec_len(),
        dist.spec_weights()[dist.selected(column, level)] > 0,
{
    let outcome = dist.selected(column, level);
    let size = dist.spec_len() as int;
    lemma_draws_count_draw(
        dist.spec_probability_table(),
        dist.spec_alias_table(),
        dist.spec_total() as int,
        column,
        level,
        size,
    );
    let weight = dist.spec_weights()[outcome];
    assert(0 <= outcome < size);
    assert(dist.draws_of(outcome) == size * weight);
    assert(weight > 0) by (nonlinear_arith)
        requires
            size * weight >= 1,
            size > 0,
            weight >= 0,
    ;
}

/// Each index is selected by a number of draws in proportion to its weight:
/// of the `n * total` draws of a sampler over `n` indices, where `total` is the
/// sum of the weights, exactly `n * weight` select an index of that weight. With
/// column and level drawn uniformly, the index comes with probability
/// `weight / total`.
pub proof fn lemma_drawn_in_proportion(dist: AliasDistribution, outcome: int)
    requires
        dist.wf(),
        0 <= outcome < dist.spec_len(),
    ensures
        dist.draws_of(outcome) == dist.spec_len() * dist.spec_weights()[outcome],
        dist.spec_total() == weight_sum(dist.spec_weights(), dist.spec_len() as int),
{
}

/// A draw counts among the draws of the index that it selects.
proof fn lemma_draws_count_draw(
    probability: Seq<u128>,
    alias: Seq<usize>,
    total: int,
    column: int,
    level: int,
    columns: int,
)
    requires
        0 <= column < columns,
        0 <= level < total,
    ensures
        draws(probability, alias, total, selects(probability, alias, column, level), columns) >= 1,
        forall|outcome: int| draws(probability, alias, total, outcome, columns) >= 0,
    decreases columns,
{
    let outcome = selects(probability, alias, column, level);
    assert forall|k: int| draws(probability, alias, total, k, columns) >= 0 by {
        lemma_draws_nonnegative(probability, alias, total, k, columns);
    }
    lemma_hits_closed_form(probability, alias, outcome, columns - 1, total);
    lemma_draws_nonnegative(probability, alias, total, outcome, columns - 1);
    if column < columns - 1 {
        lemma_draws_count_draw(probability, alias, total, column, level, columns - 1);
    }
}

proof fn lemma_draws_nonnegative(
    probability: Seq<u128>,
    alias: Seq<usize>,
    total: int,
    outcome: int,
    columns: int,
)
    requires
        0 <= total,
    ensures
        draws(probability, alias, total, outcome, columns) >= 0,
    decreases columns,
{
    if columns > 0 {
        lemma_draws_nonnegative(probability, alias, total, outcome, columns - 1);
        lemma_hits_closed_form(probability, alias, outcome, columns - 1, total);
    }
}

/// Whether the counts are the weights.
pub open spec fn same_weights(counts: Seq<u64>, weights: Seq<i64>) -> bool {
    &&& counts.len() == weights.len()
    &&& forall|i: int| 0 <= i < counts.len() ==> counts[i] == weights[i]
}

/// Weights sum to more than zero exactly if one of them is more than zero.
pub proof fn lemma_weight_sum_positive(weights: Seq<u64>, upto: int)
    requires
        0 <= upto <= weights.len(),
    ensures
        weight_sum(weights, upto) >= 0,
        weight_sum(weights, upto) > 0 <==> exists|i: int| 0 <= i < upto && weights[i] > 0,
    decreases upto,
{
    if upto > 0 {
        lemma_weight_sum_positive(weights, upto - 1);
        if weight_sum(weights, upto - 1) > 0 {
            let i = choose|i: int| 0 <= i < upto - 1 && weights[i] > 0;
            assert(0 <= i < upto && weights[i] > 0);
        }
        if weights[upto - 1] > 0 {
            assert(0 <= upto - 1 < upto && weights[upto - 1] > 0);
        }
    }
}

/// The sum of the weights.
fn total_of(weights: &Vec<u64>) -> (total: u128)
    ensures
        total == weight_sum(weights@, weights.len() as int),
{
    let mut total: u128 = 0;
    let mut i: usize = 0;
    while i < weights.len()
        invariant
            0 <= i <= weights.len(),
            total == weight_sum(weights@, i as int),
            total <= i * MAX_WEIGHT,
        decreases weights.len() - i,
    {
        total = total + weights[i] as u128;
        i = i + 1;
    }
    total
}

} // verus!
