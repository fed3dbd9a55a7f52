//! Error types of the samplers and of the chain.
use vstd::prelude::*;

verus! {

/// Why a weighted sampler could not be built.
#[derive(Debug, Clone, Copy, PartialEq, Eq, Structural)]
pub enum AliasDistributionError {
    /// Some weight is negative.
    InvalidWeight,
    /// There is no weight, or all of them are zero.
    NullDistribution,
}

impl AliasDistributionError {
    /// The error in words.
    pub fn message(&self) -> (message: &'static str)
        ensures
            message@ == match self {
                AliasDistributionError::InvalidWeight => "Weights must be finite non-negative values."@,
                AliasDistributionError::NullDistribution => "Sum of weights must be non-zero."@,
            },
    {
        match self {
            AliasDistributionError::InvalidWeight => "Weights must be finite non-negative values.",
            AliasDistributionError::NullDistribution => "Sum of weights must be non-zero.",
        }
    }
}

/// Why a chain could not be built from a sequence of n-grams.
#[derive(Debug, Clone, Copy, PartialEq, Eq, Structural)]
pub enum MarkovChainError {
    /// The sequence of n-grams is empty.
    NoNgrams,
    /// Every n-gram has a single successor: a walk would hold no choice.
    ZeroEntropy,
    /// Fewer than two distinct n-grams begin a word.
    ZeroStartOfWordEntropy,
}

impl MarkovChainError {
    /// The error in words.
    pub fn message(&self) -> (message: &'static str)
        ensures
            message@ == match self {
                MarkovChainError::NoNgrams => "No ngrams found in cleaned input."@,
                MarkovChainError::ZeroEntropy => "Cleaned input has no entropy."@,
                MarkovChainError::ZeroStartOfWordEntropy => "Cleaned input has no start of word entropy."@,
            },
    {
        match self {
            MarkovChainError::NoNgrams => "No ngrams found in cleaned input.",
            MarkovChainError::ZeroEntropy => "Cleaned input has no entropy.",
            MarkovChainError::ZeroStartOfWordEntropy => "Cleaned input has no start of word entropy.",
        }
    }
}

} // verus!
