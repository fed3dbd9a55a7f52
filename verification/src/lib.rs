//! Pronounceable passphrases drawn from a character-level Markov chain.
//!
//! [`corpus`] turns raw text into the cyclic sequence of the n-grams of its
//! cleaned words. [`markovchain`] counts which n-gram follows which, with
//! [`tally`], and gives every n-gram a sampler over its successors and the
//! n-grams that begin a word a sampler of their own. The samplers are those of
//! [`alias_dist`]: exact alias tables over integer weights, drawn from with a
//! generator that the caller hands in ([`random`]). [`passphrase`] walks the
//! chain step by step and assembles the passphrase that a walk spells.
//! [`text`] holds what is needed of characters and strings.
//!
//! Entropy is not reckoned here: the nodes hand out their weights, and a walk
//! is told at each step whether enough of it has been gathered.
pub mod alias_dist;
pub mod corpus;
pub mod errors;
pub mod markovchain;
pub mod passphrase;
pub mod random;
pub mod tally;
pub mod text;
