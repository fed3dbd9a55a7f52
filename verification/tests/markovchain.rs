use markovpass::corpus::get_ngrams;
use markovpass::errors::{AliasDistributionError, MarkovChainError};
use markovpass::markovchain::{
    begins_with_space, ends_with_space, MarkovNode, PassphraseMarkovChain,
};
use markovpass::passphrase::{Step, Walk};
use rand::rngs::StdRng;
use rand::SeedableRng;

fn strings(items: &[&str]) -> Vec<String> {
    items.iter().map(|x| x.to_string()).collect()
}

fn weight_entropy(weights: &[u64]) -> f64 {
    let total: f64 = weights.iter().map(|w| *w as f64).sum();
    weights.iter().fold(0.0, |acc, weight| {
        let prob = *weight as f64 / total;
        acc - prob * prob.log2()
    })
}

fn passphrase(chain: &PassphraseMarkovChain, min_entropy: f64, rng: &mut StdRng) -> (String, f64) {
    let mut entropy = weight_entropy(chain.starting_weights());
    let mut walk = Walk::begin(chain, rng);
    loop {
        entropy += weight_entropy(walk.current_node().weights());
        match walk.step(entropy >= min_entropy, rng) {
            Step::Complete(passphrase) => return (passphrase, entropy),
            Step::Onward(next) => walk = next,
        }
    }
}

#[test]
fn test_markovnode_new() {
    let node = MarkovNode::new("tic", vec!["tac", "toc", "toe"], vec![1, 1, 2]).unwrap();
    assert_eq!(weight_entropy(node.weights()), 1.5);
    assert_eq!(node.transitions().len(), 3);
    let mut rng = StdRng::seed_from_u64(3);
    assert!(node.transitions().contains(node.next(&mut rng)));
    assert_eq!(*node.value(), "tic");
}

#[test]
fn markovchain_test_passphrasemarkovchain_new() {
    let ngrams = strings(&[" ti", "tic", "ic ", "c t", " to", "toc", "oc ", "c t"]);
    let result = PassphraseMarkovChain::new(&ngrams);
    assert!(result.is_ok());
    let chain = result.unwrap();
    assert_eq!(chain.starting_ngrams().len(), 2);
    assert!(chain.starting_ngrams().contains(&" ti".to_string()));
    assert!(chain.starting_ngrams().contains(&" to".to_string()));
    assert_eq!(weight_entropy(chain.starting_weights()), 1.0);
    let mut rng = StdRng::seed_from_u64(11);
    assert!(ngrams.contains(&chain.get_starting_ngram(&mut rng).to_string()));
    let (p, e) = passphrase(&chain, 60.0, &mut rng);
    assert_eq!(e, 60.0);
    assert_eq!(p.len(), 239);
}

#[test]
fn lib_test_passphrasemarkovchain_new() {
    let ngrams = vec![" ti", "tic", "ic ", "c t", " to", "toc", "oc ", "c t"];
    let ngrams: Vec<String> = ngrams.iter().map(|x| x.to_string()).collect();
    let result = PassphraseMarkovChain::new(&ngrams);
    assert!(result.is_ok());
    let chain = result.unwrap();
    assert_eq!(chain.starting_ngrams().len(), 2);
    assert!(chain.starting_ngrams().contains(&" ti".to_string()));
    assert!(chain.starting_ngrams().contains(&" to".to_string()));
    assert_eq!(weight_entropy(chain.starting_weights()), 1.0);
    let mut rng = StdRng::seed_from_u64(12);
    assert!(ngrams.contains(chain.get_node(&mut rng).value()));
    let (p, e) = passphrase(&chain, 60.0, &mut rng);
    assert_eq!(e, 60.0);
    assert_eq!(p.len(), 239);
}

#[test]
fn markovchain_test_passphrase_no_ngrams() {
    let result = PassphraseMarkovChain::new(&Vec::new());
    assert!(result.is_err());
    assert_eq!(result.err().unwrap(), MarkovChainError::NoNgrams);
}

#[test]
fn lib_test_passphrase_no_ngrams() {
    let ngrams: Vec<String> = vec![];
    let result = PassphraseMarkovChain::new(&ngrams);
    assert!(result.is_err());
    assert_eq!(result.err().unwrap(), MarkovChainError::NoNgrams);
}

#[test]
fn markovchain_test_passphrase_no_entropy() {
    let ngrams = strings(&[" ab", "abc", "bcd", "cd ", "d a"]);
    let result = PassphraseMarkovChain::new(&ngrams);
    assert!(result.is_err());
    assert_eq!(result.err().unwrap(), MarkovChainError::ZeroEntropy);
}

#[test]
fn lib_test_passphrase_no_entropy() {
    let ngrams = vec![" ab", "abc", "bcd", "cd ", "d a"];
    let ngrams: Vec<String> = ngrams.iter().map(|x| x.to_string()).collect();
    let result = PassphraseMarkovChain::new(&ngrams);
    assert!(result.is_err());
    assert_eq!(result.err().unwrap(), MarkovChainError::ZeroEntropy);
}

#[test]
fn markovchain_test_passphrases_no_starting_entropy() {
    let ngrams = strings(&[
        " ab", "abc", "bc ", "c a", " ab", "abc", "cbd", "bd ", "d a",
    ]);
    let result = PassphraseMarkovChain::new(&ngrams);
    assert!(result.is_err());
    assert_eq!(
        result.err().unwrap(),
        MarkovChainError::ZeroStartOfWordEntropy
    );
}

#[test]
fn lib_test_gen_passphrases_no_starting_entropy() {
    let ngrams = vec![
        " ab", "abc", "bc ", "c a", " ab", "abc", "cbd", "bd ", "d a",
    ];
    let ngrams: Vec<String> = ngrams.iter().map(|x| x.to_string()).collect();
    let result = PassphraseMarkovChain::new(&ngrams);
    assert!(result.is_err());
    assert_eq!(
        result.err().unwrap(),
        MarkovChainError::ZeroStartOfWordEntropy
    );
}

#[test]
fn markovpass_test_gen_passphrases() {
    let ngrams = get_ngrams("tic toc".to_string(), 3, 3);
    let min_entropy = 60.0;
    let result = PassphraseMarkovChain::new(&ngrams);
    assert!(result.is_ok(), "Passphrase generation failed.");
    let chain = result.unwrap();
    let mut rng = StdRng::seed_from_u64(5);
    let mut passphrases = Vec::new();
    for _ in 0..5 {
        passphrases.push(passphrase(&chain, min_entropy, &mut rng));
    }
    assert_eq!(passphrases.len(), 5);
}

#[test]
fn test_gen_passphrases_no_ngrams() {
    let ngrams: Vec<String> = vec![];
    let result = PassphraseMarkovChain::new(&ngrams);
    assert!(result.is_err(), "No error despite no ngrams.");
}

#[test]
fn test_gen_passphrases_no_entropy() {
    let ngrams = get_ngrams("abc def ghijkl mnopqr stuvw xyz".to_string(), 2, 1);
    let result = PassphraseMarkovChain::new(&ngrams);
    assert!(result.is_err(), "No error despite no entropy.");
    assert_eq!(result.err().unwrap(), MarkovChainError::ZeroEntropy);
}

#[test]
fn markovpass_test_gen_passphrases_no_starting_entropy() {
    let ngrams = get_ngrams("tictoctictactoe".to_string(), 2, 1);
    let result = PassphraseMarkovChain::new(&ngrams);
    assert!(result.is_err(), "No error despite no starting entropy.");
    assert_eq!(
        result.err().unwrap(),
        MarkovChainError::ZeroStartOfWordEntropy
    );
}

#[test]
fn no_entropy_comes_before_no_start_of_word_entropy() {
    // No n-gram begins a word and each has one successor only.
    let ngrams = strings(&["abc", "bcd", "cda", "dab"]);
    let result = PassphraseMarkovChain::new(&ngrams);
    assert_eq!(result.err().unwrap(), MarkovChainError::ZeroEntropy);
}

#[test]
fn no_word_start_at_all_is_no_start_of_word_entropy() {
    let ngrams = strings(&["ab", "bc", "ca", "ab", "ba", "ab"]);
    let result = PassphraseMarkovChain::new(&ngrams);
    assert_eq!(
        result.err().unwrap(),
        MarkovChainError::ZeroStartOfWordEntropy
    );
}

#[test]
fn a_single_ngram_follows_itself() {
    let ngrams = strings(&[" a"]);
    let result = PassphraseMarkovChain::new(&ngrams);
    assert_eq!(result.err().unwrap(), MarkovChainError::ZeroEntropy);
}

#[test]
fn nodes_count_transitions_in_order_of_first_occurrence() {
    let ngrams = strings(&[" ti", "tic", "ic ", "c t", " to", "toc", "oc ", "c t"]);
    let chain = PassphraseMarkovChain::new(&ngrams).unwrap();
    assert_eq!(chain.len(), 7);
    assert_eq!(chain.starting_ngrams(), &strings(&[" ti", " to"]));
    assert_eq!(chain.starting_weights(), &vec![1u64, 1]);
    let node = chain.node("c t").unwrap();
    assert_eq!(node.value(), "c t");
    // The first "c t" is followed by " to", the last one by the first n-gram.
    assert_eq!(node.transitions(), &strings(&[" to", " ti"]));
    assert_eq!(node.weights(), &vec![1u64, 1]);
    let node = chain.node("tic").unwrap();
    assert_eq!(node.transitions(), &strings(&["ic "]));
    assert_eq!(node.weights(), &vec![1u64]);
    assert!(chain.node("xyz").is_none());
}

#[test]
fn repeated_transitions_add_to_the_weight() {
    let ngrams = strings(&[" a", "ab", "b ", " a", "ac", "c ", " a", "ab", "b ", " d", "d "]);
    let chain = PassphraseMarkovChain::new(&ngrams).unwrap();
    let node = chain.node(" a").unwrap();
    assert_eq!(node.transitions(), &strings(&["ab", "ac"]));
    assert_eq!(node.weights(), &vec![2u64, 1]);
    assert_eq!(chain.starting_ngrams(), &strings(&[" a", " d"]));
    assert_eq!(chain.starting_weights(), &vec![3u64, 1]);
    // The last n-gram is followed by the first.
    let node = chain.node("d ").unwrap();
    assert_eq!(node.transitions(), &strings(&[" a"]));
}

#[test]
fn steps_follow_recorded_transitions() {
    let ngrams = get_ngrams(
        "the quick brown fox jumps over the lazy dog then the brown dog jumps".to_string(),
        3,
        3,
    );
    let chain = PassphraseMarkovChain::new(&ngrams).unwrap();
    let mut rng = StdRng::seed_from_u64(2024);
    for _ in 0..50 {
        let mut ngram = chain.get_starting_ngram(&mut rng).to_string();
        assert!(ngram.starts_with(' '));
        for _ in 0..40 {
            let next = chain.get_next_ngram(&ngram, &mut rng).to_string();
            let occurs = (0..ngrams.len())
                .any(|i| ngrams[i] == ngram && ngrams[(i + 1) % ngrams.len()] == next);
            assert!(occurs);
            ngram = next;
        }
    }
}

#[test]
fn word_boundaries() {
    assert!(begins_with_space(" ab"));
    assert!(!begins_with_space("ab "));
    assert!(!begins_with_space(""));
    assert!(ends_with_space("ab "));
    assert!(!ends_with_space(" ab"));
    assert!(!ends_with_space(""));
    assert!(ends_with_space(" "));
    assert!(begins_with_space(" "));
    assert!(ends_with_space("é "));
}

#[test]
fn error_messages() {
    assert_eq!(
        MarkovChainError::NoNgrams.message(),
        "No ngrams found in cleaned input."
    );
    assert_eq!(
        MarkovChainError::ZeroEntropy.message(),
        "Cleaned input has no entropy."
    );
    assert_eq!(
        MarkovChainError::ZeroStartOfWordEntropy.message(),
        "Cleaned input has no start of word entropy."
    );
}

#[test]
fn a_node_without_a_weight_above_zero_fails() {
    let result = MarkovNode::new("tic", vec!["tac", "toc"], vec![0, 0]);
    assert_eq!(result.err().unwrap(), AliasDistributionError::NullDistribution);
    let result = MarkovNode::new("tic", Vec::<&str>::new(), Vec::new());
    assert_eq!(result.err().unwrap(), AliasDistributionError::NullDistribution);
}

#[test]
fn a_node_never_draws_a_transition_of_weight_zero() {
    let node = MarkovNode::new(0u8, vec![1u8, 2, 3], vec![0, 5, 0]).unwrap();
    let mut rng = StdRng::seed_from_u64(17);
    for _ in 0..100 {
        assert_eq!(*node.next(&mut rng), 2);
    }
}
