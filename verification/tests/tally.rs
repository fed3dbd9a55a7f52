use markovpass::errors::AliasDistributionError;
use markovpass::tally::Tally;
use markovpass::text::string_from_chars;

#[test]
fn tally_counts_in_order_of_first_occurrence() {
    let mut tally = Tally::new();
    assert_eq!(tally.len(), 0);
    for item in ["b", "a", "b", "c", "b", "a"] {
        tally.record(&item.to_string());
    }
    assert_eq!(tally.len(), 3);
    assert_eq!(tally.keys(), &vec!["b".to_string(), "a".to_string(), "c".to_string()]);
    assert_eq!(tally.counts(), &vec![3u64, 2, 1]);
    let (keys, counts) = tally.into_parts();
    assert_eq!(keys, vec!["b", "a", "c"]);
    assert_eq!(counts, vec![3, 2, 1]);
}

#[test]
fn tally_tells_texts_apart_by_every_character() {
    let mut tally = Tally::new();
    for item in ["ab", "ab ", " ab", "", "ab", ""] {
        tally.record(&item.to_string());
    }
    assert_eq!(tally.keys(), &vec!["ab", "ab ", " ab", ""]);
    assert_eq!(tally.counts(), &vec![2u64, 1, 1, 2]);
}

#[test]
fn empty_tally_has_no_parts() {
    let (keys, counts) = Tally::new().into_parts();
    assert!(keys.is_empty());
    assert!(counts.is_empty());
}

#[test]
fn string_from_chars_keeps_every_character() {
    assert_eq!(string_from_chars(&vec!['n', 'é', ' ', '\'']), "né '");
    assert_eq!(string_from_chars(&Vec::new()), "");
}

#[test]
fn alias_distribution_error_messages() {
    assert_eq!(
        AliasDistributionError::InvalidWeight.message(),
        "Weights must be finite non-negative values."
    );
    assert_eq!(
        AliasDistributionError::NullDistribution.message(),
        "Sum of weights must be non-zero."
    );
}
