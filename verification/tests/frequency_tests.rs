use entropiter::BTreeMapHistogram;
use entropiter::ByteHistogram;
use entropiter::Frequencies;
use entropiter::FrequencyIteratorExt;
use entropiter::HashMapHistogram;
use entropiter::Histogram;

/// Each non-zero count divided by the total, one pair per observed symbol.
fn probabilities_of<T: Histogram<S>, S>(freq: Frequencies<T, S>) -> Vec<(S, f64)> {
    let total = freq.total();
    freq.into_frequencies()
        .into_iter()
        .map(|(symbol, count)| (symbol, count as f64 / total as f64))
        .collect()
}

/// Shannon entropy in bits: the negated sum of `p * log2(p)`, with a raw
/// sum of exactly zero kept as `0.0` rather than `-0.0`.
fn entropy_of<T: Histogram<S>, S>(freq: Frequencies<T, S>) -> f64 {
    let e = probabilities_of(freq)
        .into_iter()
        .map(|(_, p)| p * p.log2())
        .sum::<f64>();
    if e == 0.0 { e } else { e * -1.0 }
}

#[test]
fn test_simple_string_histogram() {
    let symbols: Vec<char> = "Hello, World!".chars().collect();
    let freq = symbols.shannon::<BTreeMapHistogram<char>>();
    assert_eq!(freq.histogram.frequency_of('l'), Some(3));
    assert_eq!(freq.histogram.frequency_of('o'), Some(2));
    assert_eq!(freq.histogram.frequency_of(' '), Some(1));
    assert_eq!(freq.histogram.frequency_of('æ'), None);
}

#[test]
fn dense_strategy_counts_and_entropy() {
    let symbols: Vec<u8> = vec![0, 1, 2, 2];
    let freq = symbols.shannon::<ByteHistogram>();
    assert_eq!(freq.histogram.frequency_of(0), Some(1));
    assert_eq!(freq.histogram.frequency_of(1), Some(1));
    assert_eq!(freq.histogram.frequency_of(2), Some(2));
    assert_eq!(freq.total(), 4);
    let e = entropy_of(freq);
    assert!((e - 1.5).abs() < 1e-9);
}

#[test]
fn dense_strategy_reports_zero_for_unobserved() {
    let symbols: Vec<u8> = vec![7, 7];
    let freq = symbols.shannon::<ByteHistogram>();
    assert_eq!(freq.histogram.frequency_of(9), Some(0));
    assert_eq!(freq.histogram.frequency_of(7), Some(2));
}

#[test]
fn dense_strategy_filters_zero_slots() {
    let symbols: Vec<u8> = vec![9, 3, 3, 200];
    let pairs = symbols.shannon::<ByteHistogram>().into_frequencies();
    assert_eq!(pairs, vec![(3, 2), (9, 1), (200, 1)]);
}

#[test]
fn hash_strategy_counts_and_entropy() {
    let symbols: Vec<char> = "shannon".chars().collect();
    let freq = symbols.shannon::<HashMapHistogram<char>>();
    assert_eq!(freq.histogram.frequency_of('s'), Some(1));
    assert_eq!(freq.histogram.frequency_of('h'), Some(1));
    assert_eq!(freq.histogram.frequency_of('a'), Some(1));
    assert_eq!(freq.histogram.frequency_of('n'), Some(3));
    assert_eq!(freq.histogram.frequency_of('o'), Some(1));
    assert_eq!(freq.total(), 7);
    let e = entropy_of(freq);
    let expected = (4.0 / 7.0) * 7.0f64.log2() + (3.0 / 7.0) * (7.0f64 / 3.0).log2();
    assert!((e - expected).abs() < 1e-9);
}

#[test]
fn ordered_strategy_counts_and_entropy() {
    let symbols: Vec<u64> = vec![0, 1, 2, 6, 87654, 64, 89234, 234234, 87654, 0];
    let freq = symbols.shannon::<BTreeMapHistogram<u64>>();
    assert_eq!(freq.histogram.frequency_of(0), Some(2));
    assert_eq!(freq.histogram.frequency_of(87654), Some(2));
    assert_eq!(freq.histogram.frequency_of(6), Some(1));
    assert_eq!(freq.histogram.frequency_of(234234), Some(1));
    assert_eq!(freq.total(), 10);
    let e = entropy_of(freq);
    assert!((e - 2.9219).abs() < 1e-3);
}

#[test]
fn ordered_strategy_yields_ascending_pairs() {
    let symbols: Vec<u64> = vec![5, 3, 9, 3, 1];
    let pairs = symbols.shannon::<BTreeMapHistogram<u64>>().into_frequencies();
    assert_eq!(pairs, vec![(1, 1), (3, 2), (5, 1), (9, 1)]);
}

#[test]
fn sparse_strategies_report_absent_not_zero() {
    let symbols: Vec<char> = "Hello, World!".chars().collect();
    let freq = symbols.clone().shannon::<HashMapHistogram<char>>();
    assert_eq!(freq.histogram.frequency_of('æ'), None);
    assert_eq!(freq.histogram.frequency_of('l'), Some(3));
    let freq = symbols.shannon::<BTreeMapHistogram<char>>();
    assert_eq!(freq.histogram.frequency_of('æ'), None);
}

#[test]
fn counts_sum_to_sequence_length() {
    let symbols: Vec<char> = "mississippi".chars().collect();
    let n = symbols.len();
    let freq = symbols.shannon::<HashMapHistogram<char>>();
    let total = freq.total();
    assert_eq!(total, n);
    assert_eq!(total, 11);
    let sum: usize = freq.into_frequencies().iter().map(|pair| pair.1).sum();
    assert_eq!(sum, total);
}

#[test]
fn frequency_matches_occurrences() {
    let symbols: Vec<char> = "mississippi".chars().collect();
    let freq = symbols.shannon::<HashMapHistogram<char>>();
    assert_eq!(freq.histogram.frequency_of('m'), Some(1));
    assert_eq!(freq.histogram.frequency_of('i'), Some(4));
    assert_eq!(freq.histogram.frequency_of('s'), Some(4));
    assert_eq!(freq.histogram.frequency_of('p'), Some(2));
    assert_eq!(freq.histogram.frequency_of('z'), None);
}

#[test]
fn probabilities_sum_to_one() {
    let symbols: Vec<u8> = vec![1, 2, 3, 4, 5, 5, 5, 9];
    let probs = probabilities_of(symbols.shannon::<ByteHistogram>());
    let sum: f64 = probs.iter().map(|pair| pair.1).sum();
    assert!((sum - 1.0).abs() < 1e-9);
    let symbols: Vec<char> = "shannon".chars().collect();
    let probs = probabilities_of(symbols.shannon::<BTreeMapHistogram<char>>());
    let sum: f64 = probs.iter().map(|pair| pair.1).sum();
    assert!((sum - 1.0).abs() < 1e-9);
}

#[test]
fn single_symbol_entropy_is_positive_zero() {
    let symbols: Vec<u8> = vec![42; 17];
    let e = entropy_of(symbols.shannon::<ByteHistogram>());
    assert_eq!(e, 0.0);
    assert!(e.is_sign_positive());
    let symbols: Vec<char> = "aaaa".chars().collect();
    let e = entropy_of(symbols.shannon::<BTreeMapHistogram<char>>());
    assert_eq!(e, 0.0);
    assert!(e.is_sign_positive());
}

#[test]
fn uniform_distribution_entropy_is_log2_k() {
    let symbols: Vec<u8> = vec![0, 1, 2, 3];
    let e = entropy_of(symbols.shannon::<ByteHistogram>());
    assert!((e - 2.0).abs() < 1e-12);
    let symbols: Vec<u64> = vec![10, 20, 30, 40, 10, 20, 30, 40];
    let e = entropy_of(symbols.shannon::<BTreeMapHistogram<u64>>());
    assert!((e - 2.0).abs() < 1e-12);
}

#[test]
fn empty_sequence_yields_empty_distribution() {
    let symbols: Vec<u8> = Vec::new();
    let freq = symbols.shannon::<ByteHistogram>();
    assert_eq!(freq.total(), 0);
    assert!(freq.into_frequencies().is_empty());
}

#[test]
fn update_increments_one_symbol() {
    let mut h: HashMapHistogram<u64> = HashMapHistogram::empty();
    h.update(5);
    h.update(5);
    h.update(8);
    assert_eq!(h.frequency_of(5), Some(2));
    assert_eq!(h.frequency_of(8), Some(1));
    assert_eq!(h.frequency_of(11), None);
    assert_eq!(h.total(), 3);
}

#[test]
fn default_containers_start_empty() {
    let h: ByteHistogram = Default::default();
    assert_eq!(h.total(), 0);
    let h: HashMapHistogram<char> = Default::default();
    assert_eq!(h.total(), 0);
    let h: BTreeMapHistogram<u64> = Default::default();
    assert_eq!(h.total(), 0);
}
