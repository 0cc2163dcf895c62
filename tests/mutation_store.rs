use genomic_query::mutation_finder::{compress_positions_as_strings, find_nuc_mutations, find_nuc_unknowns};
use genomic_query::{BiDict, Counter, MutationStore, NucCode, NucMutation, StoreError};

fn m(position: usize, to: NucCode) -> NucMutation {
    NucMutation { position, to }
}

#[test]
fn count_subset_scenario() {
    let mut store = MutationStore::with_capacity(3);
    let none: Vec<&str> = Vec::new();
    store.push(&vec![m(100, NucCode::A)], &none).unwrap();
    store.push(&vec![m(100, NucCode::A), m(200, NucCode::C)], &none).unwrap();
    store.push(&vec![m(200, NucCode::C)], &none).unwrap();
    let counts = store.count_mutations(&vec![0, 1, 2]);
    assert_eq!(counts.len(), 2);
    assert_eq!(counts[0].mutation, m(100, NucCode::A));
    assert_eq!(counts[0].count, 2);
    assert_eq!(counts[0].denominator, 3);
    assert_eq!(counts[1].mutation, m(200, NucCode::C));
    assert_eq!(counts[1].count, 2);
    assert_eq!(counts[1].denominator, 3);
}

#[test]
fn count_subset_of_subset_has_full_proportion() {
    let mut store = MutationStore::with_capacity(3);
    let none: Vec<&str> = Vec::new();
    store.push(&vec![m(100, NucCode::A)], &none).unwrap();
    store.push(&vec![m(100, NucCode::A), m(200, NucCode::C)], &none).unwrap();
    store.push(&vec![m(200, NucCode::C)], &none).unwrap();
    let counts = store.count_mutations(&vec![1, 2]);
    assert_eq!(counts.len(), 2);
    assert_eq!((counts[0].count, counts[0].denominator), (1, 2));
    assert_eq!((counts[1].count, counts[1].denominator), (2, 2));
}

#[test]
fn count_empty_subset() {
    let mut store = MutationStore::with_capacity(1);
    store.push(&vec![m(5, NucCode::T)], &vec!["7"]).unwrap();
    assert!(store.count_mutations(&vec![]).is_empty());
}

#[test]
fn unknowns_reduce_denominator() {
    let mut store = MutationStore::with_capacity(3);
    store.push(&vec![m(10, NucCode::G)], &vec!["1-3"]).unwrap();
    store.push(&vec![], &vec!["5", "8-12"]).unwrap();
    store.push(&vec![m(10, NucCode::G)], &vec![]).unwrap();
    let counts = store.count_mutations(&vec![0, 1, 2]);
    assert_eq!(counts.len(), 1);
    assert_eq!(counts[0].count, 2);
    assert_eq!(counts[0].denominator, 2);
    for c in &counts {
        assert!(c.count >= 1 && c.count <= c.denominator);
    }
}

#[test]
fn repeated_indices_count_twice() {
    let mut store = MutationStore::with_capacity(1);
    store.push(&vec![m(3, NucCode::GAP)], &vec!["9"]).unwrap();
    let counts = store.count_mutations(&vec![0, 0]);
    assert_eq!(counts[0].count, 2);
    assert_eq!(counts[0].denominator, 2);
}

#[test]
fn push_rejects_malformed_tokens() {
    let mut store = MutationStore::with_capacity(1);
    assert_eq!(store.push(&vec![], &vec!["x"]), Err(StoreError::MalformedUnknowns));
    assert_eq!(store.push(&vec![], &vec!["8-5"]), Err(StoreError::MalformedUnknowns));
    assert_eq!(store.push(&vec![], &vec!["5-8", "7"]), Err(StoreError::MalformedUnknowns));
    assert_eq!(store.number_of_sequences(), 0);
}

#[test]
fn push_rejects_inconsistent_entries() {
    let mut store = MutationStore::with_capacity(1);
    assert_eq!(store.push(&vec![m(6, NucCode::A)], &vec!["5-8"]), Err(StoreError::InconsistentEntry));
    assert_eq!(store.push(&vec![m(6, NucCode::A), m(6, NucCode::A)], &vec![]), Err(StoreError::InconsistentEntry));
    assert_eq!(store.number_of_sequences(), 0);
    assert_eq!(store.push(&vec![m(6, NucCode::A)], &vec!["1-5", "7"]), Ok(()));
    assert_eq!(store.number_of_sequences(), 1);
    assert_eq!(store.number_of_mutations(), 1);
}

#[test]
fn interning_is_idempotent_and_dense() {
    let mut dict: BiDict<u64> = BiDict::new();
    assert_eq!(dict.value_to_id(42), 0);
    assert_eq!(dict.value_to_id(7), 1);
    assert_eq!(dict.value_to_id(42), 0);
    assert_eq!(dict.value_to_id(9), 2);
    assert_eq!(dict.id_to_value(1), 7);
    assert_eq!(dict.len(), 3);
}

#[test]
fn counter_tallies_across_updates() {
    let mut counter: Counter<u32> = Counter::new();
    counter.update(&vec![1, 2, 1]);
    counter.update(&vec![2, 3]);
    assert_eq!(counter.data.get(&1), Some(&2));
    assert_eq!(counter.data.get(&2), Some(&2));
    assert_eq!(counter.data.get(&3), Some(&1));
    assert_eq!(counter.data.get(&4), None);
}

#[test]
fn compress_positions_scenario() {
    let r = compress_positions_as_strings(&vec![1, 5, 6, 7, 8, 20]);
    assert_eq!(r, vec!["1", "5-8", "20"]);
}

#[test]
fn compress_positions_edge_cases() {
    assert!(compress_positions_as_strings(&vec![]).is_empty());
    assert_eq!(compress_positions_as_strings(&vec![3, 4]), vec!["3", "4"]);
    assert_eq!(compress_positions_as_strings(&vec![3, 3, 4, 9]), vec!["3", "4", "9"]);
    assert_eq!(compress_positions_as_strings(&vec![usize::MAX - 1, usize::MAX]), vec![
        (usize::MAX - 1).to_string(),
        usize::MAX.to_string()
    ]);
}

#[test]
fn finds_mutations_and_unknowns() {
    let reference = NucCode::from_seq_string("ACGTACGT").unwrap();
    let seq = NucCode::from_seq_string("--GAANC-").unwrap();
    let muts = find_nuc_mutations(seq.clone(), &reference);
    assert_eq!(muts, vec![m(4, NucCode::A), m(7, NucCode::C)]);
    let unknowns = find_nuc_unknowns(seq);
    assert_eq!(unknowns, vec![1, 2, 6, 8]);
}

#[test]
fn inner_gaps_are_deletions() {
    let reference = NucCode::from_seq_string("ACGT").unwrap();
    let seq = NucCode::from_seq_string("A--T").unwrap();
    assert_eq!(find_nuc_mutations(seq.clone(), &reference), vec![m(2, NucCode::GAP), m(3, NucCode::GAP)]);
    assert!(find_nuc_unknowns(seq).is_empty());
}

#[test]
fn mutation_text_round_trip() {
    assert_eq!(NucMutation::from_str("C1234A"), Some(m(1234, NucCode::A)));
    assert_eq!(NucMutation::from_str("1234-"), Some(m(1234, NucCode::GAP)));
    assert_eq!(NucMutation::from_str("12Z"), None);
    assert_eq!(NucMutation::from_str("A"), None);
    assert_eq!(m(1234, NucCode::A).to_string(), "1234A");
    assert_eq!(m(7, NucCode::GAP).to_string(), "7-");
}

#[test]
fn nuc_codes_from_bytes() {
    assert_eq!(NucCode::from_byte(&b'A'), Some(NucCode::A));
    assert_eq!(NucCode::from_byte(&b'a'), None);
    assert_eq!(NucCode::from_byte_ignore_weird(&b'?'), NucCode::N);
    assert_eq!(NucCode::from_byte_ignore_weird(&b'-'), NucCode::GAP);
    assert_eq!(NucCode::from_seq_bytes(b"AC-"), Some(vec![NucCode::A, NucCode::C, NucCode::GAP]));
    assert_eq!(NucCode::from_seq_bytes(b"AXz"), None);
    assert_eq!(NucCode::GAP.to_string(), "-");
    assert_eq!(NucCode::Y.to_string(), "Y");
}
