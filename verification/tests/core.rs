use prime_resonance::fingerprint::{build_vector, dot_product, score_is_ge, Score};
use prime_resonance::primes::{is_prime_exec, sieve_of_eratosthenes, small_primes_up_to};
use prime_resonance::tokenizer::PrimeTokenizer;
use sha2::Digest;

#[test]
fn tokenize_assigns_increasing_primes_starting_above_two() {
    let mut t = PrimeTokenizer::new();
    let ids = t.tokenize("go fast").expect("small vocabulary");
    assert_eq!(ids, vec![3, 5]);
}

#[test]
fn tokenize_twice_yields_identical_sequences() {
    let mut t = PrimeTokenizer::new();
    let a = t.tokenize("Memories of a beloved friend").expect("small vocabulary");
    let b = t.tokenize("Memories of a beloved friend").expect("small vocabulary");
    assert_eq!(a, b);
}

#[test]
fn tokenize_is_case_insensitive_and_repeats_identifiers() {
    let mut t = PrimeTokenizer::new();
    let ids = t.tokenize("Go go GO stop").expect("small vocabulary");
    assert_eq!(ids.len(), 4);
    assert_eq!(ids[0], ids[1]);
    assert_eq!(ids[1], ids[2]);
    assert_ne!(ids[2], ids[3]);
}

#[test]
fn distinct_tokens_get_distinct_primes() {
    let mut t = PrimeTokenizer::new();
    let ids = t.tokenize("one two three four").expect("small vocabulary");
    for i in 0..ids.len() {
        assert!(is_prime_exec(ids[i]));
        for j in 0..i {
            assert_ne!(ids[i], ids[j]);
        }
    }
}

#[test]
fn build_vector_weights_form_a_unit_vector() {
    // counts {3: 2, 5: 1}: norm_sq = 5, sum of squared counts = 5
    let v = build_vector(&vec![3, 5, 3]);
    let sum_sq: u64 = v.entries.iter().map(|e| e.1 * e.1).sum();
    assert_eq!(sum_sq, v.norm_sq);
    assert_eq!(v.norm_sq, 5);
}

#[test]
fn build_vector_of_empty_input_is_empty() {
    let v = build_vector(&vec![]);
    assert_eq!(v.entries.len(), 0);
    assert_eq!(v.norm_sq, 0);
}

#[test]
fn self_similarity_is_exactly_one() {
    let v = build_vector(&vec![7, 11, 7, 13]);
    let s = dot_product(&v, &v);
    assert_eq!(s.num * s.num, s.den);
}

#[test]
fn dot_product_is_symmetric_and_zero_for_disjoint() {
    let a = build_vector(&vec![3, 5]);
    let b = build_vector(&vec![7, 11]);
    let ab = dot_product(&a, &b);
    let ba = dot_product(&b, &a);
    assert_eq!(ab.num, 0);
    assert_eq!(ab.num, ba.num);
}

#[test]
fn score_comparison_orders_exact_ratios() {
    // 2/sqrt(4) = 1 versus 1/sqrt(2)
    let one = Score { num: 2, den: 4 };
    let smaller = Score { num: 1, den: 2 };
    assert!(score_is_ge(&one, &smaller));
    assert!(!score_is_ge(&smaller, &one));
}

#[test]
fn sieve_lists_exactly_the_primes() {
    let primes = sieve_of_eratosthenes(30);
    assert_eq!(primes, vec![2, 3, 5, 7, 11, 13, 17, 19, 23, 29]);
    let none = sieve_of_eratosthenes(1);
    assert!(none.is_empty());
    let small = small_primes_up_to(10);
    assert_eq!(small, vec![2, 3, 5, 7]);
}

#[test]
fn generator_counts_and_payloads_for_two_identifiers() {
    // u = 2: 2 permutations of size 2 and 2 of size 1, two candidates each
    let list = prime_resonance::candidates::generate_from_identifiers(&vec![3, 5])
        .expect("two unique identifiers fit the generator");
    assert_eq!(list.len(), 8);
    let payloads: Vec<Vec<u8>> = list.iter().map(|c| c.payload.clone()).collect();
    for want in [b"35".to_vec(), b"53".to_vec(), b"3".to_vec(), b"5".to_vec()] {
        let digest = sha2::Sha256::digest(&want).to_vec();
        assert!(payloads.contains(&want));
        assert!(payloads.contains(&digest));
    }
}

#[test]
fn generator_list_is_sorted_by_non_increasing_score() {
    let list = prime_resonance::candidates::generate_from_identifiers(&vec![3, 5, 3, 7])
        .expect("three unique identifiers fit the generator");
    assert_eq!(list.len(), 2 * (6 + 6 + 3));
    for w in list.windows(2) {
        assert!(prime_resonance::fingerprint::score_is_ge(&w[0].score, &w[1].score));
    }
}

#[test]
fn generator_of_empty_input_is_empty() {
    let list = prime_resonance::candidates::generate_from_identifiers(&vec![])
        .expect("no identifiers is within bounds");
    assert!(list.is_empty());
}

#[test]
fn generator_refuses_too_many_unique_identifiers() {
    let ids: Vec<u64> = vec![2, 3, 5, 7, 11, 13, 17, 19, 23];
    assert!(prime_resonance::candidates::generate_from_identifiers(&ids).is_none());
}

#[test]
fn query_pipeline_ranks_full_permutations_first() {
    // "go fast": identifiers {3, 5}; the size-2 permutations score exactly 1
    let list = prime_resonance::candidates::generate_resonant_candidates("go fast")
        .expect("two words fit the generator");
    assert_eq!(list.len(), 8);
    let payloads: Vec<Vec<u8>> = list.iter().map(|c| c.payload.clone()).collect();
    assert!(payloads.contains(&b"35".to_vec()));
    assert!(payloads.contains(&sha2::Sha256::digest(b"35").to_vec()));
    // the four top-ranked candidates are the two full permutations and their digests
    for c in list.iter().take(4) {
        assert_eq!(c.score.num * c.score.num, c.score.den);
    }
    for c in list.iter().skip(4) {
        assert!(c.score.num * c.score.num < c.score.den);
    }
}

#[test]
fn trial_cell_keeps_first_success_only() {
    let mut cell = prime_resonance::trials::TrialCell::new();
    assert!(cell.winner.is_none());
    cell.record_trial(&b"wrong".to_vec(), false);
    assert!(cell.winner.is_none());
    cell.record_trial(&b"first".to_vec(), true);
    assert_eq!(cell.winner.as_deref(), Some(b"first".as_slice()));
    cell.record_trial(&b"second".to_vec(), true);
    assert_eq!(cell.winner.as_deref(), Some(b"first".as_slice()));
}
