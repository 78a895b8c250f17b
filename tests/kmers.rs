use kmer_count::accumulator::KmerCountAccumulator;
use kmer_count::bulk::{count_kmers, count_kmers_chunked, total_length};
use kmer_count::canonical::{canonical_kmer, is_valid_window, reverse_complement};
use kmer_count::error::KmerError;
use kmer_count::scan::scan_sequence;
use kmer_count::tally::Tally;

fn sorted(entries: (Vec<Vec<u8>>, Vec<u64>)) -> Vec<(Vec<u8>, u64)> {
    let (keys, counts) = entries;
    assert_eq!(keys.len(), counts.len());
    let mut v: Vec<(Vec<u8>, u64)> = keys.into_iter().zip(counts).collect();
    v.sort();
    v
}

fn pairs(items: &[(&str, u64)]) -> Vec<(Vec<u8>, u64)> {
    let mut v: Vec<(Vec<u8>, u64)> = items
        .iter()
        .map(|(k, c)| (k.as_bytes().to_vec(), *c))
        .collect();
    v.sort();
    v
}

fn seqs(items: &[&str]) -> Vec<Vec<u8>> {
    items.iter().map(|s| s.as_bytes().to_vec()).collect()
}

fn rows(items: &[(Option<&str>, Option<i64>)]) -> (Vec<Option<Vec<u8>>>, Vec<Option<i64>>) {
    let s = items.iter().map(|(s, _)| s.map(|x| x.as_bytes().to_vec())).collect();
    let k = items.iter().map(|(_, k)| *k).collect();
    (s, k)
}

fn tally_from(items: &[(&str, u64)]) -> Tally {
    let mut t = Tally::new();
    for (k, c) in items {
        t.add_count(k.as_bytes(), *c);
    }
    t
}

#[test]
fn reverse_complement_reverses_and_complements() {
    assert_eq!(reverse_complement(b"AC"), b"GT".to_vec());
    assert_eq!(reverse_complement(b"AACG"), b"CGTT".to_vec());
    assert_eq!(reverse_complement(b"acgt"), b"ACGT".to_vec());
    assert_eq!(reverse_complement(b"ACGX"), b"NCGT".to_vec());
    assert_eq!(reverse_complement(b""), Vec::<u8>::new());
}

#[test]
fn canonical_picks_smaller_strand() {
    assert_eq!(canonical_kmer(b"AC"), b"AC".to_vec());
    assert_eq!(canonical_kmer(b"GT"), b"AC".to_vec());
    assert_eq!(canonical_kmer(b"CG"), b"CG".to_vec());
    assert_eq!(canonical_kmer(b"TTT"), b"AAA".to_vec());
    assert_eq!(canonical_kmer(b"gt"), b"AC".to_vec());
    assert_eq!(canonical_kmer(b"ac"), b"AC".to_vec());
}

#[test]
fn accumulator_canonical_matches_free_function() {
    assert_eq!(KmerCountAccumulator::canonical_kmer(b"GGT"), canonical_kmer(b"GGT"));
    assert_eq!(KmerCountAccumulator::canonical_kmer(b"GGT"), b"ACC".to_vec());
}

#[test]
fn strand_symmetry_on_examples() {
    for w in [&b"AAGC"[..], b"GATTACA", b"CG", b"ttgca", b"A"] {
        assert_eq!(canonical_kmer(w), canonical_kmer(&reverse_complement(w)));
    }
}

#[test]
fn valid_window_check() {
    assert!(is_valid_window(b"ACGTacgt"));
    assert!(!is_valid_window(b"ACNT"));
    assert!(is_valid_window(b""));
}

#[test]
fn scenario_a_acgt() {
    let t = count_kmers(&seqs(&["ACGT"]), 2).unwrap();
    assert_eq!(sorted(t.entries()), pairs(&[("AC", 2), ("CG", 1)]));
    assert_eq!(t.count_of(b"AC"), 2);
    assert_eq!(t.count_of(b"GT"), 0);
    assert_eq!(t.total(), 3);
    assert_eq!(t.num_keys(), 2);
}

#[test]
fn scenario_b_ambiguous_base() {
    let t = count_kmers(&seqs(&["ACNGT"]), 2).unwrap();
    assert_eq!(sorted(t.entries()), pairs(&[("AC", 2)]));
}

#[test]
fn scenario_c_merge_any_order() {
    let expected = pairs(&[("AC", 5), ("CG", 1), ("GT", 4)]);
    let mut a = tally_from(&[("AC", 3), ("CG", 1)]);
    let b = tally_from(&[("AC", 2), ("GT", 4)]);
    a.merge(&b);
    assert_eq!(sorted(a.entries()), expected);

    let a = tally_from(&[("AC", 3), ("CG", 1)]);
    let mut b = tally_from(&[("AC", 2), ("GT", 4)]);
    b.merge(&a);
    assert_eq!(sorted(b.entries()), expected);
}

#[test]
fn scenario_c_merge_through_accumulator() {
    let mut acc = KmerCountAccumulator::new();
    acc.merge_batch(&seqs(&["AC", "CG"]), &vec![3, 1]).unwrap();
    acc.merge_batch(&seqs(&["AC", "GT"]), &vec![2, 4]).unwrap();
    assert_eq!(
        sorted(acc.evaluate().unwrap()),
        pairs(&[("AC", 5), ("CG", 1), ("GT", 4)])
    );
}

#[test]
fn merge_grouping_does_not_matter() {
    let a = || tally_from(&[("AC", 1), ("AAA", 2)]);
    let b = || tally_from(&[("CG", 5)]);
    let c = || tally_from(&[("AC", 7), ("CG", 1)]);
    let mut left = a();
    left.merge(&b());
    left.merge(&c());
    let mut bc = b();
    bc.merge(&c());
    let mut right = a();
    right.merge(&bc);
    let mut ac = a();
    ac.merge(&c());
    let mut other = b();
    other.merge(&ac);
    assert_eq!(sorted(left.entries()), sorted(right.entries()));
    assert_eq!(sorted(left.entries()), sorted(other.entries()));
    assert_eq!(sorted(left.entries()), pairs(&[("AC", 8), ("AAA", 2), ("CG", 6)]));
}

#[test]
fn partition_invariance_over_chunk_sizes() {
    let input = seqs(&["ACGTTGCA", "GGGCCC", "ANNAC", "TTTT", "acgtAC", "CA"]);
    let whole = sorted(count_kmers_chunked(&input, 3, input.len()).entries());
    for chunk in [1usize, 2, 4, 5, 100] {
        assert_eq!(sorted(count_kmers_chunked(&input, 3, chunk).entries()), whole);
    }
    assert_eq!(sorted(count_kmers(&input, 3).unwrap().entries()), whole);
}

#[test]
fn filtering_drops_windows_with_other_bytes() {
    let t = count_kmers(&seqs(&["NNNN", "AXGXT"]), 2).unwrap();
    assert_eq!(t.num_keys(), 0);
    let t = count_kmers(&seqs(&["ACxAC"]), 2).unwrap();
    assert_eq!(sorted(t.entries()), pairs(&[("AC", 2)]));
}

#[test]
fn short_input_gives_empty_tally() {
    let t = count_kmers(&seqs(&["AC", ""]), 3).unwrap();
    assert_eq!(t.num_keys(), 0);
    assert_eq!(t.total(), 0);
    assert_eq!(scan_sequence(b"A", 2).num_keys(), 0);
}

#[test]
fn lowercase_counts_with_uppercase() {
    let t = count_kmers(&seqs(&["acgt", "ACGT"]), 2).unwrap();
    assert_eq!(sorted(t.entries()), pairs(&[("AC", 4), ("CG", 2)]));
}

#[test]
fn zero_k_is_invalid() {
    assert_eq!(count_kmers(&seqs(&["ACGT"]), 0).err(), Some(KmerError::InvalidK));
}

#[test]
fn accumulator_counts_rows() {
    let mut acc = KmerCountAccumulator::new();
    let (s, k) = rows(&[(Some("ACGT"), Some(2)), (None, Some(2)), (Some("GT"), None), (Some("ACNGT"), Some(2))]);
    assert_eq!(acc.update_batch(&s, &k), Ok(()));
    assert_eq!(sorted(acc.evaluate().unwrap()), pairs(&[("AC", 4), ("CG", 1)]));
}

#[test]
fn update_after_finalize_fails() {
    let mut acc = KmerCountAccumulator::new();
    let (s, k) = rows(&[(Some("ACGT"), Some(2))]);
    acc.update_batch(&s, &k).unwrap();
    acc.evaluate().unwrap();
    assert_eq!(acc.update_batch(&s, &k), Err(KmerError::Finalized));
    assert_eq!(acc.merge_batch(&seqs(&["AC"]), &vec![1]), Err(KmerError::Finalized));
    assert_eq!(acc.state().err(), Some(KmerError::Finalized));
    assert_eq!(acc.evaluate().err(), Some(KmerError::Finalized));
}

#[test]
fn inconsistent_k_fails_and_keeps_k() {
    let mut acc = KmerCountAccumulator::new();
    let (s, k) = rows(&[(Some("ACGT"), Some(3))]);
    acc.update_batch(&s, &k).unwrap();
    let (s2, k2) = rows(&[(Some("ACGTA"), Some(4))]);
    assert_eq!(acc.update_batch(&s2, &k2), Err(KmerError::InconsistentK));
    let (s3, k3) = rows(&[(Some("TTT"), Some(3))]);
    assert_eq!(acc.update_batch(&s3, &k3), Ok(()));
    assert_eq!(sorted(acc.evaluate().unwrap()), pairs(&[("ACG", 2), ("AAA", 1)]));
}

#[test]
fn inconsistent_k_within_one_batch_changes_nothing() {
    let mut acc = KmerCountAccumulator::new();
    let (s, k) = rows(&[(Some("ACGT"), Some(2)), (Some("ACGT"), Some(3))]);
    assert_eq!(acc.update_batch(&s, &k), Err(KmerError::InconsistentK));
    assert_eq!(acc.state().unwrap().0.len(), 0);
    let (s2, k2) = rows(&[(Some("ACGT"), Some(3))]);
    assert_eq!(acc.update_batch(&s2, &k2), Ok(()));
}

#[test]
fn non_positive_k_is_invalid() {
    let mut acc = KmerCountAccumulator::new();
    let (s, k) = rows(&[(Some("ACGT"), Some(0))]);
    assert_eq!(acc.update_batch(&s, &k), Err(KmerError::InvalidK));
    let (s, k) = rows(&[(Some("ACGT"), Some(-2))]);
    assert_eq!(acc.update_batch(&s, &k), Err(KmerError::InvalidK));
    assert_eq!(KmerCountAccumulator::with_k(0).err(), Some(KmerError::InvalidK));
}

#[test]
fn fixed_k_accumulator() {
    let mut acc = KmerCountAccumulator::with_k(2).unwrap();
    let (s, k) = rows(&[(Some("ACGT"), Some(3))]);
    assert_eq!(acc.update_batch(&s, &k), Err(KmerError::InconsistentK));
    let (s, k) = rows(&[(Some("ACGT"), Some(2))]);
    assert_eq!(acc.update_batch(&s, &k), Ok(()));
    assert_eq!(sorted(acc.evaluate().unwrap()), pairs(&[("AC", 2), ("CG", 1)]));
}

#[test]
fn column_length_mismatch() {
    let mut acc = KmerCountAccumulator::new();
    let s = vec![Some(b"ACGT".to_vec())];
    assert_eq!(acc.update_batch(&s, &vec![]), Err(KmerError::SchemaMismatch));
    assert_eq!(acc.merge_batch(&seqs(&["AC"]), &vec![]), Err(KmerError::SchemaMismatch));
}

#[test]
fn count_overflow_is_refused() {
    let mut acc = KmerCountAccumulator::new();
    acc.merge_batch(&seqs(&["AC"]), &vec![u64::MAX]).unwrap();
    assert_eq!(acc.merge_batch(&seqs(&["CG"]), &vec![1]), Err(KmerError::CountOverflow));
    let (s, k) = rows(&[(Some("ACG"), Some(2))]);
    assert_eq!(acc.update_batch(&s, &k), Err(KmerError::CountOverflow));
    assert_eq!(sorted(acc.evaluate().unwrap()), pairs(&[("AC", u64::MAX)]));
}

#[test]
fn state_round_trips_into_merge() {
    let mut first = KmerCountAccumulator::new();
    let (s, k) = rows(&[(Some("GATTACA"), Some(3)), (Some("TGTAATC"), Some(3))]);
    first.update_batch(&s, &k).unwrap();
    let (keys, counts) = first.state().unwrap();
    let mut second = KmerCountAccumulator::new();
    second.merge_batch(&keys, &counts).unwrap();
    assert_eq!(sorted(second.evaluate().unwrap()), sorted(first.evaluate().unwrap()));
}

#[test]
fn merge_skips_zero_counts() {
    let mut acc = KmerCountAccumulator::new();
    acc.merge_batch(&seqs(&["AC", "CG", "AC"]), &vec![0, 2, 1]).unwrap();
    assert_eq!(sorted(acc.evaluate().unwrap()), pairs(&[("AC", 1), ("CG", 2)]));
}

#[test]
fn size_grows_with_keys() {
    let mut acc = KmerCountAccumulator::new();
    assert_eq!(acc.size(), 64);
    let (s, k) = rows(&[(Some("ACGT"), Some(2))]);
    acc.update_batch(&s, &k).unwrap();
    assert_eq!(acc.size(), 64 + 2 * 32);
}

#[test]
fn total_length_sums_sequences() {
    assert_eq!(total_length(&seqs(&["AC", "GTA", ""])), Some(5));
    assert_eq!(total_length(&vec![]), Some(0));
}

#[test]
fn reverse_complemented_input_gives_same_tally() {
    let input = seqs(&["ACGTTGCA", "GGGACCC", "ANNACT", "TTTAT"]);
    let flipped: Vec<Vec<u8>> = input.iter().map(|s| reverse_complement(s)).collect();
    assert_eq!(
        sorted(count_kmers(&input, 3).unwrap().entries()),
        sorted(count_kmers(&flipped, 3).unwrap().entries())
    );
}

#[test]
fn extra_short_sequences_change_nothing() {
    let base = seqs(&["ACGTAC", "GGATC"]);
    let more = seqs(&["ACGTAC", "GGATC", "AC", "", "T"]);
    assert_eq!(
        sorted(count_kmers(&base, 3).unwrap().entries()),
        sorted(count_kmers(&more, 3).unwrap().entries())
    );
}

#[test]
fn batch_without_valid_windows_adds_nothing() {
    let mut acc = KmerCountAccumulator::new();
    let (s, k) = rows(&[(Some("ANA"), Some(2)), (Some("NNNN"), Some(2))]);
    assert_eq!(acc.update_batch(&s, &k), Ok(()));
    assert_eq!(acc.evaluate().unwrap().0.len(), 0);
}

#[test]
fn merging_empty_state_changes_nothing() {
    let mut acc = KmerCountAccumulator::new();
    let (s, k) = rows(&[(Some("ACGT"), Some(2))]);
    acc.update_batch(&s, &k).unwrap();
    assert_eq!(acc.merge_batch(&vec![], &vec![]), Ok(()));
    assert_eq!(sorted(acc.evaluate().unwrap()), pairs(&[("AC", 2), ("CG", 1)]));
}

#[test]
fn splitting_at_ambiguous_byte_changes_nothing() {
    let joined = seqs(&["GATTACANCCGTA"]);
    let apart = seqs(&["GATTACA", "CCGTA"]);
    assert_eq!(
        sorted(count_kmers(&joined, 3).unwrap().entries()),
        sorted(count_kmers(&apart, 3).unwrap().entries())
    );
}
