use vstd::prelude::*;
use vstd::multiset::Multiset;
use crate::error::KmerError;
use crate::canonical::reverse_complement_of;
use crate::scan::{
    count_sequence, lemma_scan_len, lemma_scan_reverse_complement, lemma_short_sequence_empty, scan,
};
use crate::tally::{views_of, Tally};

verus! {

broadcast use vstd::multiset::group_multiset_axioms, vstd::multiset::group_multiset_properties;

/// Number of sequences that one unit of work counts on its own.
pub const DEFAULT_CHUNK_SIZE: usize = 64;

/// The tally of a collection of sequences: the sum of their own tallies.
pub open spec fn tally_of(seqs: Seq<Seq<u8>>, k: nat) -> Multiset<Seq<u8>>
    decreases seqs.len(),
{
    if seqs.len() == 0 {
        Multiset::empty()
    } else {
        tally_of(seqs.drop_last(), k).add(scan(seqs.last(), k))
    }
}

/// Sum of the lengths of the sequences.
pub open spec fn total_len(seqs: Seq<Seq<u8>>) -> nat
    decreases seqs.len(),
{
    if seqs.len() == 0 {
        0
    } else {
        total_len(seqs.drop_last()) + seqs.last().len()
    }
}

/// The sum of the tallies of consecutive chunks of `c` sequences each (the
/// last one may be shorter).
pub open spec fn chunked_tally(seqs: Seq<Seq<u8>>, k: nat, c: nat) -> Multiset<Seq<u8>>
    decreases seqs.len(),
{
    if seqs.len() == 0 {
        Multiset::empty()
    } else {
        let m = if 0 < c < seqs.len() {
            c as int
        } else {
            seqs.len() as int
        };
        tally_of(seqs.subrange(0, m), k).add(chunked_tally(seqs.subrange(m, seqs.len() as int), k, c))
    }
}

/// Counting two collections one after the other is counting them together.
pub proof fn lemma_tally_of_append(a: Seq<Seq<u8>>, b: Seq<Seq<u8>>, k: nat)
    ensures
        tally_of(a + b, k) =~= tally_of(a, k).add(tally_of(b, k)),
        total_len(a + b) == total_len(a) + total_len(b),
    decreases b.len(),
{
    if b.len() == 0 {
        assert(a + b =~= a);
    } else {
        lemma_tally_of_append(a, b.drop_last(), k);
        assert((a + b).drop_last() =~= a + b.drop_last());
    }
}

/// Counting the reverse complements of the sequences gives the same tally as
/// counting the sequences.
pub proof fn lemma_reverse_complement_collection(seqs: Seq<Seq<u8>>, k: nat)
    ensures
        tally_of(seqs.map_values(|s: Seq<u8>| reverse_complement_of(s)), k) == tally_of(seqs, k),
    decreases seqs.len(),
{
    let rcs = seqs.map_values(|s: Seq<u8>| reverse_complement_of(s));
    if seqs.len() > 0 {
        lemma_reverse_complement_collection(seqs.drop_last(), k);
        assert(rcs.drop_last() =~= seqs.drop_last().map_values(
            |s: Seq<u8>| reverse_complement_of(s),
        ));
        lemma_scan_reverse_complement(seqs.last(), k);
    }
}

/// Sequences shorter than `k` added to a collection change nothing.
pub proof fn lemma_short_sequences_add_nothing(seqs: Seq<Seq<u8>>, short: Seq<Seq<u8>>, k: nat)
    requires
        forall|i: int| 0 <= i < short.len() ==> (#[trigger] short[i]).len() < k,
    ensures
        tally_of(seqs + short, k) == tally_of(seqs, k),
    decreases short.len(),
{
    if short.len() > 0 {
        let rest = short.drop_last();
        lemma_short_sequences_add_nothing(seqs, rest, k);
        assert((seqs + short).drop_last() =~= seqs + rest);
        lemma_short_sequence_empty(short.last(), k);
        assert(tally_of(seqs + short, k) =~= tally_of(seqs, k));
    } else {
        assert(seqs + short =~= seqs);
    }
}

proof fn lemma_chunked_tally(seqs: Seq<Seq<u8>>, k: nat, c: nat)
    ensures
        chunked_tally(seqs, k, c) =~= tally_of(seqs, k),
    decreases seqs.len(),
{
    if seqs.len() > 0 {
        let m = if 0 < c < seqs.len() {
            c as int
        } else {
            seqs.len() as int
        };
        let front = seqs.subrange(0, m);
        let back = seqs.subrange(m, seqs.len() as int);
        lemma_chunked_tally(back, k, c);
        lemma_tally_of_append(front, back, k);
        assert(front + back =~= seqs);
    }
}

/// Partition invariance: the tally does not depend on the chunk size.
pub proof fn lemma_partition_invariance(seqs: Seq<Seq<u8>>, k: nat, c1: nat, c2: nat)
    requires
        c1 > 0,
        c2 > 0,
    ensures
        chunked_tally(seqs, k, c1) == chunked_tally(seqs, k, c2),
        chunked_tally(seqs, k, c1) == tally_of(seqs, k),
{
    lemma_chunked_tally(seqs, k, c1);
    lemma_chunked_tally(seqs, k, c2);
}

proof fn lemma_prefix_len(seqs: Seq<Seq<u8>>, i: int, j: int)
    requires
        0 <= i <= j <= seqs.len(),
    ensures
        total_len(seqs.subrange(0, i)) + total_len(seqs.subrange(i, j)) == total_len(
            seqs.subrange(0, j),
        ),
        total_len(seqs.subrange(0, j)) <= total_len(seqs),
{
    lemma_tally_of_append(seqs.subrange(0, i), seqs.subrange(i, j), 0);
    assert(seqs.subrange(0, i) + seqs.subrange(i, j) =~= seqs.subrange(0, j));
    lemma_tally_of_append(seqs.subrange(0, j), seqs.subrange(j, seqs.len() as int), 0);
    assert(seqs.subrange(0, j) + seqs.subrange(j, seqs.len() as int) =~= seqs);
}

/// Counts the canonical k-mers of a collection, chunk by chunk: each chunk is
/// counted into a tally of its own, which is then merged into the result.
pub fn count_kmers_chunked(sequences: &Vec<Vec<u8>>, k: usize, chunk_size: usize) -> (r: Tally)
    requires
        k > 0,
        chunk_size > 0,
        total_len(views_of(sequences@)) <= u64::MAX,
    ensures
        r.wf(),
        r@ == tally_of(views_of(sequences@), k as nat),
        r@ == chunked_tally(views_of(sequences@), k as nat, chunk_size as nat),
{
    let ghost all = views_of(sequences@);
    let n = sequences.len();
    let mut result = Tally::new();
    let mut start: usize = 0;
    while start < n
        invariant
            k > 0,
            chunk_size > 0,
            n == sequences@.len(),
            all == views_of(sequences@),
            total_len(all) <= u64::MAX,
            start <= n,
            result.wf(),
            result@ =~= tally_of(all.subrange(0, start as int), k as nat),
            result@.len() <= total_len(all.subrange(0, start as int)),
        decreases n - start,
    {
        let end: usize = if chunk_size >= n - start {
            n
        } else {
            start + chunk_size
        };
        let mut local = Tally::new();
        let mut j: usize = start;
        while j < end
            invariant
                k > 0,
                n == sequences@.len(),
                all == views_of(sequences@),
                total_len(all) <= u64::MAX,
                start <= j <= end <= n,
                local.wf(),
                local@ =~= tally_of(all.subrange(start as int, j as int), k as nat),
                local@.len() <= total_len(all.subrange(start as int, j as int)),
            decreases end - j,
        {
            proof {
                lemma_prefix_len(all, start as int, j as int + 1);
                lemma_prefix_len(all, j as int + 1, n as int);
                assert(all.subrange(start as int, j + 1).drop_last() =~= all.subrange(start as int, j as int));
                assert(all[j as int] == sequences@[j as int]@);
                lemma_scan_len(all[j as int], k as nat);
            }
            count_sequence(sequences[j].as_slice(), k, &mut local);
            j = j + 1;
        }
        proof {
            lemma_prefix_len(all, start as int, end as int);
            lemma_tally_of_append(all.subrange(0, start as int), all.subrange(start as int, end as int), k as nat);
            assert(all.subrange(0, start as int) + all.subrange(start as int, end as int) =~= all.subrange(0, end as int));
        }
        result.merge(&local);
        start = end;
    }
    proof {
        assert(all.subrange(0, n as int) =~= all);
        lemma_chunked_tally(all, k as nat, chunk_size as nat);
    }
    result
}

/// The summed length of the sequences, when it fits in a `u64`.
pub fn total_length(sequences: &Vec<Vec<u8>>) -> (r: Option<u64>)
    ensures
        r matches Some(t) ==> t == total_len(views_of(sequences@)),
        r is None <==> total_len(views_of(sequences@)) > u64::MAX,
{
    let ghost all = views_of(sequences@);
    let mut sum: u64 = 0;
    let mut i: usize = 0;
    while i < sequences.len()
        invariant
            all == views_of(sequences@),
            i <= sequences@.len(),
            sum == total_len(all.subrange(0, i as int)),
        decreases sequences@.len() - i,
    {
        proof {
            lemma_prefix_len(all, i as int, i as int + 1);
            lemma_prefix_len(all, i as int + 1, all.len() as int);
            let one = all.subrange(i as int, i + 1);
            assert(one.drop_last() =~= Seq::<Seq<u8>>::empty());
            assert(total_len(one.drop_last()) == 0);
            assert(one.last() == all[i as int]);
            assert(all[i as int] == sequences@[i as int]@);
        }
        let len = sequences[i].len() as u64;
        if len > u64::MAX - sum {
            return None;
        }
        sum = sum + len;
        i = i + 1;
    }
    assert(all.subrange(0, i as int) =~= all);
    Some(sum)
}

/// Counts the canonical k-mers of a collection of sequences. Fails with
/// `InvalidK` exactly when `k` is zero, else with `CountOverflow` exactly when
/// the sequences are together longer than a `u64` can count.
pub fn count_kmers(sequences: &Vec<Vec<u8>>, k: usize) -> (r: Result<Tally, KmerError>)
    ensures
        k == 0 <==> r == Err::<Tally, KmerError>(KmerError::InvalidK),
        k > 0 ==> (total_len(views_of(sequences@)) > u64::MAX <==> r == Err::<Tally, KmerError>(
            KmerError::CountOverflow,
        )),
        k > 0 && total_len(views_of(sequences@)) <= u64::MAX ==> r is Ok,
        r matches Ok(t) ==> t.wf() && t@ == tally_of(views_of(sequences@), k as nat),
{
    if k == 0 {
        return Err(KmerError::InvalidK);
    }
    match total_length(sequences) {
        None => Err(KmerError::CountOverflow),
        Some(_) => Ok(count_kmers_chunked(sequences, k, DEFAULT_CHUNK_SIZE)),
    }
}

} // verus!
