use vstd::prelude::*;
use vstd::multiset::Multiset;
use crate::canonical::{canonical_kmer, canonical_of};
use crate::error::KmerError;
use crate::scan::{count_sequence, lemma_scan_len, lemma_scan_no_valid_window, scan, window_at};
use crate::canonical::valid_window;
use crate::tally::{
    entries_wf, from_entries, lemma_from_entries_len, lemma_from_entries_push,
    lemma_sum_counts_prefix, lemma_sum_counts_prefix_push, sum_counts, views_of, Tally,
};

verus! {

broadcast use vstd::multiset::group_multiset_axioms, vstd::multiset::group_multiset_properties;

/// Estimated bytes held per distinct key.
pub const ENTRY_BYTES: usize = 32;

/// Estimated bytes held by an accumulator without any key.
pub const BASE_BYTES: usize = 64;

/// A sequence column, as views.
pub open spec fn opt_views(v: Seq<Option<Vec<u8>>>) -> Seq<Option<Seq<u8>>> {
    v.map_values(|o: Option<Vec<u8>>|
        match o {
            Some(x) => Some(x@),
            None => None,
        })
}

/// The `k` of each row that takes part: rows with a missing sequence or a
/// missing `k` are skipped.
pub open spec fn row_ks(seqs: Seq<Option<Seq<u8>>>, ks: Seq<Option<i64>>) -> Seq<Option<i64>> {
    Seq::new(
        ks.len(),
        |i: int|
            if i < seqs.len() && seqs[i] is Some {
                ks[i]
            } else {
                None
            },
    )
}

/// A `k` that can size a window.
pub open spec fn k_in_range(v: i64) -> bool {
    0 < v && v <= usize::MAX
}

/// The `k` fixed after the rows are seen, or the first error among them.
pub open spec fn settle_k(fixed: Option<usize>, ks: Seq<Option<i64>>) -> Result<
    Option<usize>,
    KmerError,
>
    decreases ks.len(),
{
    if ks.len() == 0 {
        Ok(fixed)
    } else {
        match ks[0] {
            None => settle_k(fixed, ks.drop_first()),
            Some(v) => if !k_in_range(v) {
                Err(KmerError::InvalidK)
            } else if fixed is Some && fixed.unwrap() as int != v as int {
                Err(KmerError::InconsistentK)
            } else {
                settle_k(Some(v as usize), ks.drop_first())
            },
        }
    }
}

/// Sum of the lengths of the rows that take part.
pub open spec fn batch_len(seqs: Seq<Option<Seq<u8>>>, ks: Seq<Option<i64>>) -> nat
    decreases seqs.len(),
{
    if seqs.len() == 0 {
        0
    } else {
        let i = seqs.len() - 1;
        batch_len(seqs.drop_last(), ks) + if seqs[i] is Some && i < ks.len() && ks[i] is Some {
            seqs[i].unwrap().len()
        } else {
            0
        }
    }
}

/// The tally of the rows that take part, all counted with `k`.
pub open spec fn batch_tally(seqs: Seq<Option<Seq<u8>>>, ks: Seq<Option<i64>>, k: nat) -> Multiset<
    Seq<u8>,
>
    decreases seqs.len(),
{
    if seqs.len() == 0 {
        Multiset::empty()
    } else {
        let i = seqs.len() - 1;
        batch_tally(seqs.drop_last(), ks, k).add(
            if seqs[i] is Some && i < ks.len() && ks[i] is Some {
                scan(seqs[i].unwrap(), k)
            } else {
                Multiset::empty()
            },
        )
    }
}

proof fn lemma_settle_k_step(fixed: Option<usize>, ks: Seq<Option<i64>>, i: int)
    requires
        0 <= i < ks.len(),
    ensures
        settle_k(fixed, ks.subrange(i, ks.len() as int)) == match ks[i] {
            None => settle_k(fixed, ks.subrange(i + 1, ks.len() as int)),
            Some(v) => if !k_in_range(v) {
                Err(KmerError::InvalidK)
            } else if fixed is Some && fixed.unwrap() as int != v as int {
                Err(KmerError::InconsistentK)
            } else {
                settle_k(Some(v as usize), ks.subrange(i + 1, ks.len() as int))
            },
        },
{
    assert(ks.subrange(i, ks.len() as int).drop_first() =~= ks.subrange(i + 1, ks.len() as int));
}

proof fn lemma_settle_k_keeps(fixed: Option<usize>, ks: Seq<Option<i64>>)
    requires
        settle_k(fixed, ks) is Ok,
        fixed matches Some(f) ==> f > 0,
    ensures
        fixed is Some ==> settle_k(fixed, ks) == Ok::<Option<usize>, KmerError>(fixed),
        settle_k(fixed, ks).unwrap() matches Some(k) ==> k > 0,
        settle_k(fixed, ks).unwrap() is None ==> fixed is None && forall|i: int|
            0 <= i < ks.len() ==> (#[trigger] ks[i]) is None,
        forall|i: int|
            0 <= i < ks.len() && ks[i] is Some ==> (#[trigger] ks[i]).unwrap() as int == settle_k(
                fixed,
                ks,
            ).unwrap().unwrap() as int,
    decreases ks.len(),
{
    if ks.len() > 0 {
        let rest = ks.drop_first();
        match ks[0] {
            None => {
                lemma_settle_k_keeps(fixed, rest);
                assert forall|i: int| 0 < i < ks.len() implies ks[i] == rest[i - 1] by {}
                assert forall|i: int| 0 <= i < ks.len() && ks[i] is Some implies (#[trigger] ks[i]).unwrap() as int == settle_k(fixed, ks).unwrap().unwrap() as int by {
                    assert(ks[i] == rest[i - 1]);
                }
            },
            Some(v) => {
                lemma_settle_k_keeps(Some(v as usize), rest);
                assert forall|i: int| 0 < i < ks.len() implies ks[i] == rest[i - 1] by {}
                assert forall|i: int| 0 <= i < ks.len() && ks[i] is Some implies (#[trigger] ks[i]).unwrap() as int == settle_k(fixed, ks).unwrap().unwrap() as int by {
                    if i > 0 {
                        assert(ks[i] == rest[i - 1]);
                    }
                }
            },
        }
    }
}

proof fn lemma_batch_len_prefix(seqs: Seq<Option<Seq<u8>>>, ks: Seq<Option<i64>>, i: int)
    requires
        0 <= i <= seqs.len(),
    ensures
        batch_len(seqs.subrange(0, i), ks) <= batch_len(seqs, ks),
    decreases seqs.len() - i,
{
    if i < seqs.len() {
        lemma_batch_len_prefix(seqs, ks, i + 1);
        assert(seqs.subrange(0, i + 1).drop_last() =~= seqs.subrange(0, i));
    } else {
        assert(seqs.subrange(0, i) =~= seqs);
    }
}

/// Filtering over a batch: when no window of any row that takes part is made
/// only of bases, the batch adds no count.
pub proof fn lemma_batch_without_valid_windows(
    seqs: Seq<Option<Seq<u8>>>,
    ks: Seq<Option<i64>>,
    k: nat,
)
    requires
        forall|r: int, i: int|
            0 <= r < seqs.len() && r < ks.len() && seqs[r] is Some && ks[r] is Some && 0 <= i
                <= seqs[r].unwrap().len() - k ==> !valid_window(
                #[trigger] window_at(seqs[r].unwrap(), k, i),
            ),
    ensures
        batch_tally(seqs, ks, k) =~= Multiset::empty(),
    decreases seqs.len(),
{
    if seqs.len() > 0 {
        let last = seqs.len() - 1;
        let prev = seqs.drop_last();
        assert forall|r: int, i: int|
            0 <= r < prev.len() && r < ks.len() && prev[r] is Some && ks[r] is Some && 0 <= i
                <= prev[r].unwrap().len() - k implies !valid_window(
            #[trigger] window_at(prev[r].unwrap(), k, i),
        ) by {
            assert(prev[r] == seqs[r]);
        }
        lemma_batch_without_valid_windows(prev, ks, k);
        if seqs[last] is Some && last < ks.len() && ks[last] is Some {
            let sq = seqs[last].unwrap();
            assert forall|i: int| 0 <= i <= sq.len() - k implies !valid_window(
                #[trigger] window_at(sq, k, i),
            ) by {
                assert(!valid_window(window_at(seqs[last].unwrap(), k, i)));
            }
            lemma_scan_no_valid_window(sq, k);
        }
    }
}

/// What `update_batch` returns, from the state before the call and the batch.
pub open spec fn update_outcome(
    finalized: bool,
    fixed: Option<usize>,
    counts: Multiset<Seq<u8>>,
    seqs: Seq<Option<Seq<u8>>>,
    ks: Seq<Option<i64>>,
) -> Result<(), KmerError> {
    if finalized {
        Err(KmerError::Finalized)
    } else if seqs.len() != ks.len() {
        Err(KmerError::SchemaMismatch)
    } else {
        match settle_k(fixed, row_ks(seqs, ks)) {
            Err(e) => Err(e),
            Ok(None) => Ok(()),
            Ok(Some(k)) => if batch_len(seqs, ks) > u64::MAX || counts.len() + batch_tally(
                seqs,
                ks,
                k as nat,
            ).len() > u64::MAX {
                Err(KmerError::CountOverflow)
            } else {
                Ok(())
            },
        }
    }
}

/// What `merge_batch` returns, from the state before the call and the
/// incoming partial state.
pub open spec fn merge_outcome(
    finalized: bool,
    counts: Multiset<Seq<u8>>,
    keys: Seq<Seq<u8>>,
    incoming: Seq<u64>,
) -> Result<(), KmerError> {
    if finalized {
        Err(KmerError::Finalized)
    } else if keys.len() != incoming.len() {
        Err(KmerError::SchemaMismatch)
    } else if counts.len() + sum_counts(incoming) > u64::MAX {
        Err(KmerError::CountOverflow)
    } else {
        Ok(())
    }
}

/// The memory estimate for a tally with `n` distinct keys.
pub open spec fn size_estimate(n: nat) -> nat {
    if n * ENTRY_BYTES + BASE_BYTES > usize::MAX {
        usize::MAX as nat
    } else {
        (n * ENTRY_BYTES + BASE_BYTES) as nat
    }
}

/// The incremental state of one k-mer count: one `k` and one tally, from the
/// first batch until it is finalized.
pub struct KmerCountAccumulator {
    k: Option<usize>,
    tally: Tally,
    finalized: bool,
}

impl KmerCountAccumulator {
    /// The tally is well formed and a fixed `k` is positive.
    pub closed spec fn wf(&self) -> bool {
        &&& self.tally.wf()
        &&& self.k matches Some(k) ==> k > 0
    }

    /// The counts gathered so far.
    pub closed spec fn counts(&self) -> Multiset<Seq<u8>> {
        self.tally@
    }

    /// The `k` this accumulator counts with, once fixed.
    pub closed spec fn kmer_size(&self) -> Option<usize> {
        self.k
    }

    /// Whether `evaluate` has been called.
    pub closed spec fn is_finalized(&self) -> bool {
        self.finalized
    }

    /// The counts held never exceed what a `u64` total can hold.
    pub proof fn lemma_counts_bounded(&self)
        requires
            self.wf(),
        ensures
            self.counts().len() <= u64::MAX,
    {
        self.tally.lemma_total_bounded();
    }

    /// Round trip: the partial state of one accumulator, merged into a fresh
    /// one, is accepted and reproduces its counts.
    pub proof fn lemma_state_round_trip(
        a: &KmerCountAccumulator,
        b: &KmerCountAccumulator,
        keys: Seq<Seq<u8>>,
        counts: Seq<u64>,
    )
        requires
            a.wf(),
            b.wf(),
            !b.is_finalized(),
            b.counts() =~= Multiset::empty(),
            entries_wf(keys, counts),
            from_entries(keys, counts) == a.counts(),
        ensures
            merge_outcome(b.is_finalized(), b.counts(), keys, counts) is Ok,
            b.counts().add(from_entries(keys, counts)) == a.counts(),
    {
        a.lemma_counts_bounded();
        lemma_from_entries_len(keys, counts);
        assert(b.counts().add(from_entries(keys, counts)) =~= a.counts());
    }

    /// Merging an empty partial state into an accumulator that is not
    /// finalized succeeds and changes nothing.
    pub proof fn lemma_merge_empty_state(&self)
        requires
            self.wf(),
            !self.is_finalized(),
        ensures
            merge_outcome(
                self.is_finalized(),
                self.counts(),
                Seq::<Seq<u8>>::empty(),
                Seq::<u64>::empty(),
            ) is Ok,
            self.counts().add(from_entries(Seq::<Seq<u8>>::empty(), Seq::<u64>::empty()))
                == self.counts(),
    {
        self.lemma_counts_bounded();
        assert(self.counts().add(from_entries(Seq::<Seq<u8>>::empty(), Seq::<u64>::empty()))
            =~= self.counts());
    }

    /// An empty accumulator whose `k` the first row fixes.
    pub fn new() -> (r: Self)
        ensures
            r.wf(),
            r.counts() =~= Multiset::empty(),
            r.kmer_size() is None,
            !r.is_finalized(),
    {
        KmerCountAccumulator { k: None, tally: Tally::new(), finalized: false }
    }

    /// An empty accumulator with `k` fixed in advance; fails with `InvalidK`
    /// exactly when `k` cannot size a window.
    pub fn with_k(k: i64) -> (r: Result<Self, KmerError>)
        ensures
            !k_in_range(k) <==> r == Err::<Self, KmerError>(KmerError::InvalidK),
            k_in_range(k) ==> r is Ok,
            r matches Ok(a) ==> a.wf() && a.counts() =~= Multiset::empty() && a.kmer_size()
                == Some(k as usize) && !a.is_finalized(),
    {
        if k <= 0 || k as u64 > usize::MAX as u64 {
            return Err(KmerError::InvalidK);
        }
        Ok(KmerCountAccumulator { k: Some(k as usize), tally: Tally::new(), finalized: false })
    }

    /// Counts a batch of rows (a sequence and its `k` each; a row missing
    /// either is skipped). The first row that takes part fixes `k`; a `k`
    /// that cannot size a window fails with `InvalidK`, one that differs from
    /// the fixed `k` with `InconsistentK`. On any error nothing changes.
    #[verifier::loop_isolation(false)]
    pub fn update_batch(&mut self, sequences: &Vec<Option<Vec<u8>>>, ks: &Vec<Option<i64>>) -> (r:
        Result<(), KmerError>)
        requires
            old(self).wf(),
        ensures
            final(self).wf(),
            final(self).is_finalized() == old(self).is_finalized(),
            r == update_outcome(
                old(self).is_finalized(),
                old(self).kmer_size(),
                old(self).counts(),
                opt_views(sequences@),
                ks@,
            ),
            r is Err ==> final(self).counts() == old(self).counts() && final(self).kmer_size()
                == old(self).kmer_size(),
            r is Ok ==> Ok::<Option<usize>, KmerError>(final(self).kmer_size()) == settle_k(
                old(self).kmer_size(),
                row_ks(opt_views(sequences@), ks@),
            ),
            r is Ok ==> final(self).counts() == match final(self).kmer_size() {
                Some(k) => old(self).counts().add(
                    batch_tally(opt_views(sequences@), ks@, k as nat),
                ),
                None => old(self).counts(),
            },
    {
        if self.finalized {
            return Err(KmerError::Finalized);
        }
        if sequences.len() != ks.len() {
            return Err(KmerError::SchemaMismatch);
        }
        let ghost views = opt_views(sequences@);
        let ghost rk = row_ks(views, ks@);
        let n = sequences.len();
        let mut cur: Option<usize> = self.k;
        let mut i: usize = 0;
        assert(rk.subrange(0, n as int) =~= rk);
        while i < n
            invariant
                n == sequences@.len(),
                n == ks@.len(),
                views == opt_views(sequences@),
                rk == row_ks(views, ks@),
                i <= n,
                settle_k(self.k, rk) == settle_k(cur, rk.subrange(i as int, n as int)),
                cur matches Some(c) ==> c > 0,
            decreases n - i,
        {
            proof {
                lemma_settle_k_step(cur, rk, i as int);
            }
            let row_k: Option<i64> = match &sequences[i] {
                Some(_) => ks[i],
                None => None,
            };
            assert(row_k == rk[i as int]);
            match row_k {
                None => {},
                Some(v) => {
                    if v <= 0 || v as u64 > usize::MAX as u64 {
                        return Err(KmerError::InvalidK);
                    }
                    match cur {
                        Some(c) => {
                            if c as u64 != v as u64 {
                                return Err(KmerError::InconsistentK);
                            }
                        },
                        None => {},
                    }
                    cur = Some(v as usize);
                },
            }
            i = i + 1;
        }
        assert(rk.subrange(n as int, n as int).len() == 0);
        proof {
            lemma_settle_k_keeps(self.k, rk);
        }
        let k = match cur {
            None => {
                return Ok(());
            },
            Some(k) => k,
        };
        let mut len_sum: u64 = 0;
        let mut m: usize = 0;
        while m < n
            invariant
                n == sequences@.len(),
                n == ks@.len(),
                views == opt_views(sequences@),
                m <= n,
                len_sum == batch_len(views.subrange(0, m as int), ks@),
            decreases n - m,
        {
            proof {
                lemma_batch_len_prefix(views, ks@, m as int + 1);
                assert(views.subrange(0, m + 1).drop_last() =~= views.subrange(0, m as int));
            }
            match &sequences[m] {
                Some(s) => {
                    match ks[m] {
                        Some(_) => {
                            let len = s.len() as u64;
                            if len > u64::MAX - len_sum {
                                return Err(KmerError::CountOverflow);
                            }
                            len_sum = len_sum + len;
                        },
                        None => {},
                    }
                },
                None => {},
            }
            m = m + 1;
        }
        assert(views.subrange(0, n as int) =~= views);
        let mut delta = Tally::new();
        let mut j: usize = 0;
        while j < n
            invariant
                k > 0,
                n == sequences@.len(),
                n == ks@.len(),
                views == opt_views(sequences@),
                j <= n,
                delta.wf(),
                delta@ =~= batch_tally(views.subrange(0, j as int), ks@, k as nat),
                delta@.len() <= batch_len(views.subrange(0, j as int), ks@),
                batch_len(views, ks@) <= u64::MAX,
            decreases n - j,
        {
            proof {
                lemma_batch_len_prefix(views, ks@, j as int + 1);
                assert(views.subrange(0, j + 1).drop_last() =~= views.subrange(0, j as int));
            }
            match &sequences[j] {
                Some(s) => {
                    match ks[j] {
                        Some(_) => {
                            proof {
                                lemma_scan_len(s@, k as nat);
                            }
                            count_sequence(s.as_slice(), k, &mut delta);
                        },
                        None => {},
                    }
                },
                None => {},
            }
            j = j + 1;
        }
        assert(views.subrange(0, n as int) =~= views);
        if delta.total() > u64::MAX - self.tally.total() {
            return Err(KmerError::CountOverflow);
        }
        self.tally.merge(&delta);
        self.k = Some(k);
        Ok(())
    }

    /// Adds a partial state (parallel keys and counts, as `state` gives them)
    /// into this accumulator. On any error nothing changes.
    #[verifier::loop_isolation(false)]
    pub fn merge_batch(&mut self, kmers: &Vec<Vec<u8>>, counts: &Vec<u64>) -> (r: Result<
        (),
        KmerError,
    >)
        requires
            old(self).wf(),
        ensures
            final(self).wf(),
            final(self).is_finalized() == old(self).is_finalized(),
            final(self).kmer_size() == old(self).kmer_size(),
            r == merge_outcome(
                old(self).is_finalized(),
                old(self).counts(),
                views_of(kmers@),
                counts@,
            ),
            r is Err ==> final(self).counts() == old(self).counts(),
            r is Ok ==> final(self).counts() == old(self).counts().add(
                from_entries(views_of(kmers@), counts@),
            ),
    {
        if self.finalized {
            return Err(KmerError::Finalized);
        }
        if kmers.len() != counts.len() {
            return Err(KmerError::SchemaMismatch);
        }
        let n = counts.len();
        let room: u64 = u64::MAX - self.tally.total();
        let mut sum: u64 = 0;
        let mut i: usize = 0;
        while i < n
            invariant
                n == counts@.len(),
                i <= n,
                sum == sum_counts(counts@.subrange(0, i as int)),
                sum <= room,
            decreases n - i,
        {
            proof {
                lemma_sum_counts_prefix_push(counts@, i as int);
            }
            if counts[i] > room - sum {
                proof {
                    lemma_sum_counts_prefix(counts@, i as int + 1);
                }
                return Err(KmerError::CountOverflow);
            }
            sum = sum + counts[i];
            i = i + 1;
        }
        assert(counts@.subrange(0, n as int) =~= counts@);
        let ghost start = self.tally@;
        let ghost ks = views_of(kmers@);
        let mut j: usize = 0;
        while j < n
            invariant
                n == counts@.len(),
                n == kmers@.len(),
                ks == views_of(kmers@),
                j <= n,
                self.k == old(self).k,
                self.finalized == old(self).finalized,
                self.tally.wf(),
                self.tally@ =~= start.add(
                    from_entries(ks.subrange(0, j as int), counts@.subrange(0, j as int)),
                ),
                start.len() + sum_counts(counts@) <= u64::MAX,
            decreases n - j,
        {
            proof {
                lemma_sum_counts_prefix(counts@, j as int + 1);
                lemma_sum_counts_prefix_push(counts@, j as int);
                lemma_from_entries_len(ks.subrange(0, j as int), counts@.subrange(0, j as int));
            }
            self.tally.add_count(kmers[j].as_slice(), counts[j]);
            proof {
                assert(ks.subrange(0, j + 1) =~= ks.subrange(0, j as int).push(ks[j as int]));
                assert(counts@.subrange(0, j + 1) =~= counts@.subrange(0, j as int).push(
                    counts@[j as int],
                ));
                lemma_from_entries_push(
                    ks.subrange(0, j as int),
                    counts@.subrange(0, j as int),
                    ks[j as int],
                    counts@[j as int],
                );
            }
            j = j + 1;
        }
        assert(ks.subrange(0, n as int) =~= ks);
        Ok(())
    }

    /// The partial state: parallel keys and counts that hold every counted
    /// k-mer once, with its count.
    pub fn state(&self) -> (r: Result<(Vec<Vec<u8>>, Vec<u64>), KmerError>)
        requires
            self.wf(),
        ensures
            self.is_finalized() <==> r == Err::<(Vec<Vec<u8>>, Vec<u64>), KmerError>(
                KmerError::Finalized,
            ),
            !self.is_finalized() ==> r is Ok,
            r matches Ok(e) ==> entries_wf(views_of(e.0@), e.1@) && from_entries(
                views_of(e.0@),
                e.1@,
            ) == self.counts(),
    {
        if self.finalized {
            return Err(KmerError::Finalized);
        }
        Ok(self.tally.entries())
    }

    /// Finalizes the accumulator and returns its table: each counted k-mer
    /// once, with its count. A second call fails with `Finalized`.
    pub fn evaluate(&mut self) -> (r: Result<(Vec<Vec<u8>>, Vec<u64>), KmerError>)
        requires
            old(self).wf(),
        ensures
            final(self).wf(),
            final(self).is_finalized(),
            final(self).counts() == old(self).counts(),
            final(self).kmer_size() == old(self).kmer_size(),
            old(self).is_finalized() <==> r == Err::<(Vec<Vec<u8>>, Vec<u64>), KmerError>(
                KmerError::Finalized,
            ),
            !old(self).is_finalized() ==> r is Ok,
            r matches Ok(e) ==> entries_wf(views_of(e.0@), e.1@) && from_entries(
                views_of(e.0@),
                e.1@,
            ) == old(self).counts(),
    {
        if self.finalized {
            return Err(KmerError::Finalized);
        }
        self.finalized = true;
        Ok(self.tally.entries())
    }

    /// Estimated bytes held: a fixed part and a part per distinct key.
    pub fn size(&self) -> (r: usize)
        requires
            self.wf(),
        ensures
            r == size_estimate(self.counts().dom().len()),
    {
        let n = self.tally.num_keys();
        let limit: usize = (usize::MAX - BASE_BYTES) / ENTRY_BYTES;
        if n > limit {
            assert(n as int * 32 + 64 > usize::MAX as int) by (nonlinear_arith)
                requires
                    n as int > limit as int,
                    limit as int == (usize::MAX as int - 64) / 32,
            ;
            usize::MAX
        } else {
            assert(n as int * 32 + 64 <= usize::MAX as int) by (nonlinear_arith)
                requires
                    n as int <= limit as int,
                    limit as int == (usize::MAX as int - 64) / 32,
            ;
            n * ENTRY_BYTES + BASE_BYTES
        }
    }

    /// Canonical form of a k-mer.
    pub fn canonical_kmer(kmer: &[u8]) -> (r: Vec<u8>)
        ensures
            r@ == canonical_of(kmer@),
    {
        canonical_kmer(kmer)
    }
}

} // verus!
