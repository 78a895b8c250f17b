use vstd::prelude::*;
use vstd::multiset::Multiset;
use crate::canonical::{
    canonical_kmer, canonical_of, complement, is_base, is_valid_window, lemma_strand_symmetry,
    reverse_complement_of, valid_window,
};
use crate::tally::Tally;

verus! {

broadcast use vstd::multiset::group_multiset_axioms, vstd::multiset::group_multiset_properties;

/// The window of length `k` that starts at offset `i`.
pub open spec fn window_at(s: Seq<u8>, k: nat, i: int) -> Seq<u8> {
    s.subrange(i, i + k)
}

/// Canonical forms of the valid windows that start before offset `n`.
pub open spec fn scan_upto(s: Seq<u8>, k: nat, n: nat) -> Multiset<Seq<u8>>
    decreases n,
{
    if n == 0 {
        Multiset::empty()
    } else {
        let prev = scan_upto(s, k, (n - 1) as nat);
        let w = window_at(s, k, n - 1);
        if valid_window(w) {
            prev.insert(canonical_of(w))
        } else {
            prev
        }
    }
}

/// The tally of one sequence: one count for the canonical form of each valid
/// window of length `k`; nothing when the sequence is shorter than `k`.
pub open spec fn scan(s: Seq<u8>, k: nat) -> Multiset<Seq<u8>> {
    if s.len() < k {
        Multiset::empty()
    } else {
        scan_upto(s, k, (s.len() - k + 1) as nat)
    }
}

proof fn lemma_scan_upto_len(s: Seq<u8>, k: nat, n: nat)
    ensures
        scan_upto(s, k, n).len() <= n,
    decreases n,
{
    if n > 0 {
        lemma_scan_upto_len(s, k, (n - 1) as nat);
    }
}

/// A sequence yields at most one count per byte.
pub proof fn lemma_scan_len(s: Seq<u8>, k: nat)
    requires
        k > 0,
    ensures
        scan(s, k).len() <= s.len(),
{
    if s.len() >= k {
        lemma_scan_upto_len(s, k, (s.len() - k + 1) as nat);
    }
}

proof fn lemma_scan_upto_only_valid(s: Seq<u8>, k: nat, n: nat, x: Seq<u8>)
    requires
        scan_upto(s, k, n).count(x) > 0,
    ensures
        exists|i: int|
            0 <= i < n && valid_window(#[trigger] window_at(s, k, i)) && canonical_of(
                window_at(s, k, i),
            ) == x,
    decreases n,
{
    let w = window_at(s, k, n - 1);
    if valid_window(w) && canonical_of(w) == x {
    } else {
        lemma_scan_upto_only_valid(s, k, (n - 1) as nat, x);
        let i = choose|i: int|
            0 <= i < n - 1 && valid_window(#[trigger] window_at(s, k, i)) && canonical_of(
                window_at(s, k, i),
            ) == x;
    }
}

/// Filtering: every count comes from a window made only of bases; a window
/// with any other byte contributes nothing.
pub proof fn lemma_scan_counts_only_valid_windows(s: Seq<u8>, k: nat, x: Seq<u8>)
    requires
        scan(s, k).count(x) > 0,
    ensures
        s.len() >= k,
        exists|i: int|
            0 <= i <= s.len() - k && valid_window(#[trigger] window_at(s, k, i)) && canonical_of(
                window_at(s, k, i),
            ) == x,
{
    lemma_scan_upto_only_valid(s, k, (s.len() - k + 1) as nat, x);
}

proof fn lemma_scan_upto_no_valid(s: Seq<u8>, k: nat, n: nat)
    requires
        forall|i: int| 0 <= i < n ==> !valid_window(#[trigger] window_at(s, k, i)),
    ensures
        scan_upto(s, k, n) =~= Multiset::empty(),
    decreases n,
{
    if n > 0 {
        lemma_scan_upto_no_valid(s, k, (n - 1) as nat);
        assert(!valid_window(window_at(s, k, n - 1)));
    }
}

/// A sequence none of whose windows is made only of bases yields an empty
/// tally.
pub proof fn lemma_scan_no_valid_window(s: Seq<u8>, k: nat)
    requires
        forall|i: int| 0 <= i <= s.len() - k ==> !valid_window(#[trigger] window_at(s, k, i)),
    ensures
        scan(s, k) =~= Multiset::empty(),
{
    if s.len() >= k {
        lemma_scan_upto_no_valid(s, k, (s.len() - k + 1) as nat);
    }
}

/// What the window at offset `i` contributes.
pub open spec fn window_tally(s: Seq<u8>, k: nat, i: int) -> Multiset<Seq<u8>> {
    if valid_window(window_at(s, k, i)) {
        Multiset::singleton(canonical_of(window_at(s, k, i)))
    } else {
        Multiset::empty()
    }
}

/// Sum of `g(0)`, ..., `g(n - 1)`.
pub open spec fn sum_upto(g: spec_fn(int) -> Multiset<Seq<u8>>, n: nat) -> Multiset<Seq<u8>>
    decreases n,
{
    if n == 0 {
        Multiset::empty()
    } else {
        sum_upto(g, (n - 1) as nat).add(g(n - 1))
    }
}

proof fn lemma_sum_congruent(
    g1: spec_fn(int) -> Multiset<Seq<u8>>,
    g2: spec_fn(int) -> Multiset<Seq<u8>>,
    n: nat,
)
    requires
        forall|i: int| 0 <= i < n ==> #[trigger] g1(i) == g2(i),
    ensures
        sum_upto(g1, n) == sum_upto(g2, n),
    decreases n,
{
    if n > 0 {
        lemma_sum_congruent(g1, g2, (n - 1) as nat);
    }
}

proof fn lemma_sum_peel_front(g: spec_fn(int) -> Multiset<Seq<u8>>, n: nat)
    requires
        n > 0,
    ensures
        sum_upto(g, n) =~= g(0).add(sum_upto(|i: int| g(i + 1), (n - 1) as nat)),
    decreases n,
{
    let g1 = |i: int| g(i + 1);
    if n > 1 {
        lemma_sum_peel_front(g, (n - 1) as nat);
        assert(sum_upto(g1, (n - 1) as nat) == sum_upto(g1, (n - 2) as nat).add(g1(n - 2)));
        assert(g1(n - 2) == g(n - 1));
        assert(sum_upto(g, n) == sum_upto(g, (n - 1) as nat).add(g(n - 1)));
    } else {
        assert(sum_upto(g, 0) == Multiset::<Seq<u8>>::empty());
        assert(sum_upto(g1, 0) == Multiset::<Seq<u8>>::empty());
    }
}

proof fn lemma_sum_reverse(g: spec_fn(int) -> Multiset<Seq<u8>>, n: nat)
    ensures
        sum_upto(g, n) =~= sum_upto(|i: int| g(n - 1 - i), n),
    decreases n,
{
    if n > 0 {
        let h = |i: int| g(n - 1 - i);
        lemma_sum_peel_front(h, n);
        lemma_sum_reverse(g, (n - 1) as nat);
        lemma_sum_congruent(|i: int| h(i + 1), |i: int| g(n - 1 - 1 - i), (n - 1) as nat);
    }
}

proof fn lemma_scan_upto_as_sum(s: Seq<u8>, k: nat, n: nat)
    ensures
        scan_upto(s, k, n) =~= sum_upto(|i: int| window_tally(s, k, i), n),
    decreases n,
{
    if n > 0 {
        lemma_scan_upto_as_sum(s, k, (n - 1) as nat);
    }
}

proof fn lemma_valid_reverse_complement(w: Seq<u8>)
    ensures
        valid_window(reverse_complement_of(w)) == valid_window(w),
{
    let r = reverse_complement_of(w);
    if valid_window(w) {
        assert forall|i: int| 0 <= i < r.len() implies #[trigger] is_base(r[i]) by {
            assert(is_base(w[w.len() - 1 - i]));
        }
    }
    if valid_window(r) {
        assert forall|i: int| 0 <= i < w.len() implies #[trigger] is_base(w[i]) by {
            assert(is_base(r[w.len() - 1 - i]));
        }
    }
}

/// A sequence and its reverse complement have the same tally: forward and
/// reverse-strand occurrences collapse to one key.
pub proof fn lemma_scan_reverse_complement(s: Seq<u8>, k: nat)
    ensures
        scan(reverse_complement_of(s), k) == scan(s, k),
{
    let r = reverse_complement_of(s);
    if s.len() >= k {
        let n = (s.len() - k + 1) as nat;
        let gs = |i: int| window_tally(s, k, i);
        let gr = |i: int| window_tally(r, k, i);
        let gb = |j: int| gs(n - 1 - j);
        assert forall|i: int| 0 <= i < n implies #[trigger] gr(i) == gb(i) by {
            let w = window_at(s, k, s.len() - k - i);
            assert(window_at(r, k, i) =~= reverse_complement_of(w));
            lemma_valid_reverse_complement(w);
            if valid_window(w) {
                lemma_strand_symmetry(w);
            }
        }
        lemma_scan_upto_as_sum(s, k, n);
        lemma_scan_upto_as_sum(r, k, n);
        lemma_sum_congruent(gr, gb, n);
        lemma_sum_reverse(gs, n);
    }
}

proof fn lemma_sum_split(g: spec_fn(int) -> Multiset<Seq<u8>>, a: nat, b: nat)
    ensures
        sum_upto(g, a + b) =~= sum_upto(g, a).add(sum_upto(|i: int| g(a + i), b)),
    decreases b,
{
    let h = |i: int| g(a + i);
    if b > 0 {
        lemma_sum_split(g, a, (b - 1) as nat);
        assert(sum_upto(h, b) == sum_upto(h, (b - 1) as nat).add(h(b - 1)));
        assert(h(b - 1) == g(a + b - 1));
        assert(sum_upto(g, a + b) == sum_upto(g, (a + b - 1) as nat).add(g(a + b - 1)));
    } else {
        assert(sum_upto(h, 0) == Multiset::<Seq<u8>>::empty());
    }
}

proof fn lemma_sum_empty(g: spec_fn(int) -> Multiset<Seq<u8>>, n: nat)
    requires
        forall|i: int| 0 <= i < n ==> #[trigger] g(i) == Multiset::<Seq<u8>>::empty(),
    ensures
        sum_upto(g, n) =~= Multiset::empty(),
    decreases n,
{
    if n > 0 {
        lemma_sum_empty(g, (n - 1) as nat);
    }
}

/// Filtering: a byte that is not a base splits a sequence; the whole counts
/// as its two parts counted apart.
pub proof fn lemma_split_at_non_base(s1: Seq<u8>, c: u8, s2: Seq<u8>, k: nat)
    requires
        k > 0,
        !is_base(c),
    ensures
        scan(s1 + seq![c] + s2, k) == scan(s1, k).add(scan(s2, k)),
{
    let t = s1 + seq![c] + s2;
    let l1 = s1.len();
    let l2 = s2.len();
    if t.len() < k {
        assert(scan(t, k) =~= scan(s1, k).add(scan(s2, k)));
    } else {
        let nt = (t.len() - k + 1) as nat;
        let a: nat = if l1 >= k { (l1 - k + 1) as nat } else { 0 };
        let top: nat = if l1 + 1 < nt { (l1 + 1) as nat } else { nt };
        let m = (top - a) as nat;
        let b = (nt - top) as nat;
        let gt = |i: int| window_tally(t, k, i);
        let g1 = |i: int| window_tally(s1, k, i);
        let g2 = |i: int| window_tally(s2, k, i);
        let gm = |i: int| gt(a + i);
        let gb = |i: int| gm(m + i);
        lemma_scan_upto_as_sum(t, k, nt);
        lemma_sum_split(gt, a, (m + b) as nat);
        lemma_sum_split(gm, m, b);
        // the windows of the first part
        assert forall|i: int| 0 <= i < a implies #[trigger] gt(i) == g1(i) by {
            assert(window_at(t, k, i) =~= window_at(s1, k, i));
        }
        lemma_sum_congruent(gt, g1, a);
        if l1 >= k {
            lemma_scan_upto_as_sum(s1, k, a);
        }
        // the windows that hold `c`
        assert forall|i: int| 0 <= i < m implies #[trigger] gm(i) == Multiset::<Seq<u8>>::empty() by {
            let w = window_at(t, k, a + i);
            assert(w[l1 - a - i] == c);
            assert(!is_base(w[l1 - a - i]));
        }
        lemma_sum_empty(gm, m);
        // the windows of the second part
        if b > 0 {
            assert forall|i: int| 0 <= i < b implies #[trigger] gb(i) == g2(i) by {
                assert(window_at(t, k, a + m + i) =~= window_at(s2, k, i));
            }
            lemma_sum_congruent(gb, g2, b);
            lemma_scan_upto_as_sum(s2, k, b);
        } else {
            assert(sum_upto(gb, 0) == Multiset::<Seq<u8>>::empty());
        }
        assert(scan(t, k) =~= scan(s1, k).add(scan(s2, k)));
    }
}

/// Short input: a sequence shorter than `k` yields an empty tally.
pub proof fn lemma_short_sequence_empty(s: Seq<u8>, k: nat)
    requires
        s.len() < k,
    ensures
        scan(s, k) =~= Multiset::empty(),
{
}

/// Counts the canonical k-mers of one sequence into `tally`.
pub fn count_sequence(seq: &[u8], k: usize, tally: &mut Tally)
    requires
        k > 0,
        old(tally).wf(),
        old(tally)@.len() + seq@.len() <= u64::MAX,
    ensures
        final(tally).wf(),
        final(tally)@ =~= old(tally)@.add(scan(seq@, k as nat)),
{
    proof {
        lemma_scan_len(seq@, k as nat);
    }
    if seq.len() < k {
        return;
    }
    let n = seq.len() - k + 1;
    let ghost start = tally@;
    let mut i: usize = 0;
    while i < n
        invariant
            k > 0,
            k <= seq@.len(),
            n == seq@.len() - k + 1,
            i <= n,
            tally.wf(),
            tally@ =~= start.add(scan_upto(seq@, k as nat, i as nat)),
            start.len() + seq@.len() <= u64::MAX,
        decreases n - i,
    {
        assert(i + k <= seq.len());
        let w = &seq[i..i + k];
        assert(w@ =~= window_at(seq@, k as nat, i as int));
        proof {
            lemma_scan_upto_len(seq@, k as nat, i as nat);
        }
        if is_valid_window(w) {
            let c = canonical_kmer(w);
            proof {
                assert(tally@.count(c@) <= tally@.len());
            }
            tally.add_count(c.as_slice(), 1);
            assert(crate::tally::copies(c@, 0) =~= Multiset::empty());
            assert(crate::tally::copies(c@, 1) =~= Multiset::empty().insert(c@));
        }
        i = i + 1;
    }
}

/// The tally of one sequence on its own.
pub fn scan_sequence(seq: &[u8], k: usize) -> (r: Tally)
    requires
        k > 0,
        seq@.len() <= u64::MAX,
    ensures
        r.wf(),
        r@ =~= scan(seq@, k as nat),
{
    let mut t = Tally::new();
    count_sequence(seq, k, &mut t);
    t
}

} // verus!
