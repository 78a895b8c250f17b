use vstd::prelude::*;
use vstd::multiset::Multiset;

verus! {

broadcast use vstd::multiset::group_multiset_axioms, vstd::multiset::group_multiset_properties;

/// `n` copies of `key`.
pub open spec fn copies(key: Seq<u8>, n: nat) -> Multiset<Seq<u8>>
    decreases n,
{
    if n == 0 {
        Multiset::empty()
    } else {
        copies(key, (n - 1) as nat).insert(key)
    }
}

/// The multiset described by parallel lists of keys and counts.
pub open spec fn from_entries(keys: Seq<Seq<u8>>, counts: Seq<u64>) -> Multiset<Seq<u8>>
    decreases keys.len(),
{
    if keys.len() == 0 || counts.len() == 0 {
        Multiset::empty()
    } else {
        from_entries(keys.drop_last(), counts.drop_last()).add(
            copies(keys.last(), counts.last() as nat),
        )
    }
}

/// Sum of a list of counts.
pub open spec fn sum_counts(counts: Seq<u64>) -> nat
    decreases counts.len(),
{
    if counts.len() == 0 {
        0
    } else {
        sum_counts(counts.drop_last()) + counts.last() as nat
    }
}

/// No key occurs twice.
pub open spec fn distinct_keys(keys: Seq<Seq<u8>>) -> bool {
    forall|i: int, j: int| 0 <= i < keys.len() && 0 <= j < keys.len() && i != j ==> keys[i] != keys[j]
}

/// Parallel lists that describe a tally exactly once per key.
pub open spec fn entries_wf(keys: Seq<Seq<u8>>, counts: Seq<u64>) -> bool {
    &&& keys.len() == counts.len()
    &&& distinct_keys(keys)
    &&& forall|i: int| 0 <= i < counts.len() ==> counts[i] > 0
}

/// The byte strings held by a list of vectors.
pub open spec fn views_of(v: Seq<Vec<u8>>) -> Seq<Seq<u8>> {
    v.map_values(|k: Vec<u8>| k@)
}

pub proof fn lemma_copies_count(key: Seq<u8>, n: nat, x: Seq<u8>)
    ensures
        copies(key, n).count(x) == if x == key {
            n
        } else {
            0
        },
        copies(key, n).len() == n,
    decreases n,
{
    if n > 0 {
        lemma_copies_count(key, (n - 1) as nat, x);
    }
}

/// With distinct keys, each key counts as often as its entry says, and any
/// other value not at all.
pub proof fn lemma_from_entries_count(keys: Seq<Seq<u8>>, counts: Seq<u64>)
    requires
        keys.len() == counts.len(),
        distinct_keys(keys),
    ensures
        forall|i: int| 0 <= i < keys.len() ==> from_entries(keys, counts).count(#[trigger] keys[i]) == counts[i],
        forall|x: Seq<u8>| !keys.contains(x) ==> from_entries(keys, counts).count(x) == 0,
        from_entries(keys, counts).len() == sum_counts(counts),
    decreases keys.len(),
{
    if keys.len() > 0 {
        let k0 = keys.drop_last();
        let c0 = counts.drop_last();
        lemma_from_entries_count(k0, c0);
        let last = keys.last();
        lemma_copies_count(last, counts.last() as nat, last);
        assert forall|i: int| 0 <= i < keys.len() implies from_entries(keys, counts).count(#[trigger] keys[i]) == counts[i] by {
            lemma_copies_count(last, counts.last() as nat, keys[i]);
            if i < keys.len() - 1 {
                assert(k0[i] == keys[i]);
                assert(keys[i] != last);
            } else {
                assert(!k0.contains(last)) by {
                    if k0.contains(last) {
                        let j = choose|j: int| 0 <= j < k0.len() && k0[j] == last;
                        assert(keys[j] == keys[keys.len() - 1]);
                    }
                }
            }
        }
        assert forall|x: Seq<u8>| !keys.contains(x) implies from_entries(keys, counts).count(x) == 0 by {
            lemma_copies_count(last, counts.last() as nat, x);
            if k0.contains(x) {
                let j = choose|j: int| 0 <= j < k0.len() && k0[j] == x;
                assert(keys[j] == x);
            }
            assert(x != keys[keys.len() - 1]);
        }
    }
}

pub proof fn lemma_from_entries_push(keys: Seq<Seq<u8>>, counts: Seq<u64>, key: Seq<u8>, c: u64)
    requires
        keys.len() == counts.len(),
    ensures
        from_entries(keys.push(key), counts.push(c)) == from_entries(keys, counts).add(
            copies(key, c as nat),
        ),
        sum_counts(counts.push(c)) == sum_counts(counts) + c,
{
    assert(keys.push(key).drop_last() =~= keys);
    assert(counts.push(c).drop_last() =~= counts);
}

pub proof fn lemma_from_entries_len(keys: Seq<Seq<u8>>, counts: Seq<u64>)
    requires
        keys.len() == counts.len(),
    ensures
        from_entries(keys, counts).len() == sum_counts(counts),
    decreases keys.len(),
{
    if keys.len() > 0 {
        lemma_from_entries_len(keys.drop_last(), counts.drop_last());
        lemma_copies_count(keys.last(), counts.last() as nat, keys.last());
    }
}

pub proof fn lemma_sum_counts_prefix(counts: Seq<u64>, i: int)
    requires
        0 <= i <= counts.len(),
    ensures
        sum_counts(counts.subrange(0, i)) <= sum_counts(counts),
    decreases counts.len() - i,
{
    if i < counts.len() {
        lemma_sum_counts_prefix(counts, i + 1);
        lemma_sum_counts_prefix_push(counts, i);
    } else {
        assert(counts.subrange(0, i) =~= counts);
    }
}

pub proof fn lemma_sum_counts_prefix_push(counts: Seq<u64>, i: int)
    requires
        0 <= i < counts.len(),
    ensures
        sum_counts(counts.subrange(0, i + 1)) == sum_counts(counts.subrange(0, i)) + counts[i],
{
    assert(counts.subrange(0, i + 1).drop_last() =~= counts.subrange(0, i));
}

/// A table from canonical k-mers to positive counts, each key held once.
pub struct Tally {
    keys: Vec<Vec<u8>>,
    counts: Vec<u64>,
    total: u64,
}

impl View for Tally {
    type V = Multiset<Seq<u8>>;

    closed spec fn view(&self) -> Multiset<Seq<u8>> {
        from_entries(views_of(self.keys@), self.counts@)
    }
}

impl Tally {
    /// Keys and counts are parallel, keys distinct, counts positive, and
    /// `total` is the sum of the counts.
    pub closed spec fn wf(&self) -> bool {
        &&& entries_wf(views_of(self.keys@), self.counts@)
        &&& self.total as nat == self@.len()
    }

    proof fn lemma_view_facts(&self)
        requires
            self.wf(),
        ensures
            forall|i: int|
                0 <= i < self.keys@.len() ==> self@.count(#[trigger] self.keys@[i]@)
                    == self.counts@[i],
            forall|x: Seq<u8>|
                !views_of(self.keys@).contains(x) ==> self@.count(x) == 0,
            self@.len() == sum_counts(self.counts@),
    {
        lemma_from_entries_count(views_of(self.keys@), self.counts@);
        assert forall|i: int| 0 <= i < self.keys@.len() implies self@.count(#[trigger] self.keys@[i]@) == self.counts@[i] by {
            assert(views_of(self.keys@)[i] == self.keys@[i]@);
        }
    }

    /// The sum of all counts fits in a `u64`.
    pub proof fn lemma_total_bounded(&self)
        requires
            self.wf(),
        ensures
            self@.len() <= u64::MAX,
    {
    }

    /// The empty tally.
    pub fn new() -> (r: Tally)
        ensures
            r.wf(),
            r@ =~= Multiset::empty(),
    {
        Tally { keys: Vec::new(), counts: Vec::new(), total: 0 }
    }

    /// Sum of all counts.
    pub fn total(&self) -> (r: u64)
        requires
            self.wf(),
        ensures
            r == self@.len(),
    {
        self.total
    }

    /// Number of distinct keys.
    pub fn num_keys(&self) -> (r: usize)
        requires
            self.wf(),
        ensures
            r == self@.dom().len(),
    {
        proof {
            self.lemma_view_facts();
            let ks = views_of(self.keys@);
            assert(self@.dom() =~= ks.to_set()) by {
                assert forall|x: Seq<u8>| self@.dom().contains(x) implies ks.to_set().contains(x) by {
                    if !ks.contains(x) {
                    }
                }
                assert forall|x: Seq<u8>| ks.to_set().contains(x) implies self@.dom().contains(x) by {
                    let j = choose|j: int| 0 <= j < ks.len() && ks[j] == x;
                    assert(self@.count(self.keys@[j]@) == self.counts@[j]);
                }
            }
            ks.unique_seq_to_set();
        }
        self.keys.len()
    }

    fn find(&self, key: &[u8]) -> (r: Option<usize>)
        requires
            self.wf(),
        ensures
            match r {
                Some(i) => i < self.keys@.len() && self.keys@[i as int]@ == key@,
                None => !views_of(self.keys@).contains(key@),
            },
    {
        let mut i: usize = 0;
        while i < self.keys.len()
            invariant
                self.wf(),
                i <= self.keys@.len(),
                forall|j: int| 0 <= j < i ==> self.keys@[j]@ != key@,
            decreases self.keys@.len() - i,
        {
            if bytes_equal(self.keys[i].as_slice(), key) {
                return Some(i);
            }
            i = i + 1;
        }
        proof {
            if views_of(self.keys@).contains(key@) {
                let j = choose|j: int| 0 <= j < views_of(self.keys@).len() && views_of(self.keys@)[j] == key@;
                assert(self.keys@[j]@ == key@);
            }
        }
        None
    }

    /// How often `key` was counted.
    pub fn count_of(&self, key: &[u8]) -> (r: u64)
        requires
            self.wf(),
        ensures
            r == self@.count(key@),
    {
        proof {
            self.lemma_view_facts();
        }
        match self.find(key) {
            Some(i) => self.counts[i],
            None => 0,
        }
    }

    /// Adds `n` occurrences of `key`.
    pub fn add_count(&mut self, key: &[u8], n: u64)
        requires
            old(self).wf(),
            old(self)@.len() + n <= u64::MAX,
        ensures
            final(self).wf(),
            final(self)@ =~= old(self)@.add(copies(key@, n as nat)),
    {
        proof {
            self.lemma_view_facts();
            lemma_copies_count(key@, n as nat, key@);
        }
        if n == 0 {
            assert(self@ =~= self@.add(copies(key@, 0)));
            return;
        }
        match self.find(key) {
            Some(i) => {
                let ghost before = *self;
                let c = self.counts[i];
                self.counts.set(i, c + n);
                self.total = self.total + n;
                proof {
                    let ks = views_of(self.keys@);
                    assert(ks == views_of(before.keys@));
                    lemma_from_entries_count(ks, self.counts@);
                    lemma_from_entries_count(ks, before.counts@);
                    assert forall|x: Seq<u8>| #[trigger] self@.count(x) == before@.add(copies(key@, n as nat)).count(x) by {
                        lemma_copies_count(key@, n as nat, x);
                        if ks.contains(x) {
                            let j = choose|j: int| 0 <= j < ks.len() && ks[j] == x;
                            if j != i {
                                assert(ks[j] != ks[i as int]);
                            }
                        }
                    }
                    assert(self@ =~= before@.add(copies(key@, n as nat)));
                    assert(self@.len() == before@.len() + n);
                }
            }
            None => {
                let ghost before = *self;
                let v = slice_to_vec(key);
                self.keys.push(v);
                self.counts.push(n);
                self.total = self.total + n;
                proof {
                    assert(views_of(self.keys@) =~= views_of(before.keys@).push(key@));
                    lemma_from_entries_push(views_of(before.keys@), before.counts@, key@, n);
                    assert(self@ == before@.add(copies(key@, n as nat)));
                    assert(self@.len() == before@.len() + n);
                    let ks = views_of(self.keys@);
                    assert forall|a: int, b: int| 0 <= a < ks.len() && 0 <= b < ks.len() && a != b implies ks[a] != ks[b] by {
                        if a == ks.len() - 1 {
                            assert(views_of(before.keys@)[b] == ks[b]);
                        } else if b == ks.len() - 1 {
                            assert(views_of(before.keys@)[a] == ks[a]);
                        }
                    }
                }
            }
        }
    }

    /// Key-wise sum: adds every count of `other` into this tally.
    pub fn merge(&mut self, other: &Tally)
        requires
            old(self).wf(),
            other.wf(),
            old(self)@.len() + other@.len() <= u64::MAX,
        ensures
            final(self).wf(),
            final(self)@ =~= old(self)@.add(other@),
    {
        proof {
            other.lemma_view_facts();
        }
        let ghost start = self@;
        let ghost ks = views_of(other.keys@);
        let mut i: usize = 0;
        while i < other.keys.len()
            invariant
                self.wf(),
                other.wf(),
                i <= other.keys@.len(),
                ks == views_of(other.keys@),
                self@ =~= start.add(from_entries(ks.subrange(0, i as int), other.counts@.subrange(0, i as int))),
                start.len() + other@.len() <= u64::MAX,
                other@.len() == sum_counts(other.counts@),
            decreases other.keys@.len() - i,
        {
            proof {
                lemma_sum_counts_prefix(other.counts@, i as int + 1);
                lemma_from_entries_len(ks.subrange(0, i as int), other.counts@.subrange(0, i as int));
                lemma_sum_counts_prefix_push(other.counts@, i as int);
            }
            self.add_count(other.keys[i].as_slice(), other.counts[i]);
            proof {
                assert(ks.subrange(0, i + 1) =~= ks.subrange(0, i as int).push(ks[i as int]));
                assert(other.counts@.subrange(0, i + 1) =~= other.counts@.subrange(0, i as int).push(other.counts@[i as int]));
                lemma_from_entries_push(ks.subrange(0, i as int), other.counts@.subrange(0, i as int), ks[i as int], other.counts@[i as int]);
            }
            i = i + 1;
        }
        assert(ks.subrange(0, i as int) =~= ks);
        assert(other.counts@.subrange(0, i as int) =~= other.counts@);
    }

    /// Parallel lists of keys and counts that describe this tally, each key
    /// once, every count positive.
    pub fn entries(&self) -> (r: (Vec<Vec<u8>>, Vec<u64>))
        requires
            self.wf(),
        ensures
            entries_wf(views_of(r.0@), r.1@),
            from_entries(views_of(r.0@), r.1@) == self@,
    {
        let mut keys: Vec<Vec<u8>> = Vec::new();
        let mut i: usize = 0;
        while i < self.keys.len()
            invariant
                i <= self.keys@.len(),
                views_of(keys@) =~= views_of(self.keys@).subrange(0, i as int),
            decreases self.keys@.len() - i,
        {
            let v = slice_to_vec(self.keys[i].as_slice());
            let ghost prev = keys@;
            keys.push(v);
            proof {
                assert(keys@ =~= prev.push(v));
                assert(views_of(keys@) =~= views_of(prev).push(v@));
                assert(views_of(self.keys@).subrange(0, i + 1) =~= views_of(self.keys@).subrange(
                    0,
                    i as int,
                ).push(self.keys@[i as int]@));
            }
            i = i + 1;
        }
        assert(views_of(keys@) =~= views_of(self.keys@));
        proof {
            lemma_from_entries_count(views_of(self.keys@), self.counts@);
        }
        (keys, self.counts.clone())
    }
}

/// Merging partial tallies is associative and commutative: any grouping and
/// any order of merges gives the same tally.
pub proof fn lemma_merge_order_irrelevant(a: Tally, b: Tally, c: Tally)
    ensures
        a@.add(b@).add(c@) == a@.add(b@.add(c@)),
        a@.add(b@.add(c@)) == b@.add(a@.add(c@)),
        a@.add(b@) == b@.add(a@),
{
    assert(a@.add(b@).add(c@) =~= a@.add(b@.add(c@)));
    assert(a@.add(b@.add(c@)) =~= b@.add(a@.add(c@)));
    assert(a@.add(b@) =~= b@.add(a@));
}

/// Whether two byte strings are equal.
pub fn bytes_equal(a: &[u8], b: &[u8]) -> (r: bool)
    ensures
        r == (a@ == b@),
{
    if a.len() != b.len() {
        return false;
    }
    let mut i: usize = 0;
    while i < a.len()
        invariant
            a@.len() == b@.len(),
            i <= a@.len(),
            forall|j: int| 0 <= j < i ==> a@[j] == b@[j],
        decreases a@.len() - i,
    {
        if a[i] != b[i] {
            return false;
        }
        i = i + 1;
    }
    assert(a@ =~= b@);
    true
}

fn slice_to_vec(s: &[u8]) -> (r: Vec<u8>)
    ensures
        r@ == s@,
{
    let mut r: Vec<u8> = Vec::with_capacity(s.len());
    let mut i: usize = 0;
    while i < s.len()
        invariant
            i <= s@.len(),
            r@ =~= s@.subrange(0, i as int),
        decreases s@.len() - i,
    {
        r.push(s[i]);
        i = i + 1;
    }
    r
}

} // verus!
