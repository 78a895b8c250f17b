use vstd::prelude::*;

verus! {

/// A base is one of A, C, G, T, in either case.
pub open spec fn is_base(b: u8) -> bool {
    b == 65u8 || b == 67u8 || b == 71u8 || b == 84u8 || b == 97u8 || b == 99u8 || b == 103u8
        || b == 116u8
}

/// Complement of a base (A and T swap, C and G swap), always in upper case;
/// any other byte becomes the unknown base `N`.
pub open spec fn complement(b: u8) -> u8 {
    if b == 65u8 || b == 97u8 {
        84u8
    } else if b == 84u8 || b == 116u8 {
        65u8
    } else if b == 67u8 || b == 99u8 {
        71u8
    } else if b == 71u8 || b == 103u8 {
        67u8
    } else {
        78u8
    }
}

/// Upper-case form of a base; other bytes are left as they are.
pub open spec fn upper(b: u8) -> u8 {
    if b == 97u8 {
        65u8
    } else if b == 99u8 {
        67u8
    } else if b == 103u8 {
        71u8
    } else if b == 116u8 {
        84u8
    } else {
        b
    }
}

/// A window is valid when every byte of it is a base.
pub open spec fn valid_window(w: Seq<u8>) -> bool {
    forall|i: int| 0 <= i < w.len() ==> #[trigger] is_base(w[i])
}

/// The window read backwards, each byte complemented.
pub open spec fn reverse_complement_of(w: Seq<u8>) -> Seq<u8> {
    Seq::new(w.len(), |i: int| complement(w[w.len() - 1 - i]))
}

/// The window with its bases in upper case.
pub open spec fn normalized(w: Seq<u8>) -> Seq<u8> {
    Seq::new(w.len(), |i: int| upper(w[i]))
}

/// Byte-wise lexicographic order: `a` comes strictly before `b`.
pub open spec fn lex_lt(a: Seq<u8>, b: Seq<u8>) -> bool {
    (exists|i: int|
        #![trigger a[i], b[i]]
        0 <= i < a.len() && i < b.len() && a[i] < b[i] && forall|j: int|
            0 <= j < i ==> a[j] == b[j]) || (a.len() < b.len() && a =~= b.subrange(0, a.len() as int))
}

/// The canonical form of a window: the smaller of its (upper-case) self and its
/// reverse complement, the window itself on a tie.
pub open spec fn canonical_of(w: Seq<u8>) -> Seq<u8> {
    let rc = reverse_complement_of(w);
    let n = normalized(w);
    if lex_lt(rc, n) {
        rc
    } else {
        n
    }
}

fn complement_base(b: u8) -> (r: u8)
    ensures
        r == complement(b),
{
    if b == 65u8 || b == 97u8 {
        84u8
    } else if b == 84u8 || b == 116u8 {
        65u8
    } else if b == 67u8 || b == 99u8 {
        71u8
    } else if b == 71u8 || b == 103u8 {
        67u8
    } else {
        78u8
    }
}

fn upper_base(b: u8) -> (r: u8)
    ensures
        r == upper(b),
{
    if b == 97u8 {
        65u8
    } else if b == 99u8 {
        67u8
    } else if b == 103u8 {
        71u8
    } else if b == 116u8 {
        84u8
    } else {
        b
    }
}

/// Whether `b` is one of A, C, G, T in either case.
pub fn is_base_byte(b: u8) -> (r: bool)
    ensures
        r == is_base(b),
{
    b == 65u8 || b == 67u8 || b == 71u8 || b == 84u8 || b == 97u8 || b == 99u8 || b == 103u8
        || b == 116u8
}

/// Whether every byte of the window is a base.
pub fn is_valid_window(w: &[u8]) -> (r: bool)
    ensures
        r == valid_window(w@),
{
    let mut i: usize = 0;
    while i < w.len()
        invariant
            i <= w@.len(),
            forall|j: int| 0 <= j < i ==> #[trigger] is_base(w@[j]),
        decreases w.len() - i,
    {
        if !is_base_byte(w[i]) {
            return false;
        }
        i = i + 1;
    }
    true
}

/// Reverse complement of a window: same length, bytes in reverse order, each
/// complemented; a byte that is not a base becomes `N`.
pub fn reverse_complement(seq: &[u8]) -> (r: Vec<u8>)
    ensures
        r@ == reverse_complement_of(seq@),
{
    let n = seq.len();
    let mut r: Vec<u8> = Vec::with_capacity(n);
    let mut i: usize = 0;
    while i < n
        invariant
            n == seq@.len(),
            i <= n,
            r@ =~= reverse_complement_of(seq@).subrange(0, i as int),
        decreases n - i,
    {
        let c = complement_base(seq[n - 1 - i]);
        r.push(c);
        i = i + 1;
    }
    r
}

fn normalize(seq: &[u8]) -> (r: Vec<u8>)
    ensures
        r@ == normalized(seq@),
{
    let n = seq.len();
    let mut r: Vec<u8> = Vec::with_capacity(n);
    let mut i: usize = 0;
    while i < n
        invariant
            n == seq@.len(),
            i <= n,
            r@ =~= normalized(seq@).subrange(0, i as int),
        decreases n - i,
    {
        let c = upper_base(seq[i]);
        r.push(c);
        i = i + 1;
    }
    r
}

fn lex_less(a: &[u8], b: &[u8]) -> (r: bool)
    requires
        a@.len() == b@.len(),
    ensures
        r == lex_lt(a@, b@),
{
    let n = a.len();
    let mut i: usize = 0;
    while i < n && a[i] == b[i]
        invariant
            n == a@.len(),
            n == b@.len(),
            i <= n,
            forall|j: int| 0 <= j < i ==> a@[j] == b@[j],
        decreases n - i,
    {
        i = i + 1;
    }
    if i < n && a[i] < b[i] {
        assert(a@[i as int] < b@[i as int]);
        true
    } else {
        proof {
            assert(!(a@.len() < b@.len()));
            if exists|j: int|
                #![trigger a@[j], b@[j]]
                0 <= j < a@.len() && j < b@.len() && a@[j] < b@[j] && forall|m: int|
                    0 <= m < j ==> a@[m] == b@[m] {
                let j = choose|j: int|
                    #![trigger a@[j], b@[j]]
                    0 <= j < a@.len() && j < b@.len() && a@[j] < b@[j] && forall|m: int|
                        0 <= m < j ==> a@[m] == b@[m];
                if j < i {
                    assert(a@[j] == b@[j]);
                } else if j > i {
                    assert(a@[i as int] == b@[i as int]);
                }
            }
        }
        false
    }
}

/// Canonical form of a k-mer: the lexicographically smaller of the window (in
/// upper case) and its reverse complement, the window itself on a tie.
pub fn canonical_kmer(kmer: &[u8]) -> (r: Vec<u8>)
    ensures
        r@ == canonical_of(kmer@),
{
    let rc = reverse_complement(kmer);
    let n = normalize(kmer);
    if lex_less(rc.as_slice(), n.as_slice()) {
        rc
    } else {
        n
    }
}

proof fn lemma_lex_lt_asymmetric(a: Seq<u8>, b: Seq<u8>)
    requires
        a.len() == b.len(),
        lex_lt(a, b),
    ensures
        !lex_lt(b, a),
{
    let i = choose|i: int|
        #![trigger a[i], b[i]]
        0 <= i < a.len() && i < b.len() && a[i] < b[i] && forall|j: int|
            0 <= j < i ==> a[j] == b[j];
    if exists|j: int|
        #![trigger b[j], a[j]]
        0 <= j < b.len() && j < a.len() && b[j] < a[j] && forall|m: int|
            0 <= m < j ==> b[m] == a[m] {
        let j = choose|j: int|
            #![trigger b[j], a[j]]
            0 <= j < b.len() && j < a.len() && b[j] < a[j] && forall|m: int|
                0 <= m < j ==> b[m] == a[m];
        if j < i {
            assert(a[j] == b[j]);
        } else if i < j {
            assert(b[i] == a[i]);
        }
    }
}

proof fn lemma_lex_lt_total_from(a: Seq<u8>, b: Seq<u8>, i: int)
    requires
        a.len() == b.len(),
        0 <= i <= a.len(),
        forall|j: int| 0 <= j < i ==> a[j] == b[j],
    ensures
        a =~= b || lex_lt(a, b) || lex_lt(b, a),
    decreases a.len() - i,
{
    if i < a.len() {
        if a[i] == b[i] {
            lemma_lex_lt_total_from(a, b, i + 1);
        } else if a[i] < b[i] {
            assert(a[i] < b[i]);
        } else {
            assert(b[i] < a[i]);
        }
    }
}

proof fn lemma_lex_lt_total(a: Seq<u8>, b: Seq<u8>)
    requires
        a.len() == b.len(),
    ensures
        a =~= b || lex_lt(a, b) || lex_lt(b, a),
{
    lemma_lex_lt_total_from(a, b, 0);
}

/// Strand symmetry: a valid window and its reverse complement have the same
/// canonical form.
pub proof fn lemma_strand_symmetry(w: Seq<u8>)
    requires
        valid_window(w),
    ensures
        canonical_of(w) == canonical_of(reverse_complement_of(w)),
{
    let rc = reverse_complement_of(w);
    let n = normalized(w);
    assert(normalized(rc) =~= rc) by {
        assert forall|i: int| 0 <= i < rc.len() implies upper(rc[i]) == rc[i] by {
            assert(is_base(w[w.len() - 1 - i]));
        }
    }
    assert(reverse_complement_of(rc) =~= n) by {
        assert forall|i: int| 0 <= i < n.len() implies complement(rc[rc.len() - 1 - i]) == n[i] by {
            assert(is_base(w[i]));
        }
    }
    lemma_lex_lt_total(rc, n);
    if lex_lt(rc, n) {
        lemma_lex_lt_asymmetric(rc, n);
    }
}

} // verus!
