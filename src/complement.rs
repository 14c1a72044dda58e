//! Nucleotide complements (IUPAC alphabet, both cases), reverse complements
//! and the strand-independent canonical form of a k-mer.
use vstd::prelude::*;

verus! {

/// The complement of one symbol, by ASCII code: A/T, G/C, Y/R, W/W, S/S, K/M, D/V, H/B and
/// N/N in upper and lower case; every other byte is its own complement.
pub open spec fn complement_of(a: u8) -> u8 {
    if a == 65 { 84 } else if a == 84 { 65 }
    else if a == 71 { 67 } else if a == 67 { 71 }
    else if a == 89 { 82 } else if a == 82 { 89 }
    else if a == 75 { 77 } else if a == 77 { 75 }
    else if a == 68 { 86 } else if a == 86 { 68 }
    else if a == 72 { 66 } else if a == 66 { 72 }
    else if a == 97 { 116 } else if a == 116 { 97 }
    else if a == 103 { 99 } else if a == 99 { 103 }
    else if a == 121 { 114 } else if a == 114 { 121 }
    else if a == 107 { 109 } else if a == 109 { 107 }
    else if a == 100 { 118 } else if a == 118 { 100 }
    else if a == 104 { 98 } else if a == 98 { 104 }
    else { a }
}

/// The reverse complement: symbol `i` is the complement of symbol `len - 1 - i`.
pub open spec fn revcomp_of(s: Seq<u8>) -> Seq<u8> {
    Seq::new(s.len(), |i: int| complement_of(s[s.len() - 1 - i]))
}

/// Byte-wise lexicographic "less than"; a proper prefix is smaller.
pub open spec fn lex_lt(a: Seq<u8>, b: Seq<u8>) -> bool
    decreases a.len(),
{
    if a.len() == 0 {
        b.len() > 0
    } else if b.len() == 0 {
        false
    } else if a[0] != b[0] {
        a[0] < b[0]
    } else {
        lex_lt(a.drop_first(), b.drop_first())
    }
}

/// The canonical form of a k-mer: the smaller of it and its reverse complement.
pub open spec fn canonical_of(w: Seq<u8>) -> Seq<u8> {
    if lex_lt(w, revcomp_of(w)) {
        w
    } else {
        revcomp_of(w)
    }
}

/// Complementing twice gives the symbol back.
pub proof fn lemma_complement_involutive(a: u8)
    ensures
        complement_of(complement_of(a)) == a,
{
}

/// The ambiguity symbol `N` is the complement of itself and of nothing else.
pub proof fn lemma_complement_n(a: u8)
    ensures
        (complement_of(a) == 78) == (a == 78),
{
}

/// Taking the reverse complement twice gives the sequence back.
pub proof fn lemma_revcomp_involutive(s: Seq<u8>)
    ensures
        revcomp_of(revcomp_of(s)) == s,
{
    assert forall|i: int| 0 <= i < s.len() implies #[trigger] revcomp_of(revcomp_of(s))[i] == s[i] by {
        lemma_complement_involutive(s[i]);
    }
    assert(revcomp_of(revcomp_of(s)) =~= s);
}

/// Of two different sequences exactly one is lexicographically smaller.
pub proof fn lemma_lex_total(a: Seq<u8>, b: Seq<u8>)
    ensures
        !(lex_lt(a, b) && lex_lt(b, a)),
        a != b ==> (lex_lt(a, b) || lex_lt(b, a)),
    decreases a.len(),
{
    if a.len() > 0 && b.len() > 0 && a[0] == b[0] {
        lemma_lex_total(a.drop_first(), b.drop_first());
        if a != b {
            assert(a.drop_first() != b.drop_first()) by {
                if a.drop_first() == b.drop_first() {
                    assert(a =~= seq![a[0]] + a.drop_first());
                    assert(b =~= seq![b[0]] + b.drop_first());
                }
            }
        }
    } else if a.len() == 0 && b.len() == 0 {
        assert(a =~= b);
    }
}

/// A k-mer and its reverse complement have the same canonical form.
pub proof fn lemma_canonical_symmetric(w: Seq<u8>)
    ensures
        canonical_of(w) == canonical_of(revcomp_of(w)),
{
    lemma_revcomp_involutive(w);
    lemma_lex_total(w, revcomp_of(w));
}

/// The complement of one symbol.
pub fn complement(a: u8) -> (r: u8)
    ensures
        r == complement_of(a),
{
    match a {
        65 => 84,
        84 => 65,
        71 => 67,
        67 => 71,
        89 => 82,
        82 => 89,
        75 => 77,
        77 => 75,
        68 => 86,
        86 => 68,
        72 => 66,
        66 => 72,
        97 => 116,
        116 => 97,
        103 => 99,
        99 => 103,
        121 => 114,
        114 => 121,
        107 => 109,
        109 => 107,
        100 => 118,
        118 => 100,
        104 => 98,
        98 => 104,
        _ => a,
    }
}

/// The reverse complement of the window `seq[start..start + k]`.
pub fn revcomp_window(seq: &[u8], start: usize, k: usize) -> (r: Vec<u8>)
    requires
        start + k <= seq@.len(),
    ensures
        r@ == revcomp_of(seq@.subrange(start as int, start + k)),
{
    let ghost w = seq@.subrange(start as int, start + k);
    let _len = seq.len();
    let end = start + k;
    let mut r: Vec<u8> = Vec::new();
    let mut j: usize = 0;
    while j < k
        invariant
            j <= k,
            end == start + k,
            end <= seq@.len(),
            w == seq@.subrange(start as int, start + k),
            r@ =~= revcomp_of(w).take(j as int),
        decreases k - j,
    {
        let c = complement(seq[end - 1 - j]);
        r.push(c);
        j = j + 1;
    }
    assert(revcomp_of(w).take(k as int) =~= revcomp_of(w));
    r
}

/// The reverse complement of a sequence.
pub fn revcomp(seq: &[u8]) -> (r: Vec<u8>)
    ensures
        r@ == revcomp_of(seq@),
{
    assert(seq@.subrange(0, seq@.len() as int) =~= seq@);
    revcomp_window(seq, 0, seq.len())
}

/// Whether the window `seq[start..start + k]` is lexicographically smaller than `other`.
pub fn window_less(seq: &[u8], start: usize, k: usize, other: &[u8]) -> (r: bool)
    requires
        start + k <= seq@.len(),
    ensures
        r == lex_lt(seq@.subrange(start as int, start + k), other@),
{
    let ghost w = seq@.subrange(start as int, start + k);
    assert(w.skip(0) =~= w);
    assert(other@.skip(0) =~= other@);
    let _len = seq.len();
    let mut j: usize = 0;
    while j < k && j < other.len()
        invariant
            j <= k,
            j <= other@.len(),
            start + k <= seq@.len(),
            seq@.len() <= usize::MAX,
            w == seq@.subrange(start as int, start + k),
            lex_lt(w, other@) == lex_lt(w.skip(j as int), other@.skip(j as int)),
        decreases k - j,
    {
        let a = seq[start + j];
        let b = other[j];
        if a != b {
            return a < b;
        }
        assert(w.skip(j as int).drop_first() =~= w.skip(j + 1));
        assert(other@.skip(j as int).drop_first() =~= other@.skip(j + 1));
        j = j + 1;
    }
    j < other.len()
}

/// A copy of the window `seq[start..start + k]`.
pub fn copy_window(seq: &[u8], start: usize, k: usize) -> (r: Vec<u8>)
    requires
        start + k <= seq@.len(),
    ensures
        r@ == seq@.subrange(start as int, start + k),
{
    let _len = seq.len();
    let mut r: Vec<u8> = Vec::new();
    let mut j: usize = 0;
    while j < k
        invariant
            j <= k,
            start + k <= seq@.len(),
            seq@.len() <= usize::MAX,
            r@ =~= seq@.subrange(start as int, start + j),
        decreases k - j,
    {
        r.push(seq[start + j]);
        j = j + 1;
    }
    r
}

/// The canonical form of the window `seq[start..start + k]`.
pub fn canonical_window(seq: &[u8], start: usize, k: usize) -> (r: Vec<u8>)
    requires
        start + k <= seq@.len(),
    ensures
        r@ == canonical_of(seq@.subrange(start as int, start + k)),
{
    let rev = revcomp_window(seq, start, k);
    if window_less(seq, start, k, &rev) {
        copy_window(seq, start, k)
    } else {
        rev
    }
}

/// The canonical form of a k-mer.
pub fn canonical(kmer: &[u8]) -> (r: Vec<u8>)
    ensures
        r@ == canonical_of(kmer@),
{
    assert(kmer@.subrange(0, kmer@.len() as int) =~= kmer@);
    canonical_window(kmer, 0, kmer.len())
}

} // verus!
