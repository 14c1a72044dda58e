//! The counting pass over one sequence: every window of `k` symbols that holds
//! no `N` is counted under its canonical form.
use crate::complement::{canonical_of, canonical_window, lemma_complement_n, revcomp_of};
use crate::counter::Counter;
use vstd::multiset::Multiset;
use vstd::prelude::*;

verus! {

broadcast use vstd::multiset::group_multiset_properties;

/// The ambiguity symbol `N` (upper case only), whose windows are skipped.
pub const AMBIGUOUS: u8 = 78;

/// Whether a window holds the ambiguity symbol.
pub open spec fn has_ambiguity(w: Seq<u8>) -> bool {
    w.contains(AMBIGUOUS)
}

/// The window of `k` symbols of `s` that starts at `i`.
pub open spec fn window_at(s: Seq<u8>, k: nat, i: int) -> Seq<u8> {
    s.subrange(i, i + k)
}

/// The canonical k-mers of the first `n` windows of `s`, without those that
/// hold the ambiguity symbol.
pub open spec fn kmers_upto(s: Seq<u8>, k: nat, n: nat) -> Multiset<Seq<u8>>
    decreases n,
{
    if n == 0 {
        Multiset::empty()
    } else {
        let prev = kmers_upto(s, k, (n - 1) as nat);
        let w = window_at(s, k, n - 1);
        if has_ambiguity(w) {
            prev
        } else {
            prev.insert(canonical_of(w))
        }
    }
}

/// The canonical k-mers that one sequence contributes: one for each window
/// without the ambiguity symbol; none where the sequence is shorter than `k`.
pub open spec fn kmer_counts(s: Seq<u8>, k: nat) -> Multiset<Seq<u8>> {
    if s.len() < k {
        Multiset::empty()
    } else {
        kmers_upto(s, k, (s.len() - k + 1) as nat)
    }
}

/// The canonical form of a window without the ambiguity symbol has none either.
pub proof fn lemma_canonical_unambiguous(w: Seq<u8>)
    requires
        !has_ambiguity(w),
    ensures
        !has_ambiguity(canonical_of(w)),
{
    if revcomp_of(w).contains(AMBIGUOUS) {
        let i = choose|i: int| 0 <= i < revcomp_of(w).len() && revcomp_of(w)[i] == AMBIGUOUS;
        lemma_complement_n(w[w.len() - 1 - i]);
        assert(w[w.len() - 1 - i] == AMBIGUOUS);
    }
}

proof fn lemma_kmers_upto_unambiguous(s: Seq<u8>, k: nat, n: nat, key: Seq<u8>)
    requires
        kmers_upto(s, k, n).count(key) > 0,
    ensures
        !has_ambiguity(key),
    decreases n,
{
    if n > 0 {
        let w = window_at(s, k, n - 1);
        if !has_ambiguity(w) && key == canonical_of(w) {
            lemma_canonical_unambiguous(w);
        } else {
            lemma_kmers_upto_unambiguous(s, k, (n - 1) as nat, key);
        }
    }
}

/// No key that a sequence contributes holds the ambiguity symbol.
pub proof fn lemma_no_ambiguous_keys(s: Seq<u8>, k: nat, key: Seq<u8>)
    requires
        kmer_counts(s, k).count(key) > 0,
    ensures
        !has_ambiguity(key),
{
    if s.len() >= k {
        lemma_kmers_upto_unambiguous(s, k, (s.len() - k + 1) as nat, key);
    }
}

/// A sequence shorter than `k` contributes nothing.
pub proof fn lemma_short_sequence_empty(s: Seq<u8>, k: nat)
    requires
        s.len() < k,
    ensures
        kmer_counts(s, k) =~= Multiset::empty(),
        kmer_counts(s, k).len() == 0,
{
}

/// Whether the window `seq[start..start + k]` holds the ambiguity symbol.
pub fn window_has_ambiguity(seq: &[u8], start: usize, k: usize) -> (r: bool)
    requires
        start + k <= seq@.len(),
    ensures
        r == has_ambiguity(seq@.subrange(start as int, start + k)),
{
    let ghost w = seq@.subrange(start as int, start + k);
    let _len = seq.len();
    let mut j: usize = 0;
    while j < k
        invariant
            j <= k,
            start + k <= seq@.len(),
            seq@.len() <= usize::MAX,
            w == seq@.subrange(start as int, start + k),
            forall|l: int| 0 <= l < j ==> w[l] != AMBIGUOUS,
        decreases k - j,
    {
        if seq[start + j] == AMBIGUOUS {
            assert(w[j as int] == AMBIGUOUS);
            return true;
        }
        j = j + 1;
    }
    false
}

/// Counts the canonical k-mers of one sequence into `counter`.
pub fn count_kmer(counter: &mut Counter, k: usize, seq: &[u8])
    requires
        old(counter).wf(),
        k >= 1,
        old(counter)@.len() + seq@.len() <= usize::MAX,
    ensures
        final(counter).wf(),
        final(counter)@ == old(counter)@.add(kmer_counts(seq@, k as nat)),
{
    let ghost c0 = counter@;
    let len = seq.len();
    if len < k {
        assert(counter@ =~= c0.add(kmer_counts(seq@, k as nat)));
        return;
    }
    let n = len - k + 1;
    let mut i: usize = 0;
    assert(counter@ =~= c0.add(kmers_upto(seq@, k as nat, 0)));
    while i < n
        invariant
            len == seq@.len(),
            k >= 1,
            k <= len,
            n == len - k + 1,
            i <= n,
            counter.wf(),
            c0.len() + len <= usize::MAX,
            counter@ == c0.add(kmers_upto(seq@, k as nat, i as nat)),
            counter@.len() <= c0.len() + i,
        decreases n - i,
    {
        let ghost w = window_at(seq@, k as nat, i as int);
        let ghost before = counter@;
        if !window_has_ambiguity(seq, i, k) {
            let key = canonical_window(seq, i, k);
            counter.increment(key);
            assert(counter@ =~= c0.add(kmers_upto(seq@, k as nat, (i + 1) as nat)));
        } else {
            assert(counter@ =~= c0.add(kmers_upto(seq@, k as nat, (i + 1) as nat)));
        }
        i = i + 1;
    }
}

} // verus!
