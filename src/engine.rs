//! Counting a whole stream of sequences: sequentially into one counter, or
//! one counter per sequence combined pairwise in any order, with read
//! failures carried through to the result.
use crate::counter::Counter;
use crate::kmer::{count_kmer, has_ambiguity, kmer_counts, lemma_no_ambiguous_keys};
use vstd::multiset::Multiset;
use vstd::prelude::*;

verus! {

broadcast use vstd::multiset::group_multiset_properties;

/// Why a counting run failed.
#[derive(Debug, PartialEq, Eq)]
pub enum CountError {
    /// The sequence source could not produce a record; the message says why.
    Read(String),
    /// The number of counted k-mers would not fit in a `usize`.
    Overflow,
}

/// The canonical k-mers of a list of sequences, counted one after the other.
pub open spec fn count_all(seqs: Seq<Seq<u8>>, k: nat) -> Multiset<Seq<u8>>
    decreases seqs.len(),
{
    if seqs.len() == 0 {
        Multiset::empty()
    } else {
        count_all(seqs.drop_last(), k).add(kmer_counts(seqs.last(), k))
    }
}

/// Whether the running count stays within `usize` at every sequence.
pub open spec fn counts_fit(seqs: Seq<Seq<u8>>, k: nat) -> bool {
    forall|j: int| 0 <= j < seqs.len() ==> count_all(#[trigger] seqs.take(j), k).len() + seqs[j].len() <= usize::MAX
}

/// The byte sequences held in a list of vectors.
pub open spec fn seqs_of(v: Seq<Vec<u8>>) -> Seq<Seq<u8>> {
    Seq::new(v.len(), |j: int| v[j]@)
}

/// The sequences of a list of records, all of which were read.
pub open spec fn record_seqs(rs: Seq<Result<Vec<u8>, String>>) -> Seq<Seq<u8>> {
    Seq::new(rs.len(), |j: int| rs[j]->Ok_0@)
}

/// Whether `j` is the first record whose read failed.
pub open spec fn first_failure(rs: Seq<Result<Vec<u8>, String>>, j: int) -> bool {
    0 <= j < rs.len() && rs[j] is Err && forall|l: int| 0 <= l < j ==> #[trigger] rs[l] is Ok
}

/// Whether a counting result, where it is a counter, is well formed.
pub open spec fn result_wf(r: Result<Counter, CountError>) -> bool {
    r matches Ok(c) ==> c.wf()
}

proof fn lemma_count_all_take(seqs: Seq<Seq<u8>>, k: nat, i: int)
    requires
        0 <= i < seqs.len(),
    ensures
        count_all(seqs.take(i + 1), k) == count_all(seqs.take(i), k).add(kmer_counts(seqs[i], k)),
{
    assert(seqs.take(i + 1).drop_last() =~= seqs.take(i));
}

/// The counters of each group of sequences, counted on their own and then
/// merged.
pub open spec fn merge_groups(groups: Seq<Seq<Seq<u8>>>, k: nat) -> Multiset<Seq<u8>>
    decreases groups.len(),
{
    if groups.len() == 0 {
        Multiset::empty()
    } else {
        count_all(groups.first(), k).add(merge_groups(groups.drop_first(), k))
    }
}

/// Merging counters is commutative.
pub proof fn lemma_merge_commutative(a: Multiset<Seq<u8>>, b: Multiset<Seq<u8>>)
    ensures
        a.add(b) == b.add(a),
{
    assert(a.add(b) =~= b.add(a));
}

/// Merging counters is associative.
pub proof fn lemma_merge_associative(a: Multiset<Seq<u8>>, b: Multiset<Seq<u8>>, c: Multiset<Seq<u8>>)
    ensures
        a.add(b).add(c) == a.add(b.add(c)),
{
    assert(a.add(b).add(c) =~= a.add(b.add(c)));
}

/// Counting two lists one after the other equals counting each and merging.
pub proof fn lemma_count_all_append(s1: Seq<Seq<u8>>, s2: Seq<Seq<u8>>, k: nat)
    ensures
        count_all(s1 + s2, k) == count_all(s1, k).add(count_all(s2, k)),
    decreases s2.len(),
{
    if s2.len() == 0 {
        assert(s1 + s2 =~= s1);
        assert(count_all(s1, k).add(Multiset::empty()) =~= count_all(s1, k));
    } else {
        assert((s1 + s2).drop_last() =~= s1 + s2.drop_last());
        lemma_count_all_append(s1, s2.drop_last(), k);
        assert(count_all(s1 + s2, k) =~= count_all(s1, k).add(count_all(s2, k)));
    }
}

/// The counts of a list of sequences do not depend on the order of the list.
pub proof fn lemma_count_all_reorder(s1: Seq<Seq<u8>>, s2: Seq<Seq<u8>>, k: nat)
    requires
        s1.to_multiset() == s2.to_multiset(),
    ensures
        count_all(s1, k) == count_all(s2, k),
    decreases s1.len(),
{
    broadcast use vstd::seq_lib::group_to_multiset_ensures;

    if s1.len() == 0 {
        assert(s2.to_multiset().len() == 0);
        assert(s2 =~= Seq::<Seq<u8>>::empty());
    } else {
        let x = s1.last();
        let rest = s1.drop_last();
        assert(s1 =~= rest.push(x));
        assert(s2.to_multiset().count(x) > 0);
        assert(s2.contains(x));
        let j = choose|j: int| 0 <= j < s2.len() && s2[j] == x;
        let s2r = s2.remove(j);
        assert(rest.to_multiset() =~= s1.to_multiset().remove(x));
        assert(s2r.to_multiset() =~= s2.to_multiset().remove(x));
        lemma_count_all_reorder(rest, s2r, k);
        let pre = s2.take(j);
        let post = s2.skip(j + 1);
        assert(s2r =~= pre + post);
        assert(s2 =~= (pre.push(x)) + post);
        lemma_count_all_append(pre, post, k);
        lemma_count_all_append(pre.push(x), post, k);
        assert(pre.push(x).drop_last() =~= pre);
        assert(count_all(s1, k) =~= count_all(s2, k));
    }
}

/// Splitting a stream into groups, counting each group on its own and merging
/// the group counters gives the counts of the whole stream, however the
/// sequences were split and ordered.
pub proof fn lemma_partition_independent(groups: Seq<Seq<Seq<u8>>>, seqs: Seq<Seq<u8>>, k: nat)
    requires
        groups.flatten().to_multiset() == seqs.to_multiset(),
    ensures
        merge_groups(groups, k) == count_all(seqs, k),
{
    lemma_merge_groups_flatten(groups, k);
    lemma_count_all_reorder(groups.flatten(), seqs, k);
}

proof fn lemma_merge_groups_flatten(groups: Seq<Seq<Seq<u8>>>, k: nat)
    ensures
        merge_groups(groups, k) == count_all(groups.flatten(), k),
    decreases groups.len(),
{
    if groups.len() == 0 {
        assert(count_all(groups.flatten(), k) =~= Multiset::empty());
    } else {
        lemma_merge_groups_flatten(groups.drop_first(), k);
        lemma_count_all_append(groups.first(), groups.drop_first().flatten(), k);
    }
}

/// No key of the counts of a stream holds the ambiguity symbol.
pub proof fn lemma_stream_keys_unambiguous(seqs: Seq<Seq<u8>>, k: nat, key: Seq<u8>)
    requires
        count_all(seqs, k).count(key) > 0,
    ensures
        !has_ambiguity(key),
    decreases seqs.len(),
{
    if kmer_counts(seqs.last(), k).count(key) > 0 {
        lemma_no_ambiguous_keys(seqs.last(), k, key);
    } else {
        lemma_stream_keys_unambiguous(seqs.drop_last(), k, key);
    }
}

/// Counts one sequence into `counter` where the count stays within `usize`;
/// otherwise leaves `counter` as it is and says so.
pub fn try_count_kmer(counter: &mut Counter, k: usize, seq: &[u8]) -> (ok: bool)
    requires
        old(counter).wf(),
        k >= 1,
    ensures
        final(counter).wf(),
        ok == (old(counter)@.len() + seq@.len() <= usize::MAX),
        ok ==> final(counter)@ == old(counter)@.add(kmer_counts(seq@, k as nat)),
        !ok ==> final(counter)@ == old(counter)@,
{
    if counter.total() > usize::MAX - seq.len() {
        return false;
    }
    count_kmer(counter, k, seq);
    true
}

/// Counts every sequence, one after the other, into one counter.
pub fn count_sequences(k: usize, seqs: &Vec<Vec<u8>>) -> (r: Result<Counter, CountError>)
    requires
        k >= 1,
    ensures
        result_wf(r),
        r is Ok <==> counts_fit(seqs_of(seqs@), k as nat),
        r matches Ok(c) ==> c@ == count_all(seqs_of(seqs@), k as nat),
        r is Err ==> r == Err::<Counter, CountError>(CountError::Overflow),
{
    let ghost s = seqs_of(seqs@);
    let mut counter = Counter::new();
    let n = seqs.len();
    let mut i: usize = 0;
    assert(s.take(0) =~= Seq::<Seq<u8>>::empty());
    while i < n
        invariant
            k >= 1,
            n == seqs@.len(),
            s == seqs_of(seqs@),
            i <= n,
            counter.wf(),
            counter@ == count_all(s.take(i as int), k as nat),
            forall|j: int| 0 <= j < i ==> count_all(#[trigger] s.take(j), k as nat).len() + s[j].len() <= usize::MAX,
        decreases n - i,
    {
        proof {
            lemma_count_all_take(s, k as nat, i as int);
        }
        if !try_count_kmer(&mut counter, k, &seqs[i]) {
            return Err(CountError::Overflow);
        }
        i = i + 1;
    }
    assert(s.take(n as int) =~= s);
    Ok(counter)
}

/// Counts a stream of records. A failed read anywhere fails the whole run
/// with the first failure, and no counts are returned.
pub fn count_records(k: usize, records: &Vec<Result<Vec<u8>, String>>) -> (r: Result<Counter, CountError>)
    requires
        k >= 1,
    ensures
        result_wf(r),
        forall|j: int| first_failure(records@, j) ==> r == Err::<Counter, CountError>(CountError::Read(records@[j]->Err_0)),
        (forall|j: int| 0 <= j < records@.len() ==> #[trigger] records@[j] is Ok) ==> {
            &&& (r is Ok <==> counts_fit(record_seqs(records@), k as nat))
            &&& (r matches Ok(c) ==> c@ == count_all(record_seqs(records@), k as nat))
            &&& (r is Err ==> r == Err::<Counter, CountError>(CountError::Overflow))
        },
{
    let n = records.len();
    let mut i: usize = 0;
    while i < n
        invariant
            n == records@.len(),
            i <= n,
            forall|l: int| 0 <= l < i ==> #[trigger] records@[l] is Ok,
        decreases n - i,
    {
        match &records[i] {
            Err(e) => {
                proof {
                    assert forall|j: int| first_failure(records@, j) implies j == i by {
                        if j < i {
                            assert(records@[j] is Ok);
                        } else if j > i {
                            assert(records@[i as int] is Ok);
                        }
                    }
                }
                return Err(CountError::Read(e.clone()));
            },
            Ok(_) => {},
        }
        i = i + 1;
    }
    let ghost s = record_seqs(records@);
    let mut counter = Counter::new();
    let mut i: usize = 0;
    assert(s.take(0) =~= Seq::<Seq<u8>>::empty());
    while i < n
        invariant
            k >= 1,
            n == records@.len(),
            s == record_seqs(records@),
            forall|l: int| 0 <= l < n ==> #[trigger] records@[l] is Ok,
            i <= n,
            counter.wf(),
            counter@ == count_all(s.take(i as int), k as nat),
            forall|j: int| 0 <= j < i ==> count_all(#[trigger] s.take(j), k as nat).len() + s[j].len() <= usize::MAX,
        decreases n - i,
    {
        proof {
            lemma_count_all_take(s, k as nat, i as int);
            assert(records@[i as int] is Ok);
        }
        match &records[i] {
            Ok(seq) => {
                if !try_count_kmer(&mut counter, k, seq) {
                    return Err(CountError::Overflow);
                }
            },
            Err(_) => {},
        }
        i = i + 1;
    }
    assert(s.take(n as int) =~= s);
    Ok(counter)
}

/// Counts one record on its own: the counter of its sequence, or the read failure.
pub fn count_record(k: usize, record: Result<Vec<u8>, String>) -> (r: Result<Counter, CountError>)
    requires
        k >= 1,
    ensures
        result_wf(r),
        record matches Ok(seq) ==> (r matches Ok(c) && c@ == kmer_counts(seq@, k as nat)),
        record matches Err(e) ==> r == Err::<Counter, CountError>(CountError::Read(e)),
{
    match record {
        Ok(seq) => {
            let mut counter = Counter::new();
            let _len = seq.len();
            count_kmer(&mut counter, k, &seq);
            assert(counter@ =~= kmer_counts(seq@, k as nat));
            Ok(counter)
        },
        Err(e) => Err(CountError::Read(e)),
    }
}

/// Combines two partial results: two counters are merged, key by key; a
/// failure on either side is passed on, the left one first.
pub fn combine(a: Result<Counter, CountError>, b: Result<Counter, CountError>) -> (r: Result<Counter, CountError>)
    requires
        result_wf(a),
        result_wf(b),
    ensures
        result_wf(r),
        a matches Err(e) ==> r == Err::<Counter, CountError>(e),
        (a is Ok && b is Err) ==> r == Err::<Counter, CountError>(b->Err_0),
        (a is Ok && b is Ok) ==> {
            &&& (r is Ok <==> a->Ok_0@.len() + b->Ok_0@.len() <= usize::MAX)
            &&& (r matches Ok(c) ==> c@ == a->Ok_0@.add(b->Ok_0@))
            &&& (r is Err ==> r == Err::<Counter, CountError>(CountError::Overflow))
        },
{
    match a {
        Err(e) => Err(e),
        Ok(mut ca) => match b {
            Err(e) => Err(e),
            Ok(cb) => {
                if ca.total() > usize::MAX - cb.total() {
                    Err(CountError::Overflow)
                } else {
                    ca.merge(&cb);
                    Ok(ca)
                }
            },
        },
    }
}

} // verus!
