//! The k-mer spectrum: for each count from 0 to 255, how many distinct
//! canonical k-mers have that count, counts above 255 falling into the last
//! bucket.
use crate::counter::{keys_before, Counter};
use vstd::multiset::Multiset;
use vstd::prelude::*;

verus! {

/// The number of buckets of a histogram.
pub const BUCKETS: usize = 256;

/// The largest bucket; higher counts are clamped into it.
pub const TOP_BUCKET: usize = 255;

/// The bucket of a count: the count clamped to at most 255.
pub open spec fn bucket_of(c: nat) -> nat {
    if c > TOP_BUCKET {
        TOP_BUCKET as nat
    } else {
        c
    }
}

/// Of a set of keys, those whose count in `m` falls into bucket `b`.
pub open spec fn keys_in_bucket(keys: Set<Seq<u8>>, m: Multiset<Seq<u8>>, b: nat) -> Set<Seq<u8>> {
    keys.filter(|key: Seq<u8>| bucket_of(m.count(key)) == b)
}

/// The histogram of a counter: bucket `b` holds the number of distinct keys
/// whose clamped count is `b`.
pub open spec fn histogram_of(m: Multiset<Seq<u8>>) -> Seq<nat> {
    Seq::new(BUCKETS as nat, |b: int| keys_in_bucket(m.dom(), m, b as nat).len())
}

/// The sum of a list of counts.
pub open spec fn sum_of(s: Seq<usize>) -> int
    decreases s.len(),
{
    if s.len() == 0 {
        0
    } else {
        sum_of(s.drop_last()) + s.last()
    }
}

proof fn lemma_sum_update(s: Seq<usize>, i: int, v: usize)
    requires
        0 <= i < s.len(),
    ensures
        sum_of(s.update(i, v)) == sum_of(s) - s[i] + v,
    decreases s.len(),
{
    if i == s.len() - 1 {
        assert(s.update(i, v).drop_last() =~= s.drop_last());
    } else {
        assert(s.update(i, v).drop_last() =~= s.drop_last().update(i, v));
        lemma_sum_update(s.drop_last(), i, v);
    }
}

/// Builds the histogram of a counter's counts. Every distinct key lands in
/// exactly one bucket, so the buckets add up to the number of distinct keys.
pub fn build_histogram(counter: &Counter) -> (r: Vec<usize>)
    ensures
        r@.len() == BUCKETS,
        forall|b: int| 0 <= b < BUCKETS ==> r@[b] as nat == #[trigger] histogram_of(counter@)[b],
        sum_of(r@) == counter@.dom().len(),
{
    let mut hist: Vec<usize> = Vec::new();
    let mut b: usize = 0;
    while b < BUCKETS
        invariant
            b <= BUCKETS,
            hist@.len() == b,
            forall|j: int| 0 <= j < b ==> hist@[j] == 0,
            sum_of(hist@) == 0,
        decreases BUCKETS - b,
    {
        let ghost prev = hist@;
        hist.push(0);
        assert(hist@.drop_last() =~= prev);
        b = b + 1;
    }
    let ghost m = counter@;
    let es = counter.entries();
    let n = es.len();
    let ghost mut seen: Set<Seq<u8>> = Set::empty();
    assert forall|c: int| 0 <= c < BUCKETS implies #[trigger] hist@[c] as nat == keys_in_bucket(seen, m, c as nat).len() by {
        assert(keys_in_bucket(seen, m, c as nat) =~= Set::empty());
    }
    let mut i: usize = 0;
    while i < n
        invariant
            n == es@.len(),
            i <= n,
            m == counter@,
            hist@.len() == BUCKETS,
            forall|j: int| 0 <= j < es@.len() ==> #[trigger] es@[j].1 > 0 && m.count(es@[j].0@) == es@[j].1 as nat,
            forall|j: int, l: int| 0 <= j < l < es@.len() ==> es@[j].0@ != es@[l].0@,
            seen == keys_before(es@, i as int),
            seen.finite(),
            seen.len() == i,
            forall|c: int| 0 <= c < BUCKETS ==> #[trigger] hist@[c] as nat == keys_in_bucket(seen, m, c as nat).len(),
            forall|c: int| 0 <= c < BUCKETS ==> #[trigger] hist@[c] <= i,
            sum_of(hist@) == i,
        decreases n - i,
    {
        let count = es[i].1;
        let idx: usize = if count > TOP_BUCKET { TOP_BUCKET } else { count };
        let ghost key = es@[i as int].0@;
        assert(!seen.contains(key)) by {
            if seen.contains(key) {
                let j = choose|j: int| 0 <= j < i && #[trigger] es@[j].0@ == key;
                assert(es@[j].0@ == key);
            }
        }
        let ghost old_hist = hist@;
        let ghost old_seen = seen;
        proof {
            seen = seen.insert(key);
            lemma_sum_update(hist@, idx as int, (hist@[idx as int] + 1) as usize);
            assert(seen =~= keys_before(es@, i + 1)) by {
                assert forall|x: Seq<u8>| keys_before(es@, i + 1).contains(x) implies seen.contains(x) by {
                    let j = choose|j: int| 0 <= j < i + 1 && #[trigger] es@[j].0@ == x;
                    if j < i {
                        assert(es@[j].0@ == x);
                    }
                }
                assert forall|x: Seq<u8>| seen.contains(x) implies keys_before(es@, i + 1).contains(x) by {
                    if x == key {
                        assert(es@[i as int].0@ == x);
                    } else {
                        let j = choose|j: int| 0 <= j < i && #[trigger] es@[j].0@ == x;
                        assert(es@[j].0@ == x);
                    }
                }
            }
        }
        hist.set(idx, hist[idx] + 1);
        proof {
            assert forall|c: int| 0 <= c < BUCKETS implies #[trigger] hist@[c] as nat == keys_in_bucket(seen, m, c as nat).len() by {
                if c == idx {
                    assert(keys_in_bucket(seen, m, c as nat) =~= keys_in_bucket(old_seen, m, c as nat).insert(key));
                } else {
                    assert(keys_in_bucket(seen, m, c as nat) =~= keys_in_bucket(old_seen, m, c as nat));
                }
            }
        }
        i = i + 1;
    }
    proof {
        assert(seen =~= m.dom()) by {
            assert forall|x: Seq<u8>| seen.contains(x) implies m.dom().contains(x) by {
                let j = choose|j: int| 0 <= j < n && #[trigger] es@[j].0@ == x;
                assert(es@[j].1 > 0);
            }
        }
        assert forall|b: int| 0 <= b < BUCKETS implies hist@[b] as nat == #[trigger] histogram_of(m)[b] by {
            assert(hist@[b] as nat == keys_in_bucket(seen, m, b as nat).len());
        }
    }
    hist
}

} // verus!
