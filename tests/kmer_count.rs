use kmer_count::complement::{canonical, complement, revcomp};
use kmer_count::counter::Counter;
use kmer_count::engine::{combine, count_record, count_records, count_sequences, try_count_kmer, CountError};
use kmer_count::fasta::{check_record_start, sequence_line};
use kmer_count::histogram::build_histogram;
use kmer_count::kmer::{count_kmer, window_has_ambiguity};

fn counted(k: usize, seq: &[u8]) -> Counter {
    let mut c = Counter::new();
    count_kmer(&mut c, k, seq);
    c
}

fn sorted_entries(c: &Counter) -> Vec<(Vec<u8>, usize)> {
    let mut es = c.entries();
    es.sort();
    es
}

#[test]
fn complement_pairs() {
    let from = b"AGCTYRWSKMDVHBNagctyrwskmdvhbn";
    let to = b"TCGARYWSMKVDBHNtcgarywsmkvdbhn";
    for i in 0..from.len() {
        assert_eq!(complement(from[i]), to[i]);
        assert_eq!(complement(to[i]), from[i]);
    }
}

#[test]
fn complement_other_bytes_unchanged() {
    assert_eq!(complement(b'X'), b'X');
    assert_eq!(complement(b'-'), b'-');
    assert_eq!(complement(0), 0);
    assert_eq!(complement(255), 255);
}

#[test]
fn revcomp_reverses_and_complements() {
    assert_eq!(revcomp(b"ACGTN"), b"NACGT".to_vec());
    assert_eq!(revcomp(b"aacg"), b"cgtt".to_vec());
    assert_eq!(revcomp(b""), Vec::<u8>::new());
}

#[test]
fn canonical_picks_smaller_strand() {
    assert_eq!(canonical(b"A"), b"A".to_vec());
    assert_eq!(canonical(b"T"), b"A".to_vec());
    assert_eq!(canonical(b"G"), b"C".to_vec());
    assert_eq!(canonical(b"TTG"), b"CAA".to_vec());
    assert_eq!(canonical(b"ACGT"), b"ACGT".to_vec());
}

#[test]
fn canonical_symmetric_under_revcomp() {
    for w in [&b"ACGTTGCA"[..], b"GATTACA", b"TTTTT", b"NNACG", b"acgtRY", b"CCGG"] {
        assert_eq!(canonical(w), canonical(&revcomp(w)));
    }
}

#[test]
fn concrete_example_ac() {
    let c = counted(1, b"AC");
    assert_eq!(sorted_entries(&c), vec![(b"A".to_vec(), 1), (b"C".to_vec(), 1)]);
    assert_eq!(c.get(&b"A".to_vec()), 1);
    assert_eq!(c.get(&b"C".to_vec()), 1);
    assert_eq!(c.get(&b"T".to_vec()), 0);
    let h = build_histogram(&c);
    assert_eq!(h.len(), 256);
    for i in 0..256 {
        assert_eq!(h[i], if i == 1 { 2 } else { 0 });
    }
}

#[test]
fn strands_share_a_bucket() {
    let c = counted(3, b"ACGTT");
    // ACG/CGT are one key, CGT/ACG; GTT/AAC is the other.
    assert_eq!(sorted_entries(&c), vec![(b"AAC".to_vec(), 1), (b"ACG".to_vec(), 2)]);
    assert_eq!(c.total(), 3);
}

#[test]
fn ambiguous_windows_skipped() {
    let c = counted(2, b"ANAC");
    assert_eq!(sorted_entries(&c), vec![(b"AC".to_vec(), 1)]);
    assert_eq!(c.get(&b"AN".to_vec()), 0);
    assert_eq!(c.get(&b"NA".to_vec()), 0);
    let c = counted(1, b"NNNN");
    assert!(c.entries().is_empty());
    // only upper-case N is ambiguous
    let c = counted(1, b"n");
    assert_eq!(sorted_entries(&c), vec![(b"n".to_vec(), 1)]);
    assert!(window_has_ambiguity(b"ACN", 1, 2));
    assert!(!window_has_ambiguity(b"ACN", 0, 2));
}

#[test]
fn short_sequence_counts_nothing() {
    let c = counted(31, b"ACGT");
    assert!(c.entries().is_empty());
    assert_eq!(c.total(), 0);
    let c = counted(4, b"");
    assert!(c.entries().is_empty());
}

#[test]
fn whole_sequence_is_one_window() {
    let c = counted(4, b"TTTT");
    assert_eq!(sorted_entries(&c), vec![(b"AAAA".to_vec(), 1)]);
}

#[test]
fn counts_accumulate_in_one_counter() {
    let mut c = Counter::new();
    count_kmer(&mut c, 2, b"AAA");
    count_kmer(&mut c, 2, b"TT");
    assert_eq!(c.get(&b"AA".to_vec()), 3);
    assert_eq!(c.total(), 3);
}

#[test]
fn clamped_into_top_bucket() {
    let seq = vec![b'A'; 300];
    let c = counted(1, &seq);
    assert_eq!(c.get(&b"A".to_vec()), 300);
    let h = build_histogram(&c);
    assert_eq!(h.len(), 256);
    assert_eq!(h[255], 1);
    assert_eq!(h.iter().sum::<usize>(), 1);
}

#[test]
fn histogram_sums_to_distinct_keys() {
    let c = counted(3, b"ACGTTGCANNACGGGTAACCGGTTAAGTC");
    let h = build_histogram(&c);
    assert_eq!(h.iter().sum::<usize>(), c.entries().len());
    let empty = build_histogram(&Counter::new());
    assert!(empty.iter().all(|&x| x == 0));
}

#[test]
fn histogram_buckets_by_count() {
    let mut c = Counter::new();
    count_kmer(&mut c, 1, b"AAAACCG");
    // A:4, C:3 (C and G share a key)
    let h = build_histogram(&c);
    assert_eq!(h[4], 1);
    assert_eq!(h[3], 1);
    assert_eq!(h.iter().sum::<usize>(), 2);
}

#[test]
fn merge_adds_counts() {
    let mut a = counted(1, b"AAC");
    let b = counted(1, b"ACT");
    a.merge(&b);
    assert_eq!(sorted_entries(&a), vec![(b"A".to_vec(), 4), (b"C".to_vec(), 2)]);
    assert_eq!(a.total(), 6);
}

#[test]
fn partition_and_order_do_not_matter() {
    let seqs: Vec<Vec<u8>> = vec![b"ACGTAC".to_vec(), b"GGNCA".to_vec(), b"TTAGC".to_vec(), b"AC".to_vec()];
    let whole = count_sequences(2, &seqs).unwrap();
    let parts: Vec<Result<Counter, CountError>> = seqs.iter().map(|s| count_record(2, Ok(s.clone()))).collect();
    let mut it = parts.into_iter().rev();
    let mut acc = it.next().unwrap();
    for p in it {
        acc = combine(p, acc);
    }
    let reduced = acc.unwrap();
    assert_eq!(sorted_entries(&whole), sorted_entries(&reduced));
    let grouped = combine(
        count_sequences(2, &vec![seqs[3].clone(), seqs[0].clone()]),
        count_sequences(2, &vec![seqs[2].clone(), seqs[1].clone()]),
    )
    .unwrap();
    assert_eq!(sorted_entries(&whole), sorted_entries(&grouped));
}

#[test]
fn records_all_read() {
    let recs: Vec<Result<Vec<u8>, String>> = vec![Ok(b"AC".to_vec()), Ok(b"GT".to_vec())];
    let c = count_records(1, &recs).unwrap();
    assert_eq!(sorted_entries(&c), vec![(b"A".to_vec(), 2), (b"C".to_vec(), 2)]);
}

#[test]
fn read_failure_fails_the_run() {
    let recs: Vec<Result<Vec<u8>, String>> = vec![
        Ok(b"ACGT".to_vec()),
        Err("truncated record".to_string()),
        Ok(b"AC".to_vec()),
        Err("second".to_string()),
    ];
    let r = count_records(1, &recs);
    assert!(matches!(r, Err(CountError::Read(ref m)) if m == "truncated record"));
}

#[test]
fn combine_passes_failures_on() {
    let ok = || count_record(1, Ok(b"A".to_vec()));
    let bad = |m: &str| count_record(1, Err(m.to_string()));
    assert!(matches!(combine(bad("x"), ok()), Err(CountError::Read(ref m)) if m == "x"));
    assert!(matches!(combine(ok(), bad("y")), Err(CountError::Read(ref m)) if m == "y"));
    assert!(matches!(combine(bad("l"), bad("r")), Err(CountError::Read(ref m)) if m == "l"));
    let both = combine(ok(), ok()).unwrap();
    assert_eq!(both.get(&b"A".to_vec()), 2);
}

#[test]
fn try_count_within_range() {
    let mut c = Counter::new();
    assert!(try_count_kmer(&mut c, 2, b"GGG"));
    assert_eq!(sorted_entries(&c), vec![(b"CC".to_vec(), 2)]);
}

#[test]
fn fasta_header_required() {
    assert!(check_record_start(b">seq1\n").is_ok());
    assert_eq!(check_record_start(b"ACGT\n"), Err("Expected > at record start.".to_string()));
    assert!(check_record_start(b"").is_err());
}

#[test]
fn fasta_sequence_lines_trimmed() {
    assert_eq!(sequence_line(b"ACGT\r\n"), Some(b"ACGT".to_vec()));
    assert_eq!(sequence_line(b"AC GT \t\n"), Some(b"AC GT".to_vec()));
    assert_eq!(sequence_line(b"\n"), Some(Vec::new()));
    assert_eq!(sequence_line(b">next\n"), None);
    assert_eq!(sequence_line(b""), None);
}
