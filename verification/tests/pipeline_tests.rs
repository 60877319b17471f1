use read_grouper::bucket_list::BucketList;
use read_grouper::data_bucket::BucketDataWrite;
use read_grouper::kmer::Kmer;
use read_grouper::kmer_bits::Kmer16;
use read_grouper::kmer_read::KmerRead;
use read_grouper::min_max_reads::MinMaxReads;
use read_grouper::read_grouper::{DecodedRead, Histogram, ReadGrouper};
use read_grouper::GrouperError;

fn kr(kmer: u32, id: u32) -> KmerRead<Kmer16> {
    KmerRead::new(Kmer::new(Kmer16(kmer)), id)
}

fn serialize(records: &[KmerRead<Kmer16>]) -> Vec<u8> {
    let mut bytes = Vec::new();
    for r in records {
        r.write(&mut bytes);
    }
    bytes
}

fn parse_pairs(bytes: &[u8]) -> Vec<(u32, u32, u32)> {
    let mut out = Vec::new();
    let mut pos = 0;
    while pos + 12 <= bytes.len() {
        let r1 = u32::from_le_bytes(bytes[pos..pos + 4].try_into().unwrap());
        let r2 = u32::from_le_bytes(bytes[pos + 4..pos + 8].try_into().unwrap());
        let k = u32::from_le_bytes(bytes[pos + 8..pos + 12].try_into().unwrap());
        out.push((r1, r2, k));
        pos += 12;
    }
    out
}

#[test]
fn min_max_clamps_min_to_two() {
    let mm = MinMaxReads::new(1, 10);
    assert!(!mm.is_valid(1));
    assert!(mm.is_valid(2));
    assert!(mm.is_valid(10));
    assert!(!mm.is_valid(11));
    let d = MinMaxReads::default();
    assert!(!d.is_valid(1));
    assert!(d.is_valid(2));
}

#[test]
fn histogram_counts_and_totals() {
    let mut h = Histogram::new();
    h.bump(3);
    h.bump(2);
    h.bump(3);
    h.bump(0);
    assert_eq!(h.get(3), 2);
    assert_eq!(h.get(2), 1);
    assert_eq!(h.get(0), 1);
    assert_eq!(h.get(7), 0);
    assert_eq!(h.total(), 4);
    h.remove_zero();
    assert_eq!(h.get(0), 0);
    assert_eq!(h.get(3), 2);
    assert_eq!(h.total(), 3);
}

#[test]
fn bucket_list_getters() {
    let bl = BucketList::new("s".to_string(), vec!["a".to_string()], 7);
    assert_eq!(bl.sample_name(), "s");
    assert_eq!(bl.number_of_reads(), 7);
    assert_eq!(bl.filenames(), &vec!["a".to_string()]);
}

#[test]
fn phase1_buckets_one_read() {
    let grouper: ReadGrouper<Kmer16> = ReadGrouper::new("bucketdir");
    let seq = b"ACGTACGTACGTGTACACGTACGTACGTGTAC".to_vec();
    let qual = vec![40u8; 32];
    let reads = vec![DecodedRead::new(seq, qual)];
    let (bucket_list, bucket) = grouper.read_decoded_reads("s", &reads);
    assert_eq!(bucket_list.sample_name(), "s");
    assert_eq!(bucket_list.number_of_reads(), 1);
    assert_eq!(
        bucket_list.filenames(),
        &vec!["bucketdir/s_1000000_0.pairs".to_string()]
    );
    let pending = bucket.pending_files();
    assert_eq!(pending.len(), 1);
    // the 9 canonical k-mers of the read, each with read id 0, sorted
    let expected: Vec<KmerRead<Kmer16>> = [
        296858043u32, 454761393, 454799643, 1187432172, 1819045572, 1819198572, 1858366572,
        2981214993, 2981826993,
    ]
    .into_iter()
    .map(|w| kr(w, 0))
    .collect();
    assert_eq!(pending[0].bytes, serialize(&expected));
}

// E6: re-running phase 1 on the same input produces the same file names with
// byte-identical content.
#[test]
fn phase1_rerun_is_byte_identical() {
    let grouper: ReadGrouper<Kmer16> = ReadGrouper::new("bucketdir");
    let make_reads = || {
        vec![
            DecodedRead::new(b"ACGTACGTACGTGTACACGTACGTACGTGTAC".to_vec(), vec![40u8; 32]),
            DecodedRead::new(b"TTTTACGTACGTGTACACGTACGTACGTAAAA".to_vec(), vec![40u8; 32]),
        ]
    };
    let (list_a, bucket_a) = grouper.read_decoded_reads("s", &make_reads());
    let (list_b, bucket_b) = grouper.read_decoded_reads("s", &make_reads());
    assert_eq!(list_a.filenames(), list_b.filenames());
    let pa = bucket_a.pending_files();
    let pb = bucket_b.pending_files();
    assert_eq!(pa.len(), pb.len());
    for (fa, fb) in pa.iter().zip(pb.iter()) {
        assert_eq!(fa.filename, fb.filename);
        assert_eq!(fa.bytes, fb.bytes);
    }
}

// E4: grouping the merged stream (k=7,r=1),(k=7,r=1),(k=7,r=3),(k=7,r=5),
// (k=9,r=2),(k=9,r=4) under min 2, max 50.
#[test]
fn phase2_groups_and_pairs() {
    let grouper: ReadGrouper<Kmer16> = ReadGrouper::new("dir");
    let b1 = serialize(&[kr(7, 1), kr(7, 3), kr(9, 2)]);
    let b2 = serialize(&[kr(7, 1), kr(7, 5), kr(9, 4)]);
    let buffers = vec![b1, b2];
    let bucket_list = BucketList::new("sample".to_string(), Vec::new(), 6);
    let mm = MinMaxReads::new(2, 50);
    let (out_list, hist, out_bucket) = grouper
        .process_read_kmer_buckets(&bucket_list, &buffers, &mm)
        .unwrap();
    assert_eq!(out_list.sample_name(), "sample");
    assert_eq!(out_list.number_of_reads(), 0);
    assert_eq!(
        out_list.filenames(),
        &vec!["dir/sample_1000000_0.read_pairs".to_string()]
    );
    let pending = out_bucket.pending_files();
    assert_eq!(pending.len(), 1);
    // for k=7 the deduplicated reads {1,3,5} give three pairs, for k=9 the
    // reads {2,4} give one; the spill file is sorted by (read1, read2, k-mer)
    assert_eq!(
        parse_pairs(&pending[0].bytes),
        vec![(1, 3, 7), (1, 5, 7), (2, 4, 9), (3, 5, 7)]
    );
    // the k=7 group holds four records before deduplication, the k=9 group two
    assert_eq!(hist.get(4), 1);
    assert_eq!(hist.get(2), 1);
    assert_eq!(hist.get(0), 0);
    // the histogram totals the number of distinct k-mers
    assert_eq!(hist.total(), 2);
}

// E5: with the minimum clamped to 2, a group of one read emits no pairs.
#[test]
fn phase2_min_floor_drops_singletons() {
    let grouper: ReadGrouper<Kmer16> = ReadGrouper::new("dir");
    let buffers = vec![serialize(&[kr(7, 1), kr(9, 2)]), serialize(&[kr(9, 4)])];
    let bucket_list = BucketList::new("sample".to_string(), Vec::new(), 0);
    let mm = MinMaxReads::new(1, 10);
    let (_, hist, out_bucket) = grouper
        .process_read_kmer_buckets(&bucket_list, &buffers, &mm)
        .unwrap();
    let pending = out_bucket.pending_files();
    assert_eq!(pending.len(), 1);
    // only the k=9 group of two reads qualifies
    assert_eq!(parse_pairs(&pending[0].bytes), vec![(2, 4, 9)]);
    assert_eq!(hist.get(1), 1);
    assert_eq!(hist.get(2), 1);
    assert_eq!(hist.total(), 2);
}

// A group larger than the maximum is counted but contributes no pairs.
#[test]
fn phase2_max_cap_drops_large_groups() {
    let grouper: ReadGrouper<Kmer16> = ReadGrouper::new("dir");
    let buffers = vec![serialize(&[kr(7, 1), kr(7, 2), kr(7, 3), kr(9, 8), kr(9, 9)])];
    let bucket_list = BucketList::new("sample".to_string(), Vec::new(), 0);
    let mm = MinMaxReads::new(2, 2);
    let (_, hist, out_bucket) = grouper
        .process_read_kmer_buckets(&bucket_list, &buffers, &mm)
        .unwrap();
    let pending = out_bucket.pending_files();
    assert_eq!(pending.len(), 1);
    assert_eq!(parse_pairs(&pending[0].bytes), vec![(8, 9, 9)]);
    assert_eq!(hist.get(3), 1);
    assert_eq!(hist.get(2), 1);
}

// An empty phase-1 bucket file fails phase 2.
#[test]
fn phase2_rejects_empty_bucket_file() {
    let grouper: ReadGrouper<Kmer16> = ReadGrouper::new("dir");
    let buffers = vec![serialize(&[kr(7, 1)]), Vec::new()];
    let bucket_list = BucketList::new("sample".to_string(), Vec::new(), 0);
    let mm = MinMaxReads::new(2, 50);
    let r = grouper.process_read_kmer_buckets(&bucket_list, &buffers, &mm);
    assert_eq!(r.err().unwrap(), GrouperError::EmptyBucket);
}

// An empty set of buckets gives an empty histogram and no output files.
#[test]
fn phase2_of_nothing_is_empty() {
    let grouper: ReadGrouper<Kmer16> = ReadGrouper::new("dir");
    let buffers: Vec<Vec<u8>> = Vec::new();
    let bucket_list = BucketList::new("sample".to_string(), Vec::new(), 0);
    let mm = MinMaxReads::new(2, 50);
    let (out_list, hist, out_bucket) = grouper
        .process_read_kmer_buckets(&bucket_list, &buffers, &mm)
        .unwrap();
    assert!(out_list.filenames().is_empty());
    assert_eq!(hist.total(), 0);
    assert!(out_bucket.pending_files().is_empty());
}

// Phase 2 re-run over the same buffers produces byte-identical files.
#[test]
fn phase2_rerun_is_byte_identical() {
    let grouper: ReadGrouper<Kmer16> = ReadGrouper::new("dir");
    let buffers = vec![serialize(&[kr(7, 1), kr(7, 3), kr(9, 2)])];
    let bucket_list = BucketList::new("sample".to_string(), Vec::new(), 0);
    let mm = MinMaxReads::new(2, 50);
    let (_, _, bucket_a) = grouper
        .process_read_kmer_buckets(&bucket_list, &buffers, &mm)
        .unwrap();
    let (_, _, bucket_b) = grouper
        .process_read_kmer_buckets(&bucket_list, &buffers, &mm)
        .unwrap();
    let pa = bucket_a.pending_files();
    let pb = bucket_b.pending_files();
    assert_eq!(pa.len(), pb.len());
    for (fa, fb) in pa.iter().zip(pb.iter()) {
        assert_eq!(fa.filename, fb.filename);
        assert_eq!(fa.bytes, fb.bytes);
    }
}

// Reads shorter than K are counted but contribute no records, so an input of
// only short reads produces no bucket files at all.
#[test]
fn phase1_short_reads_leave_no_files() {
    let grouper: ReadGrouper<Kmer16> = ReadGrouper::new("bucketdir");
    let reads = vec![
        DecodedRead::new(b"ACGT".to_vec(), vec![40u8; 4]),
        DecodedRead::new(b"ACG".to_vec(), vec![40u8; 3]),
    ];
    let (bucket_list, bucket) = grouper.read_decoded_reads("s", &reads);
    assert_eq!(bucket_list.number_of_reads(), 2);
    assert!(bucket_list.filenames().is_empty());
    assert!(bucket.pending_files().is_empty());
}

// Read ids are assigned by ingestion order starting at 0.
#[test]
fn phase1_assigns_read_ids_in_order() {
    let grouper: ReadGrouper<Kmer16> = ReadGrouper::new("bucketdir");
    let reads = vec![
        DecodedRead::new(b"ACGTACGTACGTGTAC".to_vec(), vec![40u8; 16]),
        DecodedRead::new(b"ACGTACGTACGTGTAC".to_vec(), vec![40u8; 16]),
    ];
    let (bucket_list, bucket) = grouper.read_decoded_reads("s", &reads);
    assert_eq!(bucket_list.number_of_reads(), 2);
    let pending = bucket.pending_files();
    assert_eq!(pending.len(), 1);
    // one identical canonical k-mer per read, so the file holds the same
    // k-mer under read ids 0 and 1
    let first = Kmer16(0x1B1B1BB1);
    let rc = {
        let mut g = ((first.0 & 0x33333333) << 2) | ((first.0 & 0xCCCCCCCC) >> 2);
        g = ((g & 0x0F0F0F0F) << 4) | ((g & 0xF0F0F0F0) >> 4);
        Kmer16(!g.swap_bytes())
    };
    let w = if rc.0 < first.0 { rc } else { first };
    assert_eq!(pending[0].bytes, serialize(&[kr(w.0, 0), kr(w.0, 1)]));
}
