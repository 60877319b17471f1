use read_grouper::buf_reader_entry::{buffer_is_sorted, BufReaderEntry};
use read_grouper::data_bucket::{BucketDataRead, BucketDataWrite, DataBucket};
use read_grouper::kmer::Kmer;
use read_grouper::kmer_bucket::KmerBucket;
use read_grouper::kmer_bits::Kmer16;
use read_grouper::kmer_read::KmerRead;
use read_grouper::multi_bucket_reader::MultiBucketReader;
use read_grouper::read_pair_kmer::ReadPairKmer;
use read_grouper::sorting::{dedup_records, sort_records};

fn kr(kmer: u32, id: u32) -> KmerRead<Kmer16> {
    KmerRead::new(Kmer::new(Kmer16(kmer)), id)
}

fn serialize<T: BucketDataWrite>(records: &[T]) -> Vec<u8> {
    let mut bytes = Vec::new();
    for r in records {
        r.write(&mut bytes);
    }
    bytes
}

#[test]
fn kmer_read_serialization_is_little_endian() {
    let mut bytes = Vec::new();
    kr(0x01020304, 0x0A0B0C0D).write(&mut bytes);
    assert_eq!(bytes, vec![0x04, 0x03, 0x02, 0x01, 0x0D, 0x0C, 0x0B, 0x0A]);
}

#[test]
fn kmer_read_round_trip() {
    let rec = kr(0xDEADBEEF, 42);
    let bytes = serialize(&[rec]);
    let back: KmerRead<Kmer16> = KmerRead::read_at(&bytes, 0);
    assert_eq!(back.kmer().bits(), Kmer16(0xDEADBEEF));
    assert_eq!(back.read_id(), 42);
}

#[test]
fn read_pair_kmer_serialization_layout() {
    let k = Kmer::new(Kmer16(0x00000007));
    let rec = ReadPairKmer::new(1, 2, &k);
    let mut bytes = Vec::new();
    rec.write(&mut bytes);
    assert_eq!(
        bytes,
        vec![1, 0, 0, 0, 2, 0, 0, 0, 7, 0, 0, 0]
    );
    let back: ReadPairKmer<Kmer16> = ReadPairKmer::read_at(&bytes, 0);
    assert_eq!(back.read1(), 1);
    assert_eq!(back.read2(), 2);
    assert_eq!(back.kmer().bits(), Kmer16(7));
}

#[test]
fn sort_and_dedup_read_ids() {
    let mut v: Vec<u32> = vec![5, 3, 3, 9, 1, 5];
    sort_records(&mut v);
    assert_eq!(v, vec![1, 3, 3, 5, 5, 9]);
    dedup_records(&mut v);
    assert_eq!(v, vec![1, 3, 5, 9]);
}

#[test]
fn dedup_removes_adjacent_runs_only() {
    let mut v: Vec<u32> = vec![1, 1, 2, 2, 1];
    dedup_records(&mut v);
    assert_eq!(v, vec![1, 2, 1]);
}

// Every spill file holds the records of one full buffer, sorted.
#[test]
fn bucket_spills_sorted_files_with_deterministic_names() {
    let mut bucket: DataBucket<KmerRead<Kmer16>> = DataBucket::new(2, "d", "s", "pairs");
    bucket.add(kr(9, 1));
    bucket.add(kr(7, 2));
    bucket.add(kr(8, 3));
    let filenames = bucket.finish();
    assert_eq!(filenames, vec!["d/s_2_0.pairs".to_string(), "d/s_2_1.pairs".to_string()]);
    let pending = bucket.pending_files();
    assert_eq!(pending.len(), 2);
    assert_eq!(pending[0].filename, "d/s_2_0.pairs");
    assert_eq!(pending[0].bytes, serialize(&[kr(7, 2), kr(9, 1)]));
    assert_eq!(pending[1].filename, "d/s_2_1.pairs");
    assert_eq!(pending[1].bytes, serialize(&[kr(8, 3)]));
}

#[test]
fn empty_bucket_produces_no_file() {
    let mut bucket: DataBucket<KmerRead<Kmer16>> = DataBucket::new(10, "d", "s", "pairs");
    let filenames = bucket.finish();
    assert!(filenames.is_empty());
    assert!(bucket.pending_files().is_empty());
}

#[test]
fn reader_walks_one_bucket() {
    let bytes = serialize(&[kr(7, 1), kr(9, 2)]);
    let mut rdr: BufReaderEntry<KmerRead<Kmer16>> = BufReaderEntry::new(bytes).unwrap();
    assert_eq!(rdr.last_entry_read().kmer().bits(), Kmer16(7));
    assert!(!rdr.read_next_entry_failed());
    assert_eq!(rdr.last_entry_read().read_id(), 2);
    assert!(rdr.read_next_entry_failed());
}

#[test]
fn reader_refuses_empty_bucket() {
    let rdr: Result<BufReaderEntry<KmerRead<Kmer16>>, _> = BufReaderEntry::new(Vec::new());
    assert!(rdr.is_err());
}

// The merge over sorted bucket files yields one globally sorted stream.
#[test]
fn merge_yields_sorted_stream() {
    let b1 = serialize(&[kr(1, 10), kr(5, 11), kr(5, 12)]);
    let b2 = serialize(&[kr(2, 20), kr(5, 11)]);
    let b3 = serialize(&[kr(3, 30)]);
    let buffers = vec![b1, b2, b3];
    let mut merge: MultiBucketReader<KmerRead<Kmer16>> =
        MultiBucketReader::new(&buffers).unwrap();
    let mut seen: Vec<(u32, u32)> = Vec::new();
    while let Some(rec) = merge.next() {
        seen.push((rec.kmer().bits().0, rec.read_id()));
    }
    assert_eq!(
        seen,
        vec![(1, 10), (2, 20), (3, 30), (5, 11), (5, 11), (5, 12)]
    );
}

#[test]
fn kmer_bucket_fills_and_serializes() {
    let mut bucket: KmerBucket<Kmer16> = KmerBucket::new(2, "d", "s");
    assert!(bucket.is_empty());
    assert!(bucket.write_to_disk().is_none());
    bucket.add(kr(9, 1));
    bucket.add(kr(7, 2));
    assert_eq!(bucket.len(), 2);
    assert!(bucket.is_full());
    let (filename, bytes) = bucket.write_to_disk().unwrap();
    assert_eq!(filename, "d/s_2_0.kmer_reads");
    assert_eq!(bytes, serialize(&[kr(7, 2), kr(9, 1)]));
    let next = bucket.next_bucket();
    assert!(next.is_empty());
    assert!(!next.is_full());
}

#[test]
fn buffer_sortedness_is_decided() {
    let sorted_bytes = serialize(&[kr(1, 1), kr(1, 2), kr(5, 0)]);
    assert!(buffer_is_sorted::<KmerRead<Kmer16>>(&sorted_bytes));
    let unsorted_bytes = serialize(&[kr(5, 0), kr(1, 1)]);
    assert!(!buffer_is_sorted::<KmerRead<Kmer16>>(&unsorted_bytes));
    assert!(buffer_is_sorted::<KmerRead<Kmer16>>(&Vec::new()));
}
