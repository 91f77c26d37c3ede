use samplesort::error::SortError;
use samplesort::order::{key_of, record_is_nan, sort_records_in_place};
use samplesort::pivot::{find_pivots, pivots_from_sample, sample, PivotVector};
use samplesort::record::{encode_records, encode_u64, read_item, read_size, RecordStore};
use samplesort::worker::{worker_bucket, SizeTable};

fn file_of(values: &[f32]) -> Vec<u8> {
    let mut f = (values.len() as u64).to_le_bytes().to_vec();
    for v in values {
        f.extend_from_slice(&v.to_le_bytes());
    }
    f
}

fn values_of(output: &[u8]) -> Vec<f32> {
    output[8..]
        .chunks(4)
        .map(|c| f32::from_le_bytes([c[0], c[1], c[2], c[3]]))
        .collect()
}

/// Runs every worker one after the other, as the threads would, and returns
/// the output file together with the byte range that each worker wrote.
fn run(store: &RecordStore, pivots: &PivotVector) -> (Vec<u8>, Vec<(u64, u64)>) {
    let threads = pivots.threads();
    let mut out = store.output_header();
    out.resize(store.output_len() as usize, 0xAA);
    let mut table = SizeTable::new(threads);
    let mut buckets = Vec::new();
    for tid in 0..threads {
        let data = worker_bucket(store, pivots, tid);
        assert_eq!(table.write_offset(tid), Err(SortError::InvalidInput));
        table.publish(tid, data.len() as u64).unwrap();
        buckets.push(data);
    }
    assert!(table.is_complete());
    let mut ranges = Vec::new();
    for tid in 0..threads {
        let start = table.write_offset(tid).unwrap();
        let bytes = encode_records(&buckets[tid]);
        let s = start as usize;
        out[s..s + bytes.len()].copy_from_slice(&bytes);
        ranges.push((start, start + bytes.len() as u64));
    }
    (out, ranges)
}

fn sorted_copy(values: &[f32]) -> Vec<f32> {
    let mut v = values.to_vec();
    v.sort_by(|a, b| a.total_cmp(b));
    v
}

#[test]
fn read_size_decodes_little_endian_count() {
    let f = vec![0x04, 0x03, 0x02, 0x01, 0, 0, 0, 0x10, 0xff];
    assert_eq!(read_size(&f), Ok(0x1000_0000_0102_0304));
}

#[test]
fn read_size_rejects_short_header() {
    assert_eq!(read_size(&[1, 2, 3, 4, 5, 6, 7]), Err(SortError::IoError));
    assert_eq!(read_size(&[]), Err(SortError::IoError));
}

#[test]
fn read_item_reads_records_and_rejects_bad_indices() {
    let f = file_of(&[1.5, -2.0, 7.25]);
    assert_eq!(read_item(&f, 0), Ok(1.5f32.to_bits()));
    assert_eq!(read_item(&f, 1), Ok((-2.0f32).to_bits()));
    assert_eq!(read_item(&f, 2), Ok(7.25f32.to_bits()));
    assert_eq!(read_item(&f, 3), Err(SortError::OutOfRange));
    assert_eq!(read_item(&f[..5], 0), Err(SortError::IoError));
    assert_eq!(read_item(&f[..18], 2), Err(SortError::IoError));
    assert_eq!(read_item(&f[..18], 1), Ok((-2.0f32).to_bits()));
}

#[test]
fn open_rejects_short_truncated_and_empty_files() {
    assert!(matches!(RecordStore::open(vec![0u8; 7]), Err(SortError::IoError)));
    let mut f = file_of(&[1.0, 2.0]);
    f.pop();
    assert!(matches!(RecordStore::open(f), Err(SortError::IoError)));
    assert!(matches!(RecordStore::open(file_of(&[])), Err(SortError::InvalidInput)));
}

#[test]
fn nan_input_fails_with_numeric_order() {
    let f = file_of(&[1.0, f32::NAN, 0.5]);
    assert!(matches!(RecordStore::open(f), Err(SortError::NumericOrder)));
    let f = file_of(&[-f32::NAN]);
    assert!(matches!(RecordStore::open(f), Err(SortError::NumericOrder)));
}

#[test]
fn open_keeps_size_and_records() {
    let store = RecordStore::open(file_of(&[3.0, -1.0])).unwrap();
    assert_eq!(store.size(), 2);
    assert_eq!(store.item(0), 3.0f32.to_bits());
    assert_eq!(store.item(1), (-1.0f32).to_bits());
    assert_eq!(store.output_len(), 16);
}

#[test]
fn output_header_keeps_record_count() {
    let values = [1.0f32, 2.0, 3.0, 4.0, 5.0];
    let store = RecordStore::open(file_of(&values)).unwrap();
    let header = store.output_header();
    assert_eq!(header, 5u64.to_le_bytes().to_vec());
    assert_eq!(read_size(&header), Ok(5));
    assert_eq!(encode_u64(0x0102_0304_0506_0708), vec![8, 7, 6, 5, 4, 3, 2, 1]);
}

#[test]
fn encode_records_writes_little_endian() {
    let data = vec![0x1122_3344u32, 1.0f32.to_bits()];
    assert_eq!(encode_records(&data), vec![0x44, 0x33, 0x22, 0x11, 0, 0, 0x80, 0x3f]);
    assert_eq!(encode_records(&Vec::new()), Vec::<u8>::new());
}

#[test]
fn order_key_follows_numeric_order() {
    let ordered = [
        f32::NEG_INFINITY,
        -3.5,
        -1.0,
        -f32::MIN_POSITIVE,
        -0.0,
        0.0,
        f32::MIN_POSITIVE,
        0.5,
        2.0,
        f32::MAX,
        f32::INFINITY,
    ];
    for w in ordered.windows(2) {
        assert!(key_of(w[0].to_bits()) < key_of(w[1].to_bits()), "{} {}", w[0], w[1]);
    }
    assert_eq!(key_of(0.0f32.to_bits()), 0x8000_0000);
    assert_eq!(key_of((-0.0f32).to_bits()), 0x7fff_ffff);
}

#[test]
fn nan_patterns_are_recognised() {
    assert!(record_is_nan(f32::NAN.to_bits()));
    assert!(record_is_nan(0xffc0_0001));
    assert!(record_is_nan(0x7f80_0001));
    assert!(!record_is_nan(f32::INFINITY.to_bits()));
    assert!(!record_is_nan(f32::NEG_INFINITY.to_bits()));
    assert!(!record_is_nan(1.0f32.to_bits()));
}

#[test]
fn sort_orders_records_by_value() {
    let values = [2.0f32, -7.5, 0.0, f32::INFINITY, -0.0, 1.25];
    let mut v: Vec<u32> = values.iter().map(|x| x.to_bits()).collect();
    sort_records_in_place(&mut v);
    let got: Vec<u32> = v;
    let want: Vec<u32> = [-7.5f32, -0.0, 0.0, 1.25, 2.0, f32::INFINITY]
        .iter()
        .map(|x| x.to_bits())
        .collect();
    assert_eq!(got, want);
}

#[test]
fn pivots_from_sample_rejects_bad_arguments() {
    assert!(matches!(pivots_from_sample(&vec![], 0), Err(SortError::InvalidInput)));
    assert!(matches!(pivots_from_sample(&vec![1, 2], 2), Err(SortError::InvalidInput)));
    assert!(matches!(pivots_from_sample(&vec![], 2), Err(SortError::InvalidInput)));
    let s = vec![1.0f32.to_bits(), f32::NAN.to_bits(), 2.0f32.to_bits()];
    assert!(matches!(pivots_from_sample(&s, 2), Err(SortError::NumericOrder)));
}

#[test]
fn pivots_take_every_third_sorted_sample() {
    let sample: Vec<u32> = [9.0f32, 1.0, 5.0, 3.0, 7.0, 2.0, 8.0, 4.0, 6.0]
        .iter()
        .map(|x| x.to_bits())
        .collect();
    let p = pivots_from_sample(&sample, 4).unwrap();
    assert_eq!(p.threads(), 4);
    let bounds: Vec<u64> = (0..5).map(|i| p.bound(i)).collect();
    assert_eq!(
        bounds,
        vec![
            0,
            key_of(1.0f32.to_bits()) as u64,
            key_of(4.0f32.to_bits()) as u64,
            key_of(7.0f32.to_bits()) as u64,
            0x1_0000_0000,
        ]
    );
}

#[test]
fn single_worker_pivots_cover_everything() {
    let p = pivots_from_sample(&vec![], 1).unwrap();
    assert_eq!(p.threads(), 1);
    assert_eq!(p.bound(0), 0);
    assert_eq!(p.bound(1), 0x1_0000_0000);
}

#[test]
fn worker_keeps_its_bucket_sorted() {
    let values = [5.0f32, -1.0, 3.0, 0.5, 4.0, 2.0];
    let store = RecordStore::open(file_of(&values)).unwrap();
    let sample: Vec<u32> = [3.0f32, 9.0, 9.0].iter().map(|x| x.to_bits()).collect();
    let p = pivots_from_sample(&sample, 2).unwrap();
    let low: Vec<u32> = [-1.0f32, 0.5, 2.0].iter().map(|x| x.to_bits()).collect();
    let high: Vec<u32> = [3.0f32, 4.0, 5.0].iter().map(|x| x.to_bits()).collect();
    assert_eq!(worker_bucket(&store, &p, 0), low);
    assert_eq!(worker_bucket(&store, &p, 1), high);
}

#[test]
fn size_table_publishes_once_and_sums_counts() {
    let mut t = SizeTable::new(3);
    assert!(!t.is_complete());
    assert_eq!(t.publish(3, 1), Err(SortError::InvalidInput));
    assert_eq!(t.publish(1, 5), Ok(()));
    assert_eq!(t.publish(1, 6), Err(SortError::InvalidInput));
    assert_eq!(t.write_offset(0), Err(SortError::InvalidInput));
    assert_eq!(t.publish(0, 2), Ok(()));
    assert_eq!(t.publish(2, 0), Ok(()));
    assert!(t.is_complete());
    assert_eq!(t.write_offset(0), Ok(8));
    assert_eq!(t.write_offset(1), Ok(16));
    assert_eq!(t.write_offset(2), Ok(36));
    assert_eq!(t.write_offset(3), Err(SortError::InvalidInput));
}

#[test]
fn size_table_reports_offset_overflow() {
    let mut t = SizeTable::new(2);
    t.publish(0, u64::MAX / 4).unwrap();
    t.publish(1, 1).unwrap();
    assert_eq!(t.write_offset(0), Ok(8));
    assert_eq!(t.write_offset(1), Err(SortError::OutOfRange));
}

#[test]
fn four_values_two_workers_any_sample() {
    let values = [3.5f32, 1.0, 2.0, 0.5];
    let store = RecordStore::open(file_of(&values)).unwrap();
    let bits: Vec<u32> = values.iter().map(|x| x.to_bits()).collect();
    for a in &bits {
        for b in &bits {
            for c in &bits {
                let p = pivots_from_sample(&vec![*a, *b, *c], 2).unwrap();
                let (out, _) = run(&store, &p);
                assert_eq!(read_size(&out), Ok(4));
                assert_eq!(values_of(&out), vec![0.5, 1.0, 2.0, 3.5]);
            }
        }
    }
}

#[test]
fn empty_bucket_worker_writes_nothing() {
    let values = [1.0f32, 2.0, 3.0, 4.0];
    let store = RecordStore::open(file_of(&values)).unwrap();
    let sample: Vec<u32> = [4.0f32, 4.0, 4.0, 4.0, 4.0, 4.0, 4.0, 4.0, 4.0]
        .iter()
        .map(|x| x.to_bits())
        .collect();
    let p = pivots_from_sample(&sample, 4).unwrap();
    assert!(worker_bucket(&store, &p, 1).is_empty());
    assert!(worker_bucket(&store, &p, 2).is_empty());
    let (out, ranges) = run(&store, &p);
    assert_eq!(ranges, vec![(8, 20), (20, 20), (20, 20), (20, 24)]);
    assert_eq!(values_of(&out), vec![1.0, 2.0, 3.0, 4.0]);
    assert_eq!(out.len(), 24);
}

#[test]
fn single_worker_output_is_plain_sort() {
    let values = [0.25f32, -8.0, 3.0, -0.0, 0.0, f32::INFINITY, -2.5, 3.0];
    let store = RecordStore::open(file_of(&values)).unwrap();
    let p = find_pivots(&store, 1).unwrap();
    let (out, ranges) = run(&store, &p);
    assert_eq!(ranges, vec![(8, 40)]);
    let got: Vec<u32> = values_of(&out).iter().map(|x| x.to_bits()).collect();
    let want: Vec<u32> = sorted_copy(&values).iter().map(|x| x.to_bits()).collect();
    assert_eq!(got, want);
}

#[test]
fn random_pivots_sort_every_input() {
    let values: Vec<f32> = (0..200)
        .map(|i| (((i * 7919) % 211) as f32 - 100.0) * 0.75)
        .chain([f32::INFINITY, f32::NEG_INFINITY, -0.0, 0.0, 1e-40])
        .collect();
    let store = RecordStore::open(file_of(&values)).unwrap();
    for threads in 1..9 {
        let p = find_pivots(&store, threads).unwrap();
        assert_eq!(p.threads(), threads);
        let (out, ranges) = run(&store, &p);
        assert_eq!(read_size(&out), Ok(values.len() as u64));
        let got: Vec<u32> = values_of(&out).iter().map(|x| x.to_bits()).collect();
        let want: Vec<u32> = sorted_copy(&values).iter().map(|x| x.to_bits()).collect();
        assert_eq!(got, want);
        assert_eq!(ranges[0].0, 8);
        assert_eq!(ranges[threads - 1].1, 8 + 4 * values.len() as u64);
        for w in ranges.windows(2) {
            assert_eq!(w[0].1, w[1].0);
        }
    }
}

#[test]
fn more_workers_than_records() {
    let values = [2.0f32, 1.0];
    let store = RecordStore::open(file_of(&values)).unwrap();
    let p = find_pivots(&store, 5).unwrap();
    let (out, _) = run(&store, &p);
    assert_eq!(values_of(&out), vec![1.0, 2.0]);
}

#[test]
fn find_pivots_rejects_zero_workers() {
    let store = RecordStore::open(file_of(&[1.0])).unwrap();
    assert!(matches!(find_pivots(&store, 0), Err(SortError::InvalidInput)));
}

#[test]
fn sample_draws_records_of_the_store() {
    let values = [10.0f32, 20.0, 30.0];
    let store = RecordStore::open(file_of(&values)).unwrap();
    let s = sample(&store, 50);
    assert_eq!(s.len(), 50);
    let bits: Vec<u32> = values.iter().map(|x| x.to_bits()).collect();
    assert!(s.iter().all(|x| bits.contains(x)));
    assert!(sample(&store, 0).is_empty());
}
