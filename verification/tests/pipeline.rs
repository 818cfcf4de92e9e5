//! End-to-end scenarios: chunking, parsing and reducing whole inputs.
use keystats::chunker::Chunker;
use keystats::stats::Stat;
use keystats::table::reduce;
use keystats::table::StatsTable;
use keystats::table::Worker;

/// Run the whole pipeline over one input, pushing `read_size` bytes at a
/// time, with one worker. Returns the final table and skipped count.
fn run_pipeline(input: &[u8], read_size: usize) -> (StatsTable, u64) {
    let mut chunker = Chunker::new();
    let mut worker = Worker::new();
    let mut pos = 0;
    while pos < input.len() {
        let end = if pos + read_size < input.len() { pos + read_size } else { input.len() };
        if let Some(chunk) = chunker.push(&input[pos..end]) {
            worker.fold_chunk(&chunk);
        }
        pos = end;
    }
    if let Some(chunk) = chunker.finish() {
        worker.fold_chunk(&chunk);
    }
    let workers = vec![worker];
    reduce(&workers)
}

fn find_stat(table: &StatsTable, key: &[u8]) -> Option<Stat> {
    let n = table.entry_count();
    let mut i = 0;
    while i < n {
        if table.key_at(i).as_slice() == key {
            return Some(table.stat_at(i));
        }
        i += 1;
    }
    None
}

#[test]
fn three_records_one_chunk() {
    let input = b"A;1.0\nB;2.0\nA;3.0\n";
    let (table, skipped) = run_pipeline(input, 4096);
    assert_eq!(skipped, 0);
    assert_eq!(table.entry_count(), 2);
    let a = find_stat(&table, b"A").unwrap();
    assert_eq!(a.count, 2);
    assert_eq!(a.min, 10);
    assert_eq!(a.max, 30);
    assert_eq!(a.sum, 40);
    let b = find_stat(&table, b"B").unwrap();
    assert_eq!(b.count, 1);
    assert_eq!(b.min, 20);
    assert_eq!(b.max, 20);
    assert_eq!(b.sum, 20);
}

#[test]
fn unparsable_line_is_skipped_and_absent() {
    let input = b"C;notanumber\nA;1.0\n";
    let (table, skipped) = run_pipeline(input, 4096);
    assert_eq!(skipped, 1);
    assert_eq!(table.entry_count(), 1);
    assert!(find_stat(&table, b"C").is_none());
    let a = find_stat(&table, b"A").unwrap();
    assert_eq!(a.count, 1);
}

#[test]
fn tiny_reads_match_single_chunk() {
    let input = b"Alpha;1.5\nBeta;-2.25\nAlpha;4.0\nGamma;0.3\n";
    let (big, skipped_big) = run_pipeline(input, 4096);
    let (tiny, skipped_tiny) = run_pipeline(input, 1);
    assert_eq!(skipped_big, skipped_tiny);
    assert_eq!(big.entry_count(), tiny.entry_count());
    for i in 0..big.entry_count() {
        let key = big.key_at(i).clone();
        let s1 = big.stat_at(i);
        let s2 = find_stat(&tiny, &key).unwrap();
        assert_eq!(s1.count, s2.count);
        assert_eq!(s1.min, s2.min);
        assert_eq!(s1.max, s2.max);
        assert_eq!(s1.sum, s2.sum);
    }
}

#[test]
fn empty_input_empty_report() {
    let (table, skipped) = run_pipeline(b"", 4096);
    assert_eq!(skipped, 0);
    assert_eq!(table.entry_count(), 0);
}

#[test]
fn final_line_without_newline_counts() {
    let input = b"A;1.0\nB;2.5";
    let (table, skipped) = run_pipeline(input, 4);
    assert_eq!(skipped, 0);
    let b = find_stat(&table, b"B").unwrap();
    assert_eq!(b.count, 1);
    assert_eq!(b.min, 25);
}

#[test]
fn running_twice_gives_identical_results() {
    let input = b"A;1.0\nB;2.0\nA;3.0\nwhat\nB;-0.5\n";
    let (t1, s1) = run_pipeline(input, 7);
    let (t2, s2) = run_pipeline(input, 7);
    assert_eq!(s1, s2);
    assert_eq!(t1.entry_count(), t2.entry_count());
    for i in 0..t1.entry_count() {
        assert_eq!(t1.key_at(i), t2.key_at(i));
        let a = t1.stat_at(i);
        let b = t2.stat_at(i);
        assert_eq!(a.count, b.count);
        assert_eq!(a.min, b.min);
        assert_eq!(a.max, b.max);
        assert_eq!(a.sum, b.sum);
    }
}

#[test]
fn two_workers_match_one_worker() {
    let input = b"A;1.0\nB;2.0\nA;3.0\nC;9.9\nB;2.0\nA;-7.5\n";
    // one worker over the whole input
    let (one, skipped_one) = run_pipeline(input, 4096);
    // two workers, each folding a line-aligned half
    let mut w1 = Worker::new();
    let mut w2 = Worker::new();
    w1.fold_chunk(&b"A;1.0\nB;2.0\nA;3.0\n".to_vec());
    w2.fold_chunk(&b"C;9.9\nB;2.0\nA;-7.5\n".to_vec());
    let workers = vec![w1, w2];
    let (two, skipped_two) = reduce(&workers);
    assert_eq!(skipped_one, skipped_two);
    assert_eq!(one.entry_count(), two.entry_count());
    for i in 0..one.entry_count() {
        let key = one.key_at(i).clone();
        let a = one.stat_at(i);
        let b = find_stat(&two, &key).unwrap();
        assert_eq!(a.count, b.count);
        assert_eq!(a.min, b.min);
        assert_eq!(a.max, b.max);
        assert_eq!(a.sum, b.sum);
    }
}
