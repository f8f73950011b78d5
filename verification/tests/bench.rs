use fiddlers_db::bench::{average_result, progress_every, tally_queries, BenchmarkResult};

#[test]
fn averages_and_rounds_down() {
    let results = [
        BenchmarkResult { hits: 10, misses: 1, elapsed_millis: 100 },
        BenchmarkResult { hits: 11, misses: 2, elapsed_millis: 101 },
        BenchmarkResult { hits: 13, misses: 2, elapsed_millis: 150 },
    ];
    let avg = average_result(&results);
    assert_eq!(avg.hits, 11);
    assert_eq!(avg.misses, 1);
    assert_eq!(avg.elapsed_millis, 117);
}

#[test]
fn single_run_is_its_own_average() {
    let r = BenchmarkResult { hits: 7, misses: 0, elapsed_millis: 42 };
    let avg = average_result(&[r]);
    assert_eq!((avg.hits, avg.misses, avg.elapsed_millis), (7, 0, 42));
}

#[test]
fn milliseconds_are_cut_to_64_bits() {
    let big = (u64::MAX as u128) + 5;
    let r = BenchmarkResult { hits: 0, misses: 0, elapsed_millis: big };
    let avg = average_result(&[r]);
    assert_eq!(avg.elapsed_millis, 4);
}

#[test]
fn tally_counts_matches_and_misses() {
    assert_eq!(tally_queries(&vec![]), (0, 0));
    assert_eq!(tally_queries(&vec![0, 3, 0, 1, 7]), (11, 2));
    assert_eq!(tally_queries(&vec![0, 0, 0]), (0, 3));
    assert_eq!(tally_queries(&vec![usize::MAX]), (usize::MAX, 0));
}

#[test]
fn progress_is_reported_every_tenth_query() {
    assert_eq!(progress_every(100), 10);
    assert_eq!(progress_every(1009), 100);
    assert_eq!(progress_every(9), 0);
    assert_eq!(progress_every(0), 0);
}
