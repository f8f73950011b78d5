//! Averaging the results of benchmark runs.
use vstd::prelude::*;

verus! {

/// The outcome of one benchmark run: matches found, queries without a
/// match, and the time taken in milliseconds.
#[derive(Debug, Clone, Copy)]
pub struct BenchmarkResult {
    pub hits: usize,
    pub misses: usize,
    pub elapsed_millis: u128,
}

pub open spec fn total_hits(results: Seq<BenchmarkResult>) -> nat
    decreases results.len(),
{
    if results.len() == 0 {
        0
    } else {
        total_hits(results.drop_last()) + results.last().hits as nat
    }
}

pub open spec fn total_misses(results: Seq<BenchmarkResult>) -> nat
    decreases results.len(),
{
    if results.len() == 0 {
        0
    } else {
        total_misses(results.drop_last()) + results.last().misses as nat
    }
}

pub open spec fn total_millis(results: Seq<BenchmarkResult>) -> nat
    decreases results.len(),
{
    if results.len() == 0 {
        0
    } else {
        total_millis(results.drop_last()) + results.last().elapsed_millis as nat
    }
}

proof fn lemma_totals_grow(results: Seq<BenchmarkResult>, i: int)
    requires
        0 <= i < results.len(),
    ensures
        total_hits(results.subrange(0, i + 1)) == total_hits(results.subrange(0, i)) + results[i].hits,
        total_misses(results.subrange(0, i + 1)) == total_misses(results.subrange(0, i))
            + results[i].misses,
        total_millis(results.subrange(0, i + 1)) == total_millis(results.subrange(0, i))
            + results[i].elapsed_millis,
        total_hits(results.subrange(0, i)) <= total_hits(results),
        total_misses(results.subrange(0, i)) <= total_misses(results),
        total_millis(results.subrange(0, i)) <= total_millis(results),
    decreases results.len() - i,
{
    assert(results.subrange(0, i + 1).drop_last() =~= results.subrange(0, i));
    if i + 1 < results.len() {
        lemma_totals_grow(results, i + 1);
    } else {
        assert(results.subrange(0, i + 1) =~= results);
    }
}

/// The average over the runs: hits, misses and milliseconds each summed
/// and divided by the number of runs, rounding down; the milliseconds are
/// cut to 64 bits.
pub fn average_result(results: &[BenchmarkResult]) -> (r: BenchmarkResult)
    requires
        results@.len() > 0,
        total_hits(results@) <= usize::MAX,
        total_misses(results@) <= usize::MAX,
        total_millis(results@) <= u128::MAX,
    ensures
        r.hits == total_hits(results@) / results@.len(),
        r.misses == total_misses(results@) / results@.len(),
        r.elapsed_millis == ((total_millis(results@) / results@.len()) as u64) as u128,
{
    let mut hits: usize = 0;
    let mut misses: usize = 0;
    let mut millis: u128 = 0;
    let mut i: usize = 0;
    while i < results.len()
        invariant
            i <= results@.len(),
            hits == total_hits(results@.subrange(0, i as int)),
            misses == total_misses(results@.subrange(0, i as int)),
            millis == total_millis(results@.subrange(0, i as int)),
            total_hits(results@) <= usize::MAX,
            total_misses(results@) <= usize::MAX,
            total_millis(results@) <= u128::MAX,
        decreases results@.len() - i,
    {
        proof {
            lemma_totals_grow(results@, i as int);
            if i + 1 < results@.len() {
                lemma_totals_grow(results@, i as int + 1);
            } else {
                assert(results@.subrange(0, i as int + 1) =~= results@);
            }
        }
        hits = hits + results[i].hits;
        misses = misses + results[i].misses;
        millis = millis + results[i].elapsed_millis;
        i = i + 1;
    }
    proof {
        assert(results@.subrange(0, results@.len() as int) =~= results@);
    }
    let count = results.len() as u128;
    let avg_millis = #[verifier::truncate]
    ((millis / count) as u64);
    BenchmarkResult {
        hits: hits / results.len(),
        misses: misses / results.len(),
        elapsed_millis: avg_millis as u128,
    }
}

/// The matches of the queries that found any: the sum of the counts.
pub open spec fn total_matches(match_counts: Seq<usize>) -> nat
    decreases match_counts.len(),
{
    if match_counts.len() == 0 {
        0
    } else {
        total_matches(match_counts.drop_last()) + match_counts.last() as nat
    }
}

/// The number of queries that found nothing.
pub open spec fn zero_counts(match_counts: Seq<usize>) -> nat
    decreases match_counts.len(),
{
    if match_counts.len() == 0 {
        0
    } else {
        zero_counts(match_counts.drop_last()) + (if match_counts.last() == 0 {
            1nat
        } else {
            0nat
        })
    }
}

proof fn lemma_tally_grows(match_counts: Seq<usize>, i: int)
    requires
        0 <= i < match_counts.len(),
    ensures
        total_matches(match_counts.subrange(0, i + 1)) == total_matches(match_counts.subrange(0, i))
            + match_counts[i],
        zero_counts(match_counts.subrange(0, i + 1)) == zero_counts(match_counts.subrange(0, i))
            + (if match_counts[i] == 0 {
            1nat
        } else {
            0nat
        }),
        total_matches(match_counts.subrange(0, i + 1)) <= total_matches(match_counts),
        zero_counts(match_counts.subrange(0, i + 1)) <= zero_counts(match_counts),
        zero_counts(match_counts) <= match_counts.len(),
    decreases match_counts.len() - i,
{
    assert(match_counts.subrange(0, i + 1).drop_last() =~= match_counts.subrange(0, i));
    if i + 1 < match_counts.len() {
        lemma_tally_grows(match_counts, i + 1);
    } else {
        assert(match_counts.subrange(0, i + 1) =~= match_counts);
        lemma_zero_counts_bound(match_counts);
    }
}

proof fn lemma_zero_counts_bound(match_counts: Seq<usize>)
    ensures
        zero_counts(match_counts) <= match_counts.len(),
    decreases match_counts.len(),
{
    if match_counts.len() > 0 {
        lemma_zero_counts_bound(match_counts.drop_last());
    }
}

/// Tallies the match counts of a run of queries: the hits are the matches
/// of the queries that found any, the misses the queries that found none.
pub fn tally_queries(match_counts: &Vec<usize>) -> (r: (usize, usize))
    requires
        total_matches(match_counts@) <= usize::MAX,
    ensures
        r.0 == total_matches(match_counts@),
        r.1 == zero_counts(match_counts@),
{
    let mut hits: usize = 0;
    let mut misses: usize = 0;
    let mut i: usize = 0;
    proof {
        lemma_zero_counts_bound(match_counts@);
    }
    while i < match_counts.len()
        invariant
            i <= match_counts@.len(),
            hits == total_matches(match_counts@.subrange(0, i as int)),
            misses == zero_counts(match_counts@.subrange(0, i as int)),
            total_matches(match_counts@) <= usize::MAX,
            zero_counts(match_counts@) <= match_counts@.len(),
        decreases match_counts@.len() - i,
    {
        proof {
            lemma_tally_grows(match_counts@, i as int);
        }
        let match_count = match_counts[i];
        if match_count == 0 {
            misses = misses + 1;
        } else {
            hits = hits + match_count;
        }
        i = i + 1;
    }
    proof {
        assert(match_counts@.subrange(0, match_counts@.len() as int) =~= match_counts@);
    }
    (hits, misses)
}

/// Every how many queries a run reports its progress: a tenth of them,
/// rounded down.
pub fn progress_every(len: usize) -> (r: usize)
    ensures
        r == len / 10,
{
    len / 10
}

} // verus!
