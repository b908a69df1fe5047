//! The brute-force search for the key: every candidate key is tried, the
//! decryption it gives is scored, and the best-scoring key is kept.

use crate::cipher::{single_key_xor, xor_bytes};
use crate::partition::{
    in_partition,
    is_split,
    lemma_bounds_monotone,
    lemma_bounds_ordered,
    lemma_partition_of_key,
    partition_bound,
    partition_of_key,
    partitions,
    SearchPartition,
};
use crate::scorer::{mean_score, score_text, ScoreError};
use vstd::prelude::*;

verus! {

/// A candidate key together with the score of the decryption it gives.
///
/// Candidates are ranked by score alone. Of two candidates with the same
/// score the one that was seen first is kept.
#[derive(Clone, Copy, Debug, PartialEq, Eq, Structural)]
pub struct ScoredCandidate {
    pub score: i32,
    pub key: u8,
}

impl ScoredCandidate {
    /// The candidate that every search starts from: key 0 with score 0.
    pub open spec fn spec_seed() -> ScoredCandidate {
        ScoredCandidate { score: 0, key: 0 }
    }

    /// The candidate that every search starts from: key 0 with score 0. It is
    /// what a search reports when no key scores above 0.
    #[verifier::when_used_as_spec(spec_seed)]
    pub fn seed() -> (candidate: ScoredCandidate)
        ensures
            candidate == ScoredCandidate::spec_seed(),
    {
        ScoredCandidate { score: 0, key: 0 }
    }

    /// Of the best candidate so far and one that was seen later, the one to
    /// keep: the later one only if its score is strictly greater.
    pub fn better_of(self, later: ScoredCandidate) -> (kept: ScoredCandidate)
        ensures
            kept == if later.score > self.score {
                later
            } else {
                self
            },
    {
        if later.score > self.score {
            later
        } else {
            self
        }
    }
}

/// The score of the text that `ciphertext` decrypts to under `key`.
pub open spec fn key_score(ciphertext: Seq<u8>, key: int) -> int
    recommends
        ciphertext.len() > 0,
        0 <= key < 256,
{
    mean_score(xor_bytes(ciphertext, key as u8))
}

/// Whether some key from `lower` up to but not including `upper` gives a
/// decryption that scores above 0.
pub open spec fn some_key_scores_above_zero(ciphertext: Seq<u8>, lower: int, upper: int) -> bool {
    exists|key: int| lower <= key < upper && #[trigger] key_score(ciphertext, key) > 0
}

/// Whether `found` is what a scan of the keys from `lower` up to but not
/// including `upper` reports: where some key scores above 0, the first of the
/// keys with the highest score, together with that score; otherwise the
/// candidate the scan started from.
pub open spec fn is_first_best(
    ciphertext: Seq<u8>,
    lower: int,
    upper: int,
    found: ScoredCandidate,
) -> bool {
    if some_key_scores_above_zero(ciphertext, lower, upper) {
        &&& lower <= found.key < upper
        &&& found.score == key_score(ciphertext, found.key as int)
        &&& forall|key: int|
            lower <= key < upper ==> #[trigger] key_score(ciphertext, key) <= found.score
        &&& forall|key: int|
            lower <= key < found.key ==> #[trigger] key_score(ciphertext, key) < found.score
    } else {
        found == ScoredCandidate::seed()
    }
}

/// Whether position `at` of `results` holds a score above 0 that no result
/// exceeds and no earlier result reaches.
pub open spec fn is_first_highest_at(results: Seq<ScoredCandidate>, at: int) -> bool {
    &&& 0 <= at < results.len()
    &&& results[at].score > 0
    &&& forall|other: int|
        0 <= other < results.len() ==> (#[trigger] results[other]).score <= results[at].score
    &&& forall|other: int| 0 <= other < at ==> (#[trigger] results[other]).score < results[at].score
}

/// Whether `kept` is what merging `results` in their order gives: the first
/// of the results with the highest score where that score is above 0,
/// otherwise the candidate every search starts from.
pub open spec fn is_merge_of(results: Seq<ScoredCandidate>, kept: ScoredCandidate) -> bool {
    ||| exists|at: int| #[trigger] is_first_highest_at(results, at) && kept == results[at]
    ||| {
        &&& forall|at: int| 0 <= at < results.len() ==> (#[trigger] results[at]).score <= 0
        &&& kept == ScoredCandidate::seed()
    }
}

/// Whether `results` holds, for each of `parts` in their order, what a scan
/// of that partition reports.
pub open spec fn are_partition_results(
    ciphertext: Seq<u8>,
    parts: Seq<SearchPartition>,
    results: Seq<ScoredCandidate>,
) -> bool {
    &&& results.len() == parts.len()
    &&& forall|index: int|
        0 <= index < parts.len() ==> is_first_best(
            ciphertext,
            parts[index].lower(),
            parts[index].upper(),
            #[trigger] results[index],
        )
}

/// Whether `key` gives the highest score of all keys.
pub open spec fn is_best_key(ciphertext: Seq<u8>, key: int) -> bool {
    &&& 0 <= key < 256
    &&& forall|other: int|
        0 <= other < 256 ==> #[trigger] key_score(ciphertext, other) <= key_score(ciphertext, key)
}

/// Whether no two keys share the highest score.
pub open spec fn has_single_best_key(ciphertext: Seq<u8>) -> bool {
    forall|first: int, second: int|
        #[trigger] is_best_key(ciphertext, first) && #[trigger] is_best_key(ciphertext, second)
            ==> first == second
}

/// Tries the keys of `part` in ascending order and reports the first of those
/// with the highest score, or the candidate the scan started from if no key
/// scores above 0.
///
/// An empty ciphertext has no decryption that could be scored: the scan
/// fails for it before it tries any key, whatever the partition holds.
pub fn scan_partition(ciphertext: &Vec<u8>, part: SearchPartition) -> (result: Result<
    ScoredCandidate,
    ScoreError,
>)
    ensures
        match result {
            Ok(best) => {
                &&& ciphertext@.len() > 0
                &&& is_first_best(ciphertext@, part.lower(), part.upper(), best)
            },
            Err(error) => ciphertext@.len() == 0 && error == ScoreError::EmptyInput,
        },
{
    if ciphertext.len() == 0 {
        return Err(ScoreError::EmptyInput);
    }
    let start: u16 = part.start();
    let end: u16 = part.end();
    let mut best: ScoredCandidate = ScoredCandidate::seed();
    let mut next: u16 = start;
    while next < end
        invariant
            ciphertext@.len() > 0,
            start <= next <= end <= 256,
            is_first_best(ciphertext@, start as int, next as int, best),
        decreases end - next,
    {
        let key: u8 = next as u8;
        let decoded_text: Vec<u8> = single_key_xor(ciphertext, key);
        match score_text(decoded_text) {
            Ok(score) => {
                assert(score == key_score(ciphertext@, next as int));
                best = best.better_of(ScoredCandidate { score, key });
            },
            Err(error) => {
                return Err(error);
            },
        }
        next += 1;
    }
    Ok(best)
}

/// Merges the results of several scans in the order given: a later result
/// replaces the best so far only if its score is strictly greater.
pub fn merge_candidates(results: &Vec<ScoredCandidate>) -> (kept: ScoredCandidate)
    ensures
        is_merge_of(results@, kept),
{
    let n: usize = results.len();
    let mut best: ScoredCandidate = ScoredCandidate::seed();
    let mut i: usize = 0;
    while i < n
        invariant
            n == results@.len(),
            i <= n,
            is_merge_of(results@.take(i as int), best),
        decreases n - i,
    {
        let ghost before = results@.take(i as int);
        let ghost after = results@.take(i + 1);
        let ghost previous = best;
        best = best.better_of(results[i]);
        proof {
            assert forall|other: int| 0 <= other < i implies #[trigger] after[other]
                == before[other] by {}
            if exists|at: int| #[trigger] is_first_highest_at(before, at) && previous == before[at] {
                let at = choose|at: int| #[trigger]
                    is_first_highest_at(before, at) && previous == before[at];
                if results@[i as int].score > previous.score {
                    assert(is_first_highest_at(after, i as int));
                } else {
                    assert(is_first_highest_at(after, at));
                }
            } else {
                if results@[i as int].score > 0 {
                    assert(is_first_highest_at(after, i as int));
                }
            }
        }
        i += 1;
    }
    proof {
        assert(results@.take(n as int) =~= results@);
    }
    best
}

/// Finds the key of a ciphertext that was XORed against a single byte: tries
/// every key from 0 to 255 in turn and reports the first of the keys whose
/// decryption scores highest, or key 0 with score 0 if none scores above 0.
///
/// An empty ciphertext has no decryption that could be scored, and the search
/// fails for it.
pub fn break_single_xor(ciphertext: Vec<u8>) -> (result: Result<ScoredCandidate, ScoreError>)
    ensures
        match result {
            Ok(best) => ciphertext@.len() > 0 && is_first_best(ciphertext@, 0, 256, best),
            Err(error) => ciphertext@.len() == 0 && error == ScoreError::EmptyInput,
        },
{
    scan_partition(&ciphertext, SearchPartition::full())
}

/// Finds the key as `break_single_xor` does, with the work laid out for
/// `worker_count` workers: the key space is split into that many partitions,
/// each partition is scanned on its own, and the results are merged in the
/// order of the partitions. A scan that fails makes the whole search fail,
/// which happens for an empty ciphertext and for no other.
///
/// The scans are independent of each other, so a caller may run
/// `scan_partition` for each of the `partitions` on a thread of its own and
/// hand what they report to `merge_candidates`; here they run one after the
/// other.
pub fn break_single_xor_threaded(ciphertext: Vec<u8>, worker_count: usize) -> (result: Result<
    ScoredCandidate,
    ScoreError,
>)
    requires
        worker_count >= 1,
    ensures
        match result {
            Ok(best) => ciphertext@.len() > 0 && is_first_best(ciphertext@, 0, 256, best),
            Err(error) => ciphertext@.len() == 0 && error == ScoreError::EmptyInput,
        },
{
    let parts: Vec<SearchPartition> = partitions(worker_count);
    let mut results: Vec<ScoredCandidate> = Vec::new();
    let mut index: usize = 0;
    while index < worker_count
        invariant
            index <= worker_count,
            index > 0 ==> ciphertext@.len() > 0,
            is_split(parts@, worker_count as int),
            are_partition_results(ciphertext@, parts@.take(index as int), results@),
        decreases worker_count - index,
    {
        match scan_partition(&ciphertext, parts[index]) {
            Ok(local) => {
                results.push(local);
            },
            Err(error) => {
                return Err(error);
            },
        }
        index += 1;
    }
    let best: ScoredCandidate = merge_candidates(&results);
    proof {
        lemma_merge_in_order_matches_full_scan(
            ciphertext@,
            worker_count as int,
            parts@,
            results@,
            best,
        );
    }
    Ok(best)
}

/// A scan has one result only: two candidates that both are the first best
/// of the same keys are the same candidate.
///
/// So `break_single_xor` and `break_single_xor_threaded`, whose results both
/// are the first best of all keys, report the same candidate for every
/// ciphertext that can be scored and every number of workers.
pub proof fn lemma_first_best_is_unique(
    ciphertext: Seq<u8>,
    lower: int,
    upper: int,
    first: ScoredCandidate,
    second: ScoredCandidate,
)
    requires
        is_first_best(ciphertext, lower, upper, first),
        is_first_best(ciphertext, lower, upper, second),
    ensures
        first == second,
{
}

/// A merge has one result only.
pub proof fn lemma_merge_is_unique(
    results: Seq<ScoredCandidate>,
    first: ScoredCandidate,
    second: ScoredCandidate,
)
    requires
        is_merge_of(results, first),
        is_merge_of(results, second),
    ensures
        first == second,
{
}

/// What the scans of the partitions say about one key: the result of the
/// partition that the key falls into scores at least as high as the key, and
/// above 0 if the key does.
proof fn lemma_partition_result_covers_key(
    ciphertext: Seq<u8>,
    count: int,
    parts: Seq<SearchPartition>,
    results: Seq<ScoredCandidate>,
    key: int,
)
    requires
        count >= 1,
        is_split(parts, count),
        are_partition_results(ciphertext, parts, results),
        0 <= key < 256,
    ensures
        0 <= partition_of_key(key, count) < count,
        in_partition(key, partition_of_key(key, count), count),
        key_score(ciphertext, key) <= results[partition_of_key(key, count)].score,
        0 <= results[partition_of_key(key, count)].score,
{
    lemma_partition_of_key(key, partition_of_key(key, count), count);
}

/// What a partition result with a score above 0 says: its key lies in its
/// partition and has that score.
proof fn lemma_partition_result_above_zero(
    ciphertext: Seq<u8>,
    count: int,
    parts: Seq<SearchPartition>,
    results: Seq<ScoredCandidate>,
    index: int,
)
    requires
        count >= 1,
        is_split(parts, count),
        are_partition_results(ciphertext, parts, results),
        0 <= index < count,
        results[index].score > 0,
    ensures
        in_partition(results[index].key as int, index, count),
        results[index].score == key_score(ciphertext, results[index].key as int),
        forall|key: int|
            partition_bound(index, count) <= key < results[index].key ==> #[trigger] key_score(
                ciphertext,
                key,
            ) < results[index].score,
{
}

/// Merging the results of the partitions in ascending order gives what one
/// scan of all keys gives, whatever the ciphertext and however many
/// partitions there are.
pub proof fn lemma_merge_in_order_matches_full_scan(
    ciphertext: Seq<u8>,
    count: int,
    parts: Seq<SearchPartition>,
    results: Seq<ScoredCandidate>,
    kept: ScoredCandidate,
)
    requires
        count >= 1,
        is_split(parts, count),
        are_partition_results(ciphertext, parts, results),
        is_merge_of(results, kept),
    ensures
        is_first_best(ciphertext, 0, 256, kept),
{
    if some_key_scores_above_zero(ciphertext, 0, 256) {
        let witness = choose|witness: int|
            0 <= witness < 256 && #[trigger] key_score(ciphertext, witness) > 0;
        lemma_partition_result_covers_key(ciphertext, count, parts, results, witness);
        let at = choose|at: int| #[trigger] is_first_highest_at(results, at) && kept == results[at];
        lemma_partition_result_above_zero(ciphertext, count, parts, results, at);
        lemma_bounds_ordered(at, count);
        assert forall|key: int| 0 <= key < 256 implies #[trigger] key_score(ciphertext, key)
            <= kept.score by {
            lemma_partition_result_covers_key(ciphertext, count, parts, results, key);
        }
        assert forall|key: int| 0 <= key < kept.key implies #[trigger] key_score(ciphertext, key)
            < kept.score by {
            lemma_partition_result_covers_key(ciphertext, count, parts, results, key);
            let owner = partition_of_key(key, count);
            if owner > at {
                lemma_bounds_monotone(at + 1, owner, count);
            }
        }
    } else {
        assert forall|at: int| 0 <= at < results.len() implies (#[trigger] results[at]).score
            <= 0 by {
            if results[at].score > 0 {
                lemma_partition_result_above_zero(ciphertext, count, parts, results, at);
                lemma_bounds_ordered(at, count);
            }
        }
    }
}

/// Where no two keys share the highest score, the order in which the results
/// of the partitions are collected does not matter: merging them in any order
/// gives what one scan of all keys gives.
pub proof fn lemma_merge_in_any_order_matches_full_scan(
    ciphertext: Seq<u8>,
    count: int,
    parts: Seq<SearchPartition>,
    in_order: Seq<ScoredCandidate>,
    collected: Seq<ScoredCandidate>,
    kept: ScoredCandidate,
)
    requires
        count >= 1,
        is_split(parts, count),
        are_partition_results(ciphertext, parts, in_order),
        collected.to_multiset() == in_order.to_multiset(),
        is_merge_of(collected, kept),
        has_single_best_key(ciphertext),
    ensures
        is_first_best(ciphertext, 0, 256, kept),
{
    in_order.to_multiset_ensures();
    collected.to_multiset_ensures();
    assert forall|result: ScoredCandidate| in_order.contains(result) <==> collected.contains(
        result,
    ) by {
        assert(collected.contains(result) <==> collected.to_multiset().count(result) > 0);
    }
    if some_key_scores_above_zero(ciphertext, 0, 256) {
        let witness = choose|witness: int|
            0 <= witness < 256 && #[trigger] key_score(ciphertext, witness) > 0;
        lemma_partition_result_covers_key(ciphertext, count, parts, in_order, witness);
        assert(in_order.contains(in_order[partition_of_key(witness, count)]));
        let at = choose|at: int| #[trigger]
            is_first_highest_at(collected, at) && kept == collected[at];
        assert(collected.contains(collected[at]));
        let index = choose|index: int| 0 <= index < in_order.len() && in_order[index] == kept;
        lemma_partition_result_above_zero(ciphertext, count, parts, in_order, index);
        lemma_bounds_ordered(index, count);
        assert forall|key: int| 0 <= key < 256 implies #[trigger] key_score(ciphertext, key)
            <= kept.score by {
            lemma_partition_result_covers_key(ciphertext, count, parts, in_order, key);
            assert(in_order.contains(in_order[partition_of_key(key, count)]));
        }
        assert(is_best_key(ciphertext, kept.key as int));
        assert forall|key: int| 0 <= key < kept.key implies #[trigger] key_score(ciphertext, key)
            < kept.score by {
            if key_score(ciphertext, key) == kept.score {
                assert(is_best_key(ciphertext, key));
            }
        }
    } else {
        assert forall|at: int| 0 <= at < collected.len() implies (#[trigger] collected[at]).score
            <= 0 by {
            if collected[at].score > 0 {
                assert(collected.contains(collected[at]));
                let index = choose|index: int|
                    0 <= index < in_order.len() && in_order[index] == collected[at];
                lemma_partition_result_above_zero(ciphertext, count, parts, in_order, index);
                lemma_bounds_ordered(index, count);
            }
        }
    }
}

} // verus!
