//! Splitting of the key space into contiguous ranges, one per worker.

use vstd::prelude::*;

verus! {

/// How many candidate keys there are: every value of a byte.
pub const KEY_COUNT: u16 = 256;

/// Where partition number `index` out of `count` starts, and partition number
/// `index - 1` ends: 256 times `index` over `count`, rounded up.
pub open spec fn partition_bound(index: int, count: int) -> int
    recommends
        0 <= index <= count,
        count >= 1,
{
    (256 * index + count - 1) / count
}

/// Whether `key` falls into partition number `index` out of `count`.
pub open spec fn in_partition(key: int, index: int, count: int) -> bool {
    partition_bound(index, count) <= key < partition_bound(index + 1, count)
}

/// The number of the partition that `key` falls into when the key space is
/// split into `count` partitions.
pub open spec fn partition_of_key(key: int, count: int) -> int
    recommends
        0 <= key < 256,
        count >= 1,
{
    (key * count) / 256
}

/// The set of all candidate keys.
pub open spec fn all_keys() -> Set<int> {
    Set::new(|key: int| 0 <= key < 256)
}

/// A contiguous range of candidate keys, from `start` up to but not including
/// `end`. The range never reaches beyond the key space.
#[derive(Clone, Copy, Debug, PartialEq, Eq, Structural)]
pub struct SearchPartition {
    start: u16,
    end: u16,
}

impl SearchPartition {
    /// What every partition keeps to: it does not end before it starts, nor
    /// beyond the last key.
    #[verifier::type_invariant]
    spec fn well_formed(self) -> bool {
        self.start <= self.end <= 256
    }

    /// The first key of the range.
    pub closed spec fn lower(self) -> int {
        self.start as int
    }

    /// The key after the last key of the range.
    pub closed spec fn upper(self) -> int {
        self.end as int
    }

    /// The keys of the range.
    pub open spec fn keys(self) -> Set<int> {
        Set::new(|key: int| self.lower() <= key < self.upper())
    }

    /// The range from `start` up to but not including `end`, if that is a
    /// range of keys: `start` must not exceed `end`, nor `end` the number of
    /// keys.
    pub fn new(start: u16, end: u16) -> (result: Option<SearchPartition>)
        ensures
            match result {
                Some(part) => start <= end <= 256 && part.lower() == start && part.upper() == end,
                None => !(start <= end <= 256),
            },
    {
        if start <= end && end <= KEY_COUNT {
            Some(SearchPartition { start, end })
        } else {
            None
        }
    }

    /// The range of all keys.
    pub fn full() -> (part: SearchPartition)
        ensures
            part.lower() == 0,
            part.upper() == 256,
    {
        SearchPartition { start: 0, end: KEY_COUNT }
    }

    /// The first key of the range.
    pub fn start(&self) -> (start: u16)
        ensures
            start == self.lower(),
            0 <= self.lower() <= self.upper() <= 256,
    {
        proof {
            use_type_invariant(self);
        }
        self.start
    }

    /// The key after the last key of the range.
    pub fn end(&self) -> (end: u16)
        ensures
            end == self.upper(),
            0 <= self.lower() <= self.upper() <= 256,
    {
        proof {
            use_type_invariant(self);
        }
        self.end
    }

    /// Whether `key` lies in the range.
    pub fn contains(&self, key: u8) -> (found: bool)
        ensures
            found == self.keys().contains(key as int),
    {
        self.start <= key as u16 && (key as u16) < self.end
    }
}

/// Whether `parts` is the split of the key space into `count` partitions:
/// partition number `index` reaches from the bound at `index` to the bound
/// at `index + 1`.
pub open spec fn is_split(parts: Seq<SearchPartition>, count: int) -> bool {
    &&& parts.len() == count
    &&& forall|index: int|
        0 <= index < count ==> {
            &&& (#[trigger] parts[index]).lower() == partition_bound(index, count)
            &&& parts[index].upper() == partition_bound(index + 1, count)
        }
}

/// The keys that one or another of `parts` holds.
pub open spec fn keys_of(parts: Seq<SearchPartition>) -> Set<int> {
    Set::new(
        |key: int|
            exists|index: int|
                0 <= index < parts.len() && (#[trigger] parts[index]).keys().contains(key),
    )
}

/// The bound at `index` of a split into `count` partitions.
fn bound(index: usize, count: usize) -> (result: u16)
    requires
        count >= 1,
        index <= count,
    ensures
        result == partition_bound(index as int, count as int),
        result <= 256,
{
    proof {
        lemma_outer_bounds(count as int);
        lemma_bounds_monotone(0, index as int, count as int);
        lemma_bounds_monotone(index as int, count as int, count as int);
    }
    let above: u128 = 256u128 * (index as u128) + (count as u128) - 1;
    (above / (count as u128)) as u16
}

/// The partitions of the key space for `worker_count` workers, in ascending
/// order of their keys. They are contiguous and of nearly equal size; with
/// more workers than keys some of them are empty.
pub fn partitions(worker_count: usize) -> (parts: Vec<SearchPartition>)
    ensures
        is_split(parts@, worker_count as int),
{
    let mut parts: Vec<SearchPartition> = Vec::new();
    let mut index: usize = 0;
    while index < worker_count
        invariant
            index <= worker_count,
            parts@.len() == index,
            forall|done: int|
                0 <= done < index ==> {
                    &&& (#[trigger] parts@[done]).lower() == partition_bound(
                        done,
                        worker_count as int,
                    )
                    &&& parts@[done].upper() == partition_bound(done + 1, worker_count as int)
                },
        decreases worker_count - index,
    {
        let start: u16 = bound(index, worker_count);
        let end: u16 = bound(index + 1, worker_count);
        proof {
            lemma_bounds_ordered(index as int, worker_count as int);
        }
        parts.push(SearchPartition { start, end });
        index += 1;
    }
    parts
}

/// A bound is at most `limit` exactly when 256 times its index is at most
/// `limit` times the number of partitions.
pub proof fn lemma_bound_at_most(index: int, count: int, limit: int)
    requires
        count >= 1,
    ensures
        partition_bound(index, count) <= limit <==> 256 * index <= limit * count,
{
    let above = 256 * index + count - 1;
    let bound = above / count;
    assert(above == count * bound + above % count && 0 <= above % count < count)
        by (nonlinear_arith)
        requires
            count >= 1,
            bound == above / count,
    ;
    if bound <= limit {
        assert(count * bound <= limit * count) by (nonlinear_arith)
            requires
                bound <= limit,
                count >= 1,
        ;
    } else {
        assert(count * bound >= (limit + 1) * count) by (nonlinear_arith)
            requires
                bound >= limit + 1,
                count >= 1,
        ;
        assert((limit + 1) * count == limit * count + count) by (nonlinear_arith);
    }
}

/// A later bound is never below an earlier one.
pub proof fn lemma_bounds_monotone(earlier: int, later: int, count: int)
    requires
        count >= 1,
        earlier <= later,
    ensures
        partition_bound(earlier, count) <= partition_bound(later, count),
{
    let limit = partition_bound(later, count);
    lemma_bound_at_most(later, count, limit);
    lemma_bound_at_most(earlier, count, limit);
}

/// The first bound is 0 and the last is the number of keys.
pub proof fn lemma_outer_bounds(count: int)
    requires
        count >= 1,
    ensures
        partition_bound(0, count) == 0,
        partition_bound(count, count) == 256,
{
    assert((count - 1) / count == 0) by (nonlinear_arith)
        requires
            count >= 1,
    ;
    assert((256 * count + count - 1) / count == 256) by (nonlinear_arith)
        requires
            count >= 1,
    ;
}

/// Every partition starts at or after 0, ends at or before the number of
/// keys, and does not end before it starts.
pub proof fn lemma_bounds_ordered(index: int, count: int)
    requires
        count >= 1,
        0 <= index < count,
    ensures
        0 <= partition_bound(index, count) <= partition_bound(index + 1, count) <= 256,
{
    lemma_outer_bounds(count);
    lemma_bounds_monotone(0, index, count);
    lemma_bounds_monotone(index, index + 1, count);
    lemma_bounds_monotone(index + 1, count, count);
}

/// A key falls into a partition exactly when that partition is the one that
/// `partition_of_key` names.
pub proof fn lemma_partition_of_key(key: int, index: int, count: int)
    requires
        count >= 1,
        0 <= key < 256,
    ensures
        0 <= partition_of_key(key, count) < count,
        in_partition(key, index, count) <==> index == partition_of_key(key, count),
{
    let product = key * count;
    assert(0 <= product < 256 * count) by (nonlinear_arith)
        requires
            0 <= key < 256,
            count >= 1,
            product == key * count,
    ;
    lemma_bound_at_most(index, count, key);
    lemma_bound_at_most(index + 1, count, key);
}

/// The partitions cover the key space exactly: what they hold together is
/// the set of all keys, and no key lies in two of them.
pub proof fn lemma_partitions_cover_keys_once(parts: Seq<SearchPartition>, count: int)
    requires
        count >= 1,
        is_split(parts, count),
    ensures
        keys_of(parts) == all_keys(),
        forall|key: int, first: int, second: int|
            0 <= first < count && 0 <= second < count && #[trigger] parts[first].keys().contains(key)
                && #[trigger] parts[second].keys().contains(key) ==> first == second,
{
    assert forall|key: int| all_keys().contains(key) implies keys_of(parts).contains(key) by {
        let owner = partition_of_key(key, count);
        lemma_partition_of_key(key, owner, count);
        assert(parts[owner].keys().contains(key));
    }
    assert forall|key: int| keys_of(parts).contains(key) implies all_keys().contains(key) by {
        let index = choose|index: int|
            0 <= index < parts.len() && (#[trigger] parts[index]).keys().contains(key);
        lemma_bounds_ordered(index, count);
    }
    assert forall|key: int, first: int, second: int|
        0 <= first < count && 0 <= second < count && #[trigger] parts[first].keys().contains(key)
            && #[trigger] parts[second].keys().contains(key) implies first == second by {
        lemma_bounds_ordered(first, count);
        lemma_partition_of_key(key, first, count);
        lemma_partition_of_key(key, second, count);
    }
}

} // verus!
