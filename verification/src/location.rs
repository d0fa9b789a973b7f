//! Mapping of a flat index onto the bucket that stores it.
//!
//! Bucket `b` holds `32 * 2^b` entries, so the buckets hold the indices
//! `0..32`, `32..96`, `96..224`, ... An index `i` lives in the bucket whose
//! length is the highest power of two that is at most `i + 32`.

use vstd::prelude::*;
use vstd::arithmetic::power2::{pow2, lemma2_to64, lemma_pow2_unfold, lemma_pow2_strictly_increases, lemma_pow2_pos};
use vstd::bits::{lemma_u32_shl_is_mul, lemma_u32_pow2_no_overflow};
use vstd::std_specs::bits::axiom_u32_leading_zeros;

verus! {

/// The number of entries that the smallest buckets would hold and that are skipped.
pub const SKIP: u32 = 32;

/// `log2(SKIP)`: the bucket index shift that the skipped buckets account for.
pub const SKIP_BUCKET: u32 = 5;

/// The number of buckets.
pub const BUCKETS: u32 = 27;

/// The largest index that a vector can hold.
pub const MAX_ENTRIES: u32 = 4294967263;

/// The floor of the binary logarithm of `x` (0 for `x <= 1`).
pub open spec fn log2_floor(x: nat) -> nat
    decreases x,
{
    if x <= 1 {
        0
    } else {
        1 + log2_floor(x / 2)
    }
}

/// The number of entries in bucket `bucket`.
pub open spec fn bucket_capacity(bucket: int) -> int {
    pow2((bucket + SKIP_BUCKET) as nat) as int
}

/// The index stored in the first entry of bucket `bucket`.
pub open spec fn bucket_first_index(bucket: int) -> int {
    bucket_capacity(bucket) - SKIP
}

/// The bucket that holds index `index`.
pub open spec fn bucket_of(index: int) -> int {
    log2_floor((index + SKIP) as nat) - SKIP_BUCKET
}

/// The position of index `index` inside its bucket.
pub open spec fn entry_of(index: int) -> int {
    index + SKIP - bucket_capacity(bucket_of(index))
}

/// `index` is stored at entry `entry` of bucket `bucket`.
pub open spec fn locates(index: int, bucket: int, entry: int) -> bool {
    &&& 0 <= bucket < BUCKETS
    &&& 0 <= entry < bucket_capacity(bucket)
    &&& index == bucket_first_index(bucket) + entry
}

/// `pow2(k) <= x < pow2(k + 1)` for `k == log2_floor(x)` and `x >= 1`.
pub proof fn lemma_log2_floor_bounds(x: nat)
    requires
        x >= 1,
    ensures
        pow2(log2_floor(x)) <= x < pow2(log2_floor(x) + 1),
    decreases x,
{
    if x <= 1 {
        lemma2_to64();
    } else {
        lemma_log2_floor_bounds(x / 2);
        let k = log2_floor(x / 2);
        lemma_pow2_unfold(k + 1);
        lemma_pow2_unfold(k + 2);
    }
}

/// The binary logarithm is the only exponent that brackets `x`.
pub proof fn lemma_log2_floor_unique(x: nat, k: nat)
    requires
        pow2(k) <= x < pow2(k + 1),
    ensures
        log2_floor(x) == k,
{
    lemma_pow2_pos(k);
    lemma_log2_floor_bounds(x);
    let j = log2_floor(x);
    if j < k {
        if j + 1 < k {
            lemma_pow2_strictly_increases(j + 1, k);
        }
    } else if k < j {
        if k + 1 < j {
            lemma_pow2_strictly_increases(k + 1, j);
        }
    }
}

/// Every index up to `MAX_ENTRIES` has a place, and that place gives the index back.
pub proof fn lemma_location_of_index(index: int)
    requires
        0 <= index <= MAX_ENTRIES,
    ensures
        locates(index, bucket_of(index), entry_of(index)),
{
    let x = (index + SKIP) as nat;
    lemma_log2_floor_bounds(x);
    let k = log2_floor(x);
        lemma2_to64();
    if k < 5 {
        if k + 1 < 5 {
            lemma_pow2_strictly_increases(k + 1, 5);
        }
    }
    assert(k >= 5);
    if k >= 32 {
        lemma2_to64();
        if k > 32 {
            lemma_pow2_strictly_increases(32, k);
        }
    }
    lemma_pow2_unfold(k + 1);
}

/// Each place of a bucket holds exactly one index, and that index maps back to the place.
pub proof fn lemma_index_of_location(bucket: int, entry: int)
    requires
        0 <= bucket < BUCKETS,
        0 <= entry < bucket_capacity(bucket),
    ensures
        0 <= bucket_first_index(bucket) + entry <= MAX_ENTRIES,
        bucket_of(bucket_first_index(bucket) + entry) == bucket,
        entry_of(bucket_first_index(bucket) + entry) == entry,
{
    let k = (bucket + SKIP_BUCKET) as nat;
    let x = (bucket_first_index(bucket) + entry + SKIP) as nat;
    lemma_pow2_unfold(k + 1);
    lemma_log2_floor_unique(x, k);
        lemma2_to64();
    if k < 31 {
        lemma_pow2_strictly_increases(k, 31);
    }
    if 5 < k {
        lemma_pow2_strictly_increases(5, k);
    }
}

/// Two indices share a place only if they are equal.
pub proof fn lemma_location_injective(i: int, j: int)
    requires
        0 <= i <= MAX_ENTRIES,
        0 <= j <= MAX_ENTRIES,
        i != j,
    ensures
        bucket_of(i) != bucket_of(j) || entry_of(i) != entry_of(j),
{
    lemma_location_of_index(i);
    lemma_location_of_index(j);
}

/// The buckets double in length from 32 entries on, and together they hold
/// exactly the indices `0..=MAX_ENTRIES`, each bucket starting where the one
/// before it ends.
pub proof fn lemma_buckets_cover_all_indices(bucket: int)
    requires
        0 <= bucket < BUCKETS,
    ensures
        bucket_capacity(0) == 32,
        bucket_first_index(0) == 0,
        bucket_capacity(bucket + 1) == 2 * bucket_capacity(bucket),
        bucket_first_index(bucket + 1) == bucket_first_index(bucket) + bucket_capacity(bucket),
        bucket_first_index(BUCKETS as int) == MAX_ENTRIES + 1,
{
    lemma2_to64();
    lemma_pow2_unfold((bucket + SKIP_BUCKET + 1) as nat);
}

/// Facts of the highest set bit of a 32-bit word.
proof fn lemma_highest_bit(x: u32, k: u32)
    by (bit_vector)
    requires
        k < 32,
        (x >> k) & 1u32 != 0u32,
        k == 31 || x >> ((k + 1) as u32) == 0u32,
        x >= 32,
    ensures
        (1u32 << k) <= x,
        x ^ (1u32 << k) == x - (1u32 << k),
        x - (1u32 << k) < (1u32 << k),
        k >= 5,
{
}

/// Where an index is stored: its bucket, the length of that bucket and the entry inside it.
#[derive(Debug)]
pub struct Location {
    /// The index of the bucket.
    pub bucket: u32,
    /// The length of `bucket`.
    pub bucket_len: u32,
    /// The index of the entry in `bucket`.
    pub entry: u32,
}

impl Location {
    /// The location of `index`.
    pub fn of(index: u32) -> (loc: Location)
        requires
            index <= MAX_ENTRIES,
        ensures
            loc.bucket == bucket_of(index as int),
            loc.entry == entry_of(index as int),
            loc.bucket_len == bucket_capacity(loc.bucket as int),
            locates(index as int, loc.bucket as int, loc.entry as int),
    {
        let skipped = index + SKIP;
        let lz = skipped.leading_zeros();
        proof {
            axiom_u32_leading_zeros(skipped);
        }
        let bucket = u32::BITS - lz;
        let ghost k: u32 = (31 - lz) as u32;
        proof {
            lemma_highest_bit(skipped, k);
        }
        let bucket = bucket - (SKIP_BUCKET + 1);
        let bucket_len = Self::bucket_len(bucket);
        let entry = skipped ^ bucket_len;
        proof {
            lemma_u32_pow2_no_overflow(k as nat);
            lemma_u32_shl_is_mul(1, k);
            lemma_pow2_unfold(k as nat + 1);
            lemma_log2_floor_unique(skipped as nat, k as nat);
            lemma_location_of_index(index as int);
        }
        Location { bucket, bucket_len, entry }
    }

    /// The number of entries in bucket `bucket`.
    pub fn bucket_len(bucket: u32) -> (len: u32)
        requires
            bucket < BUCKETS,
        ensures
            len == bucket_capacity(bucket as int),
    {
        proof {
            lemma_u32_pow2_no_overflow((bucket + SKIP_BUCKET) as nat);
            lemma_u32_shl_is_mul(1, (bucket + SKIP_BUCKET) as u32);
        }
        1 << (bucket + SKIP_BUCKET)
    }
}

} // verus!
