use ncp_engine::location::{Location, BUCKETS, MAX_ENTRIES};

#[test]
fn location() {
    assert_eq!(Location::bucket_len(0), 32);
    for i in 0..32 {
        let loc = Location::of(i);
        assert_eq!(loc.bucket_len, 32);
        assert_eq!(loc.bucket, 0);
        assert_eq!(loc.entry, i);
    }

    assert_eq!(Location::bucket_len(1), 64);
    for i in 33..96 {
        let loc = Location::of(i);
        assert_eq!(loc.bucket_len, 64);
        assert_eq!(loc.bucket, 1);
        assert_eq!(loc.entry, i - 32);
    }

    assert_eq!(Location::bucket_len(2), 128);
    for i in 96..224 {
        let loc = Location::of(i);
        assert_eq!(loc.bucket_len, 128);
        assert_eq!(loc.bucket, 2);
        assert_eq!(loc.entry, i - 96);
    }

    let max = Location::of(MAX_ENTRIES);
    assert_eq!(max.bucket, BUCKETS - 1);
    assert_eq!(max.bucket_len, 1 << 31);
    assert_eq!(max.entry, (1 << 31) - 1);
}

#[test]
fn location_constants_match_their_derivation() {
    assert_eq!(ncp_engine::location::SKIP_BUCKET, (u32::BITS - ncp_engine::location::SKIP.leading_zeros()) - 1);
    assert_eq!(BUCKETS, u32::BITS - ncp_engine::location::SKIP_BUCKET);
    assert_eq!(MAX_ENTRIES, u32::MAX - ncp_engine::location::SKIP);
}

#[test]
fn location_round_trips_at_bucket_edges() {
    // Every bucket's first and last index map back to that bucket.
    let mut first: u64 = 0;
    for bucket in 0..BUCKETS {
        let len = Location::bucket_len(bucket);
        let start = Location::of(first as u32);
        assert_eq!((start.bucket, start.entry, start.bucket_len), (bucket, 0, len));
        let last = first + len as u64 - 1;
        let end = Location::of(last as u32);
        assert_eq!((end.bucket, end.entry), (bucket, len - 1));
        first += len as u64;
    }
    assert_eq!(first, MAX_ENTRIES as u64 + 1);
}
