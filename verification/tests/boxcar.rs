use ncp_engine::boxcar::{CapacityError, Vec};
use ncp_engine::location::MAX_ENTRIES;
use ncp_engine::Utf32String;
use std::sync::atomic::AtomicUsize;

#[test]
fn extend_unique_bucket() {
    let mut vec = Vec::<u32>::with_capacity(1, 1);
    vec.extend(0..10, |_, _| {}).unwrap();
    assert_eq!(vec.count(), 10);
    for i in 0..10 {
        assert_eq!(*vec.get(i).unwrap().data, i);
    }
    assert!(vec.get(10).is_none());
}

#[test]
fn extend_over_two_buckets() {
    let mut vec = Vec::<u32>::with_capacity(1, 1);
    vec.extend(0..100, |_, _| {}).unwrap();
    assert_eq!(vec.count(), 100);
    for i in 0..100 {
        assert_eq!(*vec.get(i).unwrap().data, i);
    }
    assert!(vec.get(100).is_none());
}

#[test]
fn extend_over_more_than_two_buckets() {
    let mut vec = Vec::<u32>::with_capacity(1, 1);
    vec.extend(0..20_000, |_, _| {}).unwrap();
    assert_eq!(vec.count(), 20_000);
    for i in 0..20_000 {
        assert_eq!(*vec.get(i).unwrap().data, i);
    }
    assert!(vec.get(20_000).is_none());
}

#[test]
fn buckets_are_allocated_on_demand() {
    let mut pushed = Vec::<u32>::with_capacity(0, 1);
    for value in 0..29 {
        pushed.push(value, |_, _| {});
    }
    assert!(!pushed.is_bucket_allocated(1));
    for value in 29..33 {
        pushed.push(value, |_, _| {});
    }
    assert!(pushed.is_bucket_allocated(1));

    let mut extended = Vec::<u32>::with_capacity(0, 1);
    extended.extend(0..29, |_, _| {}).unwrap();
    assert!(!extended.is_bucket_allocated(1));
    extended.extend(29..33, |_, _| {}).unwrap();
    assert!(extended.is_bucket_allocated(1));
}

#[test]
fn extend_with_non_exact_size_hint() {
    let mut vec = Vec::<u32>::with_capacity(1, 1);
    vec.extend((0..10).filter(|value| value % 2 == 0), |_, _| {}).unwrap();
    assert_eq!(vec.count(), 5);
    for (index, value) in (0..10).filter(|value| value % 2 == 0).enumerate() {
        assert_eq!(*vec.get(index as u32).unwrap().data, value);
    }
    assert!(vec.get(5).is_none());
}

#[test]
/// Test that an incorrect exact size hint is handled safely.
fn extend_with_incorrect_exact_size_hint() {
    struct IncorrectLenIter {
        len: usize,
        iter: std::ops::Range<u32>,
    }

    impl Iterator for IncorrectLenIter {
        type Item = u32;

        fn next(&mut self) -> Option<Self::Item> {
            self.iter.next()
        }

        fn size_hint(&self) -> (usize, Option<usize>) {
            (self.len, Some(self.len))
        }
    }

    impl ExactSizeIterator for IncorrectLenIter {
        fn len(&self) -> usize {
            self.len
        }
    }

    let mut vec = Vec::<u32>::with_capacity(1, 1);
    let iter = IncorrectLenIter {
        len: 10,
        iter: (0..12),
    };
    vec.extend(iter, |_, _| {}).unwrap();
    assert_eq!(vec.count(), 12);
    for i in 0..12 {
        assert_eq!(*vec.get(i).unwrap().data, i);
    }

    let mut vec = Vec::<u32>::with_capacity(1, 1);
    let iter = IncorrectLenIter {
        len: 12,
        iter: (0..10),
    };
    vec.extend(iter, |_, _| {}).unwrap();
    // The reported lower bound is reserved, even if the iterator violates it.
    assert_eq!(vec.count(), 12);
    for i in 0..10 {
        assert_eq!(*vec.get(i).unwrap().data, i);
    }
    assert!(vec.get(10).is_none());

    let mut vec = Vec::<u32>::with_capacity(1, 1);
    let iter = IncorrectLenIter {
        len: 0,
        iter: (0..2),
    };
    vec.extend(iter, |_, _| {}).unwrap();
    assert_eq!(vec.count(), 2);
    assert_eq!(*vec.get(0).unwrap().data, 0);
    assert_eq!(*vec.get(1).unwrap().data, 1);

    let mut vec = Vec::<u32>::with_capacity(1, 1);
    let iter = IncorrectLenIter {
        len: 20_000,
        iter: (0..10),
    };
    vec.extend(iter, |_, _| {}).unwrap();
    assert_eq!(vec.count(), 8192);
    for i in 0..10 {
        assert_eq!(*vec.get(i).unwrap().data, i);
    }
    assert!(vec.get(10).is_none());
}

// test |values| does not fit in the boxcar
#[test]
fn extend_over_max_capacity() {
    let mut vec = Vec::<u32>::with_capacity(1, 1);
    let count = MAX_ENTRIES as usize + 2;
    let iter = std::iter::repeat(0).take(count);
    assert_eq!(vec.extend(iter, |_, _| {}), Err(CapacityError));
    assert_eq!(vec.count(), 0);
}

#[test]
fn push_returns_consecutive_indices_and_get_reads_them_back() {
    let mut vec = Vec::<String>::with_capacity(0, 2);
    assert_eq!(vec.columns(), 2);
    for i in 0..100u32 {
        let index = vec.push(format!("item{i}"), |item, columns| {
            columns[0] = Utf32String::from_chars(item.chars().collect());
        });
        assert_eq!(index, i);
    }
    assert_eq!(vec.count(), 100);
    for i in 0..100u32 {
        let item = vec.get(i).unwrap();
        assert_eq!(item.data, &format!("item{i}"));
        assert_eq!(item.matcher_columns.len(), 2);
        assert_eq!(item.matcher_columns[0].to_string(), format!("item{i}"));
        assert!(item.matcher_columns[1].is_empty());
        assert_eq!(vec.get_unchecked(i).data, item.data);
    }
    assert!(vec.get(100).is_none());
    assert!(vec.get(MAX_ENTRIES).is_none());
}

#[test]
fn with_capacity_allocates_the_buckets_up_to_the_capacity() {
    let vec = Vec::<u32>::with_capacity(0, 1);
    assert!(vec.is_bucket_allocated(0));
    assert!(!vec.is_bucket_allocated(1));
    let vec = Vec::<u32>::with_capacity(100, 1);
    assert!(vec.is_bucket_allocated(0));
    assert!(vec.is_bucket_allocated(1));
    // Index 100 itself lies in bucket 2 (indices 96 to 223).
    assert!(vec.is_bucket_allocated(2));
    assert!(!vec.is_bucket_allocated(3));
    assert_eq!(vec.count(), 0);
}

#[test]
fn extension_fits_matches_capacity() {
    let vec = Vec::<u32>::with_capacity(0, 1);
    assert!(vec.extension_fits(10, 10));
    assert!(!vec.extension_fits(0, MAX_ENTRIES as usize + 1));
    assert!(vec.extension_fits(MAX_ENTRIES as usize + 1, 0));
    assert!(!vec.extension_fits(MAX_ENTRIES as usize + 2, 0));
}

#[test]
fn extend_with_hint_reserves_whole_blocks() {
    let mut vec = Vec::<u32>::with_capacity(0, 1);
    vec.extend_with_hint((0..8192).collect(), 10_000, |_, _| {});
    // A full block is followed by a second one that the values do not fill.
    assert_eq!(vec.count(), 10_000);
    assert_eq!(*vec.get(8191).unwrap().data, 8191);
    assert!(vec.get(8192).is_none());
    vec.push(7, |_, _| {});
    assert_eq!(*vec.get(10_000).unwrap().data, 7);
}

#[test]
fn snapshot_yields_each_position_once() {
    let mut vec = Vec::<u32>::with_capacity(0, 1);
    vec.extend_with_hint((0..40).collect(), 50, |_, _| {});
    assert_eq!(vec.count(), 50);
    let mut iter = vec.snapshot(3);
    assert_eq!(iter.end(), 50);
    assert_eq!(iter.size_hint(), (47, Some(47)));
    let mut seen = 0;
    while let Some((index, item)) = iter.next() {
        assert_eq!(index, 3 + seen);
        match item {
            Some(item) => assert_eq!(*item.data, index),
            None => assert!(index >= 40),
        }
        seen += 1;
    }
    assert_eq!(seen, 47);
    assert!(iter.next().is_none());
}

#[test]
fn snapshot_crosses_buckets() {
    let mut vec = Vec::<u32>::with_capacity(0, 1);
    vec.extend(0..300, |_, _| {}).unwrap();
    let mut iter = vec.snapshot(0);
    for expected in 0..300 {
        let (index, item) = iter.next().unwrap();
        assert_eq!(index, expected);
        assert_eq!(*item.unwrap().data, expected);
    }
    assert!(iter.next().is_none());
}

#[test]
fn par_snapshot_splits_into_covering_halves() {
    let mut vec = Vec::<u32>::with_capacity(0, 1);
    vec.extend(0..100, |_, _| {}).unwrap();
    let par = vec.par_snapshot(10);
    assert_eq!(par.end(), 100);
    assert_eq!(par.len(), 90);
    let (left, right) = par.into_producer().split_at(30);
    let mut left = left.into_iter();
    let mut right = right.into_iter();
    assert_eq!(left.end(), 40);
    assert_eq!(left.next().unwrap().0, 10);
    assert_eq!(right.next().unwrap().0, 40);
    assert_eq!(right.end(), 100);
}

fn assert_send_sync<T: Send + Sync>() {}

#[test]
fn vec_is_send_and_sync_when_its_items_are() {
    assert_send_sync::<Vec<u32>>();
}

#[test]
fn next_back_walks_the_range_from_its_end() {
    let mut vec = Vec::<u32>::with_capacity(0, 1);
    vec.extend(0..5, |_, _| {}).unwrap();
    let mut iter = vec.snapshot(1);
    let (index, item) = iter.next_back().unwrap();
    assert_eq!(index, 4);
    assert_eq!(*item.unwrap().data, 4);
    assert_eq!(iter.end(), 4);
    assert_eq!(iter.next().unwrap().0, 1);
    assert_eq!(iter.size_hint(), (2, Some(2)));
}

#[test]
fn get_after_push_reads_the_value_back() {
    let mut vec = Vec::<u32>::with_capacity(0, 1);
    vec.extend_with_hint((0..3).collect(), 5, |_, _| {});
    // Positions 3 and 4 were reserved but never written.
    assert!(vec.get(4).is_none());
    let index = vec.push(42, |_, _| {});
    assert_eq!(index, 5);
    assert_eq!(*vec.get(index).unwrap().data, 42);
    for i in 0..3 {
        assert_eq!(*vec.get(i).unwrap().data, i);
    }
    assert!(vec.get(3).is_none());
}

#[test]
fn try_extend_with_hint_refuses_what_does_not_fit() {
    let mut vec = Vec::<u32>::with_capacity(0, 1);
    assert_eq!(
        vec.try_extend_with_hint((0..3).collect(), MAX_ENTRIES as usize + 1, |_, _| {}),
        Err(CapacityError)
    );
    assert_eq!(vec.count(), 0);
    assert_eq!(vec.try_extend_with_hint((0..3).collect(), 2, |_, _| {}), Ok(()));
    assert_eq!(vec.count(), 3);
    assert_eq!(*vec.get(2).unwrap().data, 2);
}

struct CountDrops<'a>(&'a AtomicUsize);

impl Drop for CountDrops<'_> {
    fn drop(&mut self) {
        self.0.fetch_add(1, std::sync::atomic::Ordering::Relaxed);
    }
}

#[test]
fn drop_deallocates_buckets_after_allocation_gaps() {
    let drops = AtomicUsize::new(0);
    let mut vec = Vec::<CountDrops<'_>>::with_capacity(0, 1);
    // Reserves indices 0..200 but writes only index 0, in bucket 0.
    vec.extend_with_hint(vec![CountDrops(&drops)], 200, |_, _| {});
    // Index 200 lies in bucket 2, while bucket 1 stays unallocated.
    assert_eq!(vec.push(CountDrops(&drops), |_, _| {}), 200);
    assert!(!vec.is_bucket_allocated(1));
    assert!(vec.is_bucket_allocated(2));
    assert_eq!(drops.load(std::sync::atomic::Ordering::Relaxed), 0);

    drop(vec);
    assert_eq!(drops.load(std::sync::atomic::Ordering::Relaxed), 2);
}
