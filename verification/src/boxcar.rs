//! An append-only vector that stores its elements in buckets of growing size.
//!
//! Indices are handed out by a counter that may run ahead of the elements that
//! were actually written: a reserved index whose element was never written reads
//! as absent. Buckets are allocated on demand, when the first index that lives in
//! them is written.

use vstd::prelude::*;
use crate::location::{
    Location, BUCKETS, MAX_ENTRIES, bucket_of, entry_of, bucket_capacity, bucket_first_index,
    locates, lemma_location_of_index, lemma_index_of_location, lemma_location_injective,
};
use crate::utf32::Utf32String;
use vstd::std_specs::iter::IteratorSpec;

verus! {

/// A stored element: the value and the columns that the matcher reads.
pub struct Entry<T> {
    pub value: T,
    pub matcher_columns: std::vec::Vec<Utf32String>,
}

/// A borrowed element of a [`Vec`].
pub struct Item<'a, T> {
    pub data: &'a T,
    pub matcher_columns: &'a [Utf32String],
}

/// A bucket: either not allocated yet, or its entries, each written or not.
struct Bucket<T> {
    entries: Option<std::vec::Vec<Option<Entry<T>>>>,
}

impl<T> Bucket<T> {
    /// A bucket with the given entries.
    fn new(entries: Option<std::vec::Vec<Option<Entry<T>>>>) -> (b: Bucket<T>)
        ensures
            b.entries == entries,
    {
        Bucket { entries }
    }

    /// `len` entries, none of them written.
    fn allocate(len: u32) -> (entries: std::vec::Vec<Option<Entry<T>>>)
        ensures
            entries@.len() == len,
            forall|i: int| 0 <= i < len ==> (#[trigger] entries@[i]) is None,
    {
        let mut entries: std::vec::Vec<Option<Entry<T>>> = std::vec::Vec::with_capacity(len as usize);
        let mut i: u32 = 0;
        while i < len
            invariant
                i <= len,
                entries@.len() == i,
                forall|j: int| 0 <= j < i ==> (#[trigger] entries@[j]) is None,
            decreases len - i,
        {
            entries.push(None);
            i = i + 1;
        }
        entries
    }
}

/// An append-only vector whose elements carry a fixed number of matcher columns.
pub struct Vec<T> {
    /// The number of indices handed out so far; it may run ahead of the
    /// elements that were actually written.
    inflight: u64,
    /// Buckets of length 32, 64, ..., 2^31.
    buckets: std::vec::Vec<Bucket<T>>,
    /// The number of matcher columns of each element; it never changes.
    columns: u32,
}

impl<T> Vec<T> {
    /// The element written at entry `entry` of bucket `bucket`, if any.
    pub closed spec fn stored(&self, bucket: int, entry: int) -> Option<Entry<T>> {
        if 0 <= bucket < self.buckets@.len() {
            match self.buckets@[bucket].entries {
                Some(es) => if 0 <= entry < es@.len() {
                    es@[entry]
                } else {
                    None
                },
                None => None,
            }
        } else {
            None
        }
    }

    /// Whether bucket `bucket` is allocated.
    pub closed spec fn allocated(&self, bucket: int) -> bool {
        0 <= bucket < self.buckets@.len() && self.buckets@[bucket].entries is Some
    }

    /// The element at index `index`, if it was written.
    pub open spec fn slot(&self, index: int) -> Option<Entry<T>> {
        self.stored(bucket_of(index), entry_of(index))
    }

    /// The number of matcher columns of each element.
    pub closed spec fn spec_columns(&self) -> u32 {
        self.columns
    }

    /// The number of indices handed out so far.
    pub closed spec fn reserved(&self) -> nat {
        self.inflight as nat
    }

    /// The vector's well-formedness: every bucket has its length, and no element
    /// is written past the indices handed out.
    pub closed spec fn wf(&self) -> bool {
        &&& self.buckets@.len() == BUCKETS
        &&& self.columns > 0
        &&& self.inflight <= MAX_ENTRIES + 1
        &&& forall|b: int| #![trigger self.buckets@[b]]
            0 <= b < BUCKETS && self.buckets@[b].entries is Some
                ==> self.buckets@[b].entries->0@.len() == bucket_capacity(b)
        &&& forall|b: int, e: int| #[trigger] self.stored(b, e) is Some
                ==> bucket_first_index(b) + e < self.inflight
    }
}

impl<T> View for Vec<T> {
    type V = Seq<Option<Entry<T>>>;

    /// One position per index handed out: the element written there, if any.
    closed spec fn view(&self) -> Seq<Option<Entry<T>>> {
        Seq::new(self.inflight as nat, |i: int| self.slot(i))
    }
}

impl<T> Vec<T> {
    /// An empty vector with `columns` matcher columns per element, with the buckets
    /// that hold the indices up to `capacity` already allocated.
    pub fn with_capacity(capacity: u32, columns: u32) -> (v: Self)
        requires
            columns != 0,
            capacity <= MAX_ENTRIES,
        ensures
            v.wf(),
            v@ == Seq::<Option<Entry<T>>>::empty(),
            v.spec_columns() == columns,
            forall|b: int| 0 <= b < BUCKETS ==> (v.allocated(b) <==> b <= (if capacity == 0 {
                0
            } else {
                bucket_of(capacity as int)
            })),
    {
        let init = match capacity {
            0 => 0,
            n => Location::of(n).bucket,
        };
        let mut buckets: std::vec::Vec<Bucket<T>> = std::vec::Vec::with_capacity(BUCKETS as usize);
        let mut i: u32 = 0;
        while i < BUCKETS
            invariant
                i <= BUCKETS,
                init < BUCKETS,
                buckets@.len() == i,
                forall|b: int| #![trigger buckets@[b]] 0 <= b < i ==> (buckets@[b].entries is Some <==> b <= init),
                forall|b: int| #![trigger buckets@[b]] 0 <= b < i && buckets@[b].entries is Some ==> {
                    &&& buckets@[b].entries->0@.len() == bucket_capacity(b)
                    &&& forall|e: int| 0 <= e < bucket_capacity(b) ==> (#[trigger] buckets@[b].entries->0@[e]) is None
                },
            decreases BUCKETS - i,
        {
            if i <= init {
                let len = Location::bucket_len(i);
                buckets.push(Bucket::new(Some(Bucket::allocate(len))));
            } else {
                buckets.push(Bucket::new(None));
            }
            i = i + 1;
        }
        let v = Vec { inflight: 0, buckets, columns };
        assert(v@ =~= Seq::<Option<Entry<T>>>::empty());
        v
    }

    /// The number of matcher columns of each element.
    pub fn columns(&self) -> (c: u32)
        ensures
            c == self.spec_columns(),
    {
        self.columns
    }

    /// The number of elements in the vector: the indices handed out so far.
    pub fn count(&self) -> (n: u32)
        requires
            self.wf(),
        ensures
            n == self@.len(),
    {
        self.inflight as u32
    }
}


/// `after` is `before` after appending: every position keeps what it held, and
/// the number of matcher columns stays the same.
pub open spec fn grows_into<T>(before: &Vec<T>, after: &Vec<T>) -> bool {
    &&& after@.len() >= before@.len()
    &&& after@.subrange(0, before@.len() as int) == before@
    &&& after.spec_columns() == before.spec_columns()
}

/// Appending composes: over any sequence of `push` and `extend` calls, the count
/// never decreases, earlier positions never change, and the number of matcher
/// columns stays what the vector was made with.
pub proof fn lemma_grows_into_transitive<T>(a: &Vec<T>, b: &Vec<T>, c: &Vec<T>)
    requires
        grows_into(a, b),
        grows_into(b, c),
    ensures
        grows_into(a, c),
{
    assert(c@.subrange(0, a@.len() as int) =~= c@.subrange(0, b@.len() as int).subrange(0, a@.len() as int));
}

/// A vector grows into itself.
pub proof fn lemma_grows_into_reflexive<T>(a: &Vec<T>)
    ensures
        grows_into(a, a),
{
    assert(a@.subrange(0, a@.len() as int) =~= a@);
}

/// Appending composes over any sequence of calls: from the first vector to each
/// later one, the count never decreases, earlier positions never change, and the
/// number of matcher columns stays what the vector was made with.
pub proof fn lemma_grows_into_chain<T>(vs: Seq<Vec<T>>)
    requires
        vs.len() >= 1,
        forall|k: int| #![trigger vs[k]] 0 <= k < vs.len() - 1 ==> grows_into(&vs[k], &vs[k + 1]),
    ensures
        forall|k: int| #![trigger vs[k]] 0 <= k < vs.len() ==> grows_into(&vs[0], &vs[k]),
    decreases vs.len(),
{
    lemma_grows_into_reflexive(&vs[0]);
    if vs.len() > 1 {
        let shorter = vs.drop_last();
        assert forall|k: int| #![trigger shorter[k]] 0 <= k < shorter.len() - 1 implies grows_into(&shorter[k], &shorter[k + 1]) by {
            assert(grows_into(&vs[k], &vs[k + 1]));
        }
        lemma_grows_into_chain(shorter);
        assert forall|k: int| #![trigger vs[k]] 0 <= k < vs.len() implies grows_into(&vs[0], &vs[k]) by {
            if k < vs.len() - 1 {
                assert(vs[k] == shorter[k]);
            } else {
                assert(shorter[k - 1] == vs[k - 1]);
                assert(grows_into(&vs[k - 1], &vs[k]));
                lemma_grows_into_transitive(&vs[0], &vs[k - 1], &vs[k]);
            }
        }
    }
}

/// `after` is `before` with one more position, written there: what `push` ensures
/// of the views.
pub open spec fn pushed_one<T>(before: Seq<Option<Entry<T>>>, after: Seq<Option<Entry<T>>>) -> bool {
    &&& after.len() == before.len() + 1
    &&& after.drop_last() == before
    &&& after.last() is Some
}

/// After `n` pushes onto an empty vector, its count is `n` and every index below
/// the count holds an element: pushes leave no gaps.
pub proof fn lemma_pushes_leave_no_gaps<T>(views: Seq<Seq<Option<Entry<T>>>>)
    requires
        views.len() >= 1,
        views[0].len() == 0,
        forall|k: int| 0 <= k < views.len() - 1 ==> pushed_one(#[trigger] views[k], views[k + 1]),
    ensures
        views.last().len() == views.len() - 1,
        forall|i: int| 0 <= i < views.last().len() ==> (#[trigger] views.last()[i]) is Some,
    decreases views.len(),
{
    if views.len() > 1 {
        let shorter = views.drop_last();
        assert forall|k: int| 0 <= k < shorter.len() - 1 implies pushed_one(#[trigger] shorter[k], shorter[k + 1]) by {
            assert(pushed_one(views[k], views[k + 1]));
        }
        lemma_pushes_leave_no_gaps(shorter);
        let prev = views[views.len() - 2];
        assert(shorter.last() == prev);
        assert(pushed_one(prev, views.last()));
        assert forall|i: int| 0 <= i < views.last().len() implies (#[trigger] views.last()[i]) is Some by {
            if i < prev.len() {
                assert(views.last().drop_last()[i] == views.last()[i]);
            }
        }
    }
}

/// Two reads of the same position agree: both absent, or the same value and columns.
pub proof fn lemma_reads_agree<T>(a: Option<Item<'_, T>>, b: Option<Item<'_, T>>, slot: Option<Entry<T>>)
    requires
        item_of(a, slot),
        item_of(b, slot),
    ensures
        a is Some <==> b is Some,
        a is Some ==> *a.unwrap().data == *b.unwrap().data && a.unwrap().matcher_columns@ == b.unwrap().matcher_columns@,
{
}

/// `item` is the borrowed form of `slot`: both absent, or the same value and columns.
pub open spec fn item_of<T>(item: Option<Item<'_, T>>, slot: Option<Entry<T>>) -> bool {
    match (item, slot) {
        (Some(it), Some(e)) => *it.data == e.value && it.matcher_columns@ == e.matcher_columns@,
        (None, None) => true,
        _ => false,
    }
}

/// The element at `index` of a vector's view, absent past its end.
pub open spec fn slot_at<T>(view: Seq<Option<Entry<T>>>, index: int) -> Option<Entry<T>> {
    if 0 <= index < view.len() {
        view[index]
    } else {
        None
    }
}

impl<T> Vec<T> {
    /// A written element sits below the reservation counter.
    proof fn lemma_written_is_reserved(&self, index: int)
        requires
            self.wf(),
            0 <= index <= MAX_ENTRIES,
            self.slot(index) is Some,
        ensures
            index < self.reserved(),
            self@[index] == self.slot(index),
    {
        lemma_location_of_index(index);
    }

    /// Whether bucket `bucket` is allocated.
    pub fn is_bucket_allocated(&self, bucket: u32) -> (b: bool)
        requires
            self.wf(),
            bucket < BUCKETS,
        ensures
            b == self.allocated(bucket as int),
    {
        self.buckets[bucket as usize].entries.is_some()
    }

    /// Allocates bucket `bucket`, unless it is allocated already.
    fn get_or_alloc(&mut self, bucket: u32, len: u32)
        requires
            old(self).wf(),
            bucket < BUCKETS,
            len == bucket_capacity(bucket as int),
        ensures
            final(self).wf(),
            final(self)@ == old(self)@,
            final(self).reserved() == old(self).reserved(),
            final(self).spec_columns() == old(self).spec_columns(),
            forall|b: int| #[trigger] final(self).allocated(b) <==> (old(self).allocated(b) || b == bucket),
    {
        if self.buckets[bucket as usize].entries.is_none() {
            let entries = Bucket::allocate(len);
            let ghost pre = *self;
            self.buckets.set(bucket as usize, Bucket::new(Some(entries)));
            assert forall|b: int, e: int| #[trigger] self.stored(b, e) == pre.stored(b, e) by {
                if b == bucket && 0 <= e < len {
                    assert(entries@[e] is None);
                }
            }
            assert(self@ =~= pre@);
        }
    }

    /// Writes `entry` at index `index`, whose location is `loc`.
    fn write_entry(&mut self, index: u32, loc: Location, entry: Entry<T>)
        requires
            old(self).wf(),
            index < old(self).reserved(),
            locates(index as int, loc.bucket as int, loc.entry as int),
            old(self).allocated(loc.bucket as int),
        ensures
            final(self).wf(),
            final(self)@ == old(self)@.update(index as int, Some(entry)),
            final(self).reserved() == old(self).reserved(),
            final(self).spec_columns() == old(self).spec_columns(),
            forall|b: int| #[trigger] final(self).allocated(b) == old(self).allocated(b),
    {
        let ghost pre = *self;
        let b = loc.bucket as usize;
        let mut taken = Bucket::new(None);
        std::mem::swap(&mut self.buckets[b], &mut taken);
        let mut entries = match taken.entries {
            Some(es) => es,
            None => std::vec::Vec::new(),
        };
        entries.set(loc.entry as usize, Some(entry));
        self.buckets.set(b, Bucket::new(Some(entries)));
        proof {
            lemma_index_of_location(loc.bucket as int, loc.entry as int);
            assert forall|bb: int, e: int| #[trigger] self.stored(bb, e) == (if bb == loc.bucket && e == loc.entry {
                Some(entry)
            } else {
                pre.stored(bb, e)
            }) by {}
            assert forall|i: int| 0 <= i < pre.reserved() implies #[trigger] self.slot(i) == (if i == index {
                Some(entry)
            } else {
                pre.slot(i)
            }) by {
                if i != index {
                    lemma_location_injective(i, index as int);
                }
            }
            assert(self@ =~= pre@.update(index as int, Some(entry)));
        }
    }

    /// `columns` empty matcher columns.
    fn default_columns(columns: u32) -> (cols: std::vec::Vec<Utf32String>)
        ensures
            cols@.len() == columns,
            forall|j: int| 0 <= j < columns ==> (#[trigger] cols@[j])@ == Seq::<char>::empty(),
    {
        let mut cols: std::vec::Vec<Utf32String> = std::vec::Vec::with_capacity(columns as usize);
        let mut i: u32 = 0;
        while i < columns
            invariant
                i <= columns,
                cols@.len() == i,
                forall|j: int| 0 <= j < i ==> (#[trigger] cols@[j])@ == Seq::<char>::empty(),
            decreases columns - i,
        {
            cols.push(Utf32String::default());
            i = i + 1;
        }
        cols
    }

    /// The entry for `value`, with the matcher columns that `fill_columns` leaves in
    /// `columns` empty ones.
    fn filled_entry<F: Fn(&T, &mut [Utf32String])>(value: T, fill_columns: &F, columns: u32) -> (e: Entry<T>)
        requires
            forall|v: &T, cols: &mut [Utf32String]| call_requires(*fill_columns, (v, cols)),
        ensures
            e.value == value,
            exists|cols: &mut [Utf32String]| {
                &&& cols@.len() == columns
                &&& forall|j: int| 0 <= j < cols@.len() ==> (#[trigger] cols@[j])@ == Seq::<char>::empty()
                &&& #[trigger] call_ensures(*fill_columns, (&value, cols), ())
                &&& e.matcher_columns@ == final(cols)@
            },
    {
        let mut cols = Self::default_columns(columns);
        fill_columns(&value, cols.as_mut_slice());
        Entry { value, matcher_columns: cols }
    }

    /// Hands out the next index and writes an element there.
    fn push_entry(&mut self, entry: Entry<T>) -> (index: u32)
        requires
            old(self).wf(),
            old(self)@.len() <= MAX_ENTRIES,
        ensures
            final(self).wf(),
            index == old(self)@.len(),
            final(self)@ == old(self)@.push(Some(entry)),
            final(self).spec_columns() == old(self).spec_columns(),
            forall|b: int| #[trigger] final(self).allocated(b) <==> (old(self).allocated(b) || b == bucket_of(index as int)),
    {
        let ghost pre = *self;
        assert(pre@.len() == pre.inflight);
        let index = self.inflight as u32;
        self.inflight = self.inflight + 1;
        proof {
            assert forall|b: int, e: int| #[trigger] self.stored(b, e) is Some
                implies bucket_first_index(b) + e < self.inflight by {
                assert(pre.stored(b, e) is Some);
            }
            assert forall|i: int| 0 <= i < self.reserved() implies #[trigger] self.slot(i) == (if i < pre.reserved() {
                pre.slot(i)
            } else {
                None
            }) by {
                if i == index && self.slot(i) is Some {
                    lemma_location_of_index(i);
                }
            }
            assert(self@ =~= pre@.push(None));
        }
        let location = Location::of(index);
        self.get_or_alloc(location.bucket, location.bucket_len);
        self.write_entry(index, location, entry);
        proof {
            assert(self@ =~= pre@.push(Some(entry)));
        }
        index
    }

    /// Appends an element to the back of the vector; `fill_columns` fills its
    /// matcher columns, which start out empty. Returns the element's index.
    pub fn push<F: FnOnce(&T, &mut [Utf32String])>(&mut self, value: T, fill_columns: F) -> (index: u32)
        requires
            old(self).wf(),
            old(self)@.len() <= MAX_ENTRIES,
            forall|v: &T, cols: &mut [Utf32String]| call_requires(fill_columns, (v, cols)),
        ensures
            final(self).wf(),
            index == old(self)@.len(),
            final(self)@.len() == old(self)@.len() + 1,
            final(self)@.drop_last() == old(self)@,
            final(self)@.last() is Some,
            final(self)@.last()->0.value == value,
            pushed_one(old(self)@, final(self)@),
            exists|cols: &mut [Utf32String]| {
                &&& cols@.len() == old(self).spec_columns()
                &&& forall|j: int| 0 <= j < cols@.len() ==> (#[trigger] cols@[j])@ == Seq::<char>::empty()
                &&& #[trigger] call_ensures(fill_columns, (&value, cols), ())
                &&& final(self)@.last()->0.matcher_columns@ == final(cols)@
            },
            final(self).spec_columns() == old(self).spec_columns(),
            grows_into(old(self), final(self)),
            forall|b: int| #[trigger] final(self).allocated(b) <==> (old(self).allocated(b) || b == bucket_of(index as int)),
    {
        let mut cols = Self::default_columns(self.columns);
        fill_columns(&value, cols.as_mut_slice());
        let index = self.push_entry(Entry { value, matcher_columns: cols });
        proof {
            assert(self@.drop_last() =~= old(self)@);
        }
        index
    }

    /// The element at `index`, if it was written.
    pub fn get(&self, index: u32) -> (item: Option<Item<'_, T>>)
        requires
            self.wf(),
            index <= MAX_ENTRIES,
        ensures
            item_of(item, slot_at(self@, index as int)),
    {
        let location = Location::of(index);
        proof {
            if self.slot(index as int) is Some {
                self.lemma_written_is_reserved(index as int);
            }
        }
        match &self.buckets[location.bucket as usize].entries {
            None => None,
            Some(entries) => match &entries[location.entry as usize] {
                Some(entry) => Some(Item { data: &entry.value, matcher_columns: entry.matcher_columns.as_slice() }),
                None => None,
            },
        }
    }

    /// The element at `index`, which must have been written.
    pub fn get_unchecked(&self, index: u32) -> (item: Item<'_, T>)
        requires
            self.wf(),
            index < self@.len(),
            self@[index as int] is Some,
        ensures
            item_of(Some(item), self@[index as int]),
    {
        let location = Location::of(index);
        match &self.buckets[location.bucket as usize].entries {
            Some(entries) => match &entries[location.entry as usize] {
                Some(entry) => Item { data: &entry.value, matcher_columns: entry.matcher_columns.as_slice() },
                None => vstd::pervasive::unreached(),
            },
            None => vstd::pervasive::unreached(),
        }
    }
}


/// The size of the blocks of indices that `extend` reserves at once.
pub const RESERVATION_CHUNK_SIZE: u32 = 8192;

/// How many indices the block reservations of an extension by `n` values claim,
/// when the values' lower size bound was `hint`: blocks are reserved until `hint`
/// indices are claimed or a block finds the values exhausted.
pub open spec fn chunk_reservation(n: nat, hint: nat) -> nat {
    if hint == 0 {
        0
    } else if n >= hint {
        hint
    } else {
        let blocks = (RESERVATION_CHUNK_SIZE * (n / (RESERVATION_CHUNK_SIZE as nat) + 1)) as nat;
        if hint < blocks {
            hint
        } else {
            blocks
        }
    }
}

/// How many positions an extension by `n` values with lower size bound `hint`
/// adds: the reserved blocks, or all values where there are more of them.
pub open spec fn extension_len(n: nat, hint: nat) -> nat {
    let reserved = chunk_reservation(n, hint);
    if n > reserved {
        n
    } else {
        reserved
    }
}

/// An extension by `n` values with lower size bound `hint` of a vector with `len`
/// positions stays within the vector's capacity.
pub open spec fn extension_fits(len: nat, n: nat, hint: nat) -> bool {
    &&& hint <= MAX_ENTRIES
    &&& len + chunk_reservation(n, hint) <= MAX_ENTRIES
    &&& n > chunk_reservation(n, hint) ==> len + n <= MAX_ENTRIES + 1
}

/// `after` is `before` extended by `values`, whose source reported `hint` as the
/// lower bound on their number: the values follow in order, then the reserved
/// positions that no value was written to.
pub open spec fn extended_by<T>(
    before: Seq<Option<Entry<T>>>,
    after: Seq<Option<Entry<T>>>,
    values: Seq<T>,
    hint: nat,
) -> bool {
    &&& after.len() == before.len() + extension_len(values.len(), hint)
    &&& after.subrange(0, before.len() as int) == before
    &&& forall|i: int| before.len() <= i < before.len() + values.len() ==> {
        &&& (#[trigger] after[i]) is Some
        &&& after[i]->0.value == values[i - before.len()]
    }
    &&& forall|i: int| before.len() + values.len() <= i < after.len() ==> (#[trigger] after[i]) is None
}

/// Bucket `bucket` holds one of the indices `lo..hi`.
pub open spec fn holds_index_in(bucket: int, lo: int, hi: int) -> bool {
    exists|i: int| lo <= i < hi && #[trigger] bucket_of(i) == bucket
}

/// The vector's capacity was exceeded.
#[derive(Debug, PartialEq, Eq)]
pub struct CapacityError;

/// `std`'s `Iterator::size_hint`: the lower bound that `values` reports on the
/// number of items it yields. The iterator's own implementation decides it, so
/// nothing is stated of it.
#[verifier::external_body]
fn size_hint_lower_bound<I: Iterator>(values: &I) -> usize {
    values.size_hint().0
}

/// More values than the vector has room for never fit, whatever the lower bound.
proof fn lemma_overflow_does_not_fit()
    ensures
        forall|len: nat, n: nat, hint: nat| len + n > MAX_ENTRIES + 1 ==> !#[trigger] extension_fits(len, n, hint),
{
    assert forall|len: nat, n: nat, hint: nat| len + n > MAX_ENTRIES + 1 implies !#[trigger] extension_fits(
        len,
        n,
        hint,
    ) by {
        if chunk_reservation(n, hint) >= n {
            assert(len + chunk_reservation(n, hint) > MAX_ENTRIES);
        }
    }
}

/// A block starting at a multiple of the block size, filled from `n >= reserved`
/// values, ends within the extension's reservation.
proof fn lemma_block_within_reservation(n: nat, hint: nat, reserved: nat)
    requires
        hint > 0,
        reserved < hint,
        reserved % (RESERVATION_CHUNK_SIZE as nat) == 0,
        reserved <= n,
    ensures
        reserved + (if hint - reserved < RESERVATION_CHUNK_SIZE {
            hint - reserved
        } else {
            RESERVATION_CHUNK_SIZE as int
        }) <= chunk_reservation(n, hint),
        n < reserved + RESERVATION_CHUNK_SIZE && n < hint ==> chunk_reservation(n, hint) == reserved + (
        if hint - reserved < RESERVATION_CHUNK_SIZE {
            hint - reserved
        } else {
            RESERVATION_CHUNK_SIZE as int
        }),
{
    assert(n / 8192 >= reserved / 8192) by (nonlinear_arith)
        requires
            reserved <= n,
    ;
    assert(8192 * (reserved / 8192) == reserved) by (nonlinear_arith)
        requires
            reserved % 8192 == 0,
    ;
    assert(n < reserved + 8192 ==> n / 8192 == reserved / 8192) by (nonlinear_arith)
        requires
            reserved % 8192 == 0,
            reserved <= n,
    ;
}

impl<T> Vec<T> {
    /// `values` in reverse order, so that popping hands them out in order.
    fn reversed(values: std::vec::Vec<T>) -> (rest: std::vec::Vec<T>)
        ensures
            rest@.len() == values@.len(),
            forall|i: int| 0 <= i < values@.len() ==> #[trigger] rest@[i] == values@[values@.len() - 1 - i],
    {
        let ghost orig = values@;
        let mut values = values;
        let mut rest: std::vec::Vec<T> = std::vec::Vec::new();
        while values.len() > 0
            invariant
                values@ == orig.subrange(0, values@.len() as int),
                rest@.len() + values@.len() == orig.len(),
                forall|i: int| 0 <= i < rest@.len() ==> #[trigger] rest@[i] == orig[orig.len() - 1 - i],
            decreases values@.len(),
        {
            let v = values.pop().unwrap();
            rest.push(v);
        }
        rest
    }

    /// Whether an extension by `n` values with lower size bound `hint` fits.
    pub fn extension_fits(&self, n: usize, hint: usize) -> (b: bool)
        requires
            self.wf(),
        ensures
            b == extension_fits(self@.len(), n as nat, hint as nat),
    {
        if hint > MAX_ENTRIES as usize {
            return false;
        }
        let reserved: u64 = if hint == 0 {
            0
        } else if n >= hint {
            hint as u64
        } else {
            let blocks = RESERVATION_CHUNK_SIZE as u64 * (n as u64 / RESERVATION_CHUNK_SIZE as u64 + 1);
            if (hint as u64) < blocks {
                hint as u64
            } else {
                blocks
            }
        };
        if self.inflight + reserved > MAX_ENTRIES as u64 {
            return false;
        }
        if n as u64 > reserved {
            (n as u64) <= MAX_ENTRIES as u64 + 1 - self.inflight
        } else {
            true
        }
    }

    /// Appends `values`, in order, where `hint` is the lower bound on their number
    /// that their source reported: indices are reserved in blocks of
    /// `RESERVATION_CHUNK_SIZE` until `hint` are claimed, each block is filled from
    /// the values, and the values left over are pushed one by one. A block that the
    /// values do not fill keeps its unwritten positions, which read as absent.
    pub fn extend_with_hint<F: Fn(&T, &mut [Utf32String])>(
        &mut self,
        values: std::vec::Vec<T>,
        hint: usize,
        fill_columns: F,
    )
        requires
            old(self).wf(),
            extension_fits(old(self)@.len(), values@.len(), hint as nat),
            forall|v: &T, cols: &mut [Utf32String]| call_requires(fill_columns, (v, cols)),
        ensures
            final(self).wf(),
            final(self).spec_columns() == old(self).spec_columns(),
            extended_by(old(self)@, final(self)@, values@, hint as nat),
            forall|i: int| #![trigger final(self)@[i]] old(self)@.len() <= i < old(self)@.len() + values@.len() ==> {
                &&& final(self)@[i] is Some
                &&& exists|cols: &mut [Utf32String]| {
                    &&& cols@.len() == old(self).spec_columns()
                    &&& forall|j: int| 0 <= j < cols@.len() ==> (#[trigger] cols@[j])@ == Seq::<char>::empty()
                    &&& #[trigger] call_ensures(fill_columns, (&values@[i - old(self)@.len()], cols), ())
                    &&& final(self)@[i]->0.matcher_columns@ == final(cols)@
                }
            },
            grows_into(old(self), final(self)),
            forall|b: int| #[trigger] old(self).allocated(b) ==> final(self).allocated(b),
            forall|b: int| #[trigger] final(self).allocated(b) ==> old(self).allocated(b)
                || holds_index_in(b, old(self)@.len() as int, final(self)@.len() as int),
    {
        let ghost start = self@.len();
        let ghost vals = values@;
        self.extend_blocks(values, hint, fill_columns);
        proof {
            assert forall|i: int| start <= i < start + vals.len() implies {
                &&& (#[trigger] self@[i]) is Some
                &&& self@[i]->0.value == vals[i - start]
                &&& exists|cols: &mut [Utf32String]| {
                    &&& cols@.len() == old(self).spec_columns()
                    &&& forall|j: int| 0 <= j < cols@.len() ==> (#[trigger] cols@[j])@ == Seq::<char>::empty()
                    &&& #[trigger] call_ensures(fill_columns, (&vals[i - start], cols), ())
                    &&& self@[i]->0.matcher_columns@ == final(cols)@
                }
            } by {
                assert(self@[start + (i - start)] == self@[i]);
            }
            assert forall|i: int| start + vals.len() <= i < self@.len() implies (#[trigger] self@[i]) is None by {
                assert(self@[start + (i - start)] == self@[i]);
            }
        }
    }

    /// `extend_with_hint`, with its positions counted from the old end.
    fn extend_blocks<F: Fn(&T, &mut [Utf32String])>(
        &mut self,
        values: std::vec::Vec<T>,
        hint: usize,
        fill_columns: F,
    )
        requires
            old(self).wf(),
            extension_fits(old(self)@.len(), values@.len(), hint as nat),
            forall|v: &T, cols: &mut [Utf32String]| call_requires(fill_columns, (v, cols)),
        ensures
            final(self).wf(),
            final(self).spec_columns() == old(self).spec_columns(),
            final(self)@.len() == old(self)@.len() + extension_len(values@.len(), hint as nat),
            final(self)@.subrange(0, old(self)@.len() as int) == old(self)@,
            forall|i: int| 0 <= i < values@.len() ==> {
                &&& (#[trigger] final(self)@[old(self)@.len() + i]) is Some
                &&& final(self)@[old(self)@.len() + i]->0.value == values@[i]
                &&& exists|cols: &mut [Utf32String]| {
                    &&& cols@.len() == old(self).spec_columns()
                    &&& forall|j: int| 0 <= j < cols@.len() ==> (#[trigger] cols@[j])@ == Seq::<char>::empty()
                    &&& #[trigger] call_ensures(fill_columns, (&values@[i], cols), ())
                    &&& final(self)@[old(self)@.len() + i]->0.matcher_columns@ == final(cols)@
                }
            },
            forall|i: int| values@.len() <= i < extension_len(values@.len(), hint as nat)
                ==> (#[trigger] final(self)@[old(self)@.len() + i]) is None,
            forall|b: int| #[trigger] old(self).allocated(b) ==> final(self).allocated(b),
            forall|b: int| #[trigger] final(self).allocated(b) ==> old(self).allocated(b)
                || holds_index_in(b, old(self)@.len() as int, final(self)@.len() as int),
    {
        let ghost vals = values@;
        let ghost start = self@.len();
        let ghost n = vals.len();
        let mut rest = Self::reversed(values);
        let mut remaining: u32 = hint as u32;
        if remaining == 0 {
            self.push_remaining(&mut rest, Ghost(vals), fill_columns);
            return;
        }
        while remaining != 0
            invariant
                self.wf(),
                self.spec_columns() == old(self).spec_columns(),
                remaining <= hint,
                0 < hint,
                hint == hint as u32,
                remaining > 0 ==> (hint - remaining) % (RESERVATION_CHUNK_SIZE as int) == 0,
                extension_fits(start, n, hint as nat),
                start == old(self)@.len(),
                n == vals.len(),
                vals == values@,
                rest@.len() + (hint - remaining) == n,
                forall|i: int| 0 <= i < rest@.len() ==> #[trigger] rest@[i] == vals[n - 1 - i],
                self@.len() == start + (hint - remaining),
                self@.subrange(0, start as int) == old(self)@,
                forall|i: int| 0 <= i < hint - remaining ==> {
                    &&& (#[trigger] self@[start + i]) is Some
                    &&& self@[start + i]->0.value == vals[i]
                    &&& exists|cols: &mut [Utf32String]| {
                        &&& cols@.len() == old(self).spec_columns()
                        &&& forall|j: int| 0 <= j < cols@.len() ==> (#[trigger] cols@[j])@ == Seq::<char>::empty()
                        &&& #[trigger] call_ensures(fill_columns, (&vals[i], cols), ())
                        &&& self@[start + i]->0.matcher_columns@ == final(cols)@
                    }
                },
                forall|b: int| #[trigger] old(self).allocated(b) ==> self.allocated(b),
                forall|b: int| #[trigger] self.allocated(b) ==> old(self).allocated(b)
                    || holds_index_in(b, old(self)@.len() as int, self@.len() as int),
                forall|v: &T, cols: &mut [Utf32String]| call_requires(fill_columns, (v, cols)),
            decreases remaining,
        {
            let count = if remaining < RESERVATION_CHUNK_SIZE {
                remaining
            } else {
                RESERVATION_CHUNK_SIZE
            };
            let ghost reserved: nat = (hint - remaining) as nat;
            proof {
                lemma_block_within_reservation(n, hint as nat, reserved);
            }
            let ghost before = self@;
            let start_index = self.inflight as u32;
            self.reserve(count);
            let start_location = Location::of(start_index);
            self.get_or_alloc(start_location.bucket, start_location.bucket_len);
            let mut inserted: u32 = 0;
            while inserted < count && rest.len() > 0
                invariant
                    self.wf(),
                    self.spec_columns() == old(self).spec_columns(),
                    inserted <= count,
                    start_index as int == start + reserved,
                    start + reserved + count <= MAX_ENTRIES,
                    self@.len() == start + reserved + count,
                    rest@.len() + reserved + inserted == n,
                    forall|i: int| 0 <= i < rest@.len() ==> #[trigger] rest@[i] == vals[n - 1 - i],
                    self@.subrange(0, start as int) == old(self)@,
                    forall|i: int| 0 <= i < reserved + inserted ==> {
                        &&& (#[trigger] self@[start + i]) is Some
                        &&& self@[start + i]->0.value == vals[i]
                        &&& exists|cols: &mut [Utf32String]| {
                            &&& cols@.len() == old(self).spec_columns()
                            &&& forall|j: int| 0 <= j < cols@.len() ==> (#[trigger] cols@[j])@ == Seq::<char>::empty()
                            &&& #[trigger] call_ensures(fill_columns, (&vals[i], cols), ())
                            &&& self@[start + i]->0.matcher_columns@ == final(cols)@
                        }
                    },
                    forall|i: int| reserved + inserted <= i < reserved + count ==> (#[trigger] self@[start + i]) is None,
                    inserted == 0 ==> self.allocated(bucket_of(start_index as int)),
                    inserted > 0 ==> self.allocated(bucket_of(start_index + inserted - 1)),
                    forall|b: int| #[trigger] old(self).allocated(b) ==> self.allocated(b),
                    forall|b: int| #[trigger] self.allocated(b) ==> old(self).allocated(b)
                        || holds_index_in(b, old(self)@.len() as int, self@.len() as int),
                    forall|v: &T, cols: &mut [Utf32String]| call_requires(fill_columns, (v, cols)),
                decreases count - inserted,
            {
                let v = rest.pop().unwrap();
                let index = start_index + inserted;
                let location = Location::of(index);
                if location.entry == 0 && inserted != 0 {
                    self.get_or_alloc(location.bucket, location.bucket_len);
                }
                proof {
                    if inserted > 0 && location.entry != 0 {
                        lemma_location_of_index(index - 1);
                        lemma_index_of_location(location.bucket as int, location.entry - 1);
                    }
                }
                let entry = Self::filled_entry(v, &fill_columns, self.columns);
                let ghost pre = self@;
                self.write_entry(index, location, entry);
                inserted = inserted + 1;
                proof {
                    assert(self@.subrange(0, start as int) =~= pre.subrange(0, start as int));
                }
            }
            if inserted != count {
                proof {
                    assert(self@.len() == start + extension_len(n, hint as nat));
                }
                return;
            }
            remaining = remaining - count;
        }
        let ghost mid = self@;
        self.push_remaining(&mut rest, Ghost(vals), fill_columns);
        proof {
            assert forall|i: int| 0 <= i < n implies {
                &&& (#[trigger] self@[start + i]) is Some
                &&& self@[start + i]->0.value == vals[i]
                &&& exists|cols: &mut [Utf32String]| {
                    &&& cols@.len() == old(self).spec_columns()
                    &&& forall|j: int| 0 <= j < cols@.len() ==> (#[trigger] cols@[j])@ == Seq::<char>::empty()
                    &&& #[trigger] call_ensures(fill_columns, (&vals[i], cols), ())
                    &&& self@[start + i]->0.matcher_columns@ == final(cols)@
                }
            } by {
                if i < hint {
                    assert(self@.subrange(0, start + hint) == mid);
                    assert(self@[start + i] == mid[start + i]);
                } else {
                    assert(self@[start + hint + (i - hint)] == self@[start + i]);
                }
            }
            assert(self@.subrange(0, start as int) =~= mid.subrange(0, start as int));
        }
    }

    /// Hands out the next `count` indices, leaving their positions unwritten.
    fn reserve(&mut self, count: u32)
        requires
            old(self).wf(),
            old(self)@.len() + count <= MAX_ENTRIES + 1,
        ensures
            final(self).wf(),
            final(self)@ == old(self)@ + Seq::new(count as nat, |i: int| None::<Entry<T>>),
            final(self).spec_columns() == old(self).spec_columns(),
            forall|b: int| #[trigger] final(self).allocated(b) == old(self).allocated(b),
    {
        let ghost pre = *self;
        assert(pre@.len() == pre.inflight);
        self.inflight = self.inflight + count as u64;
        proof {
            assert forall|b: int, e: int| #[trigger] self.stored(b, e) is Some
                implies bucket_first_index(b) + e < self.inflight by {
                assert(pre.stored(b, e) is Some);
            }
            assert forall|i: int| 0 <= i < self.reserved() implies #[trigger] self.slot(i) == (if i < pre.reserved() {
                pre.slot(i)
            } else {
                None
            }) by {
                if i >= pre.reserved() && self.slot(i) is Some {
                    lemma_location_of_index(i);
                }
            }
            assert(self@ =~= pre@ + Seq::new(count as nat, |i: int| None::<Entry<T>>));
        }
    }
}


impl<T> Vec<T> {
    /// Pushes the values that `rest` holds in reverse order, emptying it; `rest`
    /// holds the last values of `vals`.
    fn push_remaining<F: Fn(&T, &mut [Utf32String])>(
        &mut self,
        rest: &mut std::vec::Vec<T>,
        Ghost(vals): Ghost<Seq<T>>,
        fill_columns: F,
    )
        requires
            old(self).wf(),
            old(rest)@.len() <= vals.len(),
            forall|i: int| 0 <= i < old(rest)@.len() ==> #[trigger] old(rest)@[i] == vals[vals.len() - 1 - i],
            old(self)@.len() + old(rest)@.len() <= MAX_ENTRIES + 1,
            forall|v: &T, cols: &mut [Utf32String]| call_requires(fill_columns, (v, cols)),
        ensures
            final(self).wf(),
            final(rest)@.len() == 0,
            final(self).spec_columns() == old(self).spec_columns(),
            final(self)@.len() == old(self)@.len() + old(rest)@.len(),
            final(self)@.subrange(0, old(self)@.len() as int) == old(self)@,
            forall|i: int| 0 <= i < old(rest)@.len() ==> {
                &&& (#[trigger] final(self)@[old(self)@.len() + i]) is Some
                &&& final(self)@[old(self)@.len() + i]->0.value == vals[vals.len() - old(rest)@.len() + i]
                &&& exists|cols: &mut [Utf32String]| {
                    &&& cols@.len() == old(self).spec_columns()
                    &&& forall|j: int| 0 <= j < cols@.len() ==> (#[trigger] cols@[j])@ == Seq::<char>::empty()
                    &&& #[trigger] call_ensures(fill_columns, (&vals[vals.len() - old(rest)@.len() + i], cols), ())
                    &&& final(self)@[old(self)@.len() + i]->0.matcher_columns@ == final(cols)@
                }
            },
            forall|b: int| #[trigger] old(self).allocated(b) ==> final(self).allocated(b),
            forall|b: int| #[trigger] final(self).allocated(b) ==> old(self).allocated(b)
                || holds_index_in(b, old(self)@.len() as int, final(self)@.len() as int),
    {
        let ghost start = self@.len();
        let ghost total = rest@.len();
        let ghost skipped = vals.len() - total;
        while rest.len() > 0
            invariant
                self.wf(),
                self.spec_columns() == old(self).spec_columns(),
                total == old(rest)@.len(),
                start == old(self)@.len(),
                skipped == vals.len() - total,
                rest@.len() <= total,
                forall|i: int| 0 <= i < rest@.len() ==> #[trigger] rest@[i] == vals[vals.len() - 1 - i],
                self@.len() == start + (total - rest@.len()),
                start + total <= MAX_ENTRIES + 1,
                self@.subrange(0, start as int) == old(self)@,
                forall|i: int| 0 <= i < total - rest@.len() ==> {
                    &&& (#[trigger] self@[start + i]) is Some
                    &&& self@[start + i]->0.value == vals[skipped + i]
                    &&& exists|cols: &mut [Utf32String]| {
                        &&& cols@.len() == old(self).spec_columns()
                        &&& forall|j: int| 0 <= j < cols@.len() ==> (#[trigger] cols@[j])@ == Seq::<char>::empty()
                        &&& #[trigger] call_ensures(fill_columns, (&vals[skipped + i], cols), ())
                        &&& self@[start + i]->0.matcher_columns@ == final(cols)@
                    }
                },
                forall|b: int| #[trigger] old(self).allocated(b) ==> self.allocated(b),
                forall|b: int| #[trigger] self.allocated(b) ==> old(self).allocated(b)
                    || holds_index_in(b, old(self)@.len() as int, self@.len() as int),
                forall|v: &T, cols: &mut [Utf32String]| call_requires(fill_columns, (v, cols)),
            decreases rest@.len(),
        {
            let value = rest.pop().unwrap();
            let ghost k = total - rest@.len() - 1;
            assert(value == vals[skipped + k]);
            let entry = Self::filled_entry(value, &fill_columns, self.columns);
            let ghost pre = self@;
            let ghost e = entry;
            self.push_entry(entry);
            proof {
                assert(self@.subrange(0, start as int) =~= pre.subrange(0, start as int));
            }
        }
    }
}


impl<T> Vec<T> {
    /// Extends the vector by appending all elements that `values` yields, in order.
    ///
    /// Indices are reserved as `extend_with_hint` describes, with the lower bound
    /// that `values` reports on its length. Where the vector cannot take the
    /// elements (that lower bound is above `MAX_ENTRIES`, or the elements would
    /// overflow the maximum capacity), the vector is left unchanged, no value is
    /// handed to `fill_columns`, and `CapacityError` is returned: it stands for
    /// the "overflowed maximum capacity" panic. All values are taken from
    /// `values` before the first call of `fill_columns`.
    pub fn extend<I: Iterator<Item = T>, F: Fn(&T, &mut [Utf32String])>(
        &mut self,
        values: I,
        fill_columns: F,
    ) -> (r: Result<(), CapacityError>)
        requires
            old(self).wf(),
            forall|v: &T, cols: &mut [Utf32String]| call_requires(fill_columns, (v, cols)),
        ensures
            final(self).wf(),
            final(self).spec_columns() == old(self).spec_columns(),
            final(self)@.len() >= old(self)@.len(),
            final(self)@.subrange(0, old(self)@.len() as int) == old(self)@,
            r is Err ==> final(self)@ == old(self)@,
            r is Ok ==> exists|vals: Seq<T>, hint: nat| #[trigger] extended_by(old(self)@, final(self)@, vals, hint)
                && extension_fits(old(self)@.len(), vals.len(), hint) && forall|i: int| #![trigger final(self)@[i]] old(self)@.len() <= i < old(self)@.len() + vals.len() ==> {
                    &&& final(self)@[i] is Some
                    &&& exists|cols: &mut [Utf32String]| {
                        &&& cols@.len() == old(self).spec_columns()
                        &&& forall|j: int| 0 <= j < cols@.len() ==> (#[trigger] cols@[j])@ == Seq::<char>::empty()
                        &&& #[trigger] call_ensures(fill_columns, (&vals[i - old(self)@.len()], cols), ())
                        &&& final(self)@[i]->0.matcher_columns@ == final(cols)@
                    }
                },
            values.obeys_prophetic_iter_laws() && r is Ok ==> exists|hint: nat| #[trigger] extended_by(
                old(self)@,
                final(self)@,
                values.remaining(),
                hint,
            ) && extension_fits(old(self)@.len(), values.remaining().len(), hint),
            values.obeys_prophetic_iter_laws() ==> exists|hint: nat| {
                &&& (r is Ok <==> #[trigger] extension_fits(old(self)@.len(), values.remaining().len(), hint))
                &&& (r is Ok ==> extended_by(old(self)@, final(self)@, values.remaining(), hint))
            },
            values.obeys_prophetic_iter_laws() && r is Ok ==> forall|i: int| #![trigger final(self)@[i]] old(self)@.len() <= i < old(self)@.len() + values.remaining().len() ==> {
                &&& final(self)@[i] is Some
                &&& exists|cols: &mut [Utf32String]| {
                    &&& cols@.len() == old(self).spec_columns()
                    &&& forall|j: int| 0 <= j < cols@.len() ==> (#[trigger] cols@[j])@ == Seq::<char>::empty()
                    &&& #[trigger] call_ensures(fill_columns, (&values.remaining()[i - old(self)@.len()], cols), ())
                    &&& final(self)@[i]->0.matcher_columns@ == final(cols)@
                }
            },
            values.obeys_prophetic_iter_laws() && old(self)@.len() + values.remaining().len() > MAX_ENTRIES + 1
                ==> r is Err,
            grows_into(old(self), final(self)),
            forall|b: int| #[trigger] old(self).allocated(b) ==> final(self).allocated(b),
            forall|b: int| #[trigger] final(self).allocated(b) ==> old(self).allocated(b)
                || holds_index_in(b, old(self)@.len() as int, final(self)@.len() as int),
    {
        let hint = size_hint_lower_bound(&values);
        let r = self.extend_with_lower_bound(values, hint, fill_columns);
        proof {
            if r is Ok {
                let vals = choose|vals: Seq<T>| #[trigger] extended_by(old(self)@, self@, vals, hint as nat)
                    && extension_fits(old(self)@.len(), vals.len(), hint as nat);
                assert(extended_by(old(self)@, self@, vals, hint as nat));
            }
            if values.obeys_prophetic_iter_laws() {
                assert(extension_fits(old(self)@.len(), values.remaining().len(), hint as nat) <==> r is Ok);
            }
        }
        r
    }

    /// Extends the vector by appending all elements that `values` yields, in
    /// order, where `hint` is the lower bound that `values` reported on its
    /// length: `extend` once it has asked `values` for that bound.
    ///
    /// The extension succeeds exactly when it fits (`extension_fits`); then the
    /// vector is extended as `extend_with_hint` describes. Otherwise the vector is
    /// left unchanged, no value is handed to `fill_columns`, and `CapacityError`
    /// is returned. All values are taken from `values` before the first call of
    /// `fill_columns`.
    pub fn extend_with_lower_bound<I: Iterator<Item = T>, F: Fn(&T, &mut [Utf32String])>(
        &mut self,
        values: I,
        hint: usize,
        fill_columns: F,
    ) -> (r: Result<(), CapacityError>)
        requires
            old(self).wf(),
            forall|v: &T, cols: &mut [Utf32String]| call_requires(fill_columns, (v, cols)),
        ensures
            final(self).wf(),
            final(self).spec_columns() == old(self).spec_columns(),
            final(self)@.len() >= old(self)@.len(),
            final(self)@.subrange(0, old(self)@.len() as int) == old(self)@,
            r is Err ==> final(self)@ == old(self)@,
            r is Ok ==> exists|vals: Seq<T>| #[trigger] extended_by(old(self)@, final(self)@, vals, hint as nat)
                && extension_fits(old(self)@.len(), vals.len(), hint as nat) && forall|i: int| #![trigger final(self)@[i]] old(self)@.len() <= i < old(self)@.len() + vals.len() ==> {
                    &&& final(self)@[i] is Some
                    &&& exists|cols: &mut [Utf32String]| {
                        &&& cols@.len() == old(self).spec_columns()
                        &&& forall|j: int| 0 <= j < cols@.len() ==> (#[trigger] cols@[j])@ == Seq::<char>::empty()
                        &&& #[trigger] call_ensures(fill_columns, (&vals[i - old(self)@.len()], cols), ())
                        &&& final(self)@[i]->0.matcher_columns@ == final(cols)@
                    }
                },
            values.obeys_prophetic_iter_laws() ==> (r is Ok <==> extension_fits(
                old(self)@.len(),
                values.remaining().len(),
                hint as nat,
            )),
            values.obeys_prophetic_iter_laws() && r is Ok ==> extended_by(
                old(self)@,
                final(self)@,
                values.remaining(),
                hint as nat,
            ),
            values.obeys_prophetic_iter_laws() && r is Ok ==> forall|i: int| #![trigger final(self)@[i]] old(self)@.len() <= i < old(self)@.len() + values.remaining().len() ==> {
                &&& final(self)@[i] is Some
                &&& exists|cols: &mut [Utf32String]| {
                    &&& cols@.len() == old(self).spec_columns()
                    &&& forall|j: int| 0 <= j < cols@.len() ==> (#[trigger] cols@[j])@ == Seq::<char>::empty()
                    &&& #[trigger] call_ensures(fill_columns, (&values.remaining()[i - old(self)@.len()], cols), ())
                    &&& final(self)@[i]->0.matcher_columns@ == final(cols)@
                }
            },
            values.obeys_prophetic_iter_laws() && old(self)@.len() + values.remaining().len() > MAX_ENTRIES + 1
                ==> r is Err,
            grows_into(old(self), final(self)),
            forall|b: int| #[trigger] old(self).allocated(b) ==> final(self).allocated(b),
            forall|b: int| #[trigger] final(self).allocated(b) ==> old(self).allocated(b)
                || holds_index_in(b, old(self)@.len() as int, final(self)@.len() as int),
    {
        proof {
            lemma_grows_into_reflexive(self);
        }
        if hint > MAX_ENTRIES as usize {
            return Err(CapacityError);
        }
        let ghost start = values;
        let mut values = values;
        let room: usize = (MAX_ENTRIES as u64 + 1 - self.inflight) as usize;
        let mut items: std::vec::Vec<T> = std::vec::Vec::new();
        let mut overflow = false;
        loop
            invariant_except_break
                !overflow,
                start.obeys_prophetic_iter_laws() ==> items@ + values.remaining() == start.remaining(),
            invariant
                items@.len() <= room,
                room == MAX_ENTRIES + 1 - old(self)@.len(),
                *self == *old(self),
                self.wf(),
                values.obeys_prophetic_iter_laws() == start.obeys_prophetic_iter_laws(),
            ensures
                items@.len() <= room,
                *self == *old(self),
                !overflow && start.obeys_prophetic_iter_laws() ==> items@ == start.remaining(),
                overflow && start.obeys_prophetic_iter_laws() ==> start.remaining().len() > room,
            decreases room - items@.len(),
        {
            let ghost pending = values.remaining();
            match values.next() {
                Some(v) => {
                    if items.len() == room {
                        proof {
                            if start.obeys_prophetic_iter_laws() {
                                assert(pending =~= seq![v] + values.remaining());
                                assert(start.remaining().len() == items@.len() + pending.len());
                            }
                        }
                        overflow = true;
                        break;
                    }
                    let ghost before = items@;
                    items.push(v);
                    proof {
                        if start.obeys_prophetic_iter_laws() {
                            assert(items@ + values.remaining() =~= before + pending);
                        }
                    }
                },
                None => {
                    proof {
                        if start.obeys_prophetic_iter_laws() {
                            assert(items@ =~= items@ + values.remaining());
                        }
                    }
                    break;
                },
            }
        }
        if overflow {
            proof {
                lemma_grows_into_reflexive(self);
                lemma_overflow_does_not_fit();
            }
            return Err(CapacityError);
        }
        self.try_extend_with_hint(items, hint, fill_columns)
    }

    /// Appends `values` as `extend_with_hint` does where the extension fits in the
    /// vector; otherwise leaves the vector unchanged and returns the capacity error.
    pub fn try_extend_with_hint<F: Fn(&T, &mut [Utf32String])>(
        &mut self,
        values: std::vec::Vec<T>,
        hint: usize,
        fill_columns: F,
    ) -> (r: Result<(), CapacityError>)
        requires
            old(self).wf(),
            forall|v: &T, cols: &mut [Utf32String]| call_requires(fill_columns, (v, cols)),
        ensures
            final(self).wf(),
            final(self).spec_columns() == old(self).spec_columns(),
            r is Ok <==> extension_fits(old(self)@.len(), values@.len(), hint as nat),
            r is Ok ==> extended_by(old(self)@, final(self)@, values@, hint as nat),
            r is Ok ==> forall|i: int| #![trigger final(self)@[i]] old(self)@.len() <= i < old(self)@.len() + values@.len() ==> {
                &&& final(self)@[i] is Some
                &&& exists|cols: &mut [Utf32String]| {
                    &&& cols@.len() == old(self).spec_columns()
                    &&& forall|j: int| 0 <= j < cols@.len() ==> (#[trigger] cols@[j])@ == Seq::<char>::empty()
                    &&& #[trigger] call_ensures(fill_columns, (&values@[i - old(self)@.len()], cols), ())
                    &&& final(self)@[i]->0.matcher_columns@ == final(cols)@
                }
            },
            r is Err ==> final(self)@ == old(self)@,
            r is Err ==> forall|b: int| #[trigger] final(self).allocated(b) == old(self).allocated(b),
            grows_into(old(self), final(self)),
            forall|b: int| #[trigger] old(self).allocated(b) ==> final(self).allocated(b),
            forall|b: int| #[trigger] final(self).allocated(b) ==> old(self).allocated(b)
                || holds_index_in(b, old(self)@.len() as int, final(self)@.len() as int),
    {
        if !self.extension_fits(values.len(), hint) {
            proof {
                lemma_grows_into_reflexive(self);
            }
            return Err(CapacityError);
        }
        let ghost pre = self@;
        let ghost vals = values@;
        self.extend_with_hint(values, hint, fill_columns);
        proof {
            assert(self@.subrange(0, pre.len() as int) == pre);
            assert(extended_by(pre, self@, vals, hint as nat));
        }
        Ok(())
    }

    /// An iterator over the positions from `start` to the current end, which it
    /// does not follow as more elements are pushed.
    pub fn snapshot(&self, start: u32) -> (iter: Iter<'_, T>)
        requires
            self.wf(),
            start <= self@.len(),
        ensures
            iter.wf(),
            iter.index() == start,
            iter.spec_end() == self@.len(),
            iter.source() == self,
    {
        let end = self.count();
        let location = if start < end {
            Location::of(start)
        } else {
            Location::of(0)
        };
        Iter { location, vec: self, idx: start, end }
    }

    /// A parallel iterator over the positions from `start` to the current end,
    /// which it does not follow as more elements are pushed.
    pub fn par_snapshot(&self, start: u32) -> (iter: ParIter<'_, T>)
        requires
            self.wf(),
            start <= self@.len(),
        ensures
            iter.wf(),
            iter.spec_start() == start,
            iter.spec_end() == self@.len(),
            iter.source() == self,
    {
        let end = self.count();
        ParIter { start, end, vec: self }
    }
}

/// A position of a snapshot: its index and the element there, if it was written.
pub type SnapshotItem<'v, T> = (u32, Option<Item<'v, T>>);

/// An iterator over a fixed range of a [`Vec`]'s positions.
pub struct Iter<'v, T> {
    location: Location,
    idx: u32,
    end: u32,
    vec: &'v Vec<T>,
}

impl<'v, T> Iter<'v, T> {
    /// The index of the next position.
    pub closed spec fn index(&self) -> u32 {
        self.idx
    }

    /// The index past the last position.
    pub closed spec fn spec_end(&self) -> u32 {
        self.end
    }

    /// The vector iterated over.
    pub closed spec fn source(&self) -> &'v Vec<T> {
        self.vec
    }

    /// The iterator's well-formedness: its range lies within the vector, and its
    /// location is that of the next index, or the end of the bucket before it.
    pub closed spec fn wf(&self) -> bool {
        &&& self.vec.wf()
        &&& self.idx <= self.end
        &&& self.end <= self.vec@.len()
        &&& self.end <= MAX_ENTRIES + 1
        &&& self.location.bucket < BUCKETS ==> self.location.bucket_len == bucket_capacity(self.location.bucket as int)
        &&& self.idx < self.end ==> {
            ||| self.location.bucket == bucket_of(self.idx as int) && self.location.entry == entry_of(self.idx as int)
            ||| self.location.entry == self.location.bucket_len && self.location.bucket + 1 == bucket_of(self.idx as int)
                && entry_of(self.idx as int) == 0
        }
    }

    /// The index past the last position.
    pub fn end(&self) -> (e: u32)
        ensures
            e == self.spec_end(),
    {
        self.end
    }

    /// The number of positions left, as both bounds.
    pub fn size_hint(&self) -> (hint: (usize, Option<usize>))
        requires
            self.wf(),
        ensures
            hint.0 == self.spec_end() - self.index(),
            hint.1 == Some(hint.0),
    {
        ((self.end - self.idx) as usize, Some((self.end - self.idx) as usize))
    }

    /// The next position: its index and the element there, if it was written.
    #[verifier::loop_isolation(false)]
    pub fn next(&mut self) -> (r: Option<SnapshotItem<'v, T>>)
        requires
            old(self).wf(),
        ensures
            final(self).wf(),
            final(self).spec_end() == old(self).spec_end(),
            final(self).source() == old(self).source(),
            old(self).index() == old(self).spec_end() ==> r is None && final(self).index() == old(self).index(),
            old(self).index() < old(self).spec_end() ==> {
                &&& final(self).index() == old(self).index() + 1
                &&& r matches Some((i, it)) && i == old(self).index()
                    && item_of(it, slot_at(old(self).source()@, i as int))
            },
            old(self).index() < old(self).spec_end() ==> advanced(*old(self), *final(self)),
            next_step(*old(self), *final(self)),
    {
        if self.end == self.idx {
            return None;
        }
        let vec: &'v Vec<T> = self.vec;
        let ghost start = *self;
        loop
            invariant
                self.vec == vec,
                self.idx == start.idx,
                self.end == start.end,
                start.wf(),
                start.vec == vec,
                vec.wf(),
                self.idx < self.end,
                self.location.bucket < BUCKETS ==> self.location.bucket_len == bucket_capacity(self.location.bucket as int),
                self.location.bucket == bucket_of(self.idx as int) && self.location.entry == entry_of(self.idx as int)
                    || self.location.entry == self.location.bucket_len && self.location.bucket + 1 == bucket_of(self.idx as int)
                    && entry_of(self.idx as int) == 0,
            decreases (if self.location.entry < self.location.bucket_len { 0int } else { 1int }),
        {
            proof {
                lemma_location_of_index(self.idx as int);
            }
            if self.location.entry < self.location.bucket_len {
                let index = self.idx;
                let location_entry = self.location.entry;
                let item = match &vec.buckets[self.location.bucket as usize].entries {
                    None => None,
                    Some(entries) => match &entries[location_entry as usize] {
                        Some(entry) => Some(Item { data: &entry.value, matcher_columns: entry.matcher_columns.as_slice() }),
                        None => None,
                    },
                };
                proof {
                    if vec.slot(index as int) is Some {
                        vec.lemma_written_is_reserved(index as int);
                    }
                }
                self.location.entry = self.location.entry + 1;
                self.idx = self.idx + 1;
                proof {
                    let b = self.location.bucket as int;
                    if self.idx < self.end {
                        lemma_location_of_index(self.idx as int);
                        if self.location.entry < self.location.bucket_len {
                            lemma_index_of_location(b, self.location.entry as int);
                        } else {
                            vstd::arithmetic::power2::lemma_pow2_unfold((b + 1 + 5) as nat);
                            vstd::arithmetic::power2::lemma2_to64();
                            if b + 1 < BUCKETS {
                                lemma_index_of_location(b + 1, 0);
                            }
                        }
                    }
                }
                return Some((index, item));
            }
            self.location.entry = 0;
            self.location.bucket = self.location.bucket + 1;
            if self.location.bucket < BUCKETS {
                self.location.bucket_len = Location::bucket_len(self.location.bucket);
            }
        }
    }
}

impl<'v, T> Iter<'v, T> {
    /// The last position left: its index and the element there, if it was written.
    pub fn next_back(&mut self) -> (r: Option<SnapshotItem<'v, T>>)
        requires
            old(self).wf(),
        ensures
            final(self).wf(),
            final(self).index() == old(self).index(),
            final(self).source() == old(self).source(),
            old(self).index() == old(self).spec_end() ==> r is None && final(self).spec_end() == old(self).spec_end(),
            old(self).index() < old(self).spec_end() ==> {
                &&& final(self).spec_end() == old(self).spec_end() - 1
                &&& r matches Some((i, it)) && i == final(self).spec_end()
                    && item_of(it, slot_at(old(self).source()@, i as int))
            },
    {
        if self.end == self.idx {
            return None;
        }
        self.end = self.end - 1;
        let vec: &'v Vec<T> = self.vec;
        Some((self.end, vec.get(self.end)))
    }
}

/// `after` is `before` moved on by one position by `next`.
pub open spec fn advanced<'v, T>(before: Iter<'v, T>, after: Iter<'v, T>) -> bool {
    &&& before.index() < before.spec_end()
    &&& after.index() == before.index() + 1
    &&& after.spec_end() == before.spec_end()
    &&& after.source() == before.source()
}

/// A snapshot is fixed in size: along any run of `next` calls that each yield a
/// position, the end and the vector stay the same, the indices are consecutive,
/// and at most `end - start` positions are yielded; a run that reaches the end,
/// after which `next` yields nothing, yields exactly `end - start` positions.
pub proof fn lemma_snapshot_run<'v, T>(run: Seq<Iter<'v, T>>)
    requires
        run.len() >= 1,
        run[0].index() <= run[0].spec_end(),
        forall|k: int| 0 <= k < run.len() - 1 ==> advanced(#[trigger] run[k], run[k + 1]),
    ensures
        run.last().index() == run[0].index() + (run.len() - 1),
        run.last().spec_end() == run[0].spec_end(),
        run.last().source() == run[0].source(),
        run.len() - 1 <= run[0].spec_end() - run[0].index(),
        run.last().index() == run.last().spec_end() ==> run.len() - 1 == run[0].spec_end() - run[0].index(),
    decreases run.len(),
{
    if run.len() > 1 {
        let shorter = run.drop_last();
        assert forall|k: int| 0 <= k < shorter.len() - 1 implies advanced(#[trigger] shorter[k], shorter[k + 1]) by {
            assert(advanced(run[k], run[k + 1]));
        }
        lemma_snapshot_run(shorter);
        assert(advanced(run[run.len() - 2], run[run.len() - 1]));
    }
}

/// `after` is `before` after one call of `next`: moved on by one position, or
/// unchanged at its end.
pub open spec fn next_step<'v, T>(before: Iter<'v, T>, after: Iter<'v, T>) -> bool {
    ||| advanced(before, after)
    ||| {
        &&& before.index() == before.spec_end()
        &&& after.index() == before.index()
        &&& after.spec_end() == before.spec_end()
        &&& after.source() == before.source()
    }
}

/// Along any run of `next` calls, whether they yield a position or not, the end
/// and the vector stay the same, and after `k` calls the index is `start + k`
/// until it reaches the end, where it stays: exactly `end - start` calls yield a
/// position (`next` yields one exactly when the index is before the end), as
/// many as `size_hint` gives.
pub proof fn lemma_next_keeps_end<'v, T>(run: Seq<Iter<'v, T>>)
    requires
        run.len() >= 1,
        run[0].index() <= run[0].spec_end(),
        forall|k: int| 0 <= k < run.len() - 1 ==> next_step(#[trigger] run[k], run[k + 1]),
    ensures
        forall|k: int| 0 <= k < run.len() ==> {
            &&& (#[trigger] run[k]).spec_end() == run[0].spec_end()
            &&& run[k].source() == run[0].source()
            &&& run[0].index() <= run[k].index() <= run[0].spec_end()
            &&& run[k].index() == if run[0].index() + k <= run[0].spec_end() {
                run[0].index() + k
            } else {
                run[0].spec_end() as int
            }
        },
    decreases run.len(),
{
    if run.len() > 1 {
        let shorter = run.drop_last();
        assert forall|k: int| 0 <= k < shorter.len() - 1 implies next_step(#[trigger] shorter[k], shorter[k + 1]) by {
            assert(next_step(run[k], run[k + 1]));
        }
        lemma_next_keeps_end(shorter);
        assert forall|k: int| 0 <= k < run.len() implies {
            &&& (#[trigger] run[k]).spec_end() == run[0].spec_end()
            &&& run[k].source() == run[0].source()
            &&& run[0].index() <= run[k].index() <= run[0].spec_end()
            &&& run[k].index() == if run[0].index() + k <= run[0].spec_end() {
                run[0].index() + k
            } else {
                run[0].spec_end() as int
            }
        } by {
            if k < run.len() - 1 {
                assert(run[k] == shorter[k]);
            } else {
                assert(shorter[k - 1] == run[k - 1]);
                assert(next_step(run[k - 1], run[k]));
            }
        }
    }
}

/// A parallel iterator over a fixed range of a [`Vec`]'s positions.
pub struct ParIter<'v, T> {
    end: u32,
    start: u32,
    vec: &'v Vec<T>,
}

impl<'v, T> ParIter<'v, T> {
    /// The index of the first position.
    pub closed spec fn spec_start(&self) -> u32 {
        self.start
    }

    /// The index past the last position.
    pub closed spec fn spec_end(&self) -> u32 {
        self.end
    }

    /// The vector iterated over.
    pub closed spec fn source(&self) -> &'v Vec<T> {
        self.vec
    }

    /// The range lies within the vector.
    pub closed spec fn wf(&self) -> bool {
        &&& self.vec.wf()
        &&& self.start <= self.end
        &&& self.end <= self.vec@.len()
        &&& self.end <= MAX_ENTRIES + 1
    }

    /// The index past the last position.
    pub fn end(&self) -> (e: u32)
        ensures
            e == self.spec_end(),
    {
        self.end
    }

    /// The number of positions.
    pub fn len(&self) -> (n: usize)
        requires
            self.wf(),
        ensures
            n == self.spec_end() - self.spec_start(),
    {
        (self.end - self.start) as usize
    }

    /// The producer over the same range, which the parallel iterator hands to its consumer.
    pub fn into_producer(self) -> (p: ParIterProducer<'v, T>)
        requires
            self.wf(),
        ensures
            p.wf(),
            p.spec_start() == self.spec_start(),
            p.spec_end() == self.spec_end(),
            p.source() == self.source(),
    {
        ParIterProducer { start: self.start, end: self.end, vec: self.vec }
    }
}

/// `j` lies in the range `start..end`.
pub open spec fn in_range(start: u32, end: u32, j: int) -> bool {
    start <= j < end
}

/// Splitting a range loses and repeats nothing: the two halves of `split_at`
/// hold exactly the positions of the whole, the left half all those before the
/// split point, over the same vector.
pub proof fn lemma_split_covers<'v, T>(
    whole: ParIterProducer<'v, T>,
    left: ParIterProducer<'v, T>,
    right: ParIterProducer<'v, T>,
)
    requires
        whole.spec_start() <= left.spec_end() <= whole.spec_end(),
        left.spec_start() == whole.spec_start(),
        right.spec_start() == left.spec_end(),
        right.spec_end() == whole.spec_end(),
        left.source() == whole.source(),
        right.source() == whole.source(),
    ensures
        (left.spec_end() - left.spec_start()) + (right.spec_end() - right.spec_start())
            == whole.spec_end() - whole.spec_start(),
        forall|j: int| #[trigger] in_range(whole.spec_start(), whole.spec_end(), j) ==> {
            &&& j < left.spec_end() ==> in_range(left.spec_start(), left.spec_end(), j)
            &&& j >= left.spec_end() ==> in_range(right.spec_start(), right.spec_end(), j)
        },
        forall|j: int| #[trigger] in_range(left.spec_start(), left.spec_end(), j) ==> in_range(whole.spec_start(), whole.spec_end(), j),
        forall|j: int| #[trigger] in_range(right.spec_start(), right.spec_end(), j) ==> in_range(whole.spec_start(), whole.spec_end(), j),
{
}

/// A splittable range of a [`Vec`]'s positions.
pub struct ParIterProducer<'v, T> {
    start: u32,
    end: u32,
    vec: &'v Vec<T>,
}

impl<'v, T> ParIterProducer<'v, T> {
    /// The index of the first position.
    pub closed spec fn spec_start(&self) -> u32 {
        self.start
    }

    /// The index past the last position.
    pub closed spec fn spec_end(&self) -> u32 {
        self.end
    }

    /// The vector iterated over.
    pub closed spec fn source(&self) -> &'v Vec<T> {
        self.vec
    }

    /// The range lies within the vector.
    pub closed spec fn wf(&self) -> bool {
        &&& self.vec.wf()
        &&& self.start <= self.end
        &&& self.end <= self.vec@.len()
        &&& self.end <= MAX_ENTRIES + 1
    }

    /// The number of positions.
    pub fn len(&self) -> (n: usize)
        requires
            self.wf(),
        ensures
            n == self.spec_end() - self.spec_start(),
    {
        (self.end - self.start) as usize
    }

    /// A sequential iterator over the range.
    pub fn into_iter(self) -> (iter: Iter<'v, T>)
        requires
            self.wf(),
        ensures
            iter.wf(),
            iter.index() == self.spec_start(),
            iter.spec_end() == self.spec_end(),
            iter.source() == self.source(),
    {
        let location = if self.start < self.end {
            Location::of(self.start)
        } else {
            Location::of(0)
        };
        Iter { location, idx: self.start, end: self.end, vec: self.vec }
    }

    /// The range split at `index` positions from its start: the positions before
    /// and the positions from there on.
    pub fn split_at(self, index: usize) -> (halves: (Self, Self))
        requires
            self.wf(),
            index <= self.spec_end() - self.spec_start(),
        ensures
            halves.0.wf(),
            halves.1.wf(),
            halves.0.spec_start() == self.spec_start(),
            halves.0.spec_end() == self.spec_start() + index,
            halves.1.spec_start() == self.spec_start() + index,
            halves.1.spec_end() == self.spec_end(),
            halves.0.source() == self.source(),
            halves.1.source() == self.source(),
    {
        let index = index as u32;
        (
            ParIterProducer { start: self.start, end: self.start + index, vec: self.vec },
            ParIterProducer { start: self.start + index, end: self.end, vec: self.vec },
        )
    }
}


/// Read after write: once `push` has stored `value` at `index` (its result),
/// `get(index)` reads `value` back, and every other index reads what it read
/// before. The requirements are what `push` ensures of the views before and after.
pub proof fn lemma_get_after_push<T>(
    before: Seq<Option<Entry<T>>>,
    after: Seq<Option<Entry<T>>>,
    index: int,
    value: T,
)
    requires
        index == before.len(),
        after.len() == before.len() + 1,
        after.drop_last() == before,
        after.last() is Some,
        after.last()->0.value == value,
    ensures
        slot_at(after, index) is Some,
        slot_at(after, index)->0.value == value,
        forall|j: int| j != index ==> #[trigger] slot_at(after, j) == slot_at(before, j),
{
    assert forall|j: int| j != index implies #[trigger] slot_at(after, j) == slot_at(before, j) by {
        if 0 <= j < before.len() {
            assert(after.drop_last()[j] == after[j]);
        }
    }
}

/// An extension whose values are at least as many as their reported lower bound
/// leaves no unwritten position: it adds exactly one position per value, as
/// pushing them one by one would.
pub proof fn lemma_truthful_hint_leaves_no_holes(n: nat, hint: nat)
    requires
        hint <= n,
    ensures
        extension_len(n, hint) == n,
{
}

/// An extension adds no more positions than its values or its reported lower
/// bound ask for, and leaves fewer than one reservation block unwritten.
pub proof fn lemma_holes_within_one_block(n: nat, hint: nat)
    ensures
        extension_len(n, hint) <= (if n > hint { n } else { hint }),
        extension_len(n, hint) <= n + RESERVATION_CHUNK_SIZE,
        extension_len(n, hint) >= n,
{
    assert(8192 * (n / 8192) <= n) by (nonlinear_arith);
}

} // verus!
