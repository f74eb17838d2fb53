//! Sets of chunk ranges.
//!
//! A set of chunks is held by the `range_collections` crate as a strictly
//! increasing sequence of boundaries: the set is off below the first boundary
//! and changes between on and off at every boundary. The functions of that
//! crate are called through the trusted functions of this module, whose
//! contracts speak of the boundaries.
use vstd::prelude::*;
use range_collections::{RangeSet2, RangeSetRef};
use crate::tree::{ByteNum, ChunkNum};

verus! {

/// A borrowed set of ranges of the `range_collections` crate. Nothing of its
/// inside is known here: [`range_boundaries`] names its boundaries.
#[verifier::external_type_specification]
#[verifier::external_body]
#[verifier::reject_recursive_types(T)]
pub struct ExRangeSetRef<T>(RangeSetRef<T>);

/// The boundaries of a borrowed set of chunk ranges.
pub uninterp spec fn range_boundaries(r: &RangeSetRef<u64>) -> Seq<u64>;

/// An owned set of chunk ranges: a `RangeSet2<u64>` of the `range_collections`
/// crate. [`ChunkRanges::boundaries_spec`] names its boundaries.
#[verifier::external_body]
pub struct ChunkRanges {
    inner: RangeSet2<u64>,
}

/// The boundaries of an owned set of chunk ranges.
pub uninterp spec fn chunk_ranges_boundaries(r: ChunkRanges) -> Seq<u64>;

/// True if every element of `b` is less than the elements after it.
pub open spec fn strictly_increasing(b: Seq<u64>) -> bool {
    forall|i: int, j: int| 0 <= i < j < b.len() ==> b[i] < b[j]
}

/// The number of elements at the start of `b` that are below `at`. For a
/// strictly increasing `b` this is the number of all elements below `at`.
pub open spec fn count_below(b: Seq<u64>, at: int) -> nat
    decreases b.len(),
{
    if b.len() == 0 || b[0] >= at {
        0
    } else {
        1 + count_below(b.skip(1), at)
    }
}

/// True if chunk `x` is in the set with boundaries `b`: an odd number of
/// boundaries is at or below `x`.
pub open spec fn ranges_contain(b: Seq<u64>, x: int) -> bool {
    count_below(b, x + 1) % 2 == 1
}

/// The chunks of the set with boundaries `b`.
pub open spec fn range_set(b: Seq<u64>) -> Set<int> {
    Set::new(|x: int| ranges_contain(b, x))
}

/// The boundaries of the left part of a set split at `at`: the boundaries
/// below `at`.
pub open spec fn split_left(b: Seq<u64>, at: u64) -> Seq<u64> {
    b.take(count_below(b, at as int) as int)
}

/// The boundaries of the right part of a set split at `at`: the boundaries
/// from `at` on, after the last boundary below `at` where the set is on just
/// below `at` and has no boundary at `at`, and without the boundary at `at`
/// where it ends a range.
pub open spec fn split_right(b: Seq<u64>, at: u64) -> Seq<u64> {
    let i = count_below(b, at as int) as int;
    if i % 2 == 0 {
        b.skip(i)
    } else if i < b.len() && b[i] == at {
        b.skip(i + 1)
    } else {
        b.skip(i - 1)
    }
}

/// True if the set with boundaries `b` has all chunks.
pub open spec fn is_all_spec(b: Seq<u64>) -> bool {
    b.len() == 1 && b[0] == 0
}

/// Calls `RangeSetRef::boundaries`, which hands out the boundaries of the set
/// as a slice. The crate keeps them strictly increasing.
#[verifier::external_body]
pub(crate) fn boundaries<'a>(r: &'a RangeSetRef<u64>) -> (b: &'a [u64])
    ensures
        b@ == range_boundaries(r),
        strictly_increasing(b@),
{
    r.boundaries()
}

/// Calls `RangeSetRef::is_empty`: true if the set has no boundary.
#[verifier::external_body]
pub(crate) fn is_empty(r: &RangeSetRef<u64>) -> (b: bool)
    ensures
        b == (range_boundaries(r).len() == 0),
{
    r.is_empty()
}

/// Calls `RangeSetRef::is_all`: true if the set has the one boundary 0.
#[verifier::external_body]
pub(crate) fn is_all(r: &RangeSetRef<u64>) -> (b: bool)
    ensures
        b == is_all_spec(range_boundaries(r)),
{
    r.is_all()
}

/// Calls `RangeSetRef::split`, which cuts the slice of boundaries at the
/// place a binary search for `at` gives: the left part is what lies before
/// it, the right part starts there, one earlier or one later as the parity
/// of the place and the presence of `at` ask.
#[verifier::external_body]
pub(crate) fn split<'a>(r: &'a RangeSetRef<u64>, at: u64) -> (res: (
    &'a RangeSetRef<u64>,
    &'a RangeSetRef<u64>,
))
    ensures
        range_boundaries(res.0) == split_left(range_boundaries(r), at),
        range_boundaries(res.1) == split_right(range_boundaries(r), at),
{
    r.split(at)
}

impl ChunkRanges {
    /// The boundaries of the set.
    pub open spec fn boundaries_spec(self) -> Seq<u64> {
        chunk_ranges_boundaries(self)
    }

    /// Calls `RangeSet::empty`: the set without boundaries.
    #[verifier::external_body]
    pub(crate) fn new_empty() -> (r: Self)
        ensures
            chunk_ranges_boundaries(r) == Seq::<u64>::empty(),
    {
        ChunkRanges { inner: RangeSet2::empty() }
    }

    /// Calls `RangeSet::from` on a range without end: the set with the one
    /// boundary `start`.
    #[verifier::external_body]
    pub(crate) fn new_from(start: u64) -> (r: Self)
        ensures
            chunk_ranges_boundaries(r) == seq![start],
    {
        ChunkRanges { inner: RangeSet2::from(start..) }
    }

    /// Calls `RangeSet::from` on a range: the set with the boundaries `start`
    /// and `end`, and without boundaries where the range is empty.
    #[verifier::external_body]
    pub(crate) fn new_range(start: u64, end: u64) -> (r: Self)
        ensures
            chunk_ranges_boundaries(r) == (if start < end {
                seq![start, end]
            } else {
                Seq::<u64>::empty()
            }),
    {
        ChunkRanges { inner: RangeSet2::from(start..end) }
    }

    /// Calls `RangeSet::union_with`: afterwards the set has the chunks it had
    /// and those of `that`.
    #[verifier::external_body]
    pub(crate) fn union_with(&mut self, that: &RangeSetRef<u64>)
        ensures
            range_set(chunk_ranges_boundaries(*final(self))) == range_set(
                chunk_ranges_boundaries(*old(self)),
            ).union(range_set(range_boundaries(that))),
            strictly_increasing(chunk_ranges_boundaries(*final(self))),
    {
        self.inner.union_with(that)
    }

    /// Borrows the set through the `Deref` of `RangeSet`, which keeps the
    /// boundaries.
    #[verifier::external_body]
    pub(crate) fn borrowed(&self) -> (r: &RangeSetRef<u64>)
        ensures
            range_boundaries(r) == chunk_ranges_boundaries(*self),
    {
        &self.inner
    }

    /// The set without chunks.
    pub fn empty() -> (r: Self)
        ensures
            r.boundaries_spec() == Seq::<u64>::empty(),
    {
        ChunkRanges::new_empty()
    }

    /// The set of all chunks.
    pub fn all() -> (r: Self)
        ensures
            r.boundaries_spec() == seq![0u64],
    {
        ChunkRanges::new_from(0)
    }

    /// The set of the chunks from `start` on.
    pub fn from_start(start: ChunkNum) -> (r: Self)
        ensures
            r.boundaries_spec() == seq![start.0],
    {
        ChunkRanges::new_from(start.0)
    }

    /// The set of the chunks from `start` up to `end`.
    pub fn from_range(start: ChunkNum, end: ChunkNum) -> (r: Self)
        ensures
            r.boundaries_spec() == (if start.0 < end.0 {
                seq![start.0, end.0]
            } else {
                Seq::<u64>::empty()
            }),
    {
        ChunkRanges::new_range(start.0, end.0)
    }

    /// The set as a borrowed set of ranges.
    pub fn as_ranges(&self) -> (r: &RangeSetRef<u64>)
        ensures
            range_boundaries(r) == self.boundaries_spec(),
    {
        self.borrowed()
    }

    /// The boundaries of the set.
    pub fn to_boundaries(&self) -> (v: Vec<u64>)
        ensures
            v@ == self.boundaries_spec(),
            strictly_increasing(v@),
    {
        let b = boundaries(self.borrowed());
        let mut v: Vec<u64> = Vec::new();
        let mut i: usize = 0;
        while i < b.len()
            invariant
                i <= b.len(),
                v@ == b@.take(i as int),
            decreases b.len() - i,
        {
            v.push(b[i]);
            i = i + 1;
            assert(v@ == b@.take(i as int));
        }
        assert(b@.take(b.len() as int) == b@);
        v
    }
}

/// True if no boundary of the set lies beyond chunk `end`: every range of
/// the set ends at or before `end`, and a last range without end starts at
/// or before it.
pub open spec fn range_ok_spec(b: Seq<u64>, end: u64) -> bool {
    forall|i: int| 0 <= i < b.len() ==> b[i] <= end
}

/// True if no boundary of `ranges` lies beyond chunk `end`. The boundaries
/// of a set rise strictly.
pub fn range_ok(ranges: &RangeSetRef<u64>, end: ChunkNum) -> (ok: bool)
    ensures
        ok == range_ok_spec(range_boundaries(ranges), end.0),
        strictly_increasing(range_boundaries(ranges)),
{
    let b = boundaries(ranges);
    if b.len() == 0 {
        true
    } else {
        b[b.len() - 1] <= end.0
    }
}

/// The boundaries of `b` that are below `chunks`.
pub open spec fn truncate_spec(b: Seq<u64>, chunks: u64) -> Seq<u64> {
    split_left(b, chunks)
}

/// The set that agrees with `ranges` on the chunks of a blob of `size` bytes
/// and has no boundary at or beyond the end of the blob.
pub fn truncate_ranges<'a>(ranges: &'a RangeSetRef<u64>, size: ByteNum) -> (r: &'a RangeSetRef<
    u64,
>)
    ensures
        range_boundaries(r) == truncate_spec(range_boundaries(ranges), size.chunks_spec() as u64),
{
    let (left, _) = split(ranges, size.chunks().0);
    left
}


/// The chunks from `a` up to `b`.
pub open spec fn chunk_interval(a: int, b: int) -> Set<int> {
    Set::new(|x: int| a <= x < b)
}

/// The set with the boundaries `a` and `b` has the chunks from `a` up to
/// `b`, and the set without boundaries has none.
pub proof fn lemma_range_set_interval(a: u64, b: u64)
    ensures
        a < b ==> range_set(seq![a, b]) == chunk_interval(a as int, b as int),
        range_set(Seq::<u64>::empty()) == Set::<int>::empty(),
{
    if a < b {
        let s = seq![a, b];
        assert(s.skip(1) =~= seq![b]);
        assert(s.skip(1).skip(1) =~= Seq::<u64>::empty());
        assert forall|x: int| ranges_contain(s, x) <==> a <= x < b by {
            reveal_with_fuel(count_below, 3);
        }
        assert(range_set(s) =~= chunk_interval(a as int, b as int));
    }
    assert(range_set(Seq::<u64>::empty()) =~= Set::<int>::empty());
}


/// In a strictly increasing sequence, the elements below `at` are those at
/// the start that `count_below` counts.
pub proof fn lemma_count_below(b: Seq<u64>, at: int)
    requires
        strictly_increasing(b),
    ensures
        count_below(b, at) <= b.len(),
        forall|j: int| 0 <= j < count_below(b, at) ==> b[j] < at,
        forall|j: int| count_below(b, at) <= j < b.len() ==> b[j] >= at,
    decreases b.len(),
{
    if b.len() > 0 && b[0] < at {
        let rest = b.skip(1);
        assert forall|i: int, j: int| 0 <= i < j < rest.len() implies rest[i] < rest[j] by {
            assert(rest[i] == b[i + 1] && rest[j] == b[j + 1]);
        }
        lemma_count_below(rest, at);
        assert forall|j: int| 0 <= j < count_below(b, at) implies b[j] < at by {
            if j > 0 {
                assert(rest[j - 1] == b[j]);
            }
        }
        assert forall|j: int| count_below(b, at) <= j < b.len() implies b[j] >= at by {
            assert(rest[j - 1] == b[j]);
        }
    }
}

/// The number of elements below `at` of a strictly increasing sequence is
/// the place at which the elements stop being below `at`.
pub proof fn lemma_count_below_is(b: Seq<u64>, at: int, i: int)
    requires
        strictly_increasing(b),
        0 <= i <= b.len(),
        forall|j: int| 0 <= j < i ==> b[j] < at,
        forall|j: int| i <= j < b.len() ==> b[j] >= at,
    ensures
        count_below(b, at) == i,
{
    lemma_count_below(b, at);
    let c = count_below(b, at) as int;
    if c < i {
        assert(b[c] < at);
    }
    if i < c {
        assert(b[i] >= at);
    }
}

/// A part of a strictly increasing sequence is strictly increasing.
pub proof fn lemma_subrange_increasing(b: Seq<u64>, i: int, j: int)
    requires
        strictly_increasing(b),
        0 <= i <= j <= b.len(),
    ensures
        strictly_increasing(b.subrange(i, j)),
{
    let s = b.subrange(i, j);
    assert forall|x: int, y: int| 0 <= x < y < s.len() implies s[x] < s[y] by {
        assert(s[x] == b[i + x] && s[y] == b[i + y]);
    }
}

/// The elements below `at` in the first `i` elements of a strictly
/// increasing sequence.
pub proof fn lemma_count_below_take(b: Seq<u64>, i: int, at: int)
    requires
        strictly_increasing(b),
        0 <= i <= b.len(),
    ensures
        count_below(b.take(i), at) == (if count_below(b, at) <= i {
            count_below(b, at) as int
        } else {
            i
        }),
{
    lemma_count_below(b, at);
    lemma_subrange_increasing(b, 0, i);
    let c = count_below(b, at) as int;
    let t = b.take(i);
    let k = if c <= i {
        c
    } else {
        i
    };
    assert forall|j: int| 0 <= j < k implies t[j] < at by {
        assert(t[j] == b[j]);
    }
    assert forall|j: int| k <= j < t.len() implies t[j] >= at by {
        assert(t[j] == b[j]);
    }
    lemma_count_below_is(t, at, k);
}

/// The elements below `at` in what follows the first `k` elements of a
/// strictly increasing sequence.
pub proof fn lemma_count_below_skip(b: Seq<u64>, k: int, at: int)
    requires
        strictly_increasing(b),
        0 <= k <= b.len(),
    ensures
        count_below(b.skip(k), at) == (if count_below(b, at) >= k {
            count_below(b, at) - k
        } else {
            0
        }),
{
    lemma_count_below(b, at);
    lemma_subrange_increasing(b, k, b.len() as int);
    let c = count_below(b, at) as int;
    let t = b.skip(k);
    let n = if c >= k {
        c - k
    } else {
        0
    };
    assert forall|j: int| 0 <= j < n implies t[j] < at by {
        assert(t[j] == b[j + k]);
    }
    assert forall|j: int| n <= j < t.len() implies t[j] >= at by {
        assert(t[j] == b[j + k]);
    }
    lemma_count_below_is(t, at, n);
}

/// The number of elements below grows with the bound.
pub proof fn lemma_count_below_monotone(b: Seq<u64>, lo: int, hi: int)
    requires
        strictly_increasing(b),
        lo <= hi,
    ensures
        count_below(b, lo) <= count_below(b, hi),
{
    lemma_count_below(b, lo);
    lemma_count_below(b, hi);
    let c = count_below(b, lo) as int;
    let d = count_below(b, hi) as int;
    if d < c {
        assert(b[d] < lo);
        assert(b[d] >= hi);
    }
}

/// The two parts of a split of a strictly increasing sequence of boundaries
/// are strictly increasing, and each has the chunks of the whole on its
/// side of the split.
pub proof fn lemma_split(b: Seq<u64>, at: u64)
    requires
        strictly_increasing(b),
    ensures
        strictly_increasing(split_left(b, at)),
        strictly_increasing(split_right(b, at)),
        forall|x: int| x < at ==> ranges_contain(split_left(b, at), x) == ranges_contain(b, x),
        forall|x: int| x >= at ==> ranges_contain(split_right(b, at), x) == ranges_contain(b, x),
        forall|j: int| 0 <= j < split_left(b, at).len() ==> split_left(b, at)[j] < at,
        forall|j: int|
            0 <= j < split_left(b, at).len() ==> (#[trigger] split_left(b, at)[j]) == b[j],
{
    lemma_count_below(b, at as int);
    let i = count_below(b, at as int) as int;
    lemma_subrange_increasing(b, 0, i);
    let l = split_left(b, at);
    let r = split_right(b, at);
    assert(l == b.take(i));
    let k = if i % 2 == 0 {
        i
    } else if i < b.len() && b[i] == at {
        i + 1
    } else {
        i - 1
    };
    assert(r == b.skip(k));
    lemma_subrange_increasing(b, k, b.len() as int);
    assert forall|x: int| x < at implies ranges_contain(l, x) == ranges_contain(b, x) by {
        lemma_count_below_take(b, i, x + 1);
        lemma_count_below_monotone(b, x + 1, at as int);
    }
    assert forall|x: int| x >= at implies ranges_contain(r, x) == ranges_contain(b, x) by {
        lemma_count_below_skip(b, k, x + 1);
        lemma_count_below_monotone(b, at as int, x + 1);
        lemma_count_below(b, x + 1);
        let c = count_below(b, x + 1) as int;
        if k == i + 1 {
            if c < i + 1 {
                assert(b[i] >= x + 1);
            }
        }
    }
}

} // verus!
