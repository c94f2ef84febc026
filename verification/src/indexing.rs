//! Shape/stride arithmetic and flat-index mapping for row-major
//! N-dimensional volumes, plus the range type and iterator that
//! enumerate every coordinate of an axis-aligned sub-volume.

use vstd::prelude::*;

verus! {

/// Product of `shape[i..]`: the number of elements in the sub-volume
/// spanned by the trailing dimensions starting at `i`. The empty
/// product (at or past the end) is 1, so `suffix_size(shape, 0)` is the
/// total element count of the whole shape.
pub open spec fn suffix_size(shape: Seq<usize>, i: int) -> nat
    decreases shape.len() - i,
{
    if i < 0 || i >= shape.len() {
        1
    } else {
        shape[i] as nat * suffix_size(shape, i + 1)
    }
}

/// Total element count of a shape: the product of all its dimensions
/// (1 for the empty shape).
pub open spec fn spec_flat_size(shape: Seq<usize>) -> nat {
    suffix_size(shape, 0)
}

/// A shape is representable on this machine when every suffix product
/// fits in `usize`: the total size and all row-major strides are then
/// machine words. Size computation treats overflow as a fatal
/// condition, excluded here rather than silently wrapped.
pub open spec fn shape_fits(shape: Seq<usize>) -> bool {
    forall|i: int| 0 <= i <= shape.len() ==> #[trigger] suffix_size(shape, i) <= usize::MAX
}

/// The strides vector matches the row-major stride formula for the
/// shape: `strides[i]` is the product of `shape[i+1..]`, and the last
/// dimension has stride 1.
pub open spec fn strides_match(shape: Seq<usize>, strides: Seq<usize>) -> bool {
    &&& strides.len() == shape.len()
    &&& forall|i: int| 0 <= i < strides.len() ==> #[trigger] strides[i] == suffix_size(shape, i + 1)
}

/// Sum of `index[j] * strides[j]` over `j >= i`: the tail of the dot
/// product that maps an N-dimensional coordinate to a flat offset.
pub open spec fn offset_from(index: Seq<usize>, strides: Seq<usize>, i: int) -> nat
    decreases index.len() - i,
{
    if i < 0 || i >= index.len() {
        0
    } else {
        index[i] as nat * strides[i] as nat + offset_from(index, strides, i + 1)
    }
}

/// Flat storage offset of a coordinate under the given strides: the
/// full dot product of the two vectors.
pub open spec fn spec_flat_offset(index: Seq<usize>, strides: Seq<usize>) -> nat {
    offset_from(index, strides, 0)
}

/// Computes the total flat size of an N-dimensional volume with the
/// given shape.
pub fn flat_size_from_shape(shape: &Vec<usize>) -> (r: usize)
    requires
        shape_fits(shape@),
    ensures
        r == spec_flat_size(shape@),
{
    let n = shape.len();
    let mut acc: usize = 1;
    let mut i: usize = n;
    while i > 0
        invariant
            shape_fits(shape@),
            i <= n,
            n == shape@.len(),
            acc == suffix_size(shape@, i as int),
        decreases i,
    {
        i = i - 1;
        assert(suffix_size(shape@, i as int) == shape@[i as int] * suffix_size(shape@, i + 1));
        acc = shape[i] * acc;
    }
    acc
}

/// Computes the strides needed to perform N-dimensional indexing on an
/// N-dimensional volume with the given shape: `strides[i]` is the
/// product of `shape[i+1..]`, so the last dimension is contiguous
/// (stride 1) and earlier dimensions step over whole trailing
/// sub-volumes (row-major layout).
pub fn strides_from_shape(shape: &Vec<usize>) -> (r: Vec<usize>)
    requires
        shape_fits(shape@),
    ensures
        strides_match(shape@, r@),
{
    let n = shape.len();
    let mut strides: Vec<usize> = vec![1; n];
    let mut i: usize = n;
    // Walk from the last dimension towards the first; each stride is
    // the previous one times the dimension just inside it.
    let mut acc: usize = 1;
    while i > 0
        invariant
            shape_fits(shape@),
            i <= n,
            n == shape@.len(),
            strides@.len() == n,
            acc == suffix_size(shape@, i as int),
            forall|j: int| i <= j < n ==> #[trigger] strides@[j] == suffix_size(shape@, j + 1),
        decreases i,
    {
        i = i - 1;
        strides.set(i, acc);
        assert(suffix_size(shape@, i as int) == shape@[i as int] as nat * suffix_size(
            shape@,
            i + 1,
        ));
        acc = shape[i] * acc;
    }
    strides
}

/// Maps an N-dimensional coordinate to a flat storage offset: the dot
/// product of the coordinate with the strides.
pub fn flat_index_from_nd_index(index: &Vec<usize>, strides: &Vec<usize>) -> (r: usize)
    requires
        index@.len() == strides@.len(),
        spec_flat_offset(index@, strides@) <= usize::MAX,
    ensures
        r == spec_flat_offset(index@, strides@),
{
    let n = index.len();
    let mut acc: usize = 0;
    let mut i: usize = 0;
    while i < n
        invariant
            n == index@.len(),
            index@.len() == strides@.len(),
            spec_flat_offset(index@, strides@) <= usize::MAX,
            i <= n,
            acc + offset_from(index@, strides@, i as int) == spec_flat_offset(index@, strides@),
        decreases n - i,
    {
        assert(offset_from(index@, strides@, i as int) == index@[i as int] as nat
            * strides@[i as int] as nat + offset_from(index@, strides@, i + 1));
        let term = index[i] * strides[i];
        acc = acc + term;
        i = i + 1;
    }
    acc
}

/// Starts and stops describe a well-formed half-open box: equal rank,
/// and no dimension runs backwards.
pub open spec fn bounds_wf(starts: Seq<usize>, stops: Seq<usize>) -> bool {
    &&& starts.len() == stops.len()
    &&& forall|i: int| 0 <= i < starts.len() ==> #[trigger] starts[i] <= stops[i]
}

/// The per-dimension extent of a half-open box: `stops - starts`,
/// componentwise.
pub open spec fn local_shape(starts: Seq<usize>, stops: Seq<usize>) -> Seq<usize> {
    Seq::new(starts.len(), |i: int| (stops[i] - starts[i]) as usize)
}

/// Dimension `i` of the coordinate at cursor position `c` of a
/// row-major enumeration of `shape`: strip the trailing sub-volumes
/// below dimension `i` by division, then reduce modulo the extent.
pub open spec fn unrank_digit(shape: Seq<usize>, c: int, i: int) -> int {
    (c / suffix_size(shape, i + 1) as int) % shape[i] as int
}

/// The full coordinate at cursor position `c` of a row-major
/// enumeration of `shape` (relative to the volume's own origin).
pub open spec fn coord_at(shape: Seq<usize>, c: int) -> Seq<int> {
    Seq::new(shape.len(), |i: int| unrank_digit(shape, c, i))
}

/// Sum of `coord[j] * suffix_size(shape, j + 1)` over `j >= i`: the
/// tail of the row-major rank of a coordinate within `shape`.
pub open spec fn rank_from(shape: Seq<usize>, coord: Seq<int>, i: int) -> int
    decreases coord.len() - i,
{
    if i < 0 || i >= coord.len() {
        0
    } else {
        coord[i] * suffix_size(shape, i + 1) + rank_from(shape, coord, i + 1)
    }
}

/// Row-major rank of a coordinate within `shape`: its position in the
/// enumeration order, equal to its flat offset under the row-major
/// strides of `shape`.
pub open spec fn rank_of(shape: Seq<usize>, coord: Seq<int>) -> int {
    rank_from(shape, coord, 0)
}

/// Strict lexicographic order on coordinates, starting the comparison
/// at component `i`.
pub open spec fn lex_less_from(a: Seq<int>, b: Seq<int>, i: int) -> bool
    decreases a.len() - i,
{
    &&& 0 <= i < a.len()
    &&& i < b.len()
    &&& (a[i] < b[i] || (a[i] == b[i] && lex_less_from(a, b, i + 1)))
}

/// Strict lexicographic (row-major) order on coordinates: the first
/// differing component decides, with earlier components weighing more.
pub open spec fn lex_less(a: Seq<int>, b: Seq<int>) -> bool {
    lex_less_from(a, b, 0)
}

/// Every component of the coordinate lies inside the shape's extent.
pub open spec fn coord_in_bounds(shape: Seq<usize>, coord: Seq<int>) -> bool {
    &&& coord.len() == shape.len()
    &&& forall|i: int| 0 <= i < coord.len() ==> 0 <= #[trigger] coord[i] < shape[i]
}

/// A machine-integer coordinate addresses an element inside the shape:
/// every component is below the matching extent.
pub open spec fn index_in_shape(shape: Seq<usize>, index: Seq<usize>) -> bool {
    &&& index.len() == shape.len()
    &&& forall|i: int| 0 <= i < index.len() ==> #[trigger] index[i] < shape[i]
}

/// The machine-integer coordinate `v` is the one at cursor `c` of a
/// row-major enumeration of `shape` (relative to the volume's own
/// origin).
pub open spec fn coord_matches(v: Seq<usize>, shape: Seq<usize>, c: int) -> bool {
    &&& v.len() == shape.len()
    &&& forall|i: int| 0 <= i < v.len() ==> #[trigger] v[i] == coord_at(shape, c)[i]
}

/// N-dimensional half-open range: dimension `i` spans
/// `[starts[i], stops[i])`.
#[derive(Clone, Debug)]
pub struct StaticRange {
    pub starts: Vec<usize>,
    pub stops: Vec<usize>,
}

impl StaticRange {
    /// The range is well-formed: equal rank on both bounds and no
    /// dimension running backwards.
    pub open spec fn wf(self) -> bool {
        bounds_wf(self.starts@, self.stops@)
    }

    /// Extent of the range, componentwise `stops - starts`.
    pub open spec fn shape(self) -> Seq<usize> {
        local_shape(self.starts@, self.stops@)
    }

    pub fn new(starts: Vec<usize>, stops: Vec<usize>) -> (r: Self)
        ensures
            r.starts == starts,
            r.stops == stops,
    {
        Self { starts, stops }
    }
}

/// State needed to enumerate the coordinates of a [`StaticRange`] in
/// row-major order: the local shape and strides of the range, the total
/// coordinate count, and a flat cursor over `[0, flat_size)`.
pub struct StaticRangeIterator {
    pub range: StaticRange,
    pub shape: Vec<usize>,
    pub strides: Vec<usize>,
    pub flat_size: usize,
    pub flat_index: usize,
}

impl StaticRangeIterator {
    /// The iterator's derived fields agree with its range: the shape is
    /// the range's extent, the strides and total count follow the
    /// row-major formulas for that shape.
    pub open spec fn wf(self) -> bool {
        &&& self.range.wf()
        &&& self.shape@ == self.range.shape()
        &&& shape_fits(self.shape@)
        &&& strides_match(self.shape@, self.strides@)
        &&& self.flat_size == spec_flat_size(self.shape@)
    }

    /// Rank of the range (number of dimensions).
    pub open spec fn rank(self) -> nat {
        self.shape@.len()
    }

    /// The absolute coordinate this iterator emits at cursor `c`: the
    /// local row-major coordinate of `c`, shifted by the range's
    /// starts.
    pub open spec fn coord_at_cursor(self, c: int) -> Seq<int> {
        Seq::new(self.rank(), |i: int| unrank_digit(self.shape@, c, i) + self.range.starts@[i])
    }

    pub fn new(range: StaticRange) -> (r: Self)
        requires
            range.wf(),
            shape_fits(local_shape(range.starts@, range.stops@)),
        ensures
            r.wf(),
            r.range == range,
            r.flat_index == 0,
    {
        let n = range.starts.len();
        let mut shape: Vec<usize> = vec![1; n];
        let mut i: usize = 0;
        while i < n
            invariant
                range.wf(),
                n == range.starts@.len(),
                shape@.len() == n,
                i <= n,
                forall|j: int| 0 <= j < i ==> #[trigger] shape@[j] == range.shape()[j],
            decreases n - i,
        {
            shape.set(i, range.stops[i] - range.starts[i]);
            i = i + 1;
        }
        assert(shape@ =~= range.shape());

        let strides = strides_from_shape(&shape);
        let flat_size = flat_size_from_shape(&shape);
        let flat_index: usize = 0;

        Self { range, shape, strides, flat_size, flat_index }
    }

    /// Advances the iteration: emits the coordinate at the current
    /// cursor (the local row-major coordinate shifted by the range's
    /// starts) and steps the cursor by one, or signals exhaustion on
    /// every call once the cursor has reached the total count.
    pub fn next(&mut self) -> (r: Option<Vec<usize>>)
        requires
            old(self).wf(),
        ensures
            final(self).wf(),
            final(self).range == old(self).range,
            final(self).shape == old(self).shape,
            final(self).strides == old(self).strides,
            final(self).flat_size == old(self).flat_size,
            old(self).flat_index >= old(self).flat_size ==> r is None && final(self).flat_index
                == old(self).flat_index,
            old(self).flat_index < old(self).flat_size ==> {
                &&& final(self).flat_index == old(self).flat_index + 1
                &&& r matches Some(v) && v@.len() == old(self).rank() && forall|i: int|
                    0 <= i < old(self).rank() ==> #[trigger] v@[i] == old(self).coord_at_cursor(
                        old(self).flat_index as int,
                    )[i]
            },
    {
        if self.flat_index >= self.flat_size {
            return None;
        }

        let ghost shape = self.shape@;
        let c = self.flat_index;
        proof {
            crate::lemmas::lemma_suffix_size_positive(shape, 0);
        }
        let n = self.shape.len();
        let mut index: Vec<usize> = vec![0; n];
        let mut i: usize = 0;
        while i < n
            invariant
                self.wf(),
                n == self.rank(),
                c == self.flat_index < self.flat_size,
                shape == self.shape@,
                index@.len() == n,
                i <= n,
                forall|j: int| 0 <= j < shape.len() ==> #[trigger] shape[j] > 0,
                forall|j: int| 0 <= j < i ==> #[trigger] index@[j] == self.coord_at_cursor(
                    c as int,
                )[j],
            decreases n - i,
        {
            let dim = self.shape[i];
            let stride = self.strides[i];
            let start = self.range.starts[i];
            proof {
                crate::lemmas::lemma_suffix_size_positive(shape, i + 1);
                assert(stride > 0);
            }
            let digit = (c / stride) % dim;
            assert(digit < dim);
            assert(dim + start == self.range.stops@[i as int]);
            index.set(i, digit + start);
            assert(index@[i as int] == self.coord_at_cursor(c as int)[i as int]);
            i = i + 1;
        }
        self.flat_index = self.flat_index + 1;
        Some(index)
    }
}

/// Conversion into a row-major coordinate iterator over some
/// N-dimensional volume.
pub trait IntoNdIterator: Sized {
    /// Lower corner of the volume that iteration covers.
    spec fn nd_starts(self) -> Seq<usize>;

    /// Upper corner (exclusive) of the volume that iteration covers.
    spec fn nd_stops(self) -> Seq<usize>;

    /// Converts into an iterator positioned at the first coordinate of
    /// the volume.
    fn into_nd_iter(self) -> (it: StaticRangeIterator)
        requires
            bounds_wf(self.nd_starts(), self.nd_stops()),
            shape_fits(local_shape(self.nd_starts(), self.nd_stops())),
        ensures
            it.wf(),
            it.range.starts@ == self.nd_starts(),
            it.range.stops@ == self.nd_stops(),
            it.flat_index == 0,
    ;
}

impl IntoNdIterator for StaticRange {
    open spec fn nd_starts(self) -> Seq<usize> {
        self.starts@
    }

    open spec fn nd_stops(self) -> Seq<usize> {
        self.stops@
    }

    fn into_nd_iter(self) -> (it: StaticRangeIterator) {
        StaticRangeIterator::new(self)
    }
}

} // verus!
