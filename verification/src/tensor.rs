//! Dense N-dimensional arrays: a flat buffer plus shape and row-major
//! stride metadata, with coordinate-indexed access and bulk fill
//! operations built on the indexing core.

use vstd::prelude::*;
use crate::indexing::{
    coord_at,
    coord_matches,
    flat_index_from_nd_index,
    flat_size_from_shape,
    index_in_shape,
    local_shape,
    shape_fits,
    spec_flat_offset,
    spec_flat_size,
    strides_from_shape,
    strides_match,
    unrank_digit,
    IntoNdIterator,
    StaticRange,
    StaticRangeIterator,
};
use crate::lemmas::{lemma_coord_at_in_bounds, lemma_offset_in_range, lemma_offset_round_trip};

verus! {

/// The element is a possible result of the generator applied to the
/// coordinate (within `shape`) whose row-major rank is `k`.
pub open spec fn element_from_index_generator<T, F: Fn(Vec<usize>) -> T>(
    f: F,
    shape: Seq<usize>,
    k: int,
    elem: T,
) -> bool {
    exists|v: Vec<usize>| coord_matches(v@, shape, k) && call_ensures(f, (v,), elem)
}

/// Multidimensional array owning a flat row-major buffer together with
/// its shape, strides and total element count. The buffer always holds
/// exactly `flat_size(shape)` elements; the shape never changes after
/// construction.
pub struct StaticTensor<T> {
    pub data: Vec<T>,
    pub shape: Vec<usize>,
    pub strides: Vec<usize>,
    pub flat_size: usize,
}

impl<T> StaticTensor<T> {
    /// The tensor's invariant: the shape is representable, the strides
    /// follow the row-major formula for the shape, and the buffer holds
    /// exactly one element per coordinate of the shape.
    pub open spec fn wf(self) -> bool {
        &&& shape_fits(self.shape@)
        &&& strides_match(self.shape@, self.strides@)
        &&& self.flat_size == spec_flat_size(self.shape@)
        &&& self.data@.len() == self.flat_size
    }

    /// The coordinate addresses an element of this tensor.
    pub open spec fn contains_index(self, index: Seq<usize>) -> bool {
        index_in_shape(self.shape@, index)
    }

    /// Flat buffer position of a coordinate within this tensor.
    pub open spec fn offset_of(self, index: Seq<usize>) -> nat {
        spec_flat_offset(index, self.strides@)
    }

    /// The tensor was built over `shape` with every element equal to
    /// `v`.
    pub open spec fn is_full(self, shape: Seq<usize>, v: T) -> bool {
        &&& self.wf()
        &&& self.shape@ == shape
        &&& forall|k: int| 0 <= k < self.data@.len() ==> #[trigger] self.data@[k] == v
    }
}

impl<T: Copy> StaticTensor<T> {
    /// Reads the element at an N-dimensional coordinate, located in the
    /// flat buffer by the dot product with the strides.
    pub fn at(&self, index: &Vec<usize>) -> (r: T)
        requires
            self.wf(),
            self.contains_index(index@),
        ensures
            r == self.data@[self.offset_of(index@) as int],
    {
        proof {
            lemma_offset_in_range(self.shape@, self.strides@, index@);
        }
        let off = flat_index_from_nd_index(index, &self.strides);
        self.data[off]
    }

    /// Borrows the element at an N-dimensional coordinate mutably; the
    /// buffer afterwards holds, at that coordinate's flat position,
    /// whatever the caller leaves in the borrow.
    pub fn at_ref_mut(&mut self, index: &Vec<usize>) -> (element: &mut T)
        requires
            old(self).wf(),
            old(self).contains_index(index@),
        ensures
            *element == old(self).data@[old(self).offset_of(index@) as int],
            final(self).data@ == old(self).data@.update(
                old(self).offset_of(index@) as int,
                *final(element),
            ),
            final(self).shape == old(self).shape,
            final(self).strides == old(self).strides,
            final(self).flat_size == old(self).flat_size,
    {
        proof {
            lemma_offset_in_range(self.shape@, self.strides@, index@);
        }
        let off = flat_index_from_nd_index(index, &self.strides);
        &mut self.data[off]
    }

    /// Creates a tensor with the given shape containing the designated
    /// fill value in every position.
    pub fn full(shape: Vec<usize>, fill_value: T) -> (r: Self)
        requires
            shape_fits(shape@),
        ensures
            r.is_full(shape@, fill_value),
            r.shape == shape,
    {
        let flat_size = flat_size_from_shape(&shape);
        let strides = strides_from_shape(&shape);
        let mut data: Vec<T> = Vec::new();
        let mut k: usize = 0;
        while k < flat_size
            invariant
                k <= flat_size,
                data@.len() == k,
                forall|j: int| 0 <= j < k ==> #[trigger] data@[j] == fill_value,
            decreases flat_size - k,
        {
            data.push(fill_value);
            k = k + 1;
        }
        Self { data, shape, strides, flat_size }
    }

    /// Creates a tensor with the given shape, drawing every element
    /// from the generator in row-major order: the element at buffer
    /// position 0 comes from the first call, and so on.
    pub fn init_with<F: Fn() -> T>(shape: Vec<usize>, f: F) -> (r: Self)
        requires
            shape_fits(shape@),
            call_requires(f, ()),
        ensures
            r.wf(),
            r.shape == shape,
            forall|k: int| 0 <= k < r.data@.len() ==> call_ensures(f, (), #[trigger] r.data@[k]),
    {
        let flat_size = flat_size_from_shape(&shape);
        let strides = strides_from_shape(&shape);
        let mut data: Vec<T> = Vec::new();
        let mut k: usize = 0;
        while k < flat_size
            invariant
                call_requires(f, ()),
                k <= flat_size,
                data@.len() == k,
                forall|j: int| 0 <= j < k ==> call_ensures(f, (), #[trigger] data@[j]),
            decreases flat_size - k,
        {
            data.push(f());
            k = k + 1;
        }
        Self { data, shape, strides, flat_size }
    }

    /// Creates a tensor with the given shape, computing each element
    /// from its own coordinate: the generator is invoked on the
    /// coordinates of the shape in row-major order, and each result is
    /// stored at that coordinate's flat position.
    pub fn init_with_index<F: Fn(Vec<usize>) -> T>(shape: Vec<usize>, f: F) -> (r: Self)
        requires
            shape_fits(shape@),
            forall|v: Vec<usize>| index_in_shape(shape@, v@) ==> call_requires(f, (v,)),
        ensures
            r.wf(),
            r.shape == shape,
            forall|k: int| 0 <= k < r.data@.len() ==> element_from_index_generator(
                f,
                shape@,
                k,
                #[trigger] r.data@[k],
            ),
    {
        let flat_size = flat_size_from_shape(&shape);
        let strides = strides_from_shape(&shape);
        let n = shape.len();
        let zeros: Vec<usize> = vec![0; n];
        assert(local_shape(zeros@, shape@) =~= shape@);
        let range = StaticRange::new(zeros, shape.clone());
        let mut it = StaticRangeIterator::new(range);
        let mut data: Vec<T> = Vec::new();
        let mut k: usize = 0;
        while k < flat_size
            invariant
                shape_fits(shape@),
                forall|v: Vec<usize>| index_in_shape(shape@, v@) ==> call_requires(f, (v,)),
                it.wf(),
                it.shape@ == shape@,
                it.range.starts@ == Seq::new(shape@.len(), |i: int| 0usize),
                it.flat_size == flat_size,
                it.flat_index == k,
                flat_size == spec_flat_size(shape@),
                k <= flat_size,
                data@.len() == k,
                forall|j: int| 0 <= j < k ==> element_from_index_generator(
                    f,
                    shape@,
                    j,
                    #[trigger] data@[j],
                ),
            decreases flat_size - k,
        {
            let coord_opt = it.next();
            let coord = coord_opt.unwrap();
            proof {
                lemma_coord_at_in_bounds(shape@, k as int);
                assert forall|i: int| 0 <= i < shape@.len() implies #[trigger] coord@[i]
                    < shape@[i] by {
                    assert(0 <= coord_at(shape@, k as int)[i] < shape@[i]);
                    assert(coord@[i] == unrank_digit(shape@, k as int, i) + 0);
                }
                assert(index_in_shape(shape@, coord@));
                assert(coord_matches(coord@, shape@, k as int));
            }
            let ghost prev = data@;
            let value = f(coord);
            data.push(value);
            assert forall|j: int| 0 <= j < k + 1 implies element_from_index_generator(
                f,
                shape@,
                j,
                #[trigger] data@[j],
            ) by {
                if j < k {
                    assert(data@[j] == prev[j]);
                } else {
                    assert(data@[j] == value);
                    assert(coord_matches(coord@, shape@, j) && call_ensures(f, (coord,), value));
                    assert(element_from_index_generator(f, shape@, j, value));
                }
            }
            k = k + 1;
        }
        Self { data, shape, strides, flat_size }
    }

    /// Overwrites every element of this tensor with values drawn from
    /// the generator, visiting the flat buffer in linear order.
    pub fn fill_with<F: Fn() -> T>(&mut self, f: F)
        requires
            old(self).wf(),
            call_requires(f, ()),
        ensures
            final(self).wf(),
            final(self).shape == old(self).shape,
            final(self).strides == old(self).strides,
            final(self).flat_size == old(self).flat_size,
            forall|k: int| 0 <= k < final(self).data@.len() ==> call_ensures(
                f,
                (),
                #[trigger] final(self).data@[k],
            ),
    {
        let flat_size = self.flat_size;
        let mut k: usize = 0;
        while k < flat_size
            invariant
                self.wf(),
                call_requires(f, ()),
                self.shape == old(self).shape,
                self.strides == old(self).strides,
                self.flat_size == old(self).flat_size,
                flat_size == self.flat_size,
                k <= flat_size,
                forall|j: int| 0 <= j < k ==> call_ensures(f, (), #[trigger] self.data@[j]),
            decreases flat_size - k,
        {
            let value = f();
            self.data.set(k, value);
            k = k + 1;
        }
    }

    /// Overwrites every element of this tensor with a value computed
    /// from its own coordinate, visiting the coordinates in row-major
    /// order and writing each result at that coordinate's flat
    /// position.
    pub fn fill_with_index<F: Fn(Vec<usize>) -> T>(&mut self, f: F)
        requires
            old(self).wf(),
            forall|v: Vec<usize>| index_in_shape(old(self).shape@, v@) ==> call_requires(f, (v,)),
        ensures
            final(self).wf(),
            final(self).shape == old(self).shape,
            final(self).strides == old(self).strides,
            final(self).flat_size == old(self).flat_size,
            final(self).data@.len() == old(self).data@.len(),
            forall|k: int| 0 <= k < final(self).data@.len() ==> element_from_index_generator(
                f,
                old(self).shape@,
                k,
                #[trigger] final(self).data@[k],
            ),
    {
        let ghost shape = self.shape@;
        let n = self.shape.len();
        let zeros: Vec<usize> = vec![0; n];
        assert(local_shape(zeros@, shape) =~= shape);
        let range = StaticRange::new(zeros, self.shape.clone());
        let mut it = StaticRangeIterator::new(range);
        let flat_size = self.flat_size;
        let mut k: usize = 0;
        while k < flat_size
            invariant
                self.wf(),
                shape == self.shape@,
                forall|v: Vec<usize>| index_in_shape(shape, v@) ==> call_requires(f, (v,)),
                self.shape == old(self).shape,
                self.strides == old(self).strides,
                self.flat_size == old(self).flat_size,
                flat_size == self.flat_size,
                it.wf(),
                it.shape@ == shape,
                it.range.starts@ == Seq::new(shape.len(), |i: int| 0usize),
                it.flat_size == flat_size,
                it.flat_index == k,
                k <= flat_size,
                forall|j: int| 0 <= j < k ==> element_from_index_generator(
                    f,
                    shape,
                    j,
                    #[trigger] self.data@[j],
                ),
            decreases flat_size - k,
        {
            let coord_opt = it.next();
            let coord = coord_opt.unwrap();
            proof {
                lemma_coord_at_in_bounds(shape, k as int);
                assert forall|i: int| 0 <= i < shape.len() implies #[trigger] coord@[i]
                    < shape[i] by {
                    assert(0 <= coord_at(shape, k as int)[i] < shape[i]);
                    assert(coord@[i] == unrank_digit(shape, k as int, i) + 0);
                }
                assert(index_in_shape(shape, coord@));
                assert(coord_matches(coord@, shape, k as int));
                lemma_offset_in_range(shape, self.strides@, coord@);
                lemma_offset_round_trip(shape, self.strides@, coord@, k as int);
            }
            let off = flat_index_from_nd_index(&coord, &self.strides);
            assert(off == k);
            let ghost prev = self.data@;
            let value = f(coord);
            self.data.set(off, value);
            assert(self.data@ == prev.update(k as int, value));
            assert forall|j: int| 0 <= j < k + 1 implies element_from_index_generator(
                f,
                shape,
                j,
                #[trigger] self.data@[j],
            ) by {
                if j < k {
                    assert(self.data@[j] == prev[j]);
                } else {
                    assert(self.data@[j] == value);
                    assert(coord_matches(coord@, shape, j) && call_ensures(f, (coord,), value));
                    assert(element_from_index_generator(f, shape, j, value));
                }
            }
            k = k + 1;
        }
    }
}

impl<T> IntoNdIterator for StaticTensor<T> {
    /// Iteration over a tensor covers its full shape, from the origin.
    open spec fn nd_starts(self) -> Seq<usize> {
        Seq::new(self.shape@.len(), |i: int| 0usize)
    }

    open spec fn nd_stops(self) -> Seq<usize> {
        self.shape@
    }

    fn into_nd_iter(self) -> (it: StaticRangeIterator) {
        let n = self.shape.len();
        let zeros: Vec<usize> = vec![0; n];
        assert(zeros@ =~= self.nd_starts());
        let range = StaticRange::new(zeros, self.shape);
        StaticRangeIterator::new(range)
    }
}

/// The fill-construction law: two tensors built over the same shape
/// with the same fill value agree element-wise, and on all their
/// metadata.
pub proof fn lemma_full_deterministic<T>(
    a: StaticTensor<T>,
    b: StaticTensor<T>,
    shape: Seq<usize>,
    v: T,
)
    requires
        a.is_full(shape, v),
        b.is_full(shape, v),
    ensures
        a.data@ =~= b.data@,
        a.shape@ == b.shape@,
        a.strides@ =~= b.strides@,
        a.flat_size == b.flat_size,
{
}

} // verus!
