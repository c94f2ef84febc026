//! Element-wise arithmetic over dense arrays: addition producing a new
//! array, and addition in place. Both demand matching shapes and work
//! on the flat buffers directly in linear order, which for same-shaped
//! row-major arrays visits every element exactly once.

use vstd::prelude::*;
use crate::tensor::StaticTensor;

verus! {

impl StaticTensor<i32> {
    /// Element-wise sums of the two buffers all stay within the
    /// element type's range.
    pub open spec fn sum_fits(self, rhs: StaticTensor<i32>) -> bool {
        forall|k: int| 0 <= k < self.data@.len() ==> i32::MIN <= #[trigger] self.data@[k]
            + rhs.data@[k] <= i32::MAX
    }

    /// Element-wise addition: produces a new tensor of the same shape
    /// holding the sum of the operands at every position. Demands
    /// matching shapes and leaves both operands untouched.
    pub fn add(&self, rhs: &StaticTensor<i32>) -> (r: StaticTensor<i32>)
        requires
            self.wf(),
            rhs.wf(),
            self.shape@ == rhs.shape@,
            self.sum_fits(*rhs),
        ensures
            r.wf(),
            r.shape@ == self.shape@,
            r.data@.len() == self.data@.len(),
            forall|k: int| 0 <= k < r.data@.len() ==> #[trigger] r.data@[k] == self.data@[k]
                + rhs.data@[k],
    {
        let flat_size = self.flat_size;
        let mut data: Vec<i32> = Vec::new();
        let mut k: usize = 0;
        while k < flat_size
            invariant
                self.wf(),
                rhs.wf(),
                self.shape@ == rhs.shape@,
                self.sum_fits(*rhs),
                flat_size == self.flat_size,
                k <= flat_size,
                data@.len() == k,
                forall|j: int| 0 <= j < k ==> #[trigger] data@[j] == self.data@[j] + rhs.data@[j],
            decreases flat_size - k,
        {
            let sum = self.data[k] + rhs.data[k];
            data.push(sum);
            k = k + 1;
        }
        StaticTensor {
            data,
            shape: self.shape.clone(),
            strides: self.strides.clone(),
            flat_size: self.flat_size,
        }
    }

    /// Element-wise addition in place: adds the right-hand operand's
    /// elements into this tensor's buffer position by position. Demands
    /// matching shapes and leaves the right-hand operand untouched.
    pub fn add_assign(&mut self, rhs: &StaticTensor<i32>)
        requires
            old(self).wf(),
            rhs.wf(),
            old(self).shape@ == rhs.shape@,
            old(self).sum_fits(*rhs),
        ensures
            final(self).wf(),
            final(self).shape == old(self).shape,
            final(self).strides == old(self).strides,
            final(self).flat_size == old(self).flat_size,
            final(self).data@.len() == old(self).data@.len(),
            forall|k: int| 0 <= k < final(self).data@.len() ==> #[trigger] final(self).data@[k]
                == old(self).data@[k] + rhs.data@[k],
    {
        let flat_size = self.flat_size;
        let mut k: usize = 0;
        while k < flat_size
            invariant
                self.wf(),
                rhs.wf(),
                self.shape@ == rhs.shape@,
                self.shape == old(self).shape,
                self.strides == old(self).strides,
                self.flat_size == old(self).flat_size,
                flat_size == self.flat_size,
                k <= flat_size,
                forall|j: int| k <= j < flat_size ==> #[trigger] self.data@[j] == old(
                    self,
                ).data@[j],
                forall|j: int| k <= j < flat_size ==> i32::MIN <= #[trigger] old(self).data@[j]
                    + rhs.data@[j] <= i32::MAX,
                forall|j: int| 0 <= j < k ==> #[trigger] self.data@[j] == old(self).data@[j]
                    + rhs.data@[j],
            decreases flat_size - k,
        {
            let sum = self.data[k] + rhs.data[k];
            self.data.set(k, sum);
            k = k + 1;
        }
    }
}

} // verus!
