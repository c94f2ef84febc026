use copperhead_core::indexing::IntoNdIterator;
use copperhead_core::tensor::StaticTensor;

#[test]
pub fn test_static_tensor_full() {
    let t: StaticTensor<i32> = StaticTensor::full(vec![2, 3, 4], 11);
    assert_eq!(t.data, vec![11; 24]);
    assert_eq!(t.shape, vec![2, 3, 4]);
    assert_eq!(t.flat_size, 24);
    assert_eq!(t.strides, vec![12, 4, 1]);
}

#[test]
pub fn test_static_tensor_fill_with() {
    let mut t: StaticTensor<i32> = StaticTensor::full(vec![2, 3, 4], 0);
    t.fill_with(|| 5 + 6);
    assert_eq!(t.data, vec![11; 24]);
}

#[test]
pub fn test_static_tensor_fill_with_index() {
    let mut t: StaticTensor<i32> = StaticTensor::full(vec![2, 3], 0);
    t.fill_with_index(|index: Vec<usize>| (index[0] + index[1]) as i32);

    assert_eq!(t.data[0], 0);
    assert_eq!(t.data[1], 1);
    assert_eq!(t.data[2], 2);
    assert_eq!(t.data[3], 1);
    assert_eq!(t.data[4], 2);
    assert_eq!(t.data[5], 3);
}

#[test]
pub fn test_static_tensor_init_with() {
    let t: StaticTensor<i32> = StaticTensor::init_with(vec![2, 3, 4], || 5 + 6);
    assert_eq!(t.data, vec![11; 24]);
}

#[test]
pub fn test_static_tensor_init_with_index() {
    let t: StaticTensor<i32> =
        StaticTensor::init_with_index(vec![2, 3], |index: Vec<usize>| (index[0] + index[1]) as i32);
    assert_eq!(t.data[0], 0);
    assert_eq!(t.data[1], 1);
    assert_eq!(t.data[2], 2);
    assert_eq!(t.data[3], 1);
    assert_eq!(t.data[4], 2);
    assert_eq!(t.data[5], 3);
}

#[test]
fn test_at_reads_by_coordinate() {
    let t: StaticTensor<i32> =
        StaticTensor::init_with_index(vec![2, 3], |index: Vec<usize>| (10 * index[0] + index[1]) as i32);
    assert_eq!(t.at(&vec![0, 0]), 0);
    assert_eq!(t.at(&vec![0, 2]), 2);
    assert_eq!(t.at(&vec![1, 0]), 10);
    assert_eq!(t.at(&vec![1, 2]), 12);
}

#[test]
fn test_at_ref_mut_writes_by_coordinate() {
    let mut t: StaticTensor<i32> = StaticTensor::full(vec![2, 3], 0);
    *t.at_ref_mut(&vec![1, 2]) = 42;
    assert_eq!(t.at(&vec![1, 2]), 42);
    assert_eq!(t.data, vec![0, 0, 0, 0, 0, 42]);
}

#[test]
fn test_rank_zero_tensor() {
    // A zero-dimensional tensor holds exactly one element, addressed
    // by the empty coordinate.
    let t: StaticTensor<i32> = StaticTensor::full(vec![], 7);
    assert_eq!(t.flat_size, 1);
    assert_eq!(t.data, vec![7]);
    assert_eq!(t.at(&vec![]), 7);
}

#[test]
fn test_full_with_zero_dimension() {
    let t: StaticTensor<i32> = StaticTensor::full(vec![3, 0], 9);
    assert_eq!(t.flat_size, 0);
    assert_eq!(t.data, Vec::<i32>::new());
}

#[test]
fn test_full_is_deterministic() {
    let a: StaticTensor<i32> = StaticTensor::full(vec![2, 3, 4], 5);
    let b: StaticTensor<i32> = StaticTensor::full(vec![2, 3, 4], 5);
    assert_eq!(a.data, b.data);
    assert_eq!(a.shape, b.shape);
    assert_eq!(a.strides, b.strides);
    assert_eq!(a.flat_size, b.flat_size);
}

#[test]
fn test_tensor_into_nd_iter_covers_full_shape() {
    let t: StaticTensor<i32> = StaticTensor::full(vec![2, 2], 0);
    let mut iterator = t.into_nd_iter();
    assert_eq!(iterator.next(), Some(vec![0, 0]));
    assert_eq!(iterator.next(), Some(vec![0, 1]));
    assert_eq!(iterator.next(), Some(vec![1, 0]));
    assert_eq!(iterator.next(), Some(vec![1, 1]));
    assert_eq!(iterator.next(), None);
}

#[test]
fn test_init_with_observes_generator_in_order() {
    // The generator is drawn once per element, filling the buffer in
    // linear order.
    let counter = std::cell::Cell::new(0);
    let t: StaticTensor<i32> = StaticTensor::init_with(vec![2, 3], || {
        let v = counter.get();
        counter.set(v + 1);
        v
    });
    assert_eq!(t.data, vec![0, 1, 2, 3, 4, 5]);
}
