use copperhead_core::indexing::{
    flat_index_from_nd_index, flat_size_from_shape, strides_from_shape, IntoNdIterator,
    StaticRange, StaticRangeIterator,
};

#[test]
fn test_static_range_iterator() {
    let starts = vec![1, 1, 1];
    let stops = vec![3, 3, 4];
    let range = StaticRange::new(starts, stops);

    let mut iterator = range.into_nd_iter();

    assert_eq!(iterator.next(), Some(vec![1, 1, 1]));
    assert_eq!(iterator.next(), Some(vec![1, 1, 2]));
    assert_eq!(iterator.next(), Some(vec![1, 1, 3]));
    assert_eq!(iterator.next(), Some(vec![1, 2, 1]));
    assert_eq!(iterator.next(), Some(vec![1, 2, 2]));
    assert_eq!(iterator.next(), Some(vec![1, 2, 3]));
    assert_eq!(iterator.next(), Some(vec![2, 1, 1]));
    assert_eq!(iterator.next(), Some(vec![2, 1, 2]));
    assert_eq!(iterator.next(), Some(vec![2, 1, 3]));
    assert_eq!(iterator.next(), Some(vec![2, 2, 1]));
    assert_eq!(iterator.next(), Some(vec![2, 2, 2]));
    assert_eq!(iterator.next(), Some(vec![2, 2, 3]));
    assert_eq!(iterator.next(), None);
}

#[test]
fn test_stride_formula() {
    let shape = vec![2, 3, 4];
    assert_eq!(strides_from_shape(&shape), vec![12, 4, 1]);
    assert_eq!(flat_size_from_shape(&shape), 24);
}

#[test]
fn test_flat_size_of_empty_shape() {
    let shape: Vec<usize> = vec![];
    assert_eq!(flat_size_from_shape(&shape), 1);
    assert_eq!(strides_from_shape(&shape), Vec::<usize>::new());
}

#[test]
fn test_flat_size_with_zero_dimension() {
    let shape = vec![3, 0, 5];
    assert_eq!(flat_size_from_shape(&shape), 0);
    assert_eq!(strides_from_shape(&shape), vec![0, 5, 1]);
}

#[test]
fn test_flat_index_dot_product() {
    let strides = vec![12, 4, 1];
    assert_eq!(flat_index_from_nd_index(&vec![0, 0, 0], &strides), 0);
    assert_eq!(flat_index_from_nd_index(&vec![1, 2, 3], &strides), 23);
    assert_eq!(flat_index_from_nd_index(&vec![1, 0, 2], &strides), 14);
}

#[test]
fn test_empty_range_yields_nothing() {
    // Any dimension with stop == start empties the whole range.
    let range = StaticRange::new(vec![0, 2, 0], vec![4, 2, 7]);
    let mut iterator = StaticRangeIterator::new(range);
    assert_eq!(iterator.next(), None);
    assert_eq!(iterator.next(), None);
}

#[test]
fn test_iterator_stays_exhausted() {
    let range = StaticRange::new(vec![0], vec![2]);
    let mut iterator = range.into_nd_iter();
    assert_eq!(iterator.next(), Some(vec![0]));
    assert_eq!(iterator.next(), Some(vec![1]));
    assert_eq!(iterator.next(), None);
    assert_eq!(iterator.next(), None);
}

#[test]
fn test_rank_zero_range() {
    // A zero-dimensional volume holds exactly one (empty) coordinate.
    let range = StaticRange::new(vec![], vec![]);
    let mut iterator = range.into_nd_iter();
    assert_eq!(iterator.next(), Some(Vec::new()));
    assert_eq!(iterator.next(), None);
}

#[test]
fn test_round_trip_covers_buffer_once() {
    // Every coordinate of a full-shape iteration maps to a distinct
    // flat offset, and together they cover [0, flat_size) exactly.
    let shape = vec![2, 3, 4];
    let strides = strides_from_shape(&shape);
    let flat_size = flat_size_from_shape(&shape);
    let zeros = vec![0; shape.len()];
    let range = StaticRange::new(zeros, shape);
    let mut iterator = range.into_nd_iter();
    let mut seen = vec![false; flat_size];
    while let Some(coord) = iterator.next() {
        let off = flat_index_from_nd_index(&coord, &strides);
        assert!(off < flat_size);
        assert!(!seen[off]);
        seen[off] = true;
    }
    assert!(seen.iter().all(|&s| s));
}
