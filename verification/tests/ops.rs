use copperhead_core::tensor::StaticTensor;

#[test]
fn test_tensor_add() {
    let t0: StaticTensor<i32> = StaticTensor::full(vec![2, 3], 1);
    let t1: StaticTensor<i32> = StaticTensor::full(vec![2, 3], 2);
    let t2 = t0.add(&t1);

    assert_eq!(t2.data, vec![3; 6]);
}

#[test]
fn test_tensor_add_assign() {
    let mut t0: StaticTensor<i32> = StaticTensor::full(vec![2, 3], 1);
    let t1: StaticTensor<i32> = StaticTensor::full(vec![2, 3], 2);

    t0.add_assign(&t1);

    assert_eq!(t0.data, vec![3; 6]);
}

#[test]
fn test_add_keeps_operands() {
    let t0: StaticTensor<i32> = StaticTensor::full(vec![2, 2], 4);
    let t1: StaticTensor<i32> = StaticTensor::full(vec![2, 2], -1);
    let t2 = t0.add(&t1);

    assert_eq!(t2.data, vec![3; 4]);
    assert_eq!(t2.shape, vec![2, 2]);
    assert_eq!(t0.data, vec![4; 4]);
    assert_eq!(t1.data, vec![-1; 4]);
}

#[test]
fn test_add_assign_keeps_rhs() {
    let mut t0: StaticTensor<i32> = StaticTensor::full(vec![2, 3], 1);
    let t1: StaticTensor<i32> = StaticTensor::full(vec![2, 3], 2);

    t0.add_assign(&t1);

    assert_eq!(t0.data, vec![3; 6]);
    assert_eq!(t1.data, vec![2; 6]);
}

#[test]
fn test_add_elementwise_values() {
    let t0: StaticTensor<i32> =
        StaticTensor::init_with_index(vec![2, 3], |index: Vec<usize>| index[1] as i32);
    let t1: StaticTensor<i32> =
        StaticTensor::init_with_index(vec![2, 3], |index: Vec<usize>| (10 * index[0]) as i32);
    let t2 = t0.add(&t1);

    assert_eq!(t2.data, vec![0, 1, 2, 10, 11, 12]);
}
