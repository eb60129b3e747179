use array_summer::sum_array;

#[test]
fn sums_small_values() {
    assert_eq!(sum_array(&[1, 2, 3]), 6);
}

#[test]
fn empty_view_is_zero() {
    let empty: [i32; 0] = [];
    assert_eq!(sum_array(&empty), 0);
}

#[test]
fn four_max_elements() {
    // 4 * 2147483647: fits a 64-bit accumulator, far below its limit.
    assert_eq!(
        sum_array(&[i32::MAX, i32::MAX, i32::MAX, i32::MAX]),
        8_589_934_588
    );
}

#[test]
fn sentinel_ambiguity_sum_is_minus_one() {
    // A true sum of exactly -1 is returned as -1, indistinguishable from
    // the overflow sentinel.
    assert_eq!(sum_array(&[-1]), -1);
    assert_eq!(sum_array(&[3, -4]), -1);
    assert_eq!(sum_array(&[i32::MAX, i32::MIN]), -1);
}

#[test]
fn single_element() {
    assert_eq!(sum_array(&[42]), 42);
    assert_eq!(sum_array(&[i32::MIN]), -2_147_483_648);
    assert_eq!(sum_array(&[i32::MAX]), 2_147_483_647);
}

#[test]
fn negative_values_accumulate() {
    assert_eq!(sum_array(&[i32::MIN, i32::MIN]), -4_294_967_296);
}

#[test]
fn mixed_signs_cancel() {
    assert_eq!(sum_array(&[100, -40, -60]), 0);
}

#[test]
fn long_run_accumulates() {
    let values = vec![i32::MAX; 1000];
    assert_eq!(sum_array(&values), 1000 * (i32::MAX as i64));
}

#[test]
fn order_is_left_to_right() {
    // The accumulation order is first-to-last; with these values every
    // prefix stays in range either way, so both orders agree here. The
    // order-dependent overflow case needs more than 2^32 elements and is
    // established by proof instead.
    let forward = [i32::MIN, i32::MAX, i32::MAX];
    let reversed = [i32::MAX, i32::MAX, i32::MIN];
    assert_eq!(sum_array(&forward), 2_147_483_646);
    assert_eq!(sum_array(&reversed), 2_147_483_646);
}
