use crabml_core::layout::{
    checked_element_count, checked_last_offset, checked_offset, is_contiguous_layout, offset,
    row_major_strides,
};

#[test]
fn element_count_is_the_product_of_the_extents() {
    assert_eq!(checked_element_count(&[2, 3, 4]), Some(24));
    assert_eq!(checked_element_count(&[7]), Some(7));
    assert_eq!(checked_element_count(&[]), Some(1));
    assert_eq!(checked_element_count(&[5, 0, 3]), Some(0));
    assert_eq!(checked_element_count(&[usize::MAX]), Some(usize::MAX));
    assert_eq!(checked_element_count(&[usize::MAX, 1, 1]), Some(usize::MAX));
}

#[test]
fn element_count_of_an_empty_dimension_is_zero_whatever_the_others_are() {
    assert_eq!(checked_element_count(&[usize::MAX, usize::MAX, 0]), Some(0));
    assert_eq!(checked_element_count(&[0, usize::MAX, usize::MAX]), Some(0));
    assert_eq!(checked_element_count(&[usize::MAX, 0, usize::MAX]), Some(0));
}

#[test]
fn element_count_is_none_when_it_cannot_be_held() {
    assert_eq!(checked_element_count(&[usize::MAX, 2]), None);
    assert_eq!(checked_element_count(&[2, usize::MAX]), None);
    assert_eq!(checked_element_count(&[1 << 40, 1 << 40]), None);
}

#[test]
fn row_major_strides_are_suffix_products() {
    assert_eq!(row_major_strides(&[2, 3, 4]), Some(vec![12, 4, 1]));
    assert_eq!(row_major_strides(&[2, 3]), Some(vec![3, 1]));
    assert_eq!(row_major_strides(&[2, 3, 1]), Some(vec![3, 1, 1]));
    assert_eq!(row_major_strides(&[5]), Some(vec![1]));
    assert_eq!(row_major_strides(&[]), Some(vec![]));
    assert_eq!(row_major_strides(&[4, 0, 3]), Some(vec![0, 3, 1]));
    assert_eq!(row_major_strides(&[usize::MAX, 2]), Some(vec![2, 1]));
}

#[test]
fn row_major_strides_are_none_when_one_does_not_fit() {
    assert_eq!(row_major_strides(&[0, usize::MAX, 2]), None);
    assert_eq!(row_major_strides(&[1, 1 << 40, 1 << 40]), None);
    assert_eq!(row_major_strides(&[usize::MAX, usize::MAX, 0]), Some(vec![0, 0, 1]));
}

#[test]
fn a_layout_is_contiguous_when_each_stride_spans_what_follows() {
    assert!(is_contiguous_layout(&[2, 3], &[3, 1]));
    assert!(is_contiguous_layout(&[2, 3, 4], &[12, 4, 1]));
    assert!(is_contiguous_layout(&[], &[]));
    assert!(is_contiguous_layout(&[5], &[1]));
    assert!(!is_contiguous_layout(&[3, 2], &[1, 3]));
    assert!(!is_contiguous_layout(&[2, 4], &[12, 1]));
    assert!(!is_contiguous_layout(&[5], &[2]));
    assert!(!is_contiguous_layout(&[2, 3], &[3]));
    assert!(!is_contiguous_layout(&[2, 3], &[3, 1, 1]));
    assert!(!is_contiguous_layout(&[2, usize::MAX, 2], &[3, 2, 1]));
}

#[test]
fn an_offset_is_the_sum_of_coordinate_times_stride() {
    assert_eq!(offset(&[1, 2], &[3, 1]), 5);
    assert_eq!(offset(&[1, 2, 3], &[12, 4, 1]), 23);
    assert_eq!(offset(&[], &[3, 1]), 0);
    assert_eq!(offset(&[1], &[3, 1]), 3);
    assert_eq!(checked_offset(&[1, 2], &[3, 1]), Some(5));
    assert_eq!(checked_offset(&[2, 1], &[1, 3]), Some(5));
    assert_eq!(checked_offset(&[], &[]), Some(0));
    assert_eq!(checked_offset(&[usize::MAX], &[1, 1]), Some(usize::MAX));
}

#[test]
fn an_offset_that_cannot_be_held_is_none() {
    assert_eq!(checked_offset(&[usize::MAX], &[2]), None);
    assert_eq!(checked_offset(&[usize::MAX, 1], &[1, 1]), None);
    assert_eq!(checked_offset(&[1 << 40, 0], &[1 << 40, 5]), None);
}

#[test]
fn the_last_offset_is_the_sum_of_largest_coordinate_times_stride() {
    assert_eq!(checked_last_offset(&[2, 3], &[3, 1]), Some(5));
    assert_eq!(checked_last_offset(&[3, 2], &[1, 3]), Some(5));
    assert_eq!(checked_last_offset(&[2, 2], &[3, 3]), Some(6));
    assert_eq!(checked_last_offset(&[2, 3, 4], &[12, 4, 1]), Some(23));
    assert_eq!(checked_last_offset(&[], &[]), Some(0));
    assert_eq!(checked_last_offset(&[1, 1], &[usize::MAX, usize::MAX]), Some(0));
    assert_eq!(checked_last_offset(&[3], &[usize::MAX]), None);
    assert_eq!(checked_last_offset(&[2, 2], &[usize::MAX, 1]), None);
}
