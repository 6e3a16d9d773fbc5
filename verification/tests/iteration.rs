use crabml_core::buffer::Buffer;
use crabml_core::tensor::CpuTensor;

#[test]
fn a_contiguous_tensor_iterates_in_buffer_order() {
    let v: Vec<u32> = (0..24).collect();
    let t = CpuTensor::new(Buffer::Borrowed(&v), vec![2, 3, 4]).unwrap();
    assert_eq!(t.iter().collect(), v);
    assert_eq!(t.iter().collect(), t.ref_buf().to_vec());
}

#[test]
fn iteration_follows_the_indices_in_row_major_order() {
    let v: Vec<u32> = (0..24).collect();
    let t = CpuTensor::new(Buffer::Borrowed(&v), vec![2, 3, 4])
        .unwrap()
        .transpose(&[2, 0, 1])
        .unwrap();
    let shape = t.shape().to_vec();
    assert_eq!(shape, vec![4, 2, 3]);
    let mut by_index = Vec::new();
    for i in 0..shape[0] {
        for j in 0..shape[1] {
            for k in 0..shape[2] {
                by_index.push(t.at(&[i, j, k]).unwrap());
            }
        }
    }
    assert_eq!(t.iter().collect(), by_index);
    assert_eq!(by_index[0], 0);
    assert_eq!(by_index[1], 4);
    assert_eq!(by_index[3], 12);
    assert_eq!(by_index[6], 1);
}

#[test]
fn next_hands_out_one_element_at_a_time() {
    let v: Vec<f32> = vec![1.0, 2.0, 3.0, 4.0, 5.0, 6.0];
    let t = CpuTensor::new(Buffer::Borrowed(&v), vec![2, 3])
        .unwrap()
        .transpose(&[1, 0])
        .unwrap();
    let mut it = t.iter();
    assert_eq!(it.next(), Some(1.0));
    assert_eq!(it.next(), Some(4.0));
    assert_eq!(it.next(), Some(2.0));
    assert_eq!(it.collect(), vec![5.0, 3.0, 6.0]);
    let mut it = t.iter();
    for _ in 0..6 {
        assert!(it.next().is_some());
    }
    assert_eq!(it.next(), None);
    assert_eq!(it.next(), None);
}

#[test]
fn each_cursor_starts_afresh() {
    let v: Vec<f32> = vec![1.0, 2.0, 3.0, 4.0];
    let t = CpuTensor::new(Buffer::Borrowed(&v), vec![4]).unwrap();
    let mut a = t.iter();
    assert_eq!(a.next(), Some(1.0));
    assert_eq!(a.next(), Some(2.0));
    let mut b = t.iter();
    assert_eq!(b.next(), Some(1.0));
    assert_eq!(a.next(), Some(3.0));
    assert_eq!(t.iter().collect(), vec![1.0, 2.0, 3.0, 4.0]);
}

#[test]
fn a_strided_row_is_walked_by_its_stride() {
    let v: Vec<f32> = vec![1.0, 2.0, 3.0, 4.0, 5.0, 6.0];
    let t = CpuTensor::new(Buffer::Borrowed(&v), vec![2, 3])
        .unwrap()
        .transpose(&[1, 0])
        .unwrap();
    let row = t.subtensor(0).unwrap();
    assert_eq!(row.strides(), &[3]);
    let mut it = row.iter();
    assert_eq!(it.size_hint(), (0, Some(2)));
    assert_eq!(it.next(), Some(1.0));
    assert_eq!(it.size_hint(), (0, Some(1)));
    assert_eq!(it.next(), Some(4.0));
    assert_eq!(it.size_hint(), (0, Some(0)));
    assert_eq!(it.next(), None);
}

#[test]
fn size_hint_is_open_for_more_dimensions() {
    let v: Vec<f32> = vec![1.0, 2.0, 3.0, 4.0, 5.0, 6.0];
    let t = CpuTensor::new(Buffer::Borrowed(&v), vec![2, 3]).unwrap();
    let mut it = t.iter();
    assert_eq!(it.size_hint(), (0, None));
    it.next();
    assert_eq!(it.size_hint(), (0, None));
}
