use crabml_core::buffer::Buffer;
use crabml_core::error::ErrorKind;
use crabml_core::tensor::CpuTensor;

#[test]
fn at_reads_through_the_strides() {
    let v: Vec<f32> = vec![1.0, 2.0, 3.0, 4.0, 5.0, 6.0];
    let t = CpuTensor::new(Buffer::Borrowed(&v), vec![2, 3]).unwrap();
    assert_eq!(t.strides(), &[3, 1]);
    assert_eq!(t.at(&[1, 2]).unwrap(), 6.0);
    assert_eq!(t.at(&[1, 0]).unwrap(), 4.0);
    assert_eq!(t.at_unchecked(&[1, 2]), 6.0);
    assert_eq!(t.at_unchecked(&[0, 1]), 2.0);
    assert!(t.at(&[0, 4]).is_err());
}

#[test]
fn at_rejects_an_index_outside_the_shape() {
    let v: Vec<f32> = vec![1.0, 2.0, 3.0, 4.0, 5.0, 6.0];
    let t = CpuTensor::new(Buffer::Borrowed(&v), vec![2, 3]).unwrap();
    let e = t.at(&[0, 4]).unwrap_err();
    assert_eq!(e.kind, ErrorKind::TensorError);
    assert_eq!(e.message, "invalid index [0, 4] for tensor of shape [2, 3]");
    let e = t.at(&[2, 0]).unwrap_err();
    assert_eq!(e.message, "invalid index [2, 0] for tensor of shape [2, 3]");
    let e = t.at(&[0, 3]).unwrap_err();
    assert_eq!(e.message, "invalid index [0, 3] for tensor of shape [2, 3]");
    assert!(t.at(&[usize::MAX, usize::MAX]).is_err());
}

#[test]
fn at_rejects_an_index_of_another_rank() {
    let v: Vec<f32> = vec![1.0, 2.0, 3.0, 4.0, 5.0, 6.0];
    let t = CpuTensor::new(Buffer::Borrowed(&v), vec![2, 3]).unwrap();
    let e = t.at(&[1]).unwrap_err();
    assert_eq!(e.kind, ErrorKind::TensorError);
    assert_eq!(e.message, "invalid index [1] for tensor of shape [2, 3]");
    let e = t.at(&[1, 1, 0]).unwrap_err();
    assert_eq!(e.message, "invalid index [1, 1, 0] for tensor of shape [2, 3]");
    assert!(t.at(&[]).is_err());
}

#[test]
fn at_addresses_every_element_of_three_dimensions() {
    let v: Vec<u32> = (0..24).collect();
    let t = CpuTensor::new(Buffer::Borrowed(&v), vec![2, 3, 4]).unwrap();
    assert_eq!(t.strides(), &[12, 4, 1]);
    for i in 0..2 {
        for j in 0..3 {
            for k in 0..4 {
                assert_eq!(t.at(&[i, j, k]).unwrap(), (i * 12 + j * 4 + k) as u32);
            }
        }
    }
}

#[test]
fn ref_chunk_returns_one_block_of_trailing_dimensions() {
    let v: Vec<u32> = (0..24).collect();
    let t = CpuTensor::new(Buffer::Borrowed(&v), vec![2, 3, 4]).unwrap();
    assert_eq!(t.ref_chunk(&[1]).unwrap(), &v[12..24]);
    assert_eq!(t.ref_chunk(&[0]).unwrap(), &v[0..12]);
    assert_eq!(t.ref_chunk(&[1, 2]).unwrap(), &[20, 21, 22, 23]);
    assert_eq!(t.ref_chunk(&[0, 1]).unwrap(), &[4, 5, 6, 7]);
}

#[test]
fn ref_chunk_rejects_a_tensor_that_is_not_contiguous() {
    let v: Vec<f32> = vec![1.0, 2.0, 3.0, 4.0, 5.0, 6.0];
    let t = CpuTensor::new(Buffer::Borrowed(&v), vec![2, 3]).unwrap();
    let t = t.transpose(&[1, 0]).unwrap();
    let e = t.ref_chunk(&[0]).unwrap_err();
    assert_eq!(e.kind, ErrorKind::TensorError);
    assert_eq!(e.message, "tensor have to be contiguous to get chunk");
}

#[test]
fn ref_chunk_rejects_a_position_that_leaves_no_dimension_free() {
    let v: Vec<f32> = vec![1.0, 2.0, 3.0, 4.0, 5.0, 6.0];
    let t = CpuTensor::new(Buffer::Borrowed(&v), vec![2, 3]).unwrap();
    let e = t.ref_chunk(&[0, 1]).unwrap_err();
    assert_eq!(e.kind, ErrorKind::TensorError);
    assert_eq!(
        e.message,
        "invalid chunk position [0, 1] for tensor of shape [2, 3]"
    );
    assert!(t.ref_chunk(&[0, 1, 2]).is_err());
    let row = t.subtensor(0).unwrap();
    assert!(row.ref_chunk(&[0]).is_err());
}

#[test]
fn ref_chunk_rejects_a_position_outside_the_buffer() {
    let v: Vec<f32> = vec![1.0, 2.0, 3.0, 4.0, 5.0, 6.0];
    let t = CpuTensor::new(Buffer::Borrowed(&v), vec![2, 3]).unwrap();
    let e = t.ref_chunk(&[2]).unwrap_err();
    assert_eq!(
        e.message,
        "invalid chunk position [2] for tensor of shape [2, 3]"
    );
    assert!(t.ref_chunk(&[usize::MAX]).is_err());
    let e = t.ref_chunk(&[]).unwrap_err();
    assert_eq!(e.message, "invalid chunk position [] for tensor of shape [2, 3]");
}

#[test]
fn mut_chunk_writes_are_seen_by_later_reads() {
    let v: Vec<f32> = vec![1.0, 2.0, 3.0, 4.0, 5.0, 6.0];
    let mut t = CpuTensor::new(Buffer::Owned(v), vec![2, 3]).unwrap();
    {
        let chunk = t.mut_chunk(&[0]).unwrap();
        assert_eq!(chunk.len(), 3);
        chunk[0] = 9.0;
    }
    assert_eq!(t.ref_chunk(&[0]).unwrap(), &[9.0, 2.0, 3.0]);
    assert_eq!(t.ref_chunk(&[1]).unwrap(), &[4.0, 5.0, 6.0]);
    assert_eq!(t.at(&[0, 0]).unwrap(), 9.0);
    assert_eq!(t.ref_buf(), &[9.0, 2.0, 3.0, 4.0, 5.0, 6.0]);
    assert_eq!(t.shape(), &[2, 3]);
    assert_eq!(t.strides(), &[3, 1]);
}

#[test]
fn mut_chunk_rejects_a_borrowed_buffer() {
    let v: Vec<f32> = vec![1.0, 2.0, 3.0, 4.0, 5.0, 6.0];
    let mut t = CpuTensor::new(Buffer::Borrowed(&v), vec![2, 3]).unwrap();
    let e = t.mut_chunk(&[0]).unwrap_err();
    assert_eq!(e.kind, ErrorKind::TensorError);
    assert_eq!(e.message, "only owned tensor can be mut");
    assert_eq!(t.ref_buf(), &[1.0, 2.0, 3.0, 4.0, 5.0, 6.0]);
}

#[test]
fn mut_chunk_rejects_what_ref_chunk_rejects() {
    let v: Vec<f32> = vec![1.0, 2.0, 3.0, 4.0, 5.0, 6.0];
    let mut t = CpuTensor::new(Buffer::Owned(v.clone()), vec![2, 3]).unwrap();
    let e = t.mut_chunk(&[0, 1]).unwrap_err();
    assert_eq!(
        e.message,
        "invalid mut chunk position [0, 1] for tensor of shape [2, 3]"
    );
    assert!(t.mut_chunk(&[]).is_err());
    assert!(t.mut_chunk(&[2]).is_err());
    let mut t = t.transpose(&[1, 0]).unwrap();
    let e = t.mut_chunk(&[0]).unwrap_err();
    assert_eq!(e.message, "tensor have to be contiguous to get chunk");
    let mut t = CpuTensor::new(Buffer::Borrowed(&v), vec![2, 3])
        .unwrap()
        .transpose(&[1, 0])
        .unwrap();
    let e = t.mut_chunk(&[0]).unwrap_err();
    assert_eq!(e.message, "tensor have to be contiguous to get chunk");
}

#[test]
fn copy_chunk_overwrites_one_chunk() {
    let mut t = CpuTensor::new(Buffer::Owned(vec![1.0f32, 2.0, 3.0, 4.0, 5.0, 6.0]), vec![2, 3])
        .unwrap();
    let row: Vec<f32> = vec![7.0, 8.0, 9.0];
    let data = CpuTensor::new(Buffer::Owned(row), vec![3]).unwrap();
    t.copy_chunk(&[1], &data).unwrap();
    assert_eq!(t.ref_buf(), &[1.0, 2.0, 3.0, 7.0, 8.0, 9.0]);
    assert_eq!(t.ref_chunk(&[1]).unwrap(), data.ref_buf());
    assert_eq!(t.ref_chunk(&[0]).unwrap(), &[1.0, 2.0, 3.0]);
    t.copy_chunk(&[0], &data).unwrap();
    assert_eq!(t.ref_buf(), &[7.0, 8.0, 9.0, 7.0, 8.0, 9.0]);
}

#[test]
fn copy_chunk_rejects_a_borrowed_buffer() {
    let v: Vec<f32> = vec![1.0, 2.0, 3.0, 4.0, 5.0, 6.0];
    let mut t = CpuTensor::new(Buffer::Borrowed(&v), vec![2, 3]).unwrap();
    let row: Vec<f32> = vec![7.0, 8.0, 9.0];
    let data = CpuTensor::new(Buffer::Borrowed(&row), vec![3]).unwrap();
    let e = t.copy_chunk(&[1], &data).unwrap_err();
    assert_eq!(e.kind, ErrorKind::TensorError);
    assert_eq!(e.message, "only owned tensor can be mut");
    assert_eq!(t.ref_buf(), &[1.0, 2.0, 3.0, 4.0, 5.0, 6.0]);
}

#[test]
fn mut_buf_hands_out_an_owned_buffer_only() {
    let v: Vec<f32> = vec![1.0, 2.0, 3.0, 4.0];
    let mut t = CpuTensor::new(Buffer::Borrowed(&v), vec![2, 2]).unwrap();
    let e = t.mut_buf().unwrap_err();
    assert_eq!(e.kind, ErrorKind::TensorError);
    assert_eq!(e.message, "can not mut a borrowed tensor");

    let mut t = CpuTensor::new(Buffer::Owned(v.clone()), vec![2, 2]).unwrap();
    {
        let buf = t.mut_buf().unwrap();
        assert_eq!(buf, &[1.0, 2.0, 3.0, 4.0]);
        buf[3] = 8.0;
    }
    assert_eq!(t.at(&[1, 1]).unwrap(), 8.0);
    assert_eq!(t.ref_buf(), &[1.0, 2.0, 3.0, 8.0]);
    let mut t = t.transpose(&[1, 0]).unwrap();
    t.mut_buf().unwrap()[1] = 5.0;
    assert_eq!(t.at(&[1, 0]).unwrap(), 5.0);
}
