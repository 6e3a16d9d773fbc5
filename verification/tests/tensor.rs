use crabml_core::buffer::Buffer;
use crabml_core::error::{Error, ErrorKind};
use crabml_core::tensor::CpuTensor;

#[test]
fn test_tensor() -> Result<(), Error> {
    let v: Vec<f32> = vec![1.0, 2.0, 3.0, 4.0, 5.0, 6.0];
    let t = CpuTensor::new(Buffer::Borrowed(&v), vec![2, 3]).unwrap();
    assert_eq!(t.subtensor(0)?.iter().collect(), vec![1.0, 2.0, 3.0]);
    assert_eq!(t.subtensor(1)?.iter().collect(), vec![4.0, 5.0, 6.0]);

    let v: Vec<f32> = vec![1.0, 2.0, 3.0, 4.0, 5.0, 6.0];
    let t = CpuTensor::new(Buffer::Borrowed(&v), vec![2, 3, 1]).unwrap();
    assert_eq!(format!("{:?}", t.strides()), "[3, 1, 1]");
    assert_eq!(t.is_contiguous(), true);
    assert_eq!(t.subtensor(0)?.ref_buf().to_vec(), vec![1.0, 2.0, 3.0]);
    assert_eq!(t.subtensor(1)?.ref_buf().to_vec(), vec![4.0, 5.0, 6.0]);
    assert_eq!(t.subtensor(0)?.subtensor(0)?.ref_buf().to_vec(), vec![1.0]);
    assert_eq!(t.subtensor(0)?.subtensor(1)?.ref_buf().to_vec(), vec![2.0]);
    assert_eq!(t.subtensor(0)?.subtensor(2)?.ref_buf().to_vec(), vec![3.0]);
    assert_eq!(t.subtensor(1)?.subtensor(0)?.ref_buf().to_vec(), vec![4.0]);
    assert_eq!(t.subtensor(1)?.shape().to_vec(), vec![3, 1]);

    let v: Vec<f32> = vec![
        1.0, 2.0, 3.0, 4.0, 5.0, 6.0, 7.0, 8.0, 9.0, 10.0, 11.0, 12.0,
    ];
    let t = CpuTensor::new(Buffer::Borrowed(&v), vec![2, 3, 2, 1]).unwrap();
    assert_eq!(
        t.subtensor(0)?.ref_buf().to_vec(),
        vec![1.0, 2.0, 3.0, 4.0, 5.0, 6.0]
    );
    assert_eq!(
        t.subtensor(1)?.ref_buf().to_vec(),
        vec![7.0, 8.0, 9.0, 10.0, 11.0, 12.0]
    );
    Ok(())
}

#[test]
fn test_tensor_transform() -> Result<(), Error> {
    let v: Vec<f32> = vec![1.0, 2.0, 3.0, 4.0, 5.0, 6.0];
    let t = CpuTensor::new(Buffer::Borrowed(&v), vec![2, 3]).unwrap();
    assert_eq!(t.strides().to_vec(), vec![3, 1]);
    assert_eq!(t.at(&[0, 0])?, 1.0);
    assert_eq!(t.at(&[0, 1])?, 2.0);
    assert_eq!(t.at(&[0, 2])?, 3.0);
    assert_eq!(t.at(&[0, 4]).unwrap_err().kind, ErrorKind::TensorError);
    assert_eq!(t.at(&[1, 0])?, 4.0);
    assert_eq!(t.at(&[1, 1])?, 5.0);
    assert_eq!(t.at(&[1, 2])?, 6.0);

    let t = t.transpose(&[1, 0])?;
    assert_eq!(t.strides().to_vec(), vec![1, 3]);
    assert_eq!(t.at(&[0, 0])?, 1.0);
    assert_eq!(t.at(&[1, 0])?, 2.0);
    assert_eq!(t.at(&[2, 0])?, 3.0);
    assert_eq!(t.at(&[4, 0]).unwrap_err().kind, ErrorKind::TensorError);
    assert_eq!(t.at(&[0, 1])?, 4.0);
    assert_eq!(t.at(&[1, 1])?, 5.0);
    assert_eq!(t.at(&[2, 1])?, 6.0);

    let v: Vec<f32> = vec![1.0, 2.0, 3.0, 4.0, 5.0, 6.0];
    let t = CpuTensor::new(Buffer::Borrowed(&v), vec![2, 3]).unwrap();
    let t1 = t.subtensor(0)?;
    assert_eq!(t1.shape(), &[3]);
    assert_eq!(t1.at(&[0])?, 1.0);
    assert_eq!(t1.at(&[1])?, 2.0);
    assert_eq!(t1.at(&[2])?, 3.0);
    let t2 = t.clone().transpose(&[1, 0])?;
    assert_eq!(t2.shape().to_vec(), vec![3, 2]);
    let t3 = t.subtensor(1)?;
    assert_eq!(t3.at(&[0])?, 4.0);

    Ok(())
}

#[test]
fn test_tensor_iterator() -> Result<(), Error> {
    let v: Vec<f32> = vec![1.0, 2.0, 3.0, 4.0, 5.0, 6.0];
    let t = CpuTensor::new(Buffer::Borrowed(&v), vec![2, 3]).unwrap();
    let tv = t.iter().collect();
    assert_eq!(tv, vec![1.0, 2.0, 3.0, 4.0, 5.0, 6.0]);

    let t = t.transpose(&[1, 0])?;
    let tv = t.iter().collect();
    assert_eq!(tv, vec![1.0, 4.0, 2.0, 5.0, 3.0, 6.0]);

    let v: Vec<f32> = vec![1.0, 2.0, 3.0, 4.0];
    let t = CpuTensor::new(Buffer::Borrowed(&v), vec![4]).unwrap();
    let tv = t.iter().collect();
    assert_eq!(tv, vec![1.0, 2.0, 3.0, 4.0]);

    Ok(())
}

#[test]
fn test_contiguous() -> Result<(), Error> {
    let v: Vec<f32> = vec![1.0, 2.0, 3.0, 4.0, 5.0, 6.0];

    // 1, 2, 3
    // 4, 5, 6
    let t = CpuTensor::new(Buffer::Borrowed(&v), vec![2, 3]).unwrap();
    assert_eq!(t.to_string(), "[[1, 2, 3]\n,[4, 5, 6]]");

    // 1, 4,
    // 2, 5,
    // 3, 6,
    let t = t.transpose(&[1, 0])?;
    let t = t.contiguous()?;
    assert_eq!(t.ref_buf(), &[1.0, 4.0, 2.0, 5.0, 3.0, 6.0]);

    // 1, 2, 3
    // 4, 5, 6
    let t = t.transpose(&[1, 0])?;
    let t = t.contiguous()?;
    assert_eq!(t.ref_buf(), &[1.0, 2.0, 3.0, 4.0, 5.0, 6.0]);

    Ok(())
}

#[test]
fn test_ref_chunk() -> Result<(), Error> {
    let v: Vec<f32> = vec![1.0, 2.0, 3.0, 4.0, 5.0, 6.0];

    // 1, 2, 3
    // 4, 5, 6
    let mut t = CpuTensor::new(Buffer::Owned(v), vec![2, 3]).unwrap();
    assert_eq!(t.to_string(), "[[1, 2, 3]\n,[4, 5, 6]]");
    assert_eq!(t.strides(), vec![3, 1]);

    {
        let chunk = t.ref_chunk(&[1])?;
        assert_eq!(chunk, &[4.0, 5.0, 6.0]);
    }

    {
        let chunk = t.mut_chunk(&[0])?;
        assert_eq!(chunk, &[1.0, 2.0, 3.0]);
        chunk[0] = 9.0;
        assert_eq!(chunk, &[9.0, 2.0, 3.0]);
    }

    Ok(())
}
