use ortex::dtype::{castable, DType};
use ortex::error::BridgeError;
use ortex::joining::{concatenate, concatenate_in_order};
use ortex::slicing::{axis_fits, slice};
use ortex::tensor::{from_binary, reshape, to_binary, Tensor};

fn f32_bytes(values: &[f32]) -> Vec<u8> {
    let mut bytes = Vec::new();
    for v in values.iter() {
        bytes.extend_from_slice(&v.to_ne_bytes());
    }
    bytes
}

fn matrix_2x3() -> Tensor {
    from_binary(f32_bytes(&[1.0, 2.0, 3.0, 4.0, 5.0, 6.0]), vec![2, 3], "f", 32).unwrap()
}

fn bytes_tensor(bytes: Vec<u8>, shape: Vec<usize>) -> Tensor {
    from_binary(bytes, shape, "u", 8).unwrap()
}

#[test]
fn slice_columns_then_export() {
    let t = matrix_2x3();
    let s = slice(&t, vec![0, 1], vec![2, 2], vec![1, 1]).unwrap();
    assert_eq!(s.shape(), vec![2, 2]);
    assert_eq!(s.dtype(), DType::F32);
    let out = to_binary(&s, 32, 16).unwrap();
    assert_eq!(out.len(), 16);
    assert_eq!(out, f32_bytes(&[2.0, 3.0, 5.0, 6.0]));
    assert_eq!(to_binary(&s, 32, 15).err(), Some(BridgeError::SizeLimitExceeded));
}

#[test]
fn slice_of_everything_equals_the_source() {
    let t = matrix_2x3();
    let s = slice(&t, vec![0, 0], vec![2, 3], vec![1, 1]).unwrap();
    assert_eq!(s.shape(), t.shape());
    assert_eq!(s.strides(), t.strides());
    assert_eq!(s.dtype(), t.dtype());
    assert_eq!(
        to_binary(&s, 32, 1000).unwrap(),
        to_binary(&t, 32, 1000).unwrap()
    );
}

#[test]
fn slice_steps_over_positions() {
    let t = bytes_tensor((0u8..12).collect(), vec![3, 4]);
    let s = slice(&t, vec![0, 1], vec![2, 2], vec![2, 2]).unwrap();
    assert_eq!(s.shape(), vec![2, 2]);
    assert_eq!(s.strides(), vec![8, 2]);
    assert_eq!(to_binary(&s, 8, 100).unwrap(), vec![1, 3, 9, 11]);
    assert!(!s.is_contiguous());
}

#[test]
fn slice_of_a_slice_composes() {
    let t = bytes_tensor((0u8..24).collect(), vec![4, 6]);
    let a = slice(&t, vec![1, 1], vec![3, 3], vec![1, 2]).unwrap();
    assert_eq!(to_binary(&a, 8, 100).unwrap(), vec![7, 9, 11, 13, 15, 17, 19, 21, 23]);
    let b = slice(&a, vec![0, 1], vec![2, 2], vec![2, 1]).unwrap();
    assert_eq!(b.shape(), vec![2, 2]);
    assert_eq!(to_binary(&b, 8, 100).unwrap(), vec![9, 11, 21, 23]);
}

#[test]
fn slice_with_single_sample_ignores_a_large_step() {
    let t = bytes_tensor((0u8..6).collect(), vec![2, 3]);
    let s = slice(&t, vec![1, 2], vec![1, 1], vec![isize::MAX, isize::MAX]).unwrap();
    assert_eq!(s.shape(), vec![1, 1]);
    assert_eq!(to_binary(&s, 8, 100).unwrap(), vec![5]);
}

#[test]
fn slice_without_elements_is_empty() {
    let t = bytes_tensor((0u8..6).collect(), vec![2, 3]);
    let s = slice(&t, vec![2, 0], vec![0, 3], vec![1, 1]).unwrap();
    assert_eq!(s.shape(), vec![0, 3]);
    assert_eq!(s.strides(), vec![0, 0]);
    assert_eq!(to_binary(&s, 8, 0).unwrap(), Vec::<u8>::new());
}

#[test]
fn slice_rejects_what_leaves_the_tensor() {
    let t = matrix_2x3();
    let out = Some(BridgeError::IndexOutOfRange);
    assert_eq!(slice(&t, vec![0, 2], vec![2, 2], vec![1, 1]).err(), out);
    assert_eq!(slice(&t, vec![-1, 0], vec![1, 1], vec![1, 1]).err(), out);
    assert_eq!(slice(&t, vec![0, 0], vec![2, 3], vec![1, 0]).err(), out);
    assert_eq!(slice(&t, vec![0, 0], vec![2, 3], vec![-1, 1]).err(), out);
    assert_eq!(slice(&t, vec![0, 0], vec![2, -3], vec![1, 1]).err(), out);
    assert_eq!(slice(&t, vec![0, 0], vec![2, 2], vec![1, 3]).err(), out);
    assert_eq!(slice(&t, vec![0, 0], vec![3, 3], vec![1, 1]).err(), out);
    assert_eq!(slice(&t, vec![0, 4], vec![2, 0], vec![1, 1]).err(), out);
    assert_eq!(slice(&t, vec![0], vec![2], vec![1]).err(), out);
    assert_eq!(slice(&t, vec![0, 0, 0], vec![2, 3, 1], vec![1, 1, 1]).err(), out);
    assert_eq!(
        slice(&t, vec![0, 1], vec![2, isize::MAX], vec![1, isize::MAX]).err(),
        out
    );
    assert!(slice(&t, vec![0, 1], vec![2, 2], vec![1, 2]).is_err());
    assert!(slice(&t, vec![0, 0], vec![2, 2], vec![1, 2]).is_ok());
}

#[test]
fn axis_fits_at_the_edges() {
    assert!(axis_fits(3, 0, 3, 1));
    assert!(axis_fits(3, 3, 0, 1));
    assert!(axis_fits(5, 0, 3, 2));
    assert!(!axis_fits(5, 1, 3, 2));
    assert!(!axis_fits(3, 4, 0, 1));
    assert!(!axis_fits(3, 3, 1, 1));
    assert!(!axis_fits(3, 0, 4, 1));
}

#[test]
fn reshape_of_a_strided_view_copies_in_row_major_order() {
    let t = bytes_tensor((0u8..12).collect(), vec![3, 4]);
    let s = slice(&t, vec![0, 1], vec![3, 2], vec![1, 2]).unwrap();
    let r = reshape(&s, vec![2, 3]).unwrap();
    assert_eq!(r.shape(), vec![2, 3]);
    assert_eq!(r.strides(), vec![3, 1]);
    assert!(r.is_contiguous());
    assert_eq!(to_binary(&r, 8, 100).unwrap(), vec![1, 3, 5, 7, 9, 11]);
    assert_eq!(reshape(&s, vec![5]).err(), Some(BridgeError::ShapeMismatch));
}

#[test]
fn duplicate_shows_the_same_tensor() {
    let t = matrix_2x3();
    let d = t.duplicate();
    assert_eq!(d.shape(), t.shape());
    assert_eq!(d.strides(), t.strides());
    assert_eq!(to_binary(&d, 32, 100).unwrap(), to_binary(&t, 32, 100).unwrap());
}

#[test]
fn concatenate_with_itself_doubles_the_first_axis() {
    let t = matrix_2x3();
    let both = vec![t.duplicate(), t.duplicate()];
    let c = concatenate(&both, "f", 32, 0).unwrap();
    assert_eq!(c.shape(), vec![4, 3]);
    assert_eq!(c.dtype(), DType::F32);
    assert!(c.is_contiguous());
    let once = to_binary(&t, 32, 100).unwrap();
    let mut twice = once.clone();
    twice.extend_from_slice(&once);
    assert_eq!(to_binary(&c, 32, 100).unwrap(), twice);
}

#[test]
fn concatenate_along_an_inner_axis_interleaves_rows() {
    let a = bytes_tensor(vec![1, 2, 3, 4], vec![2, 2]);
    let b = bytes_tensor(vec![5, 6, 7, 8, 9, 10], vec![2, 3]);
    let c = concatenate(&vec![a, b], "u", 8, 1).unwrap();
    assert_eq!(c.shape(), vec![2, 5]);
    assert_eq!(c.strides(), vec![5, 1]);
    assert_eq!(
        to_binary(&c, 8, 100).unwrap(),
        vec![1, 2, 5, 6, 7, 3, 4, 8, 9, 10]
    );
}

#[test]
fn concatenate_reads_views_through_their_strides() {
    let t = bytes_tensor((0u8..12).collect(), vec![3, 4]);
    let s = slice(&t, vec![0, 0], vec![3, 2], vec![1, 3]).unwrap();
    let c = concatenate(&vec![s, t.duplicate()], "u", 8, 1).unwrap();
    assert_eq!(c.shape(), vec![3, 6]);
    assert_eq!(
        to_binary(&c, 8, 100).unwrap(),
        vec![0, 3, 0, 1, 2, 3, 4, 7, 4, 5, 6, 7, 8, 11, 8, 9, 10, 11]
    );
}

#[test]
fn concatenate_casts_integers_to_the_target() {
    let a = from_binary(vec![0xFF, 0x01], vec![2], "s", 8).unwrap();
    let b = from_binary(vec![0xFF, 0x02], vec![2], "u", 8).unwrap();
    let parts = vec![a, b];
    let c = concatenate_in_order(&parts, "s", 16, 0, true).unwrap();
    assert_eq!(c.dtype(), DType::S16);
    assert_eq!(c.shape(), vec![4]);
    assert_eq!(
        to_binary(&c, 16, 100).unwrap(),
        vec![0xFF, 0xFF, 0x01, 0x00, 0xFF, 0x00, 0x02, 0x00]
    );
    let n = concatenate(&parts, "s", 16, 0).unwrap();
    let mut expected = Vec::new();
    for v in [-1i16, 1, 255, 2].iter() {
        expected.extend_from_slice(&v.to_ne_bytes());
    }
    assert_eq!(to_binary(&n, 16, 100).unwrap(), expected);
}

#[test]
fn concatenate_rejects_mismatched_shapes() {
    let a = bytes_tensor(vec![0; 6], vec![2, 3]);
    let b = bytes_tensor(vec![0; 8], vec![2, 4]);
    let c = bytes_tensor(vec![0; 6], vec![6]);
    assert_eq!(
        concatenate(&vec![a.duplicate(), b.duplicate()], "u", 8, 0).err(),
        Some(BridgeError::ShapeMismatch)
    );
    assert!(concatenate(&vec![a.duplicate(), b], "u", 8, 1).is_ok());
    assert_eq!(
        concatenate(&vec![a, c], "u", 8, 0).err(),
        Some(BridgeError::ShapeMismatch)
    );
    assert_eq!(
        concatenate(&Vec::<Tensor>::new(), "u", 8, 0).err(),
        Some(BridgeError::ShapeMismatch)
    );
}

#[test]
fn concatenate_rejects_an_axis_outside_the_rank() {
    let a = bytes_tensor(vec![0; 6], vec![2, 3]);
    let parts = vec![a.duplicate(), a];
    assert_eq!(
        concatenate(&parts, "u", 8, 2).err(),
        Some(BridgeError::IndexOutOfRange)
    );
    assert_eq!(
        concatenate(&parts, "u", 8, -1).err(),
        Some(BridgeError::IndexOutOfRange)
    );
    assert!(concatenate(&parts, "u", 8, 1).is_ok());
}

#[test]
fn concatenate_rejects_unknown_or_uncastable_dtypes() {
    let a = bytes_tensor(vec![0; 4], vec![4]);
    let f = from_binary(vec![0; 4], vec![1], "f", 32).unwrap();
    assert_eq!(
        concatenate(&vec![a.duplicate()], "x", 8, 0).err(),
        Some(BridgeError::UnsupportedDType)
    );
    assert_eq!(
        concatenate(&vec![a.duplicate()], "f", 32, 0).err(),
        Some(BridgeError::UnsupportedDType)
    );
    assert_eq!(
        concatenate(&vec![f.duplicate()], "f", 64, 0).err(),
        Some(BridgeError::UnsupportedDType)
    );
    assert!(concatenate(&vec![f], "f", 32, 0).is_ok());
    assert!(castable(DType::U8, DType::S64));
    assert!(castable(DType::Bool, DType::Bool));
    assert!(castable(DType::Bool, DType::U8));
    assert!(castable(DType::Bool, DType::S32));
    assert!(!castable(DType::U8, DType::Bool));
    assert!(!castable(DType::F32, DType::F64));
    assert!(!castable(DType::S32, DType::F32));
    assert!(castable(DType::F16, DType::F16));
}

#[test]
fn concatenate_of_empty_tensors_is_empty() {
    let a = bytes_tensor(vec![], vec![0, 3]);
    let c = concatenate(&vec![a.duplicate(), a], "u", 8, 0).unwrap();
    assert_eq!(c.shape(), vec![0, 3]);
    assert_eq!(to_binary(&c, 8, 0).unwrap(), Vec::<u8>::new());
}

#[test]
fn concatenate_along_the_first_axis_appends_in_order() {
    let a = bytes_tensor(vec![1, 2], vec![1, 2]);
    let b = bytes_tensor(vec![3, 4, 5, 6], vec![2, 2]);
    let c = bytes_tensor(vec![], vec![0, 2]);
    let d = bytes_tensor(vec![7, 8], vec![1, 2]);
    let joined = concatenate(&vec![a, b, c, d], "u", 8, 0).unwrap();
    assert_eq!(joined.shape(), vec![4, 2]);
    assert_eq!(to_binary(&joined, 8, 8).unwrap(), vec![1, 2, 3, 4, 5, 6, 7, 8]);
}

#[test]
fn concatenate_of_scalars_has_no_axis() {
    let a = bytes_tensor(vec![1], vec![]);
    assert_eq!(
        concatenate(&vec![a.duplicate(), a], "u", 8, 0).err(),
        Some(BridgeError::IndexOutOfRange)
    );
}

#[test]
fn concatenate_tests_shapes_before_casts() {
    let a = from_binary(vec![0; 24], vec![2, 3], "f", 32).unwrap();
    let b = from_binary(vec![0; 32], vec![2, 4], "f", 32).unwrap();
    assert_eq!(
        concatenate(&vec![a.duplicate(), b], "f", 64, 0).err(),
        Some(BridgeError::ShapeMismatch)
    );
    assert_eq!(
        concatenate(&vec![a.duplicate(), a.duplicate()], "f", 64, 0).err(),
        Some(BridgeError::UnsupportedDType)
    );
    let c = from_binary(vec![0; 32], vec![2, 4], "f", 32).unwrap();
    assert_eq!(
        concatenate(&vec![a, c], "q", 64, 0).err(),
        Some(BridgeError::ShapeMismatch)
    );
}

#[test]
fn concatenate_tests_the_axis_before_casts() {
    let a = from_binary(vec![0; 24], vec![2, 3], "f", 32).unwrap();
    let parts = vec![a.duplicate(), a];
    assert_eq!(
        concatenate(&parts, "f", 64, 2).err(),
        Some(BridgeError::IndexOutOfRange)
    );
    assert_eq!(
        concatenate(&parts, "f", 64, -1).err(),
        Some(BridgeError::IndexOutOfRange)
    );
    assert_eq!(
        concatenate(&parts, "q", 64, 2).err(),
        Some(BridgeError::IndexOutOfRange)
    );
    assert_eq!(
        concatenate(&parts, "q", 64, 1).err(),
        Some(BridgeError::UnsupportedDType)
    );
}

#[test]
fn concatenate_casts_booleans_to_integers() {
    let flags = from_binary(vec![1, 0, 1], vec![3], "bool", 8).unwrap();
    let numbers = from_binary(vec![0xFF, 0x02], vec![2], "s", 8).unwrap();
    let joined = concatenate_in_order(&vec![flags, numbers], "s", 16, 0, true).unwrap();
    assert_eq!(joined.dtype(), DType::S16);
    assert_eq!(joined.shape(), vec![5]);
    assert_eq!(
        to_binary(&joined, 16, 100).unwrap(),
        vec![1, 0, 0, 0, 1, 0, 0xFF, 0xFF, 2, 0]
    );
    let back = from_binary(vec![1], vec![1], "u", 8).unwrap();
    assert_eq!(
        concatenate(&vec![back], "bool", 8, 0).err(),
        Some(BridgeError::UnsupportedDType)
    );
}
