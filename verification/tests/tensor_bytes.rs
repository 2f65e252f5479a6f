use ortex::dtype::{DType, Family};
use ortex::error::BridgeError;
use ortex::tensor::{
    from_binary, low_byte_first, native_is_little, reshape, to_binary, to_binary_in_order,
};

fn floats_2x3() -> Vec<u8> {
    let values: [f32; 6] = [1.0, 2.0, 3.0, 4.0, 5.0, 6.0];
    let mut bytes = Vec::new();
    for v in values.iter() {
        bytes.extend_from_slice(&v.to_ne_bytes());
    }
    bytes
}

#[test]
fn label_and_bits_name_each_dtype() {
    assert_eq!(DType::from_label("s", 8), Some(DType::S8));
    assert_eq!(DType::from_label("s", 64), Some(DType::S64));
    assert_eq!(DType::from_label("u", 16), Some(DType::U16));
    assert_eq!(DType::from_label("u", 32), Some(DType::U32));
    assert_eq!(DType::from_label("f", 16), Some(DType::F16));
    assert_eq!(DType::from_label("f", 32), Some(DType::F32));
    assert_eq!(DType::from_label("f", 64), Some(DType::F64));
    assert_eq!(DType::from_label("bf", 16), Some(DType::BF16));
    assert_eq!(DType::from_label("bool", 8), Some(DType::Bool));
    assert_eq!(DType::from_label("f", 8), None);
    assert_eq!(DType::from_label("bf", 32), None);
    assert_eq!(DType::from_label("c", 64), None);
    assert_eq!(DType::from_label("", 8), None);
}

#[test]
fn dtype_reports_width_family_and_label() {
    assert_eq!(DType::F32.byte_width(), 4);
    assert_eq!(DType::F32.bits(), 32);
    assert_eq!(DType::U64.byte_width(), 8);
    assert_eq!(DType::Bool.bits(), 8);
    assert_eq!(DType::S16.family(), Family::Signed);
    assert_eq!(DType::BF16.label(), "bf");
    assert_eq!(Family::from_label("u"), Some(Family::Unsigned));
    assert_eq!(Family::Float.with_bits(64), Some(DType::F64));
}

#[test]
fn round_trip_at_matching_width_for_every_dtype() {
    let all = [
        ("s", 8usize),
        ("s", 16),
        ("s", 32),
        ("s", 64),
        ("u", 8),
        ("u", 16),
        ("u", 32),
        ("u", 64),
        ("f", 16),
        ("f", 32),
        ("f", 64),
        ("bf", 16),
        ("bool", 8),
    ];
    for (label, bits) in all.iter() {
        let width = bits / 8;
        let bytes: Vec<u8> = (0..(6 * width)).map(|i| (i * 7 + 3) as u8).collect();
        let t = from_binary(bytes.clone(), vec![2, 3], label, *bits).unwrap();
        assert_eq!(t.shape(), vec![2, 3]);
        assert_eq!(t.strides(), vec![3, 1]);
        assert_eq!(to_binary(&t, *bits, usize::MAX).unwrap(), bytes);
    }
}

#[test]
fn import_rejects_unknown_dtype() {
    let r = from_binary(vec![0; 4], vec![1], "q", 32);
    assert_eq!(r.err(), Some(BridgeError::UnsupportedDType));
    let r = from_binary(vec![0; 3], vec![1], "f", 24);
    assert_eq!(r.err(), Some(BridgeError::UnsupportedDType));
}

#[test]
fn import_rejects_length_off_by_one_element() {
    let bytes = floats_2x3();
    let mut longer = bytes.clone();
    longer.extend_from_slice(&[0, 0, 0, 0]);
    let shorter: Vec<u8> = bytes[..20].to_vec();
    assert_eq!(
        from_binary(longer, vec![2, 3], "f", 32).err(),
        Some(BridgeError::SizeMismatch)
    );
    assert_eq!(
        from_binary(shorter, vec![2, 3], "f", 32).err(),
        Some(BridgeError::SizeMismatch)
    );
    assert_eq!(
        from_binary(bytes[..23].to_vec(), vec![2, 3], "f", 32).err(),
        Some(BridgeError::SizeMismatch)
    );
    assert!(from_binary(bytes, vec![2, 3], "f", 32).is_ok());
}

#[test]
fn import_rejects_shape_too_large_for_memory() {
    let r = from_binary(vec![], vec![usize::MAX, usize::MAX], "u", 8);
    assert_eq!(r.err(), Some(BridgeError::SizeMismatch));
}

#[test]
fn import_accepts_empty_and_scalar_shapes() {
    let empty = from_binary(vec![], vec![0, usize::MAX, usize::MAX], "f", 64).unwrap();
    assert_eq!(empty.strides(), vec![0, 0, 0]);
    assert_eq!(to_binary(&empty, 64, 0).unwrap(), Vec::<u8>::new());
    let scalar = from_binary(vec![9, 8], vec![], "u", 16).unwrap();
    assert_eq!(scalar.shape(), Vec::<usize>::new());
    assert_eq!(to_binary(&scalar, 16, 2).unwrap(), vec![9, 8]);
}

#[test]
fn export_over_the_limit_fails() {
    let bytes = floats_2x3();
    let t = from_binary(bytes.clone(), vec![2, 3], "f", 32).unwrap();
    assert_eq!(to_binary(&t, 32, 23).err(), Some(BridgeError::SizeLimitExceeded));
    assert_eq!(to_binary(&t, 32, 0).err(), Some(BridgeError::SizeLimitExceeded));
    assert_eq!(to_binary(&t, 32, 24).unwrap(), bytes);
}

#[test]
fn export_limit_counts_the_target_width() {
    let t = from_binary(vec![1, 2, 3], vec![3], "u", 8).unwrap();
    assert_eq!(to_binary(&t, 32, 11).err(), Some(BridgeError::SizeLimitExceeded));
    assert_eq!(to_binary(&t, 32, 12).unwrap().len(), 12);
}

#[test]
fn export_rejects_widths_outside_the_family() {
    let t = from_binary(floats_2x3(), vec![2, 3], "f", 32).unwrap();
    assert_eq!(to_binary(&t, 8, 1000).err(), Some(BridgeError::UnsupportedDType));
    assert_eq!(to_binary(&t, 8, 0).err(), Some(BridgeError::UnsupportedDType));
    let u = from_binary(vec![1, 2], vec![2], "u", 8).unwrap();
    assert_eq!(to_binary(&u, 12, 1000).err(), Some(BridgeError::UnsupportedDType));
}

#[test]
fn export_widens_signed_integers_with_their_sign() {
    let t = from_binary(vec![0xFE, 0x05, 0x80], vec![3], "s", 8).unwrap();
    assert_eq!(
        to_binary_in_order(&t, 16, 100, true).unwrap(),
        vec![0xFE, 0xFF, 0x05, 0x00, 0x80, 0xFF]
    );
    assert_eq!(
        to_binary_in_order(&t, 16, 100, false).unwrap(),
        vec![0xFF, 0xFE, 0x00, 0x05, 0xFF, 0x80]
    );
    let mut expected = Vec::new();
    for v in [-2i8, 5, -128].iter() {
        expected.extend_from_slice(&(*v as i32).to_ne_bytes());
    }
    assert_eq!(to_binary(&t, 32, 100).unwrap(), expected);
}

#[test]
fn export_widens_unsigned_integers_with_zero() {
    let t = from_binary(vec![0xFE, 0x05], vec![2], "u", 8).unwrap();
    assert_eq!(
        to_binary_in_order(&t, 32, 100, true).unwrap(),
        vec![0xFE, 0, 0, 0, 0x05, 0, 0, 0]
    );
    assert_eq!(
        to_binary_in_order(&t, 32, 100, false).unwrap(),
        vec![0, 0, 0, 0xFE, 0, 0, 0, 0x05]
    );
}

#[test]
fn export_narrows_integers_to_their_low_bytes() {
    let mut bytes = Vec::new();
    for v in [0x1234_5678u32, 0xFFFF_FF01].iter() {
        bytes.extend_from_slice(&v.to_ne_bytes());
    }
    let t = from_binary(bytes, vec![2], "u", 32).unwrap();
    let mut expected = Vec::new();
    for v in [0x5678u16, 0xFF01].iter() {
        expected.extend_from_slice(&v.to_ne_bytes());
    }
    assert_eq!(to_binary(&t, 16, 100).unwrap(), expected);
    assert_eq!(to_binary(&t, 8, 100).unwrap(), vec![0x78, 0x01]);
    let le = from_binary(vec![0x78, 0x56, 0x34, 0x12], vec![1], "s", 32).unwrap();
    assert_eq!(to_binary_in_order(&le, 16, 100, true).unwrap(), vec![0x78, 0x56]);
    assert_eq!(to_binary_in_order(&le, 16, 100, false).unwrap(), vec![0x34, 0x12]);
}

#[test]
fn low_byte_first_reads_the_bytes_of_one() {
    assert!(low_byte_first([1, 0]));
    assert!(!low_byte_first([0, 1]));
    assert_eq!(low_byte_first(1u16.to_le_bytes()), true);
    assert_eq!(low_byte_first(1u16.to_be_bytes()), false);
}

#[test]
fn native_order_agrees_with_the_machine() {
    assert_eq!(native_is_little(), 1u16.to_ne_bytes()[0] == 1);
}

#[test]
fn reshape_to_own_shape_is_identity() {
    let bytes = floats_2x3();
    let t = from_binary(bytes.clone(), vec![2, 3], "f", 32).unwrap();
    let r = reshape(&t, vec![2, 3]).unwrap();
    assert_eq!(r.shape(), t.shape());
    assert_eq!(r.dtype(), t.dtype());
    assert_eq!(to_binary(&r, 32, 1000).unwrap(), bytes);
}

#[test]
fn reshape_keeps_row_major_order() {
    let bytes = floats_2x3();
    let t = from_binary(bytes.clone(), vec![2, 3], "f", 32).unwrap();
    let r = reshape(&t, vec![3, 2]).unwrap();
    assert_eq!(r.shape(), vec![3, 2]);
    assert_eq!(r.strides(), vec![2, 1]);
    assert_eq!(to_binary(&r, 32, 1000).unwrap(), bytes);
    let flat = reshape(&r, vec![6]).unwrap();
    assert_eq!(flat.strides(), vec![1]);
    assert_eq!(to_binary(&flat, 32, 1000).unwrap(), bytes);
}

#[test]
fn reshape_rejects_another_element_count() {
    let t = from_binary(floats_2x3(), vec![2, 3], "f", 32).unwrap();
    assert_eq!(reshape(&t, vec![4, 2]).err(), Some(BridgeError::ShapeMismatch));
    assert_eq!(reshape(&t, vec![5]).err(), Some(BridgeError::ShapeMismatch));
    assert_eq!(reshape(&t, vec![]).err(), Some(BridgeError::ShapeMismatch));
    assert_eq!(
        reshape(&t, vec![usize::MAX, 3]).err(),
        Some(BridgeError::ShapeMismatch)
    );
}

#[test]
fn error_messages_are_descriptive() {
    assert_eq!(BridgeError::UnsupportedDType.message(), "unsupported dtype");
    assert_eq!(BridgeError::SizeLimitExceeded.message(), "size limit exceeded");
    assert_eq!(BridgeError::ShapeMismatch.message(), "shapes do not match");
    assert_eq!(BridgeError::IndexOutOfRange.message(), "index out of range");
    assert_eq!(
        BridgeError::SizeMismatch.message(),
        "buffer length does not match shape and dtype"
    );
    assert_eq!(
        BridgeError::RunFailure(String::from("invalid input shape")).message(),
        "invalid input shape"
    );
    assert_eq!(
        BridgeError::LoadFailure(String::from("no such file")).message(),
        "no such file"
    );
}

#[test]
fn export_leaves_float_width_changes_to_the_caller() {
    let t = from_binary(floats_2x3(), vec![2, 3], "f", 32).unwrap();
    assert_eq!(to_binary(&t, 64, 1000).err(), Some(BridgeError::UnsupportedDType));
    assert_eq!(to_binary(&t, 64, 48).err(), Some(BridgeError::UnsupportedDType));
    assert_eq!(to_binary(&t, 16, 12).err(), Some(BridgeError::UnsupportedDType));
}

#[test]
fn export_tests_the_limit_before_casts() {
    let t = from_binary(floats_2x3(), vec![2, 3], "f", 32).unwrap();
    assert_eq!(to_binary(&t, 64, 47).err(), Some(BridgeError::SizeLimitExceeded));
    assert_eq!(to_binary(&t, 64, 0).err(), Some(BridgeError::SizeLimitExceeded));
    assert_eq!(to_binary(&t, 16, 11).err(), Some(BridgeError::SizeLimitExceeded));
}
