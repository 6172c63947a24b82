use super_metroid::compression::decompress;
use super_metroid::SmError;

#[test]
fn test_copy_op() {
    assert_eq!(
        decompress(&[0x2, 0x1, 0x2, 0x3, 0xff]).unwrap(),
        vec![0x1, 0x2, 0x3]
    );
}

#[test]
fn test_byte_fill_op() {
    assert_eq!(decompress(&[0x22, 0x1, 0xff]).unwrap(), vec![0x1, 0x1, 0x1]);
}

#[test]
fn test_word_fill_op() {
    // Aligned
    assert_eq!(
        decompress(&[0x43, 0x55, 0xaa, 0xff]).unwrap(),
        vec![0x55, 0xaa, 0x55, 0xaa]
    );
    // Unaligned
    assert_eq!(
        decompress(&[0x44, 0x55, 0xaa, 0xff]).unwrap(),
        vec![0x55, 0xaa, 0x55, 0xaa, 0x55]
    );
}

#[test]
fn test_sigma_fill_op() {
    assert_eq!(
        decompress(&[0x64, 0x1, 0xff]).unwrap(),
        vec![0x1, 0x2, 0x3, 0x4, 0x5]
    );

    // Test overflow
    assert_eq!(
        decompress(&[0x64, 0xfe, 0xff]).unwrap(),
        vec![0xfe, 0xff, 0x00, 0x01, 0x02]
    );
}

#[test]
fn test_library_copy_op() {
    assert_eq!(
        decompress(&[0x64, 0x1, 0x82, 0x01, 0x00, 0xff]).unwrap(),
        vec![0x1, 0x2, 0x3, 0x4, 0x5, 0x2, 0x3, 0x4]
    );
}

#[test]
fn test_xor_copy_op() {
    assert_eq!(
        decompress(&[0x64, 0x1, 0xa2, 0x01, 0x00, 0xff]).unwrap(),
        vec![0x1, 0x2, 0x3, 0x4, 0x5, 0x2 ^ 0xff, 0x3 ^ 0xff, 0x4 ^ 0xff]
    );
}

#[test]
fn test_subtract_copy_op() {
    assert_eq!(
        decompress(&[0x64, 0x1, 0xc2, 0x03, 0xff]).unwrap(),
        vec![0x1, 0x2, 0x3, 0x4, 0x5, 0x3, 0x4, 0x5]
    );
}

#[test]
fn test_extended_and_subtract_xor_copy_ops() {
    assert_eq!(
        decompress(&[0x64, 0x1, 0xfc, 0x02, 0x03, 0xff]).unwrap(),
        vec![0x1, 0x2, 0x3, 0x4, 0x5, 0x3 ^ 0xff, 0x4 ^ 0xff, 0x5 ^ 0xff]
    );
}

#[test]
fn test_extended_byte_fill() {
    // Extended control: op 1 with a 10-bit length of 256.
    let out = decompress(&[0xe4, 0xff, 0x7c, 0xff]).unwrap();
    assert_eq!(out.len(), 256);
    assert!(out.iter().all(|&b| b == 0x7c));
}

#[test]
fn test_truncated_stream_is_error() {
    // No terminator at all.
    assert!(decompress(&[]).is_err());
    // Direct copy promising more bytes than the stream holds.
    assert!(decompress(&[0x04, 0x01]).is_err());
}

#[test]
fn test_bad_back_reference_is_error() {
    // Library copy from beyond the output written so far.
    let r = decompress(&[0x82, 0x10, 0x00, 0xff]);
    assert!(matches!(r, Err(SmError::MalformedCompression { .. })));
    // Subtract copy reaching back past the start of the output.
    let r = decompress(&[0x22, 0x01, 0xc2, 0x09, 0xff]);
    assert!(matches!(r, Err(SmError::MalformedCompression { .. })));
}

#[test]
fn test_empty_output() {
    assert_eq!(decompress(&[0xff]).unwrap(), Vec::<u8>::new());
}
