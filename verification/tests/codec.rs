use api::codec::{read_i16s, read_u32, read_u32s, write_i16s, write_u32s};
use api::error::AppError;

#[test]
fn u32_values_round_trip() {
    let values = [0u32, 1, 255, 256, 65_535, 0xdead_beef, u32::MAX];
    let mut out = Vec::new();
    write_u32s(&mut out, &values);
    assert_eq!(out.len(), 28);
    assert_eq!(&out[12..16], &[0, 1, 0, 0]);
    assert_eq!(&out[16..20], &[0xff, 0xff, 0, 0]);
    assert_eq!(read_u32s(&out, 0, 7).unwrap(), values.to_vec());
    assert_eq!(read_u32(&out, 20).unwrap(), 0xdead_beef);
}

#[test]
fn i16_values_round_trip() {
    let values = [0i16, -1, 1, -10_000, 10_000, i16::MIN, i16::MAX];
    let mut out = vec![7u8];
    write_i16s(&mut out, &values);
    assert_eq!(out.len(), 15);
    assert_eq!(&out[1..5], &[0, 0, 0xff, 0xff]);
    assert_eq!(read_i16s(&out, 1, 7).unwrap(), values.to_vec());
}

#[test]
fn short_input_is_truncated() {
    let truncated = AppError::Io("failed to fill whole buffer".to_string());
    assert_eq!(read_u32(&[1, 2, 3], 0).unwrap_err(), truncated);
    assert_eq!(read_u32(&[1, 2, 3, 4], 1).unwrap_err(), truncated);
    assert_eq!(read_u32s(&[0; 8], 4, 2).unwrap_err(), truncated);
    assert_eq!(read_i16s(&[0; 3], 0, 2).unwrap_err(), truncated);
    assert_eq!(read_u32s(&[0; 8], 8, 0).unwrap(), Vec::<u32>::new());
}
