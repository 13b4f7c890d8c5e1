use voxcircuit::importer::base::{
    read_string, read_u16, read_u32, read_u64, read_vec3i_from_u16s, read_vec3i_from_u32s,
    read_vec3i_from_u64s, read_vec3i_from_u8s,
};
use voxcircuit::math::Vec3i;

#[test]
fn read_u16_is_little_endian() {
    assert_eq!(read_u16(&[0x34, 0x12], 0), 0x1234);
    assert_eq!(read_u16(&[0xff, 0x01, 0x80, 0xaa], 2), 0xaa80);
    assert_eq!(read_u16(&[0xff, 0xff], 0), u16::MAX);
}

#[test]
fn read_u32_is_little_endian() {
    assert_eq!(read_u32(&[9, 1, 2, 3, 4], 1), 0x0403_0201);
    assert_eq!(read_u32(&[0, 0, 0, 0x80], 0), 0x8000_0000);
    assert_eq!(read_u32(&[0xff; 4], 0), u32::MAX);
}

#[test]
fn read_u64_is_little_endian() {
    let bytes = [0x08, 0x07, 0x06, 0x05, 0x04, 0x03, 0x02, 0x01];
    assert_eq!(read_u64(&bytes, 0), 0x0102_0304_0506_0708);
    assert_eq!(read_u64(&[0xff; 9], 1), u64::MAX);
    assert_eq!(read_u64(&[0; 8], 0), 0);
}

#[test]
fn read_string_decodes_utf8() {
    let bytes = b"..XRAW..";
    assert_eq!(read_string(bytes, 2, 4), "XRAW".to_string());
    assert_eq!(read_string(bytes, 0, 0), String::new());
    let accented = "é!".as_bytes();
    assert_eq!(read_string(accented, 0, 3), "é!".to_string());
}

#[test]
fn read_vec3i_from_each_width() {
    let bytes: Vec<u8> = (1u8..=24).collect();
    assert_eq!(read_vec3i_from_u8s(&bytes, 0), Vec3i::new(1, 2, 3));
    assert_eq!(read_vec3i_from_u8s(&bytes, 21), Vec3i::new(22, 23, 24));
    assert_eq!(read_vec3i_from_u16s(&bytes, 0), Vec3i::new(0x0201, 0x0403, 0x0605));
    assert_eq!(
        read_vec3i_from_u32s(&bytes, 0),
        Vec3i::new(0x0403_0201, 0x0807_0605, 0x0c0b_0a09)
    );
    let v = read_vec3i_from_u64s(&bytes, 0);
    assert_eq!(v.x as u64, 0x0807_0605_0403_0201);
    assert_eq!(v.y as u64, 0x100f_0e0d_0c0b_0a09);
    assert_eq!(v.z as u64, 0x1817_1615_1413_1211);
}
