use voxcircuit::importer::base::ImportError;
use voxcircuit::importer::xraw::{
    load_matrix_u16, load_matrix_u8, load_matrix_voxel, Channel, Voxel, XRawHeader, HEADER_SIZE,
};
use voxcircuit::math::Vec3i;

fn header_bytes() -> Vec<u8> {
    let mut b = b"XRAW".to_vec();
    b.extend_from_slice(&[0, 4, 8, 8]);
    b.extend_from_slice(&2u32.to_le_bytes());
    b.extend_from_slice(&3u32.to_le_bytes());
    b.extend_from_slice(&0x0102_0304u32.to_le_bytes());
    b.extend_from_slice(&256u32.to_le_bytes());
    b
}

#[test]
fn header_is_24_bytes() {
    assert_eq!(HEADER_SIZE, 24);
    assert_eq!(header_bytes().len(), HEADER_SIZE);
}

#[test]
fn header_decodes_its_fields() {
    let bytes = header_bytes();
    let header = match XRawHeader::load(&bytes, Ok(HEADER_SIZE)) {
        Ok(h) => h,
        Err(_) => panic!("a full header is accepted"),
    };
    assert_eq!(header.magic_number, "XRAW");
    assert_eq!(header.color_channel_data_type, 0);
    assert_eq!(header.color_channels_amount, 4);
    assert_eq!(header.bits_per_channel, 8);
    assert_eq!(header.bits_per_index, 8);
    assert_eq!(header.dimensions, Vec3i::new(2, 3, 0x0102_0304));
    assert_eq!(header.palette_colors_amount, 256);
}

#[test]
fn short_header_is_refused() {
    let bytes = header_bytes();
    match XRawHeader::load(&bytes, Ok(10)) {
        Err(ImportError::Header(expected, got)) => {
            assert_eq!(expected, 24);
            assert_eq!(got, 10);
        }
        _ => panic!("a short read is an error"),
    }
    assert!(matches!(XRawHeader::load(&bytes, Ok(0)), Err(ImportError::Header(24, 0))));
}

#[test]
fn failed_read_is_a_file_error() {
    let bytes = vec![0u8; 24];
    let err = std::io::Error::new(std::io::ErrorKind::UnexpectedEof, "end");
    match XRawHeader::load(&bytes, Err(err)) {
        Err(ImportError::File(e)) => assert_eq!(e.kind(), std::io::ErrorKind::UnexpectedEof),
        _ => panic!("the read error is passed on"),
    }
}

#[test]
fn voxel_constructors_and_equality() {
    let v = Voxel::new(1u8, 2, 3, 4);
    assert_eq!(v.0, [1, 2, 3, 4]);
    assert_eq!(Voxel::void(7u16).0, [7, 7, 7, 7]);
    assert!(v == Voxel::new(1, 2, 3, 4));
    assert!(v != Voxel::new(1, 2, 3, 5));
    assert!(v != Voxel::new(0, 2, 3, 4));
    assert!(Voxel::void(0i32) == Voxel::new(0, 0, 0, 0));
}

#[test]
fn channel_conversion_keeps_values_that_fit() {
    assert_eq!(<u8 as Channel>::from_u32(200), Some(200u8));
    assert_eq!(<u8 as Channel>::from_u32(256), None);
    assert_eq!(<u16 as Channel>::from_u32(0xffff), Some(0xffffu16));
    assert_eq!(<u16 as Channel>::from_u32(0x1_0000), None);
    assert_eq!(<u32 as Channel>::from_u32(u32::MAX), Some(u32::MAX));
    assert_eq!(<i8 as Channel>::from_u32(127), Some(127i8));
    assert_eq!(<i8 as Channel>::from_u32(200), None);
    assert_eq!(<i16 as Channel>::from_u32(0x7fff), Some(0x7fffi16));
    assert_eq!(<i16 as Channel>::from_u32(0x8000), None);
    assert_eq!(<i32 as Channel>::from_u32(5), Some(5i32));
    assert_eq!(<i32 as Channel>::from_u32(0x8000_0000), None);
}

#[test]
fn matrix_u8_copies_the_indexes() {
    let buffer: Vec<u8> = vec![9, 8, 7, 6, 5, 4, 100];
    let m = load_matrix_u8(&buffer, Vec3i::new(3, 2, 1));
    assert_eq!(m.size, Vec3i::new(3, 2, 1));
    assert_eq!(m.data, vec![9, 8, 7, 6, 5, 4]);
    let empty = load_matrix_u8(&Vec::new(), Vec3i::new(4, 0, 2));
    assert_eq!(empty.data, Vec::<u8>::new());
}

#[test]
fn matrix_u16_reads_little_endian_indexes() {
    let buffer: Vec<u8> = vec![1, 0, 0, 1, 0xff, 0xff, 0x34, 0x12];
    let m = load_matrix_u16(&buffer, Vec3i::new(2, 2, 1));
    assert_eq!(m.data, vec![1, 256, 0xffff, 0x1234]);
    assert_eq!(m.size, Vec3i::new(2, 2, 1));
}

#[test]
fn matrix_of_byte_voxels() {
    let buffer: Vec<u8> = vec![1, 2, 3, 4, 5, 6];
    let m = load_matrix_voxel::<u8>(&buffer, Vec3i::new(2, 1, 1), 0, 3);
    assert_eq!(m.data.len(), 2);
    assert_eq!(m.data[0].0, [1, 2, 3, 0]);
    assert_eq!(m.data[1].0, [4, 5, 6, 0]);
}

#[test]
fn matrix_of_wide_voxels() {
    let buffer: Vec<u8> = vec![0x01, 0x02, 0x03, 0x04, 0xff, 0x7f, 0x00, 0x80];
    let m16 = load_matrix_voxel::<u16>(&buffer, Vec3i::new(1, 1, 2), 9, 2);
    assert_eq!(m16.data[0].0, [0x0201, 0x0403, 9, 9]);
    assert_eq!(m16.data[1].0, [0x7fff, 0x8000, 9, 9]);
    let m32 = load_matrix_voxel::<u32>(&buffer, Vec3i::new(1, 1, 1), 0, 2);
    assert_eq!(m32.data[0].0, [0x0403_0201, 0x8000_7fff, 0, 0]);
    let mi16 = load_matrix_voxel::<i16>(&buffer[..6].to_vec(), Vec3i::new(1, 1, 1), -1, 3);
    assert_eq!(mi16.data[0].0, [0x0201, 0x0403, 0x7fff, -1]);
}

#[test]
fn matrix_of_four_channel_voxels_and_empty_grid() {
    let buffer: Vec<u8> = (0u8..8).collect();
    let m = load_matrix_voxel::<u8>(&buffer, Vec3i::new(2, 1, 1), 0, 4);
    assert_eq!(m.data[1].0, [4, 5, 6, 7]);
    let none = load_matrix_voxel::<u8>(&Vec::new(), Vec3i::new(0, 5, 5), 3, 9);
    assert!(none.data.is_empty());
    let zero_channels = load_matrix_voxel::<u8>(&Vec::new(), Vec3i::new(1, 1, 1), 3, 0);
    assert_eq!(zero_channels.data[0].0, [3, 3, 3, 3]);
}

#[test]
fn wide_channel_types_convert_every_u32() {
    assert_eq!(<u64 as Channel>::from_u32(u32::MAX), Some(u32::MAX as u64));
    assert_eq!(<u128 as Channel>::from_u32(7), Some(7u128));
    assert_eq!(<usize as Channel>::from_u32(u32::MAX), Some(u32::MAX as usize));
    assert_eq!(<i64 as Channel>::from_u32(u32::MAX), Some(u32::MAX as i64));
    assert_eq!(<i128 as Channel>::from_u32(3), Some(3i128));
    assert_eq!(<isize as Channel>::from_u32(0x7fff_ffff), Some(0x7fff_ffffisize));
}

#[test]
fn eight_byte_channels_leave_voxels_empty() {
    let buffer: Vec<u8> = vec![1, 2, 3, 4, 5, 6, 7, 8];
    let m = load_matrix_voxel::<u64>(&buffer, Vec3i::new(2, 1, 1), 9, 2);
    assert_eq!(m.data.len(), 2);
    assert_eq!(m.data[0].0, [9, 9, 9, 9]);
    assert_eq!(m.data[1].0, [9, 9, 9, 9]);
    let m = load_matrix_voxel::<i128>(&Vec::new(), Vec3i::new(1, 1, 1), -1, 4);
    assert_eq!(m.data[0].0, [-1, -1, -1, -1]);
}

#[test]
fn bytes_past_the_grid_are_ignored() {
    let buffer: Vec<u8> = vec![1, 0, 2, 0, 3, 0, 4, 0];
    let mut longer = buffer.clone();
    longer.extend_from_slice(&[0xff, 0xee, 0xdd]);
    let size = Vec3i::new(2, 1, 1);
    let a = load_matrix_voxel::<u16>(&buffer, size, 0, 2);
    let b = load_matrix_voxel::<u16>(&longer, size, 0, 2);
    assert_eq!(a.data.len(), b.data.len());
    for k in 0..a.data.len() {
        assert_eq!(a.data[k].0, b.data[k].0);
    }
    assert_eq!(load_matrix_u8(&buffer, size).data, load_matrix_u8(&longer, size).data);
    assert_eq!(load_matrix_u16(&buffer, size).data, load_matrix_u16(&longer, size).data);
}
