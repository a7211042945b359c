use mnist::idx::{
    check_image_header, check_label_header, encode_images, encode_labels, parse_images,
    parse_labels, read_image_header, read_label_header, HeaderField, IdxError, IdxHeader,
    IMAGE_MAGIC, LABEL_MAGIC,
};

fn image_file(magic: u32, count: u32, rows: u32, cols: u32, payload: &[u8]) -> Vec<u8> {
    let mut bytes = Vec::new();
    bytes.extend_from_slice(&magic.to_be_bytes());
    bytes.extend_from_slice(&count.to_be_bytes());
    bytes.extend_from_slice(&rows.to_be_bytes());
    bytes.extend_from_slice(&cols.to_be_bytes());
    bytes.extend_from_slice(payload);
    bytes
}

fn label_file(magic: u32, count: u32, payload: &[u8]) -> Vec<u8> {
    let mut bytes = Vec::new();
    bytes.extend_from_slice(&magic.to_be_bytes());
    bytes.extend_from_slice(&count.to_be_bytes());
    bytes.extend_from_slice(payload);
    bytes
}

fn pattern(len: usize) -> Vec<u8> {
    (0..len).map(|i| ((i * 7 + i / 251) % 256) as u8).collect()
}

#[test]
fn magic_numbers_are_the_idx_constants() {
    assert_eq!(IMAGE_MAGIC, 2051);
    assert_eq!(LABEL_MAGIC, 2049);
    assert_eq!(IMAGE_MAGIC, 0x0000_0803);
    assert_eq!(LABEL_MAGIC, 0x0000_0801);
}

#[test]
fn two_images_of_two_by_two_pixels() {
    let bytes = image_file(2051, 2, 2, 2, &[1, 0, 0, 0, 0, 0, 0, 2]);
    let images = parse_images(&bytes, 2, 2, 2).unwrap();
    assert_eq!(images, vec![vec![1u8, 0, 0, 0], vec![0u8, 0, 0, 2]]);
}

#[test]
fn two_labels() {
    let bytes = label_file(2049, 2, &[7, 3]);
    assert_eq!(parse_labels(&bytes, 2), Ok(vec![7u8, 3]));
}

#[test]
fn two_labels_from_literal_bytes() {
    let bytes = [0u8, 0, 8, 1, 0, 0, 0, 2, 7, 3];
    assert_eq!(parse_labels(&bytes, 2), Ok(vec![7u8, 3]));
}

#[test]
fn two_images_from_literal_bytes() {
    let bytes = [0u8, 0, 8, 3, 0, 0, 0, 2, 0, 0, 0, 2, 0, 0, 0, 2, 1, 0, 0, 0, 0, 0, 0, 2];
    let images = parse_images(&bytes, 2, 2, 2).unwrap();
    assert_eq!(images, vec![vec![1u8, 0, 0, 0], vec![0u8, 0, 0, 2]]);
}

#[test]
fn images_come_back_byte_for_byte() {
    let count = 5usize;
    let payload = pattern(count * 784);
    let bytes = image_file(2051, count as u32, 28, 28, &payload);
    let images = parse_images(&bytes, count as u32, 28, 28).unwrap();
    assert_eq!(images.len(), count);
    for (i, image) in images.iter().enumerate() {
        assert_eq!(image.len(), 784);
        assert_eq!(&image[..], &payload[i * 784..(i + 1) * 784]);
    }
    let flat: Vec<u8> = images.concat();
    assert_eq!(flat, payload);
}

#[test]
fn labels_come_back_in_order() {
    let payload = pattern(300);
    let bytes = label_file(2049, 300, &payload);
    assert_eq!(parse_labels(&bytes, 300), Ok(payload));
}

#[test]
fn label_values_are_not_judged() {
    let bytes = label_file(2049, 3, &[0, 9, 255]);
    assert_eq!(parse_labels(&bytes, 3), Ok(vec![0u8, 9, 255]));
}

#[test]
fn header_fields_are_big_endian() {
    let bytes = [1u8, 2, 3, 4, 0, 0, 0, 0];
    assert_eq!(
        parse_labels(&bytes, 0),
        Err(IdxError::Format {
            field: HeaderField::MagicNumber,
            expected: 2049,
            actual: 16_909_060,
        })
    );
    let bytes = [0u8, 0, 8, 1, 0xff, 0xfe, 0xfd, 0xfc];
    assert_eq!(
        parse_labels(&bytes, 1),
        Err(IdxError::Format {
            field: HeaderField::ItemCount,
            expected: 1,
            actual: 4_294_901_244,
        })
    );
}

#[test]
fn wrong_image_magic_is_reported() {
    let bytes = image_file(9999, 2, 2, 2, &[1, 0, 0, 0, 0, 0, 0, 2]);
    assert_eq!(
        parse_images(&bytes, 2, 2, 2),
        Err(IdxError::Format { field: HeaderField::MagicNumber, expected: 2051, actual: 9999 })
    );
}

#[test]
fn label_magic_on_an_image_file_is_reported() {
    let bytes = image_file(2049, 2, 2, 2, &[1, 0, 0, 0, 0, 0, 0, 2]);
    assert_eq!(
        parse_images(&bytes, 2, 2, 2),
        Err(IdxError::Format { field: HeaderField::MagicNumber, expected: 2051, actual: 2049 })
    );
}

#[test]
fn wrong_image_count_is_reported() {
    let payload = pattern(2 * 784);
    let bytes = image_file(2051, 3, 28, 28, &payload);
    assert_eq!(
        parse_images(&bytes, 2, 28, 28),
        Err(IdxError::Format { field: HeaderField::ItemCount, expected: 2, actual: 3 })
    );
}

#[test]
fn wrong_row_count_is_reported() {
    let bytes = image_file(2051, 1, 27, 28, &pattern(784));
    assert_eq!(
        parse_images(&bytes, 1, 28, 28),
        Err(IdxError::Format { field: HeaderField::RowCount, expected: 28, actual: 27 })
    );
}

#[test]
fn wrong_column_count_is_reported() {
    let bytes = image_file(2051, 1, 28, 29, &pattern(812));
    assert_eq!(
        parse_images(&bytes, 1, 28, 28),
        Err(IdxError::Format { field: HeaderField::ColumnCount, expected: 28, actual: 29 })
    );
}

#[test]
fn first_wrong_field_wins() {
    let bytes = image_file(9999, 7, 1, 1, &[]);
    assert_eq!(
        parse_images(&bytes, 2, 28, 28),
        Err(IdxError::Format { field: HeaderField::MagicNumber, expected: 2051, actual: 9999 })
    );
    let bytes = image_file(2051, 7, 1, 1, &[]);
    assert_eq!(
        parse_images(&bytes, 2, 28, 28),
        Err(IdxError::Format { field: HeaderField::ItemCount, expected: 2, actual: 7 })
    );
    let bytes = image_file(2051, 2, 1, 1, &[]);
    assert_eq!(
        parse_images(&bytes, 2, 28, 28),
        Err(IdxError::Format { field: HeaderField::RowCount, expected: 28, actual: 1 })
    );
    let bytes = image_file(2051, 2, 28, 1, &[]);
    assert_eq!(
        parse_images(&bytes, 2, 28, 28),
        Err(IdxError::Format { field: HeaderField::ColumnCount, expected: 28, actual: 1 })
    );
    let bytes = label_file(2051, 7, &[]);
    assert_eq!(
        parse_labels(&bytes, 2),
        Err(IdxError::Format { field: HeaderField::MagicNumber, expected: 2049, actual: 2051 })
    );
}

#[test]
fn a_wrong_field_is_reported_before_a_short_payload() {
    let bytes = image_file(2051, 3, 28, 28, &pattern(10));
    assert_eq!(
        parse_images(&bytes, 2, 28, 28),
        Err(IdxError::Format { field: HeaderField::ItemCount, expected: 2, actual: 3 })
    );
    let bytes = label_file(2049, 9, &[1, 2]);
    assert_eq!(
        parse_labels(&bytes, 4),
        Err(IdxError::Format { field: HeaderField::ItemCount, expected: 4, actual: 9 })
    );
}

#[test]
fn one_image_more_than_the_payload_holds() {
    let payload = pattern(2 * 784);
    let bytes = image_file(2051, 3, 28, 28, &payload);
    assert_eq!(parse_images(&bytes, 3, 28, 28), Err(IdxError::Truncated));
}

#[test]
fn payload_one_byte_short() {
    let payload = pattern(2 * 784 - 1);
    let bytes = image_file(2051, 2, 28, 28, &payload);
    assert_eq!(parse_images(&bytes, 2, 28, 28), Err(IdxError::Truncated));
    let bytes = label_file(2049, 5, &[1, 2, 3, 4]);
    assert_eq!(parse_labels(&bytes, 5), Err(IdxError::Truncated));
}

#[test]
fn incomplete_header_is_truncated() {
    let full = image_file(2051, 0, 28, 28, &[]);
    for len in 0..16 {
        assert_eq!(parse_images(&full[..len], 0, 28, 28), Err(IdxError::Truncated));
    }
    assert_eq!(parse_images(&full, 0, 28, 28), Ok(vec![]));
    let full = label_file(2049, 0, &[]);
    for len in 0..8 {
        assert_eq!(parse_labels(&full[..len], 0), Err(IdxError::Truncated));
    }
    assert_eq!(parse_labels(&full, 0), Ok(vec![]));
}

#[test]
fn incomplete_header_hides_a_wrong_magic() {
    let bytes = [0x27u8, 0x0f, 0, 0, 0, 0];
    assert_eq!(parse_labels(&bytes, 0), Err(IdxError::Truncated));
    assert_eq!(parse_images(&bytes, 0, 28, 28), Err(IdxError::Truncated));
}

#[test]
fn trailing_bytes_are_ignored() {
    let mut payload = pattern(2 * 4);
    let expected = vec![payload[0..4].to_vec(), payload[4..8].to_vec()];
    payload.extend_from_slice(&[9, 9, 9]);
    let bytes = image_file(2051, 2, 2, 2, &payload);
    assert_eq!(parse_images(&bytes, 2, 2, 2), Ok(expected));
    let bytes = label_file(2049, 2, &[4, 5, 6, 7]);
    assert_eq!(parse_labels(&bytes, 2), Ok(vec![4u8, 5]));
}

#[test]
fn images_without_pixels() {
    let bytes = image_file(2051, 3, 0, 28, &[1, 2, 3]);
    assert_eq!(parse_images(&bytes, 3, 0, 28), Ok(vec![vec![], vec![], vec![]]));
}

#[test]
fn huge_declared_size_is_truncated() {
    let bytes = image_file(2051, u32::MAX, u32::MAX, u32::MAX, &[1, 2, 3]);
    assert_eq!(
        parse_images(&bytes, u32::MAX, u32::MAX, u32::MAX),
        Err(IdxError::Truncated)
    );
    let bytes = label_file(2049, u32::MAX, &[1, 2, 3]);
    assert_eq!(parse_labels(&bytes, u32::MAX), Err(IdxError::Truncated));
}

#[test]
fn rectangular_images() {
    let payload = pattern(2 * 3 * 5);
    let bytes = image_file(2051, 2, 3, 5, &payload);
    let images = parse_images(&bytes, 2, 3, 5).unwrap();
    assert_eq!(images, vec![payload[..15].to_vec(), payload[15..].to_vec()]);
    assert_eq!(
        parse_images(&bytes, 2, 5, 3),
        Err(IdxError::Format { field: HeaderField::RowCount, expected: 5, actual: 3 })
    );
}

#[test]
fn encoded_labels_are_header_then_payload() {
    assert_eq!(encode_labels(&[7, 3]), vec![0u8, 0, 8, 1, 0, 0, 0, 2, 7, 3]);
    assert_eq!(encode_labels(&[]), vec![0u8, 0, 8, 1, 0, 0, 0, 0]);
}

#[test]
fn encoded_images_are_header_then_pixels() {
    let images = vec![vec![1u8, 0, 0, 0], vec![0u8, 0, 0, 2]];
    assert_eq!(
        encode_images(&images, 2, 2),
        vec![0u8, 0, 8, 3, 0, 0, 0, 2, 0, 0, 0, 2, 0, 0, 0, 2, 1, 0, 0, 0, 0, 0, 0, 2]
    );
    assert_eq!(
        encode_images(&vec![], 28, 28),
        vec![0u8, 0, 8, 3, 0, 0, 0, 0, 0, 0, 0, 28, 0, 0, 0, 28]
    );
}

#[test]
fn encoded_count_uses_all_four_bytes() {
    let labels = vec![5u8; 0x0001_0203];
    let bytes = encode_labels(&labels);
    assert_eq!(&bytes[..8], &[0u8, 0, 8, 1, 0, 1, 2, 3]);
    assert_eq!(bytes.len(), 8 + 0x0001_0203);
    assert_eq!(parse_labels(&bytes, 0x0001_0203), Ok(labels));
}

#[test]
fn images_survive_encoding_and_decoding() {
    let images: Vec<Vec<u8>> = (0..7usize)
        .map(|i| (0..784usize).map(|j| ((i * 31 + j * 3) % 256) as u8).collect())
        .collect();
    let bytes = encode_images(&images, 28, 28);
    assert_eq!(bytes.len(), 16 + 7 * 784);
    assert_eq!(parse_images(&bytes, 7, 28, 28), Ok(images));
}

#[test]
fn labels_survive_encoding_and_decoding() {
    let labels: Vec<u8> = (0..1000usize).map(|i| (i % 10) as u8).collect();
    let bytes = encode_labels(&labels);
    assert_eq!(parse_labels(&bytes, 1000), Ok(labels));
}

#[test]
fn decoding_leaves_the_input_alone() {
    let bytes = label_file(2049, 2, &[7, 3]);
    let copy = bytes.clone();
    let _ = parse_labels(&bytes, 2);
    let _ = parse_images(&bytes, 2, 28, 28);
    assert_eq!(bytes, copy);
}

#[test]
fn image_header_comes_back_as_it_stands() {
    let bytes = image_file(0x0102_0304, 0x0a0b_0c0d, 5, 6, &[1, 2, 3]);
    let (header, payload) = read_image_header(&bytes).unwrap();
    assert_eq!(
        header,
        IdxHeader { magic_number: 0x0102_0304, item_count: 0x0a0b_0c0d, extra_dims: vec![5, 6] }
    );
    assert_eq!(payload, &[1u8, 2, 3]);
}

#[test]
fn label_header_comes_back_as_it_stands() {
    let bytes = label_file(2049, 60000, &[5, 0, 4, 1]);
    let (header, payload) = read_label_header(&bytes).unwrap();
    assert_eq!(header, IdxHeader { magic_number: 2049, item_count: 60000, extra_dims: vec![] });
    assert_eq!(payload, &[5u8, 0, 4, 1]);
    let bytes = [0u8, 0, 8, 1, 0, 0, 0xea, 0x60];
    let (header, payload) = read_label_header(&bytes).unwrap();
    assert_eq!(header.item_count, 60000);
    assert!(payload.is_empty());
}

#[test]
fn short_headers_are_truncated() {
    let bytes = image_file(2051, 1, 28, 28, &[]);
    assert_eq!(read_image_header(&bytes[..15]), Err(IdxError::Truncated));
    assert_eq!(read_image_header(&bytes[..8]), Err(IdxError::Truncated));
    assert_eq!(read_image_header(&[]), Err(IdxError::Truncated));
    assert_eq!(read_label_header(&bytes[..7]), Err(IdxError::Truncated));
    assert_eq!(read_label_header(&[]), Err(IdxError::Truncated));
    assert!(read_label_header(&bytes[..8]).is_ok());
}

#[test]
fn header_checks_name_the_first_wrong_field() {
    let header = IdxHeader { magic_number: 2051, item_count: 10000, extra_dims: vec![28, 28] };
    assert_eq!(check_image_header(&header, 10000, 28, 28), Ok(()));
    assert_eq!(
        check_image_header(&header, 60000, 28, 28),
        Err(IdxError::Format { field: HeaderField::ItemCount, expected: 60000, actual: 10000 })
    );
    assert_eq!(
        check_image_header(&header, 60000, 1, 2),
        Err(IdxError::Format { field: HeaderField::ItemCount, expected: 60000, actual: 10000 })
    );
    assert_eq!(
        check_image_header(&header, 10000, 1, 2),
        Err(IdxError::Format { field: HeaderField::RowCount, expected: 1, actual: 28 })
    );
    assert_eq!(
        check_image_header(&header, 10000, 28, 2),
        Err(IdxError::Format { field: HeaderField::ColumnCount, expected: 2, actual: 28 })
    );
    assert_eq!(
        check_label_header(&header, 10000),
        Err(IdxError::Format { field: HeaderField::MagicNumber, expected: 2049, actual: 2051 })
    );
    let header = IdxHeader { magic_number: 2049, item_count: 3, extra_dims: vec![] };
    assert_eq!(check_label_header(&header, 3), Ok(()));
    assert_eq!(
        check_label_header(&header, 4),
        Err(IdxError::Format { field: HeaderField::ItemCount, expected: 4, actual: 3 })
    );
}
