use jdx::dataset::Dataset;
use jdx::error::Error;
use jdx::header::Header;
use jdx::version::Version;
use std::io::Write;

fn header_with(width: u16, height: u16, depth: u8, count: u64, labels: Vec<String>) -> Header {
    Header {
        version: Version::current(),
        image_width: width,
        image_height: height,
        bit_depth: depth,
        image_count: count,
        labels,
    }
}

fn deflate9(data: &[u8]) -> Vec<u8> {
    let mut encoder =
        flate2::write::DeflateEncoder::new(Vec::new(), flate2::Compression::new(9));
    encoder.write_all(data).unwrap();
    encoder.finish().unwrap()
}

#[test]
fn header_round_trip() {
    let h = header_with(640, 480, 24, 7, vec!["cat".to_string(), "dog".to_string()]);
    let bytes = h.write_bytes().unwrap();
    let (h2, used) = Header::read_bytes(&bytes).unwrap();
    assert_eq!(h2, h);
    assert_eq!(used, bytes.len());
}

#[test]
fn header_round_trip_empty_vocabulary() {
    let h = header_with(1, 1, 8, 0, Vec::new());
    let bytes = h.write_bytes().unwrap();
    let (h2, used) = Header::read_bytes(&bytes).unwrap();
    assert_eq!(h2, h);
    assert_eq!(used, bytes.len());
}

#[test]
fn header_round_trip_multibyte_labels() {
    let h = header_with(3, 3, 8, 2, vec!["café".to_string(), "naïve ü".to_string()]);
    let bytes = h.write_bytes().unwrap();
    let (h2, used) = Header::read_bytes(&bytes).unwrap();
    assert_eq!(h2, h);
    assert_eq!(used, bytes.len());
}

#[test]
fn header_layout_exact() {
    let h = Header {
        version: Version { build_type: 4, patch: 0, minor: 4, major: 0 },
        image_width: 2,
        image_height: 3,
        bit_depth: 8,
        image_count: 5,
        labels: vec!["A".to_string()],
    };
    let bytes = h.write_bytes().unwrap();
    let expected: Vec<u8> = vec![
        4, 0, 4, 0, // version: build stage, patch, minor, major
        2, 0, // width
        3, 0, // height
        8, // bit depth
        5, 0, 0, 0, 0, 0, 0, 0, // image count
        1, 0, // label count
        1, 0, 65, // label "A": length prefix, then UTF-8
    ];
    assert_eq!(bytes, expected);
}

#[test]
fn header_read_ignores_trailing_bytes() {
    let h = header_with(2, 2, 8, 0, vec!["x".to_string()]);
    let mut bytes = h.write_bytes().unwrap();
    let header_len = bytes.len();
    bytes.extend_from_slice(&[9, 9, 9, 9]);
    let (h2, used) = Header::read_bytes(&bytes).unwrap();
    assert_eq!(h2, h);
    assert_eq!(used, header_len);
}

#[test]
fn header_rejects_truncated() {
    let bytes: Vec<u8> = vec![1, 2, 3];
    assert!(matches!(Header::read_bytes(&bytes), Err(Error::CorruptFile(_))));
}

#[test]
fn header_rejects_truncated_label() {
    let h = header_with(2, 2, 8, 0, vec!["abc".to_string()]);
    let mut bytes = h.write_bytes().unwrap();
    bytes.pop();
    assert!(matches!(Header::read_bytes(&bytes), Err(Error::CorruptFile(_))));
}

#[test]
fn header_rejects_invalid_utf8_label() {
    let mut bytes: Vec<u8> = vec![
        0, 0, 0, 0, // version
        1, 0, // width
        1, 0, // height
        8, // bit depth
        0, 0, 0, 0, 0, 0, 0, 0, // image count
        1, 0, // label count
    ];
    bytes.extend_from_slice(&[1, 0, 0xFF]); // one label whose byte is not UTF-8
    assert!(matches!(Header::read_bytes(&bytes), Err(Error::CorruptFile(_))));
}

#[test]
fn header_write_rejects_oversized_vocabulary() {
    let labels: Vec<String> = (0..65536).map(|i: u32| i.to_string()).collect();
    let h = header_with(1, 1, 8, 0, labels);
    assert!(matches!(h.write_bytes(), Err(Error::CorruptFile(_))));
}

#[test]
fn dataset_round_trip() {
    let h = header_with(2, 2, 8, 0, vec!["cat".to_string(), "dog".to_string()]);
    let mut d = Dataset::with_header(h);
    d.push((vec![1, 2, 3, 4], 0)).unwrap();
    d.push((vec![5, 6, 7, 8], 1)).unwrap();
    let bytes = d.write_bytes().unwrap();
    let d2 = Dataset::read_bytes(&bytes).unwrap();
    assert_eq!(d2, d);
    assert_eq!(d2.header().image_count, 2);
    assert_eq!(d2.get(0).unwrap().0, vec![1, 2, 3, 4]);
    assert_eq!(d2.get(1).unwrap().1, 1);
}

#[test]
fn dataset_file_carries_uncompressed_length() {
    let h = header_with(2, 2, 8, 0, vec!["cat".to_string()]);
    let mut d = Dataset::with_header(h);
    d.push((vec![1, 2, 3, 4], 0)).unwrap();
    d.push((vec![5, 6, 7, 8], 0)).unwrap();
    let file = d.write_bytes().unwrap();
    let header_bytes = d.header().write_bytes().unwrap();
    assert_eq!(&file[..header_bytes.len()], &header_bytes[..]);
    // two records of image_size + 2 = 6 bytes each, before compression
    let mut length_field = [0u8; 8];
    length_field.copy_from_slice(&file[header_bytes.len()..header_bytes.len() + 8]);
    assert_eq!(u64::from_le_bytes(length_field), 12);
}

#[test]
fn dataset_round_trip_empty() {
    let h = header_with(4, 4, 8, 0, vec!["only".to_string()]);
    let d = Dataset::with_header(h);
    let bytes = d.write_bytes().unwrap();
    let d2 = Dataset::read_bytes(&bytes).unwrap();
    assert_eq!(d2, d);
}

#[test]
fn dataset_rejects_undivisible_body() {
    // record size is 1*1*8/8 + 2 = 3; a 4-byte body cannot be sliced
    let h = header_with(1, 1, 8, 1, vec!["a".to_string()]);
    let mut file = h.write_bytes().unwrap();
    let body: Vec<u8> = vec![1, 2, 3, 4];
    let compressed = deflate9(&body);
    file.extend_from_slice(&(body.len() as u64).to_le_bytes());
    file.extend_from_slice(&compressed);
    assert!(matches!(Dataset::read_bytes(&file), Err(Error::CorruptFile(_))));
}

#[test]
fn dataset_rejects_count_mismatch() {
    // one 3-byte record in the body, but the header declares five images
    let h = header_with(1, 1, 8, 5, vec!["a".to_string()]);
    let mut file = h.write_bytes().unwrap();
    let body: Vec<u8> = vec![7, 0, 0];
    let compressed = deflate9(&body);
    file.extend_from_slice(&(body.len() as u64).to_le_bytes());
    file.extend_from_slice(&compressed);
    assert!(matches!(Dataset::read_bytes(&file), Err(Error::CorruptFile(_))));
}

#[test]
fn dataset_rejects_label_out_of_range() {
    // the record's label value 7 does not index the one-entry vocabulary
    let h = header_with(1, 1, 8, 1, vec!["a".to_string()]);
    let mut file = h.write_bytes().unwrap();
    let body: Vec<u8> = vec![9, 7, 0];
    let compressed = deflate9(&body);
    file.extend_from_slice(&(body.len() as u64).to_le_bytes());
    file.extend_from_slice(&compressed);
    assert!(matches!(Dataset::read_bytes(&file), Err(Error::CorruptFile(_))));
}

#[test]
fn dataset_rejects_malformed_stream() {
    let h = header_with(1, 1, 8, 0, Vec::new());
    let mut file = h.write_bytes().unwrap();
    file.extend_from_slice(&0u64.to_le_bytes());
    file.extend_from_slice(&[0xFF, 0xFF, 0xFF, 0xFF]);
    assert!(matches!(Dataset::read_bytes(&file), Err(Error::CorruptFile(_))));
}

#[test]
fn dataset_rejects_missing_length_field() {
    let h = header_with(1, 1, 8, 0, Vec::new());
    let mut file = h.write_bytes().unwrap();
    file.extend_from_slice(&[0, 0]); // too short for the u64 length
    assert!(matches!(Dataset::read_bytes(&file), Err(Error::CorruptFile(_))));
}

#[test]
fn records_from_body_slices_in_order() {
    let h = header_with(1, 2, 8, 0, vec!["a".to_string()]);
    // record size 1*2*8/8 + 2 = 4
    let body: Vec<u8> = vec![10, 11, 0, 0, 20, 21, 0, 1];
    let v = Dataset::records_from_body(&body, &h).unwrap();
    assert_eq!(v.len(), 2);
    assert_eq!(v[0], (vec![10, 11], 0));
    assert_eq!(v[1], (vec![20, 21], 256));
}

#[test]
fn records_from_body_rejects_remainder() {
    let h = header_with(1, 2, 8, 0, Vec::new());
    let body: Vec<u8> = vec![1, 2, 3, 4, 5];
    assert!(matches!(
        Dataset::records_from_body(&body, &h),
        Err(Error::CorruptFile(_))
    ));
}
