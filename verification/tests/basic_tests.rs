use jdx::dataset::Dataset;
use jdx::error::Error;
use jdx::header::Header;
use jdx::version::{Version, BUILD_RELEASE};

fn header_with(width: u16, height: u16, depth: u8, labels: Vec<String>) -> Header {
    Header {
        version: Version::current(),
        image_width: width,
        image_height: height,
        bit_depth: depth,
        image_count: 0,
        labels,
    }
}

#[test]
fn version_current_is_a_release() {
    let v = Version::current();
    assert_eq!(v.build_type, BUILD_RELEASE);
    assert_eq!(v.major, 0);
    assert_eq!(v.minor, 4);
    assert_eq!(v.patch, 0);
}

#[test]
fn image_size_formula() {
    assert_eq!(header_with(2, 2, 8, Vec::new()).image_size(), 4);
    assert_eq!(header_with(28, 28, 8, Vec::new()).image_size(), 784);
    assert_eq!(header_with(10, 10, 24, Vec::new()).image_size(), 300);
    assert_eq!(header_with(0, 100, 8, Vec::new()).image_size(), 0);
    assert_eq!(
        header_with(65535, 65535, 255, Vec::new()).image_size(),
        65535u64 * 65535 * 255 / 8
    );
}

#[test]
fn image_size_is_deterministic() {
    let h = header_with(640, 480, 24, Vec::new());
    assert_eq!(h.image_size(), h.image_size());
}

#[test]
fn compatibility_ignores_version_and_vocabulary() {
    let mut a = header_with(2, 2, 8, vec!["x".to_string()]);
    let b = header_with(2, 2, 8, vec!["y".to_string(), "z".to_string()]);
    a.version = Version { build_type: 0, patch: 9, minor: 9, major: 9 };
    a.image_count = 77;
    assert!(a.is_compatible_with(&b));
    assert!(b.is_compatible_with(&a));
}

#[test]
fn compatibility_checks_each_dimension() {
    let base = header_with(2, 2, 8, Vec::new());
    assert!(!header_with(3, 2, 8, Vec::new()).is_compatible_with(&base));
    assert!(!header_with(2, 3, 8, Vec::new()).is_compatible_with(&base));
    assert!(!header_with(2, 2, 16, Vec::new()).is_compatible_with(&base));
}

#[test]
fn push_rejects_mismatched_lengths() {
    let mut d = Dataset::with_header(header_with(2, 2, 8, vec!["a".to_string()]));
    for len in 0..9 {
        if len == 4 {
            continue;
        }
        let buf: Vec<u8> = vec![0; len];
        assert_eq!(d.push((buf, 0)), Err(Error::IncompatibleDimensions));
        assert_eq!(d.header().image_count, 0);
    }
    assert_eq!(d.push((vec![0, 0, 0, 0], 0)), Ok(()));
    assert_eq!(d.header().image_count, 1);
}

#[test]
fn push_does_not_validate_labels() {
    // the documented gap: the label value is the caller's responsibility
    let mut d = Dataset::with_header(header_with(1, 1, 8, Vec::new()));
    assert_eq!(d.push((vec![3], 99)), Ok(()));
    assert_eq!(d.get(0).unwrap().1, 99);
}

#[test]
fn with_header_starts_empty() {
    let d = Dataset::with_header(header_with(5, 5, 8, vec!["a".to_string()]));
    assert_eq!(d.header().image_count, 0);
    assert!(d.get(0).is_none());
    assert_eq!(d.iter().len(), 0);
}

#[test]
fn get_and_get_mut_index_entries() {
    let mut d = Dataset::with_header(header_with(1, 1, 8, vec!["a".to_string()]));
    d.push((vec![1], 0)).unwrap();
    d.push((vec![2], 0)).unwrap();
    assert_eq!(d.get(1).unwrap().0, vec![2]);
    assert!(d.get(2).is_none());
    if let Some(entry) = d.get_mut(0) {
        entry.1 = 0;
        entry.0[0] = 9;
    }
    assert_eq!(d.get(0).unwrap().0, vec![9]);
    assert!(d.get_mut(5).is_none());
}

#[test]
fn iter_and_iter_mut_walk_in_order() {
    let mut d = Dataset::with_header(header_with(1, 1, 8, vec!["a".to_string()]));
    d.push((vec![1], 0)).unwrap();
    d.push((vec![2], 0)).unwrap();
    let firsts: Vec<u8> = d.iter().iter().map(|im| im.0[0]).collect();
    assert_eq!(firsts, vec![1, 2]);
    for entry in d.iter_mut().iter_mut() {
        entry.0[0] += 10;
    }
    let firsts: Vec<u8> = d.iter().iter().map(|im| im.0[0]).collect();
    assert_eq!(firsts, vec![11, 12]);
}

#[test]
fn error_values_compare() {
    assert_eq!(Error::PastLabelLimit, Error::PastLabelLimit);
    assert_ne!(Error::PastLabelLimit, Error::IncompatibleDimensions);
    assert!(matches!(
        Error::CorruptFile("p".to_string()),
        Error::CorruptFile(_)
    ));
}
