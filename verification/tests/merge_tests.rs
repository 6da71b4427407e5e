use jdx::dataset::Dataset;
use jdx::error::Error;
use jdx::header::Header;
use jdx::version::Version;

fn header_with(width: u16, height: u16, depth: u8, labels: Vec<String>) -> Header {
    Header {
        version: Version::current(),
        image_width: width,
        image_height: height,
        bit_depth: depth,
        image_count: 0,
        labels,
    }
}

fn two_image_dataset(labels: Vec<String>) -> Dataset {
    let mut d = Dataset::with_header(header_with(2, 2, 8, labels));
    d.push((vec![1, 2, 3, 4], 0)).unwrap();
    d.push((vec![5, 6, 7, 8], 1)).unwrap();
    d
}

#[test]
fn append_rejects_unequal_widths() {
    let mut a = Dataset::with_header(header_with(2, 2, 8, vec!["x".to_string()]));
    let b = Dataset::with_header(header_with(3, 2, 8, vec!["x".to_string()]));
    assert_eq!(a.append(b), Err(Error::IncompatibleDimensions));
    assert_eq!(a.header().image_count, 0);
}

#[test]
fn append_rejects_unequal_heights() {
    let mut a = Dataset::with_header(header_with(2, 2, 8, vec!["x".to_string()]));
    let b = Dataset::with_header(header_with(2, 3, 8, vec!["x".to_string()]));
    assert_eq!(a.append(b), Err(Error::IncompatibleDimensions));
}

#[test]
fn append_rejects_unequal_bit_depths() {
    let mut a = Dataset::with_header(header_with(2, 2, 8, vec!["x".to_string()]));
    let b = Dataset::with_header(header_with(2, 2, 16, vec!["x".to_string()]));
    assert_eq!(a.append(b), Err(Error::IncompatibleDimensions));
}

#[test]
fn append_accepts_different_vocabularies() {
    let mut a = two_image_dataset(vec!["cat".to_string(), "dog".to_string()]);
    let b = two_image_dataset(vec!["fish".to_string(), "bird".to_string()]);
    assert_eq!(a.append(b), Ok(()));
    assert_eq!(a.header().image_count, 4);
}

#[test]
fn merge_reconciles_overlapping_vocabularies() {
    let mut a = two_image_dataset(vec!["cat".to_string(), "dog".to_string()]);
    let b = two_image_dataset(vec!["dog".to_string(), "bird".to_string()]);
    assert_eq!(a.append(b), Ok(()));
    assert_eq!(
        a.header().labels,
        vec!["cat".to_string(), "dog".to_string(), "bird".to_string()]
    );
    let labels: Vec<u16> = a.iter().iter().map(|im| im.1).collect();
    assert_eq!(labels, vec![0, 1, 1, 2]);
    assert_eq!(a.header().image_count, 4);
    // image bytes arrive unchanged, in order
    assert_eq!(a.get(2).unwrap().0, vec![1, 2, 3, 4]);
    assert_eq!(a.get(3).unwrap().0, vec![5, 6, 7, 8]);
}

#[test]
fn merge_with_same_vocabulary_adds_no_labels() {
    let mut a = two_image_dataset(vec!["cat".to_string(), "dog".to_string()]);
    let b = two_image_dataset(vec!["cat".to_string(), "dog".to_string()]);
    assert_eq!(a.extend(&b), Ok(()));
    assert_eq!(a.header().labels, vec!["cat".to_string(), "dog".to_string()]);
    assert_eq!(a.header().image_count, 4);
    let labels: Vec<u16> = a.iter().iter().map(|im| im.1).collect();
    assert_eq!(labels, vec![0, 1, 0, 1]);
    // extend leaves its argument untouched
    assert_eq!(b.header().image_count, 2);
    assert_eq!(b.header().labels.len(), 2);
}

#[test]
fn merge_memoises_repeated_labels() {
    let mut a = two_image_dataset(vec!["cat".to_string(), "dog".to_string()]);
    let mut b = Dataset::with_header(header_with(
        2,
        2,
        8,
        vec!["bird".to_string(), "dog".to_string()],
    ));
    b.push((vec![9, 9, 9, 9], 0)).unwrap();
    b.push((vec![8, 8, 8, 8], 0)).unwrap();
    b.push((vec![7, 7, 7, 7], 1)).unwrap();
    assert_eq!(a.append(b), Ok(()));
    assert_eq!(
        a.header().labels,
        vec!["cat".to_string(), "dog".to_string(), "bird".to_string()]
    );
    let labels: Vec<u16> = a.iter().iter().map(|im| im.1).collect();
    assert_eq!(labels, vec![0, 1, 2, 2, 1]);
}

#[test]
fn merge_first_match_wins_on_duplicate_vocabulary() {
    // the destination vocabulary holds "dog" twice; the lowest index wins
    let mut a = Dataset::with_header(header_with(
        2,
        2,
        8,
        vec!["dog".to_string(), "dog".to_string()],
    ));
    let mut b = Dataset::with_header(header_with(2, 2, 8, vec!["dog".to_string()]));
    b.push((vec![1, 1, 1, 1], 0)).unwrap();
    assert_eq!(a.append(b), Ok(()));
    assert_eq!(a.header().labels.len(), 2);
    assert_eq!(a.get(0).unwrap().1, 0);
}

#[test]
fn merge_past_label_limit_fails_without_effect() {
    let labels: Vec<String> = (0..65535).map(|i: u32| i.to_string()).collect();
    let mut a = Dataset::with_header(header_with(1, 1, 8, labels));
    let mut b = Dataset::with_header(header_with(1, 1, 8, vec!["unseen".to_string()]));
    b.push((vec![5], 0)).unwrap();
    assert_eq!(a.append(b), Err(Error::PastLabelLimit));
    // the failed merge commits nothing
    assert_eq!(a.header().labels.len(), 65535);
    assert_eq!(a.header().image_count, 0);
    assert_eq!(a.iter().len(), 0);
}

#[test]
fn merge_at_limit_succeeds_when_labels_match() {
    let labels: Vec<String> = (0..65535).map(|i: u32| i.to_string()).collect();
    let mut a = Dataset::with_header(header_with(1, 1, 8, labels));
    let mut b = Dataset::with_header(header_with(1, 1, 8, vec!["42".to_string()]));
    b.push((vec![5], 0)).unwrap();
    assert_eq!(a.append(b), Ok(()));
    assert_eq!(a.header().labels.len(), 65535);
    assert_eq!(a.get(0).unwrap().1, 42);
}
