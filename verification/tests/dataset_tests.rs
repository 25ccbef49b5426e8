use rusty_neural_net::dataset::{filter_binary_classes, is_allowed, Dataset};

#[test]
fn dataset_needs_a_full_row_for_each_label() {
    assert!(Dataset::new(vec![1u8, 2, 3, 4], 2, vec![0, 1]).is_some());
    assert!(Dataset::new(vec![1u8, 2, 3], 2, vec![0, 1]).is_none());
    assert!(Dataset::new(vec![1u8, 2, 3, 4, 5], 2, vec![0, 1]).is_none());
    assert!(Dataset::<u8>::new(vec![], 0, vec![0, 1]).is_some());
    assert!(Dataset::<u8>::new(vec![], 3, vec![]).is_some());
    assert!(Dataset::new(vec![1u8], usize::MAX, vec![0, 1]).is_none());
}

#[test]
fn dataset_hands_back_what_it_was_given() {
    let data = Dataset::new(vec![0.5f64, 0.25, 1.0, 0.75], 2, vec![7, 9]).unwrap();
    assert_eq!(data.nsamples(), 2);
    assert_eq!(data.nfeatures(), 2);
    assert_eq!(data.records(), &vec![0.5, 0.25, 1.0, 0.75]);
    assert_eq!(data.targets(), &vec![7, 9]);
}

#[test]
fn label_is_allowed_when_listed() {
    assert!(is_allowed(&[0, 1], 0));
    assert!(is_allowed(&[0, 1], 1));
    assert!(!is_allowed(&[0, 1], 2));
    assert!(!is_allowed(&[], 0));
}

#[test]
fn filter_keeps_rows_of_allowed_classes_in_order() {
    let records = vec![
        0.10f64, 0.11, 0.12, //
        0.20, 0.21, 0.22, //
        0.30, 0.31, 0.32, //
        0.40, 0.41, 0.42, //
        0.50, 0.51, 0.52,
    ];
    let data = Dataset::new(records, 3, vec![1, 5, 0, 2, 1]).unwrap();
    let kept = filter_binary_classes(&data, &[0, 1]);
    assert_eq!(kept.nsamples(), 3);
    assert_eq!(kept.nfeatures(), 3);
    assert_eq!(kept.targets(), &vec![1, 0, 1]);
    assert_eq!(kept.records(), &vec![0.10, 0.11, 0.12, 0.30, 0.31, 0.32, 0.50, 0.51, 0.52]);
}

#[test]
fn filter_with_no_allowed_class_keeps_nothing() {
    let data = Dataset::new(vec![1u8, 2, 3, 4], 2, vec![0, 1]).unwrap();
    let kept = filter_binary_classes(&data, &[]);
    assert_eq!(kept.nsamples(), 0);
    assert_eq!(kept.nfeatures(), 2);
    assert!(kept.records().is_empty());
    assert!(kept.targets().is_empty());
}

#[test]
fn filter_with_every_class_allowed_keeps_everything() {
    let data = Dataset::new(vec![1u8, 2, 3, 4, 5, 6], 2, vec![0, 1, 0]).unwrap();
    let kept = filter_binary_classes(&data, &[1, 0]);
    assert_eq!(kept.records(), data.records());
    assert_eq!(kept.targets(), data.targets());
}

#[test]
fn filter_is_not_misled_by_a_class_listed_twice() {
    let data = Dataset::new(vec![1u8, 2, 3], 1, vec![4, 5, 4]).unwrap();
    let kept = filter_binary_classes(&data, &[4, 4]);
    assert_eq!(kept.records(), &vec![1, 3]);
    assert_eq!(kept.targets(), &vec![4, 4]);
}

#[test]
fn filter_of_rows_without_features_keeps_the_labels() {
    let data = Dataset::<u8>::new(vec![], 0, vec![0, 3, 1]).unwrap();
    let kept = filter_binary_classes(&data, &[0, 1]);
    assert_eq!(kept.nsamples(), 2);
    assert_eq!(kept.targets(), &vec![0, 1]);
    assert!(kept.records().is_empty());
}

#[test]
fn filter_twice_changes_nothing_more() {
    let data = Dataset::new(vec![1u8, 2, 3, 4, 5, 6], 2, vec![0, 2, 1]).unwrap();
    let once = filter_binary_classes(&data, &[0, 1]);
    let twice = filter_binary_classes(&once, &[0, 1]);
    assert_eq!(once.records(), twice.records());
    assert_eq!(once.targets(), twice.targets());
}
