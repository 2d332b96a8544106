use cadenza::analysis::log_bucket_ranges;

#[test]
fn no_ranges_without_buckets_or_bins() {
    assert!(log_bucket_ranges(16, 0, &Vec::new()).is_empty());
    assert!(log_bucket_ranges(0, 3, &vec![0, 0, 0]).is_empty());
}

#[test]
fn single_bin_repeats_for_every_bucket() {
    assert_eq!(log_bucket_ranges(1, 3, &vec![0, 0, 0]), vec![(0, 1), (0, 1), (0, 1)]);
}

#[test]
fn more_buckets_than_bins_take_one_bin_each() {
    assert_eq!(
        log_bucket_ranges(3, 5, &vec![0; 5]),
        vec![(0, 1), (1, 2), (2, 3), (2, 3), (2, 3)]
    );
}

#[test]
fn logarithmic_ranges_cover_all_bins() {
    // Rounded 16^(1/4), 16^(2/4), 16^(3/4), 16^(4/4).
    let ranges = log_bucket_ranges(16, 4, &vec![2, 4, 8, 16]);
    assert_eq!(ranges, vec![(0, 2), (2, 4), (4, 8), (8, 16)]);
}

#[test]
fn ends_are_pushed_past_the_previous_bucket() {
    let ranges = log_bucket_ranges(10, 3, &vec![1, 2, 10]);
    assert_eq!(ranges, vec![(0, 2), (2, 3), (3, 10)]);
}
