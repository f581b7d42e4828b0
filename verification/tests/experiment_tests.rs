use pocket_huim::experiment::exactness_checker::verify_exactness;

#[test]
fn identical_files_are_exact() {
    let content = "1 2 3 #UTIL: 150\n2 4 #UTIL: 200\n";
    let result = verify_exactness(content.as_bytes(), content.as_bytes());
    assert!(result.exact);
    assert_eq!(result.false_negatives, 0);
    assert_eq!(result.false_positives, 0);
    assert_eq!(result.utility_mismatches, 0);
}

#[test]
fn detects_false_negative() {
    let ref_content = "1 2 #UTIL: 100\n3 4 #UTIL: 200\n";
    let ah_content = "1 2 #UTIL: 100\n";
    let result = verify_exactness(ref_content.as_bytes(), ah_content.as_bytes());
    assert!(!result.exact);
    assert_eq!(result.false_negatives, 1);
    assert_eq!(result.false_positives, 0);
}

#[test]
fn detects_false_positive() {
    let ref_content = "1 2 #UTIL: 100\n";
    let ah_content = "1 2 #UTIL: 100\n5 6 #UTIL: 300\n";
    let result = verify_exactness(ref_content.as_bytes(), ah_content.as_bytes());
    assert!(!result.exact);
    assert_eq!(result.false_positives, 1);
    assert_eq!(result.false_negatives, 0);
}

#[test]
fn detects_utility_mismatch() {
    let ref_content = "1 2 #UTIL: 100\n";
    let ah_content = "1 2 #UTIL: 999\n";
    let result = verify_exactness(ref_content.as_bytes(), ah_content.as_bytes());
    assert!(!result.exact);
    assert_eq!(result.utility_mismatches, 1);
}

#[test]
fn empty_both_is_exact() {
    let result = verify_exactness(b"", b"");
    assert!(result.exact);
}

#[test]
fn itemsets_compare_as_sorted_sets_and_repeats_count_once() {
    let reference = "3 1 2 #UTIL: 10\r\n\n   \n1 2 3 #UTIL: 10\n";
    let output = "1 2 3 #UTIL: 10\n";
    let r = verify_exactness(reference.as_bytes(), output.as_bytes());
    assert!(r.exact);
    let missing_util = "1 x 2\n";
    let r2 = verify_exactness(missing_util.as_bytes(), b"2 1 #UTIL: 0\n");
    assert!(r2.exact);
}
