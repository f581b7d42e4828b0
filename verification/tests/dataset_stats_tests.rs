use pocket_huim::mining::dataset_stats::{dataset_counts, DatasetCounts};

#[test]
fn counts_transactions_items_and_utilities() {
    let data = b"1 2 3:6:1 2 3\n# comment\n@attribute\n\n2 4:5:2 3\n";
    let c = dataset_counts(data).unwrap();
    assert_eq!(
        c,
        DatasetCounts {
            num_transactions: 2,
            total_items: 5,
            max_transaction_length: 3,
            total_utility: 11,
            num_unique_items: 4,
        }
    );
    assert_eq!(c.estimated_db_ram_bytes(), 100);
}

#[test]
fn lines_without_two_colons_and_bad_words_are_passed_over() {
    let data = b"1 x 3:abc:1 1 1\nno colons here\n5:7\n";
    let c = dataset_counts(data).unwrap();
    assert_eq!(c.num_transactions, 1);
    assert_eq!(c.total_items, 2);
    assert_eq!(c.max_transaction_length, 2);
    assert_eq!(c.total_utility, 0);
    assert_eq!(c.num_unique_items, 2);
}

#[test]
fn carriage_returns_are_trimmed() {
    let c = dataset_counts(b"1 2:3:1 2\r\n  7 :4: 4 \r\n").unwrap();
    assert_eq!(c.num_transactions, 2);
    assert_eq!(c.total_items, 3);
    assert_eq!(c.total_utility, 7);
}

#[test]
fn invalid_utf8_gives_nothing() {
    let data = vec![b'1', b':', b'2', b':', b'2', b'\n', 0xff, b'\n'];
    assert_eq!(dataset_counts(&data), None);
}

#[test]
fn utility_sum_wraps_around() {
    let text = format!("1:{}:1\n2:1:1\n", i64::MAX);
    let c = dataset_counts(text.as_bytes()).unwrap();
    assert_eq!(c.total_utility, i64::MIN);
}

#[test]
fn empty_text_counts_nothing() {
    let c = dataset_counts(b"").unwrap();
    assert_eq!(c.num_transactions, 0);
    assert_eq!(c.num_unique_items, 0);
    assert_eq!(c.estimated_db_ram_bytes(), 0);
}
