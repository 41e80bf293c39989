use tree_mapper::{file_size_to_string, TreeError};

fn label(bytes: u64, places: i32) -> String {
    file_size_to_string(bytes, places).unwrap()
}

#[test]
fn test_file_size_converter() {
    for t in vec![
        (1024u64, "1kb"),
        (1024u64, "1kb"),
        (1048576u64, "1mb"),
        (1073741824u64, "1gb"),
        (1u64, "1b"),
    ] {
        let result: String = file_size_to_string(t.0, 1).unwrap();
        println!("{:#?}", result);
        assert_eq!(result, t.1);
    }
}

#[test]
fn zero_bytes_read_zero_b_at_any_precision() {
    assert_eq!(label(0, 0), "0b");
    assert_eq!(label(0, 1), "0b");
    assert_eq!(label(0, 7), "0b");
}

#[test]
fn one_kb_at_any_precision() {
    assert_eq!(label(1024, 0), "1kb");
    assert_eq!(label(1024, 1), "1kb");
    assert_eq!(label(1024, 4), "1kb");
    assert_eq!(label(1024, 40), "1kb");
}

#[test]
fn below_one_kb_stays_in_bytes() {
    assert_eq!(label(1023, 1), "1023b");
    assert_eq!(label(10, 1), "10b");
}

#[test]
fn fractions_are_rounded_and_trimmed() {
    assert_eq!(label(1536, 1), "1.5kb");
    assert_eq!(label(1536, 3), "1.5kb");
    assert_eq!(label(1100, 1), "1.1kb");
    assert_eq!(label(1100, 2), "1.07kb");
    assert_eq!(label(1100, 0), "1kb");
    assert_eq!(label(2048, 1), "2kb");
}

#[test]
fn halves_round_away_from_zero() {
    // 1152 bytes are 1.125 kb.
    assert_eq!(label(1152, 2), "1.13kb");
    // 1536 bytes are 1.5 kb.
    assert_eq!(label(1536, 0), "2kb");
}

#[test]
fn rounding_carries_into_the_integer_part() {
    // 1048575 bytes are just under 1024 kb.
    assert_eq!(label(1048575, 1), "1024kb");
    // 2047 bytes are 1.999... kb.
    assert_eq!(label(2047, 2), "2kb");
}

#[test]
fn precision_beyond_the_exact_digits() {
    assert_eq!(label(1025, 20), "1.0009765625kb");
    assert_eq!(label(1025, 10), "1.0009765625kb");
    assert_eq!(label(1025, 9), "1.000976563kb");
}

#[test]
fn larger_units() {
    assert_eq!(label(1099511627776, 1), "1tb");
    assert_eq!(label(1125899906842624, 1), "1pb");
    assert_eq!(label(1610612736, 2), "1.5gb");
}

#[test]
fn sizes_past_pb_stay_in_pb() {
    assert_eq!(label(1u64 << 60, 1), "1024pb");
    assert_eq!(label(u64::MAX, 1), "16384pb");
    assert_eq!(label(u64::MAX, 0), "16384pb");
}

#[test]
fn labels_grow_within_a_unit() {
    let sizes: Vec<u64> = vec![1024, 1100, 1152, 1536, 2047, 2048, 500000, 1048575];
    let mut last: f64 = 0.0;
    for s in sizes {
        let l = label(s, 2);
        assert!(l.ends_with("kb"));
        let value: f64 = l.trim_end_matches("kb").parse().unwrap();
        assert!(value >= last);
        last = value;
    }
}

#[test]
fn negative_precision_is_refused() {
    assert!(matches!(file_size_to_string(1024, -1), Err(TreeError::InvalidArgument)));
    assert!(matches!(file_size_to_string(0, i32::MIN), Err(TreeError::InvalidArgument)));
}
