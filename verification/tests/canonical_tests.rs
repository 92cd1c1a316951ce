use prefix_code::canonical::{assign_codes, first_codes, histogram, max_length};
use prefix_code::fixed::FIXED_CODE_LENGTHS;

#[test]
fn max_length_of_lengths() {
    assert_eq!(max_length(&[]), 0);
    assert_eq!(max_length(&[3, 3, 3, 3, 3, 2, 4, 4]), 4);
    assert_eq!(max_length(&[0, 0]), 0);
    assert_eq!(max_length(&[255, 1]), 255);
}

#[test]
fn histogram_counts_each_length() {
    let counts = histogram(&[3, 3, 3, 3, 3, 2, 4, 4, 0]);
    assert_eq!(counts.len(), 256);
    assert_eq!(counts[0], 1);
    assert_eq!(counts[1], 0);
    assert_eq!(counts[2], 1);
    assert_eq!(counts[3], 5);
    assert_eq!(counts[4], 2);
    assert_eq!(counts[5], 0);
}

#[test]
fn first_codes_follow_the_histogram() {
    let lengths = [3u8, 3, 3, 3, 3, 2, 4, 4];
    let counts = histogram(&lengths);
    let first = first_codes(&lengths, &counts, 4);
    assert_eq!(first, vec![0, 0, 0, 2, 14]);
}

#[test]
fn first_codes_ignore_unused_symbols() {
    let lengths = [0u8, 0, 0, 1, 1];
    let counts = histogram(&lengths);
    assert_eq!(counts[0], 3);
    let first = first_codes(&lengths, &counts, 1);
    assert_eq!(first, vec![0, 0]);
}

#[test]
fn canonical_codes_of_small_table() {
    let codes = assign_codes(&[3, 3, 3, 3, 3, 2, 4, 4]);
    assert_eq!(
        codes,
        vec![
            Some(0b010),
            Some(0b011),
            Some(0b100),
            Some(0b101),
            Some(0b110),
            Some(0b00),
            Some(0b1110),
            Some(0b1111)
        ]
    );
}

#[test]
fn unused_symbols_get_no_code() {
    let codes = assign_codes(&[0, 1, 0, 1, 0]);
    assert_eq!(codes, vec![None, Some(0), None, Some(1), None]);
    assert_eq!(assign_codes(&[]), Vec::<Option<u32>>::new());
}

#[test]
fn fixed_table_shape() {
    assert_eq!(FIXED_CODE_LENGTHS.len(), 288);
    assert_eq!(FIXED_CODE_LENGTHS[256], 7);
    for symbol in 0..288 {
        let expected = if symbol < 144 {
            8
        } else if symbol < 256 {
            9
        } else if symbol < 280 {
            7
        } else {
            8
        };
        assert_eq!(FIXED_CODE_LENGTHS[symbol], expected);
    }
}

#[test]
fn fixed_table_codes() {
    let codes = assign_codes(&FIXED_CODE_LENGTHS);
    assert_eq!(codes[0], Some(0b0011_0000));
    assert_eq!(codes[143], Some(0b1011_1111));
    assert_eq!(codes[144], Some(0b1_1001_0000));
    assert_eq!(codes[255], Some(0b1_1111_1111));
    assert_eq!(codes[256], Some(0));
    assert_eq!(codes[279], Some(0b001_0111));
    assert_eq!(codes[280], Some(0b1100_0000));
    assert_eq!(codes[287], Some(0b1100_0111));
}
