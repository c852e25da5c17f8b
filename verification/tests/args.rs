use set_solver::args::{only_digits, parse_items, parse_number};
use set_solver::{try_parse_args, ArgsError};
use set_solver::{DEFAULT_ITEMS, DEFAULT_SETS, DEFAULT_VARIANTS};

fn args_of(words: &[&str]) -> Vec<String> {
    words.iter().map(|word| word.to_string()).collect()
}

const TWELVE: &str = "100010202101122011210212011212210101102102112201";

#[test]
fn defaults() {
    assert_eq!(DEFAULT_SETS, 3);
    assert_eq!(DEFAULT_VARIANTS, 4);
    assert_eq!(DEFAULT_ITEMS, 12);
}

#[test]
fn parse_number_reads_decimal() {
    assert_eq!(parse_number(b"0"), Some(0));
    assert_eq!(parse_number(b"7"), Some(7));
    assert_eq!(parse_number(b"12"), Some(12));
    assert_eq!(parse_number(b"0012"), Some(12));
    assert_eq!(parse_number(b"+12"), Some(12));
    assert_eq!(parse_number(b"4096"), Some(4096));
}

#[test]
fn parse_number_refuses_other_text() {
    assert_eq!(parse_number(b""), None);
    assert_eq!(parse_number(b"+"), None);
    assert_eq!(parse_number(b"-"), None);
    assert_eq!(parse_number(b"-1"), None);
    assert_eq!(parse_number(b"++1"), None);
    assert_eq!(parse_number(b"1+"), None);
    assert_eq!(parse_number(b" 1"), None);
    assert_eq!(parse_number(b"1 "), None);
    assert_eq!(parse_number(b"1a"), None);
    assert_eq!(parse_number(b"a1"), None);
    assert_eq!(parse_number(b"1_000"), None);
    assert_eq!(parse_number(b"0x10"), None);
}

#[test]
fn parse_number_stops_at_the_largest_usize() {
    let largest = usize::MAX.to_string();
    assert_eq!(parse_number(largest.as_bytes()), Some(usize::MAX));
    let mut digits = largest.into_bytes();
    let last = digits.len() - 1;
    digits[last] += 1;
    assert_eq!(parse_number(&digits), None);
    assert_eq!(parse_number(b"99999999999999999999999999999999999999999999"), None);
    assert_eq!(parse_number(b"99999999999999999999999999999999999999999999a"), None);
}

#[test]
fn parse_number_agrees_with_std() {
    let words = [
        "", "0", "00", "1", "+1", "-1", "+", "-", "+-1", "++1", "12", "012", "12 ", " 12", "1.5",
        "1e3", "18446744073709551615", "18446744073709551616", "4294967295", "4294967296",
        "٣", "१२", "1٣", "12\n", "\t12", "+0", "-0", "0+",
    ];
    for word in words {
        assert_eq!(parse_number(word.as_bytes()), word.parse::<usize>().ok(), "{:?}", word);
    }
}

#[test]
fn only_digits_tells_digits() {
    assert!(only_digits(b""));
    assert!(only_digits(b"0123456789"));
    assert!(!only_digits(b"01234/"));
    assert!(!only_digits(b"01234:"));
    assert!(!only_digits(b"12a4"));
    assert!(!only_digits("١٢٣".as_bytes()));
}

#[test]
fn parse_items_splits_into_rows() {
    assert_eq!(parse_items(b"100010", 3), vec![vec![1u8, 0, 0], vec![0, 1, 0]]);
    assert_eq!(parse_items(b"9876", 1), vec![vec![9u8], vec![8], vec![7], vec![6]]);
    assert_eq!(parse_items(b"9876", 4), vec![vec![9u8, 8, 7, 6]]);
    assert_eq!(parse_items(b"", 4), Vec::<Vec<u8>>::new());
}

#[test]
fn args_with_defaults() {
    let (items, set_size, variant_count) = try_parse_args(&args_of(&["prog", TWELVE])).unwrap();
    assert_eq!(set_size, 3);
    assert_eq!(variant_count, 4);
    assert_eq!(items.len(), 12);
    assert_eq!(items[0], vec![1, 0, 0, 0]);
    assert_eq!(items[1], vec![1, 0, 2, 0]);
    assert_eq!(items[11], vec![2, 2, 0, 1]);
}

#[test]
fn args_with_all_numbers() {
    let parsed = try_parse_args(&args_of(&["prog", "012345", "2", "3", "2"]));
    assert_eq!(parsed, Ok((vec![vec![0u8, 1, 2], vec![3, 4, 5]], 2, 3)));
    // Arguments after the fourth number are not read.
    let parsed = try_parse_args(&args_of(&["prog", "012345", "2", "3", "2", "x"]));
    assert_eq!(parsed, Ok((vec![vec![0u8, 1, 2], vec![3, 4, 5]], 2, 3)));
    // The item count only has to divide the length of the item string.
    let parsed = try_parse_args(&args_of(&["prog", "012345", "5", "2", "6"]));
    assert_eq!(parsed, Ok((vec![vec![0u8, 1], vec![2, 3], vec![4, 5]], 5, 2)));
}

#[test]
fn args_with_an_empty_item_string() {
    let parsed = try_parse_args(&args_of(&["prog", ""]));
    assert_eq!(parsed, Ok((Vec::<Vec<u8>>::new(), 3, 4)));
}

#[test]
fn args_without_item_string() {
    assert_eq!(try_parse_args(&args_of(&[])), Err(ArgsError::MissingItems));
    assert_eq!(try_parse_args(&args_of(&["prog"])), Err(ArgsError::MissingItems));
}

#[test]
fn args_with_bad_numbers() {
    assert_eq!(try_parse_args(&args_of(&["prog", TWELVE, "x"])), Err(ArgsError::BadSetSize));
    assert_eq!(
        try_parse_args(&args_of(&["prog", TWELVE, "3", "-4"])),
        Err(ArgsError::BadVariantCount)
    );
    assert_eq!(
        try_parse_args(&args_of(&["prog", TWELVE, "3", "4", ""])),
        Err(ArgsError::BadItemCount)
    );
    // The first bad number is the one reported.
    assert_eq!(try_parse_args(&args_of(&["prog", "zz", "x", "y", "z"])), Err(ArgsError::BadSetSize));
    assert_eq!(
        try_parse_args(&args_of(&["prog", "zz", "1", "y", "z"])),
        Err(ArgsError::BadVariantCount)
    );
}

#[test]
fn args_with_zero_counts() {
    assert_eq!(
        try_parse_args(&args_of(&["prog", TWELVE, "3", "4", "0"])),
        Err(ArgsError::ZeroItemCount)
    );
    assert_eq!(
        try_parse_args(&args_of(&["prog", TWELVE, "3", "0", "12"])),
        Err(ArgsError::ZeroVariantCount)
    );
    assert_eq!(
        try_parse_args(&args_of(&["prog", TWELVE, "3", "0", "0"])),
        Err(ArgsError::ZeroItemCount)
    );
}

#[test]
fn args_with_lengths_that_do_not_divide() {
    // 47 digits: no multiple of 12.
    assert_eq!(
        try_parse_args(&args_of(&["prog", &TWELVE[1..]])),
        Err(ArgsError::ItemCountMismatch)
    );
    // 6 digits in 3 items, but not in rows of 4.
    assert_eq!(
        try_parse_args(&args_of(&["prog", "012345", "3", "4", "3"])),
        Err(ArgsError::VariantCountMismatch)
    );
    // Both fail: the item count is checked first.
    assert_eq!(
        try_parse_args(&args_of(&["prog", "0123456", "3", "4", "3"])),
        Err(ArgsError::ItemCountMismatch)
    );
}

#[test]
fn args_with_other_characters() {
    assert_eq!(
        try_parse_args(&args_of(&["prog", "01a3", "3", "4", "1"])),
        Err(ArgsError::NotADigit)
    );
    // Lengths are counted in bytes, and checked before the characters.
    assert_eq!(
        try_parse_args(&args_of(&["prog", "éé", "3", "4", "1"])),
        Err(ArgsError::NotADigit)
    );
    assert_eq!(
        try_parse_args(&args_of(&["prog", "01é", "3", "3", "1"])),
        Err(ArgsError::VariantCountMismatch)
    );
}

#[test]
fn a_zero_set_size_is_read() {
    let parsed = try_parse_args(&args_of(&["prog", "0123", "0", "2", "2"]));
    assert_eq!(parsed, Ok((vec![vec![0u8, 1], vec![2, 3]], 0, 2)));
}
