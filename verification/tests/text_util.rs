//! The text helpers, the advisory-lock key and the lock statements.

use taskflow::advisory_lock::lock_statement;
use taskflow::advisory_lock::make_unique_key;
use taskflow::advisory_lock::unlock_statement;
use taskflow::text::i64_to_string;
use taskflow::text::parse_i64;
use taskflow::text::split_str;
use taskflow::text::starts_with_str;
use taskflow::text::to_ascii_lower;
use taskflow::text::trim_str;
use taskflow::text::u64_to_string;

#[test]
fn test_make_unique_key() {
    let x = make_unique_key("http://localhost:12345/avbcjkd-@m!");

    assert_eq!(x, 2905);
}

#[test]
fn lock_statements_name_the_key() {
    assert_eq!(
        lock_statement(2905),
        "SELECT pg_try_advisory_lock(2905) as locked"
    );
    assert_eq!(
        unlock_statement(2905),
        "SELECT pg_advisory_unlock(2905) as was_locked"
    );
}

#[test]
fn parse_i64_accepts_signed_decimals() {
    assert_eq!(parse_i64("12345"), Some(12345));
    assert_eq!(parse_i64("-12"), Some(-12));
    assert_eq!(parse_i64("+7"), Some(7));
    assert_eq!(parse_i64("0000000000000000000000042"), Some(42));
    assert_eq!(parse_i64("9223372036854775807"), Some(i64::MAX));
    assert_eq!(parse_i64("-9223372036854775808"), Some(i64::MIN));
}

#[test]
fn parse_i64_rejects_junk_and_overflow() {
    assert_eq!(parse_i64(""), None);
    assert_eq!(parse_i64("-"), None);
    assert_eq!(parse_i64("12a"), None);
    assert_eq!(parse_i64(" 12"), None);
    assert_eq!(parse_i64("9223372036854775808"), None);
    assert_eq!(parse_i64("-9223372036854775809"), None);
    assert_eq!(parse_i64("99999999999999999999999"), None);
}

#[test]
fn rendering_numbers_in_decimal() {
    assert_eq!(u64_to_string(0), "0");
    assert_eq!(u64_to_string(907), "907");
    assert_eq!(i64_to_string(-12345), "-12345");
    assert_eq!(i64_to_string(i64::MIN), "-9223372036854775808");
}

#[test]
fn trimming_and_folding() {
    assert_eq!(trim_str("  a b \t"), "a b");
    assert_eq!(trim_str(""), "");
    assert_eq!(trim_str(" \r\n "), "");
    assert_eq!(to_ascii_lower("Max-AGE=3"), "max-age=3");
}

#[test]
fn splitting_keeps_empty_fragments() {
    assert_eq!(split_str("a;b;;c", ';'), vec!["a", "b", "", "c"]);
    assert_eq!(split_str("", ';'), vec![""]);
    assert_eq!(split_str(";", ';'), vec!["", ""]);
}

#[test]
fn prefix_test_is_exact() {
    assert!(starts_with_str("max-age=1", "max-age="));
    assert!(!starts_with_str("max-age", "max-age="));
    assert!(starts_with_str("anything", ""));
}
