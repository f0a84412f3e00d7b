use wit_scheduler::annotate::{
    classify_status, counter_from_number, parse_counter, quota_from_header, restored_mtime,
};
use wit_scheduler::quota::QuotaState;
use wit_scheduler::scan::{initial_priority, is_image_extension, is_lowercase_image_extension};
use wit_scheduler::scheduler::AnnotationError;

#[test]
fn status_of_success_is_no_failure() {
    assert_eq!(classify_status(200), None);
    assert_eq!(classify_status(204), None);
    assert_eq!(classify_status(299), None);
}

#[test]
fn status_429_is_a_refused_call() {
    assert_eq!(classify_status(429), Some(AnnotationError::RateLimited));
}

#[test]
fn other_statuses_are_an_unreachable_service() {
    for code in [0, 100, 199, 300, 301, 400, 404, 428, 430, 499, 500, 503, 599, 600, 999, u16::MAX] {
        assert_eq!(classify_status(code), Some(AnnotationError::NetworkError));
    }
}

#[test]
fn counters_are_read_from_digits() {
    assert_eq!(parse_counter("0"), Some(0));
    assert_eq!(parse_counter("4"), Some(4));
    assert_eq!(parse_counter("100"), Some(100));
    assert_eq!(parse_counter("007"), Some(7));
    assert_eq!(parse_counter("+12"), Some(12));
    assert_eq!(parse_counter("4294967295"), Some(u32::MAX));
    assert_eq!(parse_counter("0000000004294967295"), Some(u32::MAX));
}

#[test]
fn other_texts_are_no_counters() {
    for text in [
        "", "+", "-", "-1", "-0", "++1", "1+", " 1", "1 ", "1_0", "1.0", "12a", "a", "٣",
        "4294967296", "99999999999999999999999999", "+-1",
    ] {
        assert_eq!(parse_counter(text), None, "{:?}", text);
    }
}

#[test]
fn counters_agree_with_the_standard_parser_where_it_gives_a_counter() {
    for text in ["0", "1", "42", "+42", "0042", "4294967295", "4294967296", "", "+", "x", "1x", "٣"] {
        let expected = text.parse::<i64>().ok().and_then(|n| u32::try_from(n).ok());
        assert_eq!(parse_counter(text), expected, "{:?}", text);
    }
}

#[test]
fn numbers_in_range_are_counters() {
    assert_eq!(counter_from_number(0), Some(0));
    assert_eq!(counter_from_number(4294967295), Some(u32::MAX));
    assert_eq!(counter_from_number(4294967296), None);
    assert_eq!(counter_from_number(-1), None);
    assert_eq!(counter_from_number(i64::MIN), None);
    assert_eq!(counter_from_number(i64::MAX), None);
}

#[test]
fn header_with_four_counters_gives_the_quota() {
    assert_eq!(
        quota_from_header(Some("4"), Some(3), Some("100"), Some(96)),
        Ok(QuotaState { short_limit: 4, short_remaining: 3, long_limit: 100, long_remaining: 96 })
    );
}

#[test]
fn header_with_a_missing_or_bad_field_is_unreadable() {
    let bad = Err(AnnotationError::InvalidResponse);
    assert_eq!(quota_from_header(None, Some(3), Some("100"), Some(96)), bad);
    assert_eq!(quota_from_header(Some("4"), None, Some("100"), Some(96)), bad);
    assert_eq!(quota_from_header(Some("4"), Some(3), None, Some(96)), bad);
    assert_eq!(quota_from_header(Some("4"), Some(3), Some("100"), None), bad);
    assert_eq!(quota_from_header(Some("four"), Some(3), Some("100"), Some(96)), bad);
    assert_eq!(quota_from_header(Some("4"), Some(-3), Some("100"), Some(96)), bad);
    assert_eq!(quota_from_header(Some("4"), Some(3), Some(""), Some(96)), bad);
    assert_eq!(quota_from_header(Some("4"), Some(3), Some("100"), Some(1 << 32)), bad);
}

#[test]
fn mtime_is_advanced_by_one_second() {
    assert_eq!(restored_mtime(0), 1);
    assert_eq!(restored_mtime(1700000000), 1700000001);
    assert_eq!(restored_mtime(-1), 0);
    assert_eq!(restored_mtime(i64::MIN), i64::MIN + 1);
    assert_eq!(restored_mtime(i64::MAX - 1), i64::MAX);
    assert_eq!(restored_mtime(i64::MAX), i64::MAX);
}

#[test]
fn new_images_without_tags_come_first() {
    assert_eq!(initial_priority(false), 0);
    assert_eq!(initial_priority(true), 1);
}

#[test]
fn image_extensions_are_known_in_any_case() {
    for ext in ["png", "jpg", "bmp", "jpeg", "tif", "tiff", "PNG", "Jpg", "JPEG", "TiFf", "BMP"] {
        assert!(is_image_extension(ext), "{}", ext);
    }
    for ext in ["", "gif", "webp", "pn", "pngg", "jp g", "txt", "Xrresources", "tıf"] {
        assert!(!is_image_extension(ext), "{}", ext);
    }
}

#[test]
fn lowercase_extensions_are_matched_exactly() {
    for ext in ["png", "jpg", "bmp", "jpeg", "tif", "tiff"] {
        assert!(is_lowercase_image_extension(ext), "{}", ext);
    }
    for ext in ["PNG", "Jpg", "", "gif", "tifff", "jpe"] {
        assert!(!is_lowercase_image_extension(ext), "{}", ext);
    }
}
