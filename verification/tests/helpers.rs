//! Identifiers, rendering helpers and the clock.

use tinymem::default_limit;
use tinymem::models::{artifact_id_of, extension_of, now, sanitize_title, short_id, short_id_of};
use tinymem::text::{i64_to_string, u64_to_string};

#[test]
fn the_default_limit_is_25() {
    assert_eq!(default_limit(), 25);
}

#[test]
fn decimal_rendering() {
    assert_eq!(u64_to_string(0), "0");
    assert_eq!(u64_to_string(1700000000), "1700000000");
    assert_eq!(i64_to_string(-42), "-42");
    assert_eq!(i64_to_string(7), "7");
    assert_eq!(i64_to_string(i64::MIN), "-9223372036854775808");
}

#[test]
fn short_ids_fold_the_two_halves() {
    assert_eq!(short_id_of(0), "0");
    // low half 0x9abcdef0 folded with high half 0x12345678 is 0x88888888
    assert_eq!(short_id_of(0x1234_5678_9abc_def0), "888888");
    let fresh = short_id();
    let n = fresh.chars().count();
    assert!(1 <= n && n <= 6, "got {fresh}");
}

#[test]
fn titles_are_sanitized_into_ids() {
    assert_eq!(sanitize_title("Hello, World!"), "HelloWorld");
    assert_eq!(sanitize_title("keep-this_one"), "keep-this_one");
    let long = "x".repeat(80);
    assert_eq!(sanitize_title(&long).chars().count(), 50);
    assert_eq!(artifact_id_of(42, "My Report (v2)"), "42_MyReportv2");
}

#[test]
fn extensions_come_from_the_final_segment() {
    assert_eq!(extension_of("/a/b/report.PDF"), Some("PDF".to_string()));
    assert_eq!(extension_of("archive.tar.gz"), Some("gz".to_string()));
    assert_eq!(extension_of("/a/b/noext"), None);
    assert_eq!(extension_of("/a/.gitignore"), None);
    assert_eq!(extension_of("trailing."), Some("".to_string()));
}

#[test]
fn the_clock_is_past_the_epoch() {
    assert!(now() >= 0);
}
