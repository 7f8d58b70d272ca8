use touchhle::frameworks::foundation::ns_string_search::{
    is_match_at_position, range_of_string, range_of_string_in_range, unit_agrees, UnitComparison,
    NSBackwardsSearch, NSCaseInsensitiveSearch, NSLiteralSearch,
};
use touchhle::frameworks::foundation::{NSNotFound, NSRange};

fn units(s: &str) -> Vec<u16> {
    s.encode_utf16().collect()
}

fn found(location: u32, length: u32) -> NSRange {
    NSRange { location, length }
}

fn not_found() -> NSRange {
    NSRange { location: NSNotFound as u32, length: 0 }
}

#[test]
fn finds_first_occurrence() {
    let s = units("abcabc");
    assert!(range_of_string(&s, &units("bc"), 0) == found(1, 2));
    assert!(range_of_string(&s, &units("bc"), NSLiteralSearch) == found(1, 2));
    assert!(range_of_string(&s, &units("abcabc"), 0) == found(0, 6));
}

#[test]
fn backward_search_finds_last_occurrence() {
    let s = units("abcabc");
    assert!(range_of_string(&s, &units("bc"), NSBackwardsSearch) == found(4, 2));
    assert!(range_of_string(&s, &units("x"), NSBackwardsSearch) == not_found());
}

#[test]
fn absent_empty_or_too_long_is_not_found() {
    let s = units("abc");
    assert!(range_of_string(&s, &units("abd"), 0) == not_found());
    assert!(range_of_string(&s, &units(""), 0) == not_found());
    assert!(range_of_string(&s, &units("abcd"), 0) == not_found());
    assert!(range_of_string(&units(""), &units("a"), 0) == not_found());
}

#[test]
fn case_insensitive_search() {
    let s = units("Hello World");
    assert!(range_of_string(&s, &units("WORLD"), NSCaseInsensitiveSearch) == found(6, 5));
    assert!(range_of_string(&s, &units("WORLD"), 0) == not_found());
    assert!(range_of_string(&units("ÄRGER"), &units("ärger"), NSCaseInsensitiveSearch) == found(0, 5));
}

#[test]
fn case_insensitive_surrogates() {
    // U+1F600 as a surrogate pair
    let s = units("a\u{1F600}");
    let p = units("\u{1F600}");
    // Without a range, a surrogate matches nothing when case is ignored.
    assert!(range_of_string(&s, &p, NSCaseInsensitiveSearch) == not_found());
    assert!(range_of_string(&s, &p, 0) == found(1, 2));
    // Within a range, surrogates are compared exactly.
    let all = NSRange { location: 0, length: 3 };
    assert!(range_of_string_in_range(&s, &p, NSCaseInsensitiveSearch, all) == found(1, 2));
}

#[test]
fn search_within_range() {
    let s = units("abcabcabc");
    let p = units("abc");
    assert!(range_of_string_in_range(&s, &p, 0, NSRange { location: 1, length: 8 }) == found(3, 3));
    assert!(range_of_string_in_range(&s, &p, NSBackwardsSearch, NSRange { location: 0, length: 8 }) == found(3, 3));
    assert!(range_of_string_in_range(&s, &p, NSBackwardsSearch, NSRange { location: 0, length: 100 }) == found(6, 3));
    // A match must lie wholly inside the range.
    assert!(range_of_string_in_range(&s, &p, 0, NSRange { location: 1, length: 4 }) == not_found());
    assert!(range_of_string_in_range(&s, &p, 0, NSRange { location: 9, length: 1 }) == not_found());
    assert!(range_of_string_in_range(&s, &p, 0, NSRange { location: 0, length: 0 }) == not_found());
    assert!(range_of_string_in_range(&s, &units(""), 0, NSRange { location: 0, length: 9 }) == not_found());
    let upper = units("ABC");
    assert!(
        range_of_string_in_range(&s, &upper, NSCaseInsensitiveSearch | NSBackwardsSearch, NSRange { location: 0, length: 9 })
            == found(6, 3)
    );
}

#[test]
fn match_at_position_stops_at_length() {
    let s = units("abcd");
    let p = units("cd");
    assert!(is_match_at_position(&s, &p, 2, 4, 2, UnitComparison::Exact));
    assert!(!is_match_at_position(&s, &p, 2, 3, 2, UnitComparison::Exact));
    assert!(!is_match_at_position(&s, &p, 1, 4, 2, UnitComparison::Exact));
    assert!(is_match_at_position(&s, &p, 7, 4, 0, UnitComparison::Exact));
}

#[test]
fn unit_comparisons() {
    assert!(unit_agrees(b'A' as u16, b'a' as u16, UnitComparison::IgnoringCase));
    assert!(!unit_agrees(b'A' as u16, b'a' as u16, UnitComparison::Exact));
    assert!(!unit_agrees(0xD800, 0xD800, UnitComparison::IgnoringCase));
    assert!(unit_agrees(0xD800, 0xD800, UnitComparison::IgnoringCaseElseExact));
    assert!(unit_agrees(0x0394, 0x03B4, UnitComparison::IgnoringCaseElseExact));
}
