use touchhle::frameworks::foundation::ns_string_compare::{compare_with_options, NSNumericSearch};
use touchhle::frameworks::foundation::ns_string_search::{NSCaseInsensitiveSearch, NSLiteralSearch};
use touchhle::frameworks::foundation::{NSOrderedAscending, NSOrderedDescending, NSOrderedSame};

fn units(s: &str) -> Vec<u16> {
    s.encode_utf16().collect()
}

fn compare(a: &str, b: &str, mask: u32) -> i32 {
    compare_with_options(&units(a), &units(b), mask)
}

#[test]
fn literal_compare() {
    assert_eq!(compare("abc", "abd", 0), NSOrderedAscending);
    assert_eq!(compare("abc", "ab", NSLiteralSearch), NSOrderedDescending);
    assert_eq!(compare("", "", 0), NSOrderedSame);
    assert_eq!(compare("abc", "abc", NSLiteralSearch), NSOrderedSame);
    assert_eq!(compare("B", "a", 0), NSOrderedAscending);
    assert_eq!(compare("file2", "file10", 0), NSOrderedDescending);
}

#[test]
fn case_insensitive_compare() {
    assert_eq!(compare("HELLO", "hello", NSCaseInsensitiveSearch), NSOrderedSame);
    assert_eq!(compare("B", "a", NSCaseInsensitiveSearch), NSOrderedDescending);
    assert_eq!(compare("\u{C4}rger", "\u{E4}RGER", NSCaseInsensitiveSearch), NSOrderedSame);
    assert_eq!(compare("ab", "ABC", NSCaseInsensitiveSearch), NSOrderedAscending);
}

#[test]
fn numeric_compare() {
    assert_eq!(compare("file2", "file10", NSNumericSearch), NSOrderedAscending);
    assert_eq!(compare("file10", "file2", NSNumericSearch), NSOrderedDescending);
    assert_eq!(compare("a01", "a1", NSNumericSearch), NSOrderedSame);
    assert_eq!(compare("a01b", "a1c", NSNumericSearch), NSOrderedAscending);
    assert_eq!(compare("x9", "x", NSNumericSearch), NSOrderedDescending);
    assert_eq!(compare("4294967295", "4294967295", NSNumericSearch), NSOrderedSame);
    assert_eq!(compare("a", "B", NSNumericSearch), NSOrderedDescending);
}

#[test]
fn compare_antisymmetric_examples() {
    for (a, b) in [("abc", "abd"), ("file2", "file10"), ("Zeta", "alpha"), ("", "x")] {
        for mask in [0, NSCaseInsensitiveSearch, NSNumericSearch] {
            assert_eq!(compare(a, b, mask), -compare(b, a, mask));
        }
        assert_eq!(compare(a, a, 0), NSOrderedSame);
    }
}
