use touchhle::frameworks::foundation::ns_character_set::CharacterSetHostObject;
use touchhle::frameworks::foundation::ns_string_ops::{
    add_percent_escapes, bool_value, components_separated_by, components_separated_by_set, int_value,
    delete_characters_in_range, insert_string, replace_characters_in_range, replace_chars_in_range,
    string_by_appending, string_by_appending_path_extension, substring_from_index, substring_to_index,
    has_prefix, has_suffix, is_absolute_path, length_of_bytes, maximum_length_of_bytes, string_by_trimming, substring_with_range,
};
use touchhle::frameworks::foundation::ns_string::{
    NSASCIIStringEncoding, NSISOLatin1StringEncoding, NSMacOSRomanStringEncoding, NSUTF16StringEncoding,
    NSUTF32BigEndianStringEncoding, NSUTF8StringEncoding, NSWindowsCP1252StringEncoding,
};
use touchhle::frameworks::foundation::NSRange;

fn units(s: &str) -> Vec<u16> {
    s.encode_utf16().collect()
}

fn split(s: &str, sep: &str) -> Vec<String> {
    let sep = units(sep);
    components_separated_by(&units(s), Some(&sep))
        .into_iter()
        .map(|c| String::from_utf16(&c).unwrap())
        .collect()
}

#[test]
fn components_separated_by_string() {
    assert_eq!(split("a,b,c", ","), vec!["a", "b", "c"]);
    assert_eq!(split(",a,,b,", ","), vec!["", "a", "", "b", ""]);
    assert_eq!(split("abc", "--"), vec!["abc"]);
    assert_eq!(split("", ","), vec![""]);
    assert_eq!(split("one::two", "::"), vec!["one", "two"]);
    assert_eq!(split(":::", "::"), vec!["", ":"]);
    assert_eq!(split("abc", ""), vec!["abc"]);
    let whole = components_separated_by(&units("a,b"), None);
    assert_eq!(whole, vec![units("a,b")]);
}

#[test]
fn split_then_join_gives_the_string_back() {
    for (s, sep) in [("a,b,,c,", ","), ("::x::y", "::"), ("aaaa", "aa"), ("none", "z")] {
        assert_eq!(split(s, sep).join(sep), s);
    }
}

#[test]
fn trimming_characters_in_set() {
    let spaces = CharacterSetHostObject::with_characters(&units(" \t"));
    assert_eq!(string_by_trimming(&units("  hi there \t"), &spaces), units("hi there"));
    assert_eq!(string_by_trimming(&units("   "), &spaces), units(""));
    assert_eq!(string_by_trimming(&units("x"), &spaces), units("x"));
    assert_eq!(string_by_trimming(&units(""), &spaces), units(""));
    let letters = spaces.copy(true);
    assert_eq!(string_by_trimming(&units("ab 1 cd"), &letters), units(" 1 "));
}

#[test]
fn int_value_reads_leading_integer() {
    assert_eq!(int_value(&units("42")), 42);
    assert_eq!(int_value(&units("  -17abc")), -17);
    assert_eq!(int_value(&units("\t+8")), 8);
    assert_eq!(int_value(&units("abc")), 0);
    assert_eq!(int_value(&units("")), 0);
    assert_eq!(int_value(&units("-")), 0);
    assert_eq!(int_value(&units("3000000000")), i32::MAX);
    assert_eq!(int_value(&units("-3000000000")), i32::MIN);
    // Beyond i64 the digits do not parse, and read as 0.
    assert_eq!(int_value(&units("99999999999999999999")), 0);
    assert_eq!(int_value(&units("007")), 7);
    assert_eq!(int_value(&units("\u{B}5")), 0);
}

#[test]
fn percent_escapes() {
    assert_eq!(add_percent_escapes("a b"), "a%20b");
    assert_eq!(add_percent_escapes("path/to?x=1&y=2#f"), "path/to?x=1&y=2#f");
    assert_eq!(add_percent_escapes("\u{E9}"), "%C3%A9");
    assert_eq!(add_percent_escapes("<>\"\n"), "%3C%3E%22%0A");
    assert_eq!(add_percent_escapes(""), "");
}

#[test]
fn bool_value_reads_first_significant_char() {
    assert!(bool_value(&units("YES")));
    assert!(bool_value(&units("true")));
    assert!(bool_value(&units("  +007")));
    assert!(bool_value(&units("-1")));
    assert!(!bool_value(&units("NO")));
    assert!(!bool_value(&units("000")));
    assert!(!bool_value(&units("")));
    assert!(!bool_value(&units("false")));
}

#[test]
fn absolute_paths() {
    assert!(is_absolute_path(&units("/var/mobile")));
    assert!(is_absolute_path(&units("~/Documents")));
    assert!(!is_absolute_path(&units("Documents")));
    assert!(!is_absolute_path(&units("")));
}

#[test]
fn components_separated_by_character_set() {
    let seps = CharacterSetHostObject::with_characters(&units(", "));
    let parts = components_separated_by_set(&units("a, b,c"), &seps);
    assert_eq!(parts, vec![units("a"), units(""), units("b"), units("c")]);
    assert_eq!(components_separated_by_set(&units(""), &seps), vec![units("")]);
    assert_eq!(components_separated_by_set(&units(","), &seps), vec![units(""), units("")]);
}

#[test]
fn substring_within_and_beyond_bounds() {
    let s = units("hello");
    assert_eq!(substring_with_range(&s, NSRange { location: 1, length: 3 }), units("ell"));
    assert_eq!(substring_with_range(&s, NSRange { location: 5, length: 0 }), units(""));
    assert_eq!(substring_with_range(&s, NSRange { location: 3, length: 3 }), units(""));
    assert_eq!(substring_with_range(&s, NSRange { location: 6, length: 0 }), units(""));
    assert_eq!(substring_with_range(&s, NSRange { location: u32::MAX, length: u32::MAX }), units(""));
}

#[test]
fn byte_lengths_by_encoding() {
    let s = "a\u{E9}\u{20AC}\u{1F600}";
    assert_eq!(length_of_bytes(s, NSUTF8StringEncoding), 10);
    assert_eq!(length_of_bytes(s, NSASCIIStringEncoding), 1);
    assert_eq!(length_of_bytes(s, NSUTF16StringEncoding), 10);
    assert_eq!(length_of_bytes(s, NSUTF32BigEndianStringEncoding), 16);
    assert_eq!(length_of_bytes(s, NSISOLatin1StringEncoding), 2);
    assert_eq!(length_of_bytes(s, NSWindowsCP1252StringEncoding), 2);
    assert_eq!(length_of_bytes(s, NSMacOSRomanStringEncoding), 10);
    assert_eq!(maximum_length_of_bytes(s, NSUTF8StringEncoding), 16);
    assert_eq!(maximum_length_of_bytes(s, NSUTF16StringEncoding), 16);
    assert_eq!(maximum_length_of_bytes(s, NSISOLatin1StringEncoding), 2);
    assert_eq!(length_of_bytes("", NSUTF16StringEncoding), 0);
}

#[test]
fn pieces_and_splices() {
    let s = units("hello");
    assert_eq!(substring_to_index(&s, 2), units("he"));
    assert_eq!(substring_to_index(&s, 9), units("hello"));
    assert_eq!(substring_from_index(&s, 2), units("llo"));
    assert_eq!(substring_from_index(&s, 9), units(""));
    assert_eq!(string_by_appending(&s, &units(" world")), units("hello world"));
    assert_eq!(insert_string(&s, &units("XY"), 1), units("hXYello"));
    assert_eq!(insert_string(&s, &units("!"), 99), units("hello!"));
    assert_eq!(replace_characters_in_range(&s, NSRange { location: 1, length: 3 }, &units("EL")), units("hELo"));
    assert_eq!(replace_characters_in_range(&s, NSRange { location: 4, length: 9 }, &units("!")), units("hell!"));
    assert_eq!(delete_characters_in_range(&s, NSRange { location: 1, length: 2 }), units("hlo"));
    assert_eq!(delete_characters_in_range(&s, NSRange { location: 0, length: 5 }), units(""));
}

#[test]
fn delete_undoes_insert_example() {
    let s = units("abcdef");
    let a = units("XYZ");
    let inserted = insert_string(&s, &a, 2);
    assert_eq!(delete_characters_in_range(&inserted, NSRange { location: 2, length: 3 }), s);
}

#[test]
fn replacing_chars_counts_chars() {
    let s = "h\u{E9}\u{1F600}llo";
    assert_eq!(replace_chars_in_range(s, NSRange { location: 1, length: 2 }, "EE"), "hEEllo");
    assert_eq!(replace_chars_in_range(s, NSRange { location: 0, length: 0 }, ">"), ">h\u{E9}\u{1F600}llo");
    assert_eq!(replace_chars_in_range(s, NSRange { location: 4, length: 100 }, "!"), "h\u{E9}\u{1F600}l!");
    assert_eq!(replace_chars_in_range(s, NSRange { location: 50, length: 1 }, "!"), "h\u{E9}\u{1F600}llo!");
}

#[test]
fn appending_path_extension() {
    assert_eq!(string_by_appending_path_extension("image", "png"), "image.png");
    assert_eq!(string_by_appending_path_extension("image", ""), "image");
    assert_eq!(string_by_appending_path_extension("", "txt"), ".txt");
}

#[test]
fn prefixes_and_suffixes() {
    assert!(has_prefix("Default.png", "Default"));
    assert!(has_prefix("abc", ""));
    assert!(!has_prefix("ab", "abc"));
    assert!(!has_prefix("abc", "b"));
    assert!(has_suffix("Default.png", ".png"));
    assert!(has_suffix("abc", ""));
    assert!(!has_suffix("c", "bc"));
    assert!(!has_suffix("abc", "b"));
    assert!(has_suffix("\u{E9}t\u{E9}", "\u{E9}"));
}
