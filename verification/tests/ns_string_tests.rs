use touchhle::environment::Environment;
use touchhle::frameworks::foundation::ns_string::{
    for_each_code_unit, from_rust_ordering, from_rust_string, from_u16_vec, get_bytes_buffer_inner,
    get_static_str, init_with_format_inner, line_range_helper, with_format_output, mutable_from_rust_string, register_constant_strings,
    to_rust_string, CFStringGetCharactersPtr, StringHostObject, NSASCIIStringEncoding,
    NSShiftJISStringEncoding, NSUTF16BigEndianStringEncoding, NSUTF16LittleEndianStringEncoding,
    NSUTF16StringEncoding, NSUTF32BigEndianStringEncoding, NSUTF32LittleEndianStringEncoding,
    NSUTF8StringEncoding, NSISOLatin1StringEncoding, NSMacOSRomanStringEncoding,
    NSWindowsCP1252StringEncoding,
};
use touchhle::frameworks::foundation::NSRange;
use touchhle::objc::{ClassId, HostObject};

#[test]
fn linerange_tests() {
    let range = |x, y| NSRange { location: x, length: y };
    let str1: Vec<u16> = "abcd\nab".encode_utf16().collect();
    assert!(line_range_helper(&str1, range(5, 1), true, true) == (5, 7, 7));
    assert!(line_range_helper(&str1, range(4, 1), true, true) == (0, 5, 4));
    let str2: Vec<u16> = "abc\r".encode_utf16().collect();
    assert!(line_range_helper(&str2, range(4, 0), true, true) == (4, 4, 4));
    assert!(line_range_helper(&str2, range(3, 1), true, true) == (0, 4, 3));
    let str3: Vec<u16> = "abc\r\nab".encode_utf16().collect();
    assert!(line_range_helper(&str3, range(4, 0), true, true) == (0, 5, 3));
    assert!(line_range_helper(&str3, range(4, 1), true, true) == (0, 5, 3));
    assert!(line_range_helper(&str3, range(6, 1), true, true) == (5, 7, 7));
    assert!(line_range_helper(&str3, range(4, 2), true, true) == (0, 7, 7));
    let str4: Vec<u16> = "\r\n".encode_utf16().collect();
    assert!(line_range_helper(&str4, range(1, 0), true, true) == (0, 2, 0));
    assert!(line_range_helper(&str4, range(1, 1), true, true) == (0, 2, 0));
    assert!(line_range_helper(&str4, range(0, 0), true, true) == (0, 2, 0));
    let str5: Vec<u16> = "abcd\na\n".encode_utf16().collect();
    assert!(line_range_helper(&str5, range(6, 1), true, true) == (5, 7, 6));
    assert!(line_range_helper(&str5, range(4, 1), true, true) == (0, 5, 4));
}

#[test]
fn line_range_parts_not_asked_for_are_zero() {
    let s: Vec<u16> = "ab\ncd".encode_utf16().collect();
    let r = NSRange { location: 4, length: 0 };
    assert_eq!(line_range_helper(&s, r, true, false), (3, 0, 0));
    assert_eq!(line_range_helper(&s, r, false, true), (0, 5, 5));
    let sep: Vec<u16> = vec![0x61, 0x2028, 0x62];
    assert_eq!(line_range_helper(&sep, NSRange { location: 0, length: 1 }, true, true), (0, 2, 1));
}

#[test]
fn rust_string_round_trip() {
    let mut env = Environment::new();
    let s = from_rust_string(&mut env, String::from("héllo"));
    assert_eq!(to_rust_string(&mut env, s), "héllo");
    let m = mutable_from_rust_string(&mut env, String::from("x"));
    assert_ne!(s, m);
    assert!(matches!(env.objc.class_of(m), ClassId::NSMutableString));
    let u = from_u16_vec(&mut env, "añ😀".encode_utf16().collect());
    assert_eq!(to_rust_string(&mut env, u), "añ😀");
}

#[test]
fn code_units_come_with_their_indices() {
    let mut env = Environment::new();
    let s = from_rust_string(&mut env, String::from("a😀"));
    let pairs = for_each_code_unit(&mut env, s);
    assert_eq!(pairs, vec![(0, 0x61), (1, 0xD83D), (2, 0xDE00)]);
}

#[test]
fn orderings_become_comparison_results() {
    assert_eq!(from_rust_ordering(std::cmp::Ordering::Less), -1);
    assert_eq!(from_rust_ordering(std::cmp::Ordering::Equal), 0);
    assert_eq!(from_rust_ordering(std::cmp::Ordering::Greater), 1);
}

#[test]
fn static_strings_are_made_once() {
    let mut env = Environment::new();
    let a = get_static_str(&mut env, "AppleLanguages");
    let b = get_static_str(&mut env, "AppleLanguages");
    let c = get_static_str(&mut env, "Other");
    assert_eq!(a, b);
    assert_ne!(a, c);
    assert_eq!(to_rust_string(&mut env, a), "AppleLanguages");
}

fn buffer_env(text: &str) -> (Environment, u32, u32) {
    let mut env = Environment::new();
    let s = from_rust_string(&mut env, String::from(text));
    let buf = env.mem.allocate(16);
    (env, s, buf)
}

#[test]
fn bytes_buffer_in_each_encoding() {
    let (mut env, s, buf) = buffer_env("Aé");
    assert!(get_bytes_buffer_inner(&mut env, s, buf, 16, NSUTF8StringEncoding, true));
    assert_eq!(env.mem.bytes_at(buf, 4), vec![0x41, 0xC3, 0xA9, 0]);
    assert!(get_bytes_buffer_inner(&mut env, s, buf, 16, NSUTF16LittleEndianStringEncoding, true));
    assert_eq!(env.mem.bytes_at(buf, 6), vec![0x41, 0, 0xE9, 0, 0, 0]);
    assert!(get_bytes_buffer_inner(&mut env, s, buf, 16, NSUTF16BigEndianStringEncoding, false));
    assert_eq!(env.mem.bytes_at(buf, 4), vec![0, 0x41, 0, 0xE9]);
    assert!(get_bytes_buffer_inner(&mut env, s, buf, 16, NSUTF32LittleEndianStringEncoding, false));
    assert_eq!(env.mem.bytes_at(buf, 8), vec![0x41, 0, 0, 0, 0xE9, 0, 0, 0]);
    assert!(get_bytes_buffer_inner(&mut env, s, buf, 16, NSUTF32BigEndianStringEncoding, true));
    assert_eq!(env.mem.bytes_at(buf, 12), vec![0, 0, 0, 0x41, 0, 0, 0, 0xE9, 0, 0, 0, 0]);
}

#[test]
fn bytes_buffer_refusals() {
    let (mut env, s, buf) = buffer_env("Aé");
    // too small: nothing written
    let before = env.mem.bytes_at(buf, 4);
    assert!(!get_bytes_buffer_inner(&mut env, s, buf, 3, NSUTF8StringEncoding, true));
    assert_eq!(env.mem.bytes_at(buf, 4), before);
    let (mut env2, s2, buf2) = buffer_env("A\u{0100}");
    assert!(!get_bytes_buffer_inner(&mut env2, s2, buf2, 16, NSASCIIStringEncoding, false));
}

#[test]
fn single_byte_encodings_write_one_byte_per_char() {
    let (mut env, s, buf) = buffer_env("\u{E9}");
    assert!(get_bytes_buffer_inner(&mut env, s, buf, 2, NSISOLatin1StringEncoding, true));
    assert_eq!(env.mem.bytes_at(buf, 2), vec![0xE9, 0x00]);
    let (mut env2, s2, buf2) = buffer_env("A\u{FF}b");
    assert!(get_bytes_buffer_inner(&mut env2, s2, buf2, 3, NSMacOSRomanStringEncoding, false));
    assert_eq!(env2.mem.bytes_at(buf2, 3), vec![0x41, 0xFF, 0x62]);
}

#[test]
fn decoding_bytes() {
    let h = StringHostObject::decode(&[0x68, 0x69], NSUTF8StringEncoding);
    assert!(matches!(&h, StringHostObject::Utf8(s) if s == "hi"));
    let h = StringHostObject::decode(&[0xFE, 0xFF, 0x00, 0x41], NSUTF16StringEncoding);
    assert!(matches!(&h, StringHostObject::Utf16(v) if v == &vec![0xFEFF, 0x0041]));
    let h = StringHostObject::decode(&[0x41, 0x00], NSUTF16StringEncoding);
    assert!(matches!(&h, StringHostObject::Utf16(v) if v == &vec![0x0041]));
    assert!(StringHostObject::try_decode(&[0x80], NSASCIIStringEncoding).is_none());
    assert!(StringHostObject::try_decode(&[0x41], NSUTF16BigEndianStringEncoding).is_none());
    assert!(StringHostObject::try_decode(&[0x41], 0x1234).is_none());
    let sj = StringHostObject::try_decode(&[0x82, 0xA0], NSShiftJISStringEncoding).unwrap();
    assert!(matches!(&sj, StringHostObject::Utf8(s) if s == "あ"));
    let h = StringHostObject::decode(&[], 0x1234);
    assert!(matches!(&h, StringHostObject::Utf8(s) if s.is_empty()));
}

#[test]
fn constant_strings_are_registered() {
    let mut env = Environment::new();
    // text of the strings, then the section with two records
    let text = env.mem.allocate(8);
    env.mem.write_bytes(text, b"hi");
    let units = env.mem.allocate(4);
    env.mem.write_bytes(units, &[0x41, 0x00, 0x42, 0x00]);
    let section = env.mem.allocate(32);
    for (i, (flags, bytes, len)) in [(0x7C8u32, text, 2u32), (0x7D0u32, units, 2u32)].iter().enumerate() {
        let p = section + 16 * i as u32;
        env.mem.write_u32(p + 4, *flags);
        env.mem.write_u32(p + 8, *bytes);
        env.mem.write_u32(p + 12, *len);
    }
    register_constant_strings(Some((section, 32)), &mut env.mem, &mut env.objc);
    assert_eq!(to_rust_string(&mut env, section), "hi");
    assert_eq!(to_rust_string(&mut env, section + 16), "AB");
    assert!(matches!(env.objc.class_of(section), ClassId::ConstantStringUtf8));
    // the UTF-16 one hands out its units; others do not
    assert_eq!(CFStringGetCharactersPtr(&mut env, section + 16), units);
    assert_eq!(CFStringGetCharactersPtr(&mut env, section), 0);
    assert_eq!(CFStringGetCharactersPtr(&mut env, 0), 0);
    assert!(matches!(env.objc.host_of(section + 16), HostObject::Str(StringHostObject::Utf16(_))));
}

#[test]
fn decoding_through_outside_decoders() {
    let h = StringHostObject::decode(&[0x80, 0x41], NSWindowsCP1252StringEncoding);
    assert!(matches!(&h, StringHostObject::Utf8(s) if s == "\u{20AC}A"));
    let h = StringHostObject::decode(&[0x80], NSMacOSRomanStringEncoding);
    assert!(matches!(&h, StringHostObject::Utf8(s) if s == "\u{20AC}"));
    let h = StringHostObject::decode(&[0xFF, 0x41], NSUTF8StringEncoding);
    assert!(matches!(&h, StringHostObject::Utf8(s) if s == "\u{FFFD}A"));
    let h = StringHostObject::decode(&[0xE9], NSISOLatin1StringEncoding);
    assert!(matches!(&h, StringHostObject::Utf8(s) if s == "é"));
}

#[test]
fn converting_to_utf16_in_place() {
    let mut h = StringHostObject::Utf8(String::from("a😀"));
    assert!(h.convert_to_utf16_inplace());
    assert!(matches!(&h, StringHostObject::Utf16(v) if v == &vec![0x61, 0xD83D, 0xDE00]));
    assert!(!h.convert_to_utf16_inplace());
    assert_eq!(h.to_utf8(), Some(String::from("a😀")));
    let bad = StringHostObject::Utf16(vec![0xD800]);
    assert_eq!(bad.to_utf8(), None);
}

#[test]
fn formatted_output_becomes_the_string() {
    let mut env = Environment::new();
    let s = from_rust_string(&mut env, String::from("old"));
    assert_eq!(init_with_format_inner(&mut env, s, b"x=5"), s);
    assert_eq!(to_rust_string(&mut env, s), "x=5");
    assert_eq!(with_format_output(b"ok\xff"), "ok\u{FFFD}");
}
