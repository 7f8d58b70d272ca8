use touchhle::frameworks::foundation::ns_character_set::CharacterSetHostObject;
use touchhle::frameworks::foundation::ns_string_search::{range_of_character_from_set, NSBackwardsSearch};
use touchhle::frameworks::foundation::{NSNotFound, NSRange};

fn units(s: &str) -> Vec<u16> {
    s.encode_utf16().collect()
}

#[test]
fn set_from_string_and_membership() {
    let set = CharacterSetHostObject::with_characters(&units("aeiou"));
    assert!(set.character_is_member(b'e' as u16));
    assert!(!set.character_is_member(b'x' as u16));
    assert!(set.set.len() == 5);
    let mut inverted = set.copy(true);
    assert!(!inverted.character_is_member(b'e' as u16));
    assert!(inverted.character_is_member(b'x' as u16));
    inverted.invert();
    assert!(inverted.equals(&set));
}

#[test]
fn set_from_range_keeps_the_basic_plane() {
    let set = CharacterSetHostObject::with_range(NSRange { location: 0xFFFE, length: 4 });
    assert!(set.set.len() == 2);
    assert!(set.character_is_member(0xFFFF));
    assert!(!set.character_is_member(0x0000));
    let digits = CharacterSetHostObject::with_range(NSRange { location: 0x30, length: 10 });
    assert!(digits.character_is_member(b'9' as u16));
    assert!(!digits.character_is_member(b':' as u16));
}

#[test]
fn set_mutation() {
    let mut set = CharacterSetHostObject::new();
    assert!(!set.has_member_in_plane(0));
    set.add_characters(&units("abc"));
    set.add_range(NSRange { location: b'x' as u32, length: 3 });
    assert!(set.set.len() == 6);
    assert!(set.has_member_in_plane(0));
    assert!(!set.has_member_in_plane(1));
    set.remove_characters(&units("bz"));
    set.remove_range(NSRange { location: b'a' as u32, length: 1 });
    assert!(set.set.len() == 3);
    assert!(set.character_is_member(b'c' as u16) && set.character_is_member(b'x' as u16) && set.character_is_member(b'y' as u16));
    let other = CharacterSetHostObject::with_characters(&units("cq"));
    let mut union = set.copy(false);
    union.union_with(&other);
    assert!(union.set.len() == 4);
    let mut meet = set.copy(false);
    meet.intersect_with(&other);
    assert!(meet.set.len() == 1 && meet.character_is_member(b'c' as u16));
    assert!(union.is_superset_of(&set));
    assert!(!set.is_superset_of(&union));
    assert!(!union.is_superset_of(&other.copy(true)));
    assert!(!set.equals(&union));
}

#[test]
fn range_of_character_from_set_forward_and_backward() {
    let s = units("hello world");
    let vowels = CharacterSetHostObject::with_characters(&units("aeiou"));
    let all = NSRange { location: 0, length: 11 };
    assert!(range_of_character_from_set(&s, Some(&vowels), 0, all) == NSRange { location: 1, length: 1 });
    assert!(range_of_character_from_set(&s, Some(&vowels), NSBackwardsSearch, all) == NSRange { location: 7, length: 1 });
    let part = NSRange { location: 2, length: 3 };
    assert!(range_of_character_from_set(&s, Some(&vowels), 0, part) == NSRange { location: 4, length: 1 });
    let not_found = NSRange { location: NSNotFound as u32, length: 0 };
    assert!(range_of_character_from_set(&s, Some(&vowels), 0, NSRange { location: 2, length: 2 }) == not_found);
    assert!(range_of_character_from_set(&s, None, 0, all) == not_found);
    assert!(range_of_character_from_set(&s, Some(&vowels), 0, NSRange { location: 11, length: 1 }) == not_found);
    assert!(range_of_character_from_set(&s, Some(&vowels), 0, NSRange { location: 0, length: 0 }) == not_found);
    // The range is clipped to the string.
    assert!(range_of_character_from_set(&s, Some(&vowels), NSBackwardsSearch, NSRange { location: 5, length: 100 }) == NSRange { location: 7, length: 1 });
    let consonants = vowels.copy(true);
    assert!(range_of_character_from_set(&s, Some(&consonants), 0, all) == NSRange { location: 0, length: 1 });
}
