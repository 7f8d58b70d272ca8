use touchhle::environment::Environment;
use touchhle::frameworks::foundation::ns_string::{
    from_rust_string, from_u16_vec, get_bytes_buffer_inner, line_range_helper, to_rust_string,
    StringHostObject, NSUTF16BigEndianStringEncoding, NSUTF16LittleEndianStringEncoding,
};
use touchhle::frameworks::foundation::NSRange;
use touchhle::frameworks::foundation::ns_string::get_static_str;
use touchhle::frameworks::libsqlite3::{register_connection, sqlite3_close, SQLITE_ERROR, SQLITE_OK};
use touchhle::frameworks::libxml2::{doc_from_bytes, xmlStrcmp};
use touchhle::frameworks::xml_parser::{xml_decode_entities, xml_parse_events, xml_trim, ReaderEvent};
use touchhle::objc::{release, retain};

#[test]
fn children_name_their_parent_and_siblings_link_both_ways() {
    let mut env = Environment::new();
    let doc = doc_from_bytes(&mut env, b"<r><a>1</a><b>2</b><c>3</c></r>");
    let nodes = &env.framework_state.libxml2.nodes;
    for k in 2..5u32 {
        assert_eq!(nodes.get(&(doc + k)).unwrap().parent, doc + 1);
        assert_eq!(nodes.get(&(doc + k)).unwrap().doc_handle, doc);
    }
    assert_eq!(nodes.get(&(doc + 2)).unwrap().next_sib, doc + 3);
    assert_eq!(nodes.get(&(doc + 3)).unwrap().prev_sib, doc + 2);
    assert_eq!(nodes.get(&(doc + 3)).unwrap().next_sib, doc + 4);
    assert_eq!(nodes.get(&(doc + 4)).unwrap().prev_sib, doc + 3);
    assert_eq!(nodes.get(&(doc + 2)).unwrap().prev_sib, 0);
    assert_eq!(nodes.get(&(doc + 4)).unwrap().next_sib, 0);
    assert_eq!(nodes.get(&(doc + 1)).unwrap().parent, 0);
}

#[test]
fn strcmp_is_an_order() {
    let mut env = Environment::new();
    let words: Vec<u32> = [&b"b"[..], b"ab", b"abc", b""]
        .iter()
        .map(|w| env.mem.alloc_and_write_cstr(w))
        .collect();
    for &x in &words {
        assert_eq!(xmlStrcmp(&mut env, x, x), 0);
        for &y in &words {
            let a = xmlStrcmp(&mut env, x, y);
            let b = xmlStrcmp(&mut env, y, x);
            assert_eq!(a, -b);
        }
    }
}

#[test]
fn utf16_text_round_trips() {
    let mut env = Environment::new();
    let text = "x\u{10348}y\u{e9}";
    let units: Vec<u16> = text.encode_utf16().collect();
    let s = from_u16_vec(&mut env, units.clone());
    assert_eq!(to_rust_string(&mut env, s), text);
    let t = from_rust_string(&mut env, String::from(text));
    let buf = env.mem.allocate(32);
    for (enc, be) in [(NSUTF16LittleEndianStringEncoding, false), (NSUTF16BigEndianStringEncoding, true)] {
        assert!(get_bytes_buffer_inner(&mut env, t, buf, 32, enc, false));
        let bytes = env.mem.bytes_at(buf, 2 * units.len() as u32);
        let h = StringHostObject::decode(&bytes, enc);
        assert!(matches!(&h, StringHostObject::Utf16(v) if *v == units), "{}", be);
    }
}

#[test]
fn release_undoes_retain() {
    let mut env = Environment::new();
    let s = from_rust_string(&mut env, String::from("x"));
    retain(&mut env.objc, s);
    assert_eq!(env.objc.objects.get(&s).unwrap().refcount, 2);
    release(&mut env.objc, &mut env.mem, s);
    assert_eq!(env.objc.objects.get(&s).unwrap().refcount, 1);
    release(&mut env.objc, &mut env.mem, s);
    assert!(!env.objc.is_live(s));
    assert!(!env.mem.is_live_block(s));
}

#[test]
fn line_range_contains_range() {
    let s: Vec<u16> = "one\ntwo\r\nthree".encode_utf16().collect();
    for loc in 0..s.len() as u32 {
        for len in 0..(s.len() as u32 - loc) {
            let (start, end, _) = line_range_helper(&s, NSRange { location: loc, length: len }, true, true);
            assert!(start <= loc);
            assert!(end >= loc + len);
        }
    }
}

#[test]
fn empty_elements_are_paired_and_blank_text_dropped() {
    let evs = xml_parse_events(b"<a> <b x='1'/> \n<c/>t</a>");
    for (k, ev) in evs.iter().enumerate() {
        match ev {
            ReaderEvent::Start { name, depth, is_empty: true, .. } => {
                assert!(matches!(&evs[k + 1], ReaderEvent::End { name: n, depth: d } if n == name && d == depth));
            }
            ReaderEvent::Text { value, .. } => assert!(!xml_trim(value).is_empty()),
            _ => {}
        }
    }
    assert_eq!(evs.len(), 7);
}

#[test]
fn first_and_last_children_end_the_sibling_chain() {
    let mut env = Environment::new();
    let doc = doc_from_bytes(&mut env, b"<r><a/><b>x</b><c/></r>");
    let nodes = &env.framework_state.libxml2.nodes;
    let r = nodes.get(&(doc + 1)).unwrap();
    assert_eq!((r.first_child, r.last_child), (doc + 2, doc + 4));
    assert_eq!(nodes.get(&(doc + 2)).unwrap().prev_sib, 0);
    assert_eq!(nodes.get(&(doc + 4)).unwrap().next_sib, 0);
    let b = nodes.get(&(doc + 3)).unwrap();
    assert_eq!((b.first_child, b.last_child), (0, 0));
    let doc2 = doc_from_bytes(&mut env, b"<z/>");
    assert!(doc2 > doc + 4);
}

#[test]
fn entity_decoding_keeps_plain_text_and_never_grows() {
    assert_eq!(xml_decode_entities(b"plain text"), b"plain text".to_vec());
    for s in [&b"&amp;&lt;"[..], b"&#128512;", b"&#x1F600;", b"&bad;&", b"&#0;"] {
        assert!(xml_decode_entities(s).len() <= s.len());
    }
}

#[test]
fn closing_a_new_connection_undoes_opening_it() {
    let mut env = Environment::new();
    let p = env.mem.allocate(4);
    let before = env.framework_state.sqlite.handles.clone();
    let h = env.framework_state.sqlite.next_handle;
    assert_eq!(register_connection(&mut env, p), SQLITE_OK);
    assert_eq!(env.mem.read_u32(p), h);
    assert_eq!(sqlite3_close(&mut env, h), SQLITE_OK);
    assert_eq!(env.framework_state.sqlite.handles, before);
    assert_eq!(sqlite3_close(&mut env, h), SQLITE_ERROR);
}

#[test]
fn static_strings_read_back_their_text() {
    let mut env = Environment::new();
    let a = get_static_str(&mut env, "NSLocalizedDescription");
    let b = get_static_str(&mut env, "other");
    assert_eq!(get_static_str(&mut env, "NSLocalizedDescription"), a);
    assert_ne!(a, b);
    assert_eq!(to_rust_string(&mut env, a), "NSLocalizedDescription");
    assert_eq!(env.framework_state.ns_string.static_str_pool.len(), 2);
}

#[test]
fn line_ranges_end_with_one_terminator() {
    let s: Vec<u16> = "ab\r\ncd\nef".encode_utf16().collect();
    assert_eq!(line_range_helper(&s, NSRange { location: 1, length: 0 }, true, true), (0, 4, 2));
    assert_eq!(line_range_helper(&s, NSRange { location: 5, length: 0 }, true, true), (4, 7, 6));
    assert_eq!(line_range_helper(&s, NSRange { location: 8, length: 1 }, true, true), (7, 9, 9));
}

#[test]
fn nested_markup_gives_balanced_events() {
    let evs = xml_parse_events(b"<?xml version=\"1.0\"?><r a='1'><a>x</a><!-- c --><b/><c><d/>t</c></r>");
    let mut open: Vec<Vec<u8>> = Vec::new();
    for ev in &evs {
        match ev {
            ReaderEvent::Start { name, depth, .. } => {
                assert_eq!(*depth as usize, open.len());
                open.push(name.clone());
            }
            ReaderEvent::Text { depth, .. } => assert_eq!(*depth as usize, open.len()),
            ReaderEvent::End { name, depth } => {
                assert_eq!(open.pop().as_ref(), Some(name));
                assert_eq!(*depth as usize, open.len());
            }
        }
    }
    assert!(open.is_empty());
}
