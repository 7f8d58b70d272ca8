use touchhle::environment::Environment;
use touchhle::frameworks::libxml2::{
    doc_from_bytes, reader_from_bytes, xmlChildrenNode, xmlCleanupParser, xmlClearParserCtxt,
    xmlCtxtGetLastError, xmlCtxtReadMemory, xmlDocGetRootElement, xmlFirstElementChild, xmlFree,
    xmlFreeDoc, xmlFreeParserCtxt, xmlFreeTextReader, xmlGetLastChild, xmlGetProp, xmlHasProp,
    xmlNewParserCtxt, xmlNextElementSibling, xmlNodeGetContent, xmlNodeListGetString,
    xmlParseMemory, xmlReadMemory, xmlStrcmp, xmlStrdup, xmlStrlen, xmlStrsub,
    xmlTextReaderAttributeCount, xmlTextReaderConstName, xmlTextReaderConstValue,
    xmlTextReaderDepth, xmlTextReaderGetAttribute, xmlTextReaderHasAttributes,
    xmlTextReaderIsEmptyElement, xmlTextReaderLocalName, xmlTextReaderName,
    xmlTextReaderNamespaceUri, xmlTextReaderNext, xmlTextReaderNextSibling,
    xmlTextReaderNodeType, xmlTextReaderPrefix, xmlTextReaderRead, xmlTextReaderReadInnerXml,
    xmlTextReaderReadOuterXml, xmlTextReaderValue, read_cstr_str,
};
use touchhle::frameworks::xml_parser::{xml_decode_entities, xml_parse_events, xml_trim, ReaderEvent};

fn cstr(env: &mut Environment, s: &[u8]) -> u32 {
    env.mem.alloc_and_write_cstr(s)
}

fn read(env: &Environment, p: u32) -> Vec<u8> {
    env.mem.cstr_at(p)
}

fn guest_bytes(env: &mut Environment, s: &[u8]) -> (u32, u32) {
    let p = env.mem.allocate(s.len() as u32);
    env.mem.write_bytes(p, s);
    (p, s.len() as u32)
}

const DOC: &[u8] = b"<?xml version=\"1.0\"?>\n<!-- c --><root a=\"1\" b='x&amp;y'><item id=\"7\">one</item><item/><other>t&lt;2&#65;</other></root>";

#[test]
fn parsing_events() {
    let evs = xml_parse_events(b"<a x=\"1\"><b/>hi</a>");
    assert_eq!(evs.len(), 5);
    assert!(matches!(&evs[0], ReaderEvent::Start { name, depth: 0, is_empty: false, attrs } if name == b"a" && attrs.len() == 1));
    assert!(matches!(&evs[1], ReaderEvent::Start { name, depth: 1, is_empty: true, .. } if name == b"b"));
    assert!(matches!(&evs[2], ReaderEvent::End { name, depth: 1 } if name == b"b"));
    assert!(matches!(&evs[3], ReaderEvent::Text { value, depth: 1 } if value == b"hi"));
    assert!(matches!(&evs[4], ReaderEvent::End { name, depth: 0 } if name == b"a"));
    assert!(xml_parse_events(b"").is_empty());
    let cdata = xml_parse_events(b"<a><![CDATA[<x>]]></a>");
    assert!(matches!(&cdata[1], ReaderEvent::Text { value, .. } if value == b"<x>"));
}

#[test]
fn entities_and_trim() {
    assert_eq!(xml_decode_entities(b"a&amp;b&lt;&gt;&apos;&quot;"), b"a&b<>'\"".to_vec());
    assert_eq!(xml_decode_entities(b"&#65;&#x42;&#X43;"), b"ABC".to_vec());
    assert_eq!(xml_decode_entities(b"&#233;"), "é".as_bytes().to_vec());
    assert_eq!(xml_decode_entities(b"&bogus; & &#xD800;"), b"&bogus; & &#xD800;".to_vec());
    assert_eq!(xml_trim(b" \t a b \r\n"), b"a b".to_vec());
    assert_eq!(xml_trim(b"   "), b"".to_vec());
}

#[test]
fn document_tree() {
    let mut env = Environment::new();
    let (p, n) = guest_bytes(&mut env, DOC);
    let doc = xmlReadMemory(&mut env, p, n, 0, 0, 0);
    assert_ne!(doc, 0);
    let root = xmlDocGetRootElement(&mut env, doc);
    assert_eq!(root, doc + 1);
    let first = xmlChildrenNode(&mut env, root);
    let last = xmlGetLastChild(&mut env, root);
    assert_eq!(first, doc + 2);
    // the self-closing <item/> closes only itself, so <other> is the last
    // child of <root>
    assert_eq!(last, doc + 4);
    assert_eq!(xmlFirstElementChild(&mut env, root), first);
    let second = xmlNextElementSibling(&mut env, first);
    assert_eq!(second, doc + 3);
    assert_eq!(xmlNextElementSibling(&mut env, second), last);
    assert_eq!(xmlNextElementSibling(&mut env, last), 0);
    let c = xmlNodeGetContent(&mut env, first);
    assert_eq!(read(&env, c), b"one".to_vec());
    let c = xmlNodeListGetString(&mut env, doc, doc + 4, 1);
    assert_eq!(read(&env, c), b"t<2A".to_vec());
    let c = xmlNodeGetContent(&mut env, 77);
    assert_eq!(read(&env, c), b"".to_vec());
    let name = cstr(&mut env, b"b");
    let v = xmlGetProp(&mut env, root, name);
    assert_eq!(read(&env, v), b"x&y".to_vec());
    assert_eq!(xmlHasProp(&mut env, root, name), 1);
    let missing = cstr(&mut env, b"zz");
    assert_eq!(xmlGetProp(&mut env, root, missing), 0);
    assert_eq!(xmlHasProp(&mut env, root, missing), 0);
    assert_eq!(xmlHasProp(&mut env, 12345, name), 0);
}

#[test]
fn documents_without_elements() {
    let mut env = Environment::new();
    let (p, n) = guest_bytes(&mut env, b"just text");
    let before = env.framework_state.libxml2.next_id;
    assert_eq!(xmlParseMemory(&mut env, p, n), 0);
    // the document's handle was used up all the same
    assert_eq!(env.framework_state.libxml2.next_id, before + 1);
    let (p2, _) = guest_bytes(&mut env, b"x");
    let before = env.framework_state.libxml2.next_id;
    assert_eq!(xmlCtxtReadMemory(&mut env, 0, p2, 0, 0, 0, 0), 0);
    assert_eq!(env.framework_state.libxml2.next_id, before);
    assert_eq!(doc_from_bytes(&mut env, b"<a/>"), before);
}

#[test]
fn self_closing_tags_close_only_themselves() {
    // The end event of a self-closing tag leaves the enclosing element
    // open, so the next element is its sibling.
    let mut env = Environment::new();
    let doc = doc_from_bytes(&mut env, b"<r><a>x</a><b/><c/></r>");
    let (r, a, b, c) = (doc + 1, doc + 2, doc + 3, doc + 4);
    assert_eq!(xmlDocGetRootElement(&mut env, doc), r);
    assert_eq!(xmlChildrenNode(&mut env, r), a);
    assert_eq!(xmlGetLastChild(&mut env, r), c);
    assert_eq!(xmlNextElementSibling(&mut env, a), b);
    assert_eq!(xmlNextElementSibling(&mut env, b), c);
    let nodes = &env.framework_state.libxml2.nodes;
    for k in [a, b, c] {
        assert_eq!(nodes.get(&k).unwrap().parent, r);
    }
    assert_eq!(nodes.get(&c).unwrap().prev_sib, b);
    assert_eq!(nodes.get(&r).unwrap().parent, 0);
    assert_eq!(nodes.get(&a).unwrap().content, b"x".to_vec());
}

#[test]
fn freeing_documents_and_handles() {
    let mut env = Environment::new();
    let d1 = doc_from_bytes(&mut env, b"<a><b>x</b></a>");
    let d2 = doc_from_bytes(&mut env, b"<c/>");
    xmlFreeDoc(&mut env, d1);
    assert_eq!(xmlDocGetRootElement(&mut env, d1), 0);
    assert_eq!(xmlChildrenNode(&mut env, d1 + 1), 0);
    assert!(!env.framework_state.libxml2.is_handle(d1 + 2));
    assert_eq!(xmlDocGetRootElement(&mut env, d2), d2 + 1);
    let ctxt = xmlNewParserCtxt(&mut env);
    assert!(env.framework_state.libxml2.is_handle(ctxt));
    xmlFree(&mut env, ctxt);
    assert!(!env.framework_state.libxml2.is_handle(ctxt));
    let ctxt2 = xmlNewParserCtxt(&mut env);
    assert!(ctxt2 > ctxt);
    xmlFreeParserCtxt(&mut env, ctxt2);
    assert!(!env.framework_state.libxml2.is_handle(ctxt2));
    xmlClearParserCtxt(&mut env);
    xmlCleanupParser(&mut env);
    assert_eq!(xmlCtxtGetLastError(&mut env, ctxt), 0);
}

#[test]
fn string_utilities() {
    let mut env = Environment::new();
    let a = cstr(&mut env, b"abc");
    let b = cstr(&mut env, b"abd");
    assert_eq!(xmlStrcmp(&mut env, a, b), -1);
    assert_eq!(xmlStrcmp(&mut env, b, a), 1);
    assert_eq!(xmlStrcmp(&mut env, a, a), 0);
    assert_eq!(xmlStrcmp(&mut env, 0, a), -1);
    assert_eq!(xmlStrlen(&mut env, a), 3);
    assert_eq!(xmlStrlen(&mut env, 0), 0);
    let d = xmlStrdup(&mut env, a);
    assert_ne!(d, a);
    assert_eq!(xmlStrcmp(&mut env, a, d), 0);
    assert_eq!(xmlStrdup(&mut env, 0), 0);
    let s = xmlStrsub(&mut env, a, 1, 5);
    assert_eq!(read(&env, s), b"bc".to_vec());
    let s = xmlStrsub(&mut env, a, 9, 1);
    assert_eq!(read(&env, s), b"".to_vec());
    assert_eq!(xmlStrsub(&mut env, 0, 0, 1), 0);
    let t = cstr(&mut env, "h\u{e9}".as_bytes());
    assert_eq!(read_cstr_str(&env, t), "hé");
}

#[test]
fn text_reader_walk() {
    let mut env = Environment::new();
    let r = reader_from_bytes(&mut env, b"<a x=\"1\" y=\"2\"><p:b/>hi</a>");
    assert_ne!(r, 0);
    assert_eq!(xmlTextReaderNodeType(&mut env, r), 0);
    assert_eq!(xmlTextReaderRead(&mut env, r), 1);
    assert_eq!(xmlTextReaderNodeType(&mut env, r), 1);
    assert_eq!(xmlTextReaderAttributeCount(&mut env, r), 2);
    assert_eq!(xmlTextReaderHasAttributes(&mut env, r), 1);
    let y = cstr(&mut env, b"y");
    let v = xmlTextReaderGetAttribute(&mut env, r, y);
    assert_eq!(read(&env, v), b"2".to_vec());
    let z = cstr(&mut env, b"z");
    assert_eq!(xmlTextReaderGetAttribute(&mut env, r, z), 0);
    assert_eq!(xmlTextReaderRead(&mut env, r), 1);
    let n = xmlTextReaderConstName(&mut env, r);
    assert_eq!(read(&env, n), b"p:b".to_vec());
    let n = xmlTextReaderLocalName(&mut env, r);
    assert_eq!(read(&env, n), b"b".to_vec());
    let n = xmlTextReaderPrefix(&mut env, r);
    assert_eq!(read(&env, n), b"p".to_vec());
    assert_eq!(xmlTextReaderIsEmptyElement(&mut env, r), 1);
    assert_eq!(xmlTextReaderDepth(&mut env, r), 1);
    assert_eq!(xmlTextReaderRead(&mut env, r), 1);
    assert_eq!(xmlTextReaderNodeType(&mut env, r), 15);
    assert_eq!(xmlTextReaderRead(&mut env, r), 1);
    assert_eq!(xmlTextReaderNodeType(&mut env, r), 3);
    let n = xmlTextReaderName(&mut env, r);
    assert_eq!(read(&env, n), b"#text".to_vec());
    let v = xmlTextReaderConstValue(&mut env, r);
    assert_eq!(read(&env, v), b"hi".to_vec());
    let v = xmlTextReaderValue(&mut env, r);
    assert_eq!(read(&env, v), b"hi".to_vec());
    let e = xmlTextReaderReadInnerXml(&mut env, r);
    assert_eq!(read(&env, e), b"".to_vec());
    let e = xmlTextReaderReadOuterXml(&mut env, r);
    assert_eq!(read(&env, e), b"".to_vec());
    let e = xmlTextReaderNamespaceUri(&mut env, r);
    assert_eq!(read(&env, e), b"".to_vec());
    assert_eq!(xmlTextReaderRead(&mut env, r), 1);
    assert_eq!(xmlTextReaderRead(&mut env, r), 0);
    // reading past the end keeps reporting the end
    assert_eq!(xmlTextReaderRead(&mut env, r), 0);
    assert_eq!(xmlTextReaderNodeType(&mut env, r), 0);
    xmlFreeTextReader(&mut env, r);
    assert_eq!(xmlTextReaderRead(&mut env, r), -1);
    assert_eq!(reader_from_bytes(&mut env, b""), 0);
}

#[test]
fn text_reader_skipping() {
    let mut env = Environment::new();
    let r = reader_from_bytes(&mut env, b"<r><a><x/></a><b/>t<c/></r>");
    assert_eq!(xmlTextReaderRead(&mut env, r), 1); // r
    assert_eq!(xmlTextReaderRead(&mut env, r), 1); // a
    // skip a's subtree: lands on the next start tag at depth 1 or less
    assert_eq!(xmlTextReaderNext(&mut env, r), 1);
    let n = xmlTextReaderConstName(&mut env, r);
    assert_eq!(read(&env, n), b"b".to_vec());
    // next sibling at depth 1 is c (the text is skipped)
    assert_eq!(xmlTextReaderNextSibling(&mut env, r), 1);
    let n = xmlTextReaderConstName(&mut env, r);
    assert_eq!(read(&env, n), b"c".to_vec());
    // no more siblings: an outer event comes first
    assert_eq!(xmlTextReaderNextSibling(&mut env, r), 0);
    assert_eq!(xmlTextReaderNext(&mut env, 4), -1);
    assert_eq!(xmlTextReaderNextSibling(&mut env, 4), -1);
}

#[test]
fn malformed_tags_still_give_events() {
    let evs = xml_parse_events(b"<a/");
    assert_eq!(evs.len(), 1);
    assert!(matches!(&evs[0], ReaderEvent::Start { name, depth: 0, is_empty: false, attrs } if name == b"a" && attrs.is_empty()));
    let evs = xml_parse_events(b"<a b=");
    assert!(matches!(&evs[0], ReaderEvent::Start { attrs, .. } if attrs.len() == 1 && attrs[0].name == b"b" && attrs[0].value.is_empty()));
    let evs = xml_parse_events(b"<a / b=\"1\"/>x</a>");
    assert!(matches!(&evs[0], ReaderEvent::Start { attrs, is_empty: true, .. } if attrs.len() == 1 && attrs[0].value == b"1"));
    assert!(matches!(&evs[1], ReaderEvent::End { .. }));
    let mut env = Environment::new();
    let doc = doc_from_bytes(&mut env, b"<r><a/</r>");
    assert_ne!(doc, 0);
}
